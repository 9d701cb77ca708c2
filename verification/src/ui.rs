//! Window-side decisions: classifying the native show-command of a window,
//! centering a window on a monitor, and the loading-animation tick.
use vstd::prelude::*;

verus! {

/// How a native window is currently shown.
#[derive(PartialEq, Eq, Structural, Debug)]
pub enum PlacementMode {
    REGULAR,
    MINIMIZED,
    MAXIMIZED,
}

/// Classify a native show-command value: 1 is a normally shown window, 2 a
/// minimized one, 3 a maximized one; anything else is illegal and handed
/// back to the caller.
pub fn getWindowPlacementMode(cmd: i32) -> (r: Result<PlacementMode, i32>)
    ensures
        cmd == 1 ==> r == Result::<PlacementMode, i32>::Ok(PlacementMode::REGULAR),
        cmd == 2 ==> r == Result::<PlacementMode, i32>::Ok(PlacementMode::MINIMIZED),
        cmd == 3 ==> r == Result::<PlacementMode, i32>::Ok(PlacementMode::MAXIMIZED),
        !(cmd == 1 || cmd == 2 || cmd == 3) ==> r == Result::<PlacementMode, i32>::Err(cmd),
{
    match cmd {
        1 => Ok(PlacementMode::REGULAR),
        2 => Ok(PlacementMode::MINIMIZED),
        3 => Ok(PlacementMode::MAXIMIZED),
        _ => Err(cmd),
    }
}

/// Half of a signed offset, rounded towards zero as machine division does.
pub open spec fn halfTowardsZero(a: int) -> int {
    if a >= 0 {
        a / 2
    } else {
        -((-a) / 2)
    }
}

/// Where a window of size `w` by `h` sits centered in the monitor rectangle
/// whose corner is (`left`, `top`) with the given extent.
pub fn centerWindow(left: i32, top: i32, monitorWidth: i32, monitorHeight: i32, w: u32, h: u32) -> (r:
    (i32, i32))
    requires
        w <= i32::MAX,
        h <= i32::MAX,
        i32::MIN <= left + halfTowardsZero(monitorWidth - w) <= i32::MAX,
        i32::MIN <= top + halfTowardsZero(monitorHeight - h) <= i32::MAX,
    ensures
        r.0 == left + halfTowardsZero(monitorWidth - w),
        r.1 == top + halfTowardsZero(monitorHeight - h),
{
    let x: i64 = left as i64 + (monitorWidth as i64 - w as i64) / 2;
    let y: i64 = top as i64 + (monitorHeight as i64 - h as i64) / 2;
    (x as i32, y as i32)
}

/// One tick of the loading animation: redraw while a request is loading and
/// once more when loading ends; show a frame only after the load has been
/// visible for the grace delay.
pub fn loadAnimationStep(lastLoading: bool, loading: bool, millisSinceLoadStart: u64) -> (r: (
    bool,
    bool,
))
    ensures
        r.0 == (loading || lastLoading != loading),
        r.1 == (loading && millisSinceLoadStart > 200),
{
    let update = loading || lastLoading != loading;
    let showFrame = loading && millisSinceLoadStart > 200;
    (update, showFrame)
}

} // verus!
