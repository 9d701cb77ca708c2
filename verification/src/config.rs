//! Window geometry persistence: the saved window box, its validity check,
//! and the decision step of the background watcher that writes changes out.
use vstd::prelude::*;

verus! {

/// Saved position and size of the main window.
#[derive(Clone, Copy, PartialEq, Eq, Structural, Debug)]
pub struct WindowBox {
    pub x: i32,
    pub y: i32,
    pub width: u32,
    pub height: u32,
}

impl WindowBox {
    pub fn new(x: i32, y: i32, width: u32, height: u32) -> (r: Self)
        ensures
            r.x == x,
            r.y == y,
            r.width == width,
            r.height == height,
    {
        Self { x, y, width, height }
    }
}

/// A saved window box is acceptable when its right and bottom edges do not
/// lie left of or above the screen origin.
pub open spec fn spec_validData(s: WindowBox) -> bool {
    s.width + s.x >= 0 && s.height + s.y >= 0
}

/// Validity check applied to a window box read back from disk.
pub fn validateData(s: &WindowBox) -> (r: bool)
    ensures
        r == spec_validData(*s),
{
    s.width as i64 + s.x as i64 >= 0 && s.height as i64 + s.y as i64 >= 0
}

/// The live window state shared with the persistence watcher.
#[derive(Clone, Copy, PartialEq, Eq, Structural, Debug)]
pub struct WindowInfo {
    pub winBox: WindowBox,
    pub destroyed: bool,
}

impl WindowInfo {
    pub fn new(winBox: WindowBox) -> (r: Self)
        ensures
            r.winBox == winBox,
            r.destroyed == false,
    {
        Self { winBox, destroyed: false }
    }
}

/// What one tick of the persistence watcher should do.
pub enum WatchAction {
    /// The window is gone: the watcher stops.
    Stop,
    /// The geometry equals the last saved state: nothing to write.
    Keep,
    /// The geometry changed: save it and remember it as the new last state.
    Save,
}

/// Whether the current geometry equals the last state written to disk.
pub open spec fn sameAsSaved(orgState: Option<WindowBox>, current: WindowBox) -> bool {
    match orgState {
        Some(s) => s == current,
        None => false,
    }
}

/// Decision step of the window-state watcher: stop once the window is
/// destroyed, skip the write when the geometry is unchanged, save otherwise.
pub fn watchStep(destroyed: bool, orgState: &Option<WindowBox>, current: &WindowBox) -> (r:
    WatchAction)
    ensures
        destroyed ==> (r matches WatchAction::Stop),
        (!destroyed && sameAsSaved(*orgState, *current)) ==> (r matches WatchAction::Keep),
        (!destroyed && !sameAsSaved(*orgState, *current)) ==> (r matches WatchAction::Save),
{
    if destroyed {
        return WatchAction::Stop;
    }
    match orgState {
        Some(s) => {
            if *s == *current {
                WatchAction::Keep
            } else {
                WatchAction::Save
            }
        },
        None => WatchAction::Save,
    }
}

} // verus!
