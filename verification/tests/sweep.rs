use std::sync::Arc;

use rexplorer::icon::{shouldEvict, GlobalIcons, LookupResult, MAX_AGE_MS, MIN_AGE_MS};
use rexplorer::rgba_img::RgbImg;

fn solidImage(v: u8, placeholder: bool) -> RgbImg {
    RgbImg::new(vec![v, v, v, 255], 1, 1, placeholder)
}

fn freshCache() -> GlobalIcons {
    let default = Arc::new(solidImage(1, true));
    let folder = Arc::new(solidImage(2, true));
    GlobalIcons::new(default, folder)
}

#[test]
fn no_eviction_below_min_age() {
    let mut cache = freshCache();
    cache.lookupOrReserve("/tmp/a.png", 0);
    cache.complete("/tmp/a.png", Arc::new(solidImage(9, false)), 0);
    for _ in 0..10000 {
        cache.sweepOnce(4900);
    }
    assert!(cache.containsKey("/tmp/a.png"));
}

#[test]
fn certain_eviction_at_max_age() {
    let mut cache = freshCache();
    cache.lookupOrReserve("/tmp/a.png", 0);
    cache.complete("/tmp/a.png", Arc::new(solidImage(9, false)), 0);
    cache.sweepOnce(MAX_AGE_MS);
    assert!(!cache.containsKey("/tmp/a.png"));
    assert_eq!(cache.cachedCount(), 0);
}

#[test]
fn loading_entries_are_never_evicted() {
    let mut cache = freshCache();
    cache.lookupOrReserve("/tmp/a.png", 0);
    for _ in 0..10000 {
        cache.sweepOnce(u64::MAX);
    }
    assert!(cache.containsKey("/tmp/a.png"));
}

#[test]
fn lookup_reheats_an_entry() {
    let mut cache = freshCache();
    cache.lookupOrReserve("/tmp/a.png", 0);
    cache.complete("/tmp/a.png", Arc::new(solidImage(9, false)), 0);
    // revisiting refreshes the access time, so a sweep far beyond the
    // original completion no longer sees a stale entry
    let revisit = cache.lookupOrReserve("/tmp/a.png", 200_000);
    assert!(matches!(revisit, LookupResult::AlreadyLoaded(_)));
    cache.sweepOnce(200_000 + MIN_AGE_MS);
    assert!(cache.containsKey("/tmp/a.png"));
    cache.sweepOnce(200_000 + MAX_AGE_MS);
    assert!(!cache.containsKey("/tmp/a.png"));
}

#[test]
fn eviction_after_a_stale_completion_still_leaves_the_cache_sound() {
    let mut cache = freshCache();
    cache.lookupOrReserve("/tmp/a.png", 0);
    cache.sweepOnce(u64::MAX);
    // the reservation survived the sweep; its completion lands normally
    cache.complete("/tmp/a.png", Arc::new(solidImage(9, false)), u64::MAX);
    assert!(cache.containsKey("/tmp/a.png"));
}

#[test]
fn should_evict_boundaries() {
    assert!(!shouldEvict(0, 0));
    assert!(!shouldEvict(4900, 0));
    assert!(!shouldEvict(MIN_AGE_MS, 0));
    assert!(!shouldEvict(MIN_AGE_MS, u32::MAX));
    // just past the minimum age only the very smallest draws evict
    assert!(shouldEvict(MIN_AGE_MS + 1, 0));
    assert!(!shouldEvict(MIN_AGE_MS + 1, 1));
    assert!(shouldEvict(MAX_AGE_MS, 0));
    assert!(shouldEvict(MAX_AGE_MS, u32::MAX));
    assert!(shouldEvict(u64::MAX, u32::MAX));
}

#[test]
fn should_evict_quartic_midpoint() {
    // halfway up the ramp the eviction probability is (1/2)^4 == 1/16:
    // draws below 2^32/16 evict, draws above it do not
    let mid = MIN_AGE_MS + (MAX_AGE_MS - MIN_AGE_MS) / 2;
    let threshold: u32 = (1u64 << 28) as u32;
    assert!(shouldEvict(mid, threshold - 1));
    assert!(!shouldEvict(mid, threshold));
}
