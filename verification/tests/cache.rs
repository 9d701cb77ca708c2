use std::sync::Arc;

use rexplorer::icon::{GlobalIcons, LookupResult};
use rexplorer::rgba_img::RgbImg;

fn solidImage(r: u8, g: u8, b: u8, placeholder: bool) -> RgbImg {
    RgbImg::new(vec![r, g, b, 255], 1, 1, placeholder)
}

fn freshCache() -> GlobalIcons {
    let default = Arc::new(solidImage(1, 1, 1, true));
    let folder = Arc::new(solidImage(2, 2, 2, true));
    GlobalIcons::new(default, folder)
}

#[test]
fn first_lookup_reserves() {
    let mut cache = freshCache();
    let r = cache.lookupOrReserve("/tmp/a.png", 1000);
    assert!(matches!(r, LookupResult::Reserved));
    assert!(cache.containsKey("/tmp/a.png"));
    assert_eq!(cache.cachedCount(), 1);
}

#[test]
fn second_lookup_is_not_reserved() {
    let mut cache = freshCache();
    let first = cache.lookupOrReserve("/tmp/a.png", 1000);
    assert!(matches!(first, LookupResult::Reserved));
    let second = cache.lookupOrReserve("/tmp/a.png", 1001);
    assert!(matches!(second, LookupResult::AlreadyLoading));
    let third = cache.lookupOrReserve("/tmp/a.png", 1002);
    assert!(matches!(third, LookupResult::AlreadyLoading));
    assert_eq!(cache.cachedCount(), 1);
}

#[test]
fn complete_resolves_the_reservation() {
    let mut cache = freshCache();
    cache.lookupOrReserve("/tmp/a.png", 1000);
    cache.complete("/tmp/a.png", Arc::new(solidImage(9, 8, 7, false)), 1500);
    match cache.lookupOrReserve("/tmp/a.png", 2000) {
        LookupResult::AlreadyLoaded(img) => {
            assert_eq!(img.pixelBytes(), &vec![9, 8, 7, 255]);
            assert!(!img.isDefault());
        },
        _ => panic!("expected the resolved image"),
    }
}

#[test]
fn complete_on_absent_key_is_a_noop() {
    let mut cache = freshCache();
    cache.complete("/nowhere", Arc::new(solidImage(3, 3, 3, false)), 100);
    assert!(!cache.containsKey("/nowhere"));
    assert_eq!(cache.cachedCount(), 0);
}

#[test]
fn complete_on_resolved_key_is_a_noop() {
    let mut cache = freshCache();
    cache.lookupOrReserve("/tmp/a.png", 0);
    cache.complete("/tmp/a.png", Arc::new(solidImage(9, 8, 7, false)), 10);
    cache.complete("/tmp/a.png", Arc::new(solidImage(1, 2, 3, false)), 20);
    match cache.lookupOrReserve("/tmp/a.png", 30) {
        LookupResult::AlreadyLoaded(img) => {
            assert_eq!(img.pixelBytes(), &vec![9, 8, 7, 255]);
        },
        _ => panic!("expected the first completion to win"),
    }
}

#[test]
fn generations_increase_and_fence() {
    let mut cache = freshCache();
    let g1 = cache.nextGeneration();
    assert_eq!(g1, 1);
    assert!(cache.isCurrent(g1));
    let g2 = cache.nextGeneration();
    assert_eq!(g2, 2);
    assert!(!cache.isCurrent(g1));
    assert!(cache.isCurrent(g2));
}

#[test]
fn resolve_icon_degrades_to_placeholders() {
    let cache = freshCache();
    let missing = cache.resolveIcon(false, false, None);
    assert!(missing.isDefault());
    assert_eq!(missing.pixelBytes(), &vec![1, 1, 1, 255]);
    let folder = cache.resolveIcon(true, true, None);
    assert!(folder.isDefault());
    assert_eq!(folder.pixelBytes(), &vec![2, 2, 2, 255]);
    let failed = cache.resolveIcon(true, false, None);
    assert_eq!(failed.pixelBytes(), &vec![1, 1, 1, 255]);
    let genuine = cache.resolveIcon(true, false, Some(solidImage(5, 5, 5, false)));
    assert!(!genuine.isDefault());
    assert_eq!(genuine.pixelBytes(), &vec![5, 5, 5, 255]);
}
