use std::sync::Arc;

use rexplorer::coordinator::{runRequest, FileLoaderAction, LoadCoordinator};
use rexplorer::icon::GlobalIcons;
use rexplorer::rgba_img::RgbImg;

fn solidImage(v: u8, placeholder: bool) -> RgbImg {
    RgbImg::new(vec![v, v, v, 255], 1, 1, placeholder)
}

fn freshCache() -> GlobalIcons {
    let default = Arc::new(solidImage(1, true));
    let folder = Arc::new(solidImage(2, true));
    GlobalIcons::new(default, folder)
}

fn updatePaths(events: &[FileLoaderAction]) -> Vec<String> {
    let mut out = Vec::new();
    for e in events {
        if let FileLoaderAction::UpdateFile(ic) = e {
            out.push(ic.path.clone());
        }
    }
    out
}

/// The directory scenario: a decodable image, a plain text file, and a
/// subdirectory. Only the genuine thumbnail produces an update.
#[test]
fn directory_with_one_genuine_thumbnail() {
    let mut cache = freshCache();
    let paths = vec![
        String::from("/d/a.png"),
        String::from("/d/b.txt"),
        String::from("/d/sub/"),
    ];
    let icons = vec![
        Arc::new(solidImage(9, false)),
        cache.default.clone(),
        cache.folder.clone(),
    ];
    let events = runRequest(&mut cache, &paths, &icons, 1000);
    assert_eq!(events.len(), 3);
    assert!(matches!(events[0], FileLoaderAction::MakeUI));
    match &events[1] {
        FileLoaderAction::UpdateFile(ic) => {
            assert_eq!(ic.path, "/d/a.png");
            assert!(!ic.image.isDefault());
            assert_eq!(ic.image.pixelBytes(), &vec![9, 9, 9, 255]);
        },
        _ => panic!("expected the update for a.png"),
    }
    assert!(matches!(events[2], FileLoaderAction::End));
}

/// Event ordering: `MakeUI` first, `End` last and unique, nothing after
/// `End`, no path updated twice.
#[test]
fn trace_is_well_ordered() {
    let mut cache = freshCache();
    let paths: Vec<String> = (0..10).map(|i| format!("/d/f{i}.png")).collect();
    let icons: Vec<Arc<RgbImg>> = (0..10)
        .map(|i| {
            if i % 2 == 0 {
                Arc::new(solidImage(i as u8 + 10, false))
            } else {
                cache.default.clone()
            }
        })
        .collect();
    let events = runRequest(&mut cache, &paths, &icons, 0);
    assert!(matches!(events[0], FileLoaderAction::MakeUI));
    assert!(matches!(events[events.len() - 1], FileLoaderAction::End));
    let makeuis = events.iter().filter(|e| matches!(e, FileLoaderAction::MakeUI)).count();
    let ends = events.iter().filter(|e| matches!(e, FileLoaderAction::End)).count();
    assert_eq!(makeuis, 1);
    assert_eq!(ends, 1);
    let mut updated = updatePaths(&events);
    let total = updated.len();
    updated.sort();
    updated.dedup();
    assert_eq!(updated.len(), total);
}

/// Completeness: N entries with K placeholder results produce exactly
/// N - K update events.
#[test]
fn completeness_counts_genuine_icons() {
    let mut cache = freshCache();
    let paths: Vec<String> = (0..5).map(|i| format!("/d/f{i}")).collect();
    let icons = vec![
        Arc::new(solidImage(11, false)),
        cache.default.clone(),
        Arc::new(solidImage(12, false)),
        cache.folder.clone(),
        Arc::new(solidImage(13, false)),
    ];
    let events = runRequest(&mut cache, &paths, &icons, 0);
    assert_eq!(updatePaths(&events).len(), 3);
    assert_eq!(events.len(), 5);
}

/// Re-opening a directory while its first request is still loading must
/// not dispatch any duplicate decodes.
#[test]
fn reopen_while_loading_dispatches_nothing() {
    let mut cache = freshCache();
    let paths = vec![String::from("/d/a.png"), String::from("/d/b.png")];
    let (_first, firstEvents, firstDispatch) = LoadCoordinator::start(&mut cache, &paths, 0);
    assert_eq!(firstDispatch.len(), 2);
    assert_eq!(firstEvents.len(), 1);
    let (_second, secondEvents, secondDispatch) = LoadCoordinator::start(&mut cache, &paths, 1);
    assert!(secondDispatch.is_empty());
    assert_eq!(secondEvents.len(), 1);
    assert!(matches!(secondEvents[0], FileLoaderAction::MakeUI));
}

/// A listing that repeats a path dispatches its decode only once.
#[test]
fn duplicate_paths_dispatch_once() {
    let mut cache = freshCache();
    let paths = vec![
        String::from("/d/a.png"),
        String::from("/d/a.png"),
        String::from("/d/b.png"),
    ];
    let (_c, _events, dispatch) = LoadCoordinator::start(&mut cache, &paths, 0);
    assert_eq!(dispatch.len(), 2);
    assert_eq!(dispatch[0], "/d/a.png");
    assert_eq!(dispatch[1], "/d/b.png");
}

/// Generation fencing: once a second directory is opened, the first
/// request's late completions emit no update, yet it still ends exactly
/// once.
#[test]
fn superseded_request_is_fenced() {
    let mut cache = freshCache();
    let pathsA = vec![String::from("/a/x.png")];
    let (mut coordA, eventsA, dispatchA) = LoadCoordinator::start(&mut cache, &pathsA, 0);
    assert_eq!(dispatchA.len(), 1);
    assert_eq!(eventsA.len(), 1);

    let pathsB = vec![String::from("/b/y.png")];
    let (_coordB, _eventsB, _dispatchB) = LoadCoordinator::start(&mut cache, &pathsB, 5);

    // A's decode finishes only now; the cache still benefits, the UI not
    let late = Arc::new(solidImage(9, false));
    cache.complete("/a/x.png", late.clone(), 10);
    let lateEvents = coordA.handleCompletion(&cache, &pathsA[0], &late);
    assert_eq!(lateEvents.len(), 1);
    assert!(matches!(lateEvents[0], FileLoaderAction::End));
    assert!(updatePaths(&lateEvents).is_empty());
    assert!(cache.containsKey("/a/x.png"));
}

/// A current request's completion emits the update and then the final end.
#[test]
fn current_request_emits_update_then_end() {
    let mut cache = freshCache();
    let paths = vec![String::from("/d/a.png"), String::from("/d/b.png")];
    let (mut coord, _events, dispatch) = LoadCoordinator::start(&mut cache, &paths, 0);
    assert_eq!(dispatch.len(), 2);

    let img = Arc::new(solidImage(7, false));
    cache.complete(&dispatch[0], img.clone(), 1);
    let first = coord.handleCompletion(&cache, &dispatch[0], &img);
    assert_eq!(first.len(), 1);
    match &first[0] {
        FileLoaderAction::UpdateFile(ic) => assert_eq!(ic.path, "/d/a.png"),
        _ => panic!("expected an update"),
    }

    let placeholder = cache.default.clone();
    cache.complete(&dispatch[1], placeholder.clone(), 2);
    let second = coord.handleCompletion(&cache, &dispatch[1], &placeholder);
    assert_eq!(second.len(), 1);
    assert!(matches!(second[0], FileLoaderAction::End));

    // a completion after the end is ignored
    let ghostly = coord.handleCompletion(&cache, &dispatch[0], &img);
    assert!(ghostly.is_empty());
}

/// A completion is broadcast to every request that awaits the path: the
/// superseded request stays silent but ends, the current one gets the
/// update and ends.
#[test]
fn broadcast_reaches_every_interested_request() {
    let mut cache = freshCache();
    let paths = vec![String::from("/d/shared.png")];
    let (mut coordA, _evA, dispatchA) = LoadCoordinator::start(&mut cache, &paths, 0);
    assert_eq!(dispatchA.len(), 1);
    // the second request finds the path already loading and only waits
    let (mut coordB, _evB, dispatchB) = LoadCoordinator::start(&mut cache, &paths, 1);
    assert!(dispatchB.is_empty());

    let img = Arc::new(solidImage(9, false));
    cache.complete("/d/shared.png", img.clone(), 2);
    let forA = coordA.handleCompletion(&cache, &paths[0], &img);
    let forB = coordB.handleCompletion(&cache, &paths[0], &img);
    // A was superseded by B: it ends without an update
    assert_eq!(forA.len(), 1);
    assert!(matches!(forA[0], FileLoaderAction::End));
    // B is current: it gets the update and then its end
    assert_eq!(forB.len(), 2);
    match &forB[0] {
        FileLoaderAction::UpdateFile(ic) => assert_eq!(ic.path, "/d/shared.png"),
        _ => panic!("expected the update"),
    }
    assert!(matches!(forB[1], FileLoaderAction::End));
}

/// Revisiting a directory whose icons are cached replays them immediately,
/// placeholders excepted.
#[test]
fn revisit_emits_cached_icons_up_front() {
    let mut cache = freshCache();
    let paths = vec![String::from("/d/a.png"), String::from("/d/b.txt")];
    let icons = vec![Arc::new(solidImage(9, false)), cache.default.clone()];
    runRequest(&mut cache, &paths, &icons, 0);

    let (_coord, events, dispatch) = LoadCoordinator::start(&mut cache, &paths, 50);
    assert!(dispatch.is_empty());
    assert_eq!(events.len(), 3);
    assert!(matches!(events[0], FileLoaderAction::MakeUI));
    assert_eq!(updatePaths(&events), vec![String::from("/d/a.png")]);
    assert!(matches!(events[2], FileLoaderAction::End));
}
