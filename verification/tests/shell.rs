use rexplorer::config::{validateData, watchStep, WatchAction, WindowBox, WindowInfo};
use rexplorer::dirview::UIFile;
use rexplorer::icon::hasRasterExtension;
use rexplorer::paths::{
    classifyOpen,
    directoryStatus,
    ensureDirSeparator,
    isInvalidOpenPath,
    makeComponents,
    PathInfo,
};
use rexplorer::rgba_img::RgbImg;
use rexplorer::ui::{centerWindow, getWindowPlacementMode, loadAnimationStep, PlacementMode};
use std::sync::Arc;

#[test]
fn window_box_construction() {
    let b = WindowBox::new(100, 200, 800, 600);
    assert_eq!(b.x, 100);
    assert_eq!(b.y, 200);
    assert_eq!(b.width, 800);
    assert_eq!(b.height, 600);
    let info = WindowInfo::new(b);
    assert!(!info.destroyed);
    assert_eq!(info.winBox, b);
}

#[test]
fn saved_geometry_validation() {
    assert!(validateData(&WindowBox::new(100, 100, 800, 600)));
    assert!(validateData(&WindowBox::new(-100, -100, 100, 100)));
    assert!(!validateData(&WindowBox::new(-200, 0, 100, 100)));
    assert!(!validateData(&WindowBox::new(0, -200, 100, 100)));
    assert!(validateData(&WindowBox::new(-100, 0, 100, 50)));
}

#[test]
fn watcher_decision() {
    let b = WindowBox::new(1, 2, 3, 4);
    let moved = WindowBox::new(9, 2, 3, 4);
    assert!(matches!(watchStep(true, &Some(b), &b), WatchAction::Stop));
    assert!(matches!(watchStep(false, &Some(b), &b), WatchAction::Keep));
    assert!(matches!(watchStep(false, &Some(b), &moved), WatchAction::Save));
    assert!(matches!(watchStep(false, &None, &b), WatchAction::Save));
}

#[test]
fn placement_mode_classification() {
    assert_eq!(getWindowPlacementMode(1), Ok(PlacementMode::REGULAR));
    assert_eq!(getWindowPlacementMode(2), Ok(PlacementMode::MINIMIZED));
    assert_eq!(getWindowPlacementMode(3), Ok(PlacementMode::MAXIMIZED));
    assert_eq!(getWindowPlacementMode(0), Err(0));
    assert_eq!(getWindowPlacementMode(7), Err(7));
}

#[test]
fn window_centering() {
    assert_eq!(centerWindow(0, 0, 1920, 1080, 800, 600), (560, 240));
    assert_eq!(centerWindow(100, 50, 1000, 1000, 400, 400), (400, 350));
    // a window larger than the monitor is centered beyond the corner
    assert_eq!(centerWindow(0, 0, 400, 400, 800, 600), (-200, -100));
}

#[test]
fn animation_tick() {
    assert_eq!(loadAnimationStep(false, true, 0), (true, false));
    assert_eq!(loadAnimationStep(false, true, 300), (true, true));
    assert_eq!(loadAnimationStep(true, false, 300), (true, false));
    assert_eq!(loadAnimationStep(false, false, 300), (false, false));
}

#[test]
fn raster_extensions() {
    assert!(hasRasterExtension("jpg"));
    assert!(hasRasterExtension("png"));
    assert!(!hasRasterExtension("txt"));
    assert!(!hasRasterExtension("jpeg"));
    assert!(!hasRasterExtension(""));
}

#[test]
fn directory_keys_end_with_the_separator() {
    assert_eq!(ensureDirSeparator("/home/user", true, "/"), "/home/user/");
    assert_eq!(ensureDirSeparator("/home/user/", true, "/"), "/home/user/");
    assert_eq!(ensureDirSeparator("/home/user/file", false, "/"), "/home/user/file");
}

#[test]
fn degenerate_paths_are_refused() {
    assert!(isInvalidOpenPath(""));
    assert!(isInvalidOpenPath("."));
    assert!(isInvalidOpenPath("./"));
    assert!(!isInvalidOpenPath("/"));
    assert!(!isInvalidOpenPath("/home"));
}

#[test]
fn status_lines() {
    assert_eq!(directoryStatus(0), "This folder is empty");
    assert_eq!(directoryStatus(3), "Ok directory");
}

fn row(name: &str, path: &str) -> UIFile {
    UIFile {
        name: String::from(name),
        fullPath: String::from(path),
        icon: Arc::new(RgbImg::new(vec![0, 0, 0, 255], 1, 1, true)),
    }
}

#[test]
fn open_classification() {
    let invalid = classifyOpen(&String::from("."), None, false, &String::from("unused"));
    match invalid {
        PathInfo::Fail(m) => assert_eq!(m, "Invalid path"),
        _ => panic!("expected a failure"),
    }

    let empty = classifyOpen(&String::from("/d/"), Some(vec![]), false, &String::from(""));
    match empty {
        PathInfo::Dir(d) => {
            assert_eq!(d.directory.status, "This folder is empty");
            assert_eq!(d.directory.fullPath, "/d/");
        },
        _ => panic!("expected a directory"),
    }

    let listed = classifyOpen(
        &String::from("/d/"),
        Some(vec![row("a", "/d/a")]),
        false,
        &String::from(""),
    );
    match listed {
        PathInfo::Dir(d) => {
            assert_eq!(d.directory.status, "Ok directory");
            assert_eq!(d.directory.files.len(), 1);
        },
        _ => panic!("expected a directory"),
    }

    let file = classifyOpen(&String::from("/d/a.txt"), None, true, &String::from(""));
    assert!(matches!(file, PathInfo::File));

    let failed = classifyOpen(
        &String::from("/gone"),
        None,
        false,
        &String::from("No such directory"),
    );
    match failed {
        PathInfo::Fail(m) => assert_eq!(m, "No such directory"),
        _ => panic!("expected a failure"),
    }
}

#[test]
fn breadcrumbs_join_cumulatively() {
    let comps = vec![
        (String::from("/"), true),
        (String::from("home"), false),
        (String::from("user"), false),
    ];
    let rows = makeComponents(&comps, "/");
    assert_eq!(rows.len(), 2);
    assert_eq!(rows[0].name, "home");
    assert_eq!(rows[0].fullPath, "/home/");
    assert_eq!(rows[1].name, "user");
    assert_eq!(rows[1].fullPath, "/home/user/");
}

#[test]
fn breadcrumbs_keep_a_lone_root() {
    let comps = vec![(String::from("/"), true)];
    let rows = makeComponents(&comps, "/");
    assert_eq!(rows.len(), 1);
    assert_eq!(rows[0].name, "/");
    assert_eq!(rows[0].fullPath, "//");
}
