use std::sync::Arc;

use rexplorer::coordinator::{FileLoaderAction, LoadedIcon};
use rexplorer::dirview::{
    applyPlan,
    drainActions,
    patchModeOf,
    DirectoryReader,
    PatchMode,
    UIDirectoryInfo,
    UIFile,
};
use rexplorer::rgba_img::RgbImg;

fn solidImage(v: u8) -> Arc<RgbImg> {
    Arc::new(RgbImg::new(vec![v, v, v, 255], 1, 1, false))
}

fn placeholder() -> Arc<RgbImg> {
    Arc::new(RgbImg::new(vec![0, 0, 0, 255], 1, 1, true))
}

fn row(name: &str, path: &str) -> UIFile {
    UIFile { name: String::from(name), fullPath: String::from(path), icon: placeholder() }
}

fn sampleReader() -> DirectoryReader {
    let files = vec![
        row("a.png", "/d/a.png"),
        row("b.txt", "/d/b.txt"),
        row("sub", "/d/sub/"),
    ];
    DirectoryReader::make("/d/", "Ok directory", files)
}

fn update(path: &str, icon: Arc<RgbImg>) -> FileLoaderAction {
    FileLoaderAction::UpdateFile(LoadedIcon { image: icon, path: String::from(path) })
}

#[test]
fn reader_indexes_every_row() {
    let reader = sampleReader();
    assert_eq!(reader.rowOf(&String::from("/d/a.png")), Some(0));
    assert_eq!(reader.rowOf(&String::from("/d/b.txt")), Some(1));
    assert_eq!(reader.rowOf(&String::from("/d/sub/")), Some(2));
    assert_eq!(reader.rowOf(&String::from("/elsewhere")), None);
    assert_eq!(reader.directory.fullPath, "/d/");
    assert_eq!(reader.directory.status, "Ok directory");
    assert_eq!(reader.directory.files.len(), 3);
}

#[test]
fn duplicate_paths_index_to_the_last_row() {
    let files = vec![row("a", "/d/a"), row("again", "/d/a")];
    let reader = DirectoryReader::make("/d/", "Ok directory", files);
    assert_eq!(reader.rowOf(&String::from("/d/a")), Some(1));
}

#[test]
fn drain_batches_events_with_last_write_winning() {
    let reader = sampleReader();
    let actions = vec![
        FileLoaderAction::MakeUI,
        update("/d/a.png", solidImage(10)),
        update("/d/b.txt", solidImage(20)),
        update("/d/a.png", solidImage(30)),
        update("/not/listed", solidImage(40)),
        FileLoaderAction::End,
    ];
    let plan = drainActions(&reader, &actions);
    assert!(plan.makeUI);
    assert!(plan.discard);
    assert_eq!(plan.dirty.len(), 2);
    let mut byRow: Vec<(usize, Vec<u8>)> =
        plan.dirty.iter().map(|(i, img)| (*i, img.pixelBytes().clone())).collect();
    byRow.sort();
    assert_eq!(byRow[0], (0, vec![30, 30, 30, 255]));
    assert_eq!(byRow[1], (1, vec![20, 20, 20, 255]));
}

#[test]
fn drain_of_no_events_plans_nothing() {
    let reader = sampleReader();
    let plan = drainActions(&reader, &vec![]);
    assert!(!plan.makeUI);
    assert!(!plan.discard);
    assert!(plan.dirty.is_empty());
    assert!(matches!(patchModeOf(&plan), PatchMode::NoChange));
}

/// Fencing on the consumer side: an event for a path outside this
/// request's listing patches nothing.
#[test]
fn foreign_updates_never_touch_these_rows() {
    let reader = sampleReader();
    let actions = vec![update("/other/dir/x.png", solidImage(50))];
    let plan = drainActions(&reader, &actions);
    assert!(plan.dirty.is_empty());
    assert!(!plan.makeUI);
    assert!(!plan.discard);
}

fn modelOf(reader: &DirectoryReader) -> UIDirectoryInfo {
    reader.directory.clone()
}

#[test]
fn few_patches_are_applied_in_place() {
    let reader = sampleReader();
    let actions = vec![update("/d/a.png", solidImage(10))];
    let plan = drainActions(&reader, &actions);
    assert!(matches!(patchModeOf(&plan), PatchMode::InPlace));
    let mut model = modelOf(&reader);
    applyPlan(&mut model, &plan);
    assert_eq!(model.files[0].icon.pixelBytes(), &vec![10, 10, 10, 255]);
    assert!(model.files[1].icon.isDefault());
    assert!(model.files[2].icon.isDefault());
    assert_eq!(model.files[0].name, "a.png");
    assert_eq!(model.files.len(), 3);
}

#[test]
fn rows_and_events_describe_themselves() {
    let f = row("a.png", "/d/a.png");
    assert_eq!(f.describe(), "a.png -> '/d/a.png'");
    assert_eq!(FileLoaderAction::MakeUI.describe(), "MakeUI");
    assert_eq!(FileLoaderAction::End.describe(), "END");
    assert_eq!(update("/d/a.png", solidImage(1)).describe(), "UpdateFile{/d/a.png}");
}

#[test]
fn many_patches_rebuild_the_rows() {
    let names: Vec<String> = (0..8).map(|i| format!("f{i}")).collect();
    let files: Vec<UIFile> =
        names.iter().map(|n| row(n, &format!("/d/{n}"))).collect();
    let reader = DirectoryReader::make("/d/", "Ok directory", files);
    let actions: Vec<FileLoaderAction> =
        (0..8).map(|i| update(&format!("/d/f{i}"), solidImage(100 + i as u8))).collect();
    let plan = drainActions(&reader, &actions);
    assert_eq!(plan.dirty.len(), 8);
    assert!(matches!(patchModeOf(&plan), PatchMode::Rebuild));
    let mut model = modelOf(&reader);
    applyPlan(&mut model, &plan);
    for i in 0..8usize {
        assert_eq!(model.files[i].icon.pixelBytes()[0], 100 + i as u8);
        assert_eq!(model.files[i].name, format!("f{i}"));
    }
}
