//! The directory view consumer: one request's pristine row listing with its
//! path-to-row index, and the per-tick drain that turns queued events into
//! a batched patch of the displayed rows.
use vstd::prelude::*;
use vstd::hash_map::StringHashMap;
use std::sync::Arc;
use crate::rgba_img::{RgbImg, cloneArc};
use crate::coordinator::FileLoaderAction;

verus! {

/// Ghost view of one displayed row.
pub ghost struct UIFileV {
    pub name: Seq<char>,
    pub fullPath: Seq<char>,
    pub icon: Arc<RgbImg>,
}

/// One displayed row: file name, full path, current icon.
pub struct UIFile {
    pub name: String,
    pub fullPath: String,
    pub icon: Arc<RgbImg>,
}

impl View for UIFile {
    type V = UIFileV;

    open spec fn view(&self) -> UIFileV {
        UIFileV { name: self.name@, fullPath: self.fullPath@, icon: self.icon }
    }
}

impl Clone for UIFile {
    fn clone(&self) -> (r: Self)
        ensures
            r@ == self@,
    {
        UIFile { name: self.name.clone(), fullPath: self.fullPath.clone(), icon: cloneArc(&self.icon) }
    }
}

impl UIFile {
    /// The row as text, as the logs show it.
    pub fn describe(&self) -> (r: String)
        ensures
            r@ == self@.name + " -> '"@ + self@.fullPath + "'"@,
    {
        let mut s = self.name.clone();
        s.append(" -> '");
        s.append(self.fullPath.as_str());
        s.append("'");
        s
    }
}

/// Ghost view of a displayed directory.
pub ghost struct UIDirectoryInfoV {
    pub files: Seq<UIFileV>,
    pub fullPath: Seq<char>,
    pub status: Seq<char>,
}

/// The displayed state of one directory: its rows, its path, a status line.
pub struct UIDirectoryInfo {
    pub files: Vec<UIFile>,
    pub fullPath: String,
    pub status: String,
}

impl View for UIDirectoryInfo {
    type V = UIDirectoryInfoV;

    open spec fn view(&self) -> UIDirectoryInfoV {
        UIDirectoryInfoV {
            files: self.files@.map_values(|f: UIFile| f@),
            fullPath: self.fullPath@,
            status: self.status@,
        }
    }
}

impl Clone for UIDirectoryInfo {
    fn clone(&self) -> (r: Self)
        ensures
            r@ == self@,
    {
        let mut files: Vec<UIFile> = Vec::new();
        let mut i: usize = 0;
        while i < self.files.len()
            invariant
                i <= self.files.len(),
                files@.len() == i,
                forall|j: int| 0 <= j < i ==> files@[j]@ == self.files@[j]@,
            decreases self.files.len() - i,
        {
            files.push(self.files[i].clone());
            i = i + 1;
        }
        let r = UIDirectoryInfo {
            files,
            fullPath: self.fullPath.clone(),
            status: self.status.clone(),
        };
        proof {
            assert(r@.files =~= self@.files);
        }
        r
    }
}

/// One open request as its consumer sees it: the pristine initial rows and
/// the path-to-row index built once when the rows were listed, read-only
/// afterwards.
pub struct DirectoryReader {
    pub directory: UIDirectoryInfo,
    pathIndex: StringHashMap<usize>,
}

impl DirectoryReader {
    /// The path-to-row index.
    pub closed spec fn indexView(&self) -> Map<Seq<char>, usize> {
        self.pathIndex@
    }

    /// The pristine listing this request displays.
    pub closed spec fn directoryView(&self) -> UIDirectoryInfoV {
        self.directory@
    }

    /// The index maps exactly the listed paths, each to the last row that
    /// carries it.
    pub open spec fn wf(&self) -> bool {
        &&& (forall|p: Seq<char>|
            #[trigger] self.indexView().contains_key(p) ==> self.indexView()[p]
                < self.directoryView().files.len() && self.directoryView().files[self.indexView()[p] as int].fullPath
                == p)
        &&& (forall|i: int|
            0 <= i < self.directoryView().files.len() ==> self.indexView().contains_key(
                #[trigger] self.directoryView().files[i].fullPath,
            ) && i <= self.indexView()[self.directoryView().files[i].fullPath])
    }

    /// Build a request's view: keep the listing and index every row's full
    /// path, later rows winning a shared path.
    pub fn make(path: &str, status: &str, files: Vec<UIFile>) -> (r: Self)
        ensures
            r.wf(),
            r.directoryView().files == files@.map_values(|f: UIFile| f@),
            r.directoryView().fullPath == path@,
            r.directoryView().status == status@,
    {
        let mut pathIndex: StringHashMap<usize> = StringHashMap::new();
        let mut i: usize = 0;
        while i < files.len()
            invariant
                i <= files.len(),
                forall|p: Seq<char>|
                    #[trigger] pathIndex@.contains_key(p) ==> pathIndex@[p] < i
                        && files@[pathIndex@[p] as int]@.fullPath == p,
                forall|j: int|
                    0 <= j < i ==> pathIndex@.contains_key(#[trigger] files@[j]@.fullPath) && j
                        <= pathIndex@[files@[j]@.fullPath],
            decreases files.len() - i,
        {
            pathIndex.insert(files[i].fullPath.clone(), i);
            i = i + 1;
        }
        let r = Self {
            directory: UIDirectoryInfo {
                files,
                fullPath: String::from_str(path),
                status: String::from_str(status),
            },
            pathIndex,
        };
        r
    }

    /// Row index of a path, if it was listed.
    pub fn rowOf(&self, path: &String) -> (r: Option<usize>)
        ensures
            match r {
                Some(i) => self.indexView().contains_key(path@) && i == self.indexView()[path@],
                None => !self.indexView().contains_key(path@),
            },
    {
        match self.pathIndex.get(path.as_str()) {
            Some(i) => Some(*i),
            None => None,
        }
    }
}

/// The batched effect of draining one tick's events.
pub struct UpdatePlan {
    /// Restart from the request's pristine listing before patching.
    pub makeUI: bool,
    /// Row patches, one entry per row, the last update for a row winning.
    pub dirty: Vec<(usize, Arc<RgbImg>)>,
    /// The request ended: its receiver can be discarded.
    pub discard: bool,
}

/// The row patches a drained event sequence owes, folded left to right:
/// the last update for a row wins; updates for unlisted paths are dropped.
pub open spec fn dirtyFold(idx: Map<Seq<char>, usize>, actions: Seq<FileLoaderAction>) -> Map<
    usize,
    Arc<RgbImg>,
>
    decreases actions.len(),
{
    if actions.len() == 0 {
        Map::empty()
    } else {
        let rest = dirtyFold(idx, actions.drop_last());
        match actions.last() {
            FileLoaderAction::UpdateFile(ic) => if idx.contains_key(ic.path@) {
                rest.insert(idx[ic.path@], ic.image)
            } else {
                rest
            },
            _ => rest,
        }
    }
}

/// Whether a drained event sequence holds a given kind of event.
pub open spec fn hasMakeUI(actions: Seq<FileLoaderAction>) -> bool {
    exists|i: int| 0 <= i < actions.len() && actions[i] is MakeUI
}

pub open spec fn hasEnd(actions: Seq<FileLoaderAction>) -> bool {
    exists|i: int| 0 <= i < actions.len() && actions[i] is End
}

/// Record a row patch, overwriting the row's earlier patch if one exists:
/// the last write for a row wins.
fn upsertDirty(dirty: &mut Vec<(usize, Arc<RgbImg>)>, row: usize, img: Arc<RgbImg>)
    requires
        forall|a: int, b: int|
            0 <= a < b < old(dirty)@.len() ==> old(dirty)@[a].0 != old(dirty)@[b].0,
    ensures
        forall|a: int, b: int|
            0 <= a < b < final(dirty)@.len() ==> final(dirty)@[a].0 != final(dirty)@[b].0,
        exists|a: int| 0 <= a < final(dirty)@.len() && final(dirty)@[a] == (row, img),
        forall|a: int|
            0 <= a < final(dirty)@.len() && (#[trigger] final(dirty)@[a]).0 != row
                ==> old(dirty)@.contains(final(dirty)@[a]),
        forall|a: int|
            0 <= a < old(dirty)@.len() && (#[trigger] old(dirty)@[a]).0 != row
                ==> final(dirty)@.contains(old(dirty)@[a]),
{
    match findDirty(dirty, row) {
        Some(a) => {
            dirty.set(a, (row, img));
            proof {
                assert(dirty@[a as int] == (row, img));
                assert forall|x: int, y: int| 0 <= x < y < dirty@.len() implies dirty@[x].0
                    != dirty@[y].0 by {
                    if x != a {
                        assert(dirty@[x] == old(dirty)@[x]);
                    }
                    if y != a {
                        assert(dirty@[y] == old(dirty)@[y]);
                    }
                }
                assert forall|c: int|
                    0 <= c < dirty@.len() && (#[trigger] dirty@[c]).0 != row implies old(
                    dirty,
                )@.contains(dirty@[c]) by {
                    assert(c != a);
                    assert(dirty@[c] == old(dirty)@[c]);
                }
                assert forall|c: int|
                    0 <= c < old(dirty)@.len() && (#[trigger] old(dirty)@[c]).0 != row implies
                    dirty@.contains(old(dirty)@[c]) by {
                    assert(c != a);
                    assert(dirty@[c] == old(dirty)@[c]);
                }
            }
        },
        None => {
            dirty.push((row, img));
            proof {
                assert(dirty@[dirty@.len() - 1] == (row, img));
                assert forall|x: int, y: int| 0 <= x < y < dirty@.len() implies dirty@[x].0
                    != dirty@[y].0 by {
                    if y == dirty@.len() - 1 {
                        assert(dirty@[x] == old(dirty)@[x]);
                    } else {
                        assert(dirty@[x] == old(dirty)@[x]);
                        assert(dirty@[y] == old(dirty)@[y]);
                    }
                }
                assert forall|c: int|
                    0 <= c < dirty@.len() && (#[trigger] dirty@[c]).0 != row implies old(
                    dirty,
                )@.contains(dirty@[c]) by {
                    assert(c < old(dirty)@.len());
                    assert(dirty@[c] == old(dirty)@[c]);
                }
                assert forall|c: int|
                    0 <= c < old(dirty)@.len() && (#[trigger] old(dirty)@[c]).0 != row implies
                    dirty@.contains(old(dirty)@[c]) by {
                    assert(dirty@[c] == old(dirty)@[c]);
                }
            }
        },
    }
}

/// Drain one tick's events into a batched plan: `MakeUI` asks for a row
/// rebuild from the pristine listing, each update patches its row with the
/// last write winning, `End` discards the request.
pub fn drainActions(reader: &DirectoryReader, actions: &Vec<FileLoaderAction>) -> (r: UpdatePlan)
    ensures
        r.makeUI == hasMakeUI(actions@),
        r.discard == hasEnd(actions@),
        ({
            let fold = dirtyFold(reader.indexView(), actions@);
            &&& (forall|a: int, b: int|
                0 <= a < b < r.dirty@.len() ==> r.dirty@[a].0 != r.dirty@[b].0)
            &&& (forall|a: int|
                0 <= a < r.dirty@.len() ==> fold.contains_key(#[trigger] r.dirty@[a].0)
                    && fold[r.dirty@[a].0] == r.dirty@[a].1)
            &&& (forall|i: usize|
                #[trigger] fold.contains_key(i) ==> exists|a: int|
                    0 <= a < r.dirty@.len() && r.dirty@[a].0 == i)
        }),
{
    let mut makeUI = false;
    let mut discard = false;
    let mut dirty: Vec<(usize, Arc<RgbImg>)> = Vec::new();
    let mut i: usize = 0;
    while i < actions.len()
        invariant
            i <= actions.len(),
            makeUI == hasMakeUI(actions@.take(i as int)),
            discard == hasEnd(actions@.take(i as int)),
            ({
                let fold = dirtyFold(reader.indexView(), actions@.take(i as int));
                &&& (forall|a: int, b: int|
                    0 <= a < b < dirty@.len() ==> dirty@[a].0 != dirty@[b].0)
                &&& (forall|a: int|
                    0 <= a < dirty@.len() ==> fold.contains_key(#[trigger] dirty@[a].0)
                        && fold[dirty@[a].0] == dirty@[a].1)
                &&& (forall|k: usize|
                    #[trigger] fold.contains_key(k) ==> exists|a: int|
                        0 <= a < dirty@.len() && dirty@[a].0 == k)
            }),
        decreases actions.len() - i,
    {
        proof {
            assert(actions@.take(i + 1).drop_last() =~= actions@.take(i as int));
            assert(actions@.take(i + 1).last() == actions@[i as int]);
        }
        let ghost foldPre = dirtyFold(reader.indexView(), actions@.take(i as int));
        match &actions[i] {
            FileLoaderAction::MakeUI => {
                makeUI = true;
                proof {
                    assert(actions@.take(i + 1)[i as int] is MakeUI);
                    assert(hasMakeUI(actions@.take(i + 1)));
                    if hasEnd(actions@.take(i + 1)) && !hasEnd(actions@.take(i as int)) {
                        let e = choose|e: int|
                            0 <= e < actions@.take(i + 1).len() && (#[trigger] actions@.take(
                                i + 1,
                            )[e]) is End;
                        assert(actions@.take(i as int)[e] is End);
                    }
                }
            },
            FileLoaderAction::End => {
                discard = true;
                proof {
                    assert(actions@.take(i + 1)[i as int] is End);
                    assert(hasEnd(actions@.take(i + 1)));
                    if hasMakeUI(actions@.take(i + 1)) && !hasMakeUI(actions@.take(i as int)) {
                        let e = choose|e: int|
                            0 <= e < actions@.take(i + 1).len() && (#[trigger] actions@.take(
                                i + 1,
                            )[e]) is MakeUI;
                        assert(actions@.take(i as int)[e] is MakeUI);
                    }
                }
            },
            FileLoaderAction::UpdateFile(ic) => {
                match reader.rowOf(&ic.path) {
                    Some(row) => {
                        let ghost dirtyPre = dirty@;
                        upsertDirty(&mut dirty, row, cloneArc(&ic.image));
                        proof {
                            let foldPost = dirtyFold(reader.indexView(), actions@.take(i + 1));
                            assert(foldPost == foldPre.insert(row, ic.image));
                            assert forall|a: int| 0 <= a < dirty@.len() implies foldPost
                                .contains_key(#[trigger] dirty@[a].0) && foldPost[dirty@[a].0]
                                == dirty@[a].1 by {
                                if dirty@[a].0 != row {
                                    assert(dirtyPre.contains(dirty@[a]));
                                    let b = choose|b: int|
                                        0 <= b < dirtyPre.len() && dirtyPre[b] == dirty@[a];
                                    assert(foldPre.contains_key(dirtyPre[b].0));
                                } else {
                                    let w = choose|w: int|
                                        0 <= w < dirty@.len() && dirty@[w] == (row, ic.image);
                                    if a != w {
                                        assert(dirty@[a].0 == dirty@[w].0);
                                        assert(false);
                                    }
                                    assert(dirty@[a] == (row, ic.image));
                                }
                            }
                            assert forall|k: usize| #[trigger] foldPost.contains_key(k) implies
                                exists|a: int| 0 <= a < dirty@.len() && dirty@[a].0 == k by {
                                if k == row {
                                    let a = choose|a: int|
                                        0 <= a < dirty@.len() && dirty@[a] == (
                                        row,
                                        ic.image,
                                        );
                                    assert(dirty@[a].0 == k);
                                } else {
                                    assert(foldPre.contains_key(k));
                                    let b = choose|b: int|
                                        0 <= b < dirtyPre.len() && dirtyPre[b].0 == k;
                                    assert(dirty@.contains(dirtyPre[b]));
                                    let a = choose|a: int|
                                        0 <= a < dirty@.len() && dirty@[a] == dirtyPre[b];
                                    assert(dirty@[a].0 == k);
                                }
                            }
                        }
                    },
                    None => {
                    },
                }
            },
        }
        i = i + 1;
    }
    let plan = UpdatePlan { makeUI, dirty, discard };
    proof {
        assert(actions@.take(actions@.len() as int) =~= actions@);
        let fold = dirtyFold(reader.indexView(), actions@);
        assert(fold == dirtyFold(reader.indexView(), actions@.take(actions@.len() as int)));
        assert(forall|a: int, b: int|
            0 <= a < b < plan.dirty@.len() ==> plan.dirty@[a].0 != plan.dirty@[b].0);
        assert(forall|a: int|
            0 <= a < plan.dirty@.len() ==> fold.contains_key(#[trigger] plan.dirty@[a].0)
                && fold[plan.dirty@[a].0] == plan.dirty@[a].1);
        assert forall|k2: usize| #[trigger] fold.contains_key(k2) implies exists|a: int|
            0 <= a < plan.dirty@.len() && plan.dirty@[a].0 == k2 by {
            let a = choose|a: int| 0 <= a < plan.dirty@.len() && (#[trigger] plan.dirty@[a]).0
                == k2;
            assert(plan.dirty@[a].0 == k2);
        }
    }
    plan
}

/// How a plan is applied: nothing, a few rows replaced in place, or one
/// whole-collection rebuild. The displayed rows come out the same either
/// way; the split only trades per-row overhead against rebuild cost.
#[derive(PartialEq, Eq, Structural, Debug)]
pub enum PatchMode {
    NoChange,
    InPlace,
    Rebuild,
}

/// Above this many patched rows the whole collection is rebuilt at once.
pub const PATCH_IN_PLACE_MAX: usize = 5;

pub open spec fn spec_patchMode(n: int) -> PatchMode {
    if n == 0 {
        PatchMode::NoChange
    } else if n <= PATCH_IN_PLACE_MAX {
        PatchMode::InPlace
    } else {
        PatchMode::Rebuild
    }
}

/// The way this plan's patches will be applied.
pub fn patchModeOf(plan: &UpdatePlan) -> (r: PatchMode)
    ensures
        r == spec_patchMode(plan.dirty@.len() as int),
{
    let n = plan.dirty.len();
    if n == 0 {
        PatchMode::NoChange
    } else if n <= PATCH_IN_PLACE_MAX {
        PatchMode::InPlace
    } else {
        PatchMode::Rebuild
    }
}

/// The row a patch set leaves at position `j`: its icon replaced when some
/// patch names the row, the row untouched otherwise.
pub open spec fn patchedRow(files: Seq<UIFileV>, dirty: Seq<(usize, Arc<RgbImg>)>, j: int) -> UIFileV {
    if exists|a: int| 0 <= a < dirty.len() && (#[trigger] dirty[a]).0 == j {
        let a = choose|a: int| 0 <= a < dirty.len() && (#[trigger] dirty[a]).0 == j;
        UIFileV { name: files[j].name, fullPath: files[j].fullPath, icon: dirty[a].1 }
    } else {
        files[j]
    }
}

/// First patch for a row, if any.
fn findDirty(dirty: &Vec<(usize, Arc<RgbImg>)>, row: usize) -> (r: Option<usize>)
    ensures
        match r {
            Some(a) => a < dirty@.len() && dirty@[a as int].0 == row,
            None => forall|a: int| 0 <= a < dirty@.len() ==> (#[trigger] dirty@[a]).0 != row,
        },
{
    let mut a: usize = 0;
    while a < dirty.len()
        invariant
            a <= dirty@.len(),
            forall|b: int| 0 <= b < a ==> (#[trigger] dirty@[b]).0 != row,
        decreases dirty@.len() - a,
    {
        if dirty[a].0 == row {
            return Some(a);
        }
        a = a + 1;
    }
    None
}

/// Apply a drained plan's patches to the displayed rows: every patched row
/// gets its new icon, every other row is untouched, and names, paths,
/// order and count are preserved. Up to [`PATCH_IN_PLACE_MAX`] patches the
/// rows are replaced in place; beyond that the collection is rebuilt once.
pub fn applyPlan(model: &mut UIDirectoryInfo, plan: &UpdatePlan)
    requires
        forall|a: int|
            0 <= a < plan.dirty@.len() ==> (#[trigger] plan.dirty@[a]).0 < old(
                model,
            )@.files.len(),
        forall|a: int, b: int|
            0 <= a < b < plan.dirty@.len() ==> plan.dirty@[a].0 != plan.dirty@[b].0,
    ensures
        final(model)@.fullPath == old(model)@.fullPath,
        final(model)@.status == old(model)@.status,
        final(model)@.files.len() == old(model)@.files.len(),
        forall|j: int|
            0 <= j < final(model)@.files.len() ==> final(model)@.files[j] == patchedRow(
                old(model)@.files,
                plan.dirty@,
                j,
            ),
{
    let ghost oldFiles = model@.files;
    let mode = patchModeOf(plan);
    match mode {
        PatchMode::NoChange => {
        },
        PatchMode::InPlace => {
            let mut k: usize = 0;
            while k < plan.dirty.len()
                invariant
                    k <= plan.dirty@.len(),
                    forall|a: int|
                        0 <= a < plan.dirty@.len() ==> (#[trigger] plan.dirty@[a]).0
                            < oldFiles.len(),
                    forall|a: int, b: int|
                        0 <= a < b < plan.dirty@.len() ==> plan.dirty@[a].0 != plan.dirty@[b].0,
                    model@.files.len() == oldFiles.len(),
                    model@.fullPath == old(model)@.fullPath,
                    model@.status == old(model)@.status,
                    oldFiles == old(model)@.files,
                    forall|j: int|
                        0 <= j < model@.files.len() ==> model@.files[j] == patchedRow(
                            oldFiles,
                            plan.dirty@.take(k as int),
                            j,
                        ),
                decreases plan.dirty@.len() - k,
            {
                let row = plan.dirty[k].0;
                let img = cloneArc(&plan.dirty[k].1);
                let ghost prePatch = model@.files;
                let newRow = UIFile {
                    name: model.files[row].name.clone(),
                    fullPath: model.files[row].fullPath.clone(),
                    icon: img,
                };
                let ghost nr = newRow@;
                model.files.set(row, newRow);
                proof {
                    assert(model@.files =~= prePatch.update(row as int, nr));
                    assert(model@.files[row as int] == nr);
                    assert(prePatch[row as int] == patchedRow(
                        oldFiles,
                        plan.dirty@.take(k as int),
                        row as int,
                    ));
                    assert(nr.name == prePatch[row as int].name);
                    assert(nr.fullPath == prePatch[row as int].fullPath);
                    assert(nr.icon == plan.dirty@[k as int].1);
                    lemma_patch_step(oldFiles, plan.dirty@, k as int, model@.files);
                }
                k = k + 1;
            }
            proof {
                assert(plan.dirty@.take(plan.dirty@.len() as int) =~= plan.dirty@);
            }
        },
        PatchMode::Rebuild => {
            let mut files: Vec<UIFile> = Vec::new();
            let mut j: usize = 0;
            while j < model.files.len()
                invariant
                    j <= model@.files.len(),
                    model@.files == oldFiles,
                    forall|a: int|
                        0 <= a < plan.dirty@.len() ==> (#[trigger] plan.dirty@[a]).0
                            < oldFiles.len(),
                    forall|a: int, b: int|
                        0 <= a < b < plan.dirty@.len() ==> plan.dirty@[a].0 != plan.dirty@[b].0,
                    files@.len() == j,
                    forall|p: int|
                        0 <= p < j ==> files@[p]@ == patchedRow(oldFiles, plan.dirty@, p),
                decreases model@.files.len() - j,
            {
                let icon = match findDirty(&plan.dirty, j) {
                    Some(a) => cloneArc(&plan.dirty[a].1),
                    None => cloneArc(&model.files[j].icon),
                };
                let newRow = UIFile {
                    name: model.files[j].name.clone(),
                    fullPath: model.files[j].fullPath.clone(),
                    icon,
                };
                files.push(newRow);
                j = j + 1;
            }
            model.files = files;
            proof {
                assert(model@.files =~= files@.map_values(|f: UIFile| f@));
            }
        },
    }
}

/// Applying one more patch in place advances the patched prefix by one.
proof fn lemma_patch_step(
    oldFiles: Seq<UIFileV>,
    dirty: Seq<(usize, Arc<RgbImg>)>,
    k: int,
    files: Seq<UIFileV>,
)
    requires
        0 <= k < dirty.len(),
        forall|a: int| 0 <= a < dirty.len() ==> (#[trigger] dirty[a]).0 < oldFiles.len(),
        forall|a: int, b: int| 0 <= a < b < dirty.len() ==> dirty[a].0 != dirty[b].0,
        files.len() == oldFiles.len(),
        files[dirty[k].0 as int].name == patchedRow(oldFiles, dirty.take(k), dirty[k].0 as int).name,
        files[dirty[k].0 as int].fullPath == patchedRow(
            oldFiles,
            dirty.take(k),
            dirty[k].0 as int,
        ).fullPath,
        files[dirty[k].0 as int].icon == dirty[k].1,
        forall|j: int|
            0 <= j < files.len() && j != dirty[k].0 ==> files[j] == patchedRow(
                oldFiles,
                dirty.take(k),
                j,
            ),
    ensures
        forall|j: int|
            0 <= j < files.len() ==> files[j] == patchedRow(oldFiles, dirty.take(k + 1), j),
{
    assert forall|j: int| 0 <= j < files.len() implies files[j] == patchedRow(
        oldFiles,
        dirty.take(k + 1),
        j,
    ) by {
        if j == dirty[k].0 {
            assert(dirty.take(k + 1)[k] == dirty[k]);
            assert(exists|a: int|
                0 <= a < dirty.take(k + 1).len() && (#[trigger] dirty.take(k + 1)[a]).0 == j);
            let a = choose|a: int|
                0 <= a < dirty.take(k + 1).len() && (#[trigger] dirty.take(k + 1)[a]).0 == j;
            assert(dirty.take(k + 1)[a] == dirty[a]);
            if a != k {
                assert(dirty[a].0 == dirty[k].0);
                assert(false);
            }
        } else {
            if exists|a: int|
                0 <= a < dirty.take(k + 1).len() && (#[trigger] dirty.take(k + 1)[a]).0 == j {
                let a = choose|a: int|
                    0 <= a < dirty.take(k + 1).len() && (#[trigger] dirty.take(k + 1)[a]).0 == j;
                assert(dirty.take(k + 1)[a] == dirty[a]);
                assert(a != k);
                assert(dirty.take(k)[a] == dirty[a]);
                assert(exists|b: int|
                    0 <= b < dirty.take(k).len() && (#[trigger] dirty.take(k)[b]).0 == j);
                let b = choose|b: int|
                    0 <= b < dirty.take(k).len() && (#[trigger] dirty.take(k)[b]).0 == j;
                assert(dirty.take(k)[b] == dirty[b]);
                if a != b {
                    assert(dirty[a].0 == dirty[b].0);
                    assert(false);
                }
            } else {
                if exists|b: int|
                    0 <= b < dirty.take(k).len() && (#[trigger] dirty.take(k)[b]).0 == j {
                    let b = choose|b: int|
                        0 <= b < dirty.take(k).len() && (#[trigger] dirty.take(k)[b]).0 == j;
                    assert(dirty.take(k + 1)[b].0 == j);
                    assert(false);
                }
            }
        }
    }
}

} // verus!
