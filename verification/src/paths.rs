//! Path-side decisions of the browser shell: cache-key normalization of a
//! directory path's trailing separator, rejection of degenerate open
//! requests, the listing status line, and the breadcrumb components shown
//! for the current path.
use vstd::prelude::*;
use crate::strings::{strEq, hasSuffix, strStripSuffix};
use crate::dirview::{DirectoryReader, UIFile};

verus! {

/// A directory's cache key always ends with the separator, so equivalent
/// spellings of the same directory collide in the icon cache.
pub fn ensureDirSeparator(path: &str, isDir: bool, separator: &str) -> (r: String)
    ensures
        (isDir && !hasSuffix(path@, separator@)) ==> r@ == path@ + separator@,
        !(isDir && !hasSuffix(path@, separator@)) ==> r@ == path@,
{
    if isDir {
        match strStripSuffix(path, separator) {
            Some(_) => String::from_str(path),
            None => {
                let mut s = String::from_str(path);
                s.append(separator);
                s
            },
        }
    } else {
        String::from_str(path)
    }
}

/// The open requests the browser refuses outright: the empty path and the
/// bare current-directory spellings.
pub fn isInvalidOpenPath(path: &str) -> (r: bool)
    ensures
        r == (path@ == ""@ || path@ == "."@ || path@ == "./"@),
{
    strEq(path, "") || strEq(path, ".") || strEq(path, "./")
}

/// The status line shown for a freshly listed directory.
pub fn directoryStatus(fileCount: usize) -> (r: String)
    ensures
        fileCount == 0 ==> r@ == "This folder is empty"@,
        fileCount > 0 ==> r@ == "Ok directory"@,
{
    if fileCount == 0 {
        String::from_str("This folder is empty")
    } else {
        String::from_str("Ok directory")
    }
}

/// What opening a path amounts to once the filesystem has been probed.
pub enum PathInfo {
    /// Not listable and not a file: the message explains why.
    Fail(String),
    /// A directory: its listing, ready for the view.
    Dir(DirectoryReader),
    /// A plain file: hand it to the platform opener.
    File,
}

/// Decide what an open request yields, from the probe results alone: a
/// degenerate path fails; a listable directory becomes a view with its
/// status line; otherwise a file is opened externally and anything else
/// fails with the lister's message.
pub fn classifyOpen(path: &String, listing: Option<Vec<UIFile>>, isFile: bool, listErr: &String) -> (r:
    PathInfo)
    ensures
        (path@ == ""@ || path@ == "."@ || path@ == "./"@) ==> (r matches PathInfo::Fail(m)
            && m@ == "Invalid path"@),
        !(path@ == ""@ || path@ == "."@ || path@ == "./"@) ==> match listing {
            Some(files) => (r matches PathInfo::Dir(d) && d.wf() && d.directoryView().files
                == files@.map_values(|f: UIFile| f@) && d.directoryView().fullPath == path@ && (
            files@.len() == 0 ==> d.directoryView().status == "This folder is empty"@) && (
            files@.len() > 0 ==> d.directoryView().status == "Ok directory"@)),
            None => if isFile {
                r is File
            } else {
                (r matches PathInfo::Fail(m) && m@ == listErr@)
            },
        },
{
    if isInvalidOpenPath(path.as_str()) {
        return PathInfo::Fail(String::from_str("Invalid path"));
    }
    match listing {
        Some(files) => {
            let status = directoryStatus(files.len());
            PathInfo::Dir(DirectoryReader::make(path.as_str(), status.as_str(), files))
        },
        None => {
            if isFile {
                PathInfo::File
            } else {
                PathInfo::Fail(listErr.clone())
            }
        },
    }
}

/// One breadcrumb shown for a prefix of the current path.
pub struct UIPathComponent {
    /// The path up to and including this component, separator-terminated.
    pub fullPath: String,
    /// The component itself.
    pub name: String,
}

/// The running path after joining one more component: a separator is added
/// between, unless nothing has accumulated yet or the accumulator already
/// ends with one (a root component).
pub open spec fn joinedPath(soFar: Seq<char>, name: Seq<char>, sep: Seq<char>) -> Seq<char> {
    if soFar.len() == 0 || hasSuffix(soFar, sep) {
        soFar + name
    } else {
        soFar + sep + name
    }
}

/// The joined path after the first `i` components.
pub open spec fn pathUpTo(comps: Seq<(String, bool)>, sep: Seq<char>, i: int) -> Seq<char>
    decreases i,
{
    if i <= 0 {
        Seq::empty()
    } else {
        joinedPath(pathUpTo(comps, sep, i - 1), comps[i - 1].0@, sep)
    }
}

/// The breadcrumb rows owed for the first `i` components, as (full path,
/// name) pairs: one per component, in order, with root components dropped
/// when `skipRoots` holds.
pub open spec fn componentRows(
    comps: Seq<(String, bool)>,
    sep: Seq<char>,
    skipRoots: bool,
    i: int,
) -> Seq<(Seq<char>, Seq<char>)>
    decreases i,
{
    if i <= 0 {
        Seq::empty()
    } else {
        let rest = componentRows(comps, sep, skipRoots, i - 1);
        if skipRoots && comps[i - 1].1 {
            rest
        } else {
            rest.push((pathUpTo(comps, sep, i) + sep, comps[i - 1].0@))
        }
    }
}

/// Build the breadcrumb components for a path: each component's full path
/// is the join of every component up to it, separator-terminated. When the
/// path has more than one component, bare root components are joined but
/// get no breadcrumb of their own.
pub fn makeComponents(comps: &Vec<(String, bool)>, separator: &str) -> (r: Vec<UIPathComponent>)
    ensures
        r@.map_values(|c: UIPathComponent| (c.fullPath@, c.name@)) == componentRows(
            comps@,
            separator@,
            comps@.len() > 1,
            comps@.len() as int,
        ),
{
    let skipRoots = comps.len() > 1;
    let mut soFar = String::new();
    let mut out: Vec<UIPathComponent> = Vec::new();
    let mut i: usize = 0;
    proof {
        assert(soFar@ =~= pathUpTo(comps@, separator@, 0));
        assert(out@.map_values(|c: UIPathComponent| (c.fullPath@, c.name@)) =~= componentRows(
            comps@,
            separator@,
            skipRoots,
            0,
        ));
    }
    while i < comps.len()
        invariant
            i <= comps@.len(),
            skipRoots == (comps@.len() > 1),
            soFar@ == pathUpTo(comps@, separator@, i as int),
            out@.map_values(|c: UIPathComponent| (c.fullPath@, c.name@)) == componentRows(
                comps@,
                separator@,
                skipRoots,
                i as int,
            ),
        decreases comps@.len() - i,
    {
        let name = &comps[i].0;
        let isRoot = comps[i].1;
        let joined = if soFar.as_str().is_empty() {
            let mut s = String::new();
            s.append(name.as_str());
            proof {
                assert(s@ =~= soFar@ + name@);
            }
            s
        } else {
            match strStripSuffix(soFar.as_str(), separator) {
                Some(_) => {
                    let mut s = soFar.clone();
                    s.append(name.as_str());
                    s
                },
                None => {
                    let mut s = soFar.clone();
                    s.append(separator);
                    s.append(name.as_str());
                    s
                },
            }
        };
        soFar = joined;
        proof {
            assert(soFar@ == joinedPath(
                pathUpTo(comps@, separator@, i as int),
                comps@[i as int].0@,
                separator@,
            ));
            assert(soFar@ == pathUpTo(comps@, separator@, i + 1));
        }
        if !(skipRoots && isRoot) {
            let mut full = soFar.clone();
            full.append(separator);
            out.push(UIPathComponent { fullPath: full, name: name.clone() });
            proof {
                assert(out@.map_values(|c: UIPathComponent| (c.fullPath@, c.name@))
                    =~= componentRows(comps@, separator@, skipRoots, i as int).push(
                    (pathUpTo(comps@, separator@, i + 1) + separator@, comps@[i as int].0@),
                ));
            }
        }
        i = i + 1;
    }
    out
}

} // verus!
