//! Which filesystem events count toward a reindex, and the batch of
//! root-relative paths they name.

use vstd::prelude::*;

use crate::paths::{comps_start_with, comps_start_with_exec, join_slash, join_slash_exec, path_comps, path_comps_exec};
use crate::text::{chars_of, opt_string_view, opt_view, string_of, strs_eq, views};

verus! {

/// A path component that starts with `.`: dot folders and dot files.
pub open spec fn dotted(p: Seq<char>) -> bool {
    p.len() > 0 && p[0] == '.'
}

/// The root-relative path an event names, when it counts: inside the root,
/// not under the ignored directory, and with no component starting with
/// `.`. Components are joined with `/`; the root itself gives the empty path.
pub open spec fn relevant_of(root: Seq<char>, ignore: Option<Seq<char>>, path: Seq<char>) -> Option<Seq<char>> {
    if ignore matches Some(d) && comps_start_with(path, d) {
        None
    } else if !comps_start_with(path, root) {
        None
    } else {
        let rel = path_comps(path).skip(path_comps(root).len() as int);
        if exists|i: int| 0 <= i < rel.len() && dotted(#[trigger] rel[i]) {
            None
        } else {
            Some(join_slash(rel))
        }
    }
}

/// How an event touched the tree.
#[derive(Debug, Clone, Copy, PartialEq, Eq, Structural)]
pub enum EventClass {
    /// A file closed after writing.
    CloseWrite,
    /// Any other access: opens and reads, which the sweep itself makes.
    OtherAccess,
    /// Anything that is not an access.
    Change,
}

/// One report of the watcher.
#[derive(Debug, Clone)]
pub enum FsEvent {
    /// The watcher reported an error, such as a dropped event queue.
    Failed,
    Named { class: EventClass, paths: Vec<String> },
}

/// `batch` with `rel` added as a set member: the empty path is not added.
pub open spec fn added_to(batch: Seq<Seq<char>>, rel: Seq<char>) -> Seq<Seq<char>> {
    if rel.len() == 0 || batch.contains(rel) {
        batch
    } else {
        batch.push(rel)
    }
}

/// `batch` with the relevant paths among `paths` added in order.
pub open spec fn add_all(root: Seq<char>, ignore: Option<Seq<char>>, batch: Seq<Seq<char>>, paths: Seq<Seq<char>>) -> Seq<
    Seq<char>,
>
    decreases paths.len(),
{
    if paths.len() == 0 {
        batch
    } else {
        let b = add_all(root, ignore, batch, paths.drop_last());
        match relevant_of(root, ignore, paths.last()) {
            Some(r) => added_to(b, r),
            None => b,
        }
    }
}

/// Whether any of `paths` counts.
pub open spec fn any_relevant(root: Seq<char>, ignore: Option<Seq<char>>, paths: Seq<Seq<char>>) -> bool {
    exists|i: int| 0 <= i < paths.len() && (#[trigger] relevant_of(root, ignore, paths[i])) is Some
}

/// Adding to a batch without repeats keeps it without repeats.
pub proof fn lemma_add_all_distinct(root: Seq<char>, ignore: Option<Seq<char>>, batch: Seq<Seq<char>>, paths: Seq<Seq<char>>)
    requires
        batch.no_duplicates(),
    ensures
        add_all(root, ignore, batch, paths).no_duplicates(),
    decreases paths.len(),
{
    if paths.len() > 0 {
        lemma_add_all_distinct(root, ignore, batch, paths.drop_last());
        let b = add_all(root, ignore, batch, paths.drop_last());
        if let Some(r) = relevant_of(root, ignore, paths.last()) {
            if !(r.len() == 0 || b.contains(r)) {
                assert forall|i: int, j: int| 0 <= i < j < b.push(r).len() implies b.push(r)[i] != b.push(r)[j] by {
                    if j == b.len() {
                        assert(b[i] == b.push(r)[i]);
                    }
                }
            }
        }
    }
}

/// The components of `path` from `from` on, each as text.
pub(crate) fn rest_of(comps: &Vec<Vec<char>>, from: usize) -> (r: Vec<Vec<char>>)
    requires
        from <= comps@.len(),
    ensures
        r@.map_values(|v: Vec<char>| v@) == comps@.map_values(|v: Vec<char>| v@).skip(from as int),
{
    let ghost cv = comps@.map_values(|v: Vec<char>| v@);
    let mut out: Vec<Vec<char>> = Vec::new();
    let mut i: usize = from;
    while i < comps.len()
        invariant
            from <= i <= comps@.len(),
            cv == comps@.map_values(|v: Vec<char>| v@),
            out@.map_values(|v: Vec<char>| v@) == cv.subrange(from as int, i as int),
        decreases comps.len() - i,
    {
        let ghost before = out@.map_values(|v: Vec<char>| v@);
        out.push(comps[i].clone());
        assert(out@.map_values(|v: Vec<char>| v@) =~= before.push(cv[i as int]));
        assert(cv.subrange(from as int, i + 1) =~= cv.subrange(from as int, i as int).push(cv[i as int]));
        i = i + 1;
    }
    assert(cv.subrange(from as int, comps@.len() as int) =~= cv.skip(from as int));
    out
}

/// The root-relative path `path` names, when it counts toward a reindex.
pub fn relevant(root: &str, ignore_dir: Option<&str>, path: &str) -> (r: Option<String>)
    ensures
        opt_string_view(r) == relevant_of(root@, opt_view(ignore_dir), path@),
{
    let pc = chars_of(path);
    if let Some(d) = ignore_dir {
        let dc = chars_of(d);
        if comps_start_with_exec(pc.as_slice(), dc.as_slice()) {
            return None;
        }
    }
    let rc = chars_of(root);
    if !comps_start_with_exec(pc.as_slice(), rc.as_slice()) {
        return None;
    }
    let a = path_comps_exec(pc.as_slice());
    let b = path_comps_exec(rc.as_slice());
    let ghost av = a@.map_values(|v: Vec<char>| v@);
    let ghost bv = b@.map_values(|v: Vec<char>| v@);
    assert(av =~= path_comps(path@));
    assert(bv =~= path_comps(root@));
    let rel = rest_of(&a, b.len());
    let ghost relv = rel@.map_values(|v: Vec<char>| v@);
    assert(relv == path_comps(path@).skip(path_comps(root@).len() as int));
    let mut i: usize = 0;
    while i < rel.len()
        invariant
            i <= rel@.len(),
            relv == rel@.map_values(|v: Vec<char>| v@),
            relv == path_comps(path@).skip(path_comps(root@).len() as int),
            comps_start_with(path@, root@),
            !(opt_view(ignore_dir) matches Some(d) && comps_start_with(path@, d)),
            forall|k: int| 0 <= k < i ==> !dotted(#[trigger] relv[k]),
        decreases rel.len() - i,
    {
        if rel[i].len() > 0 && rel[i][0] == '.' {
            assert(dotted(relv[i as int]));
            return None;
        }
        i = i + 1;
    }
    let joined = join_slash_exec(rel.as_slice());
    Some(string_of(joined.as_slice()))
}

/// Whether `batch` holds `s`.
fn holds(batch: &Vec<String>, s: &str) -> (r: bool)
    ensures
        r == views(batch@).contains(s@),
{
    let mut i: usize = 0;
    while i < batch.len()
        invariant
            i <= batch@.len(),
            forall|k: int| 0 <= k < i ==> batch@[k]@ != s@,
        decreases batch.len() - i,
    {
        if strs_eq(batch[i].as_str(), s) {
            assert(views(batch@)[i as int] == s@);
            return true;
        }
        i = i + 1;
    }
    assert forall|k: int| 0 <= k < views(batch@).len() implies views(batch@)[k] != s@ by {
        assert(views(batch@)[k] == batch@[k]@);
    }
    false
}

/// Adds an event's relevant paths to `batch`, as a set. Returns whether the
/// event counts: an error always does, since the tree may have changed; an
/// access other than a close after writing never does; otherwise an event
/// counts when one of its paths is relevant.
pub fn add(root: &str, ignore_dir: Option<&str>, event: &FsEvent, batch: &mut Vec<String>) -> (any: bool)
    ensures
        match event {
            FsEvent::Failed => any && final(batch)@ == old(batch)@,
            FsEvent::Named { class, paths } => if *class == EventClass::OtherAccess {
                !any && final(batch)@ == old(batch)@
            } else {
                &&& any == any_relevant(root@, opt_view(ignore_dir), views(paths@))
                &&& views(final(batch)@) == add_all(root@, opt_view(ignore_dir), views(old(batch)@), views(paths@))
            },
        },
        views(old(batch)@).no_duplicates() ==> views(final(batch)@).no_duplicates(),
{
    let (class, paths) = match event {
        FsEvent::Failed => return true,
        FsEvent::Named { class, paths } => (class, paths),
    };
    if *class == EventClass::OtherAccess {
        return false;
    }
    let ghost ig = opt_view(ignore_dir);
    let ghost start = views(batch@);
    let ghost pv = views(paths@);
    let mut any = false;
    let mut i: usize = 0;
    while i < paths.len()
        invariant
            i <= paths@.len(),
            pv == views(paths@),
            ig == opt_view(ignore_dir),
            views(batch@) == add_all(root@, ig, start, pv.take(i as int)),
            any == any_relevant(root@, ig, pv.take(i as int)),
        decreases paths.len() - i,
    {
        assert(pv.take(i + 1).drop_last() =~= pv.take(i as int));
        assert(pv.take(i + 1).last() == paths@[i as int]@);
        let r = relevant(root, ignore_dir, paths[i].as_str());
        let ghost before = views(batch@);
        if let Some(rel) = r {
            any = true;
            if !rel.as_str().is_empty() && !holds(batch, rel.as_str()) {
                batch.push(rel);
                assert(views(batch@) =~= before.push(rel@));
            }
            assert(pv.take(i + 1)[i as int] == pv[i as int]);
        }
        assert(any == any_relevant(root@, ig, pv.take(i + 1))) by {
            if any_relevant(root@, ig, pv.take(i as int)) {
                let k = choose|k: int| 0 <= k < pv.take(i as int).len() && (#[trigger] relevant_of(root@, ig, pv.take(i as int)[k])) is Some;
                assert(pv.take(i + 1)[k] == pv.take(i as int)[k]);
            }
            if any_relevant(root@, ig, pv.take(i + 1)) {
                let k = choose|k: int| 0 <= k < pv.take(i + 1).len() && (#[trigger] relevant_of(root@, ig, pv.take(i + 1)[k])) is Some;
                if k < i {
                    assert(pv.take(i + 1)[k] == pv.take(i as int)[k]);
                }
            }
        }
        i = i + 1;
    }
    assert(pv.take(paths@.len() as int) =~= pv);
    proof {
        if start.no_duplicates() {
            lemma_add_all_distinct(root@, ig, start, pv);
        }
    }
    any
}

} // verus!
