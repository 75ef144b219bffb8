//! What the pane's lists hold and where a jump lands: the folder tree,
//! the tag tree, the recent notes, how a search hit's line is marked, and
//! the rendered row a source line starts on.

use vstd::prelude::*;

use crate::index::{lex_less, lex_less_exec, File, FileId};
use crate::order::{lemma_insert_lt, sort_lt};
use crate::paths::{join_slash, join_slash_exec, split_char, split_char_exec};
use crate::scan::Kind;
use crate::tags::{tag_view, tag_views, TagNode, TagView};
use crate::text::{chars_eq, chars_of, string_of, to_lowercase, unicode_lowercase, views};

verus! {

/// The first row from `k` on whose source line is at least `line`.
pub open spec fn first_row_at(source_line: Seq<u32>, line: u32, k: int) -> Option<int>
    decreases source_line.len() - k,
{
    if k < 0 || k >= source_line.len() {
        None
    } else if source_line[k] >= line {
        Some(k)
    } else {
        first_row_at(source_line, line, k + 1)
    }
}

/// The rendered row a jump to source line `line` scrolls to: the first row
/// from that line on, else the top.
pub fn jump_row(source_line: &[u32], line: u32) -> (r: usize)
    ensures
        r == match first_row_at(source_line@, line, 0) {
            Some(k) => k as usize,
            None => 0usize,
        },
{
    let mut k: usize = 0;
    while k < source_line.len()
        invariant
            k <= source_line@.len(),
            first_row_at(source_line@, line, 0) == first_row_at(source_line@, line, k as int),
        decreases source_line.len() - k,
    {
        if source_line[k] >= line {
            return k;
        }
        k = k + 1;
    }
    0
}

/// The notes the Recent list shows, in file order: notes that are not
/// excluded.
pub open spec fn shown_notes(files: Seq<File>, n: int) -> Seq<FileId>
    decreases n,
{
    if n <= 0 {
        seq![]
    } else if files[n - 1].kind == Kind::Note && !files[n - 1].excluded {
        shown_notes(files, n - 1).push((n - 1) as FileId)
    } else {
        shown_notes(files, n - 1)
    }
}

/// Newest first, then by path.
pub open spec fn recent_order(files: Seq<File>) -> spec_fn(FileId, FileId) -> bool {
    |a: FileId, b: FileId|
        files[a as int].mtime_ns > files[b as int].mtime_ns || (files[a as int].mtime_ns == files[b as int].mtime_ns
            && lex_less(files[a as int].rel@, files[b as int].rel@))
}

/// The Recent list: every note that is not excluded, newest first, then
/// by path.
pub fn recent(files: &Vec<File>) -> (r: Vec<FileId>)
    ensures
        r@ == sort_lt(shown_notes(files@, files@.len() as int), recent_order(files@)),
{
    let ghost lt = recent_order(files@);
    let mut ids: Vec<FileId> = Vec::new();
    let mut i: usize = 0;
    while i < files.len()
        invariant
            i <= files@.len(),
            ids@ == shown_notes(files@, i as int),
            forall|q: int| 0 <= q < ids@.len() ==> #[trigger] ids@[q] < i,
        decreases files.len() - i,
    {
        if files[i].kind == Kind::Note && !files[i].excluded {
            ids.push(i);
        }
        i = i + 1;
    }
    let mut out: Vec<FileId> = Vec::new();
    let mut j: usize = 0;
    while j < ids.len()
        invariant
            j <= ids@.len(),
            lt == recent_order(files@),
            forall|q: int| 0 <= q < ids@.len() ==> #[trigger] ids@[q] < files@.len(),
            forall|q: int| 0 <= q < out@.len() ==> #[trigger] out@[q] < files@.len(),
            out@ == sort_lt(ids@.take(j as int), lt),
        decreases ids.len() - j,
    {
        let x = ids[j];
        let mut p: usize = 0;
        while p < out.len() && !newer(files, x, out[p])
            invariant
                p <= out@.len(),
                x < files@.len(),
                lt == recent_order(files@),
                forall|q: int| 0 <= q < out@.len() ==> #[trigger] out@[q] < files@.len(),
                forall|q: int| 0 <= q < p ==> !lt(x, #[trigger] out@[q]),
            decreases out.len() - p,
        {
            p = p + 1;
        }
        proof {
            lemma_insert_lt(out@, x, lt, p as int);
            assert(ids@.take(j + 1).drop_last() =~= ids@.take(j as int));
        }
        let ghost before = out@;
        out.insert(p, x);
        assert forall|q: int| 0 <= q < out@.len() implies #[trigger] out@[q] < files@.len() by {
            if q < p {
                assert(out@[q] == before[q]);
            } else if q > p {
                assert(out@[q] == before[q - 1]);
            }
        }
        j = j + 1;
    }
    assert(ids@.take(ids@.len() as int) =~= ids@);
    out
}

/// Whether note `a` is listed before note `b` in Recent.
fn newer(files: &Vec<File>, a: FileId, b: FileId) -> (r: bool)
    requires
        a < files@.len(),
        b < files@.len(),
    ensures
        r == recent_order(files@)(a, b),
{
    let (ma, mb) = (files[a].mtime_ns, files[b].mtime_ns);
    ma > mb || (ma == mb && lex_less_exec(chars_of(files[a].rel.as_str()).as_slice(), chars_of(files[b].rel.as_str()).as_slice()))
}

/// A folder or a file of the tree, as plain values: its path (a folder's
/// with its slash), its path's components, and whether it is a folder.
pub struct EntryView {
    pub path: Seq<char>,
    pub comps: Seq<Seq<char>>,
    pub folder: bool,
}

/// The folder holding the first `d + 1` components.
pub open spec fn folder_path(cs: Seq<Seq<char>>, d: int) -> Seq<char> {
    join_slash(cs.take(d + 1)).push('/')
}

pub open spec fn has_path(es: Seq<EntryView>, p: Seq<char>) -> bool {
    exists|k: int| 0 <= k < es.len() && (#[trigger] es[k]).path == p
}

/// The entries after file `rel` (components `cs`) is added from its
/// folder at depth `d` on, every folder above it unfolded: each folder
/// once, then the file, as far down as the folders are unfolded.
pub open spec fn add_rel(es: Seq<EntryView>, cs: Seq<Seq<char>>, rel: Seq<char>, expanded: Seq<Seq<char>>, d: int) -> Seq<
    EntryView,
>
    decreases cs.len() - d,
{
    if d < 0 || d + 1 >= cs.len() {
        es.push(EntryView { path: rel, comps: cs, folder: false })
    } else {
        let p = folder_path(cs, d);
        let with = if has_path(es, p) {
            es
        } else {
            es.push(EntryView { path: p, comps: cs.take(d + 1), folder: true })
        };
        if expanded.contains(p) {
            add_rel(with, cs, rel, expanded, d + 1)
        } else {
            with
        }
    }
}

/// The visible folders and files of the first `n` paths, in the order
/// first met.
pub open spec fn tree_entries(rels: Seq<Seq<char>>, expanded: Seq<Seq<char>>, n: int) -> Seq<EntryView>
    decreases n,
{
    if n <= 0 {
        seq![]
    } else {
        add_rel(tree_entries(rels, expanded, n - 1), split_char(rels[n - 1], '/'), rels[n - 1], expanded, 0)
    }
}

/// Names without regard to case, then as written.
pub open spec fn name_lt(x: Seq<char>, y: Seq<char>) -> bool {
    lex_less(unicode_lowercase(x), unicode_lowercase(y)) || (unicode_lowercase(x) == unicode_lowercase(y) && lex_less(
        x,
        y,
    ))
}

/// Tree order from component `i` on: a folder before what it holds,
/// folders before files, then by name.
pub open spec fn tree_lt_from(a: EntryView, b: EntryView, i: int) -> bool
    decreases a.comps.len() - i,
{
    if i < 0 {
        false
    } else if i >= a.comps.len() {
        i < b.comps.len()
    } else if i >= b.comps.len() {
        false
    } else {
        let ad = i < a.comps.len() - 1 || a.folder;
        let bd = i < b.comps.len() - 1 || b.folder;
        if ad != bd {
            ad
        } else if a.comps[i] != b.comps[i] {
            name_lt(a.comps[i], b.comps[i])
        } else {
            tree_lt_from(a, b, i + 1)
        }
    }
}

pub open spec fn tree_order() -> spec_fn(EntryView, EntryView) -> bool {
    |a: EntryView, b: EntryView| tree_lt_from(a, b, 0)
}

/// A row of the folder tree.
#[derive(Debug, Clone, PartialEq, Eq)]
pub struct TreeRow {
    /// A folder's path with its slash, or a file's path.
    pub path: String,
    /// The last component.
    pub name: String,
    pub depth: usize,
    pub folder: bool,
    /// A folder that is unfolded.
    pub open: bool,
}

pub struct RowView {
    pub path: Seq<char>,
    pub name: Seq<char>,
    pub depth: nat,
    pub folder: bool,
    pub open: bool,
}

pub open spec fn row_view(r: TreeRow) -> RowView {
    RowView { path: r.path@, name: r.name@, depth: r.depth as nat, folder: r.folder, open: r.open }
}

pub open spec fn row_of(e: EntryView, expanded: Seq<Seq<char>>) -> RowView {
    RowView {
        path: e.path,
        name: e.comps.last(),
        depth: (e.comps.len() - 1) as nat,
        folder: e.folder,
        open: e.folder && expanded.contains(e.path),
    }
}

/// The folder tree of `rels` with the folders in `expanded` unfolded:
/// each folder before what it holds, folders before files, siblings by
/// name without regard to case, then as written.
pub open spec fn tree_rows_of(rels: Seq<Seq<char>>, expanded: Seq<Seq<char>>) -> Seq<RowView> {
    sort_lt(tree_entries(rels, expanded, rels.len() as int), tree_order()).map_values(
        |e: EntryView| row_of(e, expanded),
    )
}

struct TreeEntry {
    path: Vec<char>,
    comps: Vec<Vec<char>>,
    /// Each component lowercased.
    lows: Vec<Vec<char>>,
    folder: bool,
}

spec fn comp_views(v: Seq<Vec<char>>) -> Seq<Seq<char>> {
    v.map_values(|c: Vec<char>| c@)
}

spec fn entry_view(e: TreeEntry) -> EntryView {
    EntryView { path: e.path@, comps: comp_views(e.comps@), folder: e.folder }
}

spec fn entry_views(s: Seq<TreeEntry>) -> Seq<EntryView> {
    s.map_values(|e: TreeEntry| entry_view(e))
}

spec fn entry_ok(e: TreeEntry) -> bool {
    &&& e.comps@.len() >= 1
    &&& e.lows@.len() == e.comps@.len()
    &&& forall|i: int| 0 <= i < e.comps@.len() ==> (#[trigger] e.lows@[i])@ == unicode_lowercase(e.comps@[i]@)
}

fn strings_hold(list: &[String], p: &Vec<char>) -> (r: bool)
    ensures
        r == views(list@).contains(p@),
{
    let mut k: usize = 0;
    while k < list.len()
        invariant
            k <= list@.len(),
            forall|q: int| 0 <= q < k ==> views(list@)[q] != p@,
        decreases list.len() - k,
    {
        let c = chars_of(list[k].as_str());
        assert(views(list@)[k as int] == list@[k as int]@);
        if chars_eq(c.as_slice(), p.as_slice()) {
            return true;
        }
        k = k + 1;
    }
    false
}

fn has_path_exec(es: &Vec<TreeEntry>, p: &Vec<char>) -> (r: bool)
    ensures
        r == has_path(entry_views(es@), p@),
{
    let mut k: usize = 0;
    while k < es.len()
        invariant
            k <= es@.len(),
            forall|q: int| 0 <= q < k ==> (#[trigger] entry_views(es@)[q]).path != p@,
        decreases es.len() - k,
    {
        assert(entry_views(es@)[k as int] == entry_view(es@[k as int]));
        if chars_eq(es[k].path.as_slice(), p.as_slice()) {
            return true;
        }
        k = k + 1;
    }
    false
}

/// The first `m` components, and their lowercase forms.
fn take_comps(cs: &Vec<Vec<char>>, lows: &Vec<Vec<char>>, m: usize) -> (r: (Vec<Vec<char>>, Vec<Vec<char>>))
    requires
        m <= cs@.len(),
        lows@.len() == cs@.len(),
    ensures
        comp_views(r.0@) == comp_views(cs@).take(m as int),
        comp_views(r.1@) == comp_views(lows@).take(m as int),
{
    let mut a: Vec<Vec<char>> = Vec::new();
    let mut b: Vec<Vec<char>> = Vec::new();
    let mut i: usize = 0;
    while i < m
        invariant
            i <= m <= cs@.len(),
            lows@.len() == cs@.len(),
            comp_views(a@) == comp_views(cs@).take(i as int),
            comp_views(b@) == comp_views(lows@).take(i as int),
        decreases m - i,
    {
        let ghost pa = comp_views(a@);
        let ghost pb = comp_views(b@);
        let x = vstd::slice::slice_to_vec(cs[i].as_slice());
        let y = vstd::slice::slice_to_vec(lows[i].as_slice());
        a.push(x);
        b.push(y);
        assert(comp_views(a@) =~= pa.push(x@));
        assert(comp_views(b@) =~= pb.push(y@));
        assert(comp_views(cs@)[i as int] == cs@[i as int]@);
        assert(comp_views(lows@)[i as int] == lows@[i as int]@);
        assert(comp_views(a@) =~= comp_views(cs@).take(i + 1));
        assert(comp_views(b@) =~= comp_views(lows@).take(i + 1));
        i = i + 1;
    }
    (a, b)
}

fn name_before(x: &Vec<char>, lx: &Vec<char>, y: &Vec<char>, ly: &Vec<char>) -> (r: bool)
    requires
        lx@ == unicode_lowercase(x@),
        ly@ == unicode_lowercase(y@),
    ensures
        r == name_lt(x@, y@),
{
    lex_less_exec(lx.as_slice(), ly.as_slice()) || (chars_eq(lx.as_slice(), ly.as_slice()) && lex_less_exec(
        x.as_slice(),
        y.as_slice(),
    ))
}

/// Whether entry `a` comes before entry `b` in the tree.
fn tree_before(a: &TreeEntry, b: &TreeEntry) -> (r: bool)
    requires
        entry_ok(*a),
        entry_ok(*b),
    ensures
        r == tree_lt_from(entry_view(*a), entry_view(*b), 0),
{
    let ghost av = entry_view(*a);
    let ghost bv = entry_view(*b);
    let mut i: usize = 0;
    loop
        invariant
            i <= a.comps@.len(),
            i <= b.comps@.len(),
            av == entry_view(*a),
            bv == entry_view(*b),
            entry_ok(*a),
            entry_ok(*b),
            tree_lt_from(av, bv, 0) == tree_lt_from(av, bv, i as int),
        decreases a.comps@.len() - i,
    {
        if i >= a.comps.len() {
            return i < b.comps.len();
        }
        if i >= b.comps.len() {
            return false;
        }
        let ad = i < a.comps.len() - 1 || a.folder;
        let bd = i < b.comps.len() - 1 || b.folder;
        assert(av.comps[i as int] == a.comps@[i as int]@ && bv.comps[i as int] == b.comps@[i as int]@);
        if ad != bd {
            return ad;
        }
        if !chars_eq(a.comps[i].as_slice(), b.comps[i].as_slice()) {
            return name_before(&a.comps[i], &a.lows[i], &b.comps[i], &b.lows[i]);
        }
        i = i + 1;
    }
}

/// The folder tree of the paths `rels` (`/`-separated) with the folders in
/// `expanded` (paths with their slash) unfolded.
pub fn tree_rows(rels: &[String], expanded: &[String]) -> (r: Vec<TreeRow>)
    ensures
        r@.map_values(|x: TreeRow| row_view(x)) == tree_rows_of(views(rels@), views(expanded@)),
{
    let ghost rv = views(rels@);
    let ghost ev = views(expanded@);
    let mut es: Vec<TreeEntry> = Vec::new();
    let mut n: usize = 0;
    assert(entry_views(es@) =~= tree_entries(rv, ev, 0));
    while n < rels.len()
        invariant
            n <= rels@.len(),
            rv == views(rels@),
            ev == views(expanded@),
            entry_views(es@) == tree_entries(rv, ev, n as int),
            forall|k: int| 0 <= k < es@.len() ==> entry_ok(#[trigger] es@[k]),
        decreases rels.len() - n,
    {
        let rc = chars_of(rels[n].as_str());
        let cs = split_char_exec(rc.as_slice(), '/');
        let ghost cv = comp_views(cs@);
        proof {
            assert(rv[n as int] == rels@[n as int]@);
            assert(cv == split_char(rv[n as int], '/'));
            crate::paths::lemma_split_nonempty(rv[n as int], '/');
        }
        let mut lows: Vec<Vec<char>> = Vec::new();
        let mut q: usize = 0;
        while q < cs.len()
            invariant
                q <= cs@.len(),
                lows@.len() == q,
                forall|i: int| 0 <= i < q ==> (#[trigger] lows@[i])@ == unicode_lowercase(cs@[i]@),
            decreases cs.len() - q,
        {
            let s = string_of(cs[q].as_slice());
            lows.push(chars_of(to_lowercase(s.as_str()).as_str()));
            q = q + 1;
        }
        let ghost start = entry_views(es@);
        let mut d: usize = 0;
        loop
            invariant_except_break
                add_rel(start, cv, rv[n as int], ev, 0) == add_rel(entry_views(es@), cv, rv[n as int], ev, d as int),
            invariant
                n < rels@.len(),
                rv == views(rels@),
                ev == views(expanded@),
                cv == comp_views(cs@),
                cv == split_char(rv[n as int], '/'),
                rc@ == rv[n as int],
                cs@.len() >= 1,
                d < cs@.len(),
                lows@.len() == cs@.len(),
                forall|i: int| 0 <= i < cs@.len() ==> (#[trigger] lows@[i])@ == unicode_lowercase(cs@[i]@),
                forall|k: int| 0 <= k < es@.len() ==> entry_ok(#[trigger] es@[k]),
            ensures
                add_rel(start, cv, rv[n as int], ev, 0) == entry_views(es@),
                forall|k: int| 0 <= k < es@.len() ==> entry_ok(#[trigger] es@[k]),
            decreases cs@.len() - d,
        {
            let ghost before = entry_views(es@);
            if d >= cs.len() - 1 {
                let (comps, lw) = take_comps(&cs, &lows, cs.len());
                assert(cv.take(cs@.len() as int) =~= cv);
                assert(comp_views(lows@).take(cs@.len() as int) =~= comp_views(lows@));
                let e = TreeEntry { path: vstd::slice::slice_to_vec(rc.as_slice()), comps, lows: lw, folder: false };
                assert(entry_ok(e)) by {
                    assert forall|i: int| 0 <= i < e.comps@.len() implies (#[trigger] e.lows@[i])@ == unicode_lowercase(e.comps@[i]@) by {
                        assert(comp_views(e.lows@)[i] == e.lows@[i]@);
                        assert(comp_views(e.comps@)[i] == e.comps@[i]@);
                        assert(comp_views(lows@)[i] == lows@[i]@);
                        assert(comp_views(cs@)[i] == cs@[i]@);
                    }
                }
                es.push(e);
                assert(entry_views(es@) =~= before.push(entry_view(e)));
                assert(entry_view(e) == EntryView { path: rv[n as int], comps: cv, folder: false });
                break;
            }
            let (comps, lw) = take_comps(&cs, &lows, d + 1);
            let mut path = join_slash_exec(comps.as_slice());
            path.push('/');
            assert(path@ == folder_path(cv, d as int));
            let e = TreeEntry { path, comps, lows: lw, folder: true };
            assert(entry_ok(e)) by {
                assert(comp_views(e.comps@).len() == e.comps@.len());
                assert(comp_views(e.lows@).len() == e.lows@.len());
                assert(e.comps@.len() == d + 1 && e.lows@.len() == d + 1);
                assert forall|i: int| 0 <= i < e.comps@.len() implies (#[trigger] e.lows@[i])@ == unicode_lowercase(e.comps@[i]@) by {
                    assert(comp_views(e.lows@)[i] == e.lows@[i]@);
                    assert(comp_views(e.comps@)[i] == e.comps@[i]@);
                    assert(comp_views(lows@)[i] == lows@[i]@);
                    assert(comp_views(cs@)[i] == cs@[i]@);
                }
            }
            let open = strings_hold(expanded, &e.path);
            let ghost p = e.path@;
            if !has_path_exec(&es, &e.path) {
                es.push(e);
                assert(entry_views(es@) =~= before.push(EntryView { path: p, comps: cv.take(d + 1), folder: true }));
            }
            if !open {
                break;
            }
            d = d + 1;
        }
        assert(tree_entries(rv, ev, n + 1) == add_rel(tree_entries(rv, ev, n as int), cv, rv[n as int], ev, 0));
        n = n + 1;
    }
    let ghost all = entry_views(es@);
    let ghost lt = tree_order();
    let mut sorted: Vec<TreeEntry> = Vec::new();
    let ghost mut j: int = 0;
    assert(all.skip(0) =~= all);
    let mut rest = es;
    while rest.len() > 0
        invariant
            j + rest@.len() == all.len(),
            0 <= j,
            lt == tree_order(),
            forall|k: int| 0 <= k < rest@.len() ==> entry_ok(#[trigger] rest@[k]),
            forall|k: int| 0 <= k < sorted@.len() ==> entry_ok(#[trigger] sorted@[k]),
            entry_views(rest@) == all.skip(j),
            entry_views(sorted@) == sort_lt(all.take(j), lt),
        decreases rest@.len(),
    {
        let ghost before_rest = rest@;
        let e = rest.remove(0);
        assert(entry_view(e) == all[j]) by {
            assert(e == before_rest[0]);
            assert(entry_views(before_rest)[0] == entry_view(before_rest[0]));
            assert(all.skip(j)[0] == all[j]);
        }
        assert(rest@ =~= before_rest.subrange(1, before_rest.len() as int));
        assert(entry_views(rest@) =~= all.skip(j + 1)) by {
            assert forall|q: int| 0 <= q < rest@.len() implies #[trigger] entry_views(rest@)[q] == all.skip(j + 1)[q] by {
                assert(rest@[q] == before_rest[q + 1]);
                assert(entry_views(before_rest)[q + 1] == all.skip(j)[q + 1]);
            }
        }
        assert forall|k: int| 0 <= k < rest@.len() implies entry_ok(#[trigger] rest@[k]) by {
            assert(rest@[k] == before_rest[k + 1]);
        }
        assert(entry_ok(e)) by {
            assert(e == before_rest[0]);
        }
        let mut p: usize = 0;
        while p < sorted.len() && !tree_before(&e, &sorted[p])
            invariant
                p <= sorted@.len(),
                lt == tree_order(),
                entry_ok(e),
                forall|k: int| 0 <= k < sorted@.len() ==> entry_ok(#[trigger] sorted@[k]),
                forall|q: int| 0 <= q < p ==> !lt(entry_view(e), #[trigger] entry_views(sorted@)[q]),
            decreases sorted.len() - p,
        {
            assert(entry_views(sorted@)[p as int] == entry_view(sorted@[p as int]));
            p = p + 1;
        }
        proof {
            if p < sorted@.len() {
                assert(entry_views(sorted@)[p as int] == entry_view(sorted@[p as int]));
            }
            lemma_insert_lt(entry_views(sorted@), entry_view(e), lt, p as int);
            assert(all.take(j + 1).drop_last() =~= all.take(j));
        }
        let ghost before = sorted@;
        sorted.insert(p, e);
        assert(entry_views(sorted@) =~= entry_views(before).insert(p as int, entry_view(e)));
        assert forall|k: int| 0 <= k < sorted@.len() implies entry_ok(#[trigger] sorted@[k]) by {
            if k < p {
                assert(sorted@[k] == before[k]);
            } else if k > p {
                assert(sorted@[k] == before[k - 1]);
            }
        }
        proof {
            j = j + 1;
        }
    }
    assert(all.take(j) =~= all);
    let ghost sv = entry_views(sorted@);
    let mut out: Vec<TreeRow> = Vec::new();
    let mut k: usize = 0;
    while k < sorted.len()
        invariant
            k <= sorted@.len(),
            sv == entry_views(sorted@),
            ev == views(expanded@),
            forall|i: int| 0 <= i < sorted@.len() ==> entry_ok(#[trigger] sorted@[i]),
            out@.map_values(|x: TreeRow| row_view(x)) == sv.take(k as int).map_values(|e: EntryView| row_of(e, ev)),
        decreases sorted.len() - k,
    {
        let e = &sorted[k];
        assert(entry_ok(*e));
        let last = e.comps.len() - 1;
        let open = e.folder && strings_hold(expanded, &e.path);
        let row = TreeRow {
            path: string_of(e.path.as_slice()),
            name: string_of(e.comps[last].as_slice()),
            depth: last,
            folder: e.folder,
            open,
        };
        assert(sv[k as int] == entry_view(*e));
        assert(comp_views(e.comps@).last() == e.comps@[last as int]@);
        let ghost before = out@.map_values(|x: TreeRow| row_view(x));
        out.push(row);
        assert(out@.map_values(|x: TreeRow| row_view(x)) =~= before.push(row_view(row)));
        assert(sv.take(k + 1).map_values(|e: EntryView| row_of(e, ev)) =~= sv.take(k as int).map_values(
            |e: EntryView| row_of(e, ev),
        ).push(row_of(sv[k as int], ev)));
        k = k + 1;
    }
    assert(sv.take(sv.len() as int) =~= sv);
    out
}

/// A row of the tag list: a tag node (by index), or a note tagged exactly
/// with an unfolded tag, listed under it at its depth.
#[derive(Debug, Clone, Copy, PartialEq, Eq, Structural)]
pub enum TagRow {
    Node(usize),
    Note { id: FileId, depth: usize },
}

/// The list while it is built: the rows so far, the unfolded nodes whose
/// notes are still to come (depth and index, outermost first), and the
/// depth below which nodes are hidden by a folded node.
pub struct TagWalk {
    pub rows: Seq<TagRow>,
    pub open: Seq<(usize, usize)>,
    pub hidden: Option<usize>,
}

/// The notes of node `k`, as rows at depth `d`.
pub open spec fn note_rows(nodes: Seq<TagView>, k: int, d: usize) -> Seq<TagRow> {
    nodes[k].notes.map_values(|id: FileId| TagRow::Note { id, depth: d })
}

/// Closes the unfolded nodes at depth `depth` or deeper, innermost first:
/// their notes follow what is under them.
pub open spec fn close_walk(nodes: Seq<TagView>, w: TagWalk, depth: usize) -> TagWalk
    decreases w.open.len(),
{
    if w.open.len() > 0 && w.open.last().0 >= depth {
        close_walk(
            nodes,
            TagWalk {
                rows: w.rows + note_rows(nodes, w.open.last().1 as int, w.open.last().0),
                open: w.open.drop_last(),
                hidden: w.hidden,
            },
            depth,
        )
    } else {
        w
    }
}

/// The list after node `i`: a node under a folded node is skipped;
/// otherwise the nodes it ends are closed, its row comes, and it is
/// opened when unfolded, else it hides what is under it.
pub open spec fn walk_step(nodes: Seq<TagView>, expanded: Seq<Seq<char>>, w: TagWalk, i: int) -> TagWalk {
    let n = nodes[i];
    if w.hidden matches Some(h) && n.depth > h {
        w
    } else {
        let c = close_walk(nodes, TagWalk { hidden: None, ..w }, n.depth as usize);
        if expanded.contains(n.key) {
            TagWalk { rows: c.rows.push(TagRow::Node(i as usize)), open: c.open.push((n.depth as usize, i as usize)), hidden: None }
        } else {
            TagWalk { rows: c.rows.push(TagRow::Node(i as usize)), open: c.open, hidden: Some(n.depth as usize) }
        }
    }
}

pub open spec fn walk_through(nodes: Seq<TagView>, expanded: Seq<Seq<char>>, n: int) -> TagWalk
    decreases n,
{
    if n <= 0 {
        TagWalk { rows: seq![], open: seq![], hidden: None }
    } else {
        walk_step(nodes, expanded, walk_through(nodes, expanded, n - 1), n - 1)
    }
}

/// The tag list with the tags in `expanded` unfolded: each shown node, and
/// after what is under an unfolded node, the notes tagged exactly with it.
pub open spec fn tag_rows_of(nodes: Seq<TagView>, expanded: Seq<Seq<char>>) -> Seq<TagRow> {
    close_walk(nodes, walk_through(nodes, expanded, nodes.len() as int), 0).rows
}

/// Pops the unfolded nodes at `depth` or deeper, adding their notes.
fn close_exec(nodes: &[TagNode], rows: &mut Vec<TagRow>, open: &mut Vec<(usize, usize)>, hidden: Option<usize>, depth: usize)
    requires
        forall|q: int| 0 <= q < old(open)@.len() ==> (#[trigger] old(open)@[q]).1 < nodes@.len(),
    ensures
        close_walk(tag_views(nodes@), TagWalk { rows: old(rows)@, open: old(open)@, hidden }, depth) == (TagWalk {
            rows: final(rows)@,
            open: final(open)@,
            hidden,
        }),
        forall|q: int| 0 <= q < final(open)@.len() ==> (#[trigger] final(open)@[q]).1 < nodes@.len(),
{
    let ghost nv = tag_views(nodes@);
    let ghost start = TagWalk { rows: rows@, open: open@, hidden };
    while open.len() > 0 && open[open.len() - 1].0 >= depth
        invariant
            nv == tag_views(nodes@),
            forall|q: int| 0 <= q < open@.len() ==> (#[trigger] open@[q]).1 < nodes@.len(),
            close_walk(nv, start, depth) == close_walk(nv, TagWalk { rows: rows@, open: open@, hidden }, depth),
        decreases open@.len(),
    {
        let (d, k) = open.pop().unwrap();
        assert(nv[k as int] == tag_view(nodes@[k as int]));
        let notes = &nodes[k].notes;
        let ghost before = rows@;
        let mut j: usize = 0;
        while j < notes.len()
            invariant
                j <= notes@.len(),
                rows@ == before + notes@.take(j as int).map_values(|id: FileId| TagRow::Note { id, depth: d }),
            decreases notes.len() - j,
        {
            rows.push(TagRow::Note { id: notes[j], depth: d });
            assert(notes@.take(j + 1).map_values(|id: FileId| TagRow::Note { id, depth: d }) =~= notes@.take(
                j as int,
            ).map_values(|id: FileId| TagRow::Note { id, depth: d }).push(TagRow::Note { id: notes@[j as int], depth: d }));
            j = j + 1;
        }
        assert(notes@.take(notes@.len() as int) =~= notes@);
        assert(rows@ =~= before + note_rows(nv, k as int, d));
    }
}

/// The tag list of `nodes` (as `Index::tags` gives them) with the tags in
/// `expanded` (by key) unfolded.
pub fn tag_rows(nodes: &[TagNode], expanded: &[String]) -> (r: Vec<TagRow>)
    ensures
        r@ == tag_rows_of(tag_views(nodes@), views(expanded@)),
{
    let ghost nv = tag_views(nodes@);
    let ghost ev = views(expanded@);
    let mut rows: Vec<TagRow> = Vec::new();
    let mut open: Vec<(usize, usize)> = Vec::new();
    let mut hidden: Option<usize> = None;
    let mut i: usize = 0;
    while i < nodes.len()
        invariant
            i <= nodes@.len(),
            nv == tag_views(nodes@),
            ev == views(expanded@),
            walk_through(nv, ev, i as int) == (TagWalk { rows: rows@, open: open@, hidden }),
            forall|q: int| 0 <= q < open@.len() ==> (#[trigger] open@[q]).1 < nodes@.len(),
        decreases nodes.len() - i,
    {
        let n = &nodes[i];
        assert(nv[i as int] == tag_view(nodes@[i as int]));
        let skip = match hidden {
            Some(h) => n.depth > h,
            None => false,
        };
        if !skip {
            close_exec(nodes, &mut rows, &mut open, None, n.depth);
            rows.push(TagRow::Node(i));
            let key = chars_of(n.key.as_str());
            if strings_hold(expanded, &key) {
                open.push((n.depth, i));
                hidden = None;
            } else {
                hidden = Some(n.depth);
            }
            assert forall|q: int| 0 <= q < open@.len() implies (#[trigger] open@[q]).1 < nodes@.len() by {
            }
        }
        i = i + 1;
    }
    close_exec(nodes, &mut rows, &mut open, hidden, 0);
    rows
}

/// A search hit's line from byte `pos` on, cut at its matches (byte
/// ranges, in order) into plain and marked pieces, each `(start, end,
/// marked)`: a match that starts before `pos`, ends past the line, or ends
/// before it starts is passed over.
pub open spec fn pieces_from(ranges: Seq<(usize, usize)>, len: int, pos: int, k: int) -> Seq<(int, int, bool)>
    decreases ranges.len() - k,
{
    if k < 0 || k >= ranges.len() {
        seq![(pos, len, false)]
    } else {
        let (s, e) = ranges[k];
        if s < pos || e > len || s > e {
            pieces_from(ranges, len, pos, k + 1)
        } else {
            seq![(pos, s as int, false), (s as int, e as int, true)] + pieces_from(ranges, len, e as int, k + 1)
        }
    }
}

/// The plain and marked pieces of a search hit's line of `len` bytes,
/// shown from byte `lead` (past its leading whitespace) on.
pub fn hit_pieces(len: usize, lead: usize, ranges: &[std::ops::Range<usize>]) -> (r: Vec<(usize, usize, bool)>)
    requires
        lead <= len,
    ensures
        r@.map_values(|p: (usize, usize, bool)| (p.0 as int, p.1 as int, p.2)) == pieces_from(
            ranges@.map_values(|x: std::ops::Range<usize>| (x.start, x.end)),
            len as int,
            lead as int,
            0,
        ),
{
    let ghost rv = ranges@.map_values(|x: std::ops::Range<usize>| (x.start, x.end));
    let mut out: Vec<(usize, usize, bool)> = Vec::new();
    let mut pos = lead;
    let mut k: usize = 0;
    while k < ranges.len()
        invariant
            k <= ranges@.len(),
            pos <= len,
            rv == ranges@.map_values(|x: std::ops::Range<usize>| (x.start, x.end)),
            pieces_from(rv, len as int, lead as int, 0) == out@.map_values(|p: (usize, usize, bool)| (p.0 as int, p.1 as int, p.2))
                + pieces_from(rv, len as int, pos as int, k as int),
        decreases ranges.len() - k,
    {
        let s = ranges[k].start;
        let e = ranges[k].end;
        assert(rv[k as int] == (s, e));
        if !(s < pos || e > len || s > e) {
            let ghost before = out@.map_values(|p: (usize, usize, bool)| (p.0 as int, p.1 as int, p.2));
            out.push((pos, s, false));
            out.push((s, e, true));
            assert(out@.map_values(|p: (usize, usize, bool)| (p.0 as int, p.1 as int, p.2)) =~= before + seq![
                (pos as int, s as int, false),
                (s as int, e as int, true),
            ]);
            pos = e;
        }
        k = k + 1;
    }
    let ghost before = out@.map_values(|p: (usize, usize, bool)| (p.0 as int, p.1 as int, p.2));
    out.push((pos, len, false));
    assert(out@.map_values(|p: (usize, usize, bool)| (p.0 as int, p.1 as int, p.2)) =~= before + seq![
        (pos as int, len as int, false),
    ]);
    out
}

} // verus!
