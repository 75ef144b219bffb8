//! Forward and back link tables, and link resolution.

use unicode_normalization::UnicodeNormalization;
use vstd::prelude::*;

use crate::parse::{Heading, Link, Parsed};
use crate::paths::{basename, basename_exec, dirname, dirname_exec, join, join_exec, normalize, normalized};
use crate::scan::{Entry, Kind};
use sha2::{Digest, Sha256};
use crate::paths::{join_slash, split_char, split_char_exec};

use crate::text::{
    bytes_of, chars_eq, chars_of, ends_with, ends_with_exec, has_char, is_alphanumeric, join_by,
    join_strings, opt_string_view, split_whitespace, starts_with, strs_eq, to_lowercase, views, unicode_alphanumeric,
    unicode_lowercase, words,
};

verus! {

pub type FileId = usize;

/// Unicode's canonical composition (NFC) of a string, as the
/// `unicode-normalization` crate computes it.
pub uninterp spec fn nfc_of(s: Seq<char>) -> Seq<char>;

/// `UnicodeNormalization::nfc`, collected into a string.
#[verifier::external_body]
fn nfc(s: &str) -> (r: String)
    ensures
        r@ == nfc_of(s@),
{
    s.nfc().collect()
}

/// The lookup key of a path or link: NFC, then lowercase.
pub open spec fn key_of(s: Seq<char>) -> Seq<char> {
    unicode_lowercase(nfc_of(s))
}

/// The lookup key of a path or link: NFC, then lowercase.
pub fn key(s: &str) -> (r: String)
    ensures
        r@ == key_of(s@),
{
    let n = nfc(s);
    to_lowercase(n.as_str())
}

#[derive(Debug, Clone)]
pub struct File {
    pub rel: String,
    pub kind: Kind,
    pub excluded: bool,
    pub mtime_ns: u128,
    pub size: u64,
    /// `None` for attachments, excluded files, and notes that are not UTF-8.
    pub parsed: Option<Parsed>,
}

#[derive(Debug, Clone, Copy, PartialEq, Eq)]
pub enum Fragment {
    /// The link has no fragment.
    Absent,
    Found,
    Missing,
}

#[derive(Debug, Clone, PartialEq, Eq)]
pub enum Resolved {
    File { id: FileId, fragment: Fragment },
    Ambiguous { pick: FileId, others: Vec<FileId>, fragment: Fragment },
    Unresolved,
}

/// Where following a resolution goes: the file, or Obsidian's pick.
pub open spec fn target_of(r: Resolved) -> Option<FileId> {
    match r {
        Resolved::File { id, .. } => Some(id),
        Resolved::Ambiguous { pick, .. } => Some(pick),
        Resolved::Unresolved => None,
    }
}

impl Resolved {
    /// Where following the link goes: the file, or Obsidian's pick.
    pub fn target(&self) -> (r: Option<FileId>)
        ensures
            r == target_of(*self),
    {
        match self {
            Resolved::File { id, .. } => Some(*id),
            Resolved::Ambiguous { pick, .. } => Some(*pick),
            Resolved::Unresolved => None,
        }
    }
}

#[derive(Debug, Clone, PartialEq, Eq)]
pub struct Change {
    pub added: Vec<String>,
    pub removed: Vec<String>,
    pub modified: Vec<String>,
}

/// The files' paths.
pub open spec fn rel_views(files: Seq<File>) -> Seq<Seq<char>> {
    files.map_values(|f: File| f.rel@)
}

/// The files among the first `n` whose key's last segment is `name`, in
/// order: the candidates a name lookup finds.
pub open spec fn named(rels: Seq<Seq<char>>, name: Seq<char>, n: int) -> Seq<FileId>
    decreases n,
{
    if n <= 0 {
        seq![]
    } else {
        let r = named(rels, name, n - 1);
        if basename(key_of(rels[n - 1])) == name {
            r.push((n - 1) as usize)
        } else {
            r
        }
    }
}

/// The first candidate whose key is `path`.
pub open spec fn exact(rels: Seq<Seq<char>>, cands: Seq<FileId>, path: Seq<char>) -> Option<FileId>
    decreases cands.len(),
{
    if cands.len() == 0 {
        None
    } else if key_of(rels[cands[0] as int]) == path {
        Some(cands[0])
    } else {
        exact(rels, cands.drop_first(), path)
    }
}

/// The candidates whose key ends with `tail`, in order.
pub open spec fn keep_suffix(rels: Seq<Seq<char>>, cands: Seq<FileId>, tail: Seq<char>) -> Seq<FileId>
    decreases cands.len(),
{
    if cands.len() == 0 {
        seq![]
    } else {
        let r = keep_suffix(rels, cands.drop_last(), tail);
        if ends_with(key_of(rels[cands.last() as int]), tail) {
            r.push(cands.last())
        } else {
            r
        }
    }
}

/// The candidates whose key starts with `head` (when `inside`) or does not
/// (otherwise), in order.
pub open spec fn keep_prefix(rels: Seq<Seq<char>>, cands: Seq<FileId>, head: Seq<char>, inside: bool) -> Seq<FileId>
    decreases cands.len(),
{
    if cands.len() == 0 {
        seq![]
    } else {
        let r = keep_prefix(rels, cands.drop_last(), head, inside);
        if starts_with(key_of(rels[cands.last() as int]), head) == inside {
            r.push(cands.last())
        } else {
            r
        }
    }
}

/// Code point order, as `str`'s `Ord` compares (UTF-8 byte order is code
/// point order).
pub open spec fn lex_less(a: Seq<char>, b: Seq<char>) -> bool
    decreases a.len(),
{
    if a.len() == 0 {
        b.len() > 0
    } else if b.len() == 0 {
        false
    } else if a[0] != b[0] {
        (a[0] as u32) < (b[0] as u32)
    } else {
        lex_less(a.drop_first(), b.drop_first())
    }
}

/// Shorter paths first (in bytes), then by path.
pub open spec fn path_less(rels: Seq<Seq<char>>, x: FileId, y: FileId) -> bool {
    let (a, b) = (rels[x as int], rels[y as int]);
    bytes_of(a).len() < bytes_of(b).len() || (bytes_of(a).len() == bytes_of(b).len() && lex_less(a, b))
}

/// `x` placed before the first element it is `path_less` than.
pub open spec fn insert_by_path(s: Seq<FileId>, x: FileId, rels: Seq<Seq<char>>) -> Seq<FileId>
    decreases s.len(),
{
    if s.len() == 0 {
        seq![x]
    } else if path_less(rels, x, s[0]) {
        seq![x] + s
    } else {
        seq![s[0]] + insert_by_path(s.drop_first(), x, rels)
    }
}

/// A stable sort by `path_less`.
pub open spec fn sort_by_path(s: Seq<FileId>, rels: Seq<Seq<char>>) -> Seq<FileId>
    decreases s.len(),
{
    if s.len() == 0 {
        s
    } else {
        insert_by_path(sort_by_path(s.drop_last(), rels), s.last(), rels)
    }
}

/// Leading `../` dropped, one folder from `folder` for each.
pub open spec fn strip_ups(link: Seq<char>, folder: Seq<char>) -> (Seq<char>, Seq<char>)
    decreases link.len(),
{
    if starts_with(link, seq!['.', '.', '/']) {
        strip_ups(link.skip(3), dirname(folder))
    } else {
        (link, folder)
    }
}

/// A `./` or `../` link joined to the folder; also the folder as it then
/// stands, with a trailing `/` when not the root.
pub open spec fn relative_step(link: Seq<char>, folder: Seq<char>) -> (Seq<char>, Seq<char>) {
    let l = if starts_with(link, seq!['.', '/', '.', '.', '/']) { link.skip(2) } else { link };
    let (rest, f) = if starts_with(l, seq!['.', '/']) { (l.skip(2), folder) } else { strip_ups(l, folder) };
    let f = if f.len() > 0 { f.push('/') } else { f };
    (f + rest, f)
}

/// The name lookup: the key of the target and the candidates named like it,
/// trying the target with `.md` when its own name has no `.` or no file.
pub open spec fn lookup(rels: Seq<Seq<char>>, target: Seq<char>) -> (Seq<char>, Seq<FileId>) {
    let link1 = key_of(target);
    let c1 = named(rels, basename(link1), rels.len() as int);
    if has_char(basename(link1), '.') && c1.len() > 0 {
        (link1, c1)
    } else {
        let link2 = key_of(target + seq!['.', 'm', 'd']);
        (link2, named(rels, basename(link2), rels.len() as int))
    }
}

/// Obsidian's choice among several candidates: a relative path, an exact
/// path, then (unless the target is rooted at `/`) the candidates whose key
/// ends with the link, those under the folder first, each group shortest
/// first.
pub open spec fn narrowed(
    rels: Seq<Seq<char>>,
    cands: Seq<FileId>,
    link: Seq<char>,
    folder: Seq<char>,
    rooted: bool,
) -> Seq<FileId> {
    let rel = starts_with(link, seq!['.', '/']) || starts_with(link, seq!['.', '.', '/']);
    let (joined, f2) = relative_step(link, folder);
    if rel && exact(rels, cands, joined) is Some {
        seq![exact(rels, cands, joined)->0]
    } else {
        let l0 = if rel { joined } else { link };
        let f = if rel { f2 } else { folder };
        let l = if starts_with(l0, seq!['/']) { l0.drop_first() } else { l0 };
        match exact(rels, cands, l) {
            Some(c) => seq![c],
            None => if rooted {
                seq![]
            } else {
                let kept = keep_suffix(rels, cands, l);
                sort_by_path(keep_prefix(rels, kept, f, true), rels) + sort_by_path(
                    keep_prefix(rels, kept, f, false),
                    rels,
                )
            },
        }
    }
}

/// Shortest path first, as a relation.
pub open spec fn shortest_lt(rels: Seq<Seq<char>>) -> spec_fn(FileId, FileId) -> bool {
    |a: FileId, b: FileId| path_less(rels, a, b)
}

proof fn lemma_sort_by_path_is_sort(s: Seq<FileId>, rels: Seq<Seq<char>>)
    ensures
        sort_by_path(s, rels) == crate::order::sort_lt(s, shortest_lt(rels)),
    decreases s.len(),
{
    if s.len() > 0 {
        lemma_sort_by_path_is_sort(s.drop_last(), rels);
        lemma_insert_by_path_is_insert(sort_by_path(s.drop_last(), rels), s.last(), rels);
    }
}

proof fn lemma_insert_by_path_is_insert(s: Seq<FileId>, x: FileId, rels: Seq<Seq<char>>)
    ensures
        insert_by_path(s, x, rels) == crate::order::insert_lt(s, x, shortest_lt(rels)),
    decreases s.len(),
{
    if s.len() > 0 && !path_less(rels, x, s[0]) {
        lemma_insert_by_path_is_insert(s.drop_first(), x, rels);
    }
}

/// What sorting by path holds: the candidates it was given.
proof fn lemma_sort_by_path_has(s: Seq<FileId>, rels: Seq<Seq<char>>)
    ensures
        sort_by_path(s, rels).len() == s.len(),
        forall|i: int| 0 <= i < sort_by_path(s, rels).len() ==> s.contains(#[trigger] sort_by_path(s, rels)[i]),
{
    lemma_sort_by_path_is_sort(s, rels);
    crate::order::lemma_sort_len(s, shortest_lt(rels));
    assert forall|i: int| 0 <= i < sort_by_path(s, rels).len() implies s.contains(#[trigger] sort_by_path(s, rels)[i]) by {
        let y = sort_by_path(s, rels)[i];
        crate::order::lemma_sort_has(s, shortest_lt(rels), y);
        assert(sort_by_path(s, rels).contains(y));
    }
}

proof fn lemma_keep_prefix_side(rels: Seq<Seq<char>>, cands: Seq<FileId>, head: Seq<char>, inside: bool)
    ensures
        forall|i: int|
            0 <= i < keep_prefix(rels, cands, head, inside).len() ==> starts_with(
                key_of(rels[(#[trigger] keep_prefix(rels, cands, head, inside)[i]) as int]),
                head,
            ) == inside,
    decreases cands.len(),
{
    if cands.len() > 0 {
        lemma_keep_prefix_side(rels, cands.drop_last(), head, inside);
        let r = keep_prefix(rels, cands.drop_last(), head, inside);
        let k = keep_prefix(rels, cands, head, inside);
        assert forall|i: int| 0 <= i < k.len() implies starts_with(key_of(rels[(#[trigger] k[i]) as int]), head) == inside by {
            if i < r.len() {
                assert(k[i] == r[i]);
            }
        }
    }
}

/// Sorting candidates of one side by path keeps them on that side.
proof fn lemma_sorted_side(rels: Seq<Seq<char>>, cands: Seq<FileId>, head: Seq<char>, inside: bool)
    ensures
        forall|i: int|
            0 <= i < sort_by_path(keep_prefix(rels, cands, head, inside), rels).len() ==> starts_with(
                key_of(rels[(#[trigger] sort_by_path(keep_prefix(rels, cands, head, inside), rels)[i]) as int]),
                head,
            ) == inside,
{
    let kp = keep_prefix(rels, cands, head, inside);
    lemma_keep_prefix_side(rels, cands, head, inside);
    lemma_sort_by_path_has(kp, rels);
    assert forall|i: int| 0 <= i < sort_by_path(kp, rels).len() implies starts_with(
        key_of(rels[(#[trigger] sort_by_path(kp, rels)[i]) as int]),
        head,
    ) == inside by {
        let y = sort_by_path(kp, rels)[i];
        assert(kp.contains(y));
        let j = choose|j: int| 0 <= j < kp.len() && kp[j] == y;
        assert(starts_with(key_of(rels[kp[j] as int]), head) == inside);
    }
}

/// Obsidian's same-folder preference: among the candidates of a link that
/// is not relative (`./`, `../`), every file whose key starts with the
/// linking note's folder comes before every file whose key does not, so a
/// link that several files answer opens the one beside the note.
pub proof fn lemma_folder_first(rels: Seq<Seq<char>>, target: Seq<char>, folder: Seq<char>)
    requires
        !starts_with(lookup(rels, target).0, seq!['.', '/']),
        !starts_with(lookup(rels, target).0, seq!['.', '.', '/']),
    ensures
        forall|a: int, b: int|
            0 <= a < b < wikilink_spec(rels, target, folder).len() && starts_with(
                key_of(rels[(#[trigger] wikilink_spec(rels, target, folder)[b]) as int]),
                folder,
            ) ==> starts_with(key_of(rels[(#[trigger] wikilink_spec(rels, target, folder)[a]) as int]), folder),
{
    reveal(wikilink_spec);
    let (link, cands) = lookup(rels, target);
    let r = wikilink_spec(rels, target, folder);
    if cands.len() > 0 && !(basename(link) == link && cands.len() == 1) {
        let (joined, f2) = relative_step(link, folder);
        let l = if starts_with(link, seq!['/']) { link.drop_first() } else { link };
        if exact(rels, cands, l) is None && !starts_with(target, seq!['/']) {
            let kept = keep_suffix(rels, cands, l);
            let near = sort_by_path(keep_prefix(rels, kept, folder, true), rels);
            let far = sort_by_path(keep_prefix(rels, kept, folder, false), rels);
            assert(r == near + far);
            lemma_sorted_side(rels, kept, folder, true);
            lemma_sorted_side(rels, kept, folder, false);
            assert forall|a: int, b: int|
                0 <= a < b < r.len() && starts_with(key_of(rels[(#[trigger] r[b]) as int]), folder) implies starts_with(
                key_of(rels[(#[trigger] r[a]) as int]),
                folder,
            ) by {
                if b >= near.len() {
                    assert(r[b] == far[b - near.len()]);
                    assert(false);
                }
                assert(r[a] == near[a]);
            }
        }
    }
}

/// Obsidian 1.14.2's `getLinkpathDest` for a link written in a note in
/// `folder` (a key, `""` for the root): the candidates in its order.
#[verifier::opaque]
pub open spec fn wikilink_spec(rels: Seq<Seq<char>>, target: Seq<char>, folder: Seq<char>) -> Seq<FileId> {
    let (link, cands) = lookup(rels, target);
    if cands.len() == 0 {
        seq![]
    } else if basename(link) == link && cands.len() == 1 {
        cands
    } else {
        narrowed(rels, cands, link, folder, starts_with(target, seq!['/']))
    }
}

pub struct Index {
    pub root: String,
    pub files: Vec<File>,
    pub skipped_filters: Vec<String>,
    pub exclude: Vec<String>,
    /// `key(rel)` of each file, as chars.
    pub keys: Vec<Vec<char>>,
    /// The last segment of each key.
    pub names: Vec<Vec<char>>,
    /// Each file's path, as chars, and its length in bytes.
    pub rels: Vec<Vec<char>>,
    pub rel_bytes: Vec<usize>,
    /// Per file, parallel to `Parsed::links`; empty for unparsed files.
    pub forward: Vec<Vec<Resolved>>,
    /// Per file: (source note, link position).
    pub back: Vec<Vec<(FileId, usize)>>,
}

impl Index {
    /// The lookup tables agree with the files.
    pub open spec fn names_wf(&self) -> bool {
        let n = self.files@.len();
        &&& self.keys@.len() == n
        &&& self.names@.len() == n
        &&& self.rels@.len() == n
        &&& self.rel_bytes@.len() == n
        &&& forall|i: int|
            #![trigger self.files@[i]]
            0 <= i < n ==> {
                &&& self.keys@[i]@ == key_of(self.files@[i].rel@)
                &&& self.names@[i]@ == basename(key_of(self.files@[i].rel@))
                &&& self.rels@[i]@ == self.files@[i].rel@
                &&& self.rel_bytes@[i] == bytes_of(self.files@[i].rel@).len()
            }
    }

    /// The files' paths.
    pub open spec fn rel_seq(&self) -> Seq<Seq<char>> {
        rel_views(self.files@)
    }

    /// The candidates named `name`, in file order.
    fn named_exec(&self, name: &[char]) -> (r: Vec<FileId>)
        requires
            self.names_wf(),
        ensures
            r@ == named(self.rel_seq(), name@, self.files@.len() as int),
            forall|k: int| 0 <= k < r@.len() ==> r@[k] < self.files@.len(),
    {
        let mut out: Vec<FileId> = Vec::new();
        let mut i: usize = 0;
        while i < self.names.len()
            invariant
                self.names_wf(),
                i <= self.files@.len(),
                out@ == named(self.rel_seq(), name@, i as int),
                forall|k: int| 0 <= k < out@.len() ==> out@[k] < i,
            decreases self.names.len() - i,
        {
            assert(self.rel_seq()[i as int] == self.files@[i as int].rel@);
            assert(self.names@[i as int]@ == basename(key_of(self.files@[i as int].rel@)));
            if chars_eq(self.names[i].as_slice(), name) {
                out.push(i);
            }
            i = i + 1;
        }
        out
    }

    /// The first candidate whose key is `path`.
    fn exact_exec(&self, cands: &[FileId], path: &[char]) -> (r: Option<FileId>)
        requires
            self.names_wf(),
            forall|k: int| 0 <= k < cands@.len() ==> cands@[k] < self.files@.len(),
        ensures
            r == exact(self.rel_seq(), cands@, path@),
    {
        let mut k: usize = 0;
        assert(cands@.skip(0) =~= cands@);
        while k < cands.len()
            invariant
                self.names_wf(),
                k <= cands@.len(),
                forall|k: int| 0 <= k < cands@.len() ==> cands@[k] < self.files@.len(),
                exact(self.rel_seq(), cands@, path@) == exact(self.rel_seq(), cands@.skip(k as int), path@),
            decreases cands.len() - k,
        {
            let c = cands[k];
            assert(cands@.skip(k as int).drop_first() =~= cands@.skip(k + 1));
            assert(self.rel_seq()[c as int] == self.files@[c as int].rel@);
            assert(self.keys@[c as int]@ == key_of(self.files@[c as int].rel@));
            if chars_eq(self.keys[c].as_slice(), path) {
                return Some(c);
            }
            k = k + 1;
        }
        None
    }

    /// `path_less` between two files.
    fn path_less_exec(&self, x: FileId, y: FileId) -> (r: bool)
        requires
            self.names_wf(),
            x < self.files@.len(),
            y < self.files@.len(),
        ensures
            r == path_less(self.rel_seq(), x, y),
    {
        assert(self.rel_seq()[x as int] == self.files@[x as int].rel@);
        assert(self.rel_seq()[y as int] == self.files@[y as int].rel@);
        let (lx, ly) = (self.rel_bytes[x], self.rel_bytes[y]);
        if lx != ly {
            return lx < ly;
        }
        lex_less_exec(self.rels[x].as_slice(), self.rels[y].as_slice())
    }

    /// A stable sort of `ids` by `path_less`.
    fn sort_ids(&self, ids: &[FileId]) -> (r: Vec<FileId>)
        requires
            self.names_wf(),
            forall|k: int| 0 <= k < ids@.len() ==> ids@[k] < self.files@.len(),
        ensures
            r@ == sort_by_path(ids@, self.rel_seq()),
            forall|k: int| 0 <= k < r@.len() ==> r@[k] < self.files@.len(),
    {
        let mut out: Vec<FileId> = Vec::new();
        let mut i: usize = 0;
        while i < ids.len()
            invariant
                self.names_wf(),
                i <= ids@.len(),
                forall|k: int| 0 <= k < ids@.len() ==> ids@[k] < self.files@.len(),
                out@ == sort_by_path(ids@.take(i as int), self.rel_seq()),
                forall|k: int| 0 <= k < out@.len() ==> out@[k] < self.files@.len(),
            decreases ids.len() - i,
        {
            let x = ids[i];
            let mut p: usize = 0;
            while p < out.len() && !self.path_less_exec(x, out[p])
                invariant
                    self.names_wf(),
                    x < self.files@.len(),
                    p <= out@.len(),
                    forall|k: int| 0 <= k < out@.len() ==> out@[k] < self.files@.len(),
                    forall|k: int| 0 <= k < p ==> !path_less(self.rel_seq(), x, out@[k]),
                decreases out.len() - p,
            {
                p = p + 1;
            }
            proof {
                lemma_insert_at(out@, x, self.rel_seq(), p as int);
                assert(ids@.take(i + 1).drop_last() =~= ids@.take(i as int));
            }
            out.insert(p, x);
            assert(out@ =~= sort_by_path(ids@.take(i + 1), self.rel_seq()));
            i = i + 1;
        }
        assert(ids@.take(ids@.len() as int) =~= ids@);
        out
    }

    /// `narrowed`.
    fn narrowed_exec(&self, cands: &[FileId], link: &[char], folder: &[char], rooted: bool) -> (r: Vec<FileId>)
        requires
            self.names_wf(),
            forall|k: int| 0 <= k < cands@.len() ==> cands@[k] < self.files@.len(),
        ensures
            r@ == narrowed(self.rel_seq(), cands@, link@, folder@, rooted),
            forall|k: int| 0 <= k < r@.len() ==> r@[k] < self.files@.len(),
    {
        let rel = starts_with_chars(link, two('.', '/').as_slice()) || starts_with_chars(
            link,
            three('.', '.', '/').as_slice(),
        );
        let (joined, f2) = relative_step_exec(link, folder);
        if rel {
            if let Some(c) = self.exact_exec(cands, joined.as_slice()) {
                let mut v = Vec::new();
                v.push(c);
                proof { lemma_exact_in(self.rel_seq(), cands@, joined@); }
                return v;
            }
        }
        let l0: &[char] = if rel { joined.as_slice() } else { link };
        let f: &[char] = if rel { f2.as_slice() } else { folder };
        let slash = vstd::slice::slice_to_vec(crate::text::slice_range(two('/', '/').as_slice(), 0, 1));
        assert(slash@ =~= seq!['/']);
        let l: &[char] = if starts_with_chars(l0, slash.as_slice()) {
            crate::text::slice_range(l0, 1, l0.len())
        } else {
            l0
        };
        assert(l0@.len() > 0 ==> l0@.drop_first() =~= l0@.subrange(1, l0@.len() as int));
        match self.exact_exec(cands, l) {
            Some(c) => {
                let mut v = Vec::new();
                v.push(c);
                proof { lemma_exact_in(self.rel_seq(), cands@, l@); }
                v
            },
            None => {
                if rooted {
                    return Vec::new();
                }
                let kept = self.keep_suffix_exec(cands, l);
                let near = self.keep_prefix_exec(kept.as_slice(), f, true);
                let far = self.keep_prefix_exec(kept.as_slice(), f, false);
                let mut out = self.sort_ids(near.as_slice());
                let mut far = self.sort_ids(far.as_slice());
                let ghost a = out@;
                let ghost b = far@;
                out.append(&mut far);
                assert(out@ == a + b);
                out
            },
        }
    }

    /// `wikilink` for a link written in a note in `folder` (a `key()`ed
    /// folder path, `""` for the root).
    pub fn wikilink_from(&self, target: &str, folder: &str) -> (r: Vec<FileId>)
        requires
            self.names_wf(),
        ensures
            r@ == wikilink_spec(self.rel_seq(), target@, folder@),
            forall|k: int| 0 <= k < r@.len() ==> r@[k] < self.files@.len(),
    {
        reveal(wikilink_spec);
        let k1 = key(target);
        let link1 = chars_of(k1.as_str());
        let name1 = basename_exec(link1.as_slice());
        let c1 = self.named_exec(name1);
        let (link, cands) = if crate::text::find_char(name1, '.').is_some() && c1.len() > 0 {
            (link1, c1)
        } else {
            let mut t = crate::text::owned(target);
            crate::text::push_char(&mut t, '.');
            crate::text::push_char(&mut t, 'm');
            crate::text::push_char(&mut t, 'd');
            assert(t@ =~= target@ + seq!['.', 'm', 'd']);
            let k2 = key(t.as_str());
            let link2 = chars_of(k2.as_str());
            let c2 = self.named_exec(basename_exec(link2.as_slice()));
            (link2, c2)
        };
        if cands.len() == 0 {
            return Vec::new();
        }
        if chars_eq(basename_exec(link.as_slice()), link.as_slice()) && cands.len() == 1 {
            return cands;
        }
        let fc = chars_of(folder);
        let tc = chars_of(target);
        let rooted = tc.len() > 0 && tc[0] == '/';
        proof {
            if tc@.len() > 0 {
                assert(target@.take(1) =~= seq![target@[0]]);
                if target@[0] == '/' {
                    assert(target@.take(1) =~= seq!['/']);
                } else {
                    assert(target@.take(1)[0] != seq!['/'][0]);
                }
            }
        }
        assert(rooted == starts_with(target@, seq!['/']));
        self.narrowed_exec(cands.as_slice(), link.as_slice(), fc.as_slice(), rooted)
    }

    /// The candidates whose key ends with `tail`.
    fn keep_suffix_exec(&self, cands: &[FileId], tail: &[char]) -> (r: Vec<FileId>)
        requires
            self.names_wf(),
            forall|k: int| 0 <= k < cands@.len() ==> cands@[k] < self.files@.len(),
        ensures
            r@ == keep_suffix(self.rel_seq(), cands@, tail@),
            forall|k: int| 0 <= k < r@.len() ==> r@[k] < self.files@.len(),
    {
        let mut out: Vec<FileId> = Vec::new();
        let mut i: usize = 0;
        while i < cands.len()
            invariant
                self.names_wf(),
                i <= cands@.len(),
                forall|k: int| 0 <= k < cands@.len() ==> cands@[k] < self.files@.len(),
                out@ == keep_suffix(self.rel_seq(), cands@.take(i as int), tail@),
                forall|k: int| 0 <= k < out@.len() ==> out@[k] < self.files@.len(),
            decreases cands.len() - i,
        {
            let c = cands[i];
            assert(cands@.take(i + 1).drop_last() =~= cands@.take(i as int));
            assert(self.rel_seq()[c as int] == self.files@[c as int].rel@);
            assert(self.keys@[c as int]@ == key_of(self.files@[c as int].rel@));
            if ends_with_chars(self.keys[c].as_slice(), tail) {
                out.push(c);
            }
            i = i + 1;
        }
        assert(cands@.take(cands@.len() as int) =~= cands@);
        out
    }

    /// The candidates whose key starts with `head`, or does not.
    fn keep_prefix_exec(&self, cands: &[FileId], head: &[char], inside: bool) -> (r: Vec<FileId>)
        requires
            self.names_wf(),
            forall|k: int| 0 <= k < cands@.len() ==> cands@[k] < self.files@.len(),
        ensures
            r@ == keep_prefix(self.rel_seq(), cands@, head@, inside),
            forall|k: int| 0 <= k < r@.len() ==> r@[k] < self.files@.len(),
    {
        let mut out: Vec<FileId> = Vec::new();
        let mut i: usize = 0;
        while i < cands.len()
            invariant
                self.names_wf(),
                i <= cands@.len(),
                forall|k: int| 0 <= k < cands@.len() ==> cands@[k] < self.files@.len(),
                out@ == keep_prefix(self.rel_seq(), cands@.take(i as int), head@, inside),
                forall|k: int| 0 <= k < out@.len() ==> out@[k] < self.files@.len(),
            decreases cands.len() - i,
        {
            let c = cands[i];
            assert(cands@.take(i + 1).drop_last() =~= cands@.take(i as int));
            assert(self.rel_seq()[c as int] == self.files@[c as int].rel@);
            assert(self.keys@[c as int]@ == key_of(self.files@[c as int].rel@));
            if starts_with_chars(self.keys[c].as_slice(), head) == inside {
                out.push(c);
            }
            i = i + 1;
        }
        assert(cands@.take(cands@.len() as int) =~= cands@);
        out
    }
}

/// What `exact` finds is one of the candidates.
proof fn lemma_exact_in(rels: Seq<Seq<char>>, cands: Seq<FileId>, path: Seq<char>)
    ensures
        exact(rels, cands, path) matches Some(c) ==> cands.contains(c),
    decreases cands.len(),
{
    if cands.len() > 0 && key_of(rels[cands[0] as int]) != path {
        lemma_exact_in(rels, cands.drop_first(), path);
        if exact(rels, cands, path) is Some {
            let c = exact(rels, cands, path)->0;
            let k = choose|k: int| 0 <= k < cands.drop_first().len() && cands.drop_first()[k] == c;
            assert(cands[k + 1] == c);
        }
    } else if cands.len() > 0 {
        assert(cands[0] == cands[0]);
    }
}

/// Two chars as a vector.
fn two(a: char, b: char) -> (r: Vec<char>)
    ensures
        r@ == seq![a, b],
{
    let mut v = Vec::new();
    v.push(a);
    v.push(b);
    assert(v@ =~= seq![a, b]);
    v
}

/// Three chars as a vector.
fn three(a: char, b: char, c: char) -> (r: Vec<char>)
    ensures
        r@ == seq![a, b, c],
{
    let mut v = two(a, b);
    v.push(c);
    assert(v@ =~= seq![a, b, c]);
    v
}

/// `relative_step`.
fn relative_step_exec(link: &[char], folder: &[char]) -> (r: (Vec<char>, Vec<char>))
    ensures
        (r.0@, r.1@) == relative_step(link@, folder@),
{
    let dot_slash = two('.', '/');
    let ups = three('.', '.', '/');
    let mut l: &[char] = link;
    let mut long = three('.', '/', '.');
    long.push('.');
    long.push('/');
    assert(long@ =~= seq!['.', '/', '.', '.', '/']);
    if starts_with_chars(l, long.as_slice()) {
        l = crate::text::slice_range(l, 2, l.len());
    }
    let ghost l0 = l@;
    let mut f: Vec<char>;
    let rest: &[char];
    if starts_with_chars(l, dot_slash.as_slice()) {
        rest = crate::text::slice_range(l, 2, l.len());
        f = vstd::slice::slice_to_vec(folder);
    } else {
        let mut cur: &[char] = l;
        let mut cf: Vec<char> = vstd::slice::slice_to_vec(folder);
        while starts_with_chars(cur, ups.as_slice())
            invariant
                ups@ == seq!['.', '.', '/'],
                strip_ups(l0, folder@) == strip_ups(cur@, cf@),
            decreases cur@.len(),
        {
            let next = crate::text::slice_range(cur, 3, cur.len());
            assert(next@ =~= cur@.skip(3));
            cf = vstd::slice::slice_to_vec(dirname_exec(cf.as_slice()));
            cur = next;
        }
        rest = cur;
        f = cf;
    }
    if f.len() > 0 {
        f.push('/');
    }
    let joined = join_chars(f.as_slice(), rest);
    (joined, f)
}

/// Two char sequences, one after the other.
fn join_chars(a: &[char], b: &[char]) -> (r: Vec<char>)
    ensures
        r@ == a@ + b@,
{
    let mut out = vstd::slice::slice_to_vec(a);
    let mut i: usize = 0;
    while i < b.len()
        invariant
            i <= b@.len(),
            out@ == a@ + b@.take(i as int),
        decreases b.len() - i,
    {
        out.push(b[i]);
        assert(out@ =~= a@ + b@.take(i + 1));
        i = i + 1;
    }
    assert(b@.take(b@.len() as int) =~= b@);
    out
}

/// Inserting at the first place `x` sorts before is `insert_by_path`.
proof fn lemma_insert_at(s: Seq<FileId>, x: FileId, rels: Seq<Seq<char>>, p: int)
    requires
        0 <= p <= s.len(),
        forall|k: int| 0 <= k < p ==> !path_less(rels, x, s[k]),
        p < s.len() ==> path_less(rels, x, s[p]),
    ensures
        insert_by_path(s, x, rels) == s.take(p).push(x) + s.skip(p),
        s.insert(p, x) == s.take(p).push(x) + s.skip(p),
    decreases s.len(),
{
    if s.len() == 0 {
        assert(s.take(p).push(x) + s.skip(p) =~= seq![x]);
    } else if p == 0 {
        assert(s.take(p).push(x) + s.skip(p) =~= seq![x] + s);
    } else {
        assert forall|k: int| 0 <= k < p - 1 implies !path_less(rels, x, #[trigger] s.drop_first()[k]) by {
            assert(s.drop_first()[k] == s[k + 1]);
        }
        lemma_insert_at(s.drop_first(), x, rels, p - 1);
        assert(seq![s[0]] + (s.drop_first().take(p - 1).push(x) + s.drop_first().skip(p - 1)) =~= s.take(p).push(x)
            + s.skip(p));
    }
    assert(s.insert(p, x) =~= s.take(p).push(x) + s.skip(p));
}

/// `lex_less` on chars.
pub fn lex_less_exec(a: &[char], b: &[char]) -> (r: bool)
    ensures
        r == lex_less(a@, b@),
{
    let mut i: usize = 0;
    assert(a@.skip(0) =~= a@ && b@.skip(0) =~= b@);
    loop
        invariant
            i <= a@.len(),
            i <= b@.len(),
            lex_less(a@, b@) == lex_less(a@.skip(i as int), b@.skip(i as int)),
        decreases a@.len() - i,
    {
        if i == a.len() {
            return i < b.len();
        }
        if i == b.len() {
            return false;
        }
        if a[i] != b[i] {
            return (a[i] as u32) < (b[i] as u32);
        }
        assert(a@.skip(i as int).drop_first() =~= a@.skip(i + 1));
        assert(b@.skip(i as int).drop_first() =~= b@.skip(i + 1));
        i = i + 1;
    }
}

/// `ends_with` on chars.
fn ends_with_chars(s: &[char], p: &[char]) -> (r: bool)
    ensures
        r == ends_with(s@, p@),
{
    if p.len() > s.len() {
        return false;
    }
    chars_eq(crate::text::slice_range(s, s.len() - p.len(), s.len()), p)
}

/// `starts_with` on chars.
fn starts_with_chars(s: &[char], p: &[char]) -> (r: bool)
    ensures
        r == starts_with(s@, p@),
{
    if p.len() > s.len() {
        return false;
    }
    chars_eq(crate::text::slice_range(s, 0, p.len()), p)
}

/// The pieces of a list that are not empty, in order.
pub open spec fn nonempty(parts: Seq<Seq<char>>) -> Seq<Seq<char>>
    decreases parts.len(),
{
    if parts.len() == 0 {
        seq![]
    } else {
        let r = nonempty(parts.drop_last());
        if parts.last().len() > 0 {
            r.push(parts.last())
        } else {
            r
        }
    }
}

/// The `#`-separated parts of a fragment that are not empty.
pub open spec fn fragment_parts(f: Seq<char>) -> Seq<Seq<char>> {
    nonempty(split_char(f, '#'))
}

/// `^id` as `id` when the fragment is a single block reference.
pub open spec fn block_of(f: Seq<char>) -> Option<Seq<char>> {
    let parts = fragment_parts(f);
    if parts.len() == 1 && starts_with(parts[0], seq!['^']) {
        Some(parts[0].drop_first())
    } else {
        None
    }
}

fn fragment_parts_exec(f: &[char]) -> (r: Vec<Vec<char>>)
    ensures
        r@.map_values(|v: Vec<char>| v@) == fragment_parts(f@),
{
    let all = split_char_exec(f, '#');
    let ghost av = all@.map_values(|v: Vec<char>| v@);
    let mut out: Vec<Vec<char>> = Vec::new();
    let mut i: usize = 0;
    assert(out@.map_values(|v: Vec<char>| v@) =~= nonempty(av.take(0)));
    while i < all.len()
        invariant
            i <= all@.len(),
            av == all@.map_values(|v: Vec<char>| v@),
            av == split_char(f@, '#'),
            out@.map_values(|v: Vec<char>| v@) == nonempty(av.take(i as int)),
        decreases all.len() - i,
    {
        assert(av.take(i + 1).drop_last() =~= av.take(i as int));
        assert(av.take(i + 1).last() == all@[i as int]@);
        if all[i].len() > 0 {
            let ghost before = out@.map_values(|v: Vec<char>| v@);
            out.push(all[i].clone());
            assert(out@.map_values(|v: Vec<char>| v@) =~= before.push(all@[i as int]@));
        }
        i = i + 1;
    }
    assert(av.take(all@.len() as int) =~= av);
    out
}

/// `^id` when the fragment is a single block reference.
pub fn block_fragment(fragment: &str) -> (r: Option<String>)
    ensures
        opt_string_view(r) == block_of(fragment@),
{
    let fc = chars_of(fragment);
    let parts = fragment_parts_exec(fc.as_slice());
    proof {
        if parts@.len() > 0 {
            assert(parts@.map_values(|v: Vec<char>| v@)[0] == parts@[0]@);
        }
    }
    if parts.len() == 1 && parts[0].len() > 0 && parts[0][0] == '^' {
        let p = parts[0].as_slice();
        assert(p@.take(1) =~= seq!['^']);
        let rest = crate::text::slice_range(p, 1, p.len());
        assert(rest@ =~= p@.drop_first());
        Some(crate::text::string_of(rest))
    } else {
        proof {
            if parts@.len() == 1 && parts@[0]@.len() > 0 {
                assert(parts@[0]@.take(1)[0] == parts@[0]@[0]);
            }
        }
        None
    }
}

/// The index of the first of `lines` from `i` on that ends, once trailing
/// whitespace is gone and it is lowercased, with `suffix`.
pub open spec fn first_ending(lines: Seq<Seq<char>>, suffix: Seq<char>, i: int) -> Option<int>
    decreases lines.len() - i,
{
    if i < 0 || i >= lines.len() {
        None
    } else if ends_with(unicode_lowercase(crate::text::trim_end(lines[i])), suffix) {
        Some(i)
    } else {
        first_ending(lines, suffix, i + 1)
    }
}

/// The line (1-based) a block id `^block` ends: the first line of `text`
/// that ends, lowercased and without trailing whitespace, with ` ^` and
/// the id lowercased. `None` when no line does, or its number does not fit
/// a `u32`.
pub open spec fn block_line_of(text: Seq<char>, block: Seq<char>) -> Option<u32> {
    match first_ending(split_char(text, '\n'), seq![' ', '^'] + unicode_lowercase(block), 0) {
        Some(i) => if i + 1 <= u32::MAX {
            Some((i + 1) as u32)
        } else {
            None
        },
        None => None,
    }
}

/// The line a block reference `^block` points at in a note's text.
pub fn block_line(text: &str, block: &str) -> (r: Option<u32>)
    ensures
        r == block_line_of(text@, block@),
{
    let mut suffix = crate::text::owned(" ^");
    let low = to_lowercase(block);
    suffix.append(low.as_str());
    proof {
        reveal_strlit(" ^");
        assert(" ^"@ =~= seq![' ', '^']);
    }
    let sc = chars_of(suffix.as_str());
    let tc = chars_of(text);
    let lines = split_char_exec(tc.as_slice(), '\n');
    let ghost lv = lines@.map_values(|v: Vec<char>| v@);
    let mut i: usize = 0;
    while i < lines.len()
        invariant
            i <= lines@.len(),
            lv == lines@.map_values(|v: Vec<char>| v@),
            lv == split_char(text@, '\n'),
            sc@ == seq![' ', '^'] + unicode_lowercase(block@),
            first_ending(lv, sc@, 0) == first_ending(lv, sc@, i as int),
        decreases lines.len() - i,
    {
        let line = lines[i].as_slice();
        let n = crate::text::trim_end_len(line);
        let trimmed = crate::text::string_of(crate::text::slice_range(line, 0, n));
        let lowered = chars_of(to_lowercase(trimmed.as_str()).as_str());
        assert(lv[i as int] == lines@[i as int]@);
        if ends_with_chars(lowered.as_slice(), sc.as_slice()) {
            if i >= 0xffff_ffff {
                return None;
            }
            return Some((i + 1) as u32);
        }
        i = i + 1;
    }
    None
}

/// The characters a heading's text is split at.
pub open spec fn norm_sep(c: char) -> bool {
    c == '!' || c == '"' || c == '#' || c == '$' || c == '%' || c == '&' || c == '(' || c == ')'
        || c == '*' || c == '+' || c == ',' || c == '.' || c == ':' || c == ';' || c == '<' || c
        == '=' || c == '>' || c == '?' || c == '@' || c == '^' || c == '`' || c == '{' || c == '|'
        || c == '}' || c == '~' || c == '/' || c == '[' || c == ']' || c == '\\' || c == '\r' || c
        == '\n'
}

fn norm_sep_exec(c: char) -> (r: bool)
    ensures
        r == norm_sep(c),
{
    matches!(
        c,
        '!' | '"' | '#' | '$' | '%' | '&' | '(' | ')' | '*' | '+' | ',' | '.' | ':' | ';' | '<' | '='
            | '>' | '?' | '@' | '^' | '`' | '{' | '|' | '}' | '~' | '/' | '[' | ']' | '\\' | '\r'
            | '\n'
    )
}

/// Obsidian's heading comparison form: separators become spaces, runs of
/// whitespace one space, then lowercase.
pub open spec fn heading_norm_of(s: Seq<char>) -> Seq<char> {
    unicode_lowercase(join_by(words(s.map_values(|c: char| if norm_sep(c) { ' ' } else { c })), ' '))
}

pub fn heading_norm(s: &str) -> (r: String)
    ensures
        r@ == heading_norm_of(s@),
{
    let sc = chars_of(s);
    let ghost spaced = s@.map_values(|c: char| if norm_sep(c) { ' ' } else { c });
    let mut out: Vec<char> = Vec::new();
    let mut i: usize = 0;
    while i < sc.len()
        invariant
            i <= sc@.len(),
            sc@ == s@,
            spaced == s@.map_values(|c: char| if norm_sep(c) { ' ' } else { c }),
            out@ == spaced.take(i as int),
        decreases sc.len() - i,
    {
        let c = sc[i];
        out.push(if norm_sep_exec(c) { ' ' } else { c });
        assert(out@ =~= spaced.take(i + 1));
        i = i + 1;
    }
    assert(spaced.take(sc@.len() as int) =~= spaced);
    let replaced = crate::text::string_of(out.as_slice());
    let ws = split_whitespace(replaced.as_str());
    let joined = join_strings(ws.as_slice(), ' ');
    to_lowercase(joined.as_str())
}

/// Kept in a GitHub heading slug.
pub open spec fn slug_keep(c: char) -> bool {
    unicode_alphanumeric(c) || c == '-' || c == '_' || c == ' '
}

/// The kept characters, spaces as `-`.
pub open spec fn slug_chars(s: Seq<char>) -> Seq<char>
    decreases s.len(),
{
    if s.len() == 0 {
        seq![]
    } else {
        let r = slug_chars(s.drop_last());
        let c = s.last();
        if slug_keep(c) {
            r.push(if c == ' ' { '-' } else { c })
        } else {
            r
        }
    }
}

/// GitHub's anchor for a heading.
pub open spec fn github_slug_of(s: Seq<char>) -> Seq<char> {
    slug_chars(unicode_lowercase(s))
}

pub fn github_slug(s: &str) -> (r: String)
    ensures
        r@ == github_slug_of(s@),
{
    let low = to_lowercase(s);
    let lc = chars_of(low.as_str());
    let mut out: Vec<char> = Vec::new();
    let mut i: usize = 0;
    while i < lc.len()
        invariant
            i <= lc@.len(),
            lc@ == unicode_lowercase(s@),
            out@ == slug_chars(lc@.take(i as int)),
        decreases lc.len() - i,
    {
        assert(lc@.take(i + 1).drop_last() =~= lc@.take(i as int));
        let c = lc[i];
        if is_alphanumeric(c) || c == '-' || c == '_' || c == ' ' {
            out.push(if c == ' ' { '-' } else { c });
        }
        i = i + 1;
    }
    assert(lc@.take(lc@.len() as int) =~= lc@);
    crate::text::string_of(out.as_slice())
}

/// Whether a heading answers one part of a fragment: the same under
/// `heading_norm_of`, or, for Markdown links, the GitHub slug.
pub open spec fn heading_hit(text: Seq<char>, part: Seq<char>, markdown: bool) -> bool {
    heading_norm_of(text) == heading_norm_of(part) || (markdown && github_slug_of(text)
        == unicode_lowercase(part))
}

/// The headings from `i` on, `matched` parts found so far, the last at
/// level `depth`: each further part must be a deeper heading.
pub open spec fn heading_scan(
    hs: Seq<Heading>,
    parts: Seq<Seq<char>>,
    markdown: bool,
    i: int,
    matched: int,
    depth: u8,
) -> Option<u32>
    decreases hs.len() - i,
{
    if i < 0 || i >= hs.len() || matched < 0 || matched >= parts.len() {
        None
    } else if hs[i].level > depth && heading_hit(hs[i].text@, parts[matched], markdown) {
        if matched + 1 == parts.len() {
            Some(hs[i].line)
        } else {
            heading_scan(hs, parts, markdown, i + 1, matched + 1, hs[i].level)
        }
    } else {
        heading_scan(hs, parts, markdown, i + 1, matched, depth)
    }
}

/// The line of the heading a fragment names in a parsed note.
pub open spec fn heading_line_in(p: Parsed, fragment: Seq<char>, markdown: bool) -> Option<u32> {
    let parts = fragment_parts(fragment);
    if parts.len() == 0 || block_of(fragment) is Some {
        None
    } else {
        heading_scan(p.headings@, parts, markdown, 0, 0, 0)
    }
}

/// Whether a fragment names a block or a heading of the note.
pub open spec fn fragment_in(parsed: Option<Parsed>, fragment: Seq<char>, markdown: bool) -> bool {
    match parsed {
        None => false,
        Some(p) => match block_of(fragment) {
            Some(b) => exists|k: int|
                0 <= k < p.blocks@.len() && unicode_lowercase(#[trigger] p.blocks@[k]@)
                    == unicode_lowercase(b),
            None => heading_line_in(p, fragment, markdown) is Some,
        },
    }
}

fn heading_line_parsed(p: &Parsed, fragment: &str, markdown: bool) -> (r: Option<u32>)
    ensures
        r == heading_line_in(*p, fragment@, markdown),
{
    let fc = chars_of(fragment);
    let parts = fragment_parts_exec(fc.as_slice());
    let ghost pv = parts@.map_values(|v: Vec<char>| v@);
    if parts.len() == 0 || block_fragment(fragment).is_some() {
        return None;
    }
    let hs = &p.headings;
    let mut matched: usize = 0;
    let mut depth: u8 = 0;
    let mut i: usize = 0;
    while i < hs.len()
        invariant
            i <= hs@.len(),
            hs@ == p.headings@,
            pv == parts@.map_values(|v: Vec<char>| v@),
            pv == fragment_parts(fragment@),
            block_of(fragment@) is None,
            matched < pv.len(),
            heading_scan(hs@, pv, markdown, 0, 0, 0) == heading_scan(hs@, pv, markdown, i as int, matched as int, depth),
        decreases hs.len() - i,
    {
        let h = &hs[i];
        assert(pv[matched as int] == parts@[matched as int]@);
        let part = crate::text::string_of(parts[matched].as_slice());
        let mut hit = strs_eq(heading_norm(h.text.as_str()).as_str(), heading_norm(part.as_str()).as_str());
        if !hit && markdown {
            hit = strs_eq(github_slug(h.text.as_str()).as_str(), to_lowercase(part.as_str()).as_str());
        }
        assert(hit == heading_hit(hs@[i as int].text@, pv[matched as int], markdown));
        if h.level > depth && hit {
            if matched == parts.len() - 1 {
                return Some(h.line);
            }
            matched = matched + 1;
            depth = h.level;
        }
        i = i + 1;
    }
    None
}

fn fragment_found_in(parsed: &Option<Parsed>, fragment: &str, markdown: bool) -> (r: bool)
    ensures
        r == fragment_in(*parsed, fragment@, markdown),
{
    let p = match parsed {
        Some(p) => p,
        None => return false,
    };
    if let Some(block) = block_fragment(fragment) {
        assert(block_of(fragment@) == Some(block@));
        let bl = to_lowercase(block.as_str());
        let mut k: usize = 0;
        while k < p.blocks.len()
            invariant
                k <= p.blocks@.len(),
                bl@ == unicode_lowercase(block@),
                *parsed == Some(*p),
                block_of(fragment@) == Some(block@),
                forall|j: int| 0 <= j < k ==> unicode_lowercase(#[trigger] p.blocks@[j]@) != bl@,
            decreases p.blocks.len() - k,
        {
            if strs_eq(to_lowercase(p.blocks[k].as_str()).as_str(), bl.as_str()) {
                assert(unicode_lowercase(p.blocks@[k as int]@) == unicode_lowercase(block@));
                return true;
            }
            k = k + 1;
        }
        return false;
    }
    heading_line_parsed(p, fragment, markdown).is_some()
}

/// The last file among the first `n` whose key is `k`: the one a map from
/// key to file, filled in file order, keeps.
pub open spec fn last_key(rels: Seq<Seq<char>>, k: Seq<char>, n: int) -> Option<FileId>
    decreases n,
{
    if n <= 0 {
        None
    } else if key_of(rels[n - 1]) == k {
        Some((n - 1) as FileId)
    } else {
        last_key(rels, k, n - 1)
    }
}

/// A wikilink from `source`: the source itself when the target is empty.
pub open spec fn wikilink_of(rels: Seq<Seq<char>>, target: Seq<char>, source: FileId) -> Seq<FileId> {
    if target.len() == 0 {
        seq![source]
    } else {
        wikilink_spec(rels, target, dirname(key_of(rels[source as int])))
    }
}

/// A Markdown link from `source`: relative to the source note first; a path
/// that climbs above the root is unresolved; one that names no file falls
/// back to the wikilink rules.
pub open spec fn markdown_of(rels: Seq<Seq<char>>, target: Seq<char>, source: FileId) -> Seq<FileId> {
    if target.len() == 0 {
        seq![source]
    } else if !starts_with(target, seq!['/']) {
        match normalized(join(dirname(rels[source as int]), target)) {
            None => seq![],
            Some(j) => match last_key(rels, key_of(j), rels.len() as int) {
                Some(id) => seq![id],
                None => wikilink_of(rels, target, source),
            },
        }
    } else {
        wikilink_of(rels, target, source)
    }
}

/// The files a link reaches, in Obsidian's order.
pub open spec fn found_of(rels: Seq<Seq<char>>, link: Link, source: FileId) -> Seq<FileId> {
    if link.markdown {
        markdown_of(rels, link.target@, source)
    } else {
        wikilink_of(rels, link.target@, source)
    }
}

/// The state of a link's fragment in the file it reaches.
pub open spec fn fragment_of(files: Seq<File>, link: Link, first: FileId) -> Fragment {
    match link.fragment {
        None => Fragment::Absent,
        Some(f) => if fragment_in(files[first as int].parsed, f@, link.markdown) {
            Fragment::Found
        } else {
            Fragment::Missing
        },
    }
}

/// `r` is the resolution of a link that reaches `found`.
pub open spec fn resolves_as(r: Resolved, found: Seq<FileId>, frag: Fragment) -> bool {
    match r {
        Resolved::Unresolved => found.len() == 0,
        Resolved::File { id, fragment } => found.len() == 1 && id == found[0] && fragment == frag,
        Resolved::Ambiguous { pick, others, fragment } => found.len() > 1 && pick == found[0]
            && others@ == found.drop_first() && fragment == frag,
    }
}

/// `r` is how `link`, written in `source`, resolves among `files`.
pub open spec fn resolution(files: Seq<File>, link: Link, source: FileId, r: Resolved) -> bool {
    let found = found_of(rel_views(files), link, source);
    resolves_as(r, found, if found.len() > 0 { fragment_of(files, link, found[0]) } else { Fragment::Absent })
}

/// The links a file holds: none unless it was parsed.
pub open spec fn links_of(f: File) -> Seq<Link> {
    match f.parsed {
        Some(p) => p.links@,
        None => seq![],
    }
}

impl Index {
    /// The line of the heading a fragment names in note `id`, following
    /// Obsidian's nested `#a#b` rule. `None` for unparsed files, block
    /// fragments and misses.
    pub fn heading_line(&self, id: FileId, fragment: &str, markdown: bool) -> (r: Option<u32>)
        requires
            id < self.files@.len(),
        ensures
            r == match self.files@[id as int].parsed {
                Some(p) => heading_line_in(p, fragment@, markdown),
                None => None,
            },
    {
        match &self.files[id].parsed {
            Some(p) => heading_line_parsed(p, fragment, markdown),
            None => None,
        }
    }

    /// The file whose path has the key of `rel`.
    pub fn id(&self, rel: &str) -> (r: Option<FileId>)
        requires
            self.names_wf(),
        ensures
            r == last_key(self.rel_seq(), key_of(rel@), self.files@.len() as int),
    {
        let k = key(rel);
        let kc = chars_of(k.as_str());
        self.last_key_exec(kc.as_slice())
    }

    fn last_key_exec(&self, k: &[char]) -> (r: Option<FileId>)
        requires
            self.names_wf(),
        ensures
            r == last_key(self.rel_seq(), k@, self.files@.len() as int),
            r matches Some(i) ==> i < self.files@.len(),
    {
        let mut i: usize = self.keys.len();
        while i > 0
            invariant
                self.names_wf(),
                i <= self.files@.len(),
                last_key(self.rel_seq(), k@, self.files@.len() as int) == last_key(self.rel_seq(), k@, i as int),
            decreases i,
        {
            assert(self.rel_seq()[i - 1] == self.files@[i - 1].rel@);
            assert(self.keys@[i - 1]@ == key_of(self.files@[i - 1].rel@));
            if chars_eq(self.keys[i - 1].as_slice(), k) {
                return Some(i - 1);
            }
            i = i - 1;
        }
        None
    }

    /// Obsidian 1.14.2's `getLinkpathDest`: the candidates in its order.
    /// Equal lengths are ordered by path.
    pub fn wikilink(&self, target: &str, source: FileId) -> (r: Vec<FileId>)
        requires
            self.names_wf(),
            source < self.files@.len(),
        ensures
            r@ == wikilink_of(self.rel_seq(), target@, source),
            forall|k: int| 0 <= k < r@.len() ==> r@[k] < self.files@.len(),
    {
        if target.as_bytes().len() == 0 {
            let mut v = Vec::new();
            v.push(source);
            return v;
        }
        assert(self.rel_seq()[source as int] == self.files@[source as int].rel@);
        let folder = crate::text::string_of(dirname_exec(self.keys[source].as_slice()));
        self.wikilink_from(target, folder.as_str())
    }

    /// A Markdown link: relative to the source note first. A path that climbs
    /// above the root is unresolved; one that does not exist falls back to the
    /// wikilink rules.
    pub fn markdown(&self, target: &str, source: FileId) -> (r: Vec<FileId>)
        requires
            self.names_wf(),
            source < self.files@.len(),
        ensures
            r@ == markdown_of(self.rel_seq(), target@, source),
            forall|k: int| 0 <= k < r@.len() ==> r@[k] < self.files@.len(),
    {
        let tc = chars_of(target);
        if tc.len() == 0 {
            let mut v = Vec::new();
            v.push(source);
            return v;
        }
        let rooted = tc[0] == '/';
        proof {
            assert(tc@.take(1) =~= seq![tc@[0]]);
            if tc@[0] != '/' {
                assert(tc@.take(1)[0] != seq!['/'][0]);
            }
        }
        assert(rooted == starts_with(target@, seq!['/']));
        if !rooted {
            assert(self.rel_seq()[source as int] == self.files@[source as int].rel@);
            let dir = dirname_exec(self.rels[source].as_slice());
            let joined = join_exec(dir, tc.as_slice());
            match normalize(joined.as_slice()) {
                None => return Vec::new(),
                Some(n) => {
                    let k = key(crate::text::string_of(n.as_slice()).as_str());
                    let kc = chars_of(k.as_str());
                    if let Some(id) = self.last_key_exec(kc.as_slice()) {
                        let mut v = Vec::new();
                        v.push(id);
                        return v;
                    }
                },
            }
        }
        self.wikilink(target, source)
    }

    /// How `link`, written in `source`, resolves.
    pub fn resolve(&self, link: &Link, source: FileId) -> (r: Resolved)
        requires
            self.names_wf(),
            source < self.files@.len(),
        ensures
            resolution(self.files@, *link, source, r),
            target_of(r) matches Some(t) ==> t < self.files@.len(),
    {
        let found = if link.markdown {
            self.markdown(link.target.as_str(), source)
        } else {
            self.wikilink(link.target.as_str(), source)
        };
        if found.len() == 0 {
            return Resolved::Unresolved;
        }
        let first = found[0];
        let fragment = match &link.fragment {
            None => Fragment::Absent,
            Some(f) => if fragment_found_in(&self.files[first].parsed, f.as_str(), link.markdown) {
                Fragment::Found
            } else {
                Fragment::Missing
            },
        };
        if found.len() == 1 {
            Resolved::File { id: first, fragment }
        } else {
            let others = vstd::slice::slice_to_vec(crate::text::slice_range(found.as_slice(), 1, found.len()));
            assert(others@ =~= found@.drop_first());
            Resolved::Ambiguous { pick: first, others, fragment }
        }
    }

    /// The links a file holds; none unless it was parsed.
    pub fn links(&self, id: FileId) -> (r: &[Link])
        requires
            id < self.files@.len(),
        ensures
            r@ == links_of(self.files@[id as int]),
    {
        match &self.files[id].parsed {
            Some(p) => p.links.as_slice(),
            None => &[],
        }
    }
}

/// Each file's row resolves each of its links, and every target is a file.
pub open spec fn forward_ok(files: Seq<File>, forward: Seq<Vec<Resolved>>) -> bool {
    &&& forward.len() == files.len()
    &&& forall|i: int| 0 <= i < files.len() ==> #[trigger] forward[i]@.len() == links_of(files[i]).len()
    &&& forall|i: int, j: int|
        0 <= i < files.len() && 0 <= j < forward[i]@.len() ==> resolution(
            files,
            links_of(files[i])[j],
            i as FileId,
            #[trigger] forward[i]@[j],
        )
    &&& forall|i: int, j: int|
        0 <= i < files.len() && 0 <= j < forward[i]@.len() ==> (target_of(#[trigger] forward[i]@[j]) matches Some(t)
            ==> t < files.len())
}

/// Link `p` of note `s` leads to another file `t`, and `s` is not excluded.
pub open spec fn is_edge(files: Seq<File>, forward: Seq<Vec<Resolved>>, s: int, p: int, t: int) -> bool {
    &&& 0 <= s < files.len()
    &&& s < forward.len()
    &&& !files[s].excluded
    &&& 0 <= p < forward[s]@.len()
    &&& target_of(forward[s]@[p]) == Some(t as FileId)
    &&& 0 <= t < files.len()
    &&& t != s
}

/// Source-then-position order.
pub open spec fn pair_lt(a: (FileId, usize), b: (FileId, usize)) -> bool {
    a.0 < b.0 || (a.0 == b.0 && a.1 < b.1)
}

/// Each file's backlinks are the links that lead to it, in source and
/// position order.
pub open spec fn back_ok(files: Seq<File>, forward: Seq<Vec<Resolved>>, back: Seq<Vec<(FileId, usize)>>) -> bool {
    &&& back.len() == files.len()
    &&& forall|t: int, k: int|
        0 <= t < back.len() && 0 <= k < back[t]@.len() ==> is_edge(
            files,
            forward,
            (#[trigger] back[t]@[k]).0 as int,
            back[t]@[k].1 as int,
            t,
        )
    &&& forall|t: int, s: int, p: int|
        #[trigger] is_edge(files, forward, s, p, t) ==> 0 <= t < back.len() && back[t]@.contains((s as FileId, p as usize))
    &&& forall|t: int, a: int, b: int|
        0 <= t < back.len() && 0 <= a < b < back[t]@.len() ==> pair_lt(#[trigger] back[t]@[a], #[trigger] back[t]@[b])
}

impl Index {
    /// The lookup tables, the forward table and the back table all agree
    /// with the files.
    pub open spec fn wf(&self) -> bool {
        &&& self.names_wf()
        &&& forward_ok(self.files@, self.forward@)
        &&& back_ok(self.files@, self.forward@, self.back@)
    }

    /// Builds the lookup tables and resolves every link.
    pub fn from_files(root: String, files: Vec<File>, skipped_filters: Vec<String>, exclude: Vec<String>) -> (r: Index)
        ensures
            r.wf(),
            r.root == root,
            r.files@ == files@,
            r.skipped_filters@ == skipped_filters@,
            r.exclude@ == exclude@,
    {
        let mut keys: Vec<Vec<char>> = Vec::new();
        let mut names: Vec<Vec<char>> = Vec::new();
        let mut rels: Vec<Vec<char>> = Vec::new();
        let mut rel_bytes: Vec<usize> = Vec::new();
        let mut i: usize = 0;
        while i < files.len()
            invariant
                i <= files@.len(),
                keys@.len() == i,
                names@.len() == i,
                rels@.len() == i,
                rel_bytes@.len() == i,
                forall|j: int|
                    #![trigger files@[j]]
                    0 <= j < i ==> {
                        &&& keys@[j]@ == key_of(files@[j].rel@)
                        &&& names@[j]@ == basename(key_of(files@[j].rel@))
                        &&& rels@[j]@ == files@[j].rel@
                        &&& rel_bytes@[j] == bytes_of(files@[j].rel@).len()
                    },
            decreases files.len() - i,
        {
            let rel = files[i].rel.as_str();
            let k = key(rel);
            let kc = chars_of(k.as_str());
            let nm = vstd::slice::slice_to_vec(basename_exec(kc.as_slice()));
            keys.push(kc);
            names.push(nm);
            rels.push(chars_of(rel));
            rel_bytes.push(rel.as_bytes().len());
            i = i + 1;
        }
        let mut index = Index {
            root,
            files,
            skipped_filters,
            exclude,
            keys,
            names,
            rels,
            rel_bytes,
            forward: Vec::new(),
            back: Vec::new(),
        };
        assert(index.names_wf());
        let forward = index.forward_table();
        index.forward = forward;
        let back = back_table(&index.files, &index.forward);
        index.back = back;
        index
    }

    /// Every link of every parsed file, resolved.
    fn forward_table(&self) -> (r: Vec<Vec<Resolved>>)
        requires
            self.names_wf(),
        ensures
            forward_ok(self.files@, r@),
    {
        let n = self.files.len();
        let mut out: Vec<Vec<Resolved>> = Vec::new();
        let mut i: usize = 0;
        while i < n
            invariant
                self.names_wf(),
                n == self.files@.len(),
                i <= n,
                out@.len() == i,
                forall|a: int| 0 <= a < i ==> #[trigger] out@[a]@.len() == links_of(self.files@[a]).len(),
                forall|a: int, j: int|
                    0 <= a < i && 0 <= j < out@[a]@.len() ==> resolution(
                        self.files@,
                        links_of(self.files@[a])[j],
                        a as FileId,
                        #[trigger] out@[a]@[j],
                    ),
                forall|a: int, j: int|
                    0 <= a < i && 0 <= j < out@[a]@.len() ==> (target_of(#[trigger] out@[a]@[j]) matches Some(t)
                        ==> t < n),
            decreases n - i,
        {
            let mut row: Vec<Resolved> = Vec::new();
            let ghost links = links_of(self.files@[i as int]);
            match &self.files[i].parsed {
                Some(p) => {
                    let mut j: usize = 0;
                    while j < p.links.len()
                        invariant
                            self.names_wf(),
                            n == self.files@.len(),
                            i < n,
                            links == p.links@,
                            j <= links.len(),
                            row@.len() == j,
                            forall|b: int| 0 <= b < j ==> resolution(self.files@, links[b], i as FileId, #[trigger] row@[b]),
                            forall|b: int| 0 <= b < j ==> (target_of(#[trigger] row@[b]) matches Some(t) ==> t < n),
                        decreases links.len() - j,
                    {
                        let r = self.resolve(&p.links[j], i);
                        row.push(r);
                        j = j + 1;
                    }
                },
                None => {},
            }
            out.push(row);
            i = i + 1;
        }
        out
    }
}

/// The backlinks of each file, in source and position order.
fn back_table(files: &Vec<File>, forward: &Vec<Vec<Resolved>>) -> (r: Vec<Vec<(FileId, usize)>>)
    requires
        forward_ok(files@, forward@),
    ensures
        back_ok(files@, forward@, r@),
{
    let n = files.len();
    let mut back: Vec<Vec<(FileId, usize)>> = Vec::new();
    let mut i: usize = 0;
    while i < n
        invariant
            i <= n,
            back@.len() == i,
            forall|t: int| 0 <= t < i ==> (#[trigger] back@[t])@.len() == 0,
        decreases n - i,
    {
        back.push(Vec::new());
        i = i + 1;
    }
    let mut s: usize = 0;
    while s < n
        invariant
            n == files@.len(),
            forward_ok(files@, forward@),
            s <= n,
            back@.len() == n,
            forall|t: int, k: int|
                0 <= t < n && 0 <= k < back@[t]@.len() ==> (#[trigger] back@[t]@[k]).0 < s && is_edge(
                    files@,
                    forward@,
                    back@[t]@[k].0 as int,
                    back@[t]@[k].1 as int,
                    t,
                ),
            forall|t: int, s2: int, p: int|
                #[trigger] is_edge(files@, forward@, s2, p, t) && s2 < s ==> back@[t]@.contains((s2 as FileId, p as usize)),
            forall|t: int, a: int, b: int|
                0 <= t < n && 0 <= a < b < back@[t]@.len() ==> pair_lt(#[trigger] back@[t]@[a], #[trigger] back@[t]@[b]),
        decreases n - s,
    {
        if !files[s].excluded {
            let row = &forward[s];
            let mut p: usize = 0;
            while p < row.len()
                invariant
                    n == files@.len(),
                    forward_ok(files@, forward@),
                    s < n,
                    !files@[s as int].excluded,
                    row@ == forward@[s as int]@,
                    p <= row@.len(),
                    back@.len() == n,
                    forall|t: int, k: int|
                        0 <= t < n && 0 <= k < back@[t]@.len() ==> pair_lt(#[trigger] back@[t]@[k], (s, p)) && is_edge(
                            files@,
                            forward@,
                            back@[t]@[k].0 as int,
                            back@[t]@[k].1 as int,
                            t,
                        ),
                    forall|t: int, s2: int, p2: int|
                        #[trigger] is_edge(files@, forward@, s2, p2, t) && (s2 < s || (s2 == s && p2 < p))
                            ==> back@[t]@.contains((s2 as FileId, p2 as usize)),
                    forall|t: int, a: int, b: int|
                        0 <= t < n && 0 <= a < b < back@[t]@.len() ==> pair_lt(#[trigger] back@[t]@[a], #[trigger] back@[t]@[b]),
                decreases row@.len() - p,
            {
                match row[p].target() {
                    Some(t) => {
                        if t != s {
                            assert(t < n);
                            let ghost old_back = back@;
                            back[t].push((s, p));
                            assert(back@[t as int]@ == old_back[t as int]@.push((s, p)));
                            assert(forall|u: int| 0 <= u < n && u != t ==> back@[u] == old_back[u]);
                            assert(is_edge(files@, forward@, s as int, p as int, t as int));
                            assert(back@[t as int]@[old_back[t as int]@.len() as int] == (s, p));
                            assert forall|u: int, s2: int, p2: int|
                                #[trigger] is_edge(files@, forward@, s2, p2, u) && (s2 < s || (s2 == s && p2 < p + 1))
                                    implies back@[u]@.contains((s2 as FileId, p2 as usize)) by {
                                if s2 == s && p2 == p {
                                    assert(u == t);
                                } else if u == t {
                                    assert(old_back[u]@.contains((s2 as FileId, p2 as usize)));
                                    let k = choose|k: int| 0 <= k < old_back[u]@.len() && old_back[u]@[k] == (s2 as FileId, p2 as usize);
                                    assert(back@[u]@[k] == (s2 as FileId, p2 as usize));
                                } else {
                                    assert(back@[u] == old_back[u]);
                                }
                            }
                        }
                    },
                    None => {},
                }
                p = p + 1;
            }
        }
        s = s + 1;
    }
    back
}

/// A backlink is exactly a link that leads to the file from another note
/// that is not excluded: `(s, p)` is among the backlinks of `t` if and only
/// if link `p` of note `s` resolves to `t`, `s` is not excluded, and `s` is
/// not `t`.
pub proof fn lemma_backlinks_invert_links(index: &Index, t: FileId, s: FileId, p: usize)
    requires
        index.wf(),
        t < index.files@.len(),
    ensures
        index.back@[t as int]@.contains((s, p)) <==> is_edge(index.files@, index.forward@, s as int, p as int, t as int),
{
    if index.back@[t as int]@.contains((s, p)) {
        let k = choose|k: int| 0 <= k < index.back@[t as int]@.len() && index.back@[t as int]@[k] == (s, p);
        assert(index.back@[t as int]@[k] == (s, p));
    }
}

/// A file's path without `.md` for notes.
pub open spec fn bare_of(f: File) -> Seq<char> {
    match f.kind {
        Kind::Note => if ends_with(f.rel@, seq!['.', 'm', 'd']) {
            f.rel@.take(f.rel@.len() - 3)
        } else {
            f.rel@
        },
        Kind::Attachment => f.rel@,
    }
}

/// The first tail of `parts`, `n` pieces long or longer, that as a wikilink
/// from the root reaches `id` alone.
pub open spec fn shortest_from(rels: Seq<Seq<char>>, parts: Seq<Seq<char>>, id: FileId, n: int) -> Option<Seq<char>>
    decreases parts.len() + 1 - n,
{
    if n < 1 || n > parts.len() {
        None
    } else {
        let t = join_slash(parts.skip(parts.len() - n));
        if wikilink_spec(rels, t, seq![]) == seq![id] {
            Some(t)
        } else {
            shortest_from(rels, parts, id, n + 1)
        }
    }
}

/// The shortest `[[link]]` target that reaches `id` alone from the root.
pub open spec fn shortest_link_of(files: Seq<File>, id: FileId) -> Seq<char> {
    let bare = bare_of(files[id as int]);
    match shortest_from(rel_views(files), split_char(bare, '/'), id, 1) {
        Some(t) => t,
        None => bare,
    }
}

impl Index {
    /// The shortest `[[link]]` target that reaches `id` alone from a note at
    /// the root: trailing path segments, without `.md` for notes.
    pub fn shortest_link(&self, id: FileId) -> (r: String)
        requires
            self.names_wf(),
            id < self.files@.len(),
        ensures
            r@ == shortest_link_of(self.files@, id),
    {
        let rc = chars_of(self.files[id].rel.as_str());
        let bare: &[char] = match self.files[id].kind {
            Kind::Note => if ends_with_exec(rc.as_slice(), ".md") {
                proof {
                    reveal_strlit(".md");
                }
                crate::text::slice_range(rc.as_slice(), 0, rc.len() - 3)
            } else {
                proof {
                    reveal_strlit(".md");
                }
                rc.as_slice()
            },
            Kind::Attachment => rc.as_slice(),
        };
        assert(bare@ == bare_of(self.files@[id as int])) by {
            reveal_strlit(".md");
            assert(".md"@ =~= seq!['.', 'm', 'd']);
        }
        let parts = split_char_exec(bare, '/');
        let ghost pv = parts@.map_values(|v: Vec<char>| v@);
        let len = parts.len();
        let mut k: usize = 0;
        while k < len
            invariant
                self.names_wf(),
                id < self.files@.len(),
                len == parts@.len(),
                pv == parts@.map_values(|v: Vec<char>| v@),
                pv == split_char(bare@, '/'),
                bare@ == bare_of(self.files@[id as int]),
                k <= len,
                shortest_from(self.rel_seq(), pv, id, 1) == shortest_from(self.rel_seq(), pv, id, k + 1),
            decreases len - k,
        {
            let n = k + 1;
            let tail = crate::text::slice_range(parts.as_slice(), len - n, len);
            assert(tail@.map_values(|v: Vec<char>| v@) =~= pv.skip(len - n));
            let t = crate::paths::join_slash_exec(tail);
            let ts = crate::text::string_of(t.as_slice());
            assert(ts@ == join_slash(pv.skip(len - n)));
            let found = self.wikilink_from(ts.as_str(), "");
            proof {
                reveal_strlit("");
                assert(""@ =~= Seq::<char>::empty());
            }
            assert(found@ == wikilink_spec(self.rel_seq(), join_slash(pv.skip(len - n)), seq![]));
            if found.len() == 1 && found[0] == id {
                assert(found@ =~= seq![id]);
                return ts;
            }
            assert(found@ != seq![id]) by {
                if found@ == seq![id] {
                    assert(found@.len() == 1);
                }
            }
            k = k + 1;
        }
        crate::text::string_of(bare)
    }
}

/// Whether `s` ends with the char `c`.
pub fn ends_with_chars_pub(s: &[char], c: char) -> (r: bool)
    ensures
        r == ends_with(s@, seq![c]),
{
    let r = s.len() > 0 && s[s.len() - 1] == c;
    proof {
        if s@.len() > 0 {
            assert(s@.skip(s@.len() - 1) =~= seq![s@.last()]);
            if s@.last() != c {
                assert(s@.skip(s@.len() - 1)[0] != seq![c][0]);
            }
        }
    }
    r
}

/// Whether `s` starts with `p`.
pub fn starts_with_chars_pub(s: &[char], p: &[char]) -> (r: bool)
    ensures
        r == starts_with(s@, p@),
{
    starts_with_chars(s, p)
}


/// Bump on any change to `Parsed` or to what `parse` extracts.
pub const CACHE_FORMAT: u32 = 1;

/// A cached parse is not trusted when its file changed this close to the
/// cache write: a second write in the same mtime tick leaves mtime alone.
pub const RACY_NS: u128 = 2_000_000_000;

/// One file as the cache remembers it.
#[derive(Debug, Clone)]
pub struct CachedFile {
    pub kind: Kind,
    pub mtime_ns: u128,
    pub size: u64,
    pub parsed: Option<Parsed>,
}

/// Notes that are not excluded get parsed; nothing else does.
pub open spec fn needs_parse_of(e: Entry) -> bool {
    e.kind == Kind::Note && !e.excluded
}

pub fn needs_parse(e: &Entry) -> (r: bool)
    ensures
        r == needs_parse_of(*e),
{
    e.kind == Kind::Note && !e.excluded
}

/// The cache's record matches the scan: same kind, mtime and size.
pub open spec fn same_as_cached(e: Entry, hit: Option<CachedFile>) -> bool {
    hit matches Some(h) && h.kind == e.kind && h.mtime_ns == e.mtime_ns && h.size == e.size
}

/// A cached parse is reused when the record matches, the mtime is known,
/// the file last changed well before the cache was written, and the record
/// holds a parse.
pub open spec fn reusable(e: Entry, hit: Option<CachedFile>, written_ns: u128) -> bool {
    &&& same_as_cached(e, hit)
    &&& e.mtime_ns != 0
    &&& e.mtime_ns + RACY_NS < written_ns
    &&& hit->0.parsed is Some
}

/// The cache's record of a file: its kind, mtime, size and parse.
pub open spec fn record_of(f: File) -> CachedFile {
    CachedFile { kind: f.kind, mtime_ns: f.mtime_ns, size: f.size, parsed: f.parsed }
}

/// A note cached as the scan still finds it, changed well before the cache
/// was written, is not parsed again: loading reuses its cached parse.
pub proof fn lemma_cache_round_trip(f: File, e: Entry, written_ns: u128)
    requires
        needs_parse_of(e),
        f.kind == e.kind,
        f.mtime_ns == e.mtime_ns,
        f.size == e.size,
        f.parsed is Some,
        e.mtime_ns != 0,
        e.mtime_ns + RACY_NS < written_ns,
    ensures
        reusable(e, Some(record_of(f)), written_ns),
{
}

/// The counts after loading scanned file `e` (see `LoadStats::step`).
pub open spec fn step_stats(st: LoadStats, e: Entry, hit: Option<CachedFile>, written_ns: u128) -> LoadStats {
    if !needs_parse_of(e) {
        LoadStats { stale: st.stale || !same_as_cached(e, hit) || (hit matches Some(h) && h.parsed is Some), ..st }
    } else if reusable(e, hit, written_ns) {
        LoadStats { reused: (st.reused + 1) as usize, ..st }
    } else {
        LoadStats { parsed: (st.parsed + 1) as usize, stale: true, ..st }
    }
}

/// The counts after loading the scanned files in turn, each with its
/// record in the cache.
pub open spec fn load_stats(st: LoadStats, es: Seq<Entry>, hits: Seq<Option<CachedFile>>, written_ns: u128) -> LoadStats
    decreases es.len(),
{
    if es.len() == 0 || hits.len() != es.len() {
        st
    } else {
        step_stats(load_stats(st, es.drop_last(), hits.drop_last(), written_ns), es.last(), hits.last(), written_ns)
    }
}

/// How many files hold a parse.
pub open spec fn parse_count(files: Seq<File>) -> nat
    decreases files.len(),
{
    if files.len() == 0 {
        0
    } else {
        parse_count(files.drop_last()) + if files.last().parsed is Some { 1nat } else { 0nat }
    }
}

/// A second load reuses every parse: when the cache holds the records of
/// an index's files, the scan finds each file as it was, and every note
/// changed well before the cache was written, loading in the same order
/// reuses as many parses as the files hold, parses none, and finds the
/// cache current.
pub proof fn lemma_reload_reuses_every_parse(files: Seq<File>, es: Seq<Entry>, written_ns: u128)
    requires
        es.len() == files.len() < usize::MAX,
        forall|i: int|
            0 <= i < es.len() ==> (#[trigger] es[i]).kind == files[i].kind && es[i].excluded == files[i].excluded
                && es[i].mtime_ns == files[i].mtime_ns && es[i].size == files[i].size,
        forall|i: int|
            0 <= i < es.len() ==> (needs_parse_of(#[trigger] es[i]) ==> files[i].parsed is Some && es[i].mtime_ns != 0
                && es[i].mtime_ns + RACY_NS < written_ns),
        forall|i: int| 0 <= i < es.len() ==> (!needs_parse_of(#[trigger] es[i]) ==> files[i].parsed is None),
    ensures
        load_stats(
            LoadStats { reused: 0, parsed: 0, stale: false },
            es,
            files.map_values(|f: File| Some(record_of(f))),
            written_ns,
        ) == (LoadStats { reused: parse_count(files) as usize, parsed: 0, stale: false }),
        parse_count(files) <= files.len(),
    decreases es.len(),
{
    let hits = files.map_values(|f: File| Some(record_of(f)));
    if es.len() > 0 {
        let (es2, fs2) = (es.drop_last(), files.drop_last());
        assert forall|i: int| 0 <= i < es2.len() implies (#[trigger] es2[i]).kind == fs2[i].kind && es2[i].excluded
            == fs2[i].excluded && es2[i].mtime_ns == fs2[i].mtime_ns && es2[i].size == fs2[i].size by {
            assert(es2[i] == es[i] && fs2[i] == files[i]);
        }
        assert forall|i: int| 0 <= i < es2.len() implies (needs_parse_of(#[trigger] es2[i]) ==> fs2[i].parsed is Some
            && es2[i].mtime_ns != 0 && es2[i].mtime_ns + RACY_NS < written_ns) by {
            assert(es2[i] == es[i] && fs2[i] == files[i]);
        }
        assert forall|i: int| 0 <= i < es2.len() implies (!needs_parse_of(#[trigger] es2[i]) ==> fs2[i].parsed is None) by {
            assert(es2[i] == es[i] && fs2[i] == files[i]);
        }
        lemma_reload_reuses_every_parse(fs2, es2, written_ns);
        assert(hits.drop_last() =~= fs2.map_values(|f: File| Some(record_of(f))));
        let last = es.len() - 1;
        assert(es.last() == es[last] && files.last() == files[last]);
        assert(hits.last() == Some(record_of(files[last])));
    }
}

/// What loading does with one scanned file.
#[derive(Debug, Clone)]
pub enum LoadAction {
    /// Nothing to parse: an attachment or an excluded file.
    Unparsed,
    /// The cached parse stands.
    Reuse(Parsed),
    /// The file is read and parsed again.
    Parse,
}

/// Counts of a load, and whether the cache on disk no longer matches the
/// index.
#[derive(Debug, Clone, Copy, PartialEq, Eq, Structural)]
pub struct LoadStats {
    pub reused: usize,
    pub parsed: usize,
    pub stale: bool,
}

impl LoadStats {
    /// Before the first file: the cache is stale when there is none or it
    /// records a different number of files.
    pub fn start(cached: Option<usize>, entries: usize) -> (r: LoadStats)
        ensures
            r.reused == 0,
            r.parsed == 0,
            r.stale == (cached is None || cached != Some(entries)),
    {
        LoadStats {
            reused: 0,
            parsed: 0,
            stale: match cached {
                Some(n) => n != entries,
                None => true,
            },
        }
    }

    /// Decides what loading does with scanned file `e`, given the cache's
    /// record of it and when the cache was written, and counts it: a file
    /// that needs no parse makes the cache stale when its record differs or
    /// holds a parse; a parsed file always does.
    pub fn step(&mut self, e: &Entry, hit: Option<CachedFile>, written_ns: u128) -> (r: LoadAction)
        requires
            old(self).reused < usize::MAX,
            old(self).parsed < usize::MAX,
        ensures
            !needs_parse_of(*e) ==> {
                &&& r is Unparsed
                &&& *final(self) == (LoadStats {
                    stale: old(self).stale || !same_as_cached(*e, hit) || (hit matches Some(h) && h.parsed is Some),
                    ..*old(self)
                })
            },
            needs_parse_of(*e) && reusable(*e, hit, written_ns) ==> {
                &&& r == LoadAction::Reuse(hit->0.parsed->0)
                &&& *final(self) == (LoadStats { reused: (old(self).reused + 1) as usize, ..*old(self) })
            },
            needs_parse_of(*e) && !reusable(*e, hit, written_ns) ==> {
                &&& r is Parse
                &&& *final(self) == (LoadStats { parsed: (old(self).parsed + 1) as usize, stale: true, ..*old(self) })
            },
            *final(self) == step_stats(*old(self), *e, hit, written_ns),
    {
        let same = match &hit {
            Some(h) => h.kind == e.kind && h.mtime_ns == e.mtime_ns && h.size == e.size,
            None => false,
        };
        if !needs_parse(e) {
            let has_parse = match &hit {
                Some(h) => h.parsed.is_some(),
                None => false,
            };
            self.stale = self.stale || !same || has_parse;
            return LoadAction::Unparsed;
        }
        let recent = e.mtime_ns > u128::MAX - RACY_NS || e.mtime_ns + RACY_NS >= written_ns;
        match hit {
            Some(h) => {
                if same && e.mtime_ns != 0 && !recent {
                    if let Some(p) = h.parsed {
                        self.reused = self.reused + 1;
                        return LoadAction::Reuse(p);
                    }
                }
            },
            None => {},
        }
        self.parsed = self.parsed + 1;
        self.stale = true;
        LoadAction::Parse
    }
}

/// What a refresh does with one scanned file.
#[derive(Debug, Clone, Copy, PartialEq, Eq, Structural)]
pub enum RefreshAction {
    /// Unchanged: the old record stands.
    Keep,
    /// Known but changed, or a note named by the watcher: read again.
    Reread,
    /// New to the index.
    Add,
}

/// The old record matches the scan: same kind, mtime, size and exclusion.
pub open spec fn same_as_before(e: Entry, prev: File) -> bool {
    prev.kind == e.kind && prev.mtime_ns == e.mtime_ns && prev.size == e.size && prev.excluded == e.excluded
}

pub open spec fn refresh_action_of(e: Entry, prev: Option<File>, touched: bool) -> RefreshAction {
    match prev {
        None => RefreshAction::Add,
        Some(p) => if same_as_before(e, p) && !(needs_parse_of(e) && touched) {
            RefreshAction::Keep
        } else {
            RefreshAction::Reread
        },
    }
}

/// Decides what a refresh does with scanned file `e`, given the index's old
/// record of it and whether the watcher named it: notes it named are read
/// again even when their mtime and size look unchanged.
pub fn refresh_action(e: &Entry, prev: Option<&File>, touched: bool) -> (r: RefreshAction)
    ensures
        r == refresh_action_of(*e, match prev {
            Some(p) => Some(*p),
            None => None,
        }, touched),
{
    match prev {
        None => RefreshAction::Add,
        Some(p) => {
            let same = p.kind == e.kind && p.mtime_ns == e.mtime_ns && p.size == e.size && p.excluded == e.excluded;
            if same && !(needs_parse(e) && touched) {
                RefreshAction::Keep
            } else {
                RefreshAction::Reread
            }
        },
    }
}

/// The parse a file holds, as plain values.
pub open spec fn parse_view(p: Option<Parsed>) -> Option<crate::parse::ParsedView> {
    match p {
        Some(x) => Some(x@),
        None => None,
    }
}

/// A file read again counts as modified when it changed on disk (its
/// mtime or size), even in prose alone, or when its parse, exclusion or
/// kind changed; a note the watcher named that is the same on disk and
/// parses the same is not.
pub fn modified(prev: &File, e: &Entry, parsed: &Option<Parsed>) -> (r: bool)
    ensures
        r == (prev.mtime_ns != e.mtime_ns || prev.size != e.size || parse_view(*parsed) != parse_view(prev.parsed)
            || prev.excluded != e.excluded || prev.kind != e.kind),
{
    let same_parse = match (parsed, &prev.parsed) {
        (Some(a), Some(b)) => crate::parse::parsed_eq(a, b),
        (None, None) => true,
        _ => false,
    };
    prev.mtime_ns != e.mtime_ns || prev.size != e.size || !same_parse || prev.excluded != e.excluded || prev.kind != e.kind
}

/// A refresh reads a file again when it does not keep the old record and
/// the file is parsed at all.
pub open spec fn refresh_reads_of(e: Entry, prev: Option<File>, touched: bool) -> bool {
    refresh_action_of(e, prev, touched) != RefreshAction::Keep && needs_parse_of(e)
}

/// Whether a refresh reads scanned file `e` again.
pub fn refresh_reads(e: &Entry, prev: Option<&File>, touched: bool) -> (r: bool)
    ensures
        r == refresh_reads_of(*e, match prev {
            Some(p) => Some(*p),
            None => None,
        }, touched),
{
    let a = refresh_action(e, prev, touched);
    let kept = match a {
        RefreshAction::Keep => true,
        _ => false,
    };
    !kept && needs_parse(e)
}

/// The record of scanned file `e` with the parse `parsed`.
pub open spec fn file_of(e: Entry, parsed: Option<Parsed>) -> File {
    File { rel: e.rel, kind: e.kind, excluded: e.excluded, mtime_ns: e.mtime_ns, size: e.size, parsed }
}

/// The parse a refreshed file holds: the old one when the old record is
/// kept; else what reading it gave, for a file that is parsed at all.
pub open spec fn refreshed_parse(e: Entry, prev: Option<File>, touched: bool, fresh: Option<Parsed>) -> Option<Parsed> {
    match refresh_action_of(e, prev, touched) {
        RefreshAction::Keep => prev->0.parsed,
        _ => if needs_parse_of(e) {
            fresh
        } else {
            None
        },
    }
}

/// A file read again that differs from its old record (see `modified`).
pub open spec fn modified_of(prev: File, e: Entry, parsed: Option<Parsed>) -> bool {
    prev.mtime_ns != e.mtime_ns || prev.size != e.size || parse_view(parsed) != parse_view(prev.parsed)
        || prev.excluded != e.excluded || prev.kind != e.kind
}

/// The paths a refresh step adds to the change's `added` and `modified`.
pub open spec fn step_added(e: Entry, prev: Option<File>, touched: bool) -> Seq<Seq<char>> {
    if refresh_action_of(e, prev, touched) == RefreshAction::Add {
        seq![e.rel@]
    } else {
        seq![]
    }
}

pub open spec fn step_modified(e: Entry, prev: Option<File>, touched: bool, fresh: Option<Parsed>) -> Seq<Seq<char>> {
    if refresh_action_of(e, prev, touched) == RefreshAction::Reread && modified_of(
        prev->0,
        e,
        refreshed_parse(e, prev, touched, fresh),
    ) {
        seq![e.rel@]
    } else {
        seq![]
    }
}

/// One scanned file of a refresh: its record goes to `files`, with the old
/// parse when the old record is kept and what reading gave (`fresh`)
/// otherwise; a new file goes to the change's `added`, one read again that
/// differs from its old record to `modified`.
pub fn refresh_apply(
    change: &mut Change,
    files: &mut Vec<File>,
    e: Entry,
    prev: Option<File>,
    touched: bool,
    fresh: Option<Parsed>,
)
    ensures
        final(files)@ == old(files)@.push(file_of(e, refreshed_parse(e, prev, touched, fresh))),
        views(final(change).added@) == views(old(change).added@) + step_added(e, prev, touched),
        views(final(change).modified@) == views(old(change).modified@) + step_modified(e, prev, touched, fresh),
        final(change).removed@ == old(change).removed@,
{
    let ghost e0 = e;
    let ghost prev0 = prev;
    let a = refresh_action(&e, prev.as_ref(), touched);
    let np = needs_parse(&e);
    let rel = crate::text::owned(e.rel.as_str());
    let parsed = match a {
        RefreshAction::Keep => match prev {
            Some(p) => p.parsed,
            None => None,
        },
        RefreshAction::Reread => {
            let parsed = if np { fresh } else { None };
            let m = match &prev {
                Some(p) => modified(p, &e, &parsed),
                None => false,
            };
            if m {
                let ghost before = views(change.modified@);
                change.modified.push(rel);
                assert(views(change.modified@) =~= before.push(e0.rel@));
            }
            parsed
        },
        RefreshAction::Add => {
            let ghost before = views(change.added@);
            change.added.push(rel);
            assert(views(change.added@) =~= before.push(e0.rel@));
            if np { fresh } else { None }
        },
    };
    assert(views(change.added@) =~= views(old(change).added@) + step_added(e0, prev0, touched));
    assert(views(change.modified@) =~= views(old(change).modified@) + step_modified(e0, prev0, touched, fresh));
    files.push(File { rel: e.rel, kind: e.kind, excluded: e.excluded, mtime_ns: e.mtime_ns, size: e.size, parsed });
}

/// The paths of `old` that `now` does not hold, in the order they came.
pub open spec fn missing_from(old: Seq<Seq<char>>, now: Seq<Seq<char>>) -> Seq<Seq<char>>
    decreases old.len(),
{
    if old.len() == 0 {
        old
    } else if now.contains(old.last()) {
        missing_from(old.drop_last(), now)
    } else {
        missing_from(old.drop_last(), now).push(old.last())
    }
}

/// Path order: chars compared by scalar value, a prefix first.
pub open spec fn path_lt() -> spec_fn(Seq<char>, Seq<char>) -> bool {
    |a: Seq<char>, b: Seq<char>| lex_less(a, b)
}

/// What a sweep removed: the paths the index had that the new scan lacks,
/// sorted by path.
pub open spec fn removed_of(old: Seq<Seq<char>>, now: Seq<Seq<char>>) -> Seq<Seq<char>> {
    crate::order::sort_lt(missing_from(old, now), path_lt())
}

/// The paths that a sweep removed: those in `old` (the index's paths before
/// it) that `now` (the scan's paths) lacks, sorted by path.
pub fn removed_paths(old: &Vec<String>, now: &Vec<String>) -> (r: Vec<String>)
    ensures
        views(r@) == removed_of(views(old@), views(now@)),
{
    let ghost ov = views(old@);
    let ghost nv = views(now@);
    let mut gone: Vec<usize> = Vec::new();
    let mut i: usize = 0;
    while i < old.len()
        invariant
            i <= old@.len(),
            ov == views(old@),
            nv == views(now@),
            gone@.map_values(|k: usize| ov[k as int]) == missing_from(ov.take(i as int), nv),
            forall|k: int| 0 <= k < gone@.len() ==> #[trigger] gone@[k] < old@.len(),
        decreases old.len() - i,
    {
        let mut j: usize = 0;
        let mut found = false;
        while j < now.len() && !found
            invariant
                j <= now@.len(),
                i < old@.len(),
                ov == views(old@),
                nv == views(now@),
                found ==> nv.contains(ov[i as int]),
                !found ==> forall|k: int| 0 <= k < j ==> nv[k] != ov[i as int],
            decreases now.len() - j + if found { 0int } else { 1int },
        {
            if strs_eq(now[j].as_str(), old[i].as_str()) {
                assert(nv[j as int] == ov[i as int]);
                found = true;
            } else {
                j = j + 1;
            }
        }
        assert(ov.take(i + 1).drop_last() =~= ov.take(i as int));
        assert(ov.take(i + 1).last() == ov[i as int]);
        if !found {
            assert(!nv.contains(ov[i as int]));
            let ghost before = gone@.map_values(|k: usize| ov[k as int]);
            gone.push(i);
            assert(gone@.map_values(|k: usize| ov[k as int]) =~= before.push(ov[i as int]));
        }
        i = i + 1;
    }
    assert(ov.take(old@.len() as int) =~= ov);
    let ghost lt = path_lt();
    let ghost gv = gone@.map_values(|k: usize| ov[k as int]);
    let mut out: Vec<String> = Vec::new();
    let mut i: usize = 0;
    while i < gone.len()
        invariant
            i <= gone@.len(),
            lt == path_lt(),
            ov == views(old@),
            gv == gone@.map_values(|k: usize| ov[k as int]),
            forall|k: int| 0 <= k < gone@.len() ==> #[trigger] gone@[k] < old@.len(),
            views(out@) == crate::order::sort_lt(gv.take(i as int), lt),
        decreases gone.len() - i,
    {
        let x = gone[i];
        let xc = chars_of(old[x].as_str());
        let mut p: usize = 0;
        while p < out.len() && !lex_less_exec(xc.as_slice(), chars_of(out[p].as_str()).as_slice())
            invariant
                p <= out@.len(),
                lt == path_lt(),
                xc@ == ov[x as int],
                forall|k: int| 0 <= k < p ==> !lt(xc@, #[trigger] views(out@)[k]),
            decreases out.len() - p,
        {
            p = p + 1;
        }
        proof {
            crate::order::lemma_insert_lt(views(out@), ov[x as int], lt, p as int);
            assert(gv.take(i + 1).drop_last() =~= gv.take(i as int));
            assert(gv.take(i + 1).last() == ov[x as int]);
        }
        let ghost before = views(out@);
        out.insert(p, old[x].clone());
        assert(views(out@) =~= before.insert(p as int, ov[x as int]));
        i = i + 1;
    }
    assert(gv.take(gone@.len() as int) =~= gv);
    out
}

impl Change {
    /// Nothing was added, removed or modified.
    pub fn is_empty(&self) -> (r: bool)
        ensures
            r == (self.added@.len() == 0 && self.removed@.len() == 0 && self.modified@.len() == 0),
    {
        self.added.len() == 0 && self.removed.len() == 0 && self.modified.len() == 0
    }
}

impl Index {
    /// The index over the files a refresh swept, and the change it made:
    /// `None` when nothing changed.
    pub fn refreshed(self, files: Vec<File>, skipped_filters: Vec<String>, change: Change) -> (r: (Index, Option<Change>))
        ensures
            r.0.wf(),
            r.0.root == self.root,
            r.0.files@ == files@,
            r.0.skipped_filters@ == skipped_filters@,
            r.0.exclude@ == self.exclude@,
            r.1 is None <==> (change.added@.len() == 0 && change.removed@.len() == 0 && change.modified@.len() == 0),
            r.1 matches Some(c) ==> c == change,
    {
        let empty = change.is_empty();
        let index = Index::from_files(self.root, files, skipped_filters, self.exclude);
        if empty {
            (index, None)
        } else {
            (index, Some(change))
        }
    }
}

/// The SHA-256 digest of some bytes.
pub uninterp spec fn sha256_of(data: Seq<u8>) -> Seq<u8>;

/// `Sha256::digest` from sha2: the digest of `data`, 32 bytes long. The
/// contract names the digest and states its length.
#[verifier::external_body]
fn sha256(data: &[u8]) -> (r: Vec<u8>)
    ensures
        r@ == sha256_of(data@),
        r@.len() == 32,
{
    Sha256::digest(data).to_vec()
}

/// A lowercase hex digit.
pub open spec fn hex_digit(v: u8) -> char {
    if v < 10 {
        (('0' as u8) + v) as char
    } else {
        (('a' as u8) + v - 10) as char
    }
}

/// Each byte as two lowercase hex digits.
pub open spec fn hex_of(bytes: Seq<u8>) -> Seq<char>
    decreases bytes.len(),
{
    if bytes.len() == 0 {
        seq![]
    } else {
        hex_of(bytes.drop_last()) + seq![hex_digit(bytes.last() / 16), hex_digit(bytes.last() % 16)]
    }
}

fn hex_digit_exec(v: u8) -> (r: char)
    requires
        v < 16,
    ensures
        r == hex_digit(v),
{
    if v < 10 {
        ((('0' as u8) + v) as char)
    } else {
        ((('a' as u8) + v - 10) as char)
    }
}

/// `<dir>/index/<hex sha256 of the canonical root>.json`
pub open spec fn cache_path_of(cache_dir: Seq<char>, canonical_root: Seq<char>) -> Seq<char> {
    crate::config::path_join(
        crate::config::path_join(cache_dir, "index"@),
        hex_of(sha256_of(bytes_of(canonical_root))) + ".json"@,
    )
}

/// Where the index of a root is cached: `<dir>/index/<hex sha256 of the
/// canonical root>.json`.
pub fn cache_path(cache_dir: &str, canonical_root: &str) -> (r: String)
    ensures
        r@ == cache_path_of(cache_dir@, canonical_root@),
{
    proof {
        crate::text::lemma_decode_bytes(canonical_root);
    }
    let digest = sha256(canonical_root.as_bytes());
    let mut hex = String::new();
    let mut i: usize = 0;
    while i < digest.len()
        invariant
            i <= digest@.len(),
            hex@ == hex_of(digest@.take(i as int)),
        decreases digest.len() - i,
    {
        assert(digest@.take(i + 1).drop_last() =~= digest@.take(i as int));
        let b = digest[i];
        crate::text::push_char(&mut hex, hex_digit_exec(b / 16));
        crate::text::push_char(&mut hex, hex_digit_exec(b % 16));
        assert(hex@ =~= hex_of(digest@.take(i + 1)));
        i = i + 1;
    }
    assert(digest@.take(digest@.len() as int) =~= digest@);
    hex.append(".json");
    let dir = crate::config::path_join_exec(cache_dir, "index");
    crate::config::path_join_exec(dir.as_str(), hex.as_str())
}


/// A note nothing links to: not excluded, and no other file's link leads to
/// it (a note's links to itself do not count).
pub open spec fn is_orphan(files: Seq<File>, back: Seq<Vec<(FileId, usize)>>, id: FileId) -> bool {
    files[id as int].kind == Kind::Note && !files[id as int].excluded && back[id as int]@.len() == 0
}

impl Index {
    /// The orphan notes, in path order.
    pub fn orphans(&self) -> (r: Vec<FileId>)
        requires
            self.wf(),
        ensures
            r@ == crate::graph::ids_where(self.files@.len() as int, |i: FileId| is_orphan(self.files@, self.back@, i)),
    {
        let ghost p = |i: FileId| is_orphan(self.files@, self.back@, i);
        let mut out: Vec<FileId> = Vec::new();
        let mut i: usize = 0;
        while i < self.files.len()
            invariant
                i <= self.files@.len(),
                self.back@.len() == self.files@.len(),
                p == (|i: FileId| is_orphan(self.files@, self.back@, i)),
                out@ == crate::graph::ids_where(i as int, p),
            decreases self.files.len() - i,
        {
            let f = &self.files[i];
            if f.kind == Kind::Note && !f.excluded && self.back[i].len() == 0 {
                out.push(i);
            }
            i = i + 1;
        }
        out
    }
}

} // verus!
