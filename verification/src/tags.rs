//! The tag tree and the unresolved targets: what the notes' tags and
//! dangling links add up to.

use vstd::prelude::*;

use crate::index::{key, key_of, lex_less, links_of, lex_less_exec, target_of, File, FileId, Index, Resolved};
use crate::order::{insert_lt, sort_lt};
use crate::parse::Link;
use crate::text::{chars_eq, chars_of, owned, string_of, to_lowercase, unicode_lowercase, views};

verus! {

/// A tag at one level of the tree, parents before children, siblings by
/// name without regard to case.
#[derive(Debug, Clone)]
pub struct TagNode {
    /// The tag lowercased, with its parents: `project/alpha`.
    pub key: String,
    /// The spelling used most, ties to the first in path order.
    pub shown: String,
    /// How many levels down: 0 for a top-level tag.
    pub depth: usize,
    /// The distinct notes tagged with it or with a tag under it.
    pub count: usize,
    /// The notes tagged exactly with it, in path order.
    pub notes: Vec<FileId>,
}

/// One use of a tag level: the level lowercased, as written, in which
/// note, and whether it is the whole tag.
struct Use {
    key: Vec<char>,
    spelled: Vec<char>,
    file: FileId,
    exact: bool,
}

/// A use of a tag level as plain values.
pub struct UseView {
    pub key: Seq<char>,
    pub spelled: Seq<char>,
    pub file: FileId,
    pub exact: bool,
}

spec fn use_view(u: Use) -> UseView {
    UseView { key: u.key@, spelled: u.spelled@, file: u.file, exact: u.exact }
}

spec fn use_views(s: Seq<Use>) -> Seq<UseView> {
    s.map_values(|u: Use| use_view(u))
}

/// The number of `/` in a tag.
pub open spec fn slashes(s: Seq<char>) -> nat
    decreases s.len(),
{
    if s.len() == 0 {
        0
    } else {
        slashes(s.drop_last()) + if s.last() == '/' { 1nat } else { 0nat }
    }
}

/// The first `/` of `s` at `i` or after, else its length.
pub open spec fn next_slash(s: Seq<char>, i: int) -> int
    decreases s.len() - i,
{
    if i < 0 || i >= s.len() {
        s.len() as int
    } else if s[i] == '/' {
        i
    } else {
        next_slash(s, i + 1)
    }
}

pub proof fn lemma_next_slash(s: Seq<char>, i: int)
    requires
        0 <= i,
    ensures
        i <= next_slash(s, i) || (i > s.len() && next_slash(s, i) == s.len()),
        next_slash(s, i) <= s.len(),
    decreases s.len() - i,
{
    if i < s.len() && s[i] != '/' {
        lemma_next_slash(s, i + 1);
    }
}

/// The levels of a tag from the level ending at `i` in the tag as written
/// and at `j` in it lowercased: each level ends at a `/` or at the end,
/// and the lowercased level at the same count of `/`. The empty level
/// before a leading `/` is left out.
pub open spec fn levels_from(name: Seq<char>, low: Seq<char>, f: FileId, i: int, j: int) -> Seq<UseView>
    decreases name.len() - i,
{
    let here = if i > 0 {
        seq![UseView { key: low.take(j), spelled: name.take(i), file: f, exact: i >= name.len() }]
    } else {
        seq![]
    };
    if i < 0 || i >= name.len() {
        here
    } else {
        proof {
            lemma_next_slash(name, i + 1);
        }
        here + levels_from(
            name,
            low,
            f,
            next_slash(name, i + 1),
            if j >= low.len() { low.len() as int } else { next_slash(low, j + 1) },
        )
    }
}

/// The levels of tag `name` in note `f`.
pub open spec fn tag_levels(name: Seq<char>, f: FileId) -> Seq<UseView> {
    let low = unicode_lowercase(name);
    levels_from(name, low, f, next_slash(name, 0), next_slash(low, 0))
}

/// The tags a file holds.
pub open spec fn tags_in(f: File) -> Seq<crate::parse::Tag> {
    match f.parsed {
        Some(p) => p.tags@,
        None => seq![],
    }
}

/// The levels of the first `t` tags of note `f`.
pub open spec fn file_uses(files: Seq<File>, f: int, t: int) -> Seq<UseView>
    decreases t,
{
    if t <= 0 {
        seq![]
    } else {
        file_uses(files, f, t - 1) + tag_levels(tags_in(files[f])[t - 1].name@, f as FileId)
    }
}

/// Every tag level used in the first `n` notes, in path order.
pub open spec fn uses_of(files: Seq<File>, n: int) -> Seq<UseView>
    decreases n,
{
    if n <= 0 {
        seq![]
    } else {
        uses_of(files, n - 1) + file_uses(files, n - 1, tags_in(files[n - 1]).len() as int)
    }
}

/// The first `/` of `s` at `i` or after, else its length.
fn next_slash_exec(s: &Vec<char>, i: usize) -> (r: usize)
    ensures
        r == next_slash(s@, i as int),
{
    if i >= s.len() {
        return s.len();
    }
    let mut k = i;
    while k < s.len() && s[k] != '/'
        invariant
            i <= k <= s@.len(),
            next_slash(s@, i as int) == next_slash(s@, k as int),
        decreases s.len() - k,
    {
        k = k + 1;
    }
    k
}

/// Every tag level used in the notes, in path order.
fn uses(files: &Vec<File>) -> (r: Vec<Use>)
    ensures
        use_views(r@) == uses_of(files@, files@.len() as int),
{
    let mut out: Vec<Use> = Vec::new();
    let mut f: usize = 0;
    assert(use_views(out@) =~= uses_of(files@, 0));
    while f < files.len()
        invariant
            f <= files@.len(),
            use_views(out@) == uses_of(files@, f as int),
        decreases files.len() - f,
    {
        let ghost base = use_views(out@);
        assert(file_uses(files@, f as int, 0) =~= Seq::<UseView>::empty());
        assert(base + file_uses(files@, f as int, 0) =~= base);
        if let Some(p) = &files[f].parsed {
            let mut t: usize = 0;
            while t < p.tags.len()
                invariant
                    t <= p.tags@.len(),
                    f < files@.len(),
                    files@[f as int].parsed == Some(*p),
                    use_views(out@) == base + file_uses(files@, f as int, t as int),
                decreases p.tags.len() - t,
            {
                let name = chars_of(p.tags[t].name.as_str());
                let low = chars_of(to_lowercase(p.tags[t].name.as_str()).as_str());
                let ghost before = use_views(out@);
                let ghost nm = name@;
                let ghost lw = low@;
                let mut i = next_slash_exec(&name, 0);
                let mut j = next_slash_exec(&low, 0);
                proof {
                    lemma_next_slash(nm, 0);
                    lemma_next_slash(lw, 0);
                }
                loop
                    invariant_except_break
                        before + levels_from(nm, lw, f, next_slash(nm, 0), next_slash(lw, 0)) == use_views(out@)
                            + levels_from(nm, lw, f, i as int, j as int),
                    invariant
                        nm == name@,
                        lw == low@,
                        i <= nm.len(),
                        j <= lw.len(),
                        f < files@.len(),
                    ensures
                        before + levels_from(nm, lw, f, next_slash(nm, 0), next_slash(lw, 0)) == use_views(out@),
                    decreases nm.len() - i,
                {
                    let ghost mid = use_views(out@);
                    if i > 0 {
                        let u = Use {
                            key: copy_chars(crate::text::slice_range(low.as_slice(), 0, j)),
                            spelled: copy_chars(crate::text::slice_range(name.as_slice(), 0, i)),
                            file: f,
                            exact: i >= name.len(),
                        };
                        out.push(u);
                        assert(use_views(out@) =~= mid.push(use_view(u)));
                    }
                    let ghost here = if i > 0 {
                        seq![UseView { key: lw.take(j as int), spelled: nm.take(i as int), file: f, exact: i >= nm.len() }]
                    } else {
                        seq![]
                    };
                    assert(use_views(out@) =~= mid + here);
                    if i >= name.len() {
                        assert(levels_from(nm, lw, f, i as int, j as int) == here);
                        assert(mid + levels_from(nm, lw, f, i as int, j as int) =~= use_views(out@));
                        break;
                    }
                    let ni = next_slash_exec(&name, i + 1);
                    let nj = if j >= low.len() { low.len() } else { next_slash_exec(&low, j + 1) };
                    proof {
                        lemma_next_slash(nm, i + 1);
                        if j < lw.len() {
                            lemma_next_slash(lw, j + 1);
                        }
                        assert(levels_from(nm, lw, f, i as int, j as int) == here + levels_from(nm, lw, f, ni as int, nj as int));
                        assert(mid + (here + levels_from(nm, lw, f, ni as int, nj as int)) =~= use_views(out@) + levels_from(
                            nm,
                            lw,
                            f,
                            ni as int,
                            nj as int,
                        ));
                    }
                    i = ni;
                    j = nj;
                }
                proof {
                    assert(use_views(out@) =~= before + tag_levels(p.tags@[t as int].name@, f as FileId));
                    assert(tags_in(files@[f as int]) == p.tags@);
                    assert(file_uses(files@, f as int, t + 1) == file_uses(files@, f as int, t as int) + tag_levels(
                        tags_in(files@[f as int])[t as int].name@,
                        f as FileId,
                    ));
                }
                t = t + 1;
            }
            assert(tags_in(files@[f as int]) == p.tags@);
        } else {
            assert(tags_in(files@[f as int]).len() == 0);
        }
        assert(uses_of(files@, f + 1) == uses_of(files@, f as int) + file_uses(
            files@,
            f as int,
            tags_in(files@[f as int]).len() as int,
        ));
        f = f + 1;
    }
    out
}

fn copy_chars(s: &[char]) -> (r: Vec<char>)
    ensures
        r@ == s@,
{
    let mut v: Vec<char> = Vec::new();
    let mut i: usize = 0;
    while i < s.len()
        invariant
            i <= s@.len(),
            v@ == s@.take(i as int),
        decreases s.len() - i,
    {
        v.push(s[i]);
        assert(v@ =~= s@.take(i + 1));
        i = i + 1;
    }
    assert(s@.take(s@.len() as int) =~= s@);
    v
}

/// No key comes twice.
pub open spec fn distinct_keys(s: Seq<Seq<char>>) -> bool {
    forall|i: int, j: int| 0 <= i < j < s.len() ==> s[i] != s[j]
}

proof fn lemma_insert_distinct(s: Seq<Seq<char>>, x: Seq<char>, lt: spec_fn(Seq<char>, Seq<char>) -> bool)
    requires
        distinct_keys(s),
        !s.contains(x),
    ensures
        distinct_keys(insert_lt(s, x, lt)),
    decreases s.len(),
{
    if s.len() == 0 {
    } else if lt(x, s[0]) {
        let r = seq![x] + s;
        assert forall|i: int, j: int| 0 <= i < j < r.len() implies r[i] != r[j] by {
            if i == 0 {
                assert(r[j] == s[j - 1]);
            } else {
                assert(r[i] == s[i - 1] && r[j] == s[j - 1]);
            }
        }
    } else {
        let rest = s.drop_first();
        assert(!rest.contains(x)) by {
            if rest.contains(x) {
                let k = choose|k: int| 0 <= k < rest.len() && rest[k] == x;
                assert(s[k + 1] == x);
            }
        }
        assert(distinct_keys(rest)) by {
            assert forall|i: int, j: int| 0 <= i < j < rest.len() implies rest[i] != rest[j] by {
                assert(rest[i] == s[i + 1] && rest[j] == s[j + 1]);
            }
        }
        lemma_insert_distinct(rest, x, lt);
        let t = insert_lt(rest, x, lt);
        crate::order::lemma_insert_has(rest, x, lt, s[0]);
        assert(!rest.contains(s[0])) by {
            if rest.contains(s[0]) {
                let k = choose|k: int| 0 <= k < rest.len() && rest[k] == s[0];
                assert(s[k + 1] == s[0]);
            }
        }
        assert(s[0] != x) by {
            assert(s.contains(s[0]));
        }
        let r = seq![s[0]] + t;
        assert forall|i: int, j: int| 0 <= i < j < r.len() implies r[i] != r[j] by {
            if i == 0 {
                assert(r[j] == t[j - 1]);
                assert(t.contains(t[j - 1]));
            } else {
                assert(r[i] == t[i - 1] && r[j] == t[j - 1]);
            }
        }
    }
}

proof fn lemma_keys_distinct(uses: Seq<UseView>, n: int)
    ensures
        distinct_keys(keys_of(uses, n)),
    decreases n,
{
    if n > 0 {
        lemma_keys_distinct(uses, n - 1);
        let ks = keys_of(uses, n - 1);
        if !ks.contains(uses[n - 1].key) {
            lemma_insert_distinct(ks, uses[n - 1].key, tag_order());
        }
    }
}

/// The tag list names each level of each tag once.
pub proof fn lemma_tags_once(files: Seq<File>)
    ensures
        forall|i: int, j: int| 0 <= i < j < tags_of(files).len() ==> tags_of(files)[i].key != tags_of(files)[j].key,
{
    let uses = uses_of(files, files.len() as int);
    lemma_keys_distinct(uses, uses.len() as int);
    let ks = keys_of(uses, uses.len() as int);
    assert forall|i: int, j: int| 0 <= i < j < tags_of(files).len() implies tags_of(files)[i].key != tags_of(files)[j].key by {
        assert(tags_of(files)[i] == node_of(uses, ks[i]));
        assert(tags_of(files)[j] == node_of(uses, ks[j]));
    }
}

proof fn lemma_tag_lt_irreflexive(a: Seq<char>)
    ensures
        !tag_lt(a, a),
    decreases a.len(),
{
    if a.len() > 0 {
        lemma_tag_lt_irreflexive(a.drop_first());
    }
}

proof fn lemma_tag_lt_transitive(a: Seq<char>, b: Seq<char>, c: Seq<char>)
    requires
        tag_lt(a, b),
        tag_lt(b, c),
    ensures
        tag_lt(a, c),
    decreases a.len(),
{
    if a.len() > 0 && b.len() > 0 && c.len() > 0 && a[0] == b[0] && b[0] == c[0] {
        lemma_tag_lt_transitive(a.drop_first(), b.drop_first(), c.drop_first());
    }
}

proof fn lemma_tag_lt_total(a: Seq<char>, b: Seq<char>)
    requires
        a != b,
    ensures
        tag_lt(a, b) || tag_lt(b, a),
    decreases a.len(),
{
    if a.len() > 0 && b.len() > 0 && a[0] == b[0] {
        if a.drop_first() == b.drop_first() {
            assert(a =~= seq![a[0]] + a.drop_first());
            assert(b =~= seq![b[0]] + b.drop_first());
        }
        lemma_tag_lt_total(a.drop_first(), b.drop_first());
    } else if a.len() == 0 && b.len() == 0 {
        assert(a =~= b);
    }
}

/// Each key comes before every later one.
pub open spec fn in_tag_order(s: Seq<Seq<char>>) -> bool {
    forall|i: int, j: int| 0 <= i < j < s.len() ==> tag_lt(#[trigger] s[i], #[trigger] s[j])
}

proof fn lemma_insert_in_order(s: Seq<Seq<char>>, x: Seq<char>)
    requires
        in_tag_order(s),
        !s.contains(x),
    ensures
        in_tag_order(insert_lt(s, x, tag_order())),
    decreases s.len(),
{
    let lt = tag_order();
    if s.len() == 0 {
    } else if lt(x, s[0]) {
        let r = seq![x] + s;
        assert forall|i: int, j: int| 0 <= i < j < r.len() implies tag_lt(#[trigger] r[i], #[trigger] r[j]) by {
            if i == 0 {
                assert(r[j] == s[j - 1]);
                if j > 1 {
                    lemma_tag_lt_transitive(x, s[0], s[j - 1]);
                }
            } else {
                assert(r[i] == s[i - 1] && r[j] == s[j - 1]);
            }
        }
    } else {
        let rest = s.drop_first();
        assert(!rest.contains(x)) by {
            if rest.contains(x) {
                let k = choose|k: int| 0 <= k < rest.len() && rest[k] == x;
                assert(s[k + 1] == x);
            }
        }
        assert(in_tag_order(rest)) by {
            assert forall|i: int, j: int| 0 <= i < j < rest.len() implies tag_lt(#[trigger] rest[i], #[trigger] rest[j]) by {
                assert(rest[i] == s[i + 1] && rest[j] == s[j + 1]);
            }
        }
        lemma_insert_in_order(rest, x);
        let t = insert_lt(rest, x, lt);
        assert(s[0] != x) by {
            assert(s.contains(s[0]));
        }
        lemma_tag_lt_total(s[0], x);
        let r = seq![s[0]] + t;
        assert forall|i: int, j: int| 0 <= i < j < r.len() implies tag_lt(#[trigger] r[i], #[trigger] r[j]) by {
            if i == 0 {
                assert(r[j] == t[j - 1]);
                assert(t.contains(t[j - 1]));
                crate::order::lemma_insert_has(rest, x, lt, t[j - 1]);
                if t[j - 1] != x {
                    let k = choose|k: int| 0 <= k < rest.len() && rest[k] == t[j - 1];
                    assert(s[k + 1] == t[j - 1]);
                }
            } else {
                assert(r[i] == t[i - 1] && r[j] == t[j - 1]);
            }
        }
    }
}

proof fn lemma_keys_in_order(uses: Seq<UseView>, n: int)
    ensures
        in_tag_order(keys_of(uses, n)),
    decreases n,
{
    if n > 0 {
        lemma_keys_in_order(uses, n - 1);
        let ks = keys_of(uses, n - 1);
        if !ks.contains(uses[n - 1].key) {
            lemma_insert_in_order(ks, uses[n - 1].key);
        }
    }
}

/// The tag list is in tag order: level by level, a parent before its
/// children, siblings by name. So a tag comes before every tag under it.
pub proof fn lemma_tags_in_order(files: Seq<File>)
    ensures
        forall|i: int, j: int| 0 <= i < j < tags_of(files).len() ==> tag_lt(tags_of(files)[i].key, tags_of(files)[j].key),
        forall|i: int, j: int|
            0 <= i < tags_of(files).len() && 0 <= j < tags_of(files).len() && crate::text::starts_with(
                tags_of(files)[j].key,
                tags_of(files)[i].key.push('/'),
            ) ==> i < j,
{
    let uses = uses_of(files, files.len() as int);
    lemma_keys_in_order(uses, uses.len() as int);
    let ks = keys_of(uses, uses.len() as int);
    let ts = tags_of(files);
    assert forall|i: int, j: int| 0 <= i < j < ts.len() implies tag_lt(ts[i].key, ts[j].key) by {
        assert(ts[i] == node_of(uses, ks[i]) && ts[j] == node_of(uses, ks[j]));
    }
    assert forall|i: int, j: int|
        0 <= i < ts.len() && 0 <= j < ts.len() && crate::text::starts_with(ts[j].key, ts[i].key.push('/')) implies i < j by {
        lemma_prefix_first(ts[i].key, ts[j].key);
        if j < i {
            lemma_tag_lt_transitive(ts[i].key, ts[j].key, ts[i].key);
            lemma_tag_lt_irreflexive(ts[i].key);
        } else if j == i {
            assert(ts[j].key.len() >= ts[i].key.len() + 1);
        }
    }
}

/// A tag sorts before a tag under it.
proof fn lemma_prefix_first(p: Seq<char>, c: Seq<char>)
    requires
        crate::text::starts_with(c, p.push('/')),
    ensures
        tag_lt(p, c),
    decreases p.len(),
{
    if p.len() > 0 {
        let q = p.push('/');
        assert(c.take(q.len() as int) == q);
        assert(c[0] == c.take(q.len() as int)[0]);
        assert(c[0] == p[0]);
        let q2 = p.drop_first().push('/');
        assert(crate::text::starts_with(c.drop_first(), q2)) by {
            assert forall|k: int| 0 <= k < q2.len() implies #[trigger] c.drop_first().take(q2.len() as int)[k] == q2[k] by {
                assert(c.drop_first()[k] == c[k + 1]);
                assert(c.take(q.len() as int)[k + 1] == q[k + 1]);
            }
            assert(c.drop_first().take(q2.len() as int) =~= q2);
        }
        lemma_prefix_first(p.drop_first(), c.drop_first());
    }
}

fn vec_eq(a: &Vec<char>, b: &Vec<char>) -> (r: bool)
    ensures
        r == (a@ == b@),
{
    chars_eq(a.as_slice(), b.as_slice())
}

/// Whether tag key `a` sorts before `b`, level by level, each level as
/// text: a parent before its children, siblings by name.
pub open spec fn tag_lt(a: Seq<char>, b: Seq<char>) -> bool
    decreases a.len(),
{
    if a.len() == 0 {
        b.len() > 0
    } else if b.len() == 0 {
        false
    } else if a[0] != b[0] {
        if a[0] == '/' {
            true
        } else if b[0] == '/' {
            false
        } else {
            (a[0] as int) < (b[0] as int)
        }
    } else {
        tag_lt(a.drop_first(), b.drop_first())
    }
}

pub open spec fn tag_order() -> spec_fn(Seq<char>, Seq<char>) -> bool {
    |a: Seq<char>, b: Seq<char>| tag_lt(a, b)
}

/// The distinct keys of the first `n` uses, in tag order.
pub open spec fn keys_of(uses: Seq<UseView>, n: int) -> Seq<Seq<char>>
    decreases n,
{
    if n <= 0 {
        seq![]
    } else {
        let ks = keys_of(uses, n - 1);
        if ks.contains(uses[n - 1].key) {
            ks
        } else {
            insert_lt(ks, uses[n - 1].key, tag_order())
        }
    }
}

/// The first entry of `sp` from `i` on spelled `w`.
pub open spec fn spelling_at(sp: Seq<(Seq<char>, nat)>, w: Seq<char>, i: int) -> Option<int>
    decreases sp.len() - i,
{
    if i < 0 || i >= sp.len() {
        None
    } else if sp[i].0 == w {
        Some(i)
    } else {
        spelling_at(sp, w, i + 1)
    }
}

/// The spellings of key `k` among the first `n` uses, in order of first
/// use, each with how often it is used.
pub open spec fn spellings(uses: Seq<UseView>, k: Seq<char>, n: int) -> Seq<(Seq<char>, nat)>
    decreases n,
{
    if n <= 0 {
        seq![]
    } else {
        let sp = spellings(uses, k, n - 1);
        let u = uses[n - 1];
        if u.key != k {
            sp
        } else {
            match spelling_at(sp, u.spelled, 0) {
                Some(i) => sp.update(i, (sp[i].0, sp[i].1 + 1)),
                None => sp.push((u.spelled, 1nat)),
            }
        }
    }
}

/// The first of the first `m` spellings used most.
pub open spec fn most_used(sp: Seq<(Seq<char>, nat)>, m: int) -> int
    decreases m,
{
    if m <= 1 {
        0
    } else {
        let b = most_used(sp, m - 1);
        if sp[m - 1].1 > sp[b].1 {
            m - 1
        } else {
            b
        }
    }
}

/// The distinct notes among the first `n` uses of key `k` (whole-tag uses
/// only, when `exact`), in order of first use.
pub open spec fn notes_using(uses: Seq<UseView>, k: Seq<char>, exact: bool, n: int) -> Seq<FileId>
    decreases n,
{
    if n <= 0 {
        seq![]
    } else {
        let s = notes_using(uses, k, exact, n - 1);
        let u = uses[n - 1];
        if u.key == k && (u.exact || !exact) && !s.contains(u.file) {
            s.push(u.file)
        } else {
            s
        }
    }
}

pub open spec fn id_order() -> spec_fn(FileId, FileId) -> bool {
    |a: FileId, b: FileId| a < b
}

/// A tag node as plain values.
pub struct TagView {
    pub key: Seq<char>,
    pub shown: Seq<char>,
    pub depth: nat,
    pub count: nat,
    pub notes: Seq<FileId>,
}

pub open spec fn tag_view(t: TagNode) -> TagView {
    TagView { key: t.key@, shown: t.shown@, depth: t.depth as nat, count: t.count as nat, notes: t.notes@ }
}

pub open spec fn tag_views(s: Seq<TagNode>) -> Seq<TagView> {
    s.map_values(|t: TagNode| tag_view(t))
}

/// The node of key `k`: shown in the spelling used most (ties to the first
/// used), as deep as its `/`s, counting the notes that use it or a tag
/// under it, listing the notes tagged exactly with it by id.
pub open spec fn node_of(uses: Seq<UseView>, k: Seq<char>) -> TagView {
    let sp = spellings(uses, k, uses.len() as int);
    TagView {
        key: k,
        shown: if sp.len() > 0 { sp[most_used(sp, sp.len() as int)].0 } else { k },
        depth: slashes(k),
        count: notes_using(uses, k, false, uses.len() as int).len(),
        notes: sort_lt(notes_using(uses, k, true, uses.len() as int), id_order()),
    }
}

/// The tag tree of the notes, flattened: each level of each tag once, in
/// tag order.
pub open spec fn tags_of(files: Seq<File>) -> Seq<TagView> {
    let uses = uses_of(files, files.len() as int);
    keys_of(uses, uses.len() as int).map_values(|k: Seq<char>| node_of(uses, k))
}

/// Whether `a` comes before `b` level by level.
fn tag_before(a: &Vec<char>, b: &Vec<char>) -> (r: bool)
    ensures
        r == tag_lt(a@, b@),
{
    let mut i: usize = 0;
    assert(a@.skip(0) =~= a@ && b@.skip(0) =~= b@);
    while i < a.len() && i < b.len() && a[i] == b[i]
        invariant
            i <= a@.len(),
            i <= b@.len(),
            tag_lt(a@, b@) == tag_lt(a@.skip(i as int), b@.skip(i as int)),
        decreases a.len() - i,
    {
        assert(a@.skip(i as int).drop_first() =~= a@.skip(i + 1));
        assert(b@.skip(i as int).drop_first() =~= b@.skip(i + 1));
        i = i + 1;
    }
    if i == a.len() {
        return i < b.len();
    }
    if i == b.len() {
        return false;
    }
    assert(a@.skip(i as int)[0] == a@[i as int] && b@.skip(i as int)[0] == b@[i as int]);
    if a[i] == '/' {
        return true;
    }
    if b[i] == '/' {
        return false;
    }
    a[i] < b[i]
}

fn push_distinct(v: &mut Vec<FileId>, id: FileId)
    ensures
        final(v)@ == (if old(v)@.contains(id) { old(v)@ } else { old(v)@.push(id) }),
{
    let mut i: usize = 0;
    while i < v.len()
        invariant
            i <= v@.len(),
            forall|k: int| 0 <= k < i ==> v@[k] != id,
        decreases v.len() - i,
    {
        if v[i] == id {
            return;
        }
        i = i + 1;
    }
    v.push(id);
}

/// Ids in increasing order.
fn sort_ids(v: Vec<FileId>) -> (r: Vec<FileId>)
    ensures
        r@ == sort_lt(v@, id_order()),
{
    let ghost lt = id_order();
    let mut out: Vec<FileId> = Vec::new();
    let mut i: usize = 0;
    while i < v.len()
        invariant
            i <= v@.len(),
            lt == id_order(),
            out@ == sort_lt(v@.take(i as int), lt),
        decreases v.len() - i,
    {
        let x = v[i];
        let mut p: usize = 0;
        while p < out.len() && out[p] <= x
            invariant
                p <= out@.len(),
                lt == id_order(),
                forall|q: int| 0 <= q < p ==> !lt(x, #[trigger] out@[q]),
            decreases out.len() - p,
        {
            p = p + 1;
        }
        proof {
            crate::order::lemma_insert_lt(out@, x, lt, p as int);
            assert(v@.take(i + 1).drop_last() =~= v@.take(i as int));
        }
        out.insert(p, x);
        i = i + 1;
    }
    assert(v@.take(v@.len() as int) =~= v@);
    out
}

/// The spellings as plain values.
spec fn sp_views(sp: Seq<(Vec<char>, usize)>) -> Seq<(Seq<char>, nat)> {
    sp.map_values(|e: (Vec<char>, usize)| (e.0@, e.1 as nat))
}

/// The spellings of key `k` in the uses, with counts.
fn spellings_exec(all: &Vec<Use>, k: &Vec<char>) -> (r: Vec<(Vec<char>, usize)>)
    ensures
        sp_views(r@) == spellings(use_views(all@), k@, all@.len() as int),
{
    let ghost uv = use_views(all@);
    let mut sp: Vec<(Vec<char>, usize)> = Vec::new();
    let mut u: usize = 0;
    assert(sp_views(sp@) =~= spellings(uv, k@, 0));
    while u < all.len()
        invariant
            u <= all@.len(),
            uv == use_views(all@),
            sp_views(sp@) == spellings(uv, k@, u as int),
            forall|q: int| 0 <= q < sp@.len() ==> #[trigger] sp@[q].1 <= u,
        decreases all.len() - u,
    {
        let a = &all[u];
        assert(uv[u as int] == use_view(all@[u as int]));
        if vec_eq(&a.key, k) {
            let ghost spv = sp_views(sp@);
            let mut s: usize = 0;
            while s < sp.len() && !vec_eq(&sp[s].0, &a.spelled)
                invariant
                    s <= sp@.len(),
                    spv == sp_views(sp@),
                    spelling_at(spv, a.spelled@, 0) == spelling_at(spv, a.spelled@, s as int),
                decreases sp.len() - s,
            {
                assert(spv[s as int].0 == sp@[s as int].0@);
                s = s + 1;
            }
            if s < sp.len() {
                assert(spv[s as int].0 == sp@[s as int].0@);
                let (w, c) = (sp[s].0.clone(), sp[s].1);
                sp.set(s, (w, c + 1));
                assert(sp_views(sp@) =~= spv.update(s as int, (spv[s as int].0, spv[s as int].1 + 1)));
            } else {
                sp.push((a.spelled.clone(), 1));
                assert(sp_views(sp@) =~= spv.push((a.spelled@, 1nat)));
            }
        }
        u = u + 1;
    }
    sp
}

/// The distinct notes among the uses of key `k` (whole-tag uses only,
/// when `exact`), in order of first use.
fn notes_using_exec(all: &Vec<Use>, k: &Vec<char>, exact: bool) -> (r: Vec<FileId>)
    ensures
        r@ == notes_using(use_views(all@), k@, exact, all@.len() as int),
{
    let ghost uv = use_views(all@);
    let mut out: Vec<FileId> = Vec::new();
    let mut u: usize = 0;
    while u < all.len()
        invariant
            u <= all@.len(),
            uv == use_views(all@),
            out@ == notes_using(uv, k@, exact, u as int),
        decreases all.len() - u,
    {
        let a = &all[u];
        assert(uv[u as int] == use_view(all@[u as int]));
        if vec_eq(&a.key, k) && (a.exact || !exact) {
            push_distinct(&mut out, a.file);
        }
        u = u + 1;
    }
    out
}

/// The distinct keys of the uses, in tag order.
fn keys_exec(all: &Vec<Use>) -> (r: Vec<Vec<char>>)
    ensures
        r@.map_values(|v: Vec<char>| v@) == keys_of(use_views(all@), all@.len() as int),
{
    let ghost uv = use_views(all@);
    let ghost lt = tag_order();
    let mut keys: Vec<Vec<char>> = Vec::new();
    let mut i: usize = 0;
    assert(keys@.map_values(|v: Vec<char>| v@) =~= keys_of(uv, 0));
    while i < all.len()
        invariant
            i <= all@.len(),
            uv == use_views(all@),
            lt == tag_order(),
            keys@.map_values(|v: Vec<char>| v@) == keys_of(uv, i as int),
        decreases all.len() - i,
    {
        let ghost kv = keys@.map_values(|v: Vec<char>| v@);
        assert(uv[i as int] == use_view(all@[i as int]));
        let mut seen = false;
        let mut k: usize = 0;
        while k < keys.len()
            invariant
                k <= keys@.len(),
                i < all@.len(),
                kv == keys@.map_values(|v: Vec<char>| v@),
                seen == (exists|q: int| 0 <= q < k && kv[q] == all@[i as int].key@),
            decreases keys.len() - k,
        {
            if vec_eq(&keys[k], &all[i].key) {
                seen = true;
            }
            assert(kv[k as int] == keys@[k as int]@);
            k = k + 1;
        }
        assert(seen == kv.contains(all@[i as int].key@));
        if !seen {
            let mut p: usize = 0;
            while p < keys.len() && !tag_before(&all[i].key, &keys[p])
                invariant
                    p <= keys@.len(),
                    i < all@.len(),
                    lt == tag_order(),
                    kv == keys@.map_values(|v: Vec<char>| v@),
                    forall|q: int| 0 <= q < p ==> !lt(all@[i as int].key@, #[trigger] kv[q]),
                decreases keys.len() - p,
            {
                assert(kv[p as int] == keys@[p as int]@);
                p = p + 1;
            }
            proof {
                if p < keys@.len() {
                    assert(kv[p as int] == keys@[p as int]@);
                }
                crate::order::lemma_insert_lt(kv, all@[i as int].key@, lt, p as int);
            }
            let key_i = all[i].key.clone();
            keys.insert(p, key_i);
            assert(keys@.map_values(|v: Vec<char>| v@) =~= kv.insert(p as int, all@[i as int].key@));
        }
        i = i + 1;
    }
    keys
}

/// The number of `/` in a key.
fn slash_count(k: &Vec<char>) -> (r: usize)
    ensures
        r == slashes(k@),
{
    let mut depth: usize = 0;
    let mut c: usize = 0;
    assert(k@.take(0) =~= Seq::<char>::empty());
    while c < k.len()
        invariant
            c <= k@.len(),
            depth == slashes(k@.take(c as int)),
            depth <= c,
        decreases k.len() - c,
    {
        assert(k@.take(c + 1).drop_last() =~= k@.take(c as int));
        if k[c] == '/' {
            depth = depth + 1;
        }
        c = c + 1;
    }
    assert(k@.take(k@.len() as int) =~= k@);
    depth
}

impl Index {
    /// The tag tree, flattened: each level of each tag once, parents
    /// before children and siblings by name without regard to case. A
    /// level is shown in the spelling used most, ties to the first in path
    /// order; its count is the distinct notes tagged with it or under it.
    pub fn tags(&self) -> (r: Vec<TagNode>)
        ensures
            tag_views(r@) == tags_of(self.files@),
    {
        let all = uses(&self.files);
        let ghost uv = use_views(all@);
        let keys = keys_exec(&all);
        let ghost kv = keys@.map_values(|v: Vec<char>| v@);
        let mut out: Vec<TagNode> = Vec::new();
        let mut n: usize = 0;
        while n < keys.len()
            invariant
                n <= keys@.len(),
                uv == use_views(all@),
                uv == uses_of(self.files@, self.files@.len() as int),
                kv == keys@.map_values(|v: Vec<char>| v@),
                kv == keys_of(uv, uv.len() as int),
                tag_views(out@) == kv.take(n as int).map_values(|k: Seq<char>| node_of(uv, k)),
            decreases keys.len() - n,
        {
            let key_n = &keys[n];
            assert(kv[n as int] == key_n@);
            let sp = spellings_exec(&all, key_n);
            let ghost spv = sp_views(sp@);
            let mut best: usize = 0;
            let mut s: usize = 1;
            while s < sp.len()
                invariant
                    1 <= s,
                    spv == sp_views(sp@),
                    s <= sp@.len() ==> best == most_used(spv, s as int) && best < sp@.len(),
                    sp@.len() > 0 ==> s <= sp@.len(),
                    sp@.len() == 0 ==> best == 0,
                decreases sp.len() - s,
            {
                assert(spv[s as int].1 == sp@[s as int].1 && spv[best as int].1 == sp@[best as int].1);
                if sp[s].1 > sp[best].1 {
                    best = s;
                }
                s = s + 1;
            }
            let shown = if sp.len() > 0 {
                assert(spv[best as int].0 == sp@[best as int].0@);
                string_of(sp[best].0.as_slice())
            } else {
                string_of(key_n.as_slice())
            };
            let depth = slash_count(key_n);
            let in_tree = notes_using_exec(&all, key_n, false);
            let exact = notes_using_exec(&all, key_n, true);
            let notes = sort_ids(exact);
            let node = TagNode { key: string_of(key_n.as_slice()), shown, depth, count: in_tree.len(), notes };
            assert(tag_view(node) == node_of(uv, kv[n as int]));
            let ghost before = tag_views(out@);
            out.push(node);
            assert(tag_views(out@) =~= before.push(tag_view(node)));
            assert(kv.take(n + 1).map_values(|k: Seq<char>| node_of(uv, k)) =~= kv.take(n as int).map_values(
                |k: Seq<char>| node_of(uv, k),
            ).push(node_of(uv, kv[n as int])));
            n = n + 1;
        }
        assert(kv.take(kv.len() as int) =~= kv);
        out
    }
}

impl TagNode {
    /// The last level of the tag as shown: `alpha` for `project/alpha`.
    pub fn name(&self) -> (r: String)
        ensures
            r@ == crate::text::after_last(self.shown@, '/'),
    {
        let c = chars_of(self.shown.as_str());
        let i = crate::text::last_index_of(c.as_slice(), '/');
        string_of(crate::text::slice_range(c.as_slice(), i, c.len()))
    }
}


/// A link that does not resolve to one file: where it is written, and
/// where it goes when it is ambiguous (Obsidian's pick for that note).
#[derive(Debug, Clone)]
pub struct Source {
    pub file: FileId,
    pub line: u32,
    pub pick: Option<FileId>,
}

/// The links that share a target and a state: unresolved, or ambiguous
/// between `candidates` (by path).
#[derive(Debug, Clone)]
pub struct Target {
    pub ambiguous: bool,
    /// `key(target)` without `.md`.
    pub key: String,
    /// The target as first written.
    pub shown: String,
    pub sources: Vec<Source>,
    pub candidates: Vec<FileId>,
}

/// A group as plain values.
pub struct TargetView {
    pub ambiguous: bool,
    pub key: Seq<char>,
    pub shown: Seq<char>,
    pub sources: Seq<Source>,
    pub candidates: Seq<FileId>,
}

pub open spec fn target_view(t: Target) -> TargetView {
    TargetView { ambiguous: t.ambiguous, key: t.key@, shown: t.shown@, sources: t.sources@, candidates: t.candidates@ }
}

pub open spec fn target_views(s: Seq<Target>) -> Seq<TargetView> {
    s.map_values(|t: Target| target_view(t))
}

/// `s` without a `.md` it ends with.
pub open spec fn strip_md_of(s: Seq<char>) -> Seq<char> {
    if s.len() >= 3 && s[s.len() - 3] == '.' && s[s.len() - 2] == 'm' && s[s.len() - 1] == 'd' {
        s.take(s.len() - 3)
    } else {
        s
    }
}

/// The files an ambiguous resolution reaches: the pick, then the others.
pub open spec fn reached(r: Resolved) -> Seq<FileId> {
    match r {
        Resolved::Ambiguous { pick, others, .. } => seq![pick] + others@,
        _ => seq![],
    }
}

/// The ids below `n`, in order.
pub open spec fn below(ids: Seq<FileId>, n: int) -> Seq<FileId>
    decreases ids.len(),
{
    if ids.len() == 0 {
        seq![]
    } else if ids.last() < n {
        below(ids.drop_last(), n).push(ids.last())
    } else {
        below(ids.drop_last(), n)
    }
}

/// `have` with each id of `add` that it lacks appended, in order.
pub open spec fn with_new(have: Seq<FileId>, add: Seq<FileId>) -> Seq<FileId>
    decreases add.len(),
{
    if add.len() == 0 {
        have
    } else {
        let c = with_new(have, add.drop_last());
        if c.contains(add.last()) {
            c
        } else {
            c.push(add.last())
        }
    }
}

/// The first group from `i` on with state `ambiguous` and key `key`.
pub open spec fn first_group(groups: Seq<TargetView>, ambiguous: bool, key: Seq<char>, i: int) -> Option<int>
    decreases groups.len() - i,
{
    if i < 0 || i >= groups.len() {
        None
    } else if groups[i].ambiguous == ambiguous && groups[i].key == key {
        Some(i)
    } else {
        first_group(groups, ambiguous, key, i + 1)
    }
}

/// A group `first_group` finds is in range and has the state and key.
proof fn lemma_first_group(groups: Seq<TargetView>, ambiguous: bool, key: Seq<char>, i: int)
    ensures
        first_group(groups, ambiguous, key, i) matches Some(g) ==> i <= g < groups.len() && groups[g].ambiguous
            == ambiguous && groups[g].key == key,
    decreases groups.len() - i,
{
    if i >= 0 && i < groups.len() && !(groups[i].ambiguous == ambiguous && groups[i].key == key) {
        lemma_first_group(groups, ambiguous, key, i + 1);
    }
}

/// `below` keeps only ids under `n`.
proof fn lemma_below(ids: Seq<FileId>, n: int)
    ensures
        forall|q: int| 0 <= q < below(ids, n).len() ==> #[trigger] below(ids, n)[q] < n,
    decreases ids.len(),
{
    if ids.len() > 0 {
        let prev = below(ids.drop_last(), n);
        lemma_below(ids.drop_last(), n);
        assert forall|q: int| 0 <= q < below(ids, n).len() implies #[trigger] below(ids, n)[q] < n by {
            if ids.last() < n && q == prev.len() {
                assert(below(ids, n)[q] == ids.last());
            } else {
                assert(below(ids, n)[q] == prev[q]);
            }
        }
    }
}

/// `with_new` adds only ids of `add`.
proof fn lemma_with_new(have: Seq<FileId>, add: Seq<FileId>, n: int)
    requires
        forall|q: int| 0 <= q < have.len() ==> #[trigger] have[q] < n,
        forall|q: int| 0 <= q < add.len() ==> #[trigger] add[q] < n,
    ensures
        forall|q: int| 0 <= q < with_new(have, add).len() ==> #[trigger] with_new(have, add)[q] < n,
    decreases add.len(),
{
    if add.len() > 0 {
        assert forall|q: int| 0 <= q < add.drop_last().len() implies #[trigger] add.drop_last()[q] < n by {
            assert(add.drop_last()[q] == add[q]);
        }
        lemma_with_new(have, add.drop_last(), n);
        assert(add.last() == add[add.len() - 1]);
        let c = with_new(have, add.drop_last());
        assert forall|q: int| 0 <= q < with_new(have, add).len() implies #[trigger] with_new(have, add)[q] < n by {
            if !c.contains(add.last()) && q == c.len() {
                assert(with_new(have, add)[q] == add.last());
            } else {
                assert(with_new(have, add)[q] == c[q]);
            }
        }
    }
}

/// Every candidate the groups list is one of the `n` files.
proof fn lemma_groups_cands(files: Seq<File>, rows: Seq<Vec<Resolved>>, f: int, k: int)
    ensures
        forall|g: int| 0 <= g < groups_through(files, rows, f, k).len() ==> forall|q: int| 0 <= q < (
        #[trigger] groups_through(files, rows, f, k)[g]).candidates.len() ==> #[trigger] groups_through(
            files,
            rows,
            f,
            k,
        )[g].candidates[q] < files.len(),
    decreases f, k,
{
    if f <= 0 && k <= 0 {
    } else if k <= 0 {
        lemma_groups_cands(files, rows, f - 1, links_of(files[f - 1]).len() as int);
        assert(groups_through(files, rows, f, k) == groups_through(files, rows, f - 1, links_of(files[f - 1]).len() as int));
    } else {
        let prev = groups_through(files, rows, f, k - 1);
        lemma_groups_cands(files, rows, f, k - 1);
        let r = rows[f]@[k - 1];
        let l = links_of(files[f])[k - 1];
        let n = files.len() as int;
        if r is File {
            assert(groups_through(files, rows, f, k) == prev);
        } else {
            let cands = below(reached(r), n);
            lemma_below(reached(r), n);
            let want = strip_md_of(key_of(l.target@));
            lemma_first_group(prev, r is Ambiguous, want, 0);
            let cur = groups_through(files, rows, f, k);
            match first_group(prev, r is Ambiguous, want, 0) {
                None => {
                    assert forall|g: int| 0 <= g < cur.len() implies forall|q: int| 0 <= q < (#[trigger] cur[g]).candidates.len()
                        ==> #[trigger] cur[g].candidates[q] < n by {
                        if g < prev.len() {
                            assert(cur[g] == prev[g]);
                        } else {
                            assert(cur[g].candidates == cands);
                        }
                    }
                },
                Some(gi) => {
                    assert forall|q: int| 0 <= q < prev[gi].candidates.len() implies #[trigger] prev[gi].candidates[q] < n by {
                    }
                    lemma_with_new(prev[gi].candidates, cands, n);
                    assert forall|g: int| 0 <= g < cur.len() implies forall|q: int| 0 <= q < (#[trigger] cur[g]).candidates.len()
                        ==> #[trigger] cur[g].candidates[q] < n by {
                        if g != gi {
                            assert(cur[g] == prev[g]);
                        } else {
                            assert(cur[g].candidates == with_new(prev[gi].candidates, cands));
                        }
                    }
                },
            }
        }
    }
}

/// The groups after link `l` of note `f`, resolved as `r`, is counted: a
/// link that resolves to one file adds nothing; another joins the group of
/// its state and key, or starts one shown as it is written, adding the
/// candidates (below `n`) the group lacks.
pub open spec fn add_link(groups: Seq<TargetView>, f: FileId, l: Link, r: Resolved, n: int) -> Seq<TargetView> {
    if r is File {
        groups
    } else {
        let ambiguous = r is Ambiguous;
        let want = strip_md_of(key_of(l.target@));
        let src = Source { file: f, line: l.line, pick: target_of(r) };
        let cands = below(reached(r), n);
        match first_group(groups, ambiguous, want, 0) {
            None => groups.push(
                TargetView { ambiguous, key: want, shown: l.target@, sources: seq![src], candidates: cands },
            ),
            Some(g) => groups.update(
                g,
                TargetView {
                    ambiguous: groups[g].ambiguous,
                    key: groups[g].key,
                    shown: groups[g].shown,
                    sources: groups[g].sources.push(src),
                    candidates: with_new(groups[g].candidates, cands),
                },
            ),
        }
    }
}

/// The groups after every link of the notes before `f` and the first `k`
/// links of note `f`, in the order the links come.
pub open spec fn groups_through(files: Seq<File>, rows: Seq<Vec<Resolved>>, f: int, k: int) -> Seq<TargetView>
    decreases f, k,
{
    if f <= 0 && k <= 0 {
        seq![]
    } else if k <= 0 {
        groups_through(files, rows, f - 1, links_of(files[f - 1]).len() as int)
    } else {
        add_link(
            groups_through(files, rows, f, k - 1),
            f as FileId,
            links_of(files[f])[k - 1],
            rows[f]@[k - 1],
            files.len() as int,
        )
    }
}

/// Candidates by path.
pub open spec fn path_order(files: Seq<File>) -> spec_fn(FileId, FileId) -> bool {
    |a: FileId, b: FileId| lex_less(files[a as int].rel@, files[b as int].rel@)
}

/// Groups with more links first, then unresolved before ambiguous, then by
/// target.
pub open spec fn group_lt(a: TargetView, b: TargetView) -> bool {
    if a.sources.len() != b.sources.len() {
        a.sources.len() > b.sources.len()
    } else if a.ambiguous != b.ambiguous {
        !a.ambiguous
    } else {
        lex_less(a.shown, b.shown)
    }
}

pub open spec fn group_order() -> spec_fn(TargetView, TargetView) -> bool {
    |a: TargetView, b: TargetView| group_lt(a, b)
}

/// A group with its candidates by path.
pub open spec fn by_path(files: Seq<File>, t: TargetView) -> TargetView {
    TargetView { candidates: sort_lt(t.candidates, path_order(files)), ..t }
}

/// The unresolved and ambiguous links of the notes, grouped, each group's
/// candidates by path, the groups in listing order.
pub open spec fn unresolved_of(files: Seq<File>, rows: Seq<Vec<Resolved>>) -> Seq<TargetView> {
    sort_lt(
        groups_through(files, rows, files.len() as int, 0).map_values(|t: TargetView| by_path(files, t)),
        group_order(),
    )
}

/// Some group of state `ambiguous` and key `key` holds source `src`.
pub open spec fn listed(groups: Seq<TargetView>, ambiguous: bool, key: Seq<char>, src: Source) -> bool {
    exists|g: int|
        0 <= g < groups.len() && (#[trigger] groups[g]).ambiguous == ambiguous && groups[g].key == key
            && groups[g].sources.contains(src)
}

/// Counting a link keeps every source listed before.
proof fn lemma_add_keeps(
    groups: Seq<TargetView>,
    f: FileId,
    l: Link,
    r: Resolved,
    n: int,
    ambiguous: bool,
    key: Seq<char>,
    src: Source,
)
    requires
        listed(groups, ambiguous, key, src),
    ensures
        listed(add_link(groups, f, l, r, n), ambiguous, key, src),
{
    let g = choose|g: int|
        0 <= g < groups.len() && (#[trigger] groups[g]).ambiguous == ambiguous && groups[g].key == key
            && groups[g].sources.contains(src);
    let next = add_link(groups, f, l, r, n);
    if !(r is File) {
        let want = strip_md_of(key_of(l.target@));
        lemma_first_group(groups, r is Ambiguous, want, 0);
        match first_group(groups, r is Ambiguous, want, 0) {
            None => {
                assert(next[g] == groups[g]);
            },
            Some(h) => {
                if h == g {
                    let j = choose|j: int| 0 <= j < groups[g].sources.len() && groups[g].sources[j] == src;
                    assert(next[g].sources[j] == src);
                } else {
                    assert(next[g] == groups[g]);
                }
            },
        }
    }
}

/// Counting a link that does not resolve to one file lists it.
proof fn lemma_add_lists(groups: Seq<TargetView>, f: FileId, l: Link, r: Resolved, n: int)
    requires
        !(r is File),
    ensures
        listed(
            add_link(groups, f, l, r, n),
            r is Ambiguous,
            strip_md_of(key_of(l.target@)),
            Source { file: f, line: l.line, pick: target_of(r) },
        ),
{
    let want = strip_md_of(key_of(l.target@));
    let src = Source { file: f, line: l.line, pick: target_of(r) };
    let next = add_link(groups, f, l, r, n);
    lemma_first_group(groups, r is Ambiguous, want, 0);
    match first_group(groups, r is Ambiguous, want, 0) {
        None => {
            assert(next[groups.len() as int].sources[0] == src);
        },
        Some(h) => {
            assert(next[h].sources[groups[h].sources.len() as int] == src);
        },
    }
}

/// Every link counted so far that does not resolve to one file is listed.
proof fn lemma_through_lists(files: Seq<File>, rows: Seq<Vec<Resolved>>, f2: int, k2: int, f: int, k: int)
    requires
        forward_rows_ok(files, rows),
        0 <= f < files.len(),
        f2 <= files.len(),
        0 <= k < links_of(files[f]).len(),
        f < f2 || (f == f2 && k < k2),
        !(rows[f]@[k] is File),
    ensures
        listed(
            groups_through(files, rows, f2, k2),
            rows[f]@[k] is Ambiguous,
            strip_md_of(key_of(links_of(files[f])[k].target@)),
            Source { file: f as FileId, line: links_of(files[f])[k].line, pick: target_of(rows[f]@[k]) },
        ),
    decreases f2, k2,
{
    let amb = rows[f]@[k] is Ambiguous;
    let want = strip_md_of(key_of(links_of(files[f])[k].target@));
    let src = Source { file: f as FileId, line: links_of(files[f])[k].line, pick: target_of(rows[f]@[k]) };
    if f2 <= 0 && k2 <= 0 {
    } else if k2 <= 0 {
        lemma_through_lists(files, rows, f2 - 1, links_of(files[f2 - 1]).len() as int, f, k);
    } else if f == f2 && k == k2 - 1 {
        lemma_add_lists(
            groups_through(files, rows, f2, k2 - 1),
            f2 as FileId,
            links_of(files[f2])[k2 - 1],
            rows[f2]@[k2 - 1],
            files.len() as int,
        );
    } else {
        lemma_through_lists(files, rows, f2, k2 - 1, f, k);
        lemma_add_keeps(
            groups_through(files, rows, f2, k2 - 1),
            f2 as FileId,
            links_of(files[f2])[k2 - 1],
            rows[f2]@[k2 - 1],
            files.len() as int,
            amb,
            want,
            src,
        );
    }
}

/// One row of resolutions per file, one per link.
pub open spec fn forward_rows_ok(files: Seq<File>, rows: Seq<Vec<Resolved>>) -> bool {
    &&& rows.len() == files.len()
    &&& forall|i: int| 0 <= i < files.len() ==> #[trigger] rows[i]@.len() == links_of(files[i]).len()
}

/// The unresolved listing misses no link: each link that does not resolve
/// to one file is in the group of its state and of its target's key
/// without `.md`, as written at its line, with where it goes.
pub proof fn lemma_unresolved_lists_every_link(index: &Index, f: FileId, k: int)
    requires
        index.wf(),
        f < index.files@.len(),
        0 <= k < links_of(index.files@[f as int]).len(),
        !(index.forward@[f as int]@[k] is File),
    ensures
        listed(
            unresolved_of(index.files@, index.forward@),
            index.forward@[f as int]@[k] is Ambiguous,
            strip_md_of(key_of(links_of(index.files@[f as int])[k].target@)),
            Source {
                file: f,
                line: links_of(index.files@[f as int])[k].line,
                pick: target_of(index.forward@[f as int]@[k]),
            },
        ),
{
    let files = index.files@;
    let rows = index.forward@;
    let amb = rows[f as int]@[k] is Ambiguous;
    let want = strip_md_of(key_of(links_of(files[f as int])[k].target@));
    let src = Source { file: f, line: links_of(files[f as int])[k].line, pick: target_of(rows[f as int]@[k]) };
    let groups = groups_through(files, rows, files.len() as int, 0);
    lemma_through_lists(files, rows, files.len() as int, 0, f as int, k);
    let g = choose|g: int|
        0 <= g < groups.len() && (#[trigger] groups[g]).ambiguous == amb && groups[g].key == want
            && groups[g].sources.contains(src);
    let mapped = groups.map_values(|t: TargetView| by_path(files, t));
    assert(mapped[g] == by_path(files, groups[g]));
    assert(mapped.contains(mapped[g]));
    crate::order::lemma_sort_has(mapped, group_order(), mapped[g]);
    let all = unresolved_of(files, rows);
    let h = choose|h: int| 0 <= h < all.len() && all[h] == mapped[g];
    assert(all[h].ambiguous == amb && all[h].key == want && all[h].sources.contains(src));
}

/// No two groups share a state and a key.
pub open spec fn one_group_each(gs: Seq<TargetView>) -> bool {
    forall|i: int, j: int|
        0 <= i < j < gs.len() ==> !((#[trigger] gs[i]).ambiguous == (#[trigger] gs[j]).ambiguous && gs[i].key == gs[j].key)
}

/// Some group has this state and key.
pub open spec fn has_group(gs: Seq<TargetView>, ambiguous: bool, key: Seq<char>) -> bool {
    exists|k: int| 0 <= k < gs.len() && (#[trigger] gs[k]).ambiguous == ambiguous && gs[k].key == key
}

proof fn lemma_first_group_none(gs: Seq<TargetView>, ambiguous: bool, key: Seq<char>, i: int)
    requires
        0 <= i,
        first_group(gs, ambiguous, key, i) is None,
    ensures
        forall|k: int| i <= k < gs.len() ==> !((#[trigger] gs[k]).ambiguous == ambiguous && gs[k].key == key),
    decreases gs.len() - i,
{
    if i < gs.len() {
        lemma_first_group_none(gs, ambiguous, key, i + 1);
    }
}

proof fn lemma_add_one_each(groups: Seq<TargetView>, f: FileId, l: Link, r: Resolved, n: int)
    requires
        one_group_each(groups),
    ensures
        one_group_each(add_link(groups, f, l, r, n)),
{
    if !(r is File) {
        let want = strip_md_of(key_of(l.target@));
        let next = add_link(groups, f, l, r, n);
        lemma_first_group(groups, r is Ambiguous, want, 0);
        match first_group(groups, r is Ambiguous, want, 0) {
            None => {
                lemma_first_group_none(groups, r is Ambiguous, want, 0);
                assert forall|i: int, j: int| 0 <= i < j < next.len() implies !((#[trigger] next[i]).ambiguous
                    == (#[trigger] next[j]).ambiguous && next[i].key == next[j].key) by {
                    if j == groups.len() {
                        assert(next[i] == groups[i]);
                    } else {
                        assert(next[i] == groups[i] && next[j] == groups[j]);
                    }
                }
            },
            Some(h) => {
                assert forall|i: int, j: int| 0 <= i < j < next.len() implies !((#[trigger] next[i]).ambiguous
                    == (#[trigger] next[j]).ambiguous && next[i].key == next[j].key) by {
                    assert(next[i].ambiguous == groups[i].ambiguous && next[i].key == groups[i].key);
                    assert(next[j].ambiguous == groups[j].ambiguous && next[j].key == groups[j].key);
                }
            },
        }
    }
}

proof fn lemma_through_one_each(files: Seq<File>, rows: Seq<Vec<Resolved>>, f: int, k: int)
    ensures
        one_group_each(groups_through(files, rows, f, k)),
    decreases f, k,
{
    if f <= 0 && k <= 0 {
    } else if k <= 0 {
        lemma_through_one_each(files, rows, f - 1, links_of(files[f - 1]).len() as int);
    } else {
        lemma_through_one_each(files, rows, f, k - 1);
        lemma_add_one_each(
            groups_through(files, rows, f, k - 1),
            f as FileId,
            links_of(files[f])[k - 1],
            rows[f]@[k - 1],
            files.len() as int,
        );
    }
}

proof fn lemma_insert_one_each(s: Seq<TargetView>, x: TargetView, lt: spec_fn(TargetView, TargetView) -> bool)
    requires
        one_group_each(s),
        !has_group(s, x.ambiguous, x.key),
    ensures
        one_group_each(insert_lt(s, x, lt)),
    decreases s.len(),
{
    if s.len() == 0 {
    } else if lt(x, s[0]) {
        let r = seq![x] + s;
        assert forall|i: int, j: int| 0 <= i < j < r.len() implies !((#[trigger] r[i]).ambiguous == (#[trigger] r[j]).ambiguous
            && r[i].key == r[j].key) by {
            if i == 0 {
                assert(r[j] == s[j - 1]);
            } else {
                assert(r[i] == s[i - 1] && r[j] == s[j - 1]);
            }
        }
    } else {
        let rest = s.drop_first();
        assert(!has_group(rest, x.ambiguous, x.key)) by {
            if has_group(rest, x.ambiguous, x.key) {
                let k = choose|k: int| 0 <= k < rest.len() && (#[trigger] rest[k]).ambiguous == x.ambiguous && rest[k].key == x.key;
                assert(s[k + 1] == rest[k]);
            }
        }
        assert(one_group_each(rest)) by {
            assert forall|i: int, j: int| 0 <= i < j < rest.len() implies !((#[trigger] rest[i]).ambiguous
                == (#[trigger] rest[j]).ambiguous && rest[i].key == rest[j].key) by {
                assert(rest[i] == s[i + 1] && rest[j] == s[j + 1]);
            }
        }
        lemma_insert_one_each(rest, x, lt);
        let t = insert_lt(rest, x, lt);
        let r = seq![s[0]] + t;
        assert forall|i: int, j: int| 0 <= i < j < r.len() implies !((#[trigger] r[i]).ambiguous == (#[trigger] r[j]).ambiguous
            && r[i].key == r[j].key) by {
            if i == 0 {
                assert(r[j] == t[j - 1]);
                assert(t.contains(t[j - 1]));
                crate::order::lemma_insert_has(rest, x, lt, t[j - 1]);
                if t[j - 1] != x {
                    let k = choose|k: int| 0 <= k < rest.len() && rest[k] == t[j - 1];
                    assert(s[k + 1] == t[j - 1]);
                } else {
                    assert(s.contains(s[0]));
                }
            } else {
                assert(r[i] == t[i - 1] && r[j] == t[j - 1]);
            }
        }
    }
}

proof fn lemma_sort_one_each(s: Seq<TargetView>, lt: spec_fn(TargetView, TargetView) -> bool)
    requires
        one_group_each(s),
    ensures
        one_group_each(sort_lt(s, lt)),
    decreases s.len(),
{
    if s.len() > 0 {
        let front = s.drop_last();
        assert(one_group_each(front)) by {
            assert forall|i: int, j: int| 0 <= i < j < front.len() implies !((#[trigger] front[i]).ambiguous
                == (#[trigger] front[j]).ambiguous && front[i].key == front[j].key) by {
                assert(front[i] == s[i] && front[j] == s[j]);
            }
        }
        lemma_sort_one_each(front, lt);
        let sorted = sort_lt(front, lt);
        assert(!has_group(sorted, s.last().ambiguous, s.last().key)) by {
            if has_group(sorted, s.last().ambiguous, s.last().key) {
                let k = choose|k: int| 0 <= k < sorted.len() && (#[trigger] sorted[k]).ambiguous == s.last().ambiguous
                    && sorted[k].key == s.last().key;
                assert(sorted.contains(sorted[k]));
                crate::order::lemma_sort_has(front, lt, sorted[k]);
                let q = choose|q: int| 0 <= q < front.len() && front[q] == sorted[k];
                assert(s[q] == front[q]);
                assert(s[s.len() - 1] == s.last());
            }
        }
        lemma_insert_one_each(sorted, s.last(), lt);
    }
}

/// The unresolved listing has one group for each state and target key.
pub proof fn lemma_unresolved_one_group_each(files: Seq<File>, rows: Seq<Vec<Resolved>>)
    ensures
        one_group_each(unresolved_of(files, rows)),
{
    let groups = groups_through(files, rows, files.len() as int, 0);
    lemma_through_one_each(files, rows, files.len() as int, 0);
    let mapped = groups.map_values(|t: TargetView| by_path(files, t));
    assert(one_group_each(mapped)) by {
        assert forall|i: int, j: int| 0 <= i < j < mapped.len() implies !((#[trigger] mapped[i]).ambiguous
            == (#[trigger] mapped[j]).ambiguous && mapped[i].key == mapped[j].key) by {
            assert(mapped[i] == by_path(files, groups[i]) && mapped[j] == by_path(files, groups[j]));
        }
    }
    lemma_sort_one_each(mapped, group_order());
}

fn strip_md(s: Vec<char>) -> (r: Vec<char>)
    ensures
        r@ == strip_md_of(s@),
{
    let n = s.len();
    if n >= 3 && s[n - 3] == '.' && s[n - 2] == 'm' && s[n - 1] == 'd' {
        copy_chars(crate::text::slice_range(s.as_slice(), 0, n - 3))
    } else {
        s
    }
}

/// The key a link target's group is listed under: `key(target)` without
/// `.md`.
pub fn target_key(target: &str) -> (r: String)
    ensures
        r@ == strip_md_of(key_of(target@)),
{
    string_of(strip_md(chars_of(key(target).as_str())).as_slice())
}

/// Whether group `a` is listed before group `b`.
fn group_before(a: &Target, b: &Target) -> (r: bool)
    ensures
        r == group_lt(target_view(*a), target_view(*b)),
{
    if a.sources.len() != b.sources.len() {
        return a.sources.len() > b.sources.len();
    }
    if a.ambiguous != b.ambiguous {
        return !a.ambiguous;
    }
    lex_less_exec(chars_of(a.shown.as_str()).as_slice(), chars_of(b.shown.as_str()).as_slice())
}

/// The candidates an ambiguous resolution reaches, below `n`.
fn candidates_of(r: &Resolved, n: usize) -> (c: Vec<FileId>)
    ensures
        c@ == below(reached(*r), n as int),
{
    let mut all: Vec<FileId> = Vec::new();
    if let Resolved::Ambiguous { pick, others, .. } = r {
        all.push(*pick);
        let mut j: usize = 0;
        while j < others.len()
            invariant
                j <= others@.len(),
                all@ == seq![*pick] + others@.take(j as int),
            decreases others.len() - j,
        {
            all.push(others[j]);
            assert(all@ =~= seq![*pick] + others@.take(j + 1));
            j = j + 1;
        }
        assert(others@.take(others@.len() as int) =~= others@);
    }
    assert(all@ == reached(*r));
    let mut out: Vec<FileId> = Vec::new();
    let mut j: usize = 0;
    while j < all.len()
        invariant
            j <= all@.len(),
            out@ == below(all@.take(j as int), n as int),
        decreases all.len() - j,
    {
        assert(all@.take(j + 1).drop_last() =~= all@.take(j as int));
        if all[j] < n {
            out.push(all[j]);
        }
        j = j + 1;
    }
    assert(all@.take(all@.len() as int) =~= all@);
    out
}

/// The first group with state `ambiguous` and key `want`, else the count.
fn find_group(groups: &Vec<Target>, ambiguous: bool, want: &Vec<char>) -> (g: usize)
    ensures
        match first_group(target_views(groups@), ambiguous, want@, 0) {
            Some(i) => g == i,
            None => g == groups@.len(),
        },
{
    let ghost gv = target_views(groups@);
    let mut g: usize = 0;
    while g < groups.len()
        invariant
            g <= groups@.len(),
            gv == target_views(groups@),
            first_group(gv, ambiguous, want@, 0) == first_group(gv, ambiguous, want@, g as int),
        decreases groups.len() - g,
    {
        let hit = groups[g].ambiguous == ambiguous && vec_eq(&chars_of(groups[g].key.as_str()), want);
        assert(gv[g as int] == target_view(groups@[g as int]));
        if hit {
            return g;
        }
        g = g + 1;
    }
    g
}

/// Appends each id of `add` that `have` lacks, in order.
fn add_new(have: &mut Vec<FileId>, add: &Vec<FileId>)
    ensures
        final(have)@ == with_new(old(have)@, add@),
{
    let ghost start = have@;
    let mut j: usize = 0;
    while j < add.len()
        invariant
            j <= add@.len(),
            have@ == with_new(start, add@.take(j as int)),
        decreases add.len() - j,
    {
        let id = add[j];
        let mut seen = false;
        let mut q: usize = 0;
        while q < have.len()
            invariant
                q <= have@.len(),
                seen == (exists|i: int| 0 <= i < q && have@[i] == id),
            decreases have.len() - q,
        {
            if have[q] == id {
                seen = true;
            }
            q = q + 1;
        }
        assert(add@.take(j + 1).drop_last() =~= add@.take(j as int));
        assert(add@.take(j + 1).last() == id);
        assert(seen == have@.contains(id));
        if !seen {
            have.push(id);
        }
        j = j + 1;
    }
    assert(add@.take(add@.len() as int) =~= add@);
}

/// Counts link `link` of note `source`, resolved as `r`.
fn add_link_exec(groups: &mut Vec<Target>, source: FileId, link: &Link, r: &Resolved, n: usize)
    ensures
        target_views(final(groups)@) == add_link(target_views(old(groups)@), source, *link, *r, n as int),
{
    let ghost gv = target_views(groups@);
    let (ambiguous, counts) = match r {
        Resolved::File { .. } => (false, false),
        Resolved::Ambiguous { .. } => (true, true),
        Resolved::Unresolved => (false, true),
    };
    if !counts {
        return;
    }
    let cands = candidates_of(r, n);
    let want = strip_md(chars_of(key(link.target.as_str()).as_str()));
    let src = Source { file: source, line: link.line, pick: r.target() };
    let g = find_group(groups, ambiguous, &want);
    proof {
        lemma_first_group(gv, ambiguous, want@, 0);
    }
    if g == groups.len() {
        let mut sources: Vec<Source> = Vec::new();
        sources.push(src);
        let t = Target { ambiguous, key: string_of(want.as_slice()), shown: link.target.clone(), sources, candidates: cands };
        groups.push(t);
        assert(target_views(groups@) =~= gv.push(target_view(t)));
        assert(t.sources@ =~= seq![src]);
    } else {
        let ghost gs = groups@;
        let mut t = groups.remove(g);
        assert(t == gs[g as int]);
        t.sources.push(src);
        add_new(&mut t.candidates, &cands);
        groups.insert(g, t);
        assert(groups@ =~= gs.update(g as int, t));
        assert(target_views(groups@) =~= gv.update(g as int, target_view(t)));
    }
}

/// Ids by path, each inserted after those it does not come before.
fn sort_by_path(files: &Vec<File>, ids: &Vec<FileId>) -> (r: Vec<FileId>)
    requires
        forall|k: int| 0 <= k < ids@.len() ==> #[trigger] ids@[k] < files@.len(),
    ensures
        r@ == sort_lt(ids@, path_order(files@)),
{
    let ghost lt = path_order(files@);
    let mut cs: Vec<FileId> = Vec::new();
    let mut j: usize = 0;
    while j < ids.len()
        invariant
            j <= ids@.len(),
            lt == path_order(files@),
            forall|k: int| 0 <= k < ids@.len() ==> #[trigger] ids@[k] < files@.len(),
            cs@ == sort_lt(ids@.take(j as int), lt),
            forall|q: int| 0 <= q < cs@.len() ==> #[trigger] cs@[q] < files@.len(),
        decreases ids.len() - j,
    {
        let id = ids[j];
        let mut p: usize = 0;
        while p < cs.len() && !lex_less_exec(
            chars_of(files[id].rel.as_str()).as_slice(),
            chars_of(files[cs[p]].rel.as_str()).as_slice(),
        )
            invariant
                p <= cs@.len(),
                id < files@.len(),
                lt == path_order(files@),
                forall|q: int| 0 <= q < cs@.len() ==> #[trigger] cs@[q] < files@.len(),
                forall|q: int| 0 <= q < p ==> !lt(id, #[trigger] cs@[q]),
            decreases cs.len() - p,
        {
            p = p + 1;
        }
        proof {
            crate::order::lemma_insert_lt(cs@, id, lt, p as int);
            assert(ids@.take(j + 1).drop_last() =~= ids@.take(j as int));
            assert(ids@.take(j + 1).last() == id);
        }
        let ghost before = cs@;
        cs.insert(p, id);
        assert forall|q: int| 0 <= q < cs@.len() implies #[trigger] cs@[q] < files@.len() by {
            if q < p {
                assert(cs@[q] == before[q]);
            } else if q > p {
                assert(cs@[q] == before[q - 1]);
            }
        }
        j = j + 1;
    }
    assert(ids@.take(ids@.len() as int) =~= ids@);
    cs
}

impl Index {
    /// The unresolved and ambiguous links, grouped by state and by
    /// `key(target)` without `.md`: most links first, unresolved before
    /// ambiguous, then by target. An ambiguous group lists every candidate
    /// its links reach, by path.
    pub fn unresolved(&self) -> (r: Vec<Target>)
        requires
            self.wf(),
        ensures
            target_views(r@) == unresolved_of(self.files@, self.forward@),
    {
        let n = self.files.len();
        let ghost files = self.files@;
        let ghost rows = self.forward@;
        let mut groups: Vec<Target> = Vec::new();
        let mut source: usize = 0;
        assert(target_views(groups@) =~= groups_through(files, rows, 0, 0));
        while source < n
            invariant
                source <= n,
                n == files.len(),
                files == self.files@,
                rows == self.forward@,
                self.wf(),
                target_views(groups@) == groups_through(files, rows, source as int, 0),
            decreases n - source,
        {
            let links = self.links(source);
            let row = &self.forward[source];
            assert(row@.len() == links@.len());
            let mut k: usize = 0;
            while k < links.len()
                invariant
                    k <= links@.len(),
                    source < n,
                    n == files.len(),
                    files == self.files@,
                    rows == self.forward@,
                    links@ == links_of(files[source as int]),
                    row == rows[source as int],
                    row@.len() == links@.len(),
                    target_views(groups@) == groups_through(files, rows, source as int, k as int),
                decreases links.len() - k,
            {
                add_link_exec(&mut groups, source, &links[k], &row[k], n);
                k = k + 1;
            }
            assert(groups_through(files, rows, source + 1, 0) == groups_through(
                files,
                rows,
                source as int,
                links_of(files[source as int]).len() as int,
            ));
            source = source + 1;
        }
        // Candidates by path, groups in listing order.
        let ghost all = groups_through(files, rows, n as int, 0).map_values(|t: TargetView| by_path(files, t));
        let ghost gv = target_views(groups@);
        let ghost order = group_order();
        proof {
            lemma_groups_cands(files, rows, n as int, 0);
        }
        let mut sorted: Vec<Target> = Vec::new();
        let ghost mut done: int = 0;
        while groups.len() > 0
            invariant
                n == files.len(),
                files == self.files@,
                rows == self.forward@,
                self.wf(),
                gv == groups_through(files, rows, n as int, 0),
                all == gv.map_values(|t: TargetView| by_path(files, t)),
                order == group_order(),
                done + groups@.len() == gv.len(),
                target_views(groups@) == gv.skip(done),
                target_views(sorted@) == sort_lt(all.take(done), order),
                0 <= done,
                forall|k: int| 0 <= k < gv.len() ==> forall|q: int| 0 <= q < (#[trigger] gv[k]).candidates.len() ==> #[trigger] gv[k].candidates[q] < n,
            decreases groups@.len(),
        {
            let ghost rest = groups@;
            let mut t = groups.remove(0);
            assert(target_view(t) == gv[done]) by {
                assert(t == rest[0]);
                assert(target_views(rest)[0] == target_view(rest[0]));
                assert(gv.skip(done)[0] == gv[done]);
            }
            assert(groups@ =~= rest.subrange(1, rest.len() as int));
            assert(target_views(groups@) =~= gv.skip(done + 1)) by {
                assert forall|q: int| 0 <= q < groups@.len() implies #[trigger] target_views(groups@)[q] == gv.skip(done + 1)[q] by {
                    assert(groups@[q] == rest[q + 1]);
                    assert(target_views(rest)[q + 1] == gv.skip(done)[q + 1]);
                }
            }
            assert forall|q: int| 0 <= q < t.candidates@.len() implies #[trigger] t.candidates@[q] < self.files@.len() by {
                assert(gv[done].candidates[q] == t.candidates@[q]);
            }
            let cs = sort_by_path(&self.files, &t.candidates);
            t.candidates = cs;
            assert(target_view(t) == all[done]);
            let mut p: usize = 0;
            while p < sorted.len() && !group_before(&t, &sorted[p])
                invariant
                    p <= sorted@.len(),
                    order == group_order(),
                    forall|q: int| 0 <= q < p ==> !order(target_view(t), #[trigger] target_views(sorted@)[q]),
                decreases sorted.len() - p,
            {
                assert(target_views(sorted@)[p as int] == target_view(sorted@[p as int]));
                p = p + 1;
            }
            proof {
                if p < sorted@.len() {
                    assert(target_views(sorted@)[p as int] == target_view(sorted@[p as int]));
                }
                crate::order::lemma_insert_lt(target_views(sorted@), target_view(t), order, p as int);
                assert(all.take(done + 1).drop_last() =~= all.take(done));
            }
            let ghost before = sorted@;
            sorted.insert(p, t);
            assert(target_views(sorted@) =~= target_views(before).insert(p as int, target_view(t)));
            proof {
                done = done + 1;
            }
        }
        assert(all.take(done) =~= all);
        sorted
    }
}

} // verus!
