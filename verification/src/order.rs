//! Stable insertion sorts, stated over a strict "comes before" relation.

use vstd::prelude::*;

verus! {

/// `x` placed before the first element it comes before.
pub open spec fn insert_lt<A>(s: Seq<A>, x: A, lt: spec_fn(A, A) -> bool) -> Seq<A>
    decreases s.len(),
{
    if s.len() == 0 {
        seq![x]
    } else if lt(x, s[0]) {
        seq![x] + s
    } else {
        seq![s[0]] + insert_lt(s.drop_first(), x, lt)
    }
}

/// A stable sort: each element in turn inserted after those it does not
/// come before.
pub open spec fn sort_lt<A>(s: Seq<A>, lt: spec_fn(A, A) -> bool) -> Seq<A>
    decreases s.len(),
{
    if s.len() == 0 {
        s
    } else {
        insert_lt(sort_lt(s.drop_last(), lt), s.last(), lt)
    }
}

/// Inserting at the first place `x` comes before is `insert_lt`.
pub proof fn lemma_insert_lt<A>(s: Seq<A>, x: A, lt: spec_fn(A, A) -> bool, p: int)
    requires
        0 <= p <= s.len(),
        forall|k: int| 0 <= k < p ==> !lt(x, #[trigger] s[k]),
        p < s.len() ==> lt(x, s[p]),
    ensures
        insert_lt(s, x, lt) == s.insert(p, x),
    decreases s.len(),
{
    if s.len() == 0 {
        assert(s.insert(p, x) =~= seq![x]);
    } else if p == 0 {
        assert(s.insert(p, x) =~= seq![x] + s);
    } else {
        assert forall|k: int| 0 <= k < p - 1 implies !lt(x, #[trigger] s.drop_first()[k]) by {
            assert(s.drop_first()[k] == s[k + 1]);
        }
        lemma_insert_lt(s.drop_first(), x, lt, p - 1);
        assert(seq![s[0]] + s.drop_first().insert(p - 1, x) =~= s.insert(p, x));
    }
}

/// Sorting keeps the length.
pub proof fn lemma_sort_len<A>(s: Seq<A>, lt: spec_fn(A, A) -> bool)
    ensures
        sort_lt(s, lt).len() == s.len(),
    decreases s.len(),
{
    if s.len() > 0 {
        lemma_sort_len(s.drop_last(), lt);
        lemma_insert_len(sort_lt(s.drop_last(), lt), s.last(), lt);
    }
}

pub proof fn lemma_insert_len<A>(s: Seq<A>, x: A, lt: spec_fn(A, A) -> bool)
    ensures
        insert_lt(s, x, lt).len() == s.len() + 1,
    decreases s.len(),
{
    if s.len() > 0 && !lt(x, s[0]) {
        lemma_insert_len(s.drop_first(), x, lt);
    }
}

/// What insertion holds: the old elements and `x`.
pub proof fn lemma_insert_has<A>(s: Seq<A>, x: A, lt: spec_fn(A, A) -> bool, y: A)
    ensures
        insert_lt(s, x, lt).contains(y) <==> (s.contains(y) || y == x),
    decreases s.len(),
{
    if s.len() == 0 {
        assert(insert_lt(s, x, lt) =~= seq![x]);
        if insert_lt(s, x, lt).contains(y) {
            let k = choose|k: int| 0 <= k < insert_lt(s, x, lt).len() && insert_lt(s, x, lt)[k] == y;
            assert(k == 0);
        }
        if y == x {
            assert(insert_lt(s, x, lt)[0] == y);
        }
    } else if lt(x, s[0]) {
        let r = seq![x] + s;
        if r.contains(y) {
            let k = choose|k: int| 0 <= k < r.len() && r[k] == y;
            if k > 0 {
                assert(s[k - 1] == y);
            }
        }
        if s.contains(y) {
            let k = choose|k: int| 0 <= k < s.len() && s[k] == y;
            assert(r[k + 1] == y);
        }
        if y == x {
            assert(r[0] == y);
        }
    } else {
        lemma_insert_has(s.drop_first(), x, lt, y);
        let r = seq![s[0]] + insert_lt(s.drop_first(), x, lt);
        let t = insert_lt(s.drop_first(), x, lt);
        if r.contains(y) {
            let k = choose|k: int| 0 <= k < r.len() && r[k] == y;
            if k == 0 {
                assert(s[0] == y);
            } else {
                assert(t[k - 1] == y);
                if s.drop_first().contains(y) {
                    let j = choose|j: int| 0 <= j < s.drop_first().len() && s.drop_first()[j] == y;
                    assert(s[j + 1] == y);
                }
            }
        }
        if s.contains(y) {
            let k = choose|k: int| 0 <= k < s.len() && s[k] == y;
            if k == 0 {
                assert(r[0] == y);
            } else {
                assert(s.drop_first()[k - 1] == y);
                assert(t.contains(y));
                let j = choose|j: int| 0 <= j < t.len() && t[j] == y;
                assert(r[j + 1] == y);
            }
        }
        if y == x {
            assert(t.contains(y));
            let j = choose|j: int| 0 <= j < t.len() && t[j] == y;
            assert(r[j + 1] == y);
        }
    }
}

/// A sort holds what was sorted.
pub proof fn lemma_sort_has<A>(s: Seq<A>, lt: spec_fn(A, A) -> bool, y: A)
    ensures
        sort_lt(s, lt).contains(y) <==> s.contains(y),
    decreases s.len(),
{
    if s.len() > 0 {
        lemma_sort_has(s.drop_last(), lt, y);
        lemma_insert_has(sort_lt(s.drop_last(), lt), s.last(), lt, y);
        if s.contains(y) {
            let k = choose|k: int| 0 <= k < s.len() && s[k] == y;
            if k < s.len() - 1 {
                assert(s.drop_last()[k] == y);
            }
        }
        if s.drop_last().contains(y) {
            let k = choose|k: int| 0 <= k < s.drop_last().len() && s.drop_last()[k] == y;
            assert(s[k] == y);
        }
    } else {
        assert(sort_lt(s, lt) =~= s);
    }
}


/// Inserting an element that is not there keeps the elements distinct.
pub proof fn lemma_insert_distinct<A>(s: Seq<A>, x: A, lt: spec_fn(A, A) -> bool)
    requires
        s.no_duplicates(),
        !s.contains(x),
    ensures
        insert_lt(s, x, lt).no_duplicates(),
    decreases s.len(),
{
    let r = insert_lt(s, x, lt);
    if s.len() == 0 {
        assert(r =~= seq![x]);
    } else if lt(x, s[0]) {
        assert(r =~= seq![x] + s);
        assert forall|i: int, j: int| 0 <= i < r.len() && 0 <= j < r.len() && i != j implies r[i] != r[j] by {
            if i == 0 && j > 0 {
                assert(r[j] == s[j - 1]);
            } else if j == 0 && i > 0 {
                assert(r[i] == s[i - 1]);
            } else if i > 0 && j > 0 {
                assert(r[i] == s[i - 1] && r[j] == s[j - 1]);
            }
        }
    } else {
        let t = s.drop_first();
        assert forall|i: int, j: int| 0 <= i < t.len() && 0 <= j < t.len() && i != j implies t[i] != t[j] by {
            assert(t[i] == s[i + 1] && t[j] == s[j + 1]);
        }
        if t.contains(x) {
            let k = choose|k: int| 0 <= k < t.len() && t[k] == x;
            assert(s[k + 1] == x);
        }
        lemma_insert_distinct(t, x, lt);
        let u = insert_lt(t, x, lt);
        assert(r =~= seq![s[0]] + u);
        lemma_insert_has(t, x, lt, s[0]);
        assert(!t.contains(s[0])) by {
            if t.contains(s[0]) {
                let k = choose|k: int| 0 <= k < t.len() && t[k] == s[0];
                assert(s[k + 1] == s[0]);
            }
        }
        assert(s[0] != x) by {
            assert(s.contains(s[0]));
        }
        assert forall|i: int, j: int| 0 <= i < r.len() && 0 <= j < r.len() && i != j implies r[i] != r[j] by {
            if i == 0 && j > 0 {
                assert(r[j] == u[j - 1]);
                assert(u.contains(u[j - 1]));
            } else if j == 0 && i > 0 {
                assert(r[i] == u[i - 1]);
                assert(u.contains(u[i - 1]));
            } else if i > 0 && j > 0 {
                assert(r[i] == u[i - 1] && r[j] == u[j - 1]);
            }
        }
    }
}

/// Sorting distinct elements keeps them distinct.
pub proof fn lemma_sort_distinct<A>(s: Seq<A>, lt: spec_fn(A, A) -> bool)
    requires
        s.no_duplicates(),
    ensures
        sort_lt(s, lt).no_duplicates(),
    decreases s.len(),
{
    if s.len() > 0 {
        let d = s.drop_last();
        assert forall|i: int, j: int| 0 <= i < d.len() && 0 <= j < d.len() && i != j implies d[i] != d[j] by {
            assert(d[i] == s[i] && d[j] == s[j]);
        }
        lemma_sort_distinct(d, lt);
        lemma_sort_has(d, lt, s.last());
        if d.contains(s.last()) {
            let k = choose|k: int| 0 <= k < d.len() && d[k] == s.last();
            assert(s[k] == s[s.len() - 1]);
        }
        lemma_insert_distinct(sort_lt(d, lt), s.last(), lt);
    }
}

/// No element comes before one that stands ahead of it.
pub open spec fn sorted_by<A>(s: Seq<A>, lt: spec_fn(A, A) -> bool) -> bool {
    forall|i: int, j: int| 0 <= i < j < s.len() ==> !lt(#[trigger] s[j], #[trigger] s[i])
}

/// `lt` is a strict total order: irreflexive, transitive, and any two
/// different elements are ordered one way.
pub open spec fn strict_total<A>(lt: spec_fn(A, A) -> bool) -> bool {
    &&& forall|a: A| !#[trigger] lt(a, a)
    &&& forall|a: A, b: A, c: A| #[trigger] lt(a, b) && #[trigger] lt(b, c) ==> lt(a, c)
    &&& forall|a: A, b: A| a != b ==> #[trigger] lt(a, b) || #[trigger] lt(b, a)
}

pub proof fn lemma_insert_sorted<A>(s: Seq<A>, x: A, lt: spec_fn(A, A) -> bool)
    requires
        strict_total(lt),
        sorted_by(s, lt),
    ensures
        sorted_by(insert_lt(s, x, lt), lt),
    decreases s.len(),
{
    let r = insert_lt(s, x, lt);
    if s.len() == 0 {
        assert(r =~= seq![x]);
    } else if lt(x, s[0]) {
        assert(r =~= seq![x] + s);
        assert forall|i: int, j: int| 0 <= i < j < r.len() implies !lt(#[trigger] r[j], #[trigger] r[i]) by {
            if i == 0 {
                assert(r[j] == s[j - 1]);
                if lt(s[j - 1], x) {
                    assert(lt(s[j - 1], s[0]));
                    if j - 1 == 0 {
                        assert(!lt(s[0], s[0]));
                    } else {
                        assert(!lt(s[j - 1], s[0]));
                    }
                }
            } else {
                assert(r[i] == s[i - 1] && r[j] == s[j - 1]);
            }
        }
    } else {
        let t = s.drop_first();
        assert forall|i: int, j: int| 0 <= i < j < t.len() implies !lt(#[trigger] t[j], #[trigger] t[i]) by {
            assert(t[i] == s[i + 1] && t[j] == s[j + 1]);
        }
        lemma_insert_sorted(t, x, lt);
        let u = insert_lt(t, x, lt);
        assert(r =~= seq![s[0]] + u);
        assert forall|i: int, j: int| 0 <= i < j < r.len() implies !lt(#[trigger] r[j], #[trigger] r[i]) by {
            if i == 0 {
                assert(r[j] == u[j - 1]);
                lemma_insert_has(t, x, lt, u[j - 1]);
                assert(u.contains(u[j - 1]));
                if u[j - 1] != x {
                    let m = choose|m: int| 0 <= m < t.len() && t[m] == u[j - 1];
                    assert(s[m + 1] == u[j - 1]);
                    assert(!lt(s[m + 1], s[0]));
                }
            } else {
                assert(r[i] == u[i - 1] && r[j] == u[j - 1]);
            }
        }
    }
}

/// Under a strict total order, the sort leaves no element before one that
/// stands ahead of it.
pub proof fn lemma_sort_sorted<A>(s: Seq<A>, lt: spec_fn(A, A) -> bool)
    requires
        strict_total(lt),
    ensures
        sorted_by(sort_lt(s, lt), lt),
    decreases s.len(),
{
    if s.len() > 0 {
        lemma_sort_sorted(s.drop_last(), lt);
        lemma_insert_sorted(sort_lt(s.drop_last(), lt), s.last(), lt);
    }
}

/// Each element's key is at least that of every element after it.
pub open spec fn keyed_desc<A>(s: Seq<A>, f: spec_fn(A) -> int) -> bool {
    forall|i: int, j: int| 0 <= i < j < s.len() ==> f(#[trigger] s[i]) >= f(#[trigger] s[j])
}

/// Where "comes before" follows a key downwards (a larger key comes first,
/// and only an element whose key is at least as large can come first),
/// insertion keeps a sequence in descending key order.
pub proof fn lemma_insert_keyed<A>(s: Seq<A>, x: A, lt: spec_fn(A, A) -> bool, f: spec_fn(A) -> int)
    requires
        forall|a: A, b: A| #[trigger] lt(a, b) ==> f(a) >= f(b),
        forall|a: A, b: A| f(a) > f(b) ==> #[trigger] lt(a, b),
        keyed_desc(s, f),
    ensures
        keyed_desc(insert_lt(s, x, lt), f),
    decreases s.len(),
{
    let r = insert_lt(s, x, lt);
    if s.len() == 0 {
        assert(r =~= seq![x]);
    } else if lt(x, s[0]) {
        assert(r =~= seq![x] + s);
        assert forall|i: int, j: int| 0 <= i < j < r.len() implies f(#[trigger] r[i]) >= f(#[trigger] r[j]) by {
            if i == 0 {
                assert(r[j] == s[j - 1]);
                if j - 1 > 0 {
                    assert(f(s[0]) >= f(s[j - 1]));
                }
            } else {
                assert(r[i] == s[i - 1] && r[j] == s[j - 1]);
            }
        }
    } else {
        let t = insert_lt(s.drop_first(), x, lt);
        assert(keyed_desc(s.drop_first(), f)) by {
            assert forall|i: int, j: int| 0 <= i < j < s.drop_first().len() implies f(#[trigger] s.drop_first()[i]) >= f(
                #[trigger] s.drop_first()[j],
            ) by {
                assert(s.drop_first()[i] == s[i + 1] && s.drop_first()[j] == s[j + 1]);
            }
        }
        lemma_insert_keyed(s.drop_first(), x, lt, f);
        assert(r =~= seq![s[0]] + t);
        assert forall|i: int, j: int| 0 <= i < j < r.len() implies f(#[trigger] r[i]) >= f(#[trigger] r[j]) by {
            if i == 0 {
                assert(r[j] == t[j - 1]);
                lemma_insert_has(s.drop_first(), x, lt, t[j - 1]);
                assert(t.contains(t[j - 1]));
                if t[j - 1] != x {
                    let m = choose|m: int| 0 <= m < s.drop_first().len() && s.drop_first()[m] == t[j - 1];
                    assert(s[m + 1] == t[j - 1]);
                    assert(f(s[0]) >= f(s[m + 1]));
                }
            } else {
                assert(r[i] == t[i - 1] && r[j] == t[j - 1]);
            }
        }
    }
}

/// Under the same conditions, the sort orders by descending key.
pub proof fn lemma_sort_keyed<A>(s: Seq<A>, lt: spec_fn(A, A) -> bool, f: spec_fn(A) -> int)
    requires
        forall|a: A, b: A| #[trigger] lt(a, b) ==> f(a) >= f(b),
        forall|a: A, b: A| f(a) > f(b) ==> #[trigger] lt(a, b),
    ensures
        keyed_desc(sort_lt(s, lt), f),
    decreases s.len(),
{
    if s.len() > 0 {
        lemma_sort_keyed(s.drop_last(), lt, f);
        lemma_insert_keyed(sort_lt(s.drop_last(), lt), s.last(), lt, f);
    }
}

} // verus!
