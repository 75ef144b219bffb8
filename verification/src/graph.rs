//! The local subgraph around a note, as a tree and as Graphviz text.

use vstd::prelude::*;

use crate::index::{lex_less, lex_less_exec, target_of, FileId, Index};
use crate::order::{insert_lt, lemma_insert_lt, sort_lt};
use crate::text::{push_char, views};

verus! {

#[derive(Debug, Clone, Copy, PartialEq, Eq, Structural)]
pub enum Mark {
    Root,
    /// The parent links to this node.
    Out,
    /// This node links to the parent.
    In,
    Both,
}

/// The arrow that shows a mark.
pub open spec fn arrow_of(m: Mark) -> Seq<char> {
    match m {
        Mark::Root => seq![],
        Mark::Out => seq!['-', '>'],
        Mark::In => seq!['<', '-'],
        Mark::Both => seq!['<', '-', '>'],
    }
}

impl Mark {
    pub fn arrow(self) -> (r: &'static str)
        ensures
            r@ == arrow_of(self),
    {
        match self {
            Mark::Root => {
                proof {
                    reveal_strlit("");
                }
                ""
            },
            Mark::Out => {
                proof {
                    reveal_strlit("->");
                }
                "->"
            },
            Mark::In => {
                proof {
                    reveal_strlit("<-");
                }
                "<-"
            },
            Mark::Both => {
                proof {
                    reveal_strlit("<->");
                }
                "<->"
            },
        }
    }
}

#[derive(Debug, Clone, Copy, PartialEq, Eq)]
pub struct Node {
    pub id: FileId,
    pub hop: u32,
    pub parent: Option<FileId>,
    pub mark: Mark,
}

#[derive(Debug, Clone, PartialEq, Eq)]
pub struct Local {
    /// Breadth-first order; the root first.
    pub nodes: Vec<Node>,
    /// Forward links between included nodes, each once, sorted by path.
    pub edges: Vec<(FileId, FileId)>,
    pub left_out: usize,
}

/// Note `id` links to `t` (resolved, or the pick of an ambiguous link), and
/// `t` is another file.
pub open spec fn is_out(index: &Index, id: int, t: int) -> bool {
    t != id && exists|k: int|
        0 <= k < index.forward@[id]@.len() && #[trigger] target_of(index.forward@[id]@[k]) == Some(t as FileId)
}

/// Note `s` links to `id`, and is another file.
pub open spec fn is_in(index: &Index, id: int, s: int) -> bool {
    s != id && exists|k: int| 0 <= k < index.back@[id]@.len() && (#[trigger] index.back@[id]@[k]).0 == s as FileId
}

/// The ids below `n` that satisfy `p`, ascending.
pub open spec fn ids_where(n: int, p: spec_fn(FileId) -> bool) -> Seq<FileId>
    decreases n,
{
    if n <= 0 {
        seq![]
    } else {
        let r = ids_where(n - 1, p);
        if p((n - 1) as FileId) {
            r.push((n - 1) as FileId)
        } else {
            r
        }
    }
}

/// Path order between two files.
pub open spec fn rel_lt(index: &Index) -> spec_fn(FileId, FileId) -> bool {
    |a: FileId, b: FileId| lex_less(index.files@[a as int].rel@, index.files@[b as int].rel@)
}

/// The files linked with `id` either way, by path.
pub open spec fn neighbors(index: &Index, id: FileId) -> Seq<FileId> {
    sort_lt(
        ids_where(index.files@.len() as int, |t: FileId| is_out(index, id as int, t as int) || is_in(index, id as int, t as int)),
        rel_lt(index),
    )
}

/// How `n` is linked with `cur`.
pub open spec fn mark_of(index: &Index, cur: FileId, n: FileId) -> Mark {
    if is_out(index, cur as int, n as int) && is_in(index, cur as int, n as int) {
        Mark::Both
    } else if is_out(index, cur as int, n as int) {
        Mark::Out
    } else {
        Mark::In
    }
}

/// Whether a node for `id` is already there.
pub open spec fn has_node(nodes: Seq<Node>, id: FileId) -> bool {
    exists|k: int| 0 <= k < nodes.len() && (#[trigger] nodes[k]).id == id
}

/// The neighbours from `k` on that are new, added under `cur`.
pub open spec fn add_nodes(index: &Index, nodes: Seq<Node>, next: Seq<FileId>, cur: Node, k: int) -> Seq<Node>
    decreases next.len() - k,
{
    if k < 0 || k >= next.len() {
        nodes
    } else if has_node(nodes, next[k]) {
        add_nodes(index, nodes, next, cur, k + 1)
    } else {
        add_nodes(
            index,
            nodes.push(Node { id: next[k], hop: (cur.hop + 1) as u32, parent: Some(cur.id), mark: mark_of(index, cur.id, next[k]) }),
            next,
            cur,
            k + 1,
        )
    }
}

/// Node `q` expanded, unless it is `hops` away.
pub open spec fn expand(index: &Index, hops: u32, nodes: Seq<Node>, q: int) -> Seq<Node> {
    let cur = nodes[q];
    if cur.hop >= hops {
        nodes
    } else {
        add_nodes(index, nodes, neighbors(index, cur.id), cur, 0)
    }
}

/// The breadth-first walk from node `q` on.
pub open spec fn bfs(index: &Index, hops: u32, nodes: Seq<Node>, q: int) -> Seq<Node>
    decreases index.files@.len() - nodes.len(), nodes.len() - q,
{
    if q < 0 || q >= nodes.len() || nodes.len() > index.files@.len() {
        nodes
    } else {
        let grown = expand(index, hops, nodes, q);
        if grown.len() > index.files@.len() || grown.len() < nodes.len() {
            grown
        } else {
            bfs(index, hops, grown, q + 1)
        }
    }
}

/// Each node with a parent is marked by how it is linked with that parent:
/// `Both` when the parent links to it and it links to the parent, `Out`
/// when only the parent links to it, `In` when only it links to the parent.
pub open spec fn marks_follow_links(index: &Index, nodes: Seq<Node>) -> bool {
    forall|k: int|
        0 <= k < nodes.len() && (#[trigger] nodes[k]).parent is Some ==> {
            let p = nodes[k].parent->Some_0 as int;
            let n = nodes[k].id as int;
            &&& (nodes[k].mark == Mark::Both) == (is_out(index, p, n) && is_in(index, p, n))
            &&& (nodes[k].mark == Mark::Out) == (is_out(index, p, n) && !is_in(index, p, n))
            &&& (nodes[k].mark == Mark::In) == (!is_out(index, p, n) && is_in(index, p, n))
        }
}

proof fn lemma_add_nodes_marks(index: &Index, nodes: Seq<Node>, next: Seq<FileId>, cur: Node, k: int)
    requires
        marks_follow_links(index, nodes),
        forall|j: int| 0 <= j < next.len() ==> is_out(index, cur.id as int, #[trigger] next[j] as int) || is_in(index, cur.id as int, next[j] as int),
    ensures
        marks_follow_links(index, add_nodes(index, nodes, next, cur, k)),
    decreases next.len() - k,
{
    if 0 <= k < next.len() {
        if has_node(nodes, next[k]) {
            lemma_add_nodes_marks(index, nodes, next, cur, k + 1);
        } else {
            let node = Node { id: next[k], hop: (cur.hop + 1) as u32, parent: Some(cur.id), mark: mark_of(index, cur.id, next[k]) };
            let grown = nodes.push(node);
            assert forall|j: int| 0 <= j < grown.len() && (#[trigger] grown[j]).parent is Some implies {
                let p = grown[j].parent->Some_0 as int;
                let n = grown[j].id as int;
                &&& (grown[j].mark == Mark::Both) == (is_out(index, p, n) && is_in(index, p, n))
                &&& (grown[j].mark == Mark::Out) == (is_out(index, p, n) && !is_in(index, p, n))
                &&& (grown[j].mark == Mark::In) == (!is_out(index, p, n) && is_in(index, p, n))
            } by {
                if j < nodes.len() {
                    assert(grown[j] == nodes[j]);
                }
            }
            lemma_add_nodes_marks(index, grown, next, cur, k + 1);
        }
    }
}

proof fn lemma_ids_where_hold(n: int, p: spec_fn(FileId) -> bool)
    ensures
        forall|j: int| 0 <= j < ids_where(n, p).len() ==> p(#[trigger] ids_where(n, p)[j]),
    decreases n,
{
    if n > 0 {
        lemma_ids_where_hold(n - 1, p);
        let r = ids_where(n - 1, p);
        assert forall|j: int| 0 <= j < ids_where(n, p).len() implies p(#[trigger] ids_where(n, p)[j]) by {
            if j < r.len() {
                assert(ids_where(n, p)[j] == r[j]);
            }
        }
    }
}

/// Every neighbor is linked with the file one way or the other.
proof fn lemma_neighbors_linked(index: &Index, id: FileId)
    ensures
        forall|j: int|
            0 <= j < neighbors(index, id).len() ==> is_out(index, id as int, #[trigger] neighbors(index, id)[j] as int) || is_in(
                index,
                id as int,
                neighbors(index, id)[j] as int,
            ),
{
    let p = |t: FileId| is_out(index, id as int, t as int) || is_in(index, id as int, t as int);
    let base = ids_where(index.files@.len() as int, p);
    lemma_ids_where_hold(index.files@.len() as int, p);
    assert forall|j: int| 0 <= j < neighbors(index, id).len() implies is_out(
        index,
        id as int,
        #[trigger] neighbors(index, id)[j] as int,
    ) || is_in(index, id as int, neighbors(index, id)[j] as int) by {
        let y = neighbors(index, id)[j];
        crate::order::lemma_sort_has(base, rel_lt(index), y);
        assert(neighbors(index, id).contains(y));
        let m = choose|m: int| 0 <= m < base.len() && base[m] == y;
        assert(p(base[m]));
    }
}

proof fn lemma_bfs_marks(index: &Index, hops: u32, nodes: Seq<Node>, q: int)
    requires
        marks_follow_links(index, nodes),
    ensures
        marks_follow_links(index, bfs(index, hops, nodes, q)),
    decreases index.files@.len() - nodes.len(), nodes.len() - q,
{
    if !(q < 0 || q >= nodes.len() || nodes.len() > index.files@.len()) {
        let cur = nodes[q];
        if cur.hop < hops {
            lemma_neighbors_linked(index, cur.id);
            lemma_add_nodes_marks(index, nodes, neighbors(index, cur.id), cur, 0);
        }
        let grown = expand(index, hops, nodes, q);
        if !(grown.len() > index.files@.len() || grown.len() < nodes.len()) {
            lemma_bfs_marks(index, hops, grown, q + 1);
        }
    }
}

/// The local graph marks each node by how it is linked with the node that
/// reached it: `Both` exactly when each links to the other, `Out` exactly
/// when only the node that reached it links to it, `In` exactly when only
/// it links to the node that reached it.
pub proof fn lemma_local_marks(index: &Index, root: FileId, hops: u32, cap: Option<usize>)
    ensures
        forall|k: int|
            0 <= k < local_of(index, root, hops, cap).0.len() && (#[trigger] local_of(index, root, hops, cap).0[k]).parent is Some
                ==> {
                let node = local_of(index, root, hops, cap).0[k];
                let p = node.parent->Some_0 as int;
                let n = node.id as int;
                &&& (node.mark == Mark::Both) == (is_out(index, p, n) && is_in(index, p, n))
                &&& (node.mark == Mark::Out) == (is_out(index, p, n) && !is_in(index, p, n))
                &&& (node.mark == Mark::In) == (!is_out(index, p, n) && is_in(index, p, n))
            },
{
    let start = seq![root_node(root)];
    lemma_bfs_marks(index, hops, start, 0);
    let nodes = bfs(index, hops, start, 0);
    let kept = local_of(index, root, hops, cap).0;
    match cap {
        Some(c) => if nodes.len() > c {
            let k = if nodes.len() - c < nodes.len() - 1 { nodes.len() - c } else { nodes.len() - 1 };
            let drop = drop_order(index, nodes).take(k);
            lemma_keep_count(nodes, drop, nodes.len() as int);
            assert forall|j: int| 0 <= j < kept.len() && (#[trigger] kept[j]).parent is Some implies {
                let p = kept[j].parent->Some_0 as int;
                let n = kept[j].id as int;
                &&& (kept[j].mark == Mark::Both) == (is_out(index, p, n) && is_in(index, p, n))
                &&& (kept[j].mark == Mark::Out) == (is_out(index, p, n) && !is_in(index, p, n))
                &&& (kept[j].mark == Mark::In) == (!is_out(index, p, n) && is_in(index, p, n))
            } by {
                assert(nodes.contains(kept[j]));
                let i = choose|i: int| 0 <= i < nodes.len() && nodes[i] == kept[j];
                assert(nodes[i].parent is Some);
            }
        },
        None => {},
    }
}

/// The root's node.
pub open spec fn root_node(root: FileId) -> Node {
    Node { id: root, hop: 0, parent: None, mark: Mark::Root }
}

/// How many entries are `true`.
pub open spec fn trues(v: Seq<bool>) -> nat
    decreases v.len(),
{
    if v.len() == 0 {
        0
    } else {
        trues(v.drop_last()) + if v.last() { 1nat } else { 0nat }
    }
}

proof fn lemma_trues_bound(v: Seq<bool>)
    ensures
        trues(v) <= v.len(),
    decreases v.len(),
{
    if v.len() > 0 {
        lemma_trues_bound(v.drop_last());
    }
}

proof fn lemma_trues_set(v: Seq<bool>, t: int)
    requires
        0 <= t < v.len(),
        !v[t],
    ensures
        trues(v.update(t, true)) == trues(v) + 1,
    decreases v.len(),
{
    let u = v.update(t, true);
    if t == v.len() - 1 {
        assert(u.drop_last() =~= v.drop_last());
    } else {
        assert(u.drop_last() =~= v.drop_last().update(t, true));
        lemma_trues_set(v.drop_last(), t);
    }
}

fn falses(n: usize) -> (r: Vec<bool>)
    ensures
        r@.len() == n,
        forall|t: int| 0 <= t < n ==> !#[trigger] r@[t],
        trues(r@) == 0,
{
    let mut v: Vec<bool> = Vec::new();
    let mut i: usize = 0;
    while i < n
        invariant
            i <= n,
            v@.len() == i,
            forall|t: int| 0 <= t < i ==> !#[trigger] v@[t],
            trues(v@) == 0,
        decreases n - i,
    {
        let ghost old_v = v@;
        v.push(false);
        assert(v@.drop_last() =~= old_v);
        i = i + 1;
    }
    v
}

/// Which files `id` links to.
fn out_marks(index: &Index, id: FileId) -> (r: Vec<bool>)
    requires
        index.wf(),
        id < index.files@.len(),
    ensures
        r@.len() == index.files@.len(),
        forall|t: int| 0 <= t < index.files@.len() ==> #[trigger] r@[t] == is_out(index, id as int, t),
{
    let n = index.files.len();
    let mut outs = falses(n);
    let row = &index.forward[id];
    let mut j: usize = 0;
    while j < row.len()
        invariant
            index.wf(),
            id < n,
            n == index.files@.len(),
            row@ == index.forward@[id as int]@,
            j <= row@.len(),
            outs@.len() == n,
            forall|t: int|
                0 <= t < n ==> (#[trigger] outs@[t] <==> (t != id && exists|k: int|
                    0 <= k < j && #[trigger] target_of(row@[k]) == Some(t as FileId))),
        decreases row.len() - j,
    {
        assert(target_of(row@[j as int]) matches Some(t) ==> t < n);
        match row[j].target() {
            Some(t) => {
                if t != id {
                    outs.set(t, true);
                }
            },
            None => {},
        }
        assert forall|t: int| 0 <= t < n implies (#[trigger] outs@[t] <==> (t != id && exists|k: int|
            0 <= k < j + 1 && #[trigger] target_of(row@[k]) == Some(t as FileId))) by {
            if outs@[t] && !(exists|k: int| 0 <= k < j && #[trigger] target_of(row@[k]) == Some(t as FileId)) {
                assert(target_of(row@[j as int]) == Some(t as FileId));
            }
        }
        j = j + 1;
    }
    outs
}

/// Which files link to `id`.
fn in_marks(index: &Index, id: FileId) -> (r: Vec<bool>)
    requires
        index.wf(),
        id < index.files@.len(),
    ensures
        r@.len() == index.files@.len(),
        forall|t: int| 0 <= t < index.files@.len() ==> #[trigger] r@[t] == is_in(index, id as int, t),
{
    let n = index.files.len();
    let mut ins = falses(n);
    let brow = &index.back[id];
    let mut j: usize = 0;
    while j < brow.len()
        invariant
            index.wf(),
            id < n,
            n == index.files@.len(),
            brow@ == index.back@[id as int]@,
            j <= brow@.len(),
            ins@.len() == n,
            forall|t: int|
                0 <= t < n ==> (#[trigger] ins@[t] <==> (t != id && exists|k: int|
                    0 <= k < j && (#[trigger] brow@[k]).0 == t as FileId)),
        decreases brow.len() - j,
    {
        let s = brow[j].0;
        assert(crate::index::is_edge(index.files@, index.forward@, s as int, brow@[j as int].1 as int, id as int));
        if s != id {
            ins.set(s, true);
        }
        assert forall|t: int| 0 <= t < n implies (#[trigger] ins@[t] <==> (t != id && exists|k: int|
            0 <= k < j + 1 && (#[trigger] brow@[k]).0 == t as FileId)) by {
            if ins@[t] && !(exists|k: int| 0 <= k < j && (#[trigger] brow@[k]).0 == t as FileId) {
                assert(brow@[j as int].0 == t as FileId);
            }
        }
        j = j + 1;
    }
    ins
}

/// The files linked with `id`, by path, with which way each is linked.
fn neighbors_exec(index: &Index, id: FileId) -> (r: (Vec<FileId>, Vec<bool>, Vec<bool>))
    requires
        index.wf(),
        id < index.files@.len(),
    ensures
        r.0@ == neighbors(index, id),
        r.1@.len() == index.files@.len(),
        r.2@.len() == index.files@.len(),
        forall|t: int| 0 <= t < index.files@.len() ==> #[trigger] r.1@[t] == is_out(index, id as int, t),
        forall|t: int| 0 <= t < index.files@.len() ==> #[trigger] r.2@[t] == is_in(index, id as int, t),
        forall|k: int| 0 <= k < r.0@.len() ==> #[trigger] r.0@[k] < index.files@.len(),
{
    let n = index.files.len();
    let outs = out_marks(index, id);
    let ins = in_marks(index, id);
    // The linked ids, ascending, then sorted by path.
    let ghost p = |t: FileId| is_out(index, id as int, t as int) || is_in(index, id as int, t as int);
    let mut list: Vec<FileId> = Vec::new();
    let mut t: usize = 0;
    while t < n
        invariant
            n == index.files@.len(),
            t <= n,
            outs@.len() == n,
            ins@.len() == n,
            forall|u: int| 0 <= u < n ==> #[trigger] outs@[u] == is_out(index, id as int, u),
            forall|u: int| 0 <= u < n ==> #[trigger] ins@[u] == is_in(index, id as int, u),
            p == (|t: FileId| is_out(index, id as int, t as int) || is_in(index, id as int, t as int)),
            list@ == ids_where(t as int, p),
            forall|k: int| 0 <= k < list@.len() ==> #[trigger] list@[k] < t,
        decreases n - t,
    {
        if outs[t] || ins[t] {
            list.push(t);
        }
        t = t + 1;
    }
    let sorted = sort_ids_by_rel(index, list.as_slice());
    (sorted, outs, ins)
}

/// A stable sort of file ids by path.
fn sort_ids_by_rel(index: &Index, ids: &[FileId]) -> (r: Vec<FileId>)
    requires
        forall|k: int| 0 <= k < ids@.len() ==> #[trigger] ids@[k] < index.files@.len(),
    ensures
        r@ == sort_lt(ids@, rel_lt(index)),
        forall|k: int| 0 <= k < r@.len() ==> #[trigger] r@[k] < index.files@.len(),
{
    let ghost lt = rel_lt(index);
    let mut out: Vec<FileId> = Vec::new();
    let mut i: usize = 0;
    while i < ids.len()
        invariant
            i <= ids@.len(),
            lt == rel_lt(index),
            forall|k: int| 0 <= k < ids@.len() ==> #[trigger] ids@[k] < index.files@.len(),
            out@ == sort_lt(ids@.take(i as int), lt),
            forall|k: int| 0 <= k < out@.len() ==> #[trigger] out@[k] < index.files@.len(),
        decreases ids.len() - i,
    {
        let x = ids[i];
        let mut p: usize = 0;
        while p < out.len() && !lex_less_exec(chars_of_rel(index, x).as_slice(), chars_of_rel(index, out[p]).as_slice())
            invariant
                p <= out@.len(),
                lt == rel_lt(index),
                x < index.files@.len(),
                forall|k: int| 0 <= k < out@.len() ==> #[trigger] out@[k] < index.files@.len(),
                forall|k: int| 0 <= k < p ==> !lt(x, #[trigger] out@[k]),
            decreases out.len() - p,
        {
            p = p + 1;
        }
        proof {
            lemma_insert_lt(out@, x, lt, p as int);
            assert(ids@.take(i + 1).drop_last() =~= ids@.take(i as int));
            assert(ids@.take(i + 1).last() == x);
        }
        out.insert(p, x);
        i = i + 1;
    }
    assert(ids@.take(ids@.len() as int) =~= ids@);
    out
}

fn chars_of_rel(index: &Index, id: FileId) -> (r: Vec<char>)
    requires
        id < index.files@.len(),
    ensures
        r@ == index.files@[id as int].rel@,
{
    crate::text::chars_of(index.files[id].rel.as_str())
}

/// The nodes' ids are files, each once, and `seen` marks exactly them.
pub open spec fn nodes_ok(index: &Index, nodes: Seq<Node>, seen: Seq<bool>) -> bool {
    &&& seen.len() == index.files@.len()
    &&& nodes.len() == trues(seen)
    &&& forall|k: int| 0 <= k < nodes.len() ==> (#[trigger] nodes[k]).id < index.files@.len()
    &&& forall|t: int| 0 <= t < seen.len() ==> (#[trigger] seen[t] <==> has_node(nodes, t as FileId))
}

/// Each node's parent is the id of a node before it, and no id comes twice.
pub open spec fn reached_in_order(nodes: Seq<Node>) -> bool {
    &&& forall|j: int| 0 <= j < nodes.len() ==> #[trigger] parent_before(nodes, j)
    &&& forall|j: int, k: int|
        0 <= j < nodes.len() && 0 <= k < nodes.len() && j != k ==> (#[trigger] nodes[j]).id != (#[trigger] nodes[k]).id
}

/// Node `j` has no parent, or its parent is the id of a node before it.
pub open spec fn parent_before(nodes: Seq<Node>, j: int) -> bool {
    match nodes[j].parent {
        Some(p) => exists|k: int| 0 <= k < j && (#[trigger] nodes[k]).id == p,
        None => true,
    }
}

proof fn lemma_reached_parents_first(nodes: Seq<Node>)
    requires
        reached_in_order(nodes),
    ensures
        parents_first(nodes),
{
    assert forall|j: int, k: int|
        0 <= j < nodes.len() && 0 <= k < nodes.len() && #[trigger] nodes[j].parent == Some(#[trigger] nodes[k].id) implies j > k by {
        assert(parent_before(nodes, j));
        let i = choose|i: int| 0 <= i < j && (#[trigger] nodes[i]).id == nodes[j].parent->Some_0;
        assert(nodes[i].id == nodes[k].id);
    }
}

/// Keeping some of the nodes, in order, keeps parents before their kids.
proof fn lemma_keep_parents_first(nodes: Seq<Node>, drop: Seq<usize>, k: int)
    requires
        0 <= k <= nodes.len(),
        parents_first(nodes),
    ensures
        parents_first(keep_nodes(nodes, drop, k)),
        forall|a: int| 0 <= a < keep_nodes(nodes, drop, k).len() ==> exists|i: int|
            0 <= i < k && #[trigger] keep_nodes(nodes, drop, k)[a] == nodes[i],
    decreases k,
{
    if k > 0 {
        lemma_keep_parents_first(nodes, drop, k - 1);
        let r = keep_nodes(nodes, drop, k - 1);
        let t = keep_nodes(nodes, drop, k);
        assert forall|a: int| 0 <= a < t.len() implies exists|i: int| 0 <= i < k && #[trigger] t[a] == nodes[i] by {
            if a < r.len() {
                assert(t[a] == r[a]);
                let i = choose|i: int| 0 <= i < k - 1 && #[trigger] r[a] == nodes[i];
                assert(t[a] == nodes[i]);
            } else {
                assert(t[a] == nodes[k - 1]);
            }
        }
        if !drop.contains((k - 1) as usize) {
            assert forall|j: int, m: int|
                0 <= j < t.len() && 0 <= m < t.len() && #[trigger] t[j].parent == Some(#[trigger] t[m].id) implies j > m by {
                if j < r.len() && m < r.len() {
                    assert(t[j] == r[j] && t[m] == r[m]);
                } else if j < r.len() {
                    assert(t[j] == r[j]);
                    let i = choose|i: int| 0 <= i < k - 1 && #[trigger] r[j] == nodes[i];
                    assert(t[m] == nodes[k - 1]);
                    assert(nodes[i].parent == Some(nodes[k - 1].id));
                }
            }
        }
    }
}

/// The cap keeps parents before their kids.
proof fn lemma_capped_parents_first(index: &Index, nodes: Seq<Node>, cap: Option<usize>)
    requires
        parents_first(nodes),
    ensures
        parents_first(capped(index, nodes, cap).0),
{
    match cap {
        Some(c) => if nodes.len() > c {
            let k = if nodes.len() - c < nodes.len() - 1 { nodes.len() - c } else { nodes.len() - 1 };
            lemma_keep_parents_first(nodes, drop_order(index, nodes).take(k), nodes.len() as int);
        },
        None => {},
    }
}

/// The breadth-first walk from `root`, at most `hops` links out.
fn walk(index: &Index, root: FileId, hops: u32) -> (r: Vec<Node>)
    requires
        index.wf(),
        root < index.files@.len(),
    ensures
        r@ == bfs(index, hops, seq![root_node(root)], 0),
        forall|k: int| 0 <= k < r@.len() ==> (#[trigger] r@[k]).id < index.files@.len(),
        reached_in_order(r@),
{
    let n = index.files.len();
    let mut seen = falses(n);
    proof {
        lemma_trues_set(seen@, root as int);
    }
    seen.set(root, true);
    let mut nodes: Vec<Node> = Vec::new();
    nodes.push(Node { id: root, hop: 0, parent: None, mark: Mark::Root });
    assert(nodes@ =~= seq![root_node(root)]);
    assert forall|t: int| 0 <= t < seen@.len() implies (#[trigger] seen@[t] <==> has_node(nodes@, t as FileId)) by {
        if t == root {
            assert(nodes@[0].id == root);
        }
    }
    let mut q: usize = 0;
    while q < nodes.len()
        invariant
            index.wf(),
            n == index.files@.len(),
            nodes_ok(index, nodes@, seen@),
            reached_in_order(nodes@),
            q <= nodes@.len(),
            bfs(index, hops, seq![root_node(root)], 0) == bfs(index, hops, nodes@, q as int),
        decreases n - nodes@.len(), nodes@.len() - q,
    {
        proof {
            lemma_trues_bound(seen@);
        }
        let cur = nodes[q];
        let ghost start = nodes@;
        if cur.hop < hops {
            let (next, outs, ins) = neighbors_exec(index, cur.id);
            let mut k: usize = 0;
            while k < next.len()
                invariant
                    index.wf(),
                    n == index.files@.len(),
                    nodes_ok(index, nodes@, seen@),
                    reached_in_order(nodes@),
                    q < start.len(),
                    cur == start[q as int],
                    cur.hop < hops,
                    next@ == neighbors(index, cur.id),
                    forall|j: int| 0 <= j < next@.len() ==> #[trigger] next@[j] < n,
                    outs@.len() == n,
                    ins@.len() == n,
                    forall|t: int| 0 <= t < n ==> #[trigger] outs@[t] == is_out(index, cur.id as int, t),
                    forall|t: int| 0 <= t < n ==> #[trigger] ins@[t] == is_in(index, cur.id as int, t),
                    k <= next@.len(),
                    start.len() <= nodes@.len(),
                    forall|j: int| 0 <= j < start.len() ==> #[trigger] nodes@[j] == start[j],
                    add_nodes(index, start, next@, cur, 0) == add_nodes(index, nodes@, next@, cur, k as int),
                decreases next.len() - k,
            {
                let t = next[k];
                if !seen[t] {
                    let mark = if outs[t] && ins[t] {
                        Mark::Both
                    } else if outs[t] {
                        Mark::Out
                    } else {
                        Mark::In
                    };
                    let node = Node { id: t, hop: cur.hop + 1, parent: Some(cur.id), mark };
                    let ghost before = nodes@;
                    proof {
                        lemma_trues_set(seen@, t as int);
                    }
                    assert(!has_node(before, t));
                    seen.set(t, true);
                    nodes.push(node);
                    assert(nodes@[q as int] == cur);
                    assert forall|j: int| 0 <= j < nodes@.len() implies #[trigger] parent_before(nodes@, j) by {
                        if j < before.len() {
                            assert(parent_before(before, j));
                            assert(nodes@[j] == before[j]);
                            if before[j].parent is Some {
                                let i = choose|i: int| 0 <= i < j && (#[trigger] before[i]).id == before[j].parent->Some_0;
                                assert(nodes@[i] == before[i]);
                            }
                        } else {
                            assert(nodes@[q as int].id == cur.id);
                        }
                    }
                    assert forall|j: int, i: int| 0 <= j < nodes@.len() && 0 <= i < nodes@.len() && j != i implies (
                    #[trigger] nodes@[j]).id != (#[trigger] nodes@[i]).id by {
                        if j < before.len() && i < before.len() {
                            assert(nodes@[j] == before[j] && nodes@[i] == before[i]);
                        } else if j < before.len() {
                            assert(nodes@[j] == before[j]);
                        } else {
                            assert(nodes@[i] == before[i]);
                        }
                    }
                    assert forall|u: int| 0 <= u < seen@.len() implies (#[trigger] seen@[u] <==> has_node(nodes@, u as FileId)) by {
                        if u == t {
                            assert(nodes@[before.len() as int].id == t);
                        } else if has_node(nodes@, u as FileId) {
                            let j = choose|j: int| 0 <= j < nodes@.len() && (#[trigger] nodes@[j]).id == u as FileId;
                            assert(before[j].id == u as FileId);
                        } else if has_node(before, u as FileId) {
                            let j = choose|j: int| 0 <= j < before.len() && (#[trigger] before[j]).id == u as FileId;
                            assert(nodes@[j].id == u as FileId);
                        }
                    }
                }
                k = k + 1;
            }
        }
        proof {
            lemma_trues_bound(seen@);
        }
        assert(nodes@ == expand(index, hops, start, q as int));
        q = q + 1;
    }
    nodes
}

/// Links in and out of a file.
pub open spec fn degree(index: &Index, id: FileId) -> int {
    (index.forward@[id as int]@.len() + index.back@[id as int]@.len()) as int
}

/// The order nodes leave in when the graph is capped: the farthest hop
/// first, and within it the nodes with the fewest links, then by path,
/// last first.
pub open spec fn drop_lt(index: &Index, nodes: Seq<Node>) -> spec_fn(usize, usize) -> bool {
    |a: usize, b: usize|
        {
            let (x, y) = (nodes[a as int], nodes[b as int]);
            y.hop < x.hop || (y.hop == x.hop && (degree(index, x.id) < degree(index, y.id) || (degree(index, x.id)
                == degree(index, y.id) && lex_less(index.files@[y.id as int].rel@, index.files@[x.id as int].rel@))))
        }
}

/// Every node but the root, in the order they leave.
pub open spec fn drop_order(index: &Index, nodes: Seq<Node>) -> Seq<usize> {
    sort_lt(Seq::new((nodes.len() - 1) as nat, |i: int| (i + 1) as usize), drop_lt(index, nodes))
}

/// The nodes among the first `k` whose index is not in `drop`, in order.
pub open spec fn keep_nodes(nodes: Seq<Node>, drop: Seq<usize>, k: int) -> Seq<Node>
    decreases k,
{
    if k <= 0 {
        seq![]
    } else {
        let r = keep_nodes(nodes, drop, k - 1);
        if drop.contains((k - 1) as usize) {
            r
        } else {
            r.push(nodes[k - 1])
        }
    }
}

/// How many of the first `k` indices are in `drop`.
pub open spec fn count_in(drop: Seq<usize>, k: int) -> nat
    decreases k,
{
    if k <= 0 {
        0
    } else {
        count_in(drop, k - 1) + if drop.contains((k - 1) as usize) { 1nat } else { 0nat }
    }
}

proof fn lemma_keep_count(nodes: Seq<Node>, drop: Seq<usize>, k: int)
    requires
        0 <= k <= nodes.len(),
    ensures
        keep_nodes(nodes, drop, k).len() + count_in(drop, k) == k,
        forall|i: int| 0 <= i < keep_nodes(nodes, drop, k).len() ==> nodes.contains(#[trigger] keep_nodes(nodes, drop, k)[i]),
        k >= 1 && !drop.contains(0usize) ==> keep_nodes(nodes, drop, k).len() >= 1 && keep_nodes(nodes, drop, k)[0] == nodes[0],
    decreases k,
{
    if k > 0 {
        lemma_keep_count(nodes, drop, k - 1);
        let r = keep_nodes(nodes, drop, k - 1);
        assert forall|i: int| 0 <= i < keep_nodes(nodes, drop, k).len() implies nodes.contains(
            #[trigger] keep_nodes(nodes, drop, k)[i],
        ) by {
            if i < r.len() {
                assert(keep_nodes(nodes, drop, k)[i] == r[i]);
            } else {
                assert(keep_nodes(nodes, drop, k)[i] == nodes[k - 1]);
            }
        }
        if k == 1 && !drop.contains(0usize) {
            assert(keep_nodes(nodes, drop, 0) =~= Seq::<Node>::empty());
        }
    }
}

/// The cap keeps the root: with any cap, the root stays first, every kept
/// node is one of the walk's, and the kept and the left out add up to the
/// walk.
pub proof fn lemma_cap_keeps_root(index: &Index, nodes: Seq<Node>, cap: Option<usize>)
    requires
        1 <= nodes.len() <= usize::MAX,
    ensures
        capped(index, nodes, cap).0.len() + capped(index, nodes, cap).1 == nodes.len(),
        capped(index, nodes, cap).0.len() >= 1,
        capped(index, nodes, cap).0[0] == nodes[0],
        forall|i: int| 0 <= i < capped(index, nodes, cap).0.len() ==> nodes.contains(#[trigger] capped(index, nodes, cap).0[i]),
{
    match cap {
        Some(c) => if nodes.len() > c {
            let k = if nodes.len() - c < nodes.len() - 1 { nodes.len() - c } else { nodes.len() - 1 };
            let all = Seq::new((nodes.len() - 1) as nat, |i: int| (i + 1) as usize);
            let order = drop_order(index, nodes);
            let drop = order.take(k);
            crate::order::lemma_sort_has(all, drop_lt(index, nodes), 0usize);
            crate::order::lemma_sort_len(all, drop_lt(index, nodes));
            if all.contains(0usize) {
                let i = choose|i: int| 0 <= i < all.len() && all[i] == 0usize;
                assert(all[i] == (i + 1) as usize);
                assert(false);
            }
            if drop.contains(0usize) {
                let j = choose|j: int| 0 <= j < drop.len() && drop[j] == 0usize;
                assert(order[j] == 0usize);
                assert(order.contains(0usize));
            }
            lemma_keep_count(nodes, drop, nodes.len() as int);
        } else {
            assert(nodes.contains(nodes[0]));
            assert forall|i: int| 0 <= i < nodes.len() implies nodes.contains(#[trigger] nodes[i]) by {}
        },
        None => {
            assert forall|i: int| 0 <= i < nodes.len() implies nodes.contains(#[trigger] nodes[i]) by {}
        },
    }
}

/// The positions of the nodes that a cap of `c` leaves out: the first of
/// the drop order, as many as go past the cap, the root never among them.
pub open spec fn dropped(index: &Index, nodes: Seq<Node>, c: usize) -> Seq<usize> {
    let k = if nodes.len() - c < nodes.len() - 1 { nodes.len() - c } else { nodes.len() - 1 };
    drop_order(index, nodes).take(k)
}

/// The cap cuts the farthest hop first: when the walk goes past the cap,
/// every node left out is at least as many hops from the root as every node
/// kept, the root aside.
pub proof fn lemma_cap_farthest_first(index: &Index, nodes: Seq<Node>, c: usize, d: usize, i: usize)
    requires
        c < nodes.len() <= usize::MAX,
        dropped(index, nodes, c).contains(d),
        0 < i < nodes.len(),
        !dropped(index, nodes, c).contains(i),
    ensures
        0 < d < nodes.len(),
        capped(index, nodes, Some(c)).0 == keep_nodes(nodes, dropped(index, nodes, c), nodes.len() as int),
        nodes[d as int].hop >= nodes[i as int].hop,
{
    let lt = drop_lt(index, nodes);
    let f = |a: usize| nodes[a as int].hop as int;
    let all = Seq::new((nodes.len() - 1) as nat, |j: int| (j + 1) as usize);
    let order = drop_order(index, nodes);
    let drop = dropped(index, nodes, c);
    let k = if nodes.len() - c < nodes.len() - 1 { nodes.len() - c } else { nodes.len() - 1 };
    assert forall|a: usize, b: usize| #[trigger] lt(a, b) implies f(a) >= f(b) by {}
    assert forall|a: usize, b: usize| f(a) > f(b) implies #[trigger] lt(a, b) by {}
    crate::order::lemma_sort_keyed(all, lt, f);
    crate::order::lemma_sort_len(all, lt);
    let pa = choose|pa: int| 0 <= pa < drop.len() && drop[pa] == d;
    assert(order[pa] == d);
    crate::order::lemma_sort_has(all, lt, d);
    assert(order.contains(d));
    let j = choose|j: int| 0 <= j < all.len() && all[j] == d;
    assert(all[j] == (j + 1) as usize);
    assert(all[i - 1] == i);
    crate::order::lemma_sort_has(all, lt, i);
    let pb = choose|pb: int| 0 <= pb < order.len() && order[pb] == i;
    if pb < k {
        assert(drop[pb] == i);
    }
    assert(f(order[pa]) >= f(order[pb]));
}

/// The positions among the first `k` that `drop` does not hold, in order:
/// where the nodes `keep_nodes` keeps stood.
pub open spec fn kept_positions(drop: Seq<usize>, k: int) -> Seq<int>
    decreases k,
{
    if k <= 0 {
        seq![]
    } else {
        let r = kept_positions(drop, k - 1);
        if drop.contains((k - 1) as usize) {
            r
        } else {
            r.push(k - 1)
        }
    }
}

proof fn lemma_kept_positions(nodes: Seq<Node>, drop: Seq<usize>, k: int)
    requires
        0 <= k <= nodes.len(),
    ensures
        kept_positions(drop, k).len() == keep_nodes(nodes, drop, k).len(),
        forall|a: int|
            0 <= a < kept_positions(drop, k).len() ==> 0 <= #[trigger] kept_positions(drop, k)[a] < k
                && keep_nodes(nodes, drop, k)[a] == nodes[kept_positions(drop, k)[a]]
                && !drop.contains(kept_positions(drop, k)[a] as usize),
        forall|a: int, b: int|
            0 <= a < b < kept_positions(drop, k).len() ==> #[trigger] kept_positions(drop, k)[a]
                < #[trigger] kept_positions(drop, k)[b],
    decreases k,
{
    if k > 0 {
        lemma_kept_positions(nodes, drop, k - 1);
    }
}

proof fn lemma_count_in_ext(d1: Seq<usize>, d2: Seq<usize>, m: int)
    requires
        forall|i: usize| i < m ==> #[trigger] d1.contains(i) == d2.contains(i),
    ensures
        count_in(d1, m) == count_in(d2, m),
    decreases m,
{
    if m > 0 {
        lemma_count_in_ext(d1, d2, m - 1);
    }
}

/// Distinct positions below `m` are all counted.
proof fn lemma_count_all(d: Seq<usize>, m: int)
    requires
        0 <= m <= usize::MAX,
        d.no_duplicates(),
        forall|x: int| 0 <= x < d.len() ==> (#[trigger] d[x]) < m,
    ensures
        count_in(d, m) == d.len(),
    decreases m,
{
    if m == 0 {
        if d.len() > 0 {
            assert(d[0] < m);
        }
    } else if d.contains((m - 1) as usize) {
        let idx = choose|idx: int| 0 <= idx < d.len() && d[idx] == (m - 1) as usize;
        let d2 = d.remove(idx);
        assert forall|x: int| 0 <= x < d2.len() implies (#[trigger] d2[x]) < m - 1 by {
            if x < idx {
                assert(d2[x] == d[x]);
            } else {
                assert(d2[x] == d[x + 1]);
            }
        }
        assert forall|x: int, y: int| 0 <= x < d2.len() && 0 <= y < d2.len() && x != y implies d2[x] != d2[y] by {
            let xo = if x < idx { x } else { x + 1 };
            let yo = if y < idx { y } else { y + 1 };
            assert(d2[x] == d[xo] && d2[y] == d[yo]);
        }
        assert(d2.no_duplicates());
        assert forall|i: usize| i < m - 1 implies #[trigger] d.contains(i) == d2.contains(i) by {
            if d.contains(i) {
                let x = choose|x: int| 0 <= x < d.len() && d[x] == i;
                assert(x != idx);
                if x < idx {
                    assert(d2[x] == d[x]);
                } else {
                    assert(d2[x - 1] == d[x]);
                }
            }
            if d2.contains(i) {
                let x = choose|x: int| 0 <= x < d2.len() && d2[x] == i;
                if x < idx {
                    assert(d[x] == d2[x]);
                } else {
                    assert(d[x + 1] == d2[x]);
                }
            }
        }
        lemma_count_in_ext(d, d2, m - 1);
        lemma_count_all(d2, m - 1);
    } else {
        assert forall|x: int| 0 <= x < d.len() implies (#[trigger] d[x]) < m - 1 by {
            if d[x] == (m - 1) as usize {
                assert(d.contains((m - 1) as usize));
            }
        }
        lemma_count_all(d, m - 1);
    }
}

/// The cap, whole: past a cap of `c` (at least one), exactly the nodes
/// beyond it leave and `c` stay; those that stay are the walk's nodes at
/// ascending positions, the root first; and every node that leaves is at
/// least as many hops out as every node that stays, the root aside. Within
/// the cap, every node stays. (`local_of` with a cap is this, applied to
/// `local_of` without one.)
pub proof fn lemma_cap_law(index: &Index, nodes: Seq<Node>, c: usize)
    requires
        1 <= nodes.len() <= usize::MAX,
        c >= 1,
    ensures
        nodes.len() <= c ==> capped(index, nodes, Some(c)) == (nodes, 0nat),
        nodes.len() > c ==> ({
            let kept = capped(index, nodes, Some(c)).0;
            let pos = kept_positions(dropped(index, nodes, c), nodes.len() as int);
            &&& capped(index, nodes, Some(c)).1 == nodes.len() - c
            &&& kept.len() == c
            &&& pos.len() == c
            &&& pos[0] == 0
            &&& forall|a: int| 0 <= a < c ==> 0 <= #[trigger] pos[a] < nodes.len() && kept[a] == nodes[pos[a]]
            &&& forall|a: int, b: int| 0 <= a < b < c ==> #[trigger] pos[a] < #[trigger] pos[b]
            &&& forall|a: int, d: usize|
                1 <= a < c && #[trigger] dropped(index, nodes, c).contains(d) ==> 0 < d < nodes.len() && nodes[d as int].hop
                    >= (#[trigger] kept[a]).hop
        }),
{
    if nodes.len() > c {
        let n = nodes.len();
        let k = n - c;
        let lt = drop_lt(index, nodes);
        let all = Seq::new((n - 1) as nat, |j: int| (j + 1) as usize);
        let order = drop_order(index, nodes);
        let drop = dropped(index, nodes, c);
        assert forall|x: int, y: int| 0 <= x < all.len() && 0 <= y < all.len() && x != y implies all[x] != all[y] by {}
        assert(all.no_duplicates());
        crate::order::lemma_sort_distinct(all, lt);
        crate::order::lemma_sort_len(all, lt);
        assert(drop =~= order.take(k as int));
        assert forall|x: int| 0 <= x < drop.len() implies (#[trigger] drop[x]) < n && drop[x] > 0 by {
            assert(drop[x] == order[x]);
            crate::order::lemma_sort_has(all, lt, order[x]);
            assert(order.contains(order[x]));
            let j = choose|j: int| 0 <= j < all.len() && all[j] == order[x];
            assert(all[j] == (j + 1) as usize);
        }
        assert forall|x: int, y: int| 0 <= x < drop.len() && 0 <= y < drop.len() && x != y implies drop[x] != drop[y] by {
            assert(drop[x] == order[x] && drop[y] == order[y]);
        }
        assert(drop.no_duplicates());
        lemma_count_all(drop, n as int);
        lemma_cap_keeps_root(index, nodes, Some(c));
        lemma_keep_count(nodes, drop, n as int);
        lemma_kept_positions(nodes, drop, n as int);
        let kept = capped(index, nodes, Some(c)).0;
        let pos = kept_positions(drop, n as int);
        assert(!drop.contains(0usize)) by {
            if drop.contains(0usize) {
                let x = choose|x: int| 0 <= x < drop.len() && drop[x] == 0usize;
                assert(drop[x] > 0);
            }
        }
        // The root stands first.
        if pos[0] != 0 {
            assert(!drop.contains(0usize));
            lemma_first_kept(drop, n as int);
        }
        assert forall|a: int, d: usize|
            1 <= a < c && #[trigger] drop.contains(d) implies 0 < d < n && nodes[d as int].hop >= (#[trigger] kept[a]).hop by {
            let x = choose|x: int| 0 <= x < drop.len() && drop[x] == d;
            assert(drop[x] == d);
            assert(pos[0] < pos[a]);
            lemma_cap_farthest_first(index, nodes, c, d, pos[a] as usize);
        }
    }
}

/// When position 0 is not dropped, it is the first kept.
proof fn lemma_first_kept(drop: Seq<usize>, k: int)
    requires
        k >= 1,
        !drop.contains(0usize),
    ensures
        kept_positions(drop, k).len() >= 1,
        kept_positions(drop, k)[0] == 0,
    decreases k,
{
    if k > 1 {
        lemma_first_kept(drop, k - 1);
    } else {
        assert(kept_positions(drop, 0) =~= Seq::<int>::empty());
    }
}

/// The nodes left when at most `cap` may stay, and how many went.
pub open spec fn capped(index: &Index, nodes: Seq<Node>, cap: Option<usize>) -> (Seq<Node>, nat) {
    match cap {
        Some(c) => if nodes.len() > c {
            let k = if nodes.len() - c < nodes.len() - 1 { nodes.len() - c } else { nodes.len() - 1 };
            let drop = drop_order(index, nodes).take(k);
            (keep_nodes(nodes, drop, nodes.len() as int), count_in(drop, nodes.len() as int))
        } else {
            (nodes, 0)
        },
        None => (nodes, 0),
    }
}

/// The links out of `node` to kept nodes, by target id.
pub open spec fn node_edges(index: &Index, kept: Seq<Node>, node: Node) -> Seq<(FileId, FileId)> {
    ids_where(index.files@.len() as int, |t: FileId| is_out(index, node.id as int, t as int) && has_node(kept, t)).map_values(
        |t: FileId| (node.id, t),
    )
}

/// The links out of the first `k` kept nodes.
pub open spec fn all_edges(index: &Index, kept: Seq<Node>, k: int) -> Seq<(FileId, FileId)>
    decreases k,
{
    if k <= 0 {
        seq![]
    } else {
        all_edges(index, kept, k - 1) + node_edges(index, kept, kept[k - 1])
    }
}

/// Edges by source path, then target path.
pub open spec fn edge_lt(index: &Index) -> spec_fn((FileId, FileId), (FileId, FileId)) -> bool {
    |a: (FileId, FileId), b: (FileId, FileId)|
        {
            let (a0, a1) = (index.files@[a.0 as int].rel@, index.files@[a.1 as int].rel@);
            let (b0, b1) = (index.files@[b.0 as int].rel@, index.files@[b.1 as int].rel@);
            lex_less(a0, b0) || (a0 == b0 && lex_less(a1, b1))
        }
}

/// Runs of equal neighbours collapsed to one.
pub open spec fn dedup<A>(s: Seq<A>) -> Seq<A>
    decreases s.len(),
{
    if s.len() == 0 {
        seq![]
    } else {
        let r = dedup(s.drop_last());
        if r.len() > 0 && r.last() == s.last() {
            r
        } else {
            r.push(s.last())
        }
    }
}

/// Runs of equal elements of a sorted sequence, each kept once, leave it
/// strictly increasing; its last element is the sequence's last.
pub proof fn lemma_dedup_strict<A>(s: Seq<A>, lt: spec_fn(A, A) -> bool)
    requires
        crate::order::strict_total(lt),
        crate::order::sorted_by(s, lt),
    ensures
        forall|i: int, j: int| 0 <= i < j < dedup(s).len() ==> lt(#[trigger] dedup(s)[i], #[trigger] dedup(s)[j]),
        s.len() > 0 ==> dedup(s).len() > 0 && dedup(s).last() == s.last(),
    decreases s.len(),
{
    if s.len() > 0 {
        let t = s.drop_last();
        assert forall|i: int, j: int| 0 <= i < j < t.len() implies !lt(#[trigger] t[j], #[trigger] t[i]) by {
            assert(t[i] == s[i] && t[j] == s[j]);
        }
        lemma_dedup_strict(t, lt);
        let d = dedup(t);
        if !(d.len() > 0 && d.last() == s.last()) {
            let r = d.push(s.last());
            assert(dedup(s) == r);
            assert forall|i: int, j: int| 0 <= i < j < r.len() implies lt(#[trigger] r[i], #[trigger] r[j]) by {
                if j == r.len() - 1 {
                    let n = s.len();
                    assert(d.last() == s[n - 2]);
                    assert(!lt(s[n - 1], s[n - 2]));
                    assert(lt(s[n - 2], s[n - 1]));
                    if i < d.len() - 1 {
                        assert(lt(d[i], d[d.len() - 1]));
                    }
                } else {
                    assert(r[i] == d[i] && r[j] == d[j]);
                }
            }
        }
    }
}

/// The local graph: the walk, capped, and the links among what is left.
pub open spec fn local_of(index: &Index, root: FileId, hops: u32, cap: Option<usize>) -> (Seq<Node>, Seq<(FileId, FileId)>, nat) {
    let nodes = bfs(index, hops, seq![root_node(root)], 0);
    let (kept, left_out) = capped(index, nodes, cap);
    (kept, dedup(sort_lt(all_edges(index, kept, kept.len() as int), edge_lt(index))), left_out)
}

/// Whether node `a` leaves before node `b`.
fn drop_before(index: &Index, nodes: &[Node], a: usize, b: usize) -> (r: bool)
    requires
        index.wf(),
        a < nodes@.len(),
        b < nodes@.len(),
        forall|k: int| 0 <= k < nodes@.len() ==> (#[trigger] nodes@[k]).id < index.files@.len(),
    ensures
        r == drop_lt(index, nodes@)(a, b),
{
    let (x, y) = (nodes[a], nodes[b]);
    assert(nodes@[a as int].id < index.files@.len() && nodes@[b as int].id < index.files@.len());
    if y.hop < x.hop {
        return true;
    }
    if y.hop != x.hop {
        return false;
    }
    let dx = (index.forward[x.id].len() as u128) + (index.back[x.id].len() as u128);
    let dy = (index.forward[y.id].len() as u128) + (index.back[y.id].len() as u128);
    if dx < dy {
        return true;
    }
    if dx != dy {
        return false;
    }
    assert(index.rels@[y.id as int]@ == index.files@[y.id as int].rel@);
    assert(index.rels@[x.id as int]@ == index.files@[x.id as int].rel@);
    lex_less_exec(index.rels[y.id].as_slice(), index.rels[x.id].as_slice())
}

/// The nodes left when at most `cap` may stay, and how many went.
fn cap_nodes(index: &Index, nodes: Vec<Node>, cap: Option<usize>) -> (r: (Vec<Node>, usize))
    requires
        index.wf(),
        forall|k: int| 0 <= k < nodes@.len() ==> (#[trigger] nodes@[k]).id < index.files@.len(),
    ensures
        (r.0@, r.1 as nat) == capped(index, nodes@, cap),
        forall|k: int| 0 <= k < r.0@.len() ==> (#[trigger] r.0@[k]).id < index.files@.len(),
{
    let c = match cap {
        Some(c) => c,
        None => return (nodes, 0),
    };
    let len = nodes.len();
    if len <= c {
        return (nodes, 0);
    }
    let ghost lt = drop_lt(index, nodes@);
    let ghost all = Seq::new((len - 1) as nat, |i: int| (i + 1) as usize);
    let mut order: Vec<usize> = Vec::new();
    let mut i: usize = 1;
    while i < len
        invariant
            index.wf(),
            len == nodes@.len(),
            forall|k: int| 0 <= k < nodes@.len() ==> (#[trigger] nodes@[k]).id < index.files@.len(),
            lt == drop_lt(index, nodes@),
            all == Seq::new((len - 1) as nat, |i: int| (i + 1) as usize),
            1 <= i <= len,
            order@ == sort_lt(all.take(i - 1), lt),
            forall|k: int| 0 <= k < order@.len() ==> 1 <= #[trigger] order@[k] < len,
        decreases len - i,
    {
        let mut p: usize = 0;
        while p < order.len() && !drop_before(index, nodes.as_slice(), i, order[p])
            invariant
                index.wf(),
                len == nodes@.len(),
                forall|k: int| 0 <= k < nodes@.len() ==> (#[trigger] nodes@[k]).id < index.files@.len(),
                lt == drop_lt(index, nodes@),
                1 <= i < len,
                p <= order@.len(),
                forall|k: int| 0 <= k < order@.len() ==> 1 <= #[trigger] order@[k] < len,
                forall|k: int| 0 <= k < p ==> !lt(i, #[trigger] order@[k]),
            decreases order.len() - p,
        {
            p = p + 1;
        }
        proof {
            lemma_insert_lt(order@, i, lt, p as int);
            assert(all.take(i as int).drop_last() =~= all.take(i - 1));
            assert(all.take(i as int).last() == i);
        }
        order.insert(p, i);
        i = i + 1;
    }
    assert(all.take(len - 1) =~= all);
    assert(order@ == drop_order(index, nodes@));
    let k = if len - c < len - 1 { len - c } else { len - 1 };
    proof {
        crate::order::lemma_sort_len(all, lt);
    }
    let ghost drop = order@.take(k as int);
    let mut dropped = falses(len);
    let mut j: usize = 0;
    while j < k
        invariant
            k <= order@.len(),
            drop == order@.take(k as int),
            forall|q: int| 0 <= q < order@.len() ==> 1 <= #[trigger] order@[q] < len,
            j <= k,
            dropped@.len() == len,
            forall|t: int| 0 <= t < len ==> (#[trigger] dropped@[t] <==> order@.take(j as int).contains(t as usize)),
        decreases k - j,
    {
        let t = order[j];
        dropped.set(t, true);
        assert forall|u: int| 0 <= u < len implies (#[trigger] dropped@[u] <==> order@.take(j + 1).contains(u as usize)) by {
            if order@.take(j + 1).contains(u as usize) {
                let q = choose|q: int| 0 <= q < order@.take(j + 1).len() && #[trigger] order@.take(j + 1)[q] == u as usize;
                if q < j {
                    assert(order@.take(j as int)[q] == u as usize);
                }
            }
            if order@.take(j as int).contains(u as usize) {
                let q = choose|q: int| 0 <= q < order@.take(j as int).len() && #[trigger] order@.take(j as int)[q] == u as usize;
                assert(order@.take(j + 1)[q] == u as usize);
            }
            if u == t {
                assert(order@.take(j + 1)[j as int] == t);
            }
        }
        j = j + 1;
    }
    let mut kept: Vec<Node> = Vec::new();
    let mut gone: usize = 0;
    let mut q: usize = 0;
    while q < len
        invariant
            len == nodes@.len(),
            forall|t: int| 0 <= t < nodes@.len() ==> (#[trigger] nodes@[t]).id < index.files@.len(),
            dropped@.len() == len,
            forall|t: int| 0 <= t < len ==> (#[trigger] dropped@[t] <==> drop.contains(t as usize)),
            q <= len,
            kept@ == keep_nodes(nodes@, drop, q as int),
            gone as nat == count_in(drop, q as int),
            gone <= q,
            forall|t: int| 0 <= t < kept@.len() ==> (#[trigger] kept@[t]).id < index.files@.len(),
        decreases len - q,
    {
        if dropped[q] {
            gone = gone + 1;
        } else {
            kept.push(nodes[q]);
        }
        q = q + 1;
    }
    (kept, gone)
}

/// The links among the kept nodes, by path, each once.
fn edges_of(index: &Index, kept: &[Node]) -> (r: Vec<(FileId, FileId)>)
    requires
        index.wf(),
        forall|k: int| 0 <= k < kept@.len() ==> (#[trigger] kept@[k]).id < index.files@.len(),
    ensures
        r@ == dedup(sort_lt(all_edges(index, kept@, kept@.len() as int), edge_lt(index))),
{
    let n = index.files.len();
    let mut inc = falses(n);
    let mut k: usize = 0;
    while k < kept.len()
        invariant
            n == index.files@.len(),
            forall|j: int| 0 <= j < kept@.len() ==> (#[trigger] kept@[j]).id < n,
            k <= kept@.len(),
            inc@.len() == n,
            forall|t: int| 0 <= t < n ==> (#[trigger] inc@[t] <==> has_node(kept@.take(k as int), t as FileId)),
        decreases kept.len() - k,
    {
        inc.set(kept[k].id, true);
        assert forall|t: int| 0 <= t < n implies (#[trigger] inc@[t] <==> has_node(kept@.take(k + 1), t as FileId)) by {
            if has_node(kept@.take(k + 1), t as FileId) {
                let j = choose|j: int| 0 <= j < kept@.take(k + 1).len() && (#[trigger] kept@.take(k + 1)[j]).id == t as FileId;
                if j < k {
                    assert(kept@.take(k as int)[j].id == t as FileId);
                }
            }
            if has_node(kept@.take(k as int), t as FileId) {
                let j = choose|j: int| 0 <= j < kept@.take(k as int).len() && (#[trigger] kept@.take(k as int)[j]).id == t as FileId;
                assert(kept@.take(k + 1)[j].id == t as FileId);
            }
            if t == kept@[k as int].id {
                assert(kept@.take(k + 1)[k as int].id == t as FileId);
            }
        }
        k = k + 1;
    }
    assert(kept@.take(kept@.len() as int) =~= kept@);
    let mut list: Vec<(FileId, FileId)> = Vec::new();
    let mut k: usize = 0;
    while k < kept.len()
        invariant
            index.wf(),
            n == index.files@.len(),
            forall|j: int| 0 <= j < kept@.len() ==> (#[trigger] kept@[j]).id < n,
            inc@.len() == n,
            forall|t: int| 0 <= t < n ==> (#[trigger] inc@[t] <==> has_node(kept@, t as FileId)),
            k <= kept@.len(),
            list@ == all_edges(index, kept@, k as int),
            forall|j: int| 0 <= j < list@.len() ==> (#[trigger] list@[j]).0 < n && list@[j].1 < n,
        decreases kept.len() - k,
    {
        let node = kept[k];
        let outs = out_marks(index, node.id);
        let ghost p = |t: FileId| is_out(index, node.id as int, t as int) && has_node(kept@, t);
        let ghost base = list@;
        let mut t: usize = 0;
        while t < n
            invariant
                n == index.files@.len(),
                outs@.len() == n,
                inc@.len() == n,
                forall|u: int| 0 <= u < n ==> #[trigger] outs@[u] == is_out(index, node.id as int, u),
                forall|u: int| 0 <= u < n ==> (#[trigger] inc@[u] <==> has_node(kept@, u as FileId)),
                p == (|t: FileId| is_out(index, node.id as int, t as int) && has_node(kept@, t)),
                node.id < n,
                t <= n,
                list@ == base + ids_where(t as int, p).map_values(|u: FileId| (node.id, u)),
                forall|j: int| 0 <= j < list@.len() ==> (#[trigger] list@[j]).0 < n && list@[j].1 < n,
                forall|j: int| 0 <= j < base.len() ==> (#[trigger] base[j]).0 < n && base[j].1 < n,
            decreases n - t,
        {
            let ghost before = list@;
            if outs[t] && inc[t] {
                list.push((node.id, t));
                assert(ids_where(t + 1, p).map_values(|u: FileId| (node.id, u)) =~= ids_where(t as int, p).map_values(
                    |u: FileId| (node.id, u),
                ).push((node.id, t)));
                assert(list@ =~= base + ids_where(t + 1, p).map_values(|u: FileId| (node.id, u)));
            } else {
                assert(ids_where(t + 1, p) =~= ids_where(t as int, p));
            }
            t = t + 1;
        }
        assert(list@ == all_edges(index, kept@, k + 1));
        k = k + 1;
    }
    let sorted = sort_edges(index, list.as_slice());
    // Consecutive repeats go.
    let mut out: Vec<(FileId, FileId)> = Vec::new();
    let mut i: usize = 0;
    while i < sorted.len()
        invariant
            i <= sorted@.len(),
            out@ == dedup(sorted@.take(i as int)),
        decreases sorted.len() - i,
    {
        assert(sorted@.take(i + 1).drop_last() =~= sorted@.take(i as int));
        assert(sorted@.take(i + 1).last() == sorted@[i as int]);
        let e = sorted[i];
        if !(out.len() > 0 && out[out.len() - 1].0 == e.0 && out[out.len() - 1].1 == e.1) {
            out.push(e);
        }
        i = i + 1;
    }
    assert(sorted@.take(sorted@.len() as int) =~= sorted@);
    out
}

/// A stable sort of edges by path.
fn sort_edges(index: &Index, es: &[(FileId, FileId)]) -> (r: Vec<(FileId, FileId)>)
    requires
        index.wf(),
        forall|j: int| 0 <= j < es@.len() ==> (#[trigger] es@[j]).0 < index.files@.len() && es@[j].1 < index.files@.len(),
    ensures
        r@ == sort_lt(es@, edge_lt(index)),
{
    let ghost lt = edge_lt(index);
    let mut out: Vec<(FileId, FileId)> = Vec::new();
    let mut i: usize = 0;
    while i < es.len()
        invariant
            index.wf(),
            i <= es@.len(),
            lt == edge_lt(index),
            forall|j: int| 0 <= j < es@.len() ==> (#[trigger] es@[j]).0 < index.files@.len() && es@[j].1 < index.files@.len(),
            out@ == sort_lt(es@.take(i as int), lt),
            forall|j: int| 0 <= j < out@.len() ==> (#[trigger] out@[j]).0 < index.files@.len() && out@[j].1 < index.files@.len(),
        decreases es.len() - i,
    {
        let x = es[i];
        let mut p: usize = 0;
        while p < out.len() && !edge_before(index, x, out[p])
            invariant
                index.wf(),
                p <= out@.len(),
                lt == edge_lt(index),
                x.0 < index.files@.len() && x.1 < index.files@.len(),
                forall|j: int| 0 <= j < out@.len() ==> (#[trigger] out@[j]).0 < index.files@.len() && out@[j].1 < index.files@.len(),
                forall|j: int| 0 <= j < p ==> !lt(x, #[trigger] out@[j]),
            decreases out.len() - p,
        {
            p = p + 1;
        }
        proof {
            lemma_insert_lt(out@, x, lt, p as int);
            assert(es@.take(i + 1).drop_last() =~= es@.take(i as int));
            assert(es@.take(i + 1).last() == x);
        }
        out.insert(p, x);
        i = i + 1;
    }
    assert(es@.take(es@.len() as int) =~= es@);
    out
}

fn edge_before(index: &Index, a: (FileId, FileId), b: (FileId, FileId)) -> (r: bool)
    requires
        index.wf(),
        a.0 < index.files@.len() && a.1 < index.files@.len(),
        b.0 < index.files@.len() && b.1 < index.files@.len(),
    ensures
        r == edge_lt(index)(a, b),
{
    assert(index.rels@[a.0 as int]@ == index.files@[a.0 as int].rel@);
    assert(index.rels@[a.1 as int]@ == index.files@[a.1 as int].rel@);
    assert(index.rels@[b.0 as int]@ == index.files@[b.0 as int].rel@);
    assert(index.rels@[b.1 as int]@ == index.files@[b.1 as int].rel@);
    let (a0, a1) = (index.rels[a.0].as_slice(), index.rels[a.1].as_slice());
    let (b0, b1) = (index.rels[b.0].as_slice(), index.rels[b.1].as_slice());
    lex_less_exec(a0, b0) || (crate::text::chars_eq(a0, b0) && lex_less_exec(a1, b1))
}

/// The notes within `hops` links of `root`, following links both ways.
/// With a cap, the farthest hop leaves first, and within it the nodes with
/// the fewest links; the root stays.
pub fn local(index: &Index, root: FileId, hops: u32, cap: Option<usize>) -> (r: Local)
    requires
        index.wf(),
        root < index.files@.len(),
    ensures
        (r.nodes@, r.edges@, r.left_out as nat) == local_of(index, root, hops, cap),
        parents_first(r.nodes@),
        forall|k: int| 0 <= k < r.nodes@.len() ==> (#[trigger] r.nodes@[k]).id < index.files@.len(),
{
    let nodes = walk(index, root, hops);
    proof {
        lemma_reached_parents_first(nodes@);
        lemma_capped_parents_first(index, nodes@, cap);
    }
    let (kept, left_out) = cap_nodes(index, nodes, cap);
    let edges = edges_of(index, kept.as_slice());
    Local { nodes: kept, edges, left_out }
}

/// Every node comes after the node that reached it.
pub open spec fn parents_first(nodes: Seq<Node>) -> bool {
    forall|j: int, k: int|
        0 <= j < nodes.len() && 0 <= k < nodes.len() && #[trigger] nodes[j].parent == Some(#[trigger] nodes[k].id) ==> j > k
}

/// The positions after `p` whose node `p` reached, ascending.
pub open spec fn kid_positions(nodes: Seq<Node>, p: int, k: int) -> Seq<int>
    decreases k - p,
{
    if k <= p + 1 || k > nodes.len() || p < 0 {
        seq![]
    } else {
        let r = kid_positions(nodes, p, k - 1);
        if nodes[k - 1].parent == Some(nodes[p].id) {
            r.push(k - 1)
        } else {
            r
        }
    }
}

/// Node positions by path.
pub open spec fn pos_lt(index: &Index, nodes: Seq<Node>) -> spec_fn(int, int) -> bool {
    |a: int, b: int| lex_less(index.files@[nodes[a].id as int].rel@, index.files@[nodes[b].id as int].rel@)
}

/// The nodes `p` reached, by path.
pub open spec fn kids(index: &Index, nodes: Seq<Node>, p: int) -> Seq<int> {
    sort_lt(kid_positions(nodes, p, nodes.len() as int), pos_lt(index, nodes))
}

/// Two spaces per hop.
pub open spec fn indent(hop: nat) -> Seq<char>
    decreases hop,
{
    if hop == 0 {
        seq![]
    } else {
        indent((hop - 1) as nat) + seq![' ', ' ']
    }
}

/// A node's line in the tree: indented by hop, its mark, its path.
pub open spec fn node_line(index: &Index, n: Node) -> Seq<char> {
    indent(n.hop as nat) + arrow_of(n.mark) + seq![' '] + index.files@[n.id as int].rel@
}

/// The lines under node `p`.
pub open spec fn walk_lines(index: &Index, nodes: Seq<Node>, p: int) -> Seq<Seq<char>>
    decreases nodes.len() - p, 1int, 0int,
{
    kid_lines(index, nodes, p, kids(index, nodes, p), 0)
}

/// The lines of kids `i..` of node `p`, each followed by its own.
pub open spec fn kid_lines(index: &Index, nodes: Seq<Node>, p: int, ks: Seq<int>, i: int) -> Seq<Seq<char>>
    decreases nodes.len() - p, 0int, ks.len() - i,
{
    if i < 0 || i >= ks.len() {
        seq![]
    } else {
        let k = ks[i];
        if k <= p || k >= nodes.len() {
            seq![]
        } else {
            seq![node_line(index, nodes[k])] + walk_lines(index, nodes, k) + kid_lines(index, nodes, p, ks, i + 1)
        }
    }
}

/// The tree's lines: the root's path, the nodes under it, and how many
/// were left out.
pub open spec fn tree_of(index: &Index, local: &Local) -> Seq<Seq<char>> {
    if local.nodes@.len() == 0 {
        seq![]
    } else {
        let body = seq![index.files@[local.nodes@[0].id as int].rel@] + walk_lines(index, local.nodes@, 0);
        if local.left_out > 0 {
            body.push(seq!['('] + crate::text::decimal(local.left_out as nat) + seq![' ', 'm', 'o', 'r', 'e', ' ', 'n', 'o', 't', ' ', 's', 'h', 'o', 'w', 'n', ')'])
        } else {
            body
        }
    }
}

fn node_line_exec(index: &Index, n: Node) -> (r: String)
    requires
        n.id < index.files@.len(),
    ensures
        r@ == node_line(index, n),
{
    let mut out = String::new();
    let mut h: u32 = 0;
    while h < n.hop
        invariant
            h <= n.hop,
            out@ == indent(h as nat),
        decreases n.hop - h,
    {
        push_char(&mut out, ' ');
        push_char(&mut out, ' ');
        h = h + 1;
    }
    out.append(n.mark.arrow());
    push_char(&mut out, ' ');
    out.append(index.files[n.id].rel.as_str());
    out
}

fn walk_exec(index: &Index, nodes: &[Node], p: usize, lines: &mut Vec<String>)
    requires
        p < nodes@.len(),
        forall|k: int| 0 <= k < nodes@.len() ==> (#[trigger] nodes@[k]).id < index.files@.len(),
    ensures
        views(final(lines)@) == views(old(lines)@) + walk_lines(index, nodes@, p as int),
    decreases nodes@.len() - p,
{
    let ghost base = views(lines@);
    // The kids, in position order, then by path.
    let mut pos: Vec<usize> = Vec::new();
    assert(p < nodes.len());
    let mut k: usize = p + 1;
    while k < nodes.len()
        invariant
            p < k <= nodes@.len(),
            pos@.map_values(|x: usize| x as int) == kid_positions(nodes@, p as int, k as int),
            forall|j: int| 0 <= j < pos@.len() ==> p < #[trigger] pos@[j] < nodes@.len(),
        decreases nodes.len() - k,
    {
        let ghost before = pos@.map_values(|x: usize| x as int);
        if nodes[k].parent == Some(nodes[p].id) {
            pos.push(k);
            assert(pos@.map_values(|x: usize| x as int) =~= before.push(k as int));
        }
        k = k + 1;
    }
    let ghost lt = pos_lt(index, nodes@);
    let ghost all = pos@.map_values(|x: usize| x as int);
    let mut ks: Vec<usize> = Vec::new();
    let mut i: usize = 0;
    while i < pos.len()
        invariant
            i <= pos@.len(),
            all == pos@.map_values(|x: usize| x as int),
            lt == pos_lt(index, nodes@),
            forall|j: int| 0 <= j < pos@.len() ==> p < #[trigger] pos@[j] < nodes@.len(),
            forall|j: int| 0 <= j < ks@.len() ==> p < #[trigger] ks@[j] < nodes@.len(),
            forall|k: int| 0 <= k < nodes@.len() ==> (#[trigger] nodes@[k]).id < index.files@.len(),
            ks@.map_values(|x: usize| x as int) == sort_lt(all.take(i as int), lt),
        decreases pos.len() - i,
    {
        let x = pos[i];
        let mut q: usize = 0;
        while q < ks.len() && !lex_less_exec(
            crate::text::chars_of(index.files[nodes[x].id].rel.as_str()).as_slice(),
            crate::text::chars_of(index.files[nodes[ks[q]].id].rel.as_str()).as_slice(),
        )
            invariant
                q <= ks@.len(),
                lt == pos_lt(index, nodes@),
                p < x < nodes@.len(),
                forall|j: int| 0 <= j < ks@.len() ==> p < #[trigger] ks@[j] < nodes@.len(),
                forall|k: int| 0 <= k < nodes@.len() ==> (#[trigger] nodes@[k]).id < index.files@.len(),
                forall|j: int| 0 <= j < q ==> !lt(x as int, #[trigger] ks@[j] as int),
            decreases ks.len() - q,
        {
            q = q + 1;
        }
        let ghost kv = ks@.map_values(|y: usize| y as int);
        proof {
            assert forall|j: int| 0 <= j < q implies !lt(x as int, #[trigger] kv[j]) by {
                assert(kv[j] == ks@[j] as int);
            }
            if q < ks@.len() {
                assert(kv[q as int] == ks@[q as int] as int);
            }
            lemma_insert_lt(kv, x as int, lt, q as int);
            assert(all.take(i + 1).drop_last() =~= all.take(i as int));
            assert(all.take(i + 1).last() == x as int);
        }
        ks.insert(q, x);
        assert(ks@.map_values(|y: usize| y as int) =~= kv.insert(q as int, x as int));
        i = i + 1;
    }
    assert(all.take(pos@.len() as int) =~= all);
    let ghost kv = ks@.map_values(|y: usize| y as int);
    assert(kv == kids(index, nodes@, p as int));
    let mut j: usize = 0;
    assert(views(lines@) + kid_lines(index, nodes@, p as int, kv, 0) =~= base + kid_lines(index, nodes@, p as int, kv, 0));
    while j < ks.len()
        invariant
            p < nodes@.len(),
            kv == ks@.map_values(|y: usize| y as int),
            forall|q: int| 0 <= q < ks@.len() ==> p < #[trigger] ks@[q] < nodes@.len(),
            forall|k: int| 0 <= k < nodes@.len() ==> (#[trigger] nodes@[k]).id < index.files@.len(),
            j <= ks@.len(),
            views(lines@) + kid_lines(index, nodes@, p as int, kv, j as int) == base + kid_lines(index, nodes@, p as int, kv, 0),
        decreases ks.len() - j,
    {
        let k = ks[j];
        assert(kv[j as int] == k as int);
        let ghost before = views(lines@);
        let line = node_line_exec(index, nodes[k]);
        lines.push(line);
        assert(views(lines@) =~= before.push(line@));
        let ghost mid = views(lines@);
        walk_exec(index, nodes, k, lines);
        assert(views(lines@) + kid_lines(index, nodes@, p as int, kv, j + 1) =~= before + (seq![node_line(index, nodes@[k as int])]
            + walk_lines(index, nodes@, k as int) + kid_lines(index, nodes@, p as int, kv, j + 1)));
        j = j + 1;
    }
    assert(views(lines@) =~= views(lines@) + kid_lines(index, nodes@, p as int, kv, j as int));
}

/// The indented tree: the root's path, then each node under the node that
/// first reached it, two spaces per hop, with its mark.
/// `tree`, once the walk is checked: every node names a file and comes
/// after the node that reached it. `None` when it does not.
pub fn tree_checked(index: &Index, local: &Local) -> (r: Option<Vec<String>>)
    ensures
        r is Some <==> (forall|k: int| 0 <= k < local.nodes@.len() ==> (#[trigger] local.nodes@[k]).id < index.files@.len())
            && parents_first(local.nodes@),
        r matches Some(v) ==> views(v@) == tree_of(index, local),
{
    let mut i: usize = 0;
    while i < local.nodes.len()
        invariant
            i <= local.nodes@.len(),
            forall|k: int| 0 <= k < i ==> (#[trigger] local.nodes@[k]).id < index.files@.len(),
        decreases local.nodes.len() - i,
    {
        if local.nodes[i].id >= index.files.len() {
            assert(!(local.nodes@[i as int].id < index.files@.len()));
            return None;
        }
        i = i + 1;
    }
    let mut j: usize = 0;
    while j < local.nodes.len()
        invariant
            j <= local.nodes@.len(),
            forall|a: int, b: int|
                0 <= a < j && 0 <= b < local.nodes@.len() && #[trigger] local.nodes@[a].parent == Some(#[trigger] local.nodes@[b].id) ==> a > b,
        decreases local.nodes.len() - j,
    {
        let mut k: usize = 0;
        while k < local.nodes.len()
            invariant
                k <= local.nodes@.len(),
                j < local.nodes@.len(),
                forall|a: int, b: int|
                    0 <= a < j && 0 <= b < local.nodes@.len() && #[trigger] local.nodes@[a].parent == Some(#[trigger] local.nodes@[b].id) ==> a > b,
                forall|b: int| 0 <= b < k && local.nodes@[j as int].parent == Some(#[trigger] local.nodes@[b].id) ==> j > b,
            decreases local.nodes.len() - k,
        {
            let hit = match local.nodes[j].parent {
                Some(p) => p == local.nodes[k].id,
                None => false,
            };
            if hit && j <= k {
                assert(local.nodes@[j as int].parent == Some(local.nodes@[k as int].id));
                assert(!parents_first(local.nodes@));
                return None;
            }
            k = k + 1;
        }
        j = j + 1;
    }
    Some(tree(index, local))
}

pub fn tree(index: &Index, local: &Local) -> (r: Vec<String>)
    requires
        forall|k: int| 0 <= k < local.nodes@.len() ==> (#[trigger] local.nodes@[k]).id < index.files@.len(),
        parents_first(local.nodes@),
    ensures
        views(r@) == tree_of(index, local),
{
    let mut lines: Vec<String> = Vec::new();
    if local.nodes.len() == 0 {
        assert(views(lines@) =~= Seq::<Seq<char>>::empty());
        return lines;
    }
    let root = local.nodes[0];
    let first = crate::text::owned(index.files[root.id].rel.as_str());
    lines.push(first);
    assert(views(lines@) =~= seq![first@]);
    walk_exec(index, local.nodes.as_slice(), 0, &mut lines);
    assert(views(lines@) == seq![index.files@[local.nodes@[0].id as int].rel@] + walk_lines(index, local.nodes@, 0));
    if local.left_out > 0 {
        let mut last = String::new();
        push_char(&mut last, '(');
        let n = crate::text::decimal_string(local.left_out as u64);
        last.append(n.as_str());
        last.append(" more not shown)");
        proof {
            reveal_strlit(" more not shown)");
            assert(n@ == crate::text::decimal(local.left_out as nat));
            assert(last@ =~= seq!['('] + crate::text::decimal(local.left_out as nat) + seq![' ', 'm', 'o', 'r', 'e', ' ', 'n', 'o', 't', ' ', 's', 'h', 'o', 'w', 'n', ')']);
        }
        let ghost before = views(lines@);
        lines.push(last);
        assert(views(lines@) =~= before.push(last@));
    }
    lines
}

/// `\` and `"` escaped with a backslash.
pub open spec fn escape_quoted(s: Seq<char>) -> Seq<char>
    decreases s.len(),
{
    if s.len() == 0 {
        seq![]
    } else {
        let c = s.last();
        escape_quoted(s.drop_last()) + if c == '\\' {
            seq!['\\', '\\']
        } else if c == '"' {
            seq!['\\', '"']
        } else {
            seq![c]
        }
    }
}

/// A Graphviz quoted id.
pub open spec fn quoted(s: Seq<char>) -> Seq<char> {
    seq!['"'] + escape_quoted(s) + seq!['"']
}

/// One `  "name";` line per name.
pub open spec fn node_decls(names: Seq<Seq<char>>) -> Seq<char>
    decreases names.len(),
{
    if names.len() == 0 {
        seq![]
    } else {
        node_decls(names.drop_last()) + seq![' ', ' '] + quoted(names.last()) + seq![';', '\n']
    }
}

/// One `  "a" -> "b";` line per edge.
pub open spec fn edge_decls(index: &Index, edges: Seq<(FileId, FileId)>) -> Seq<char>
    decreases edges.len(),
{
    if edges.len() == 0 {
        seq![]
    } else {
        let (a, b) = edges.last();
        edge_decls(index, edges.drop_last()) + seq![' ', ' '] + quoted(index.files@[a as int].rel@) + seq![
            ' ',
            '-',
            '>',
            ' ',
        ] + quoted(index.files@[b as int].rel@) + seq![';', '\n']
    }
}

/// Graphviz: the nodes sorted by path, then the edges.
pub open spec fn dot_of(index: &Index, local: &Local) -> Seq<char> {
    let names = sort_lt(
        local.nodes@.map_values(|n: Node| index.files@[n.id as int].rel@),
        |a: Seq<char>, b: Seq<char>| lex_less(a, b),
    );
    seq!['d', 'i', 'g', 'r', 'a', 'p', 'h', ' ', 'k', 'n', 'a', 'p', 'p', ' ', '{', '\n'] + node_decls(names) + edge_decls(
        index,
        local.edges@,
    ) + seq!['}', '\n']
}

fn push_quoted(out: &mut String, s: &str)
    ensures
        final(out)@ == old(out)@ + quoted(s@),
{
    let c = crate::text::chars_of(s);
    let ghost start = out@;
    push_char(out, '"');
    let mut i: usize = 0;
    while i < c.len()
        invariant
            i <= c@.len(),
            out@ == start + seq!['"'] + escape_quoted(c@.take(i as int)),
        decreases c.len() - i,
    {
        assert(c@.take(i + 1).drop_last() =~= c@.take(i as int));
        assert(c@.take(i + 1).last() == c@[i as int]);
        let ch = c[i];
        if ch == '\\' {
            push_char(out, '\\');
            push_char(out, '\\');
        } else if ch == '"' {
            push_char(out, '\\');
            push_char(out, '"');
        } else {
            push_char(out, ch);
        }
        assert(out@ =~= start + seq!['"'] + escape_quoted(c@.take(i + 1)));
        i = i + 1;
    }
    assert(c@.take(c@.len() as int) =~= c@);
    push_char(out, '"');
    assert(out@ =~= start + quoted(s@));
}

/// Graphviz: nodes sorted by path, then edges.
pub fn dot(index: &Index, local: &Local) -> (r: String)
    requires
        forall|k: int| 0 <= k < local.nodes@.len() ==> (#[trigger] local.nodes@[k]).id < index.files@.len(),
        forall|k: int| 0 <= k < local.edges@.len() ==> (#[trigger] local.edges@[k]).0 < index.files@.len() && local.edges@[k].1 < index.files@.len(),
    ensures
        r@ == dot_of(index, local),
{
    let ghost lt = |a: Seq<char>, b: Seq<char>| lex_less(a, b);
    let ghost all = local.nodes@.map_values(|n: Node| index.files@[n.id as int].rel@);
    let mut names: Vec<Vec<char>> = Vec::new();
    let mut i: usize = 0;
    while i < local.nodes.len()
        invariant
            i <= local.nodes@.len(),
            forall|k: int| 0 <= k < local.nodes@.len() ==> (#[trigger] local.nodes@[k]).id < index.files@.len(),
            all == local.nodes@.map_values(|n: Node| index.files@[n.id as int].rel@),
            lt == (|a: Seq<char>, b: Seq<char>| lex_less(a, b)),
            names@.map_values(|v: Vec<char>| v@) == sort_lt(all.take(i as int), lt),
        decreases local.nodes.len() - i,
    {
        let x = crate::text::chars_of(index.files[local.nodes[i].id].rel.as_str());
        let ghost nv = names@.map_values(|v: Vec<char>| v@);
        let mut p: usize = 0;
        while p < names.len() && !lex_less_exec(x.as_slice(), names[p].as_slice())
            invariant
                p <= names@.len(),
                nv == names@.map_values(|v: Vec<char>| v@),
                lt == (|a: Seq<char>, b: Seq<char>| lex_less(a, b)),
                forall|j: int| 0 <= j < p ==> !lt(x@, #[trigger] nv[j]),
            decreases names.len() - p,
        {
            assert(nv[p as int] == names@[p as int]@);
            p = p + 1;
        }
        proof {
            if p < names@.len() {
                assert(nv[p as int] == names@[p as int]@);
            }
            lemma_insert_lt(nv, x@, lt, p as int);
            assert(all.take(i + 1).drop_last() =~= all.take(i as int));
            assert(all.take(i + 1).last() == x@);
        }
        let ghost xv = x@;
        names.insert(p, x);
        assert(names@.map_values(|v: Vec<char>| v@) =~= nv.insert(p as int, xv));
        i = i + 1;
    }
    assert(all.take(local.nodes@.len() as int) =~= all);
    let ghost sorted = names@.map_values(|v: Vec<char>| v@);
    let mut out = String::new();
    out.append("digraph knapp {\n");
    proof {
        reveal_strlit("digraph knapp {\n");
        assert(out@ =~= seq!['d', 'i', 'g', 'r', 'a', 'p', 'h', ' ', 'k', 'n', 'a', 'p', 'p', ' ', '{', '\n']);
    }
    let ghost head = out@;
    let mut k: usize = 0;
    while k < names.len()
        invariant
            k <= names@.len(),
            sorted == names@.map_values(|v: Vec<char>| v@),
            out@ == head + node_decls(sorted.take(k as int)),
        decreases names.len() - k,
    {
        assert(sorted.take(k + 1).drop_last() =~= sorted.take(k as int));
        assert(sorted.take(k + 1).last() == names@[k as int]@);
        push_char(&mut out, ' ');
        push_char(&mut out, ' ');
        let s = crate::text::string_of(names[k].as_slice());
        push_quoted(&mut out, s.as_str());
        push_char(&mut out, ';');
        push_char(&mut out, '\n');
        assert(out@ =~= head + node_decls(sorted.take(k + 1)));
        k = k + 1;
    }
    assert(sorted.take(names@.len() as int) =~= sorted);
    let ghost mid = out@;
    let mut e: usize = 0;
    while e < local.edges.len()
        invariant
            e <= local.edges@.len(),
            forall|k: int| 0 <= k < local.edges@.len() ==> (#[trigger] local.edges@[k]).0 < index.files@.len() && local.edges@[k].1 < index.files@.len(),
            out@ == mid + edge_decls(index, local.edges@.take(e as int)),
        decreases local.edges.len() - e,
    {
        assert(local.edges@.take(e + 1).drop_last() =~= local.edges@.take(e as int));
        assert(local.edges@.take(e + 1).last() == local.edges@[e as int]);
        let (a, b) = local.edges[e];
        push_char(&mut out, ' ');
        push_char(&mut out, ' ');
        push_quoted(&mut out, index.files[a].rel.as_str());
        push_char(&mut out, ' ');
        push_char(&mut out, '-');
        push_char(&mut out, '>');
        push_char(&mut out, ' ');
        push_quoted(&mut out, index.files[b].rel.as_str());
        push_char(&mut out, ';');
        push_char(&mut out, '\n');
        assert(out@ =~= mid + edge_decls(index, local.edges@.take(e + 1)));
        e = e + 1;
    }
    assert(local.edges@.take(local.edges@.len() as int) =~= local.edges@);
    push_char(&mut out, '}');
    push_char(&mut out, '\n');
    out
}


/// `v` held within `0..n`.
pub open spec fn clamp_to(v: int, n: int) -> int {
    if v < 0 {
        0
    } else if v > n - 1 {
        n - 1
    } else {
        v
    }
}

/// The grid cell nearest to `(x, y)`.
pub open spec fn clamp_cell(x: int, y: int, cols: u16, rows: u16) -> (u16, u16) {
    (clamp_to(x, cols as int) as u16, clamp_to(y, rows as int) as u16)
}

/// The search for a free cell near `want`: rings of growing radius `r`
/// below `limit`, each walked by column offset `-r + i`, then by row offset
/// `-r + j`, every cell clamped into the grid; the first cell not in
/// `taken`, if any.
pub open spec fn search_cell(want: (i32, i32), cols: u16, rows: u16, taken: Seq<(u16, u16)>, limit: int, r: int, i: int, j: int) -> Option<(u16, u16)>
    decreases limit - r, 2 * r + 2 - i, 2 * r + 2 - j,
{
    if r < 0 || r >= limit || i < 0 || j < 0 {
        None
    } else if i > 2 * r {
        search_cell(want, cols, rows, taken, limit, r + 1, 0, 0)
    } else if j > 2 * r {
        search_cell(want, cols, rows, taken, limit, r, i + 1, 0)
    } else {
        let cell = clamp_cell(want.0 - r + i, want.1 - r + j, cols, rows);
        if taken.contains(cell) {
            search_cell(want, cols, rows, taken, limit, r, i, j + 1)
        } else {
            Some(cell)
        }
    }
}

/// The larger side of the grid.
pub open spec fn grid_limit(cols: u16, rows: u16) -> int {
    if cols > rows { cols as int } else { rows as int }
}

/// The cell a node that wants `want` gets, once `taken` are gone: the
/// first free one of the search, else the corner.
pub open spec fn place_one(want: (i32, i32), cols: u16, rows: u16, taken: Seq<(u16, u16)>) -> (u16, u16) {
    match search_cell(want, cols, rows, taken, grid_limit(cols, rows), 0, 0, 0) {
        Some(c) => c,
        None => (0, 0),
    }
}

/// Each node in turn given its cell, the earlier nodes' cells taken.
pub open spec fn place_all(wants: Seq<(i32, i32)>, cols: u16, rows: u16) -> Seq<(u16, u16)>
    decreases wants.len(),
{
    if wants.len() == 0 {
        seq![]
    } else {
        let prev = place_all(wants.drop_last(), cols, rows);
        prev.push(place_one(wants.last(), cols, rows, prev))
    }
}

fn clamp_exec(v: i64, n: u16) -> (r: u16)
    requires
        n >= 1,
    ensures
        r as int == clamp_to(v as int, n as int),
{
    if v < 0 {
        0
    } else if v > n as i64 - 1 {
        n - 1
    } else {
        v as u16
    }
}

fn taken_has(taken: &Vec<(u16, u16)>, cell: (u16, u16)) -> (r: bool)
    ensures
        r == taken@.contains(cell),
{
    let mut k: usize = 0;
    while k < taken.len()
        invariant
            k <= taken@.len(),
            forall|m: int| 0 <= m < k ==> taken@[m] != cell,
        decreases taken.len() - k,
    {
        let (a, b) = taken[k];
        if a == cell.0 && b == cell.1 {
            assert(taken@[k as int] == cell);
            return true;
        }
        k = k + 1;
    }
    false
}

/// The cells of the graph's nodes, from the cells they want (their rounded
/// positions, rows already halved), in node order: a node whose cell is
/// taken gets the nearest free one, searched ring by ring, and the corner
/// when none is free.
pub fn place_cells(wants: &Vec<(i32, i32)>, cols: u16, rows: u16) -> (r: Vec<(u16, u16)>)
    requires
        cols >= 1,
        rows >= 1,
    ensures
        r@ == place_all(wants@, cols, rows),
{
    let limit: u16 = if cols > rows { cols } else { rows };
    let mut out: Vec<(u16, u16)> = Vec::new();
    let mut n: usize = 0;
    while n < wants.len()
        invariant
            cols >= 1,
            rows >= 1,
            limit as int == grid_limit(cols, rows),
            n <= wants@.len(),
            out@ == place_all(wants@.take(n as int), cols, rows),
        decreases wants.len() - n,
    {
        let want = wants[n];
        let mut found: Option<(u16, u16)> = None;
        let mut r: u16 = 0;
        // The search from ring `r` on finds what the whole search finds.
        while r < limit && found.is_none()
            invariant
                cols >= 1,
                rows >= 1,
                limit as int == grid_limit(cols, rows),
                r <= limit,
                found is None ==> search_cell(want, cols, rows, out@, limit as int, 0, 0, 0) == search_cell(
                    want, cols, rows, out@, limit as int, r as int, 0, 0),
                found is Some ==> search_cell(want, cols, rows, out@, limit as int, 0, 0, 0) == found,
            decreases limit - r, if found is None { 1int } else { 0int },
        {
            let side: u32 = 2 * (r as u32);
            let mut i: u32 = 0;
            while i <= side && found.is_none()
                invariant
                    cols >= 1,
                    rows >= 1,
                    r < limit,
                    side == 2 * r,
                    i <= side + 1,
                    found is None ==> search_cell(want, cols, rows, out@, limit as int, 0, 0, 0) == search_cell(
                        want, cols, rows, out@, limit as int, r as int, i as int, 0),
                    found is Some ==> search_cell(want, cols, rows, out@, limit as int, 0, 0, 0) == found,
                decreases side + 1 - i, if found is None { 1int } else { 0int },
            {
                let mut j: u32 = 0;
                while j <= side && found.is_none()
                    invariant
                        cols >= 1,
                        rows >= 1,
                        r < limit,
                        side == 2 * r,
                        i <= side,
                        j <= side + 1,
                        found is None ==> search_cell(want, cols, rows, out@, limit as int, 0, 0, 0) == search_cell(
                            want, cols, rows, out@, limit as int, r as int, i as int, j as int),
                        found is Some ==> search_cell(want, cols, rows, out@, limit as int, 0, 0, 0) == found,
                    decreases side + 1 - j, if found is None { 1int } else { 0int },
                {
                    let x = clamp_exec(want.0 as i64 - r as i64 + i as i64, cols);
                    let y = clamp_exec(want.1 as i64 - r as i64 + j as i64, rows);
                    if taken_has(&out, (x, y)) {
                        j = j + 1;
                    } else {
                        found = Some((x, y));
                    }
                }
                if found.is_none() {
                    i = i + 1;
                }
            }
            if found.is_none() {
                r = r + 1;
            }
        }
        let cell = match found {
            Some(c) => c,
            None => (0, 0),
        };
        proof {
            assert(wants@.take(n + 1).drop_last() =~= wants@.take(n as int));
            assert(wants@.take(n + 1).last() == want);
        }
        out.push(cell);
        n = n + 1;
    }
    assert(wants@.take(wants@.len() as int) =~= wants@);
    out
}

/// A cell's number in row-major order over columns of `rows` cells.
spec fn cell_number(c: (u16, u16), rows: u16) -> int {
    c.0 as int * rows as int + c.1 as int
}

proof fn lemma_cell_number_injective(a: (u16, u16), b: (u16, u16), rows: u16)
    requires
        a.1 < rows,
        b.1 < rows,
        cell_number(a, rows) == cell_number(b, rows),
    ensures
        a == b,
{
    let (x1, y1, x2, y2, r) = (a.0 as int, a.1 as int, b.0 as int, b.1 as int, rows as int);
    assert(x1 == x2) by (nonlinear_arith)
        requires
            x1 * r + y1 == x2 * r + y2,
            0 <= y1 < r,
            0 <= y2 < r,
            x1 >= 0,
            x2 >= 0,
    {
        if x1 > x2 {
            assert(x1 * r >= (x2 + 1) * r);
        } else if x1 < x2 {
            assert(x2 * r >= (x1 + 1) * r);
        }
    }
}

/// With fewer distinct cells taken than the grid has, one is free.
proof fn lemma_free_cell(taken: Seq<(u16, u16)>, cols: u16, rows: u16) -> (c: (u16, u16))
    requires
        rows >= 1,
        taken.no_duplicates(),
        forall|k: int| 0 <= k < taken.len() ==> (#[trigger] taken[k]).0 < cols && taken[k].1 < rows,
        taken.len() < cols as int * rows as int,
    ensures
        c.0 < cols,
        c.1 < rows,
        !taken.contains(c),
{
    let nums = taken.map_values(|c: (u16, u16)| cell_number(c, rows));
    assert forall|i: int, j: int| 0 <= i < nums.len() && 0 <= j < nums.len() && i != j implies nums[i] != nums[j] by {
        if nums[i] == nums[j] {
            lemma_cell_number_injective(taken[i], taken[j], rows);
        }
    }
    assert(nums.no_duplicates());
    nums.unique_seq_to_set();
    let total = cols as int * rows as int;
    vstd::set_lib::lemma_int_range(0, total);
    let range = vstd::set_lib::set_int_range(0, total);
    let found = nums.to_set();
    if forall|n: int| #[trigger] range.contains(n) ==> found.contains(n) {
        assert(range.subset_of(found));
        vstd::set_lib::lemma_len_subset(range, found);
        assert(false);
    }
    let n = choose|n: int| #[trigger] range.contains(n) && !found.contains(n);
    let r = rows as int;
    let (q, m) = (n / r, n % r);
    assert(n == q * r + m && 0 <= m < r && 0 <= q < cols) by (nonlinear_arith)
        requires
            0 <= n < total,
            total == cols as int * r,
            r >= 1,
            q == n / r,
            m == n % r,
    ;
    let c = (q as u16, m as u16);
    assert(cell_number(c, rows) == n);
    if taken.contains(c) {
        let k = choose|k: int| 0 <= k < taken.len() && taken[k] == c;
        assert(nums[k] == n);
        assert(found.contains(n));
    }
    c
}

/// What the search finds is a free cell of the grid.
proof fn lemma_search_in_grid(want: (i32, i32), cols: u16, rows: u16, taken: Seq<(u16, u16)>, limit: int, r: int, i: int, j: int)
    requires
        cols >= 1,
        rows >= 1,
    ensures
        search_cell(want, cols, rows, taken, limit, r, i, j) matches Some(c) ==> c.0 < cols && c.1 < rows
            && !taken.contains(c),
    decreases limit - r, 2 * r + 2 - i, 2 * r + 2 - j,
{
    if r < 0 || r >= limit || i < 0 || j < 0 {
    } else if i > 2 * r {
        lemma_search_in_grid(want, cols, rows, taken, limit, r + 1, 0, 0);
    } else if j > 2 * r {
        lemma_search_in_grid(want, cols, rows, taken, limit, r, i + 1, 0);
    } else {
        let cell = clamp_cell(want.0 - r + i, want.1 - r + j, cols, rows);
        if taken.contains(cell) {
            lemma_search_in_grid(want, cols, rows, taken, limit, r, i, j + 1);
        }
    }
}

/// The search finds a cell when a free one lies at or after where it
/// stands, in its order.
proof fn lemma_search_finds(
    want: (i32, i32),
    cols: u16,
    rows: u16,
    taken: Seq<(u16, u16)>,
    limit: int,
    r: int,
    i: int,
    j: int,
    r2: int,
    i2: int,
    j2: int,
)
    requires
        0 <= r <= r2 < limit,
        0 <= i,
        0 <= j,
        r < r2 || (r == r2 && (i < i2 || (i == i2 && j <= j2))),
        0 <= i2 <= 2 * r2,
        0 <= j2 <= 2 * r2,
        !taken.contains(clamp_cell(want.0 - r2 + i2, want.1 - r2 + j2, cols, rows)),
    ensures
        search_cell(want, cols, rows, taken, limit, r, i, j) is Some,
    decreases limit - r, 2 * r + 2 - i, 2 * r + 2 - j,
{
    if i > 2 * r {
        lemma_search_finds(want, cols, rows, taken, limit, r + 1, 0, 0, r2, i2, j2);
    } else if j > 2 * r {
        lemma_search_finds(want, cols, rows, taken, limit, r, i + 1, 0, r2, i2, j2);
    } else {
        let cell = clamp_cell(want.0 - r + i, want.1 - r + j, cols, rows);
        if taken.contains(cell) {
            lemma_search_finds(want, cols, rows, taken, limit, r, i, j + 1, r2, i2, j2);
        }
    }
}

/// The cells lie in the grid and, while the grid has room for every node
/// and each node wants a cell of the grid, no two nodes share one.
pub proof fn lemma_cells_distinct(wants: Seq<(i32, i32)>, cols: u16, rows: u16)
    requires
        cols >= 1,
        rows >= 1,
        wants.len() <= cols as int * rows as int,
        forall|k: int| 0 <= k < wants.len() ==> 0 <= (#[trigger] wants[k]).0 < cols && 0 <= wants[k].1 < rows,
    ensures
        place_all(wants, cols, rows).len() == wants.len(),
        forall|k: int|
            0 <= k < wants.len() ==> (#[trigger] place_all(wants, cols, rows)[k]).0 < cols && place_all(wants, cols, rows)[k].1
                < rows,
        place_all(wants, cols, rows).no_duplicates(),
    decreases wants.len(),
{
    if wants.len() > 0 {
        let rest = wants.drop_last();
        assert forall|k: int| 0 <= k < rest.len() implies 0 <= (#[trigger] rest[k]).0 < cols && 0 <= rest[k].1 < rows by {
            assert(rest[k] == wants[k]);
        }
        lemma_cells_distinct(rest, cols, rows);
        let prev = place_all(rest, cols, rows);
        let w = wants.last();
        let limit = grid_limit(cols, rows);
        let c = lemma_free_cell(prev, cols, rows);
        let r2 = limit - 1;
        let (i2, j2) = (c.0 - w.0 + r2, c.1 - w.1 + r2);
        assert(clamp_cell(w.0 - r2 + i2, w.1 - r2 + j2, cols, rows) == c);
        lemma_search_finds(w, cols, rows, prev, limit, 0, 0, 0, r2, i2, j2);
        lemma_search_in_grid(w, cols, rows, prev, limit, 0, 0, 0);
        let cell = place_one(w, cols, rows, prev);
        let all = place_all(wants, cols, rows);
        assert(all == prev.push(cell));
        assert forall|a: int, b: int| 0 <= a < all.len() && 0 <= b < all.len() && a != b implies all[a] != all[b] by {
            if a == prev.len() {
                assert(prev.contains(all[b]) ==> true);
                if all[a] == all[b] {
                    assert(prev[b] == cell);
                    assert(prev.contains(cell));
                }
            } else if b == prev.len() {
                if all[a] == all[b] {
                    assert(prev[a] == cell);
                    assert(prev.contains(cell));
                }
            } else {
                assert(all[a] == prev[a] && all[b] == prev[b]);
            }
        }
    }
}
} // verus!
