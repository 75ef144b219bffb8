//! Line numbers of byte offsets.

use vstd::prelude::*;

use crate::text::bytes_of;

verus! {

/// The positions of the newline bytes among the first `n` bytes, in order.
pub open spec fn nl_pos(b: Seq<u8>, n: int) -> Seq<int>
    decreases n,
{
    if n <= 0 {
        seq![]
    } else {
        let r = nl_pos(b, n - 1);
        if b[n - 1] == 10 {
            r.push(n - 1)
        } else {
            r
        }
    }
}

/// The 1-based line of byte offset `off`: one more than the newlines
/// before it.
pub open spec fn line_at(b: Seq<u8>, off: int) -> u32 {
    (1 + nl_pos(b, if off < b.len() { off } else { b.len() as int }).len()) as u32
}

/// Newline positions are in range and rise, and those below `n` are a
/// prefix of those below `m`, the rest being at `n` or after.
proof fn lemma_nl_pos(b: Seq<u8>, n: int, m: int)
    requires
        0 <= n <= m <= b.len(),
    ensures
        nl_pos(b, n).len() <= nl_pos(b, m).len(),
        forall|k: int| 0 <= k < nl_pos(b, n).len() ==> nl_pos(b, m)[k] == #[trigger] nl_pos(b, n)[k],
        forall|k: int| nl_pos(b, n).len() <= k < nl_pos(b, m).len() ==> #[trigger] nl_pos(b, m)[k] >= n,
        forall|k: int| 0 <= k < nl_pos(b, m).len() ==> 0 <= #[trigger] nl_pos(b, m)[k] < m,
        forall|j: int, k: int| 0 <= j < k < nl_pos(b, m).len() ==> #[trigger] nl_pos(b, m)[j] < #[trigger] nl_pos(b, m)[k],
    decreases m - n,
{
    if n < m {
        lemma_nl_pos(b, n, m - 1);
    } else {
        lemma_nl_pos_rise(b, m);
    }
}

proof fn lemma_nl_pos_rise(b: Seq<u8>, m: int)
    requires
        0 <= m <= b.len(),
    ensures
        forall|k: int| 0 <= k < nl_pos(b, m).len() ==> 0 <= #[trigger] nl_pos(b, m)[k] < m,
        forall|j: int, k: int| 0 <= j < k < nl_pos(b, m).len() ==> #[trigger] nl_pos(b, m)[j] < #[trigger] nl_pos(b, m)[k],
    decreases m,
{
    if m > 0 {
        lemma_nl_pos_rise(b, m - 1);
        let r = nl_pos(b, m - 1);
        if b[m - 1] == 10 {
            assert(nl_pos(b, m) == r.push(m - 1));
            assert forall|j: int, k: int| 0 <= j < k < nl_pos(b, m).len() implies #[trigger] nl_pos(b, m)[j]
                < #[trigger] nl_pos(b, m)[k] by {
                if k < r.len() {
                    assert(r[j] < r[k]);
                } else {
                    assert(r[j] < m - 1);
                }
            }
        }
    }
}

/// The byte offset where each line starts.
pub struct LineIndex {
    pub starts: Vec<usize>,
}

impl LineIndex {
    pub open spec fn wf(&self, b: Seq<u8>) -> bool {
        &&& self.starts@.len() == 1 + nl_pos(b, b.len() as int).len()
        &&& self.starts@[0] == 0
        &&& forall|k: int|
            1 <= k < self.starts@.len() ==> #[trigger] self.starts@[k] == nl_pos(b, b.len() as int)[k - 1] + 1
    }

    pub fn new(text: &str) -> (r: LineIndex)
        ensures
            r.wf(bytes_of(text@)),
    {
        let b = text.as_bytes();
        let ghost bs = b@;
        let mut starts: Vec<usize> = Vec::new();
        starts.push(0);
        let mut i: usize = 0;
        while i < b.len()
            invariant
                bs == b@,
                i <= bs.len(),
                starts@.len() == 1 + nl_pos(bs, i as int).len(),
                starts@[0] == 0,
                forall|k: int| 1 <= k < starts@.len() ==> #[trigger] starts@[k] == nl_pos(bs, i as int)[k - 1] + 1,
            decreases b.len() - i,
        {
            if b[i] == 10 {
                starts.push(i + 1);
            }
            i = i + 1;
        }
        LineIndex { starts }
    }

    /// The 1-based line of byte offset `offset`.
    pub fn line(&self, offset: usize, Ghost(b): Ghost<Seq<u8>>) -> (r: u32)
        requires
            self.wf(b),
        ensures
            r == line_at(b, offset as int),
    {
        let ghost lim: int = if offset < b.len() { offset as int } else { b.len() as int };
        proof {
            lemma_nl_pos(b, lim, b.len() as int);
            lemma_nl_pos_rise(b, lim);
        }
        let ghost all = nl_pos(b, b.len() as int);
        let ghost pre = nl_pos(b, lim);
        let mut lo: usize = 0;
        let mut hi: usize = self.starts.len();
        while lo < hi
            invariant
                self.wf(b),
                all == nl_pos(b, b.len() as int),
                pre == nl_pos(b, lim),
                lim == (if offset < b.len() { offset as int } else { b.len() as int }),
                pre.len() <= all.len(),
                forall|k: int| 0 <= k < pre.len() ==> all[k] == #[trigger] pre[k],
                forall|k: int| pre.len() <= k < all.len() ==> #[trigger] all[k] >= lim,
                forall|k: int| 0 <= k < all.len() ==> 0 <= #[trigger] all[k] < b.len(),
                forall|k: int| 0 <= k < pre.len() ==> #[trigger] pre[k] < lim,
                lo <= pre.len() + 1 <= hi,
                hi <= self.starts@.len(),
            decreases hi - lo,
        {
            let mid = lo + (hi - lo) / 2;
            if self.starts[mid] <= offset {
                proof {
                    if mid >= 1 {
                        assert(self.starts@[mid as int] == all[mid - 1] + 1);
                        if mid - 1 >= pre.len() {
                            assert(all[mid - 1] >= lim);
                        }
                    }
                }
                lo = mid + 1;
            } else {
                proof {
                    if mid >= 1 && mid - 1 < pre.len() {
                        assert(self.starts@[mid as int] == all[mid - 1] + 1);
                        assert(pre[mid - 1] < lim);
                    }
                }
                hi = mid;
            }
        }
        proof {
            lemma_nl_pos(b, lim, lim);
        }
        let count = lo;
        #[verifier::truncate]
        (count as u32)
    }
}

} // verus!
