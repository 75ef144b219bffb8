//! Byte offsets of a text's chars, and the way back from a byte offset to a
//! char index.

use vstd::prelude::*;
use vstd::utf8::{encode_scalar, encode_utf8};

use crate::text::{bytes_of, chars_of};

verus! {

/// The byte offset of char `k` of `t` in its UTF-8 encoding.
pub open spec fn boff(t: Seq<char>, k: int) -> int {
    bytes_of(t.take(k)).len() as int
}

/// The char index whose byte offset is `b`, when `b` falls on a char.
pub open spec fn char_index(t: Seq<char>, b: int) -> Option<int> {
    if exists|k: int| 0 <= k <= t.len() && boff(t, k) == b {
        Some(choose|k: int| 0 <= k <= t.len() && boff(t, k) == b)
    } else {
        None
    }
}

/// Encoding distributes over concatenation.
pub proof fn lemma_encode_concat(a: Seq<char>, b: Seq<char>)
    ensures
        encode_utf8(a + b) == encode_utf8(a) + encode_utf8(b),
    decreases a.len(),
{
    if a.len() == 0 {
        assert(a + b =~= b);
        assert(encode_utf8(a) + encode_utf8(b) =~= encode_utf8(b));
    } else {
        assert((a + b).drop_first() =~= a.drop_first() + b);
        lemma_encode_concat(a.drop_first(), b);
        assert((a + b)[0] == a[0]);
        assert(encode_scalar(a[0] as u32) + (encode_utf8(a.drop_first()) + encode_utf8(b)) =~= (encode_scalar(
            a[0] as u32,
        ) + encode_utf8(a.drop_first())) + encode_utf8(b));
    }
}

/// Every char takes one to four bytes.
pub proof fn lemma_scalar_len(c: char)
    ensures
        1 <= encode_scalar(c as u32).len() <= 4,
{
}

/// The bytes of chars `i..j` are bytes `boff(i)..boff(j)` of the whole.
pub proof fn lemma_boff_sub(t: Seq<char>, i: int, j: int)
    requires
        0 <= i <= j <= t.len(),
    ensures
        boff(t, i) <= boff(t, j),
        bytes_of(t.subrange(i, j)).len() == boff(t, j) - boff(t, i),
        bytes_of(t.subrange(i, j)) == bytes_of(t).subrange(boff(t, i), boff(t, j)),
        boff(t, t.len() as int) == bytes_of(t).len(),
        i < j ==> boff(t, i) < boff(t, j),
{
    assert(t.take(j) =~= t.take(i) + t.subrange(i, j));
    lemma_encode_concat(t.take(i), t.subrange(i, j));
    assert(t =~= t.take(j) + t.skip(j));
    lemma_encode_concat(t.take(j), t.skip(j));
    assert(t.take(t.len() as int) =~= t);
    if i < j {
        assert(t.subrange(i, j) =~= seq![t[i]] + t.subrange(i + 1, j));
        lemma_encode_concat(seq![t[i]], t.subrange(i + 1, j));
        assert(seq![t[i]].drop_first() =~= Seq::<char>::empty());
        lemma_scalar_len(t[i]);
    }
}

/// Byte offsets rise strictly with the char index, so a byte offset names
/// at most one char.
pub proof fn lemma_char_index(t: Seq<char>, k: int)
    requires
        0 <= k <= t.len(),
    ensures
        char_index(t, boff(t, k)) == Some(k),
{
    assert(0 <= k <= t.len() && boff(t, k) == boff(t, k));
    let c = choose|c: int| 0 <= c <= t.len() && boff(t, c) == boff(t, k);
    if c < k {
        lemma_boff_sub(t, c, k);
    } else if k < c {
        lemma_boff_sub(t, k, c);
    }
}

/// The UTF-8 length of a char.
pub fn utf8_len(c: char) -> (r: usize)
    ensures
        r == encode_scalar(c as u32).len(),
{
    let u = c as u32;
    if u < 0x80 {
        1
    } else if u < 0x800 {
        2
    } else if u < 0x10000 {
        3
    } else {
        4
    }
}

/// A text as chars, with each char's byte offset and the length at the end.
pub struct Src {
    pub chars: Vec<char>,
    pub offs: Vec<usize>,
}

impl Src {
    pub open spec fn wf(&self) -> bool {
        &&& self.offs@.len() == self.chars@.len() + 1
        &&& forall|k: int| 0 <= k <= self.chars@.len() ==> #[trigger] self.offs@[k] == boff(self.chars@, k)
    }

    pub fn new(text: &str) -> (r: Src)
        ensures
            r.wf(),
            r.chars@ == text@,
    {
        let chars = chars_of(text);
        let ghost t = chars@;
        let total = text.as_bytes().len();
        proof {
            lemma_boff_sub(t, 0, t.len() as int);
        }
        let mut offs: Vec<usize> = Vec::new();
        offs.push(0);
        assert(t.take(0) =~= Seq::<char>::empty());
        let mut i: usize = 0;
        let mut at: usize = 0;
        while i < chars.len()
            invariant
                t == chars@,
                t == text@,
                total == bytes_of(t).len(),
                i <= t.len(),
                offs@.len() == i + 1,
                at == boff(t, i as int),
                forall|k: int| 0 <= k <= i ==> #[trigger] offs@[k] == boff(t, k),
            decreases chars.len() - i,
        {
            proof {
                lemma_boff_sub(t, i as int, i + 1);
                lemma_boff_sub(t, i + 1, t.len() as int);
                assert(t.subrange(i as int, i + 1) =~= seq![t[i as int]]);
                assert(seq![t[i as int]].drop_first() =~= Seq::<char>::empty());
                assert(encode_utf8(Seq::<char>::empty()) =~= Seq::<u8>::empty());
                assert(encode_utf8(seq![t[i as int]]) =~= encode_scalar(t[i as int] as u32));
                assert(boff(t, i + 1) == boff(t, i as int) + encode_scalar(t[i as int] as u32).len());
            }
            let w = utf8_len(chars[i]);
            at = at + w;
            offs.push(at);
            i = i + 1;
        }
        Src { chars, offs }
    }

    /// The char index at byte offset `b`, if one starts or ends there.
    pub fn index_at(&self, b: usize) -> (r: Option<usize>)
        requires
            self.wf(),
        ensures
            match r {
                Some(k) => char_index(self.chars@, b as int) == Some(k as int) && k <= self.chars@.len(),
                None => char_index(self.chars@, b as int) is None,
            },
    {
        let ghost t = self.chars@;
        let mut lo: usize = 0;
        let mut hi: usize = self.offs.len();
        while lo < hi
            invariant
                self.wf(),
                t == self.chars@,
                lo <= hi <= self.offs@.len(),
                forall|k: int| 0 <= k < lo ==> #[trigger] self.offs@[k] < b,
                forall|k: int| hi <= k < self.offs@.len() ==> #[trigger] self.offs@[k] > b,
            decreases hi - lo,
        {
            let mid = lo + (hi - lo) / 2;
            if self.offs[mid] == b {
                proof {
                    lemma_char_index(t, mid as int);
                }
                return Some(mid);
            } else if self.offs[mid] < b {
                proof {
                    assert forall|k: int| 0 <= k < mid + 1 implies #[trigger] self.offs@[k] < b by {
                        if k < mid {
                            lemma_boff_sub(t, k, mid as int);
                        }
                    }
                }
                lo = mid + 1;
            } else {
                proof {
                    assert forall|k: int| mid <= k < self.offs@.len() implies #[trigger] self.offs@[k] > b by {
                        if mid < k {
                            lemma_boff_sub(t, mid as int, k);
                        }
                    }
                }
                hi = mid;
            }
        }
        proof {
            if exists|k: int| 0 <= k <= t.len() && boff(t, k) == b {
                let k = choose|k: int| 0 <= k <= t.len() && boff(t, k) == b;
                assert(self.offs@[k] == b);
            }
        }
        None
    }
}

} // verus!
