//! Root-relative paths as the index reads them: `/`-separated strings.

use vstd::prelude::*;

use crate::text::{after_last, chars_eq, first_at, has_char, find_char, last_index_of, slice_range};

verus! {

/// The last segment of a path.
pub open spec fn basename(p: Seq<char>) -> Seq<char> {
    after_last(p, '/')
}

/// Everything before the last `/`, or nothing.
pub open spec fn dirname(p: Seq<char>) -> Seq<char> {
    let k = p.len() - basename(p).len();
    if k <= 0 {
        seq![]
    } else {
        p.take(k - 1)
    }
}

/// The last segment of a path.
pub fn basename_exec(p: &[char]) -> (r: &[char])
    ensures
        r@ == basename(p@),
{
    let j = last_index_of(p, '/');
    slice_range(p, j, p.len())
}

/// Everything before the last `/`, or nothing.
pub fn dirname_exec(p: &[char]) -> (r: &[char])
    ensures
        r@ == dirname(p@),
{
    let j = last_index_of(p, '/');
    if j == 0 {
        slice_range(p, 0, 0)
    } else {
        slice_range(p, 0, j - 1)
    }
}

/// `str::split(c)`: the pieces between each `c`, empty ones included.
pub open spec fn split_char(s: Seq<char>, c: char) -> Seq<Seq<char>>
    decreases s.len(),
{
    if has_char(s, c) {
        proof {
            crate::text::lemma_first_at_props(s, c);
        }
        let k = first_at(s, c);
        seq![s.take(k)] + split_char(s.skip(k + 1), c)
    } else {
        seq![s]
    }
}

/// `str::split(c)`, collected.
pub fn split_char_exec(s: &[char], c: char) -> (r: Vec<Vec<char>>)
    ensures
        r@.map_values(|v: Vec<char>| v@) == split_char(s@, c),
{
    let mut out: Vec<Vec<char>> = Vec::new();
    let mut start: usize = 0;
    assert(s@.skip(0) =~= s@);
    loop
        invariant
            start <= s@.len(),
            out@.map_values(|v: Vec<char>| v@) + split_char(s@.skip(start as int), c) == split_char(s@, c),
        decreases s@.len() - start,
    {
        let rest = slice_range(s, start, s.len());
        let ghost before = out@.map_values(|v: Vec<char>| v@);
        match find_char(rest, c) {
            Some(k) => {
                let piece = vstd::slice::slice_to_vec(slice_range(rest, 0, k));
                proof {
                    crate::text::lemma_first_at_props(rest@, c);
                }
                assert(split_char(rest@, c) == seq![rest@.take(k as int)] + split_char(rest@.skip(k + 1), c));
                assert(rest@.skip(k + 1) =~= s@.skip(start + k + 1));
                out.push(piece);
                assert(out@.map_values(|v: Vec<char>| v@) =~= before.push(piece@));
                assert(before + split_char(rest@, c) =~= out@.map_values(|v: Vec<char>| v@) + split_char(
                    s@.skip(start + k + 1),
                    c,
                ));
                start = start + k + 1;
            },
            None => {
                let piece = vstd::slice::slice_to_vec(rest);
                out.push(piece);
                assert(out@.map_values(|v: Vec<char>| v@) =~= before.push(piece@));
                assert(split_char(rest@, c) == seq![rest@]);
                assert(before + split_char(rest@, c) =~= out@.map_values(|v: Vec<char>| v@));
                return out;
            },
        }
    }
}

/// Pieces joined with `/`.
pub open spec fn join_slash(parts: Seq<Seq<char>>) -> Seq<char>
    decreases parts.len(),
{
    if parts.len() == 0 {
        seq![]
    } else if parts.len() == 1 {
        parts[0]
    } else {
        join_slash(parts.drop_last()) + seq!['/'] + parts.last()
    }
}

/// Pieces joined with `/`.
pub fn join_slash_exec(parts: &[Vec<char>]) -> (r: Vec<char>)
    ensures
        r@ == join_slash(parts@.map_values(|v: Vec<char>| v@)),
{
    let ghost views = parts@.map_values(|v: Vec<char>| v@);
    let mut out: Vec<char> = Vec::new();
    let mut i: usize = 0;
    while i < parts.len()
        invariant
            i <= parts@.len(),
            views == parts@.map_values(|v: Vec<char>| v@),
            out@ == join_slash(views.take(i as int)),
        decreases parts.len() - i,
    {
        assert(views.take(i + 1).drop_last() =~= views.take(i as int));
        if i > 0 {
            out.push('/');
        }
        let mut j: usize = 0;
        let ghost start = out@;
        while j < parts[i].len()
            invariant
                i < parts@.len(),
                j <= parts@[i as int]@.len(),
                out@ == start + parts@[i as int]@.take(j as int),
            decreases parts@[i as int]@.len() - j,
        {
            out.push(parts[i][j]);
            assert(out@ =~= start + parts@[i as int]@.take(j + 1));
            j = j + 1;
        }
        assert(parts@[i as int]@.take(j as int) =~= parts@[i as int]@);
        assert(views.take(i + 1).last() == parts@[i as int]@);
        if i == 0 {
            assert(out@ =~= join_slash(views.take(1)));
        }
        i = i + 1;
    }
    assert(views.take(parts@.len() as int) =~= views);
    out
}

/// `.` and `..` applied to `stack`, one piece at a time; `None` once a
/// `..` has nothing left to drop.
pub open spec fn apply_dots(parts: Seq<Seq<char>>, stack: Seq<Seq<char>>) -> Option<Seq<Seq<char>>>
    decreases parts.len(),
{
    if parts.len() == 0 {
        Some(stack)
    } else {
        let p = parts[0];
        if p.len() == 0 || p == seq!['.'] {
            apply_dots(parts.drop_first(), stack)
        } else if p == seq!['.', '.'] {
            if stack.len() == 0 {
                None
            } else {
                apply_dots(parts.drop_first(), stack.drop_last())
            }
        } else {
            apply_dots(parts.drop_first(), stack.push(p))
        }
    }
}

/// A path with `.` and `..` resolved and empty pieces dropped; `None` when
/// it climbs above the root.
pub open spec fn normalized(path: Seq<char>) -> Option<Seq<char>> {
    match apply_dots(split_char(path, '/'), seq![]) {
        Some(stack) => Some(join_slash(stack)),
        None => None,
    }
}

/// Resolves `.` and `..` without touching the filesystem. `None` when the
/// path climbs above the root.
pub fn normalize(path: &[char]) -> (r: Option<Vec<char>>)
    ensures
        match r {
            Some(v) => normalized(path@) == Some(v@),
            None => normalized(path@) is None,
        },
{
    let parts = split_char_exec(path, '/');
    let ghost pv = parts@.map_values(|v: Vec<char>| v@);
    let mut stack: Vec<Vec<char>> = Vec::new();
    let mut i: usize = 0;
    assert(pv.skip(0) =~= pv);
    assert(stack@.map_values(|v: Vec<char>| v@) =~= Seq::<Seq<char>>::empty());
    while i < parts.len()
        invariant
            i <= parts@.len(),
            pv == parts@.map_values(|v: Vec<char>| v@),
            pv == split_char(path@, '/'),
            apply_dots(pv, seq![]) == apply_dots(pv.skip(i as int), stack@.map_values(|v: Vec<char>| v@)),
        decreases parts.len() - i,
    {
        let ghost rest = pv.skip(i as int);
        assert(rest.drop_first() =~= pv.skip(i + 1));
        assert(rest[0] == parts@[i as int]@);
        let p = parts[i].as_slice();
        let ghost sv = stack@.map_values(|v: Vec<char>| v@);
        if p.len() == 0 || (p.len() == 1 && p[0] == '.') {
            assert(p@.len() == 0 || p@ =~= seq!['.']);
        } else if p.len() == 2 && p[0] == '.' && p[1] == '.' {
            assert(p@ =~= seq!['.', '.']);
            if stack.len() == 0 {
                return None;
            }
            stack.pop();
            assert(stack@.map_values(|v: Vec<char>| v@) =~= sv.drop_last());
        } else {
            assert(p@ != seq!['.']) by {
                if p@ == seq!['.'] {
                    assert(p@.len() == 1);
                }
            }
            assert(p@ != seq!['.', '.']) by {
                if p@ == seq!['.', '.'] {
                    assert(p@.len() == 2);
                }
            }
            stack.push(parts[i].clone());
            assert(stack@.map_values(|v: Vec<char>| v@) =~= sv.push(p@));
        }
        i = i + 1;
    }
    assert(pv.skip(parts@.len() as int) =~= Seq::<Seq<char>>::empty());
    Some(join_slash_exec(stack.as_slice()))
}

/// `dir/rest`, or `rest` at the root.
pub open spec fn join(dir: Seq<char>, rest: Seq<char>) -> Seq<char> {
    if dir.len() == 0 {
        rest
    } else {
        dir + seq!['/'] + rest
    }
}

pub fn join_exec(dir: &[char], rest: &[char]) -> (r: Vec<char>)
    ensures
        r@ == join(dir@, rest@),
{
    let mut out = vstd::slice::slice_to_vec(dir);
    if dir.len() > 0 {
        out.push('/');
    }
    let mut i: usize = 0;
    let ghost start = out@;
    while i < rest.len()
        invariant
            i <= rest@.len(),
            out@ == start + rest@.take(i as int),
        decreases rest.len() - i,
    {
        out.push(rest[i]);
        assert(out@ =~= start + rest@.take(i + 1));
        i = i + 1;
    }
    assert(rest@.take(rest@.len() as int) =~= rest@);
    out
}

/// The pieces that name something: not empty, not `.`.
pub open spec fn normal_pieces(ps: Seq<Seq<char>>) -> Seq<Seq<char>>
    decreases ps.len(),
{
    if ps.len() == 0 {
        seq![]
    } else {
        let r = normal_pieces(ps.drop_last());
        let p = ps.last();
        if p.len() == 0 || p == seq!['.'] {
            r
        } else {
            r.push(p)
        }
    }
}

/// `Path::components` of a `/`-separated path, each as text: `/` for the
/// root, `.` only at the start of a relative path, repeated and trailing
/// separators and inner `.` dropped.
pub open spec fn path_comps(p: Seq<char>) -> Seq<Seq<char>> {
    let pieces = split_char(p, '/');
    if p.len() > 0 && p[0] == '/' {
        seq![seq!['/']] + normal_pieces(pieces.drop_first())
    } else if pieces.len() > 0 && pieces[0] == seq!['.'] {
        seq![seq!['.']] + normal_pieces(pieces.drop_first())
    } else {
        normal_pieces(pieces)
    }
}

/// `Path::starts_with`: `base`'s components begin `p`'s.
pub open spec fn comps_start_with(p: Seq<char>, base: Seq<char>) -> bool {
    let (a, b) = (path_comps(p), path_comps(base));
    b.len() <= a.len() && a.take(b.len() as int) == b
}

fn normal_pieces_exec(ps: &[Vec<char>]) -> (r: Vec<Vec<char>>)
    ensures
        r@.map_values(|v: Vec<char>| v@) == normal_pieces(ps@.map_values(|v: Vec<char>| v@)),
{
    let ghost pv = ps@.map_values(|v: Vec<char>| v@);
    let mut out: Vec<Vec<char>> = Vec::new();
    let mut i: usize = 0;
    while i < ps.len()
        invariant
            i <= ps@.len(),
            pv == ps@.map_values(|v: Vec<char>| v@),
            out@.map_values(|v: Vec<char>| v@) == normal_pieces(pv.take(i as int)),
        decreases ps.len() - i,
    {
        assert(pv.take(i + 1).drop_last() =~= pv.take(i as int));
        assert(pv.take(i + 1).last() == ps@[i as int]@);
        let p = ps[i].as_slice();
        let dot = p.len() == 1 && p[0] == '.';
        assert(dot == (p@ == seq!['.'])) by {
            if p@ == seq!['.'] {
                assert(p@.len() == 1 && p@[0] == '.');
            }
            if dot {
                assert(p@ =~= seq!['.']);
            }
        }
        if !(p.len() == 0 || dot) {
            let ghost before = out@.map_values(|v: Vec<char>| v@);
            out.push(ps[i].clone());
            assert(out@.map_values(|v: Vec<char>| v@) =~= before.push(p@));
        }
        i = i + 1;
    }
    assert(pv.take(ps@.len() as int) =~= pv);
    out
}

/// `Path::components`, each as text.
pub fn path_comps_exec(p: &[char]) -> (r: Vec<Vec<char>>)
    ensures
        r@.map_values(|v: Vec<char>| v@) == path_comps(p@),
{
    let pieces = split_char_exec(p, '/');
    let ghost pv = pieces@.map_values(|v: Vec<char>| v@);
    if p.len() > 0 && p[0] == '/' {
        let mut out: Vec<Vec<char>> = Vec::new();
        let mut root: Vec<char> = Vec::new();
        root.push('/');
        out.push(root);
        proof {
            lemma_split_nonempty(p@, '/');
        }
        let tail = crate::text::slice_range(pieces.as_slice(), 1, pieces.len());
        assert(tail@.map_values(|v: Vec<char>| v@) =~= pv.drop_first());
        let rest = normal_pieces_exec(tail);
        let ghost a = out@.map_values(|v: Vec<char>| v@);
        let ghost b = rest@.map_values(|v: Vec<char>| v@);
        let mut rest = rest;
        out.append(&mut rest);
        assert(out@.map_values(|v: Vec<char>| v@) =~= a + b);
        assert(a =~= seq![seq!['/']]);
        return out;
    }
    proof {
        lemma_split_nonempty(p@, '/');
    }
    let dot = pieces[0].len() == 1 && pieces[0][0] == '.';
    assert(pieces@[0]@ == pv[0]);
    assert(dot == (pv[0] == seq!['.'])) by {
        if pv[0] == seq!['.'] {
            assert(pv[0].len() == 1 && pv[0][0] == '.');
        }
        if dot {
            assert(pv[0] =~= seq!['.']);
        }
    }
    if dot {
        let mut out: Vec<Vec<char>> = Vec::new();
        let mut cur: Vec<char> = Vec::new();
        cur.push('.');
        out.push(cur);
        let tail = crate::text::slice_range(pieces.as_slice(), 1, pieces.len());
        assert(tail@.map_values(|v: Vec<char>| v@) =~= pv.drop_first());
        let rest = normal_pieces_exec(tail);
        let ghost a = out@.map_values(|v: Vec<char>| v@);
        let ghost b = rest@.map_values(|v: Vec<char>| v@);
        let mut rest = rest;
        out.append(&mut rest);
        assert(out@.map_values(|v: Vec<char>| v@) =~= a + b);
        assert(a =~= seq![seq!['.']]);
        return out;
    }
    normal_pieces_exec(pieces.as_slice())
}

/// Splitting gives at least one piece.
pub proof fn lemma_split_nonempty(s: Seq<char>, c: char)
    ensures
        split_char(s, c).len() >= 1,
    decreases s.len(),
{
    if has_char(s, c) {
        crate::text::lemma_first_at_props(s, c);
        lemma_split_nonempty(s.skip(first_at(s, c) + 1), c);
    }
}

/// `Path::starts_with` on `/`-separated paths.
pub fn comps_start_with_exec(p: &[char], base: &[char]) -> (r: bool)
    ensures
        r == comps_start_with(p@, base@),
{
    let a = path_comps_exec(p);
    let b = path_comps_exec(base);
    let ghost av = a@.map_values(|v: Vec<char>| v@);
    let ghost bv = b@.map_values(|v: Vec<char>| v@);
    if b.len() > a.len() {
        return false;
    }
    let mut i: usize = 0;
    while i < b.len()
        invariant
            b@.len() <= a@.len(),
            i <= b@.len(),
            av == a@.map_values(|v: Vec<char>| v@),
            bv == b@.map_values(|v: Vec<char>| v@),
            av == path_comps(p@),
            bv == path_comps(base@),
            forall|k: int| 0 <= k < i ==> av[k] == bv[k],
        decreases b.len() - i,
    {
        if !chars_eq(a[i].as_slice(), b[i].as_slice()) {
            assert(av[i as int] != bv[i as int]);
            assert(av.take(bv.len() as int)[i as int] != bv[i as int]);
            return false;
        }
        i = i + 1;
    }
    assert(av.take(bv.len() as int) =~= bv);
    true
}

} // verus!
