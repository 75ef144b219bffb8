//! Extracts wikilinks, embeds, Markdown links, tags, frontmatter, and headings from one note.

use vstd::prelude::*;

use crate::lines::{line_at, LineIndex};
use crate::markdown::{
    md_kinds, md_kinds_of, md_payloads, md_payloads_of, md_styles, md_styles_of, payload_views, LinkStyle, MdKind,
    Payload,
};
use crate::offsets::{boff, char_index, Src};
use crate::text::{
    bytes_of, chars_of, drop_lead, drop_lead_exec, ends_with, find_char, first_at, from_utf8_lossy, has_char,
    is_alphanumeric, is_whitespace, opt_string_view, rsplit_once, rsplit_once_exec, slice_range, split_once,
    split_once_exec, starts_with, string_of, trim, trim_chars, trim_end, trim_end_len, unicode_alphanumeric,
    unicode_whitespace, utf8_lossy, views, trim_start, trim_end_by, join_by, ascii_lowercase, strs_eq,
};

verus! {

/// `Range::clone`, which `derive(Clone)` writes: each end is cloned.
pub assume_specification<Idx: Clone>[ <std::ops::Range<Idx> as Clone>::clone ](r: &std::ops::Range<Idx>) -> (res: std::ops::Range<Idx>)
    ensures
        cloned(r.start, res.start),
        cloned(r.end, res.end),
;

#[derive(Debug, Clone, Copy, PartialEq, Eq)]
pub enum LinkKind {
    Link,
    Embed,
    Property,
}

#[derive(Debug, Clone, PartialEq, Eq)]
pub struct Link {
    pub kind: LinkKind,
    /// `[text](path)` form; resolved relative to the note first.
    pub markdown: bool,
    /// Source text of the link.
    pub written: String,
    /// Path part, decoded, table-escape backslash stripped.
    pub target: String,
    /// After the first `#`, without it.
    pub fragment: Option<String>,
    pub alias: Option<String>,
    pub span: std::ops::Range<usize>,
    pub line: u32,
}

#[derive(Debug, Clone, PartialEq, Eq)]
pub struct Tag {
    pub name: String,
    pub line: u32,
}

#[derive(Debug, Clone, PartialEq, Eq)]
pub struct Heading {
    pub level: u8,
    pub text: String,
    pub line: u32,
}

#[derive(Debug, Clone, PartialEq, Eq)]
pub enum Value {
    Str(String),
    List(Vec<String>),
    Date(String),
    Bool(bool),
    Raw(String),
}

#[derive(Debug, Clone, PartialEq, Eq)]
pub struct Parsed {
    pub links: Vec<Link>,
    pub tags: Vec<Tag>,
    pub headings: Vec<Heading>,
    pub blocks: Vec<String>,
    pub frontmatter: Vec<(String, Value)>,
}

/// The value of an ASCII hex digit.
pub open spec fn hex_value(b: u8) -> Option<u8> {
    if 48 <= b <= 57 {
        Some((b - 48) as u8)
    } else if 97 <= b <= 102 {
        Some((b - 87) as u8)
    } else if 65 <= b <= 70 {
        Some((b - 55) as u8)
    } else {
        None
    }
}

/// The byte `%XY` stands for: two hex digits, or `+` and one, as
/// `u8::from_str_radix(.., 16)` reads them.
pub open spec fn escape_value(x: u8, y: u8) -> Option<u8> {
    match (hex_value(x), hex_value(y)) {
        (Some(a), Some(b)) => Some((a * 16 + b) as u8),
        (None, Some(b)) => if x == 43 { Some(b) } else { None },
        _ => None,
    }
}

/// The bytes with each `%XY` escape that has two bytes after it replaced.
pub open spec fn percent_bytes(b: Seq<u8>) -> Seq<u8>
    decreases b.len(),
{
    if b.len() == 0 {
        seq![]
    } else if b[0] == 37 && b.len() > 2 && escape_value(b[1], b[2]) is Some {
        seq![escape_value(b[1], b[2])->0] + percent_bytes(b.skip(3))
    } else {
        seq![b[0]] + percent_bytes(b.drop_first())
    }
}

/// `%XY` escapes decoded, then the bytes read as UTF-8, lossily.
pub open spec fn percent_decoded(s: Seq<char>) -> Seq<char> {
    utf8_lossy(percent_bytes(bytes_of(s)))
}

fn hex_value_exec(b: u8) -> (r: Option<u8>)
    ensures
        r == hex_value(b),
{
    if 48 <= b && b <= 57 {
        Some(b - 48)
    } else if 97 <= b && b <= 102 {
        Some(b - 87)
    } else if 65 <= b && b <= 70 {
        Some(b - 55)
    } else {
        None
    }
}

fn escape_value_exec(x: u8, y: u8) -> (r: Option<u8>)
    ensures
        r == escape_value(x, y),
{
    match (hex_value_exec(x), hex_value_exec(y)) {
        (Some(a), Some(b)) => Some(a * 16 + b),
        (None, Some(b)) => if x == 43 { Some(b) } else { None },
        _ => None,
    }
}

/// The bytes of `b` with `%XY` escapes decoded.
pub fn percent_decode_bytes(b: &[u8]) -> (r: Vec<u8>)
    ensures
        r@ == percent_bytes(b@),
{
    let mut out: Vec<u8> = Vec::new();
    let mut i: usize = 0;
    assert(b@.skip(0) =~= b@);
    while i < b.len()
        invariant
            i <= b@.len(),
            percent_bytes(b@) == out@ + percent_bytes(b@.skip(i as int)),
        decreases b.len() - i,
    {
        let ghost rest = b@.skip(i as int);
        if b[i] == 37 && b.len() - i > 2 {
            if let Some(v) = escape_value_exec(b[i + 1], b[i + 2]) {
                assert(rest.skip(3) =~= b@.skip(i + 3));
                assert(out@.push(v) + percent_bytes(rest.skip(3)) =~= out@ + (seq![v] + percent_bytes(rest.skip(3))));
                out.push(v);
                i = i + 3;
                continue;
            }
        }
        assert(rest.drop_first() =~= b@.skip(i + 1));
        assert(out@.push(b[i as int]) + percent_bytes(rest.drop_first()) =~= out@ + (seq![b@[i as int]]
            + percent_bytes(rest.drop_first())));
        out.push(b[i]);
        i = i + 1;
    }
    assert(b@.skip(b@.len() as int) =~= Seq::<u8>::empty());
    assert(out@ + Seq::<u8>::empty() =~= out@);
    out
}

pub fn percent_decode(s: &str) -> (r: String)
    ensures
        r@ == percent_decoded(s@),
        vstd::utf8::valid_utf8(percent_bytes(bytes_of(s@))) ==> r@ == vstd::utf8::decode_utf8(percent_bytes(bytes_of(s@))),
{
    let out = percent_decode_bytes(s.as_bytes());
    from_utf8_lossy(out.as_slice())
}

/// A link as plain values.
pub struct LinkView {
    pub kind: LinkKind,
    pub markdown: bool,
    pub written: Seq<char>,
    pub target: Seq<char>,
    pub fragment: Option<Seq<char>>,
    pub alias: Option<Seq<char>>,
    pub start: usize,
    pub end: usize,
    pub line: u32,
}

impl View for Link {
    type V = LinkView;

    open spec fn view(&self) -> LinkView {
        LinkView {
            kind: self.kind,
            markdown: self.markdown,
            written: self.written@,
            target: self.target@,
            fragment: opt_string_view(self.fragment),
            alias: opt_string_view(self.alias),
            start: self.span.start,
            end: self.span.end,
            line: self.line,
        }
    }
}

impl View for Tag {
    type V = (Seq<char>, u32);

    open spec fn view(&self) -> (Seq<char>, u32) {
        (self.name@, self.line)
    }
}

impl View for Heading {
    type V = (u8, Seq<char>, u32);

    open spec fn view(&self) -> (u8, Seq<char>, u32) {
        (self.level, self.text@, self.line)
    }
}

/// A frontmatter value as plain values.
pub enum ValueView {
    Str(Seq<char>),
    List(Seq<Seq<char>>),
    Date(Seq<char>),
    Bool(bool),
    Raw(Seq<char>),
}

impl View for Value {
    type V = ValueView;

    open spec fn view(&self) -> ValueView {
        match self {
            Value::Str(s) => ValueView::Str(s@),
            Value::List(v) => ValueView::List(views(v@)),
            Value::Date(s) => ValueView::Date(s@),
            Value::Bool(b) => ValueView::Bool(*b),
            Value::Raw(s) => ValueView::Raw(s@),
        }
    }
}

/// Everything extracted from a note, as plain values.
pub struct ParsedView {
    pub links: Seq<LinkView>,
    pub tags: Seq<(Seq<char>, u32)>,
    pub headings: Seq<(u8, Seq<char>, u32)>,
    pub blocks: Seq<Seq<char>>,
    pub frontmatter: Seq<(Seq<char>, ValueView)>,
}

impl View for Parsed {
    type V = ParsedView;

    open spec fn view(&self) -> ParsedView {
        ParsedView {
            links: self.links@.map_values(|l: Link| l@),
            tags: self.tags@.map_values(|t: Tag| t@),
            headings: self.headings@.map_values(|h: Heading| h@),
            blocks: views(self.blocks@),
            frontmatter: self.frontmatter@.map_values(|e: (String, Value)| (e.0@, e.1@)),
        }
    }
}

/// A byte range as a pair.
pub type Span = (usize, usize);

/// Whether `i` falls in one of the ranges.
pub open spec fn in_ranges(ranges: Seq<Span>, i: int) -> bool {
    exists|k: int| 0 <= k < ranges.len() && (#[trigger] ranges[k]).0 <= i < ranges[k].1
}

pub fn in_ranges_exec(ranges: &[Span], i: usize) -> (r: bool)
    ensures
        r == in_ranges(ranges@, i as int),
{
    let mut k: usize = 0;
    while k < ranges.len()
        invariant
            k <= ranges@.len(),
            forall|j: int| 0 <= j < k ==> !((#[trigger] ranges@[j]).0 <= i < ranges@[j].1),
        decreases ranges.len() - k,
    {
        if ranges[k].0 <= i && i < ranges[k].1 {
            assert(ranges@[k as int].0 <= i < ranges@[k as int].1);
            return true;
        }
        k = k + 1;
    }
    false
}

/// The ranges of code spans and code blocks, in event order.
pub open spec fn code_ranges_of(kinds: Seq<(MdKind, usize, usize)>) -> Seq<Span>
    decreases kinds.len(),
{
    if kinds.len() == 0 {
        seq![]
    } else {
        let r = code_ranges_of(kinds.drop_last());
        let e = kinds.last();
        if e.0 == MdKind::Code || e.0 == MdKind::CodeBlock {
            r.push((e.1, e.2))
        } else {
            r
        }
    }
}

/// The kinds with their ranges as pairs.
pub open spec fn kind_views(kinds: Seq<(MdKind, std::ops::Range<usize>)>) -> Seq<(MdKind, usize, usize)> {
    kinds.map_values(|e: (MdKind, std::ops::Range<usize>)| (e.0, e.1.start, e.1.end))
}

fn code_ranges(kinds: &[(MdKind, std::ops::Range<usize>)]) -> (r: Vec<Span>)
    ensures
        r@ == code_ranges_of(kind_views(kinds@)),
{
    let ghost kv = kind_views(kinds@);
    let mut out: Vec<Span> = Vec::new();
    let mut i: usize = 0;
    while i < kinds.len()
        invariant
            i <= kinds@.len(),
            kv == kind_views(kinds@),
            out@ == code_ranges_of(kv.take(i as int)),
        decreases kinds.len() - i,
    {
        assert(kv.take(i + 1).drop_last() =~= kv.take(i as int));
        assert(kv.take(i + 1).last() == kv[i as int]);
        let k = kinds[i].0;
        if k == MdKind::Code || k == MdKind::CodeBlock {
            out.push((kinds[i].1.start, kinds[i].1.end));
        }
        i = i + 1;
    }
    assert(kv.take(kinds@.len() as int) =~= kv);
    out
}

/// The positions `str::match_indices("%%")` finds from `i` on: left to
/// right, without overlaps.
pub open spec fn pct_marks(b: Seq<u8>, i: int) -> Seq<int>
    decreases b.len() - i,
{
    if i < 0 || i + 1 >= b.len() {
        seq![]
    } else if b[i] == 37 && b[i + 1] == 37 {
        seq![i] + pct_marks(b, i + 2)
    } else {
        pct_marks(b, i + 1)
    }
}

/// The marks outside code.
pub open spec fn outside(marks: Seq<int>, code: Seq<Span>) -> Seq<int>
    decreases marks.len(),
{
    if marks.len() == 0 {
        seq![]
    } else {
        let r = outside(marks.drop_last(), code);
        if in_ranges(code, marks.last()) {
            r
        } else {
            r.push(marks.last())
        }
    }
}

/// The first mark after index `i` at or past `at`.
pub open spec fn close_after(marks: Seq<int>, i: int, at: int) -> Option<int>
    decreases marks.len() - i,
{
    if i < 0 || i >= marks.len() {
        None
    } else if marks[i] >= at {
        Some(marks[i])
    } else {
        close_after(marks, i + 1, at)
    }
}

/// Comment ranges from mark `i` on, given where the last one ended: each
/// open mark runs to the next mark two bytes on, or to the end of the text.
pub open spec fn comment_spans(marks: Seq<int>, i: int, last_end: int, len: int) -> Seq<Span>
    decreases marks.len() - i,
{
    if i < 0 || i >= marks.len() {
        seq![]
    } else if marks[i] < last_end {
        comment_spans(marks, i + 1, last_end, len)
    } else {
        let end = match close_after(marks, i + 1, marks[i] + 2) {
            Some(c) => c + 2,
            None => len,
        };
        seq![(marks[i] as usize, end as usize)] + comment_spans(marks, i + 1, end, len)
    }
}

/// `%%comment%%` ranges outside code. An unpaired `%%` runs to the end of
/// the text.
pub open spec fn comment_ranges_of(b: Seq<u8>, code: Seq<Span>) -> Seq<Span> {
    comment_spans(outside(pct_marks(b, 0), code), 0, 0, b.len() as int)
}

proof fn lemma_pct_marks_bounds(b: Seq<u8>, i: int)
    requires
        0 <= i,
    ensures
        forall|k: int| 0 <= k < pct_marks(b, i).len() ==> i <= #[trigger] pct_marks(b, i)[k] && pct_marks(b, i)[k] + 1 < b.len(),
    decreases b.len() - i,
{
    if i + 1 < b.len() {
        if b[i] == 37 && b[i + 1] == 37 {
            lemma_pct_marks_bounds(b, i + 2);
            let r = pct_marks(b, i + 2);
            assert(pct_marks(b, i) == seq![i] + r);
            assert forall|k: int| 0 <= k < pct_marks(b, i).len() implies i <= #[trigger] pct_marks(b, i)[k]
                && pct_marks(b, i)[k] + 1 < b.len() by {
                if k > 0 {
                    assert(pct_marks(b, i)[k] == r[k - 1]);
                }
            }
        } else {
            lemma_pct_marks_bounds(b, i + 1);
            assert(pct_marks(b, i) == pct_marks(b, i + 1));
        }
    } else {
        assert(pct_marks(b, i).len() == 0);
    }
}

fn comment_ranges(text: &str, code: &[Span]) -> (r: Vec<Span>)
    ensures
        r@ == comment_ranges_of(bytes_of(text@), code@),
{
    let b = text.as_bytes();
    let ghost bs = b@;
    // The marks, left to right.
    let mut all: Vec<usize> = Vec::new();
    let mut i: usize = 0;
    proof {
        lemma_pct_marks_bounds(bs, 0);
    }
    while b.len() - i > 1
        invariant
            bs == b@,
            0 <= i <= bs.len(),
            all@.map_values(|m: usize| m as int) + pct_marks(bs, i as int) == pct_marks(bs, 0),
        decreases b.len() + 1 - i,
    {
        let ghost before = all@.map_values(|m: usize| m as int);
        if b[i] == 37 && b[i + 1] == 37 {
            all.push(i);
            assert(all@.map_values(|m: usize| m as int) =~= before.push(i as int));
            assert(before.push(i as int) + pct_marks(bs, i + 2) =~= before + (seq![i as int] + pct_marks(bs, i + 2)));
            i = i + 2;
        } else {
            i = i + 1;
        }
    }
    assert(pct_marks(bs, i as int) =~= Seq::<int>::empty());
    assert(all@.map_values(|m: usize| m as int) =~= pct_marks(bs, 0));
    // Those outside code.
    let ghost am = pct_marks(bs, 0);
    let mut marks: Vec<usize> = Vec::new();
    let mut j: usize = 0;
    while j < all.len()
        invariant
            j <= all@.len(),
            am == all@.map_values(|m: usize| m as int),
            forall|k: int| 0 <= k < am.len() ==> 0 <= #[trigger] am[k] && am[k] + 1 < bs.len(),
            marks@.map_values(|m: usize| m as int) == outside(am.take(j as int), code@),
        decreases all.len() - j,
    {
        assert(am.take(j + 1).drop_last() =~= am.take(j as int));
        assert(am.take(j + 1).last() == all@[j as int] as int);
        let ghost before = marks@.map_values(|m: usize| m as int);
        if !in_ranges_exec(code, all[j]) {
            marks.push(all[j]);
            assert(marks@.map_values(|m: usize| m as int) =~= before.push(all@[j as int] as int));
        }
        j = j + 1;
    }
    assert(am.take(all@.len() as int) =~= am);
    let ghost mv = marks@.map_values(|m: usize| m as int);
    assert(mv == outside(am, code@));
    // Pair them.
    let mut ranges: Vec<Span> = Vec::new();
    let mut last_end: usize = 0;
    let mut k: usize = 0;
    proof {
        lemma_outside_in(am, code@, bs.len() as int);
    }
    while k < marks.len()
        invariant
            mv == marks@.map_values(|m: usize| m as int),
            forall|q: int| 0 <= q < mv.len() ==> 0 <= #[trigger] mv[q] && mv[q] + 1 < bs.len(),
            k <= mv.len(),
            last_end <= bs.len(),
            ranges@ + comment_spans(mv, k as int, last_end as int, bs.len() as int) == comment_spans(mv, 0, 0, bs.len() as int),
            bs.len() == b@.len(),
            bs.len() <= usize::MAX,
        decreases marks.len() - k,
    {
        let open = marks[k];
        if open < last_end {
            k = k + 1;
            continue;
        }
        assert(open as int == mv[k as int]);
        assert forall|q: int| 0 <= q < marks@.len() implies #[trigger] marks@[q] + 1 < usize::MAX by {
            assert(mv[q] == marks@[q] as int);
        }
        let end: usize = match close_index(marks.as_slice(), k + 1, open + 2) {
            Some(c) => {
                proof {
                    let q = choose|q: int| k + 1 <= q < marks@.len() && marks@[q] == c;
                    assert(mv[q] == c as int);
                }
                c + 2
            },
            None => b.len(),
        };
        let ghost before = ranges@;
        ranges.push((open, end));
        assert(before + comment_spans(mv, k as int, last_end as int, bs.len() as int) =~= ranges@ + comment_spans(
            mv,
            k + 1,
            end as int,
            bs.len() as int,
        ));
        last_end = end;
        k = k + 1;
    }
    assert(ranges@ =~= ranges@ + comment_spans(mv, k as int, last_end as int, bs.len() as int));
    ranges
}

proof fn lemma_outside_in(marks: Seq<int>, code: Seq<Span>, len: int)
    requires
        forall|k: int| 0 <= k < marks.len() ==> 0 <= #[trigger] marks[k] && marks[k] + 1 < len,
    ensures
        forall|k: int| 0 <= k < outside(marks, code).len() ==> 0 <= #[trigger] outside(marks, code)[k] && outside(marks, code)[k] + 1 < len,
    decreases marks.len(),
{
    if marks.len() > 0 {
        assert forall|k: int| 0 <= k < marks.drop_last().len() implies 0 <= #[trigger] marks.drop_last()[k] && marks.drop_last()[k] + 1 < len by {
            assert(marks.drop_last()[k] == marks[k]);
        }
        lemma_outside_in(marks.drop_last(), code, len);
        let r = outside(marks.drop_last(), code);
        assert forall|k: int| 0 <= k < outside(marks, code).len() implies 0 <= #[trigger] outside(marks, code)[k]
            && outside(marks, code)[k] + 1 < len by {
            if k < r.len() {
                assert(outside(marks, code)[k] == r[k]);
            } else {
                assert(outside(marks, code)[k] == marks.last());
            }
        }
    }
}

/// The first mark at index `from` or later that is at or past `at`.
fn close_index(marks: &[usize], from: usize, at: usize) -> (r: Option<usize>)
    requires
        from <= marks@.len(),
        forall|q: int| 0 <= q < marks@.len() ==> #[trigger] marks@[q] + 1 < usize::MAX,
    ensures
        match r {
            Some(c) => close_after(marks@.map_values(|m: usize| m as int), from as int, at as int) == Some(c as int),
            None => close_after(marks@.map_values(|m: usize| m as int), from as int, at as int) is None,
        },
        r matches Some(c) ==> c + 1 < usize::MAX && exists|q: int| from <= q < marks@.len() && marks@[q] == c,
{
    let ghost mv = marks@.map_values(|m: usize| m as int);
    let mut q: usize = from;
    while q < marks.len()
        invariant
            from <= q <= marks@.len(),
            mv == marks@.map_values(|m: usize| m as int),
            close_after(mv, from as int, at as int) == close_after(mv, q as int, at as int),
            forall|q: int| 0 <= q < marks@.len() ==> #[trigger] marks@[q] + 1 < usize::MAX,
        decreases marks.len() - q,
    {
        if marks[q] >= at {
            assert(marks@[q as int] == marks[q as int]);
            return Some(marks[q]);
        }
        q = q + 1;
    }
    None
}

/// A link destination split at its first `#`.
pub open spec fn split_fragment_of(d: Seq<char>) -> (Seq<char>, Option<Seq<char>>) {
    match split_once(d, '#') {
        Some((t, f)) => (t, Some(f)),
        None => (d, None),
    }
}

fn split_fragment(d: &[char]) -> (r: (String, Option<String>))
    ensures
        (r.0@, opt_string_view(r.1)) == split_fragment_of(d@),
{
    match split_once_exec(d, '#') {
        Some((t, f)) => (string_of(t), Some(string_of(f))),
        None => (string_of(d), None),
    }
}

/// The alias of a piped wikilink, from its source text.
pub open spec fn wiki_alias_of(written: Seq<char>) -> Option<Seq<char>> {
    let a = drop_lead(written, '!');
    if starts_with(a, seq!['[', '[']) && ends_with(a.skip(2), seq![']', ']']) {
        let inner = a.skip(2).take(a.len() - 4);
        match split_once(inner, '|') {
            Some((_, alias)) => Some(alias),
            None => None,
        }
    } else {
        None
    }
}

fn wiki_alias(written: &[char]) -> (r: Option<String>)
    ensures
        opt_string_view(r) == wiki_alias_of(written@),
{
    let a = drop_lead_exec(written, '!');
    if a.len() >= 4 && a[0] == '[' && a[1] == '[' && a[a.len() - 2] == ']' && a[a.len() - 1] == ']' {
        assert(a@.take(2) =~= seq!['[', '[']);
        assert(a@.skip(2).skip(a@.skip(2).len() - 2) =~= seq![']', ']']);
        let inner = slice_range(a, 2, a.len() - 2);
        assert(inner@ =~= a@.skip(2).take(a@.len() - 4));
        match split_once_exec(inner, '|') {
            Some((_, alias)) => Some(string_of(alias)),
            None => None,
        }
    } else {
        proof {
            if starts_with(a@, seq!['[', '[']) && ends_with(a@.skip(2), seq![']', ']']) {
                assert(a@.take(2)[0] == '[' && a@.take(2)[1] == '[');
                let sk = a@.skip(2);
                assert(sk.skip(sk.len() - 2)[0] == ']' && sk.skip(sk.len() - 2)[1] == ']');
            }
        }
        None
    }
}

pub open spec fn is_ascii_alpha(c: char) -> bool {
    ('a' <= c && c <= 'z') || ('A' <= c && c <= 'Z')
}

pub open spec fn is_scheme_char(c: char) -> bool {
    is_ascii_alpha(c) || ('0' <= c && c <= '9') || c == '+' || c == '-' || c == '.'
}

/// `https:`, `mailto:`, and any other URI scheme: an ASCII letter, then
/// letters, digits, `+`, `-` or `.`, two chars at least, before a `:`.
pub open spec fn has_scheme_of(d: Seq<char>) -> bool {
    match split_once(d, ':') {
        None => false,
        Some((scheme, _)) => scheme.len() > 1 && is_ascii_alpha(scheme[0]) && forall|i: int|
            1 <= i < scheme.len() ==> is_scheme_char(#[trigger] scheme[i]),
    }
}

fn has_scheme(d: &[char]) -> (r: bool)
    ensures
        r == has_scheme_of(d@),
{
    let (scheme, rest) = match split_once_exec(d, ':') {
        Some(p) => p,
        None => return false,
    };
    if scheme.len() < 2 {
        return false;
    }
    let c0 = scheme[0];
    if !(('a' <= c0 && c0 <= 'z') || ('A' <= c0 && c0 <= 'Z')) {
        return false;
    }
    let mut i: usize = 1;
    while i < scheme.len()
        invariant
            1 <= i <= scheme@.len(),
            split_once(d@, ':') == Some((scheme@, rest@)),
            forall|j: int| 1 <= j < i ==> is_scheme_char(#[trigger] scheme@[j]),
        decreases scheme.len() - i,
    {
        let c = scheme[i];
        if !(('a' <= c && c <= 'z') || ('A' <= c && c <= 'Z') || ('0' <= c && c <= '9') || c == '+' || c == '-' || c
            == '.') {
            assert(!is_scheme_char(scheme@[i as int]));
            return false;
        }
        i = i + 1;
    }
    true
}

/// A destination without the `<` and `>` around it, when it has both.
pub open spec fn unangle(d: Seq<char>) -> Seq<char> {
    if d.len() >= 2 && d[0] == '<' && d.last() == '>' {
        d.subrange(1, d.len() - 1)
    } else {
        d
    }
}

/// How an event's link reads: `None` for autolinks, for links with a URI
/// scheme, and when the range does not fall on chars of the text.
pub open spec fn link_of(
    t: Seq<char>,
    style: LinkStyle,
    dest: Seq<char>,
    start: usize,
    end: usize,
    image: bool,
) -> Option<LinkView> {
    let kind = if image { LinkKind::Embed } else { LinkKind::Link };
    let line = line_at(bytes_of(t), start as int);
    match (char_index(t, start as int), char_index(t, end as int)) {
        (Some(i), Some(j)) => if i <= j {
            let written = t.subrange(i, j);
            match style {
                LinkStyle::Wiki(piped) => {
                    let d = if dest.len() > 0 && dest.last() == '\\' { dest.drop_last() } else { dest };
                    let (target, fragment) = split_fragment_of(d);
                    Some(LinkView {
                        kind,
                        markdown: false,
                        written,
                        target,
                        fragment,
                        alias: if piped { wiki_alias_of(written) } else { None },
                        start,
                        end,
                        line,
                    })
                },
                LinkStyle::Plain => if has_scheme_of(dest) {
                    None
                } else {
                    let (target, fragment) = split_fragment_of(percent_decoded(unangle(dest)));
                    Some(LinkView { kind, markdown: true, written, target, fragment, alias: None, start, end, line })
                },
                LinkStyle::Auto => None,
            }
        } else {
            None
        },
        _ => None,
    }
}

fn link_from(
    src: &Src,
    lines: &LineIndex,
    style: LinkStyle,
    dest: &str,
    start: usize,
    end: usize,
    image: bool,
) -> (r: Option<Link>)
    requires
        src.wf(),
        lines.wf(bytes_of(src.chars@)),
    ensures
        match r {
            Some(l) => link_of(src.chars@, style, dest@, start, end, image) == Some(l@),
            None => link_of(src.chars@, style, dest@, start, end, image) is None,
        },
{
    let ghost t = src.chars@;
    let (i, j) = match (src.index_at(start), src.index_at(end)) {
        (Some(i), Some(j)) => (i, j),
        _ => return None,
    };
    if i > j {
        return None;
    }
    let written_c = slice_range(src.chars.as_slice(), i, j);
    let kind = if image { LinkKind::Embed } else { LinkKind::Link };
    let dc = chars_of(dest);
    match style {
        LinkStyle::Wiki(piped) => {
            let d: &[char] = if dc.len() > 0 && dc[dc.len() - 1] == '\\' {
                slice_range(dc.as_slice(), 0, dc.len() - 1)
            } else {
                dc.as_slice()
            };
            assert(dc@.len() > 0 ==> dc@.drop_last() =~= dc@.subrange(0, dc@.len() - 1));
            let (target, fragment) = split_fragment(d);
            let alias = if piped { wiki_alias(written_c) } else { None };
            let line = lines.line(start, Ghost(bytes_of(t)));
            Some(Link {
                kind,
                markdown: false,
                written: string_of(written_c),
                target,
                fragment,
                alias,
                span: start..end,
                line,
            })
        },
        LinkStyle::Plain => {
            if has_scheme(dc.as_slice()) {
                return None;
            }
            let d: &[char] = if dc.len() >= 2 && dc[0] == '<' && dc[dc.len() - 1] == '>' {
                slice_range(dc.as_slice(), 1, dc.len() - 1)
            } else {
                dc.as_slice()
            };
            let decoded = percent_decode(string_of(d).as_str());
            let dec_c = chars_of(decoded.as_str());
            let (target, fragment) = split_fragment(dec_c.as_slice());
            let line = lines.line(start, Ghost(bytes_of(t)));
            Some(Link {
                kind,
                markdown: true,
                written: string_of(written_c),
                target,
                fragment,
                alias: None,
                span: start..end,
                line,
            })
        },
        LinkStyle::Auto => None,
    }
}

/// A char a tag name may hold.
pub open spec fn is_tag_char(c: char) -> bool {
    unicode_alphanumeric(c) || c == '_' || c == '-' || c == '/'
}

/// The run of tag chars `s` starts with.
pub open spec fn tag_run(s: Seq<char>) -> Seq<char>
    decreases s.len(),
{
    if s.len() > 0 && is_tag_char(s[0]) {
        seq![s[0]] + tag_run(s.drop_first())
    } else {
        seq![]
    }
}

pub open spec fn all_ascii_digits(s: Seq<char>) -> bool {
    forall|i: int| 0 <= i < s.len() ==> '0' <= #[trigger] s[i] && s[i] <= '9'
}

/// The tag a `#` at char `k` starts: not in a comment, at the start of the
/// text or after whitespace, and a name that is not all digits.
pub open spec fn tag_at(t: Seq<char>, comments: Seq<Span>, k: int) -> Option<(Seq<char>, u32)> {
    let at = boff(t, k);
    if t[k] != '#' || in_ranges(comments, at) || (k > 0 && !unicode_whitespace(t[k - 1])) {
        None
    } else {
        let name = tag_run(t.skip(k + 1));
        if name.len() == 0 || all_ascii_digits(name) {
            None
        } else {
            Some((name, line_at(bytes_of(t), at)))
        }
    }
}

proof fn lemma_tag_run(s: Seq<char>)
    ensures
        tag_run(s).len() <= s.len(),
        tag_run(s) == s.take(tag_run(s).len() as int),
        forall|i: int|
            0 <= i < tag_run(s).len() ==> unicode_alphanumeric(#[trigger] tag_run(s)[i]) || tag_run(s)[i] == '_'
                || tag_run(s)[i] == '-' || tag_run(s)[i] == '/',
        tag_run(s).len() < s.len() ==> !(unicode_alphanumeric(s[tag_run(s).len() as int]) || s[tag_run(s).len() as int]
            == '_' || s[tag_run(s).len() as int] == '-' || s[tag_run(s).len() as int] == '/'),
    decreases s.len(),
{
    if s.len() > 0 && is_tag_char(s[0]) {
        let t = s.drop_first();
        lemma_tag_run(t);
        let r = tag_run(s);
        assert(r == seq![s[0]] + tag_run(t));
        assert(r =~= s.take(r.len() as int)) by {
            assert forall|i: int| 0 <= i < r.len() implies r[i] == s.take(r.len() as int)[i] by {
                if i > 0 {
                    assert(r[i] == tag_run(t)[i - 1]);
                    assert(tag_run(t)[i - 1] == t.take(tag_run(t).len() as int)[i - 1]);
                }
            }
        }
        assert forall|i: int| 0 <= i < r.len() implies unicode_alphanumeric(#[trigger] r[i]) || r[i] == '_' || r[i] == '-'
            || r[i] == '/' by {
            if i > 0 {
                assert(r[i] == tag_run(t)[i - 1]);
            }
        }
        if r.len() < s.len() {
            assert(s[r.len() as int] == t[tag_run(t).len() as int]);
        }
    } else {
        assert(tag_run(s) =~= s.take(0));
    }
}

/// A tag is the whole run of name chars after its `#`: its name is the text
/// right after the `#`, every char of it alphanumeric or one of `_`, `-`,
/// `/`, and the char after it (if any) none of those. And a `#` at the start
/// or after whitespace, outside comments, followed by such a char that is
/// not a digit, does start a tag.
pub proof fn lemma_tag_is_maximal_run(t: Seq<char>, comments: Seq<Span>, k: int)
    requires
        0 <= k < t.len(),
    ensures
        tag_at(t, comments, k) matches Some((name, _)) ==> {
            &&& t[k] == '#'
            &&& name.len() > 0
            &&& k + 1 + name.len() <= t.len()
            &&& name == t.subrange(k + 1, k + 1 + name.len())
            &&& forall|i: int|
                0 <= i < name.len() ==> unicode_alphanumeric(#[trigger] name[i]) || name[i] == '_' || name[i] == '-'
                    || name[i] == '/'
            &&& k + 1 + name.len() < t.len() ==> !(unicode_alphanumeric(t[k + 1 + name.len()]) || t[k + 1 + name.len()]
                == '_' || t[k + 1 + name.len()] == '-' || t[k + 1 + name.len()] == '/')
        },
        t[k] == '#' && (k == 0 || unicode_whitespace(t[k - 1])) && !in_ranges(comments, boff(t, k)) && k + 1 < t.len()
            && (unicode_alphanumeric(t[k + 1]) || t[k + 1] == '_' || t[k + 1] == '-' || t[k + 1] == '/') && !('0' <= t[k
            + 1] && t[k + 1] <= '9') ==> tag_at(t, comments, k) is Some,
{
    let rest = t.skip(k + 1);
    lemma_tag_run(rest);
    let name = tag_run(rest);
    if k + 1 < t.len() {
        assert(rest[0] == t[k + 1]);
        if name.len() > 0 {
            assert(name[0] == t[k + 1]);
        }
    }
    if tag_at(t, comments, k) is Some {
        assert(name =~= t.subrange(k + 1, k + 1 + name.len()));
        if k + 1 + name.len() < t.len() {
            assert(rest[name.len() as int] == t[k + 1 + name.len()]);
        }
    }
}

/// Every tag the text of chars `i..j` holds is such a run after a `#` at
/// some char in `i..j`.
pub proof fn lemma_tags_are_runs(t: Seq<char>, comments: Seq<Span>, i: int, j: int)
    requires
        0 <= i,
        j <= t.len(),
    ensures
        forall|m: int|
            #![trigger tags_in(t, comments, i, j)[m]]
            0 <= m < tags_in(t, comments, i, j).len() ==> exists|k: int|
                i <= k < j && #[trigger] tag_at(t, comments, k) == Some(tags_in(t, comments, i, j)[m]),
    decreases j - i,
{
    if i < j {
        lemma_tags_are_runs(t, comments, i, j - 1);
        let r = tags_in(t, comments, i, j - 1);
        assert forall|m: int|
            #![trigger tags_in(t, comments, i, j)[m]]
            0 <= m < tags_in(t, comments, i, j).len() implies exists|k: int|
            i <= k < j && #[trigger] tag_at(t, comments, k) == Some(tags_in(t, comments, i, j)[m]) by {
            if m < r.len() {
                assert(tags_in(t, comments, i, j)[m] == r[m]);
                let k = choose|k: int| i <= k < j - 1 && #[trigger] tag_at(t, comments, k) == Some(r[m]);
                assert(tag_at(t, comments, k) == Some(tags_in(t, comments, i, j)[m]));
            } else {
                assert(tag_at(t, comments, j - 1) == Some(tags_in(t, comments, i, j)[m]));
            }
        }
    }
}

/// The tags of chars `i..j`, in order.
pub open spec fn tags_in(t: Seq<char>, comments: Seq<Span>, i: int, j: int) -> Seq<(Seq<char>, u32)>
    decreases j - i,
{
    if i >= j {
        seq![]
    } else {
        let r = tags_in(t, comments, i, j - 1);
        match tag_at(t, comments, j - 1) {
            Some(x) => r.push(x),
            None => r,
        }
    }
}

/// The tags in the text of a text event.
pub open spec fn event_tags(t: Seq<char>, comments: Seq<Span>, start: usize, end: usize) -> Seq<(Seq<char>, u32)> {
    match (char_index(t, start as int), char_index(t, end as int)) {
        (Some(i), Some(j)) => if i <= j { tags_in(t, comments, i, j) } else { seq![] },
        _ => seq![],
    }
}

/// The tags as plain values.
pub open spec fn tag_views(tags: Seq<Tag>) -> Seq<(Seq<char>, u32)> {
    tags.map_values(|t: Tag| t@)
}

fn tag_name(t: &[char], from: usize) -> (r: Vec<char>)
    requires
        from <= t@.len(),
    ensures
        r@ == tag_run(t@.skip(from as int)),
{
    let mut k: usize = from;
    let mut out: Vec<char> = Vec::new();
    assert(out@ + tag_run(t@.skip(from as int)) =~= tag_run(t@.skip(from as int)));
    while k < t.len() && (is_alphanumeric(t[k]) || t[k] == '_' || t[k] == '-' || t[k] == '/')
        invariant
            from <= k <= t@.len(),
            out@ + tag_run(t@.skip(k as int)) == tag_run(t@.skip(from as int)),
        decreases t.len() - k,
    {
        assert(t@.skip(k as int).drop_first() =~= t@.skip(k + 1));
        assert(out@.push(t@[k as int]) + tag_run(t@.skip(k + 1)) =~= out@ + (seq![t@[k as int]] + tag_run(t@.skip(k + 1))));
        out.push(t[k]);
        k = k + 1;
    }
    assert(out@ + tag_run(t@.skip(k as int)) =~= out@);
    out
}

fn scan_tags(
    src: &Src,
    start: usize,
    end: usize,
    comments: &[Span],
    lines: &LineIndex,
    tags: &mut Vec<Tag>,
)
    requires
        src.wf(),
        lines.wf(bytes_of(src.chars@)),
    ensures
        tag_views(final(tags)@) == tag_views(old(tags)@) + event_tags(src.chars@, comments@, start, end),
{
    let ghost t = src.chars@;
    let (i, j) = match (src.index_at(start), src.index_at(end)) {
        (Some(i), Some(j)) => (i, j),
        _ => {
            assert(tag_views(tags@) =~= tag_views(tags@) + Seq::<(Seq<char>, u32)>::empty());
            return;
        },
    };
    if i > j {
        assert(tag_views(tags@) =~= tag_views(tags@) + Seq::<(Seq<char>, u32)>::empty());
        return;
    }
    let ghost base = tag_views(tags@);
    let mut k: usize = i;
    assert(base =~= base + tags_in(t, comments@, i as int, i as int));
    while k < j
        invariant
            src.wf(),
            lines.wf(bytes_of(src.chars@)),
            t == src.chars@,
            i <= k <= j <= t.len(),
            tag_views(tags@) == base + tags_in(t, comments@, i as int, k as int),
        decreases j - k,
    {
        let ghost before = tag_views(tags@);
        let c = src.chars[k];
        let at = src.offs[k];
        let mut found = false;
        if c == '#' && !in_ranges_exec(comments, at) && !(k > 0 && !is_whitespace(src.chars[k - 1])) {
            let name = tag_name(src.chars.as_slice(), k + 1);
            let mut digits = true;
            let mut q: usize = 0;
            while q < name.len()
                invariant
                    q <= name@.len(),
                    digits == forall|p: int| 0 <= p < q ==> '0' <= #[trigger] name@[p] && name@[p] <= '9',
                decreases name.len() - q,
            {
                if !('0' <= name[q] && name[q] <= '9') {
                    digits = false;
                }
                q = q + 1;
            }
            if name.len() > 0 && !digits {
                let line = lines.line(at, Ghost(bytes_of(t)));
                tags.push(Tag { name: string_of(name.as_slice()), line });
                found = true;
                assert(tag_views(tags@) =~= before.push((name@, line)));
            }
        }
        assert(tag_views(tags@) =~= base + tags_in(t, comments@, i as int, k + 1));
        k = k + 1;
    }
}

/// The index just past the line that starts at char `i`: after its `\n`,
/// or the end of the text.
pub open spec fn line_end(t: Seq<char>, i: int) -> int {
    if has_char(t.skip(i), '\n') {
        i + first_at(t.skip(i), '\n') + 1
    } else {
        t.len() as int
    }
}

pub open spec fn is_block_char(c: char) -> bool {
    ('a' <= c && c <= 'z') || ('A' <= c && c <= 'Z') || ('0' <= c && c <= '9') || c == '-'
}

/// `^id` at the end of one line (`\n` included) that starts at byte
/// `line_start`, outside code and comments.
pub open spec fn block_id_of(line: Seq<char>, line_start: int, code: Seq<Span>, comments: Seq<Span>) -> Option<Seq<char>> {
    let trimmed = trim_end(line);
    let tb = bytes_of(trimmed).len() as int;
    if in_ranges(code, line_start) || in_ranges(comments, line_start + if tb > 0 { tb - 1 } else { 0 }) {
        None
    } else {
        match rsplit_once(trimmed, ' ') {
            None => None,
            Some((before, last)) => if last.len() > 0 && last[0] == '^' {
                let id = last.drop_first();
                if trim(before).len() > 0 && id.len() > 0 && forall|q: int|
                    0 <= q < id.len() ==> is_block_char(#[trigger] id[q]) {
                    Some(id)
                } else {
                    None
                }
            } else {
                None
            },
        }
    }
}

/// The block ids of the lines from char `i` on.
pub open spec fn block_ids_from(t: Seq<char>, code: Seq<Span>, comments: Seq<Span>, i: int) -> Seq<Seq<char>>
    decreases t.len() - i,
{
    if i < 0 || i >= t.len() {
        seq![]
    } else {
        let e = line_end(t, i);
        proof {
            if has_char(t.skip(i), '\n') {
                crate::text::lemma_first_at_props(t.skip(i), '\n');
            }
        }
        let rest = block_ids_from(t, code, comments, e);
        match block_id_of(t.subrange(i, e), boff(t, i), code, comments) {
            Some(id) => seq![id] + rest,
            None => rest,
        }
    }
}

fn block_id(src: &Src, i: usize, e: usize, code: &[Span], comments: &[Span]) -> (r: Option<String>)
    requires
        src.wf(),
        i <= e <= src.chars@.len(),
    ensures
        opt_string_view(r) == block_id_of(src.chars@.subrange(i as int, e as int), boff(src.chars@, i as int), code@, comments@),
{
    let ghost t = src.chars@;
    let line = slice_range(src.chars.as_slice(), i, e);
    let tl = trim_end_len(line);
    let trimmed = slice_range(line, 0, tl);
    proof {
        crate::offsets::lemma_boff_sub(t, i as int, i + tl);
        assert(t.subrange(i as int, i + tl) =~= trimmed@);
    }
    let tb = src.offs[i + tl] - src.offs[i];
    let probe = if tb > 0 { src.offs[i] + (tb - 1) } else { src.offs[i] };
    if in_ranges_exec(code, src.offs[i]) || in_ranges_exec(comments, probe) {
        return None;
    }
    let (before, last) = match rsplit_once_exec(trimmed, ' ') {
        Some(p) => p,
        None => return None,
    };
    if !(last.len() > 0 && last[0] == '^') {
        return None;
    }
    let id = slice_range(last, 1, last.len());
    assert(id@ =~= last@.drop_first());
    if trim_chars(before).len() == 0 || id.len() == 0 {
        return None;
    }
    if !all_block_chars(id) {
        return None;
    }
    Some(string_of(id))
}

fn block_ids(src: &Src, code: &[Span], comments: &[Span]) -> (r: Vec<String>)
    requires
        src.wf(),
    ensures
        views(r@) == block_ids_from(src.chars@, code@, comments@, 0),
{
    let ghost t = src.chars@;
    let n = src.chars.len();
    let mut out: Vec<String> = Vec::new();
    let mut i: usize = 0;
    while i < n
        invariant
            src.wf(),
            t == src.chars@,
            n == t.len(),
            i <= n,
            views(out@) + block_ids_from(t, code@, comments@, i as int) == block_ids_from(t, code@, comments@, 0),
        decreases n - i,
    {
        let rest = slice_range(src.chars.as_slice(), i, n);
        assert(rest@ =~= t.skip(i as int));
        let e = match find_char(rest, '\n') {
            Some(k) => i + k + 1,
            None => n,
        };
        assert(e == line_end(t, i as int));
        let ghost before = views(out@);
        match block_id(src, i, e, code, comments) {
            Some(id) => {
                out.push(id);
                assert(views(out@) =~= before.push(id@));
                assert(before.push(id@) + block_ids_from(t, code@, comments@, e as int) =~= before + (seq![id@] + block_ids_from(t, code@, comments@, e as int)));
            },
            None => {},
        }
        i = e;
    }
    assert(views(out@) + block_ids_from(t, code@, comments@, i as int) =~= views(out@));
    out
}

fn all_block_chars(id: &[char]) -> (r: bool)
    ensures
        r == forall|p: int| 0 <= p < id@.len() ==> is_block_char(#[trigger] id@[p]),
{
    let mut q: usize = 0;
    while q < id.len()
        invariant
            q <= id@.len(),
            forall|p: int| 0 <= p < q ==> is_block_char(#[trigger] id@[p]),
        decreases id.len() - q,
    {
        let c = id[q];
        if !(('a' <= c && c <= 'z') || ('A' <= c && c <= 'Z') || ('0' <= c && c <= '9') || c == '-') {
            assert(!is_block_char(id@[q as int]));
            return false;
        }
        q = q + 1;
    }
    true
}

/// A line-break char, dropped from the end of a frontmatter row.
pub open spec fn is_nlcr(c: char) -> bool {
    c == '\n' || c == '\r'
}

/// The rows of chars `a..end`: each line's char range without its trailing
/// `\n` and `\r` chars.
pub open spec fn fm_rows(t: Seq<char>, a: int, end: int) -> Seq<(int, int)>
    decreases end - a,
{
    if a < 0 || a >= end || end > t.len() {
        seq![]
    } else {
        let next = line_end_in(t, a, end);
        proof {
            lemma_line_end_in(t, a, end);
        }
        let e = a + trim_end_by(t.subrange(a, next), |c: char| is_nlcr(c)).len();
        seq![(a, e)] + fm_rows(t, next, end)
    }
}

/// Just past the line starting at `a`, the text ending at `end`.
pub open spec fn line_end_in(t: Seq<char>, a: int, end: int) -> int {
    if has_char(t.subrange(a, end), '\n') {
        a + first_at(t.subrange(a, end), '\n') + 1
    } else {
        end
    }
}

pub proof fn lemma_line_end_in(t: Seq<char>, a: int, end: int)
    requires
        0 <= a < end <= t.len(),
    ensures
        a < line_end_in(t, a, end) <= end,
{
    if has_char(t.subrange(a, end), '\n') {
        crate::text::lemma_first_at_props(t.subrange(a, end), '\n');
    }
}

/// A scalar's char range: trimmed, and inside its quotes when `"` or `'`
/// wrap it.
pub open spec fn unquote_of(t: Seq<char>, p: int, q: int) -> (int, int) {
    let a = p + (t.subrange(p, q).len() - trim_start(t.subrange(p, q)).len());
    let b = a + trim(t.subrange(p, q)).len();
    let v = t.subrange(a, b);
    if bytes_of(v).len() >= 2 && ((v[0] == '"' && v.last() == '"') || (v[0] == '\'' && v.last() == '\'')) {
        (a + 1, b - 1)
    } else {
        (a, b)
    }
}

fn unquote(src: &Src, p: usize, q: usize) -> (r: (usize, usize))
    requires
        src.wf(),
        p <= q <= src.chars@.len(),
    ensures
        (r.0 as int, r.1 as int) == unquote_of(src.chars@, p as int, q as int),
        p <= r.0 <= r.1 <= q,
{
    let ghost t = src.chars@;
    let raw = slice_range(src.chars.as_slice(), p, q);
    let (x, y) = crate::text::trim_bounds(raw);
    proof {
        assert(raw@.subrange(x as int, raw@.len() as int).len() == raw@.len() - x);
    }
    let a = p + x;
    let b = p + y;
    assert(t.subrange(a as int, b as int) =~= raw@.subrange(x as int, y as int));
    proof {
        crate::offsets::lemma_boff_sub(t, a as int, b as int);
    }
    let bytes = src.offs[b] - src.offs[a];
    if bytes >= 2 && b > a {
        let f = src.chars[a];
        let l = src.chars[b - 1];
        if (f == '"' && l == '"') || (f == '\'' && l == '\'') {
            if b - a >= 2 {
                return (a + 1, b - 1);
            } else {
                // One char of two bytes or more is not a quote.
                assert(false) by {
                    assert(b == a + 1);
                    assert(t.subrange(a as int, b as int) =~= seq![f]);
                    assert(crate::text::bytes_of(seq![f]) =~= vstd::utf8::encode_scalar(f as u32)) by {
                        assert(seq![f].drop_first() =~= Seq::<char>::empty());
                        assert(vstd::utf8::encode_utf8(Seq::<char>::empty()) =~= Seq::<u8>::empty());
                    }
                }
            }
        }
    }
    (a, b)
}

/// A scalar frontmatter value: `true`, `false`, a `YYYY-MM-DD` date, or a
/// string.
pub open spec fn scalar_of(s: Seq<char>) -> ValueView {
    if s == seq!['t', 'r', 'u', 'e'] {
        ValueView::Bool(true)
    } else if s == seq!['f', 'a', 'l', 's', 'e'] {
        ValueView::Bool(false)
    } else if is_date_of(s) {
        ValueView::Date(s)
    } else {
        ValueView::Str(s)
    }
}

/// Ten chars, `-` at the fifth and eighth, ASCII digits elsewhere.
pub open spec fn is_date_of(s: Seq<char>) -> bool {
    s.len() == 10 && forall|i: int|
        0 <= i < 10 ==> if i == 4 || i == 7 {
            #[trigger] s[i] == '-'
        } else {
            '0' <= s[i] && s[i] <= '9'
        }
}

fn is_date(s: &[char]) -> (r: bool)
    ensures
        r == is_date_of(s@),
{
    if s.len() != 10 {
        return false;
    }
    let mut i: usize = 0;
    while i < 10
        invariant
            s@.len() == 10,
            i <= 10,
            forall|k: int| 0 <= k < i ==> if k == 4 || k == 7 {
                #[trigger] s@[k] == '-'
            } else {
                '0' <= s@[k] && s@[k] <= '9'
            },
        decreases 10 - i,
    {
        let c = s[i];
        let ok = if i == 4 || i == 7 { c == '-' } else { '0' <= c && c <= '9' };
        if !ok {
            assert(!(if i == 4 || i == 7 { s@[i as int] == '-' } else { '0' <= s@[i as int] && s@[i as int] <= '9' }));
            return false;
        }
        i = i + 1;
    }
    true
}

fn scalar(s: &[char]) -> (r: Value)
    ensures
        r@ == scalar_of(s@),
{
    if s.len() == 4 && s[0] == 't' && s[1] == 'r' && s[2] == 'u' && s[3] == 'e' {
        assert(s@ =~= seq!['t', 'r', 'u', 'e']);
        return Value::Bool(true);
    }
    assert(s@ != seq!['t', 'r', 'u', 'e']) by {
        if s@ == seq!['t', 'r', 'u', 'e'] {
            assert(s@.len() == 4 && s@[0] == 't' && s@[1] == 'r' && s@[2] == 'u' && s@[3] == 'e');
        }
    }
    if s.len() == 5 && s[0] == 'f' && s[1] == 'a' && s[2] == 'l' && s[3] == 's' && s[4] == 'e' {
        assert(s@ =~= seq!['f', 'a', 'l', 's', 'e']);
        return Value::Bool(false);
    }
    assert(s@ != seq!['f', 'a', 'l', 's', 'e']) by {
        if s@ == seq!['f', 'a', 'l', 's', 'e'] {
            assert(s@.len() == 5 && s@[0] == 'f' && s@[1] == 'a' && s@[2] == 'l' && s@[3] == 's' && s@[4] == 'e');
        }
    }
    if is_date(s) {
        Value::Date(string_of(s))
    } else {
        Value::Str(string_of(s))
    }
}

/// A row continues the value of a bare `key:` when it starts with a space
/// or a `-`.
pub open spec fn continues(t: Seq<char>, row: (int, int)) -> bool {
    row.0 < row.1 && (t[row.0] == ' ' || t[row.0] == '-')
}

/// The first row from `i` on that does not continue the value.
pub open spec fn cont_end(t: Seq<char>, body: Seq<(int, int)>, i: int) -> int
    decreases body.len() - i,
{
    if 0 <= i < body.len() && continues(t, body[i]) {
        cont_end(t, body, i + 1)
    } else {
        i
    }
}

/// The item of a `- item` row.
pub open spec fn dash_item(t: Seq<char>, row: (int, int)) -> Option<(int, int)> {
    let a = row.0 + (t.subrange(row.0, row.1).len() - trim_start(t.subrange(row.0, row.1)).len());
    if a + 2 <= row.1 && t[a] == '-' && t[a + 1] == ' ' {
        Some(unquote_of(t, a + 2, row.1))
    } else {
        None
    }
}

/// The items of rows `i..j`, when each is a `- item` row.
pub open spec fn dash_items(t: Seq<char>, body: Seq<(int, int)>, i: int, j: int) -> Option<Seq<(int, int)>>
    decreases j - i,
{
    if i >= j {
        Some(seq![])
    } else {
        match (dash_items(t, body, i, j - 1), dash_item(t, body[j - 1])) {
            (Some(r), Some(x)) => Some(r.push(x)),
            _ => None,
        }
    }
}

/// The texts of rows `i..j`.
pub open spec fn row_texts(t: Seq<char>, body: Seq<(int, int)>, i: int, j: int) -> Seq<Seq<char>>
    decreases j - i,
{
    if i >= j {
        seq![]
    } else {
        row_texts(t, body, i, j - 1).push(t.subrange(body[j - 1].0, body[j - 1].1))
    }
}

/// The texts of some char ranges.
pub open spec fn range_texts(t: Seq<char>, items: Seq<(int, int)>) -> Seq<Seq<char>> {
    items.map_values(|it: (int, int)| t.subrange(it.0, it.1))
}

/// The `,`-separated parts of chars `p..q`.
pub open spec fn comma_parts(t: Seq<char>, p: int, q: int) -> Seq<(int, int)>
    decreases q - p,
{
    if p > q || p < 0 {
        seq![]
    } else if has_char(t.subrange(p, q), ',') {
        let k = first_at(t.subrange(p, q), ',');
        if 0 <= k < q - p {
            seq![(p, p + k)] + comma_parts(t, p + k + 1, q)
        } else {
            seq![]
        }
    } else {
        seq![(p, q)]
    }
}

/// The scalars of the parts that are not blank.
pub open spec fn bracket_items(t: Seq<char>, parts: Seq<(int, int)>) -> Seq<(int, int)>
    decreases parts.len(),
{
    if parts.len() == 0 {
        seq![]
    } else {
        let r = bracket_items(t, parts.drop_last());
        let part = parts.last();
        if trim(t.subrange(part.0, part.1)).len() > 0 {
            r.push(unquote_of(t, part.0, part.1))
        } else {
            r
        }
    }
}

/// One frontmatter entry starting at row `i`: the row after it, and, when
/// the row is `key: value`, the key, the value, the scalars it holds (char
/// ranges), and the char index just past the colon.
pub open spec fn fm_entry(t: Seq<char>, body: Seq<(int, int)>, i: int) -> (int, Option<(Seq<char>, ValueView, Seq<(int, int)>, int)>) {
    let (a, e) = body[i];
    let line = t.subrange(a, e);
    if trim(line).len() == 0 || starts_with(trim_start(line), seq!['#']) || starts_with(line, seq![' ']) || !has_char(line, ':') {
        (i + 1, None)
    } else {
        let c = a + first_at(line, ':');
        let key = trim(t.subrange(a, c));
        let rest = t.subrange(c + 1, e);
        let r0 = c + 1 + (rest.len() - trim_start(rest).len());
        let r1 = r0 + trim(rest).len();
        if trim(rest).len() == 0 {
            let j = cont_end(t, body, i + 1);
            if j == i + 1 {
                (j, Some((key, ValueView::Str(seq![]), seq![], c + 1)))
            } else {
                match dash_items(t, body, i + 1, j) {
                    Some(items) => (j, Some((key, ValueView::List(range_texts(t, items)), items, c + 1))),
                    None => (j, Some((key, ValueView::Raw(join_by(row_texts(t, body, i + 1, j), '\n')), seq![], c + 1))),
                }
            }
        } else if t[r0] == '[' && t[r1 - 1] == ']' && r1 - r0 >= 2 {
            let items = bracket_items(t, comma_parts(t, r0 + 1, r1 - 1));
            (i + 1, Some((key, ValueView::List(range_texts(t, items)), items, c + 1)))
        } else if t[r0] == '{' {
            (i + 1, Some((key, ValueView::Raw(t.subrange(r0, r1)), seq![], c + 1)))
        } else {
            let item = unquote_of(t, c + 1, e);
            (i + 1, Some((key, scalar_of(t.subrange(item.0, item.1)), seq![item], c + 1)))
        }
    }
}

/// Whether a key names tags: `tags` or `tag`, in any ASCII case.
pub open spec fn is_tags_key(key: Seq<char>) -> bool {
    ascii_lowercase(key) == seq!['t', 'a', 'g', 's'] || ascii_lowercase(key) == seq!['t', 'a', 'g']
}

pub open spec fn is_tag_sep(c: char) -> bool {
    c == ',' || c == ' '
}

/// The pieces of `s` between `,` and ` `, empty ones dropped, with the
/// piece already begun in `cur` in front.
pub open spec fn sep_words_from(s: Seq<char>, cur: Seq<char>) -> Seq<Seq<char>>
    decreases s.len(),
{
    if s.len() == 0 {
        if cur.len() == 0 { seq![] } else { seq![cur] }
    } else if is_tag_sep(s[0]) {
        let rest = sep_words_from(s.drop_first(), seq![]);
        if cur.len() == 0 { rest } else { seq![cur] + rest }
    } else {
        sep_words_from(s.drop_first(), cur.push(s[0]))
    }
}

/// The tag names an entry gives, each with the byte offset of its line.
pub open spec fn tag_names(t: Seq<char>, key: Seq<char>, value: ValueView, items: Seq<(int, int)>, rest_at: int) -> Seq<(Seq<char>, int)> {
    if !is_tags_key(key) {
        seq![]
    } else {
        match value {
            ValueView::List(_) => items.map_values(|it: (int, int)| (t.subrange(it.0, it.1), boff(t, it.0))),
            ValueView::Str(s) => sep_words_from(s, seq![]).map_values(|w: Seq<char>| (w, boff(t, rest_at))),
            _ => seq![],
        }
    }
}

/// Tags from names: leading `#`s dropped, empty names skipped.
pub open spec fn fm_tags(b: Seq<u8>, names: Seq<(Seq<char>, int)>) -> Seq<(Seq<char>, u32)>
    decreases names.len(),
{
    if names.len() == 0 {
        seq![]
    } else {
        let r = fm_tags(b, names.drop_last());
        let n = drop_lead(names.last().0, '#');
        if n.len() > 0 {
            r.push((n, line_at(b, names.last().1)))
        } else {
            r
        }
    }
}

/// The first place `]` is followed by `(`.
pub open spec fn paren_at(s: Seq<char>) -> Option<int>
    decreases s.len(),
{
    if s.len() < 2 {
        None
    } else if s[0] == ']' && s[1] == '(' {
        Some(0)
    } else {
        match paren_at(s.drop_first()) {
            Some(k) => Some(k + 1),
            None => None,
        }
    }
}

/// A property value that is a link: `[[path|alias]]` or `[text](dest)`.
pub open spec fn property_link_of(t: Seq<char>, it: (int, int)) -> Option<LinkView> {
    let text = t.subrange(it.0, it.1);
    let start = boff(t, it.0) as usize;
    let end = boff(t, it.1) as usize;
    let line = line_at(bytes_of(t), boff(t, it.0));
    if text.len() >= 4 && starts_with(text, seq!['[', '[']) && ends_with(text.skip(2), seq![']', ']']) {
        let inner = text.subrange(2, text.len() - 2);
        let (path, alias) = match split_once(inner, '|') {
            Some((p, a)) => (p, Some(a)),
            None => (inner, None),
        };
        let (target, fragment) = split_fragment_of(path);
        Some(LinkView { kind: LinkKind::Property, markdown: false, written: text, target, fragment, alias, start, end, line })
    } else if text.len() > 0 && text[0] == '[' && text.last() == ')' {
        match paren_at(text) {
            None => None,
            Some(k) => {
                let dest = text.subrange(k + 2, text.len() - 1);
                if has_scheme_of(dest) {
                    None
                } else {
                    let (target, fragment) = split_fragment_of(percent_decoded(dest));
                    Some(LinkView { kind: LinkKind::Property, markdown: true, written: text, target, fragment, alias: None, start, end, line })
                }
            },
        }
    } else {
        None
    }
}

/// The links among an entry's scalars.
pub open spec fn fm_links(t: Seq<char>, items: Seq<(int, int)>) -> Seq<LinkView>
    decreases items.len(),
{
    if items.len() == 0 {
        seq![]
    } else {
        let r = fm_links(t, items.drop_last());
        match property_link_of(t, items.last()) {
            Some(l) => r.push(l),
            None => r,
        }
    }
}

/// What the frontmatter rows from `i` on add to the links, tags and
/// entries so far.
pub open spec fn fm_apply(
    t: Seq<char>,
    body: Seq<(int, int)>,
    i: int,
    links: Seq<LinkView>,
    tags: Seq<(Seq<char>, u32)>,
    entries: Seq<(Seq<char>, ValueView)>,
) -> (Seq<LinkView>, Seq<(Seq<char>, u32)>, Seq<(Seq<char>, ValueView)>)
    decreases body.len() - i,
{
    if i < 0 || i >= body.len() {
        (links, tags, entries)
    } else {
        let (next, e) = fm_entry(t, body, i);
        if next <= i || next > body.len() {
            (links, tags, entries)
        } else {
            match e {
                None => fm_apply(t, body, next, links, tags, entries),
                Some((key, value, items, rest_at)) => fm_apply(
                    t,
                    body,
                    next,
                    links + fm_links(t, items),
                    tags + fm_tags(bytes_of(t), tag_names(t, key, value, items, rest_at)),
                    entries.push((key, value)),
                ),
            }
        }
    }
}

/// The rows between the fences of the metadata block at bytes
/// `start..end`; none when the range does not fall on chars.
pub open spec fn fm_body(t: Seq<char>, start: usize, end: usize) -> Seq<(int, int)> {
    match (char_index(t, start as int), char_index(t, end as int)) {
        (Some(i), Some(j)) => if i <= j {
            let rows = fm_rows(t, i, j);
            if rows.len() >= 2 { rows.subrange(1, rows.len() - 1) } else { seq![] }
        } else {
            seq![]
        },
        _ => seq![],
    }
}

/// The links, tags and entries of the frontmatter at bytes `start..end`.
pub open spec fn frontmatter_of(t: Seq<char>, start: usize, end: usize) -> (Seq<LinkView>, Seq<(Seq<char>, u32)>, Seq<(Seq<char>, ValueView)>) {
    fm_apply(t, fm_body(t, start, end), 0, seq![], seq![], seq![])
}

/// Char ranges as pairs of integers.
pub open spec fn pairs(v: Seq<(usize, usize)>) -> Seq<(int, int)> {
    v.map_values(|p: (usize, usize)| (p.0 as int, p.1 as int))
}

/// Every range lies in the text, in order.
pub open spec fn ranges_in(t: Seq<char>, v: Seq<(int, int)>) -> bool {
    forall|k: int| 0 <= k < v.len() ==> 0 <= (#[trigger] v[k]).0 <= v[k].1 <= t.len()
}

fn fm_rows_exec(src: &Src, i: usize, j: usize) -> (r: Vec<(usize, usize)>)
    requires
        src.wf(),
        i <= j <= src.chars@.len(),
    ensures
        pairs(r@) == fm_rows(src.chars@, i as int, j as int),
        ranges_in(src.chars@, pairs(r@)),
{
    let ghost t = src.chars@;
    let mut out: Vec<(usize, usize)> = Vec::new();
    let mut a: usize = i;
    while a < j
        invariant
            src.wf(),
            t == src.chars@,
            i <= a <= j <= t.len(),
            pairs(out@) + fm_rows(t, a as int, j as int) == fm_rows(t, i as int, j as int),
            ranges_in(t, pairs(out@)),
        decreases j - a,
    {
        let seg = slice_range(src.chars.as_slice(), a, j);
        let next = match find_char(seg, '\n') {
            Some(k) => a + k + 1,
            None => j,
        };
        proof {
            lemma_line_end_in(t, a as int, j as int);
        }
        assert(next == line_end_in(t, a as int, j as int));
        let piece = slice_range(src.chars.as_slice(), a, next);
        let mut e = next;
        while e > a && (src.chars[e - 1] == '\n' || src.chars[e - 1] == '\r')
            invariant
                src.wf(),
                t == src.chars@,
                a <= e <= next <= t.len(),
                piece@ == t.subrange(a as int, next as int),
                trim_end_by(piece@, |c: char| is_nlcr(c)) == trim_end_by(t.subrange(a as int, e as int), |c: char| is_nlcr(c)),
            decreases e,
        {
            assert(t.subrange(a as int, e as int).drop_last() =~= t.subrange(a as int, e - 1));
            e = e - 1;
        }
        assert(trim_end_by(t.subrange(a as int, e as int), |c: char| is_nlcr(c)) == t.subrange(a as int, e as int));
        let ghost before = pairs(out@);
        out.push((a, e));
        assert(pairs(out@) =~= before.push((a as int, e as int)));
        assert(before.push((a as int, e as int)) + fm_rows(t, next as int, j as int) =~= before + (seq![(a as int, e as int)] + fm_rows(t, next as int, j as int)));
        a = next;
    }
    assert(pairs(out@) + fm_rows(t, a as int, j as int) =~= pairs(out@));
    out
}

fn cont_end_exec(src: &Src, body: &[(usize, usize)], i: usize) -> (r: usize)
    requires
        src.wf(),
        ranges_in(src.chars@, pairs(body@)),
        i <= body@.len(),
    ensures
        r == cont_end(src.chars@, pairs(body@), i as int),
        i <= r <= body@.len(),
{
    let ghost t = src.chars@;
    let ghost bv = pairs(body@);
    let mut j: usize = i;
    while j < body.len() && body[j].0 < body[j].1 && (src.chars[body[j].0] == ' ' || src.chars[body[j].0] == '-')
        invariant
            src.wf(),
            t == src.chars@,
            bv == pairs(body@),
            ranges_in(t, bv),
            i <= j <= body@.len(),
            cont_end(t, bv, i as int) == cont_end(t, bv, j as int),
        decreases body.len() - j,
    {
        assert(bv[j as int] == (body@[j as int].0 as int, body@[j as int].1 as int));
        j = j + 1;
    }
    proof {
        if j < body@.len() {
            assert(bv[j as int] == (body@[j as int].0 as int, body@[j as int].1 as int));
        }
    }
    j
}

fn dash_item_exec(src: &Src, a0: usize, e: usize) -> (r: Option<(usize, usize)>)
    requires
        src.wf(),
        a0 <= e <= src.chars@.len(),
    ensures
        match r {
            Some(x) => dash_item(src.chars@, (a0 as int, e as int)) == Some((x.0 as int, x.1 as int)) && a0 <= x.0 <= x.1 <= e,
            None => dash_item(src.chars@, (a0 as int, e as int)) is None,
        },
{
    let ghost t = src.chars@;
    let row = slice_range(src.chars.as_slice(), a0, e);
    let (x, _) = crate::text::trim_bounds(row);
    let a = a0 + x;
    proof {
        assert(row@.subrange(x as int, row@.len() as int).len() == row@.len() - x);
    }
    if e - a >= 2 && src.chars[a] == '-' && src.chars[a + 1] == ' ' {
        Some(unquote(src, a + 2, e))
    } else {
        None
    }
}

fn dash_list(src: &Src, body: &[(usize, usize)], i: usize, j: usize) -> (r: Option<Vec<(usize, usize)>>)
    requires
        src.wf(),
        ranges_in(src.chars@, pairs(body@)),
        i <= j <= body@.len(),
    ensures
        match r {
            Some(v) => dash_items(src.chars@, pairs(body@), i as int, j as int) == Some(pairs(v@)) && ranges_in(src.chars@, pairs(v@)),
            None => dash_items(src.chars@, pairs(body@), i as int, j as int) is None,
        },
{
    let ghost t = src.chars@;
    let ghost bv = pairs(body@);
    let mut out: Vec<(usize, usize)> = Vec::new();
    let mut k: usize = i;
    while k < j
        invariant
            src.wf(),
            t == src.chars@,
            bv == pairs(body@),
            ranges_in(t, bv),
            i <= k <= j <= body@.len(),
            dash_items(t, bv, i as int, k as int) == Some(pairs(out@)),
            ranges_in(t, pairs(out@)),
        decreases j - k,
    {
        assert(bv[k as int] == (body@[k as int].0 as int, body@[k as int].1 as int));
        match dash_item_exec(src, body[k].0, body[k].1) {
            Some(x) => {
                let ghost before = pairs(out@);
                out.push(x);
                assert(pairs(out@) =~= before.push((x.0 as int, x.1 as int)));
            },
            None => {
                proof {
                    lemma_dash_items_none(t, bv, i as int, k + 1, j as int);
                }
                return None;
            },
        }
        k = k + 1;
    }
    Some(out)
}

proof fn lemma_dash_items_none(t: Seq<char>, body: Seq<(int, int)>, i: int, k: int, j: int)
    requires
        i < k <= j,
        dash_items(t, body, i, k) is None,
    ensures
        dash_items(t, body, i, j) is None,
    decreases j - k,
{
    if k < j {
        lemma_dash_items_none(t, body, i, k + 1, j);
    }
}

fn rows_joined(src: &Src, body: &[(usize, usize)], i: usize, j: usize) -> (r: String)
    requires
        src.wf(),
        ranges_in(src.chars@, pairs(body@)),
        i <= j <= body@.len(),
    ensures
        r@ == join_by(row_texts(src.chars@, pairs(body@), i as int, j as int), '\n'),
{
    let ghost t = src.chars@;
    let ghost bv = pairs(body@);
    let mut parts: Vec<String> = Vec::new();
    let mut k: usize = i;
    while k < j
        invariant
            src.wf(),
            t == src.chars@,
            bv == pairs(body@),
            ranges_in(t, bv),
            i <= k <= j <= body@.len(),
            views(parts@) == row_texts(t, bv, i as int, k as int),
        decreases j - k,
    {
        assert(bv[k as int] == (body@[k as int].0 as int, body@[k as int].1 as int));
        let piece = string_of(slice_range(src.chars.as_slice(), body[k].0, body[k].1));
        let ghost before = views(parts@);
        parts.push(piece);
        assert(views(parts@) =~= before.push(piece@));
        k = k + 1;
    }
    crate::text::join_strings(parts.as_slice(), '\n')
}

fn comma_parts_exec(src: &Src, p: usize, q: usize) -> (r: Vec<(usize, usize)>)
    requires
        src.wf(),
        p <= q <= src.chars@.len(),
    ensures
        pairs(r@) == comma_parts(src.chars@, p as int, q as int),
        ranges_in(src.chars@, pairs(r@)),
{
    let ghost t = src.chars@;
    let mut out: Vec<(usize, usize)> = Vec::new();
    let mut a: usize = p;
    loop
        invariant
            src.wf(),
            t == src.chars@,
            p <= a <= q <= t.len(),
            pairs(out@) + comma_parts(t, a as int, q as int) == comma_parts(t, p as int, q as int),
            ranges_in(t, pairs(out@)),
        decreases q - a,
    {
        let seg = slice_range(src.chars.as_slice(), a, q);
        let ghost before = pairs(out@);
        match find_char(seg, ',') {
            Some(k) => {
                out.push((a, a + k));
                assert(pairs(out@) =~= before.push((a as int, a + k)));
                assert(before.push((a as int, a + k)) + comma_parts(t, a + k + 1, q as int) =~= before + (seq![(a as int, a + k)] + comma_parts(t, a + k + 1, q as int)));
                a = a + k + 1;
            },
            None => {
                out.push((a, q));
                assert(pairs(out@) =~= before.push((a as int, q as int)));
                assert(pairs(out@) =~= before + comma_parts(t, a as int, q as int));
                return out;
            },
        }
    }
}

fn bracket_items_exec(src: &Src, parts: &[(usize, usize)]) -> (r: Vec<(usize, usize)>)
    requires
        src.wf(),
        ranges_in(src.chars@, pairs(parts@)),
    ensures
        pairs(r@) == bracket_items(src.chars@, pairs(parts@)),
        ranges_in(src.chars@, pairs(r@)),
{
    let ghost t = src.chars@;
    let ghost pv = pairs(parts@);
    let mut out: Vec<(usize, usize)> = Vec::new();
    let mut k: usize = 0;
    while k < parts.len()
        invariant
            src.wf(),
            t == src.chars@,
            pv == pairs(parts@),
            ranges_in(t, pv),
            k <= parts@.len(),
            pairs(out@) == bracket_items(t, pv.take(k as int)),
            ranges_in(t, pairs(out@)),
        decreases parts.len() - k,
    {
        assert(pv.take(k + 1).drop_last() =~= pv.take(k as int));
        assert(pv.take(k + 1).last() == pv[k as int]);
        assert(pv[k as int] == (parts@[k as int].0 as int, parts@[k as int].1 as int));
        let (a, b) = parts[k];
        let piece = slice_range(src.chars.as_slice(), a, b);
        if trim_chars(piece).len() > 0 {
            let x = unquote(src, a, b);
            let ghost before = pairs(out@);
            out.push(x);
            assert(pairs(out@) =~= before.push((x.0 as int, x.1 as int)));
        }
        k = k + 1;
    }
    assert(pv.take(parts@.len() as int) =~= pv);
    out
}

/// The texts of some char ranges, as strings.
fn texts_of(src: &Src, items: &[(usize, usize)]) -> (r: Vec<String>)
    requires
        src.wf(),
        ranges_in(src.chars@, pairs(items@)),
    ensures
        views(r@) == range_texts(src.chars@, pairs(items@)),
{
    let ghost t = src.chars@;
    let ghost iv = pairs(items@);
    let mut out: Vec<String> = Vec::new();
    let mut k: usize = 0;
    while k < items.len()
        invariant
            src.wf(),
            t == src.chars@,
            iv == pairs(items@),
            ranges_in(t, iv),
            k <= items@.len(),
            views(out@) == range_texts(t, iv).take(k as int),
        decreases items.len() - k,
    {
        assert(iv[k as int] == (items@[k as int].0 as int, items@[k as int].1 as int));
        let piece = string_of(slice_range(src.chars.as_slice(), items[k].0, items[k].1));
        let ghost before = views(out@);
        out.push(piece);
        assert(range_texts(t, iv)[k as int] == piece@);
        assert(views(out@) =~= before.push(piece@));
        assert(views(out@) =~= range_texts(t, iv).take(k + 1));
        k = k + 1;
    }
    assert(range_texts(t, iv).take(items@.len() as int) =~= range_texts(t, iv));
    out
}

/// One entry's parse: see `fm_entry`.
fn fm_entry_exec(src: &Src, body: &[(usize, usize)], i: usize) -> (r: (usize, Option<(String, Value, Vec<(usize, usize)>, usize)>))
    requires
        src.wf(),
        ranges_in(src.chars@, pairs(body@)),
        i < body@.len(),
    ensures
        i < r.0 <= body@.len(),
        fm_entry(src.chars@, pairs(body@), i as int).0 == r.0,
        match r.1 {
            Some((key, value, items, rest_at)) => {
                &&& fm_entry(src.chars@, pairs(body@), i as int).1 == Some((key@, value@, pairs(items@), rest_at as int))
                &&& ranges_in(src.chars@, pairs(items@))
                &&& rest_at <= src.chars@.len()
            },
            None => fm_entry(src.chars@, pairs(body@), i as int).1 is None,
        },
{
    let ghost t = src.chars@;
    let ghost bv = pairs(body@);
    assert(bv[i as int] == (body@[i as int].0 as int, body@[i as int].1 as int));
    let (a, e) = body[i];
    let line = slice_range(src.chars.as_slice(), a, e);
    let (x0, x1) = crate::text::trim_bounds(line);
    let blank = x0 == x1;
    let hash = x0 < line.len() && line[x0] == '#';
    let space = line.len() > 0 && line[0] == ' ';
    proof {
        let ts = line@.subrange(x0 as int, line@.len() as int);
        if x0 < line@.len() {
            assert(ts.take(1) =~= seq![line@[x0 as int]]);
            if line@[x0 as int] != '#' {
                assert(ts.take(1)[0] != seq!['#'][0]);
            }
        }
        if line@.len() > 0 {
            assert(line@.take(1) =~= seq![line@[0]]);
            if line@[0] != ' ' {
                assert(line@.take(1)[0] != seq![' '][0]);
            }
        }
    }
    let colon = find_char(line, ':');
    if blank || hash || space || colon.is_none() {
        return (i + 1, None);
    }
    let kc = colon.unwrap();
    let c = a + kc;
    let key = string_of(trim_chars(slice_range(src.chars.as_slice(), a, c)));
    assert(t.subrange(a as int, c as int) =~= line@.take(kc as int));
    let rest = slice_range(src.chars.as_slice(), c + 1, e);
    let (y0, y1) = crate::text::trim_bounds(rest);
    proof {
        assert(rest@.subrange(y0 as int, rest@.len() as int).len() == rest@.len() - y0);
    }
    let r0 = c + 1 + y0;
    let r1 = c + 1 + y1;
    assert(t.subrange(r0 as int, r1 as int) =~= rest@.subrange(y0 as int, y1 as int));
    if y0 == y1 {
        let j = cont_end_exec(src, body, i + 1);
        if j == i + 1 {
            return (j, Some((key, Value::Str(String::new()), Vec::new(), c + 1)));
        }
        match dash_list(src, body, i + 1, j) {
            Some(items) => {
                let texts = texts_of(src, items.as_slice());
                return (j, Some((key, Value::List(texts), items, c + 1)));
            },
            None => {
                let raw = rows_joined(src, body, i + 1, j);
                return (j, Some((key, Value::Raw(raw), Vec::new(), c + 1)));
            },
        }
    }
    if src.chars[r0] == '[' && src.chars[r1 - 1] == ']' && r1 - r0 >= 2 {
        let parts = comma_parts_exec(src, r0 + 1, r1 - 1);
        let items = bracket_items_exec(src, parts.as_slice());
        let texts = texts_of(src, items.as_slice());
        return (i + 1, Some((key, Value::List(texts), items, c + 1)));
    }
    if src.chars[r0] == '{' {
        let raw = string_of(slice_range(src.chars.as_slice(), r0, r1));
        return (i + 1, Some((key, Value::Raw(raw), Vec::new(), c + 1)));
    }
    let item = unquote(src, c + 1, e);
    let value = scalar(slice_range(src.chars.as_slice(), item.0, item.1));
    let mut items: Vec<(usize, usize)> = Vec::new();
    items.push(item);
    assert(pairs(items@) =~= seq![(item.0 as int, item.1 as int)]);
    (i + 1, Some((key, value, items, c + 1)))
}

fn sep_words(s: &[char]) -> (r: Vec<Vec<char>>)
    ensures
        r@.map_values(|v: Vec<char>| v@) == sep_words_from(s@, seq![]),
{
    let mut out: Vec<Vec<char>> = Vec::new();
    let mut cur: Vec<char> = Vec::new();
    let mut i: usize = 0;
    assert(s@.skip(0) =~= s@);
    while i < s.len()
        invariant
            i <= s@.len(),
            out@.map_values(|v: Vec<char>| v@) + sep_words_from(s@.skip(i as int), cur@) == sep_words_from(s@, seq![]),
        decreases s.len() - i,
    {
        let ghost rest = s@.skip(i as int);
        assert(rest.drop_first() =~= s@.skip(i + 1));
        let ghost before = out@.map_values(|v: Vec<char>| v@);
        if s[i] == ',' || s[i] == ' ' {
            if cur.len() > 0 {
                let ghost cv = cur@;
                out.push(cur);
                cur = Vec::new();
                assert(out@.map_values(|v: Vec<char>| v@) =~= before.push(cv));
                assert(before.push(cv) + sep_words_from(s@.skip(i + 1), cur@) =~= before + (seq![cv] + sep_words_from(s@.skip(i + 1), seq![])));
            } else {
                assert(cur@ =~= Seq::<char>::empty());
                assert(cur@ == Seq::<char>::empty());
            }
        } else {
            cur.push(s[i]);
        }
        i = i + 1;
    }
    let ghost before = out@.map_values(|v: Vec<char>| v@);
    if cur.len() > 0 {
        let ghost cv = cur@;
        out.push(cur);
        assert(out@.map_values(|v: Vec<char>| v@) =~= before.push(cv));
        assert(sep_words_from(s@.skip(i as int), cv) =~= seq![cv]);
    } else {
        assert(cur@ =~= Seq::<char>::empty());
        assert(sep_words_from(s@.skip(i as int), cur@) =~= Seq::<Seq<char>>::empty());
    }
    assert(out@.map_values(|v: Vec<char>| v@) =~= sep_words_from(s@, seq![]));
    out
}

fn is_tags_key_exec(key: &[char]) -> (r: bool)
    ensures
        r == is_tags_key(key@),
{
    let low = crate::text::ascii_lowercase_exec(key);
    let l = low.as_slice();
    let four = l.len() == 4 && l[0] == 't' && l[1] == 'a' && l[2] == 'g' && l[3] == 's';
    let three = l.len() == 3 && l[0] == 't' && l[1] == 'a' && l[2] == 'g';
    proof {
        if four {
            assert(low@ =~= seq!['t', 'a', 'g', 's']);
        }
        if three {
            assert(low@ =~= seq!['t', 'a', 'g']);
        }
        if low@ == seq!['t', 'a', 'g', 's'] {
            assert(low@.len() == 4 && low@[0] == 't' && low@[1] == 'a' && low@[2] == 'g' && low@[3] == 's');
        }
        if low@ == seq!['t', 'a', 'g'] {
            assert(low@.len() == 3 && low@[0] == 't' && low@[1] == 'a' && low@[2] == 'g');
        }
    }
    four || three
}

fn push_fm_tags(
    src: &Src,
    lines: &LineIndex,
    key: &[char],
    value: &Value,
    items: &[(usize, usize)],
    rest_at: usize,
    tags: &mut Vec<Tag>,
)
    requires
        src.wf(),
        lines.wf(bytes_of(src.chars@)),
        ranges_in(src.chars@, pairs(items@)),
        rest_at <= src.chars@.len(),
    ensures
        tag_views(final(tags)@) == tag_views(old(tags)@) + fm_tags(
            bytes_of(src.chars@),
            tag_names(src.chars@, key@, value@, pairs(items@), rest_at as int),
        ),
{
    let ghost t = src.chars@;
    let ghost b = bytes_of(t);
    let mut names: Vec<(Vec<char>, usize)> = Vec::new();
    if is_tags_key_exec(key) {
        match value {
            Value::List(_) => {
                let mut k: usize = 0;
                while k < items.len()
                    invariant
                        src.wf(),
                        t == src.chars@,
                        ranges_in(t, pairs(items@)),
                        k <= items@.len(),
                        names@.map_values(|n: (Vec<char>, usize)| (n.0@, n.1 as int)) == pairs(items@).map_values(
                            |it: (int, int)| (t.subrange(it.0, it.1), boff(t, it.0)),
                        ).take(k as int),
                    decreases items.len() - k,
                {
                    assert(pairs(items@)[k as int] == (items@[k as int].0 as int, items@[k as int].1 as int));
                    let (a, e) = items[k];
                    let ghost before = names@.map_values(|n: (Vec<char>, usize)| (n.0@, n.1 as int));
                    let piece = vstd::slice::slice_to_vec(slice_range(src.chars.as_slice(), a, e));
                    let off = src.offs[a];
                    names.push((piece, off));
                    assert(names@.map_values(|n: (Vec<char>, usize)| (n.0@, n.1 as int)) =~= before.push((piece@, off as int)));
                    assert(pairs(items@).map_values(|it: (int, int)| (t.subrange(it.0, it.1), boff(t, it.0)))[k as int] == (piece@, off as int));
                    assert(names@.map_values(|n: (Vec<char>, usize)| (n.0@, n.1 as int)) =~= pairs(items@).map_values(
                        |it: (int, int)| (t.subrange(it.0, it.1), boff(t, it.0)),
                    ).take(k + 1));
                    k = k + 1;
                }
                assert(pairs(items@).map_values(|it: (int, int)| (t.subrange(it.0, it.1), boff(t, it.0))).take(
                    items@.len() as int,
                ) =~= pairs(items@).map_values(|it: (int, int)| (t.subrange(it.0, it.1), boff(t, it.0))));
            },
            Value::Str(s) => {
                let sc = chars_of(s.as_str());
                let ws = sep_words(sc.as_slice());
                let ghost wv = ws@.map_values(|v: Vec<char>| v@);
                let at = src.offs[rest_at];
                let mut k: usize = 0;
                while k < ws.len()
                    invariant
                        src.wf(),
                        t == src.chars@,
                        wv == ws@.map_values(|v: Vec<char>| v@),
                        at == boff(t, rest_at as int),
                        k <= ws@.len(),
                        names@.map_values(|n: (Vec<char>, usize)| (n.0@, n.1 as int)) == wv.map_values(
                            |w: Seq<char>| (w, boff(t, rest_at as int)),
                        ).take(k as int),
                    decreases ws.len() - k,
                {
                    let ghost before = names@.map_values(|n: (Vec<char>, usize)| (n.0@, n.1 as int));
                    let w = ws[k].clone();
                    assert(w@ == wv[k as int]);
                    names.push((w, at));
                    assert(names@.map_values(|n: (Vec<char>, usize)| (n.0@, n.1 as int)) =~= before.push((wv[k as int], at as int)));
                    assert(names@.map_values(|n: (Vec<char>, usize)| (n.0@, n.1 as int)) =~= wv.map_values(
                        |w: Seq<char>| (w, boff(t, rest_at as int)),
                    ).take(k + 1));
                    k = k + 1;
                }
                assert(wv.map_values(|w: Seq<char>| (w, boff(t, rest_at as int))).take(ws@.len() as int) =~= wv.map_values(
                    |w: Seq<char>| (w, boff(t, rest_at as int)),
                ));
            },
            _ => {},
        }
    }
    let ghost nv = names@.map_values(|n: (Vec<char>, usize)| (n.0@, n.1 as int));
    assert(nv == tag_names(t, key@, value@, pairs(items@), rest_at as int));
    let ghost base = tag_views(tags@);
    let mut k: usize = 0;
    while k < names.len()
        invariant
            src.wf(),
            lines.wf(b),
            t == src.chars@,
            b == bytes_of(t),
            nv == names@.map_values(|n: (Vec<char>, usize)| (n.0@, n.1 as int)),
            k <= names@.len(),
            tag_views(tags@) == base + fm_tags(b, nv.take(k as int)),
        decreases names.len() - k,
    {
        assert(nv.take(k + 1).drop_last() =~= nv.take(k as int));
        assert(nv.take(k + 1).last() == nv[k as int]);
        let n = drop_lead_exec(names[k].0.as_slice(), '#');
        if n.len() > 0 {
            let line = lines.line(names[k].1, Ghost(b));
            let ghost before = tag_views(tags@);
            tags.push(Tag { name: string_of(n), line });
            assert(tag_views(tags@) =~= before.push((n@, line)));
        }
        k = k + 1;
    }
    assert(nv.take(names@.len() as int) =~= nv);
}

fn paren_at_exec(s: &[char]) -> (r: Option<usize>)
    ensures
        match r {
            Some(k) => paren_at(s@) == Some(k as int) && k + 2 <= s@.len() && s@[k as int] == ']' && s@[k + 1] == '(',
            None => paren_at(s@) is None,
        },
{
    let mut k: usize = 0;
    assert(s@.skip(0) =~= s@);
    while s.len() - k > 1
        invariant
            k <= s@.len(),
            paren_at(s@) == match paren_at(s@.skip(k as int)) {
                Some(j) => Some(j + k),
                None => None,
            },
        decreases s.len() - k,
    {
        if s[k] == ']' && s[k + 1] == '(' {
            return Some(k);
        }
        assert(s@.skip(k as int).drop_first() =~= s@.skip(k + 1));
        k = k + 1;
    }
    None
}

fn property_link(src: &Src, lines: &LineIndex, p: usize, q: usize) -> (r: Option<Link>)
    requires
        src.wf(),
        lines.wf(bytes_of(src.chars@)),
        p <= q <= src.chars@.len(),
    ensures
        match r {
            Some(l) => property_link_of(src.chars@, (p as int, q as int)) == Some(l@),
            None => property_link_of(src.chars@, (p as int, q as int)) is None,
        },
{
    let ghost t = src.chars@;
    let text = slice_range(src.chars.as_slice(), p, q);
    let n = text.len();
    let start = src.offs[p];
    let end = src.offs[q];
    if n >= 4 && text[0] == '[' && text[1] == '[' && text[n - 2] == ']' && text[n - 1] == ']' {
        assert(text@.take(2) =~= seq!['[', '[']);
        assert(text@.skip(2).skip(text@.skip(2).len() - 2) =~= seq![']', ']']);
        let inner = slice_range(text, 2, n - 2);
        let (path, alias): (&[char], Option<String>) = match split_once_exec(inner, '|') {
            Some((pa, al)) => (pa, Some(string_of(al))),
            None => (inner, None),
        };
        let (target, fragment) = split_fragment(path);
        let line = lines.line(start, Ghost(bytes_of(t)));
        return Some(Link {
            kind: LinkKind::Property,
            markdown: false,
            written: string_of(text),
            target,
            fragment,
            alias,
            span: start..end,
            line,
        });
    }
    proof {
        if text@.len() >= 4 && starts_with(text@, seq!['[', '[']) && ends_with(text@.skip(2), seq![']', ']']) {
            assert(text@.take(2)[0] == '[' && text@.take(2)[1] == '[');
            let sk = text@.skip(2);
            assert(sk.skip(sk.len() - 2)[0] == ']' && sk.skip(sk.len() - 2)[1] == ']');
        }
    }
    if n > 0 && text[0] == '[' && text[n - 1] == ')' {
        let k = match paren_at_exec(text) {
            Some(k) => k,
            None => return None,
        };
        if k + 2 > n - 1 {
            // `](` then `)` at the end leaves at least the `)`.
            assert(false) by {
                assert(text@[k + 1] == '(');
            }
        }
        let dest = slice_range(text, k + 2, n - 1);
        if has_scheme(dest) {
            return None;
        }
        let decoded = percent_decode(string_of(dest).as_str());
        let dc = chars_of(decoded.as_str());
        let (target, fragment) = split_fragment(dc.as_slice());
        let line = lines.line(start, Ghost(bytes_of(t)));
        return Some(Link {
            kind: LinkKind::Property,
            markdown: true,
            written: string_of(text),
            target,
            fragment,
            alias: None,
            span: start..end,
            line,
        });
    }
    None
}

/// The links of the views of some links.
pub open spec fn link_views(links: Seq<Link>) -> Seq<LinkView> {
    links.map_values(|l: Link| l@)
}

fn push_fm_links(src: &Src, lines: &LineIndex, items: &[(usize, usize)], links: &mut Vec<Link>)
    requires
        src.wf(),
        lines.wf(bytes_of(src.chars@)),
        ranges_in(src.chars@, pairs(items@)),
    ensures
        link_views(final(links)@) == link_views(old(links)@) + fm_links(src.chars@, pairs(items@)),
{
    let ghost t = src.chars@;
    let ghost iv = pairs(items@);
    let ghost base = link_views(links@);
    let mut k: usize = 0;
    while k < items.len()
        invariant
            src.wf(),
            lines.wf(bytes_of(src.chars@)),
            t == src.chars@,
            iv == pairs(items@),
            ranges_in(t, iv),
            k <= items@.len(),
            link_views(links@) == base + fm_links(t, iv.take(k as int)),
        decreases items.len() - k,
    {
        assert(iv.take(k + 1).drop_last() =~= iv.take(k as int));
        assert(iv.take(k + 1).last() == iv[k as int]);
        assert(iv[k as int] == (items@[k as int].0 as int, items@[k as int].1 as int));
        if let Some(l) = property_link(src, lines, items[k].0, items[k].1) {
            let ghost before = link_views(links@);
            links.push(l);
            assert(link_views(links@) =~= before.push(l@));
        }
        k = k + 1;
    }
    assert(iv.take(items@.len() as int) =~= iv);
}

fn parse_frontmatter(
    src: &Src,
    lines: &LineIndex,
    start: usize,
    end: usize,
    links: &mut Vec<Link>,
    tags: &mut Vec<Tag>,
    entries: &mut Vec<(String, Value)>,
)
    requires
        src.wf(),
        lines.wf(bytes_of(src.chars@)),
    ensures
        ({
            let (l, t, e) = frontmatter_of(src.chars@, start, end);
            &&& link_views(final(links)@) == link_views(old(links)@) + l
            &&& tag_views(final(tags)@) == tag_views(old(tags)@) + t
            &&& entry_views(final(entries)@) == entry_views(old(entries)@) + e
        }),
{
    let ghost t = src.chars@;
    let ghost (l0, t0, e0) = (link_views(links@), tag_views(tags@), entry_views(entries@));
    let (i, j) = match (src.index_at(start), src.index_at(end)) {
        (Some(i), Some(j)) => (i, j),
        _ => {
            assert(fm_body(t, start, end) =~= Seq::<(int, int)>::empty());
            assert(l0 =~= l0 + Seq::<LinkView>::empty());
            assert(t0 =~= t0 + Seq::<(Seq<char>, u32)>::empty());
            assert(e0 =~= e0 + Seq::<(Seq<char>, ValueView)>::empty());
            return;
        },
    };
    let rows = if i <= j { fm_rows_exec(src, i, j) } else { Vec::new() };
    let body: &[(usize, usize)] = if rows.len() >= 2 { slice_range(rows.as_slice(), 1, rows.len() - 1) } else { slice_range(rows.as_slice(), 0, 0) };
    let ghost bv = pairs(body@);
    assert(bv == fm_body(t, start, end)) by {
        if i <= j && rows@.len() >= 2 {
            assert(pairs(body@) =~= pairs(rows@).subrange(1, rows@.len() - 1));
        } else {
            assert(pairs(body@) =~= Seq::<(int, int)>::empty());
        }
    }
    assert(ranges_in(t, bv)) by {
        assert forall|k: int| 0 <= k < bv.len() implies 0 <= (#[trigger] bv[k]).0 <= bv[k].1 <= t.len() by {
            assert(bv[k] == pairs(rows@)[k + 1]);
        }
    }
    assert(l0 =~= l0 + Seq::<LinkView>::empty());
    assert(t0 =~= t0 + Seq::<(Seq<char>, u32)>::empty());
    assert(e0 =~= e0 + Seq::<(Seq<char>, ValueView)>::empty());
    assert(link_views(links@).skip(l0.len() as int) =~= Seq::<LinkView>::empty());
    assert(tag_views(tags@).skip(t0.len() as int) =~= Seq::<(Seq<char>, u32)>::empty());
    assert(entry_views(entries@).skip(e0.len() as int) =~= Seq::<(Seq<char>, ValueView)>::empty());
    assert(link_views(links@).take(l0.len() as int) =~= l0);
    assert(tag_views(tags@).take(t0.len() as int) =~= t0);
    assert(entry_views(entries@).take(e0.len() as int) =~= e0);
    let mut k: usize = 0;
    while k < body.len()
        invariant
            src.wf(),
            lines.wf(bytes_of(src.chars@)),
            t == src.chars@,
            bv == pairs(body@),
            ranges_in(t, bv),
            k <= body@.len(),
            fm_apply(t, bv, 0, seq![], seq![], seq![]) == fm_apply(
                t,
                bv,
                k as int,
                link_views(links@).skip(l0.len() as int),
                tag_views(tags@).skip(t0.len() as int),
                entry_views(entries@).skip(e0.len() as int),
            ),
            link_views(links@).take(l0.len() as int) == l0,
            tag_views(tags@).take(t0.len() as int) == t0,
            entry_views(entries@).take(e0.len() as int) == e0,
            l0.len() <= link_views(links@).len(),
            t0.len() <= tag_views(tags@).len(),
            e0.len() <= entry_views(entries@).len(),
        decreases body.len() - k,
    {
        let ghost (la, ta, ea) = (link_views(links@), tag_views(tags@), entry_views(entries@));
        let (next, entry) = fm_entry_exec(src, body, k);
        match entry {
            None => {},
            Some((key, value, items, rest_at)) => {
                let kc = chars_of(key.as_str());
                push_fm_tags(src, lines, kc.as_slice(), &value, items.as_slice(), rest_at, tags);
                push_fm_links(src, lines, items.as_slice(), links);
                let ghost kv = key@;
                let ghost vv = value@;
                entries.push((key, value));
                assert(entry_views(entries@) =~= ea.push((kv, vv)));
                assert(link_views(links@).skip(l0.len() as int) =~= la.skip(l0.len() as int) + fm_links(t, pairs(items@)));
                assert(tag_views(tags@).skip(t0.len() as int) =~= ta.skip(t0.len() as int) + fm_tags(
                    bytes_of(t),
                    tag_names(t, kv, vv, pairs(items@), rest_at as int),
                ));
                assert(entry_views(entries@).skip(e0.len() as int) =~= ea.skip(e0.len() as int).push((kv, vv)));
                assert(link_views(links@).take(l0.len() as int) =~= l0);
                assert(tag_views(tags@).take(t0.len() as int) =~= t0);
                assert(entry_views(entries@).take(e0.len() as int) =~= e0);
            },
        }
        k = next;
    }
    assert(link_views(links@) =~= l0 + link_views(links@).skip(l0.len() as int));
    assert(tag_views(tags@) =~= t0 + tag_views(tags@).skip(t0.len() as int));
    assert(entry_views(entries@) =~= e0 + entry_views(entries@).skip(e0.len() as int));
}

/// Frontmatter entries as plain values.
pub open spec fn entry_views(e: Seq<(String, Value)>) -> Seq<(Seq<char>, ValueView)> {
    e.map_values(|x: (String, Value)| (x.0@, x.1@))
}

/// What the event loop has gathered so far.
pub struct Gathered {
    pub links: Seq<LinkView>,
    pub tags: Seq<(Seq<char>, u32)>,
    pub headings: Seq<(u8, Seq<char>, u32)>,
    pub frontmatter: Option<(usize, usize)>,
    pub in_link: nat,
    pub in_code_block: bool,
    pub in_metadata: bool,
    /// The heading being read: level, start, text so far.
    pub heading: Option<(u8, usize, Seq<char>)>,
}

/// The payload of event `i`, if the payloads reach it.
pub open spec fn payload_at(ps: Seq<Option<Result<Seq<char>, u8>>>, i: int) -> Option<Result<Seq<char>, u8>> {
    if 0 <= i < ps.len() {
        ps[i]
    } else {
        None
    }
}

/// The text a payload carries, or nothing.
pub open spec fn payload_text(p: Option<Result<Seq<char>, u8>>) -> Seq<char> {
    match p {
        Some(Ok(s)) => s,
        _ => seq![],
    }
}

/// The heading level a payload carries, or 0.
pub open spec fn payload_level(p: Option<Result<Seq<char>, u8>>) -> u8 {
    match p {
        Some(Err(l)) => l,
        _ => 0,
    }
}

/// The link style of event `i`, if the styles reach it.
pub open spec fn style_at(ss: Seq<LinkStyle>, i: int) -> LinkStyle {
    if 0 <= i < ss.len() {
        ss[i]
    } else {
        LinkStyle::Auto
    }
}

/// One event's effect on what is gathered.
pub open spec fn step(
    t: Seq<char>,
    comments: Seq<Span>,
    g: Gathered,
    kind: MdKind,
    start: usize,
    end: usize,
    payload: Option<Result<Seq<char>, u8>>,
    style: LinkStyle,
) -> Gathered {
    match kind {
        MdKind::Meta => Gathered { in_metadata: true, frontmatter: Some((start, end)), ..g },
        MdKind::MetaEnd => Gathered { in_metadata: false, ..g },
        MdKind::CodeBlock => Gathered { in_code_block: true, ..g },
        MdKind::CodeBlockEnd => Gathered { in_code_block: false, ..g },
        MdKind::Heading => if !in_ranges(comments, start as int) {
            Gathered { heading: Some((payload_level(payload), start, seq![])), ..g }
        } else {
            g
        },
        MdKind::HeadingEnd => match g.heading {
            Some((level, hs, text)) => Gathered {
                headings: g.headings.push((level, trim(text), line_at(bytes_of(t), hs as int))),
                heading: None,
                ..g
            },
            None => g,
        },
        MdKind::Link | MdKind::Image => {
            let links = if !in_ranges(comments, start as int) {
                match link_of(t, style, payload_text(payload), start, end, kind == MdKind::Image) {
                    Some(l) => g.links.push(l),
                    None => g.links,
                }
            } else {
                g.links
            };
            Gathered { in_link: g.in_link + 1, links, ..g }
        },
        MdKind::LinkEnd => Gathered { in_link: if g.in_link > 0 { (g.in_link - 1) as nat } else { 0 }, ..g },
        MdKind::Text => {
            let heading = match g.heading {
                Some((l, hs, text)) => Some((l, hs, text + payload_text(payload))),
                None => None,
            };
            let tags = if g.in_link == 0 && !g.in_code_block && !g.in_metadata {
                g.tags + event_tags(t, comments, start, end)
            } else {
                g.tags
            };
            Gathered { heading, tags, ..g }
        },
        MdKind::Code => match g.heading {
            Some((l, hs, text)) => Gathered { heading: Some((l, hs, text + payload_text(payload))), ..g },
            None => g,
        },
        MdKind::Other => g,
    }
}

/// The events from `i` on, applied in order.
pub open spec fn gather(
    t: Seq<char>,
    comments: Seq<Span>,
    kinds: Seq<(MdKind, usize, usize)>,
    ps: Seq<Option<Result<Seq<char>, u8>>>,
    ss: Seq<LinkStyle>,
    i: int,
    g: Gathered,
) -> Gathered
    decreases kinds.len() - i,
{
    if i < 0 || i >= kinds.len() {
        g
    } else {
        gather(t, comments, kinds, ps, ss, i + 1, step(t, comments, g, kinds[i].0, kinds[i].1, kinds[i].2, payload_at(ps, i), style_at(ss, i)))
    }
}

/// Nothing gathered yet.
pub open spec fn gathered_none() -> Gathered {
    Gathered {
        links: seq![],
        tags: seq![],
        headings: seq![],
        frontmatter: None,
        in_link: 0,
        in_code_block: false,
        in_metadata: false,
        heading: None,
    }
}

/// `x` placed after every element whose key is not greater than its own.
pub open spec fn insert_by<A>(s: Seq<A>, x: A, key: spec_fn(A) -> int) -> Seq<A>
    decreases s.len(),
{
    if s.len() == 0 {
        seq![x]
    } else if key(x) < key(s[0]) {
        seq![x] + s
    } else {
        seq![s[0]] + insert_by(s.drop_first(), x, key)
    }
}

/// A stable sort by `key`.
pub open spec fn sort_by<A>(s: Seq<A>, key: spec_fn(A) -> int) -> Seq<A>
    decreases s.len(),
{
    if s.len() == 0 {
        s
    } else {
        insert_by(sort_by(s.drop_last(), key), s.last(), key)
    }
}

pub open spec fn link_key(l: LinkView) -> int {
    l.start as int
}

pub open spec fn tag_key(t: (Seq<char>, u32)) -> int {
    t.1 as int
}

/// What `parse` extracts, given the events of the text.
pub open spec fn parse_spec(
    t: Seq<char>,
    kinds: Seq<(MdKind, usize, usize)>,
    ps: Seq<Option<Result<Seq<char>, u8>>>,
    ss: Seq<LinkStyle>,
) -> ParsedView {
    let code = code_ranges_of(kinds);
    let comments = comment_ranges_of(bytes_of(t), code);
    let g = gather(t, comments, kinds, ps, ss, 0, gathered_none());
    let (fl, ft, fe) = match g.frontmatter {
        Some((a, b)) => frontmatter_of(t, a, b),
        None => (seq![], seq![], seq![]),
    };
    ParsedView {
        links: sort_by(g.links + fl, |l: LinkView| link_key(l)),
        tags: sort_by(g.tags + ft, |x: (Seq<char>, u32)| tag_key(x)),
        headings: g.headings,
        blocks: block_ids_from(t, code, comments, 0),
        frontmatter: fe,
    }
}

/// Inserting at the first place `x` sorts before is `insert_by`.
proof fn lemma_insert_by<A>(s: Seq<A>, x: A, key: spec_fn(A) -> int, p: int)
    requires
        0 <= p <= s.len(),
        forall|k: int| 0 <= k < p ==> !(key(x) < key(#[trigger] s[k])),
        p < s.len() ==> key(x) < key(s[p]),
    ensures
        insert_by(s, x, key) == s.insert(p, x),
    decreases s.len(),
{
    if s.len() == 0 {
        assert(s.insert(p, x) =~= seq![x]);
    } else if p == 0 {
        assert(s.insert(p, x) =~= seq![x] + s);
    } else {
        assert forall|k: int| 0 <= k < p - 1 implies !(key(x) < key(#[trigger] s.drop_first()[k])) by {
            assert(s.drop_first()[k] == s[k + 1]);
        }
        lemma_insert_by(s.drop_first(), x, key, p - 1);
        assert(seq![s[0]] + s.drop_first().insert(p - 1, x) =~= s.insert(p, x));
    }
}

fn sort_links(v: Vec<Link>) -> (r: Vec<Link>)
    ensures
        link_views(r@) == sort_by(link_views(v@), |l: LinkView| link_key(l)),
{
    let ghost key = |l: LinkView| link_key(l);
    let ghost vv = link_views(v@);
    let mut out: Vec<Link> = Vec::new();
    let rest = v;
    let mut i: usize = 0;
    let n = rest.len();
    assert(vv.take(0) =~= Seq::<LinkView>::empty());
    while i < n
        invariant
            n == vv.len(),
            i <= n,
            rest@.len() == n,
            link_views(rest@) == vv,
            link_views(out@) == sort_by(vv.take(i as int), key),
            key == (|l: LinkView| link_key(l)),
        decreases n - i,
    {
        let x = rest[i].clone_link();
        let mut p: usize = 0;
        while p < out.len() && !(x.span.start < out[p].span.start)
            invariant
                p <= out@.len(),
                x@ == vv[i as int],
                i < n,
                n == vv.len(),
                key == (|l: LinkView| link_key(l)),
                forall|k: int| 0 <= k < p ==> !(key(x@) < key(#[trigger] link_views(out@)[k])),
            decreases out.len() - p,
        {
            assert(link_views(out@)[p as int] == out@[p as int]@);
            p = p + 1;
        }
        proof {
            if p < out@.len() {
                assert(link_views(out@)[p as int] == out@[p as int]@);
            }
            lemma_insert_by(link_views(out@), x@, key, p as int);
            assert(vv.take(i + 1).drop_last() =~= vv.take(i as int));
            assert(vv.take(i + 1).last() == vv[i as int]);
        }
        let ghost before = link_views(out@);
        out.insert(p, x);
        assert(link_views(out@) =~= before.insert(p as int, vv[i as int]));
        i = i + 1;
    }
    assert(vv.take(n as int) =~= vv);
    out
}

impl Link {
    /// A copy with equal fields.
    pub fn clone_link(&self) -> (r: Link)
        ensures
            r@ == self@,
    {
        Link {
            kind: self.kind,
            markdown: self.markdown,
            written: crate::text::owned(self.written.as_str()),
            target: crate::text::owned(self.target.as_str()),
            fragment: match &self.fragment {
                Some(f) => Some(crate::text::owned(f.as_str())),
                None => None,
            },
            alias: match &self.alias {
                Some(a) => Some(crate::text::owned(a.as_str())),
                None => None,
            },
            span: self.span.start..self.span.end,
            line: self.line,
        }
    }
}

fn sort_tags(v: Vec<Tag>) -> (r: Vec<Tag>)
    ensures
        tag_views(r@) == sort_by(tag_views(v@), |x: (Seq<char>, u32)| tag_key(x)),
{
    let ghost key = |x: (Seq<char>, u32)| tag_key(x);
    let ghost vv = tag_views(v@);
    let mut out: Vec<Tag> = Vec::new();
    let mut i: usize = 0;
    let n = v.len();
    assert(vv.take(0) =~= Seq::<(Seq<char>, u32)>::empty());
    while i < n
        invariant
            n == vv.len(),
            i <= n,
            v@.len() == n,
            tag_views(v@) == vv,
            tag_views(out@) == sort_by(vv.take(i as int), key),
            key == (|x: (Seq<char>, u32)| tag_key(x)),
        decreases n - i,
    {
        let x = Tag { name: crate::text::owned(v[i].name.as_str()), line: v[i].line };
        assert(x@ == vv[i as int]);
        let mut p: usize = 0;
        while p < out.len() && !(x.line < out[p].line)
            invariant
                p <= out@.len(),
                x@ == vv[i as int],
                i < n,
                n == vv.len(),
                key == (|x: (Seq<char>, u32)| tag_key(x)),
                forall|k: int| 0 <= k < p ==> !(key(x@) < key(#[trigger] tag_views(out@)[k])),
            decreases out.len() - p,
        {
            assert(tag_views(out@)[p as int] == out@[p as int]@);
            p = p + 1;
        }
        proof {
            if p < out@.len() {
                assert(tag_views(out@)[p as int] == out@[p as int]@);
            }
            lemma_insert_by(tag_views(out@), x@, key, p as int);
            assert(vv.take(i + 1).drop_last() =~= vv.take(i as int));
            assert(vv.take(i + 1).last() == vv[i as int]);
        }
        let ghost before = tag_views(out@);
        out.insert(p, x);
        assert(tag_views(out@) =~= before.insert(p as int, vv[i as int]));
        i = i + 1;
    }
    assert(vv.take(n as int) =~= vv);
    out
}

/// The headings as plain values.
pub open spec fn heading_views(hs: Seq<Heading>) -> Seq<(u8, Seq<char>, u32)> {
    hs.map_values(|h: Heading| h@)
}

/// Extracts what `parse` extracts from the events pulldown-cmark reads in
/// `text`: see `parse_spec`.
pub fn parse_events(
    text: &str,
    kinds: &[(MdKind, std::ops::Range<usize>)],
    payloads: &[Payload],
    styles: &[LinkStyle],
) -> (r: Parsed)
    ensures
        r@ == parse_spec(text@, kind_views(kinds@), payload_views(payloads@), styles@),
{
    let src = Src::new(text);
    let ghost t = src.chars@;
    let lines = LineIndex::new(text);
    let code = code_ranges(kinds);
    let comments = comment_ranges(text, code.as_slice());
    let ghost kv = kind_views(kinds@);
    let ghost pv = payload_views(payloads@);
    let ghost sv = styles@;
    let mut links: Vec<Link> = Vec::new();
    let mut tags: Vec<Tag> = Vec::new();
    let mut headings: Vec<Heading> = Vec::new();
    let mut frontmatter: Option<(usize, usize)> = None;
    let mut in_link: usize = 0;
    let mut in_code_block = false;
    let mut in_metadata = false;
    let mut heading: Option<(u8, usize, String)> = None;
    let mut i: usize = 0;
    assert(link_views(links@) =~= Seq::<LinkView>::empty());
    assert(tag_views(tags@) =~= Seq::<(Seq<char>, u32)>::empty());
    assert(heading_views(headings@) =~= Seq::<(u8, Seq<char>, u32)>::empty());
    while i < kinds.len()
        invariant
            src.wf(),
            t == src.chars@,
            t == text@,
            lines.wf(bytes_of(t)),
            kv == kind_views(kinds@),
            pv == payload_views(payloads@),
            sv == styles@,
            i <= kinds@.len(),
            in_link <= i,
            gather(t, comments@, kv, pv, sv, 0, gathered_none()) == gather(t, comments@, kv, pv, sv, i as int, Gathered {
                links: link_views(links@),
                tags: tag_views(tags@),
                headings: heading_views(headings@),
                frontmatter,
                in_link: in_link as nat,
                in_code_block,
                in_metadata,
                heading: match heading {
                    Some((l, s, h)) => Some((l, s, h@)),
                    None => None,
                },
            }),
        decreases kinds.len() - i,
    {
        let kind = kinds[i].0;
        let start = kinds[i].1.start;
        let end = kinds[i].1.end;
        let payload: Option<&Payload> = if i < payloads.len() { Some(&payloads[i]) } else { None };
        let style = if i < styles.len() { styles[i] } else { LinkStyle::Auto };
        let ghost p = payload_at(pv, i as int);
        assert(p == match payload { Some(x) => crate::markdown::payload_view(*x), None => None });
        let ptext: &str = match payload {
            Some(Payload::Str(s)) => s.as_str(),
            _ => "",
        };
        proof {
            reveal_strlit("");
            assert(""@ =~= Seq::<char>::empty());
        }
        assert(ptext@ == payload_text(p));
        let ghost before_links = link_views(links@);
        let ghost before_tags = tag_views(tags@);
        let ghost before_headings = heading_views(headings@);
        match kind {
            MdKind::Meta => {
                in_metadata = true;
                frontmatter = Some((start, end));
            },
            MdKind::MetaEnd => {
                in_metadata = false;
            },
            MdKind::CodeBlock => {
                in_code_block = true;
            },
            MdKind::CodeBlockEnd => {
                in_code_block = false;
            },
            MdKind::Heading => {
                if !in_ranges_exec(comments.as_slice(), start) {
                    let level = match payload {
                        Some(Payload::Level(l)) => *l,
                        _ => 0,
                    };
                    heading = Some((level, start, String::new()));
                }
            },
            MdKind::HeadingEnd => {
                match heading {
                    Some((level, hs, h)) => {
                        let line = lines.line(hs, Ghost(bytes_of(t)));
                        let text = crate::text::trimmed(h.as_str());
                        headings.push(Heading { level, text, line });
                        assert(heading_views(headings@) =~= before_headings.push((level, text@, line)));
                    },
                    None => {},
                }
                heading = None;
            },
            MdKind::Link | MdKind::Image => {
                in_link = in_link + 1;
                if !in_ranges_exec(comments.as_slice(), start) {
                    if let Some(l) = link_from(&src, &lines, style, ptext, start, end, kind == MdKind::Image) {
                        links.push(l);
                        assert(link_views(links@) =~= before_links.push(l@));
                    }
                }
            },
            MdKind::LinkEnd => {
                if in_link > 0 {
                    in_link = in_link - 1;
                }
            },
            MdKind::Text => {
                match heading {
                    Some((l, hs, h)) => {
                        let mut h2 = h;
                        h2.append(ptext);
                        heading = Some((l, hs, h2));
                    },
                    None => {},
                }
                if in_link == 0 && !in_code_block && !in_metadata {
                    scan_tags(&src, start, end, comments.as_slice(), &lines, &mut tags);
                }
            },
            MdKind::Code => {
                match heading {
                    Some((l, hs, h)) => {
                        let mut h2 = h;
                        h2.append(ptext);
                        heading = Some((l, hs, h2));
                    },
                    None => {},
                }
            },
            MdKind::Other => {},
        }
        i = i + 1;
    }
    let ghost g = gather(t, comments@, kv, pv, sv, 0, gathered_none());
    assert(g.links == link_views(links@));
    assert(g.tags == tag_views(tags@));
    assert(g.headings == heading_views(headings@));
    assert(g.frontmatter == frontmatter);
    let mut entries: Vec<(String, Value)> = Vec::new();
    let ghost (gl, gt) = (link_views(links@), tag_views(tags@));
    if let Some((a, b)) = frontmatter {
        parse_frontmatter(&src, &lines, a, b, &mut links, &mut tags, &mut entries);
        assert(entry_views(Seq::<(String, Value)>::empty()) =~= Seq::<(Seq<char>, ValueView)>::empty());
    } else {
        assert(link_views(links@) =~= gl + Seq::<LinkView>::empty());
        assert(tag_views(tags@) =~= gt + Seq::<(Seq<char>, u32)>::empty());
        assert(entry_views(entries@) =~= Seq::<(Seq<char>, ValueView)>::empty());
    }
    let blocks = block_ids(&src, code.as_slice(), comments.as_slice());
    let links = sort_links(links);
    let tags = sort_tags(tags);
    let r = Parsed { links, tags, headings, blocks, frontmatter: entries };
    assert(r@.links == link_views(links@));
    assert(r@.tags == tag_views(tags@));
    assert(r@.headings == heading_views(headings@));
    assert(r@.blocks == views(blocks@));
    assert(r@.frontmatter == entry_views(entries@));
    r
}

/// Extracts wikilinks, embeds, Markdown links, tags, headings, block ids
/// and frontmatter from one note.
pub fn parse(text: &str) -> (r: Parsed)
    ensures
        r@ == parse_spec(text@, md_kinds_of(text@), md_payloads_of(text@), md_styles_of(text@)),
{
    let kinds = md_kinds(text);
    let payloads = md_payloads(text);
    let styles = md_styles(text);
    parse_events(text, kinds.as_slice(), payloads.as_slice(), styles.as_slice())
}

/// `%%comment%%` byte ranges in `text`, outside code.
pub fn comments(text: &str) -> (r: Vec<std::ops::Range<usize>>)
    ensures
        r@.map_values(|x: std::ops::Range<usize>| (x.start, x.end)) == comment_ranges_of(
            bytes_of(text@),
            code_ranges_of(md_kinds_of(text@)),
        ),
{
    let kinds = md_kinds(text);
    let code = code_ranges(kinds.as_slice());
    let spans = comment_ranges(text, code.as_slice());
    let mut out: Vec<std::ops::Range<usize>> = Vec::new();
    let mut k: usize = 0;
    while k < spans.len()
        invariant
            k <= spans@.len(),
            out@.map_values(|x: std::ops::Range<usize>| (x.start, x.end)) == spans@.take(k as int),
        decreases spans.len() - k,
    {
        let ghost before = out@.map_values(|x: std::ops::Range<usize>| (x.start, x.end));
        let r = std::ops::Range { start: spans[k].0, end: spans[k].1 };
        out.push(r);
        assert(out@.map_values(|x: std::ops::Range<usize>| (x.start, x.end)) =~= before.push(spans@[k as int]));
        assert(spans@.take(k + 1) =~= spans@.take(k as int).push(spans@[k as int]));
        k = k + 1;
    }
    assert(spans@.take(spans@.len() as int) =~= spans@);
    out
}


fn opt_str_eq(a: &Option<String>, b: &Option<String>) -> (r: bool)
    ensures
        r == (opt_string_view(*a) == opt_string_view(*b)),
{
    match (a, b) {
        (Some(x), Some(y)) => strs_eq(x.as_str(), y.as_str()),
        (None, None) => true,
        _ => false,
    }
}

fn link_eq(a: &Link, b: &Link) -> (r: bool)
    ensures
        r == (a@ == b@),
{
    let kinds = match (a.kind, b.kind) {
        (LinkKind::Link, LinkKind::Link) => true,
        (LinkKind::Embed, LinkKind::Embed) => true,
        (LinkKind::Property, LinkKind::Property) => true,
        _ => false,
    };
    kinds && a.markdown == b.markdown && strs_eq(a.written.as_str(), b.written.as_str()) && strs_eq(
        a.target.as_str(),
        b.target.as_str(),
    ) && opt_str_eq(&a.fragment, &b.fragment) && opt_str_eq(&a.alias, &b.alias) && a.span.start == b.span.start
        && a.span.end == b.span.end && a.line == b.line
}

fn strings_eq(a: &Vec<String>, b: &Vec<String>) -> (r: bool)
    ensures
        r == (views(a@) == views(b@)),
{
    if a.len() != b.len() {
        assert(views(a@).len() != views(b@).len());
        return false;
    }
    let mut i: usize = 0;
    while i < a.len()
        invariant
            i <= a@.len(),
            a@.len() == b@.len(),
            forall|k: int| 0 <= k < i ==> views(a@)[k] == views(b@)[k],
        decreases a.len() - i,
    {
        if !strs_eq(a[i].as_str(), b[i].as_str()) {
            assert(views(a@)[i as int] != views(b@)[i as int]);
            return false;
        }
        i = i + 1;
    }
    assert(views(a@) =~= views(b@));
    true
}

fn value_eq(a: &Value, b: &Value) -> (r: bool)
    ensures
        r == (a@ == b@),
{
    match (a, b) {
        (Value::Str(x), Value::Str(y)) => strs_eq(x.as_str(), y.as_str()),
        (Value::Date(x), Value::Date(y)) => strs_eq(x.as_str(), y.as_str()),
        (Value::Raw(x), Value::Raw(y)) => strs_eq(x.as_str(), y.as_str()),
        (Value::Bool(x), Value::Bool(y)) => *x == *y,
        (Value::List(x), Value::List(y)) => strings_eq(x, y),
        _ => false,
    }
}

/// Whether two parses hold the same links, tags, headings, blocks and
/// frontmatter.
pub fn parsed_eq(a: &Parsed, b: &Parsed) -> (r: bool)
    ensures
        r == (a@ == b@),
{
    let ghost (av, bv) = (a@, b@);
    if a.links.len() != b.links.len() || a.tags.len() != b.tags.len() || a.headings.len() != b.headings.len()
        || a.frontmatter.len() != b.frontmatter.len() {
        assert(av.links.len() != bv.links.len() || av.tags.len() != bv.tags.len() || av.headings.len()
            != bv.headings.len() || av.frontmatter.len() != bv.frontmatter.len());
        return false;
    }
    let mut i: usize = 0;
    while i < a.links.len()
        invariant
            i <= a.links@.len(),
            a.links@.len() == b.links@.len(),
            av == a@,
            bv == b@,
            forall|k: int| 0 <= k < i ==> av.links[k] == bv.links[k],
        decreases a.links.len() - i,
    {
        if !link_eq(&a.links[i], &b.links[i]) {
            assert(av.links[i as int] != bv.links[i as int]);
            return false;
        }
        i = i + 1;
    }
    assert(av.links =~= bv.links);
    let mut i: usize = 0;
    while i < a.tags.len()
        invariant
            i <= a.tags@.len(),
            a.tags@.len() == b.tags@.len(),
            av == a@,
            bv == b@,
            forall|k: int| 0 <= k < i ==> av.tags[k] == bv.tags[k],
        decreases a.tags.len() - i,
    {
        if !(strs_eq(a.tags[i].name.as_str(), b.tags[i].name.as_str()) && a.tags[i].line == b.tags[i].line) {
            assert(av.tags[i as int] != bv.tags[i as int]);
            return false;
        }
        i = i + 1;
    }
    assert(av.tags =~= bv.tags);
    let mut i: usize = 0;
    while i < a.headings.len()
        invariant
            i <= a.headings@.len(),
            a.headings@.len() == b.headings@.len(),
            av == a@,
            bv == b@,
            forall|k: int| 0 <= k < i ==> av.headings[k] == bv.headings[k],
        decreases a.headings.len() - i,
    {
        let (x, y) = (&a.headings[i], &b.headings[i]);
        if !(x.level == y.level && strs_eq(x.text.as_str(), y.text.as_str()) && x.line == y.line) {
            assert(av.headings[i as int] != bv.headings[i as int]);
            return false;
        }
        i = i + 1;
    }
    assert(av.headings =~= bv.headings);
    if !strings_eq(&a.blocks, &b.blocks) {
        return false;
    }
    let mut i: usize = 0;
    while i < a.frontmatter.len()
        invariant
            i <= a.frontmatter@.len(),
            a.frontmatter@.len() == b.frontmatter@.len(),
            av == a@,
            bv == b@,
            forall|k: int| 0 <= k < i ==> av.frontmatter[k] == bv.frontmatter[k],
        decreases a.frontmatter.len() - i,
    {
        let (x, y) = (&a.frontmatter[i], &b.frontmatter[i]);
        if !(strs_eq(x.0.as_str(), y.0.as_str()) && value_eq(&x.1, &y.1)) {
            assert(av.frontmatter[i as int] != bv.frontmatter[i as int]);
            return false;
        }
        i = i + 1;
    }
    assert(av.frontmatter =~= bv.frontmatter);
    true
}

} // verus!
