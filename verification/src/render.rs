//! Markdown to styled lines for the detail panel: display widths, cutting
//! to a width, word wrapping, tables, code blocks, callouts and frontmatter.

use unicode_width::{UnicodeWidthChar, UnicodeWidthStr};
use vstd::prelude::*;
use vstd::string::StringSliceAdditionalSpecFns;
use vstd::utf8::{decode_utf8, is_char_boundary};

use crate::index::Resolved;
use crate::markup::{Block, BlockEnd, Inline, InlineView, Leaf, Shape};
use crate::parse::{Link, LinkKind, Parsed, Value};
use crate::text::{ascii_lowercase, chars_of, decimal, push_char, rsplit_once, string_of, strs_eq, views};

verus! {

/// The display width of a char, as unicode-width computes it: `None` for
/// control characters.
pub uninterp spec fn char_width_of(c: char) -> Option<usize>;

/// The display width of a string, as unicode-width computes it.
pub uninterp spec fn str_width_of(s: Seq<char>) -> usize;

/// `UnicodeWidthChar::width`.
#[verifier::external_body]
pub fn char_width(c: char) -> (r: Option<usize>)
    ensures
        r == char_width_of(c),
{
    UnicodeWidthChar::width(c)
}

/// `UnicodeWidthStr::width`.
#[verifier::external_body]
pub fn str_width(s: &str) -> (r: usize)
    ensures
        r == str_width_of(s@),
{
    UnicodeWidthStr::width(s)
}

/// Where a local link lands on screen: one entry per rendered line the link
/// touches.
#[derive(Debug, Clone, PartialEq, Eq)]
pub struct LinkHit {
    pub line: usize,
    pub cols: std::ops::Range<u16>,
    /// Index into `Parsed::links`.
    pub link: usize,
}

/// Styles, with or without color (`NO_COLOR`).
#[derive(Debug, Clone, Copy, PartialEq, Eq)]
pub struct Theme {
    pub color: bool,
}

/// The extensions shown as images.
pub open spec fn image_ext(e: Seq<char>) -> bool {
    e == seq!['p', 'n', 'g'] || e == seq!['j', 'p', 'g'] || e == seq!['j', 'p', 'e', 'g'] || e == seq!['g', 'i', 'f']
        || e == seq!['w', 'e', 'b', 'p'] || e == seq!['s', 'v', 'g'] || e == seq!['b', 'm', 'p'] || e == seq![
        'a',
        'v',
        'i',
        'f',
    ]
}

/// Whether a link target names an image: its extension, in any ASCII case.
pub open spec fn is_image_of(target: Seq<char>) -> bool {
    match rsplit_once(target, '.') {
        Some((_, ext)) => image_ext(ascii_lowercase(ext)),
        None => false,
    }
}

fn is_lit(s: &[char], lit: &str) -> (r: bool)
    ensures
        r == (s@ == lit@),
{
    crate::text::is(s, lit)
}

pub fn is_image(target: &str) -> (r: bool)
    ensures
        r == is_image_of(target@),
{
    let tc = chars_of(target);
    let ext = match crate::text::rsplit_once_exec(tc.as_slice(), '.') {
        Some((_, e)) => e,
        None => return false,
    };
    let low = crate::text::ascii_lowercase_exec(ext);
    let l = low.as_slice();
    proof {
        reveal_strlit("png");
        reveal_strlit("jpg");
        reveal_strlit("jpeg");
        reveal_strlit("gif");
        reveal_strlit("webp");
        reveal_strlit("svg");
        reveal_strlit("bmp");
        reveal_strlit("avif");
        assert("png"@ =~= seq!['p', 'n', 'g']);
        assert("jpg"@ =~= seq!['j', 'p', 'g']);
        assert("jpeg"@ =~= seq!['j', 'p', 'e', 'g']);
        assert("gif"@ =~= seq!['g', 'i', 'f']);
        assert("webp"@ =~= seq!['w', 'e', 'b', 'p']);
        assert("svg"@ =~= seq!['s', 'v', 'g']);
        assert("bmp"@ =~= seq!['b', 'm', 'p']);
        assert("avif"@ =~= seq!['a', 'v', 'i', 'f']);
    }
    is_lit(l, "png") || is_lit(l, "jpg") || is_lit(l, "jpeg") || is_lit(l, "gif") || is_lit(l, "webp") || is_lit(l, "svg")
        || is_lit(l, "bmp") || is_lit(l, "avif")
}

/// A char's width, counting control characters as nothing.
pub open spec fn width0(c: char) -> int {
    match char_width_of(c) {
        Some(w) => w as int,
        None => 0,
    }
}

/// Where the chars from `i` on stop fitting in `room` columns, `w` being
/// taken already; the first char always fits.
pub open spec fn split_point(s: Seq<char>, room: int, i: int, w: int) -> int
    decreases s.len() - i,
{
    if i < 0 || i >= s.len() {
        s.len() as int
    } else if w + width0(s[i]) > room && i > 0 {
        i
    } else {
        split_point(s, room, i + 1, w + width0(s[i]))
    }
}

/// The head that fits in `room` columns (at least one char), and the rest.
pub open spec fn split_at_width_of(s: Seq<char>, room: int) -> (Seq<char>, Seq<char>) {
    let k = split_point(s, room, 0, 0);
    (s.take(k), s.skip(k))
}

proof fn lemma_split_point(s: Seq<char>, room: int, i: int, w: int)
    requires
        0 <= i <= s.len(),
    ensures
        i <= split_point(s, room, i, w) <= s.len(),
    decreases s.len() - i,
{
    if i < s.len() && !(w + width0(s[i]) > room && i > 0) {
        lemma_split_point(s, room, i + 1, w + width0(s[i]));
    }
}

/// Splits so the head fits in `room` columns (at least one char).
pub fn split_at_width(text: &str, room: usize) -> (r: (String, String))
    ensures
        (r.0@, r.1@) == split_at_width_of(text@, room as int),
{
    let c = chars_of(text);
    let mut w: usize = 0;
    let mut i: usize = 0;
    proof {
        lemma_split_point(c@, room as int, 0, 0);
    }
    while i < c.len()
        invariant
            i <= c@.len(),
            c@ == text@,
            i == 0 ==> w == 0,
            split_point(c@, room as int, 0, 0) == split_point(c@, room as int, i as int, w as int),
        decreases c.len() - i,
    {
        let cw: usize = match char_width(c[i]) {
            Some(x) => x,
            None => 0,
        };
        if (w as u128) + (cw as u128) > (room as u128) && i > 0 {
            proof {
                lemma_split_point(c@, room as int, i as int, w as int);
            }
            let head = crate::text::slice_range(c.as_slice(), 0, i);
            let tail = crate::text::slice_range(c.as_slice(), i, c.len());
            assert(head@ =~= c@.take(i as int));
            assert(tail@ =~= c@.skip(i as int));
            return (string_of(head), string_of(tail));
        }
        w = w + cw;
        i = i + 1;
    }
    assert(c@.take(c@.len() as int) =~= c@);
    assert(c@.skip(c@.len() as int) =~= Seq::<char>::empty());
    (string_of(c.as_slice()), String::new())
}

/// `text` cut to `room` columns, ending in `…` when cut.
pub open spec fn cut_of(s: Seq<char>, room: int) -> Seq<char> {
    if str_width_of(s) <= room {
        s
    } else if room == 0 {
        seq![]
    } else {
        let head = split_at_width_of(s, room - 1).0;
        let head = if str_width_of(head) > room - 1 { seq![] } else { head };
        head.push('…')
    }
}

/// `text` cut to `room` columns, ending in `…` when cut.
pub fn cut(text: &str, room: usize) -> (r: String)
    ensures
        r@ == cut_of(text@, room as int),
{
    if str_width(text) <= room {
        return crate::text::owned(text);
    }
    if room == 0 {
        return String::new();
    }
    let (head, _) = split_at_width(text, room - 1);
    let mut head = if str_width(head.as_str()) > room - 1 { String::new() } else { head };
    push_char(&mut head, '…');
    head
}

/// Spaces and tabs break words; a no-break space does not.
pub open spec fn is_break(c: char) -> bool {
    c == ' ' || c == '\t'
}

/// Words and the runs of space between them, in order.
pub open spec fn runs(s: Seq<char>) -> Seq<Seq<char>>
    decreases s.len(),
{
    if s.len() == 0 {
        seq![]
    } else {
        let r = runs(s.drop_last());
        if r.len() > 0 && r.last().len() > 0 && is_break(r.last().last()) == is_break(s.last()) {
            r.drop_last().push(r.last().push(s.last()))
        } else {
            r.push(seq![s.last()])
        }
    }
}

/// Words and the spaces between them, in order.
pub fn split_words(text: &str) -> (r: Vec<String>)
    ensures
        views(r@) == runs(text@),
{
    let c = chars_of(text);
    let mut out: Vec<Vec<char>> = Vec::new();
    let mut i: usize = 0;
    while i < c.len()
        invariant
            i <= c@.len(),
            out@.map_values(|v: Vec<char>| v@) == runs(c@.take(i as int)),
        decreases c.len() - i,
    {
        assert(c@.take(i + 1).drop_last() =~= c@.take(i as int));
        assert(c@.take(i + 1).last() == c@[i as int]);
        let ch = c[i];
        let ghost before = out@.map_values(|v: Vec<char>| v@);
        let n = out.len();
        if n > 0 && out[n - 1].len() > 0 && ((out[n - 1][out[n - 1].len() - 1] == ' ' || out[n - 1][out[n - 1].len() - 1] == '\t') == (ch == ' ' || ch == '\t')) {
            let mut last = out.pop().unwrap();
            let ghost lv = last@;
            assert(lv == before.last());
            last.push(ch);
            out.push(last);
            assert(out@.map_values(|v: Vec<char>| v@) =~= before.drop_last().push(lv.push(ch)));
        } else {
            let mut piece: Vec<char> = Vec::new();
            piece.push(ch);
            out.push(piece);
            assert(out@.map_values(|v: Vec<char>| v@) =~= before.push(seq![ch]));
        }
        i = i + 1;
    }
    assert(c@.take(c@.len() as int) =~= c@);
    let mut strs: Vec<String> = Vec::new();
    let mut k: usize = 0;
    while k < out.len()
        invariant
            k <= out@.len(),
            views(strs@) == out@.map_values(|v: Vec<char>| v@).take(k as int),
        decreases out.len() - k,
    {
        let s = string_of(out[k].as_slice());
        let ghost before = views(strs@);
        assert(out@.map_values(|v: Vec<char>| v@)[k as int] == s@);
        strs.push(s);
        assert(views(strs@) =~= before.push(s@));
        assert(views(strs@) =~= out@.map_values(|v: Vec<char>| v@).take(k + 1));
        k = k + 1;
    }
    assert(out@.map_values(|v: Vec<char>| v@).take(out@.len() as int) =~= out@.map_values(|v: Vec<char>| v@));
    strs
}


/// A terminal color.
#[derive(Debug, Clone, Copy, PartialEq, Eq, Structural)]
pub enum Color {
    Magenta,
    Green,
    Cyan,
    Yellow,
    Red,
    Blue,
}

/// How a span is drawn: a foreground color, if any, and the modifiers it
/// adds.
#[derive(Debug, Clone, Copy, PartialEq, Eq, Structural)]
pub struct Style {
    pub fg: Option<Color>,
    pub bold: bool,
    pub dim: bool,
    pub italic: bool,
    pub underlined: bool,
    pub reversed: bool,
    pub crossed_out: bool,
}

/// No color and no modifiers.
pub open spec fn plain_style() -> Style {
    Style { fg: None, bold: false, dim: false, italic: false, underlined: false, reversed: false, crossed_out: false }
}

/// `a` with `b` laid over it: `b`'s color when it has one, and the
/// modifiers of both.
pub open spec fn patch_of(a: Style, b: Style) -> Style {
    Style {
        fg: if b.fg is Some { b.fg } else { a.fg },
        bold: a.bold || b.bold,
        dim: a.dim || b.dim,
        italic: a.italic || b.italic,
        underlined: a.underlined || b.underlined,
        reversed: a.reversed || b.reversed,
        crossed_out: a.crossed_out || b.crossed_out,
    }
}

impl Style {
    pub fn new() -> (r: Style)
        ensures
            r == plain_style(),
    {
        Style { fg: None, bold: false, dim: false, italic: false, underlined: false, reversed: false, crossed_out: false }
    }

    pub fn patch(self, other: Style) -> (r: Style)
        ensures
            r == patch_of(self, other),
    {
        Style {
            fg: match other.fg {
                Some(c) => Some(c),
                None => self.fg,
            },
            bold: self.bold || other.bold,
            dim: self.dim || other.dim,
            italic: self.italic || other.italic,
            underlined: self.underlined || other.underlined,
            reversed: self.reversed || other.reversed,
            crossed_out: self.crossed_out || other.crossed_out,
        }
    }
}

/// Text drawn in one style.
#[derive(Debug, Clone, PartialEq, Eq)]
pub struct Span {
    pub content: String,
    pub style: Style,
}

pub open spec fn dim_style() -> Style {
    Style { dim: true, ..plain_style() }
}

pub open spec fn heading_style(color: bool) -> Style {
    Style { bold: true, fg: if color { Some(Color::Magenta) } else { None }, ..plain_style() }
}

pub open spec fn code_style(color: bool) -> Style {
    if color {
        Style { fg: Some(Color::Green), ..plain_style() }
    } else {
        Style { reversed: true, ..plain_style() }
    }
}

pub open spec fn callout_style(color: bool) -> Style {
    Style { bold: true, fg: if color { Some(Color::Blue) } else { None }, ..plain_style() }
}

/// Links are underlined: cyan when they resolve, yellow when ambiguous,
/// red and dim when unresolved; without color, ambiguous ones are bold and
/// unresolved ones dim.
pub open spec fn link_style(color: bool, state: Resolved) -> Style {
    let s = Style { underlined: true, ..plain_style() };
    match state {
        Resolved::File { .. } => if color { Style { fg: Some(Color::Cyan), ..s } } else { s },
        Resolved::Ambiguous { .. } => if color { Style { fg: Some(Color::Yellow), ..s } } else { Style { bold: true, ..s } },
        Resolved::Unresolved => if color { Style { fg: Some(Color::Red), dim: true, ..s } } else { Style { dim: true, ..s } },
    }
}

impl Theme {
    pub fn dim(self) -> (r: Style)
        ensures
            r == dim_style(),
    {
        Style { dim: true, ..Style::new() }
    }

    pub fn heading(self) -> (r: Style)
        ensures
            r == heading_style(self.color),
    {
        Style { bold: true, fg: if self.color { Some(Color::Magenta) } else { None }, ..Style::new() }
    }

    pub fn code(self) -> (r: Style)
        ensures
            r == code_style(self.color),
    {
        if self.color {
            Style { fg: Some(Color::Green), ..Style::new() }
        } else {
            Style { reversed: true, ..Style::new() }
        }
    }

    pub fn link(self, state: &Resolved) -> (r: Style)
        ensures
            r == link_style(self.color, *state),
    {
        let s = Style { underlined: true, ..Style::new() };
        match state {
            Resolved::File { .. } => if self.color { Style { fg: Some(Color::Cyan), ..s } } else { s },
            Resolved::Ambiguous { .. } => if self.color {
                Style { fg: Some(Color::Yellow), ..s }
            } else {
                Style { bold: true, ..s }
            },
            Resolved::Unresolved => if self.color {
                Style { fg: Some(Color::Red), dim: true, ..s }
            } else {
                Style { dim: true, ..s }
            },
        }
    }

    pub fn callout(self) -> (r: Style)
        ensures
            r == callout_style(self.color),
    {
        Style { bold: true, fg: if self.color { Some(Color::Blue) } else { None }, ..Style::new() }
    }
}


/// Markdown rendered for the detail panel.
#[derive(Debug, Clone)]
pub struct Rendered {
    pub lines: Vec<Vec<Span>>,
    /// Source line (1-based) each rendered line starts at, parallel to `lines`.
    pub source_line: Vec<u32>,
    pub hits: Vec<LinkHit>,
}

/// `source_line` runs parallel to `lines` and is 1-based; each hit lies on
/// a rendered line and names one of `n` links.
pub open spec fn rendered_ok(r: Rendered, n: int) -> bool {
    &&& r.source_line@.len() == r.lines@.len()
    &&& forall|k: int| 0 <= k < r.source_line@.len() ==> #[trigger] r.source_line@[k] >= 1
    &&& forall|k: int| 0 <= k < r.hits@.len() ==> (#[trigger] r.hits@[k]).line < r.lines@.len() && r.hits@[k].link < n
}

/// `a` is the text atom that `Renderer::atom` adds.
pub open spec fn added_atom(a: Atom, text: Seq<char>, style: Style, link: Option<usize>, src: usize) -> bool {
    a.text@ == text && a.style == style && a.link == link && a.src == src && !a.brk && !a.soft
}

/// A run of inline text with one style, from source offset `src`.
pub struct Atom {
    pub text: String,
    pub style: Style,
    pub link: Option<usize>,
    pub src: usize,
    /// A hard line break, not text.
    pub brk: bool,
    /// A soft line break, shown as a space.
    pub soft: bool,
}

pub open spec fn link_ok(l: Option<usize>, n: int) -> bool {
    l matches Some(i) ==> i < n
}

pub open spec fn atoms_ok(a: Seq<Atom>, n: int) -> bool {
    forall|k: int| 0 <= k < a.len() ==> link_ok((#[trigger] a[k]).link, n)
}

pub enum Container {
    Quote { first: bool },
    List { next: Option<u64> },
    Item { bullet: Option<String>, width: usize },
}

pub struct Table {
    pub rows: Vec<Vec<Vec<Atom>>>,
    pub header_rows: usize,
    pub src: usize,
}

pub open spec fn table_ok(t: Table, n: int) -> bool {
    forall|r: int, c: int| 0 <= r < t.rows@.len() && 0 <= c < t.rows@[r]@.len() ==> atoms_ok(#[trigger] t.rows@[r]@[c]@, n)
}

/// Touching pieces of text, by the atom each comes from, or a hard break
/// with the source offset of the text after it.
pub enum Word {
    Text { parts: Vec<(String, usize)>, space: bool },
    Break(usize),
}

pub open spec fn words_ok(w: Seq<Word>, n_atoms: int) -> bool {
    forall|k: int| 0 <= k < w.len() ==> match #[trigger] w[k] {
        Word::Text { parts, .. } => parts@.len() > 0 && forall|j: int| 0 <= j < parts@.len() ==> (#[trigger] parts@[j]).1 < n_atoms,
        Word::Break(_) => true,
    }
}

pub open spec fn pending_ok(p: Seq<(usize, usize, usize)>, n: int) -> bool {
    forall|k: int| 0 <= k < p.len() ==> (#[trigger] p[k]).0 < n
}

fn plain(text: &str, style: Style, src: usize) -> (r: Atom)
    ensures
        r.text@ == text@,
        r.style == style,
        r.link is None,
        r.src == src,
        !r.brk,
        !r.soft,
{
    Atom { text: crate::text::owned(text), style, link: None, src, brk: false, soft: false }
}

fn raw(text: String) -> (r: Span)
    ensures
        r.content == text,
        r.style == plain_style(),
{
    Span { content: text, style: Style::new() }
}

/// `n` copies of `c`.
fn repeat(c: char, n: usize) -> (r: String)
    ensures
        r@ == Seq::new(n as nat, |i: int| c),
{
    let mut s = String::new();
    let mut i: usize = 0;
    while i < n
        invariant
            i <= n,
            s@ == Seq::new(i as nat, |k: int| c),
        decreases n - i,
    {
        push_char(&mut s, c);
        assert(s@ =~= Seq::new((i + 1) as nat, |k: int| c));
        i = i + 1;
    }
    s
}

fn spaces(n: usize) -> (r: String)
    ensures
        r@ == Seq::new(n as nat, |i: int| ' '),
{
    repeat(' ', n)
}

/// The summed display widths of spans, added left to right and held at
/// `usize::MAX`.
pub open spec fn views_width(spans: Seq<(Seq<char>, Style)>) -> int
    decreases spans.len(),
{
    if spans.len() == 0 {
        0
    } else {
        let w = views_width(spans.drop_last()) + str_width_of(spans.last().0);
        if w > usize::MAX { usize::MAX as int } else { w }
    }
}

/// A copy of the spans.
fn copy_spans(spans: &Vec<Span>) -> (r: Vec<Span>)
    ensures
        span_views(r@) == span_views(spans@),
        r@.len() == spans@.len(),
{
    let mut out: Vec<Span> = Vec::new();
    let mut i: usize = 0;
    while i < spans.len()
        invariant
            i <= spans@.len(),
            span_views(out@) == span_views(spans@.take(i as int)),
            out@.len() == i,
        decreases spans.len() - i,
    {
        let ghost before = out@;
        let sp = Span { content: crate::text::owned(spans[i].content.as_str()), style: spans[i].style };
        assert(sp.content@ == spans@[i as int].content@);
        out.push(sp);
        assert(out@ == before.push(sp));
        assert(spans@.take(i + 1) =~= spans@.take(i as int).push(spans@[i as int]));
        assert(span_views(out@) =~= span_views(before).push((sp.content@, sp.style)));
        assert(span_views(spans@.take(i + 1)) =~= span_views(spans@.take(i as int)).push((sp.content@, sp.style)));
        i = i + 1;
    }
    assert(spans@.take(spans@.len() as int) =~= spans@);
    out
}

/// The summed widths of spans, saturating.
fn spans_width(spans: &Vec<Span>) -> (r: usize)
    ensures
        r == views_width(span_views(spans@)),
{
    let mut w: usize = 0;
    let mut i: usize = 0;
    while i < spans.len()
        invariant
            i <= spans@.len(),
            w == views_width(span_views(spans@.take(i as int))),
        decreases spans.len() - i,
    {
        assert(span_views(spans@.take(i + 1)).drop_last() =~= span_views(spans@.take(i as int)));
        w = w.saturating_add(str_width(spans[i].content.as_str()));
        i = i + 1;
    }
    assert(spans@.take(spans@.len() as int) =~= spans@);
    w
}

/// The line (1-based) that byte `offset` falls on: the number of line
/// starts at or before it.
fn line_of(starts: &Vec<usize>, offset: usize) -> (r: u32)
    requires
        starts@.len() >= 1,
    ensures
        r >= 1,
        r <= starts@.len(),
        ascending(starts@) ==> forall|k: int| 1 <= k < starts@.len() && k < r ==> #[trigger] starts@[k] <= offset,
        ascending(starts@) && r < u32::MAX ==> forall|k: int| r <= k < starts@.len() ==> #[trigger] starts@[k] > offset,
        ascending(starts@) ==> r == line_number(starts@, offset),
{
    let mut lo: usize = 1;
    let mut hi: usize = starts.len();
    while lo < hi
        invariant
            1 <= lo <= hi <= starts@.len(),
            ascending(starts@) ==> forall|k: int| 1 <= k < lo ==> #[trigger] starts@[k] <= offset,
            ascending(starts@) ==> forall|k: int| hi <= k < starts@.len() ==> #[trigger] starts@[k] > offset,
        decreases hi - lo,
    {
        let mid = lo + (hi - lo) / 2;
        if starts[mid] <= offset {
            lo = mid + 1;
        } else {
            hi = mid;
        }
    }
    proof {
        if ascending(starts@) {
            assert(lo == hi);
            if lo as int >= u32::MAX as int {
                lemma_starts_upto_at_least(starts@, 1, lo as int, offset);
            } else {
                lemma_starts_upto(starts@, 1, lo as int, offset);
            }
        }
    }
    if lo > 0xffff_ffff {
        0xffff_ffff
    } else {
        #[verifier::truncate] (lo as u32)
    }
}

/// Each entry is below every later one.
pub open spec fn ascending(s: Seq<usize>) -> bool {
    forall|i: int, j: int| 0 <= i < j < s.len() ==> s[i] < s[j]
}

/// The byte offset each line starts at.
fn line_starts(text: &str) -> (r: Vec<usize>)
    ensures
        r@.len() >= 1,
        r@[0] == 0,
        ascending(r@),
        r@ == line_starts_of(text.spec_bytes()),
{
    let b = text.as_bytes();
    let mut starts: Vec<usize> = Vec::new();
    starts.push(0);
    let mut i: usize = 0;
    assert(b@.take(0) =~= Seq::<u8>::empty());
    while i < b.len()
        invariant
            i <= b@.len(),
            b@ == text.spec_bytes(),
            starts@.len() >= 1,
            starts@[0] == 0,
            ascending(starts@),
            forall|k: int| 0 <= k < starts@.len() ==> #[trigger] starts@[k] <= i,
            starts@ == line_starts_of(b@.take(i as int)),
        decreases b.len() - i,
    {
        assert(b@.take(i + 1).drop_last() =~= b@.take(i as int));
        if b[i] == 10 {
            starts.push(i + 1);
        }
        i = i + 1;
    }
    assert(b@.take(b@.len() as int) =~= b@);
    starts
}

/// Where each line of `b` starts.
pub open spec fn line_starts_of(b: Seq<u8>) -> Seq<usize>
    decreases b.len(),
{
    if b.len() == 0 {
        seq![0usize]
    } else {
        let s = line_starts_of(b.drop_last());
        if b.last() == 10 { s.push(b.len() as usize) } else { s }
    }
}

/// How many of the starts from `k` on lie at or before `offset`.
pub open spec fn starts_upto(starts: Seq<usize>, k: int, offset: usize) -> int
    decreases starts.len() - k,
{
    if k < 0 || k >= starts.len() {
        0
    } else {
        (if starts[k] <= offset { 1int } else { 0int }) + starts_upto(starts, k + 1, offset)
    }
}

/// The line (1-based) that byte `offset` falls on, held at `u32::MAX`.
pub open spec fn line_number(starts: Seq<usize>, offset: usize) -> u32 {
    let n = 1 + starts_upto(starts, 1, offset);
    if n > u32::MAX { u32::MAX } else { n as u32 }
}

proof fn lemma_starts_upto(starts: Seq<usize>, k: int, r: int, offset: usize)
    requires
        1 <= k <= r <= starts.len(),
        forall|j: int| k <= j < r ==> #[trigger] starts[j] <= offset,
        forall|j: int| r <= j < starts.len() ==> #[trigger] starts[j] > offset,
    ensures
        starts_upto(starts, k, offset) == r - k,
    decreases starts.len() - k,
{
    if k < starts.len() {
        if k < r {
            lemma_starts_upto(starts, k + 1, r, offset);
        } else {
            lemma_starts_upto(starts, k + 1, r + 1, offset);
        }
    }
}

proof fn lemma_starts_upto_at_least(starts: Seq<usize>, k: int, r: int, offset: usize)
    requires
        1 <= k <= r <= starts.len(),
        forall|j: int| k <= j < r ==> #[trigger] starts[j] <= offset,
    ensures
        starts_upto(starts, k, offset) >= r - k,
    decreases starts.len() - k,
{
    if k < starts.len() {
        if k < r {
            lemma_starts_upto_at_least(starts, k + 1, r, offset);
        } else {
            lemma_starts_upto_nonneg(starts, k + 1, offset);
        }
    }
}

proof fn lemma_starts_upto_nonneg(starts: Seq<usize>, k: int, offset: usize)
    ensures
        starts_upto(starts, k, offset) >= 0,
    decreases starts.len() - k,
{
    if 0 <= k < starts.len() {
        lemma_starts_upto_nonneg(starts, k + 1, offset);
    }
}

pub proof fn lemma_split_first(s: Seq<char>, room: int)
    requires
        s.len() > 0,
    ensures
        1 <= split_point(s, room, 0, 0) <= s.len(),
{
    lemma_split_point(s, room, 1, width0(s[0]));
}


/// `a + i`, held at `u32::MAX`.
pub open spec fn sat32(a: u32, i: int) -> u32 {
    if a + i > u32::MAX { u32::MAX } else { (a + i) as u32 }
}

/// A newline.
pub open spec fn newline() -> spec_fn(char) -> bool {
    |c: char| c == '\n'
}

/// The lines of a code block: its text without trailing newlines, split at
/// each newline.
pub open spec fn code_rows(t: Seq<char>) -> Seq<Seq<char>> {
    crate::paths::split_char(crate::text::trim_end_by(t, newline()), '\n')
}

/// The columns a code line may take after a prefix `pw` wide and its two
/// spaces: at least one.
pub open spec fn code_room(width: usize, pw: int) -> int {
    let taken = if pw + 2 > usize::MAX { usize::MAX as int } else { pw + 2 };
    if width > taken { width - taken } else { 1 }
}

/// The spans start with the spans shown by `p`.
pub open spec fn begins(v: Seq<Span>, p: Seq<(Seq<char>, Style)>) -> bool {
    v.len() >= p.len() && forall|i: int| 0 <= i < p.len() ==> (#[trigger] v[i].content@, v[i].style) == p[i]
}

proof fn lemma_begins_push(a: Seq<Span>, b: Seq<Span>, p: Seq<(Seq<char>, Style)>)
    requires
        begins(a, p),
        b.len() == a.len() + 1,
        b.drop_last() == a,
    ensures
        begins(b, p),
{
    assert forall|i: int| 0 <= i < p.len() implies (#[trigger] b[i].content@, b[i].style) == p[i] by {
        assert(b[i] == b.drop_last()[i]);
    }
}

/// The most cells any row has.
pub open spec fn table_cols(rows: Seq<Vec<Vec<Atom>>>) -> int
    decreases rows.len(),
{
    if rows.len() == 0 {
        0
    } else {
        let c = table_cols(rows.drop_last());
        if rows.last()@.len() > c { rows.last()@.len() as int } else { c }
    }
}

/// Some comment overlaps the bytes `start..end`.
pub open spec fn overlaps_any(comments: Seq<crate::parse::Span>, start: usize, end: usize) -> bool {
    exists|k: int| 0 <= k < comments.len() && (#[trigger] comments[k]).0 < end && start < comments[k].1
}

/// `src[a..b]` as text, where both ends are char boundaries in order
/// within it.
pub open spec fn source_slice(src: Seq<u8>, a: int, b: int) -> Option<Seq<char>> {
    if 0 <= a <= b <= src.len() && is_char_boundary(src, a) && is_char_boundary(src, b) {
        Some(decode_utf8(src.subrange(a, b)))
    } else {
        None
    }
}

/// The comments that meet the bytes `start..end`, in order.
pub open spec fn meeting(comments: Seq<crate::parse::Span>, start: usize, end: usize) -> Seq<crate::parse::Span>
    decreases comments.len(),
{
    if comments.len() == 0 {
        comments
    } else {
        let c = comments.last();
        let r = meeting(comments.drop_last(), start, end);
        if c.0 < end && start < c.1 {
            r.push(c)
        } else {
            r
        }
    }
}

/// `src[a..b]` as a piece starting at `a`, where it can be cut there.
pub open spec fn piece_at(src: Seq<u8>, a: usize, b: usize) -> Seq<(Seq<char>, usize)> {
    match source_slice(src, a as int, b as int) {
        Some(p) => seq![(p, a)],
        None => seq![],
    }
}

/// The source between comments `k..` of `cs`, up to `end`, from `pos` on:
/// each gap before a comment, then what is left after the last.
pub open spec fn gaps(src: Seq<u8>, cs: Seq<crate::parse::Span>, end: usize, pos: usize, k: int) -> Seq<(Seq<char>, usize)>
    decreases cs.len() - k,
{
    if k < 0 || k >= cs.len() {
        if pos < end {
            piece_at(src, pos, end)
        } else {
            seq![]
        }
    } else {
        let c = cs[k];
        let here = if c.0 > pos {
            piece_at(src, pos, c.0)
        } else {
            seq![]
        };
        here + gaps(src, cs, end, if c.1 > pos { c.1 } else { pos }, k + 1)
    }
}

/// The visible parts of a text event `t` over the bytes `start..end` of
/// `src`, each with where it starts: all of it when no comment meets it;
/// when the source there is not `t` as written (escapes, entities), all of
/// it unless a comment holds it whole; else the source between comments.
pub open spec fn visible_parts(t: Seq<char>, start: usize, end: usize, src: Seq<u8>, comments: Seq<crate::parse::Span>) -> Seq<(Seq<char>, usize)> {
    let cs = meeting(comments, start, end);
    if cs.len() == 0 {
        seq![(t, start)]
    } else if source_slice(src, start as int, end as int) != Some(t) {
        if exists|k: int| 0 <= k < cs.len() && (#[trigger] cs[k]).0 <= start && end <= cs[k].1 {
            seq![]
        } else {
            seq![(t, start)]
        }
    } else {
        gaps(src, cs, end, start, 0)
    }
}

/// The parts whose text is not empty, in order.
pub open spec fn nonempty_parts(parts: Seq<(Seq<char>, usize)>) -> Seq<(Seq<char>, usize)>
    decreases parts.len(),
{
    if parts.len() == 0 {
        parts
    } else {
        let r = nonempty_parts(parts.drop_last());
        if parts.last().0.len() > 0 {
            r.push(parts.last())
        } else {
            r
        }
    }
}

/// An external link's URL, the text shown for it so far, and where it
/// starts.
pub open spec fn ext_view(e: Option<(String, String, usize)>) -> Option<(Seq<char>, Seq<char>, usize)> {
    match e {
        Some((u, sh, src)) => Some((u@, sh@, src)),
        None => None,
    }
}

/// What each span shows, and how.
pub open spec fn span_views(s: Seq<Span>) -> Seq<(Seq<char>, Style)> {
    s.map_values(|sp: Span| (sp.content@, sp.style))
}

pub open spec fn piece_views(p: Seq<(Seq<char>, Style)>) -> Seq<(Seq<char>, Style)> {
    p
}

/// `n` spaces.
pub open spec fn spaces_of(n: usize) -> Seq<char> {
    Seq::new(n as nat, |i: int| ' ')
}

/// What a container puts before the first line of its text: a quote bar, a
/// list item's bullet not yet shown, or the item's indent.
pub open spec fn first_piece(c: Container) -> Seq<(Seq<char>, Style)> {
    match c {
        Container::Quote { .. } => seq![("│ "@, dim_style())],
        Container::List { .. } => seq![],
        Container::Item { bullet: Some(b), .. } => seq![(b@, dim_style())],
        Container::Item { bullet: None, width } => seq![(spaces_of(width), plain_style())],
    }
}

/// What a container puts before each following line.
pub open spec fn rest_piece(c: Container) -> Seq<(Seq<char>, Style)> {
    match c {
        Container::Quote { .. } => seq![("│ "@, dim_style())],
        Container::List { .. } => seq![],
        Container::Item { width, .. } => seq![(spaces_of(width), plain_style())],
    }
}

/// The prefix of a first line, outermost container first.
pub open spec fn first_prefix(st: Seq<Container>) -> Seq<(Seq<char>, Style)>
    decreases st.len(),
{
    if st.len() == 0 {
        seq![]
    } else {
        first_prefix(st.drop_last()) + first_piece(st.last())
    }
}

/// The prefix of each following line.
pub open spec fn rest_prefix(st: Seq<Container>) -> Seq<(Seq<char>, Style)>
    decreases st.len(),
{
    if st.len() == 0 {
        seq![]
    } else {
        rest_prefix(st.drop_last()) + rest_piece(st.last())
    }
}

/// The innermost quote among the first `k` containers.
pub open spec fn innermost_quote(st: Seq<Container>, k: int) -> Option<int>
    decreases k,
{
    if k <= 0 {
        None
    } else if st[k - 1] is Quote {
        Some(k - 1)
    } else {
        innermost_quote(st, k - 1)
    }
}

proof fn lemma_innermost_quote(st: Seq<Container>, k: int)
    requires
        k <= st.len(),
    ensures
        innermost_quote(st, k) matches Some(q) ==> 0 <= q < k && st[q] is Quote,
    decreases k,
{
    if k > 0 && !(st[k - 1] is Quote) {
        lemma_innermost_quote(st, k - 1);
    }
}

proof fn lemma_prefix_update(st: Seq<Container>, q: int, c: Container)
    requires
        0 <= q < st.len(),
        first_piece(c) == first_piece(st[q]),
        rest_piece(c) == rest_piece(st[q]),
    ensures
        first_prefix(st.update(q, c)) == first_prefix(st),
        rest_prefix(st.update(q, c)) == rest_prefix(st),
    decreases st.len(),
{
    let u = st.update(q, c);
    if q == st.len() - 1 {
        assert(u.drop_last() =~= st.drop_last());
    } else {
        assert(u.drop_last() =~= st.drop_last().update(q, c));
        lemma_prefix_update(st.drop_last(), q, c);
    }
}

/// The pending inline run as it is laid out: a quote's first run opens a
/// callout when it starts `[!kind]`.
pub open spec fn run_views(old: Renderer) -> Seq<AtomView> {
    let st = old.stack@;
    match innermost_quote(st, st.len() as int) {
        Some(q) => if st[q] matches Container::Quote { first: true } {
            callout_views(old.inline@, old.theme.color)
        } else {
            atom_views(old.inline@)
        },
        None => atom_views(old.inline@),
    }
}

/// The atoms after a callout's `[!kind]` is turned into its marker.
pub open spec fn callout_views(a: Seq<Atom>, color: bool) -> Seq<AtomView> {
    if has_callout(title_text(a)) {
        callout_atoms(atom_views(a), title_text(a), color)
    } else {
        atom_views(a)
    }
}

/// Where the pending inline run starts in the source, or 0.
pub open spec fn src_of(old: Renderer) -> usize {
    match old.inline_src {
        Some(s) => s,
        None => 0,
    }
}

/// `o` is the output once `old`'s pending inline run is laid out: the run
/// wrapped at the width after the containers' prefixes.
pub open spec fn flush_out(old: Renderer, o: OutView) -> bool {
    if old.inline@.len() == 0 {
        o == out_view(old.out)
    } else {
        o == wrap_out(
            out_view(old.out),
            run_views(old),
            first_prefix(old.stack@),
            rest_prefix(old.stack@),
            old.width,
            old.starts@,
            src_of(old),
        )
    }
}

proof fn lemma_flush_out_style(a: Renderer, b: Renderer, o: OutView)
    requires
        a.inline@ == b.inline@,
        a.inline_src == b.inline_src,
        a.out == b.out,
        a.stack@ == b.stack@,
        a.width == b.width,
        a.starts@ == b.starts@,
        a.theme == b.theme,
    ensures
        flush_out(a, o) == flush_out(b, o),
{
    assert(run_views(a) == run_views(b));
    assert(src_of(a) == src_of(b));
}

/// `o` with an empty line after it, on the source line of the last.
pub open spec fn blank_after(o: OutView) -> OutView {
    OutView {
        lines: o.lines.push(seq![]),
        srcs: o.srcs.push(if o.srcs.len() > 0 { o.srcs.last() } else { 1u32 }),
        hits: o.hits,
    }
}

/// `o` is the output once a block starts after `old`: the pending run laid
/// out, then an empty line when a block came before.
pub open spec fn started_out(old: Renderer, o: OutView) -> bool {
    exists|mid: OutView|
        #![trigger flush_out(old, mid)]
        flush_out(old, mid) && o == (if old.need_blank && mid.lines.len() > 0 { blank_after(mid) } else { mid })
}

/// The innermost quote has shown its first line.
pub open spec fn quote_started(st: Seq<Container>) -> Seq<Container> {
    match innermost_quote(st, st.len() as int) {
        Some(q) => st.update(q, Container::Quote { first: false }),
        None => st,
    }
}

/// The containers once the pending inline run of `old` is laid out.
pub open spec fn flushed_stack(old: Renderer) -> Seq<Container> {
    if old.inline@.len() == 0 {
        old.stack@
    } else {
        quote_started(old.stack@).map_values(|c: Container| bullet_taken(c))
    }
}

/// An ordered list counts on to its next item.
pub open spec fn numbered(st: Seq<Container>) -> Seq<Container> {
    if st.len() > 0 {
        match st.last() {
            Container::List { next: Some(n) } => st.update(
                st.len() - 1,
                Container::List { next: Some(if n < u64::MAX { (n + 1) as u64 } else { n }) },
            ),
            _ => st,
        }
    } else {
        st
    }
}

/// The bullet of a new item: its number in an ordered list, else a dot.
pub open spec fn bullet_text(st: Seq<Container>) -> Seq<char> {
    if st.len() > 0 {
        match st.last() {
            Container::List { next: Some(n) } => decimal(n as nat) + ". "@,
            _ => "• "@,
        }
    } else {
        "• "@
    }
}

/// A list item whose bullet has been shown keeps only its indent.
pub open spec fn bullet_taken(c: Container) -> Container {
    match c {
        Container::Item { bullet: Some(_), width } => Container::Item { bullet: None, width },
        _ => c,
    }
}

pub struct Renderer {
    pub width: usize,
    pub theme: Theme,
    pub starts: Vec<usize>,
    pub out: Rendered,
    pub stack: Vec<Container>,
    pub inline: Vec<Atom>,
    pub inline_src: Option<usize>,
    pub style: Vec<Style>,
    pub link: Option<usize>,
    pub in_image: bool,
    pub in_metadata: bool,
    /// URL of an external link being rendered, the text shown for it so
    /// far, and where it starts.
    pub external: Option<(String, String, usize)>,
    pub code: Option<(String, usize)>,
    pub table: Option<Table>,
    pub need_blank: bool,
    /// How many links the note has: every link index is below it.
    pub n: usize,
}

impl Renderer {
    pub open spec fn wf(&self) -> bool {
        &&& self.starts@.len() >= 1
        &&& ascending(self.starts@)
        &&& self.style@.len() >= 1
        &&& self.width >= 1
        &&& rendered_ok(self.out, self.n as int)
        &&& atoms_ok(self.inline@, self.n as int)
        &&& link_ok(self.link, self.n as int)
        &&& (self.table matches Some(t) ==> table_ok(t, self.n as int))
    }

    /// Still well-formed, for the same note, width and theme.
    pub open spec fn keeps(&self, old: Renderer) -> bool {
        &&& self.wf()
        &&& self.n == old.n
        &&& self.width == old.width
        &&& self.theme == old.theme
        &&& self.starts@ == old.starts@
        &&& old.out.lines@.len() <= self.out.lines@.len()
        &&& forall|k: int| 0 <= k < old.out.lines@.len() ==> #[trigger] self.out.lines@[k] == old.out.lines@[k]
        &&& forall|k: int| 0 <= k < old.out.lines@.len() ==> #[trigger] self.out.source_line@[k] == old.out.source_line@[k]
    }

    /// The fields no block or inline run changes are those of `old`.
    pub open spec fn same_frame(&self, old: Renderer) -> bool {
        &&& self.width == old.width
        &&& self.theme == old.theme
        &&& self.starts@ == old.starts@
        &&& self.n == old.n
        &&& self.link == old.link
        &&& self.in_image == old.in_image
        &&& self.in_metadata == old.in_metadata
        &&& self.external == old.external
        &&& self.code == old.code
        &&& self.table == old.table
    }

    /// `old` with the text atom for `text` added to its inline run, unless
    /// the text is empty.
    pub open spec fn took_atom(&self, old: Renderer, text: Seq<char>, style: Style, src: usize) -> bool {
        &&& self.inline_only(old)
        &&& self.atom_core(old, text, style, old.link, src)
    }

    /// `old`'s inline run with a text atom added, unless the text is empty.
    pub open spec fn atom_core(&self, old: Renderer, text: Seq<char>, style: Style, link: Option<usize>, src: usize) -> bool {
        &&& text.len() == 0 ==> self.inline@ == old.inline@ && self.inline_src == old.inline_src
        &&& text.len() > 0 ==> self.inline@.drop_last() == old.inline@ && self.inline@.len() == old.inline@.len() + 1
            && added_atom(self.inline@.last(), text, style, link, src) && self.inline_src == (if old.inline_src is None {
            Some(src)
        } else {
            old.inline_src
        })
    }

    /// Only the style stack and the current link differ from `old`.
    pub open spec fn style_and_link(&self, old: Renderer) -> bool {
        &&& self.width == old.width && self.theme == old.theme && self.starts@ == old.starts@ && self.n == old.n
        &&& self.in_image == old.in_image && self.in_metadata == old.in_metadata
        &&& self.code == old.code && self.table == old.table
        &&& self.out == old.out && self.stack@ == old.stack@ && self.need_blank == old.need_blank
        &&& self.inline@ == old.inline@ && self.inline_src == old.inline_src
    }

    /// What an inline event does to `old`.
    pub open spec fn inline_done(&self, old: Renderer, e: Inline, start: usize, links: Seq<Link>, states: Seq<Resolved>, comments: Seq<crate::parse::Span>) -> bool {
        let cur = old.style@.last();
        let pushed = |add: Style| old.style@.push(patch_of(cur, add));
        let popped = if old.style@.len() > 1 { old.style@.drop_last() } else { old.style@ };
        let found = last_link(links, start, links.len() as int);
        match e {
            Inline::Emphasis => self.only_style(old) && self.style@ == pushed(Style { italic: true, ..plain_style() }),
            Inline::Strong => self.only_style(old) && self.style@ == pushed(Style { bold: true, ..plain_style() }),
            Inline::Strikethrough => self.only_style(old) && self.style@ == pushed(Style { crossed_out: true, ..plain_style() }),
            Inline::StyleEnd => self.only_style(old) && self.style@ == popped,
            Inline::AutoLink(dest) => if crate::parse::in_ranges(comments, start as int) {
                self.only_style(old) && self.style@ == pushed(plain_style())
            } else {
                match found {
                    Some(i) => self.style_and_link(old) && self.external == old.external && self.link == Some(i as usize)
                        && self.style@ == pushed(link_style(old.theme.color, states[i])),
                    None => self.only_style(old) && self.style@ == pushed(Style { underlined: true, ..plain_style() }),
                }
            },
            Inline::Link(dest) => if crate::parse::in_ranges(comments, start as int) {
                self.only_style(old) && self.style@ == pushed(plain_style())
            } else {
                match found {
                    Some(i) => self.style_and_link(old) && self.external == old.external && self.link == Some(i as usize)
                        && self.style@ == pushed(link_style(old.theme.color, states[i])),
                    None => self.style_and_link(old) && self.link == old.link && self.style@ == pushed(
                        Style { underlined: true, ..plain_style() },
                    ) && ext_view(self.external) == Some((dest@, Seq::<char>::empty(), start)),
                }
            },
            Inline::LinkEnd => {
                &&& self.width == old.width && self.theme == old.theme && self.starts@ == old.starts@ && self.n == old.n
                &&& self.in_image == old.in_image && self.in_metadata == old.in_metadata
                &&& self.code == old.code && self.table == old.table
                &&& self.out == old.out && self.stack@ == old.stack@ && self.need_blank == old.need_blank
                &&& self.style@ == popped
                &&& self.link is None
                &&& self.external is None
                &&& match ext_view(old.external) {
                    Some((u, sh, src)) => if u != sh {
                        self.atom_core(old, " <"@ + u + ">"@, dim_style(), None, src)
                    } else {
                        self.inline@ == old.inline@ && self.inline_src == old.inline_src
                    },
                    None => self.inline@ == old.inline@ && self.inline_src == old.inline_src,
                }
            },
            Inline::Image(dest) => {
                &&& self.width == old.width && self.theme == old.theme && self.starts@ == old.starts@ && self.n == old.n
                &&& self.in_image
                &&& self.in_metadata == old.in_metadata && self.external == old.external
                &&& self.code == old.code && self.table == old.table
                &&& self.out == old.out && self.stack@ == old.stack@ && self.need_blank == old.need_blank
                &&& self.style@ == old.style@
                &&& if crate::parse::in_ranges(comments, start as int) {
                    self.link == old.link && self.inline@ == old.inline@ && self.inline_src == old.inline_src
                } else {
                    let target = match found {
                        Some(i) => links[i].target@,
                        None => dest@,
                    };
                    let shown = match found {
                        Some(i) => match links[i].alias {
                            Some(a) => a@,
                            None => target,
                        },
                        None => target,
                    };
                    let style = match found {
                        Some(i) => link_style(old.theme.color, states[i]),
                        None => plain_style(),
                    };
                    let link = match found {
                        Some(i) => Some(i as usize),
                        None => None,
                    };
                    &&& self.link is None
                    &&& if is_image_of(target) {
                        self.atom_core(
                            old,
                            "[image:\u{a0}"@ + target.subrange(segment_start(target, target.len() as int), target.len() as int)
                                + "]"@,
                            dim_style(),
                            link,
                            start,
                        )
                    } else {
                        self.atom_core(old, "↳\u{a0}"@ + shown, style, link, start)
                    }
                }
            },
            Inline::ImageEnd => {
                &&& self.width == old.width && self.theme == old.theme && self.starts@ == old.starts@ && self.n == old.n
                &&& !self.in_image
                &&& self.link == old.link && self.in_metadata == old.in_metadata && self.external == old.external
                &&& self.code == old.code && self.table == old.table
                &&& self.out == old.out && self.stack@ == old.stack@ && self.need_blank == old.need_blank
                &&& self.style@ == old.style@ && self.inline@ == old.inline@ && self.inline_src == old.inline_src
            },
            Inline::Other => *self == old,
        }
    }

    /// Only the inline run differs from `old`.
    pub open spec fn inline_only(&self, old: Renderer) -> bool {
        &&& self.same_frame(old)
        &&& self.out == old.out
        &&& self.style@ == old.style@
        &&& self.stack@ == old.stack@
        &&& self.need_blank == old.need_blank
    }

    /// `old`'s inline run with text atoms in `style` added after it, each
    /// from `start` on.
    pub open spec fn adds_atoms(&self, old: Renderer, style: Style, start: usize) -> bool {
        &&& self.inline_only(old)
        &&& self.atoms_added(old, style, start)
    }

    pub open spec fn atoms_added(&self, old: Renderer, style: Style, start: usize) -> bool {
        &&& old.inline@.len() <= self.inline@.len()
        &&& forall|k: int| 0 <= k < old.inline@.len() ==> #[trigger] self.inline@[k] == old.inline@[k]
        &&& forall|k: int| old.inline@.len() <= k < self.inline@.len() ==> (#[trigger] self.inline@[k]).style == style
            && self.inline@[k].link == old.link && self.inline@[k].text@.len() > 0 && !self.inline@[k].brk
            && !self.inline@[k].soft && self.inline@[k].src >= start
        &&& self.inline_src == old.inline_src || old.inline_src is None
    }

    /// `old`'s inline run with a text atom in `style` added for each part
    /// whose text is not empty, in order.
    pub open spec fn took_parts(&self, old: Renderer, parts: Seq<(Seq<char>, usize)>, style: Style) -> bool {
        &&& self.inline_only(old)
        &&& self.parts_added(old, parts, style)
    }

    /// The inline run is `old`'s with the atoms of `took_parts` added.
    pub open spec fn parts_added(&self, old: Renderer, parts: Seq<(Seq<char>, usize)>, style: Style) -> bool {
        let ne = nonempty_parts(parts);
        &&& self.inline@.len() == old.inline@.len() + ne.len()
        &&& forall|k: int| 0 <= k < old.inline@.len() ==> #[trigger] self.inline@[k] == old.inline@[k]
        &&& forall|i: int|
            0 <= i < ne.len() ==> added_atom(#[trigger] self.inline@[old.inline@.len() + i], ne[i].0, style, old.link, ne[i].1)
        &&& self.inline_src == (if old.inline_src is None && ne.len() > 0 {
            Some(ne[0].1)
        } else {
            old.inline_src
        })
    }

    proof fn lemma_took_parts_step(a: Renderer, b: Renderer, c: Renderer, parts: Seq<(Seq<char>, usize)>, text: Seq<char>, style: Style, src: usize)
        requires
            b.took_parts(a, parts, style),
            c.took_atom(b, text, style, src),
        ensures
            c.took_parts(a, parts.push((text, src)), style),
    {
        let ne = nonempty_parts(parts);
        let p2 = parts.push((text, src));
        assert(p2.drop_last() =~= parts);
        if text.len() > 0 {
            let ne2 = nonempty_parts(p2);
            assert(ne2 == ne.push((text, src)));
            assert forall|k: int| 0 <= k < a.inline@.len() implies #[trigger] c.inline@[k] == a.inline@[k] by {
                assert(c.inline@[k] == c.inline@.drop_last()[k]);
            }
            assert forall|i: int| 0 <= i < ne2.len() implies added_atom(
                #[trigger] c.inline@[a.inline@.len() + i],
                ne2[i].0,
                style,
                a.link,
                ne2[i].1,
            ) by {
                if i < ne.len() {
                    assert(c.inline@[a.inline@.len() + i] == c.inline@.drop_last()[a.inline@.len() + i]);
                }
            }
            if ne.len() > 0 {
                assert(ne2[0] == ne[0]);
            }
        } else {
            assert(nonempty_parts(p2) == ne);
        }
    }

    proof fn lemma_adds_atoms_step(a: Renderer, b: Renderer, c: Renderer, text: Seq<char>, style: Style, start: usize, src: usize)
        requires
            b.adds_atoms(a, style, start),
            c.took_atom(b, text, style, src),
            src >= start,
        ensures
            c.adds_atoms(a, style, start),
    {
        if text.len() > 0 {
            assert forall|k: int| 0 <= k < b.inline@.len() implies #[trigger] c.inline@[k] == b.inline@[k] by {
                assert(c.inline@[k] == c.inline@.drop_last()[k]);
            }
        }
    }

    /// Only the container stack differs from `old`.
    pub open spec fn only_stack(&self, old: Renderer) -> bool {
        &&& self.same_frame(old)
        &&& self.out == old.out
        &&& self.style@ == old.style@
        &&& self.inline@ == old.inline@
        &&& self.inline_src == old.inline_src
        &&& self.need_blank == old.need_blank
    }

    /// What a leaf event does to `old`.
    pub open spec fn leaf_done(&self, old: Renderer, e: Leaf, start: usize, end: usize, src: Seq<u8>, comments: Seq<crate::parse::Span>) -> bool {
        let cur = old.style@.last();
        match e {
            Leaf::Text(t) => if old.in_image {
                *self == old
            } else {
                &&& self.width == old.width && self.theme == old.theme && self.starts@ == old.starts@ && self.n == old.n
                &&& self.link == old.link && self.in_image == old.in_image && self.in_metadata == old.in_metadata
                &&& self.code == old.code && self.table == old.table
                &&& self.out == old.out && self.style@ == old.style@ && self.stack@ == old.stack@
                &&& self.need_blank == old.need_blank
                &&& self.atoms_added(old, cur, start)
                &&& self.parts_added(old, visible_parts(t@, start, end, src, comments), cur)
                &&& ext_view(self.external) == match ext_view(old.external) {
                    Some((u, sh, src)) => Some((u, sh + t@, src)),
                    None => None,
                }
            },
            Leaf::Code(t) => if crate::parse::in_ranges(comments, start as int) {
                *self == old
            } else {
                self.took_atom(old, t@, patch_of(cur, code_style(old.theme.color)), start)
            },
            Leaf::Soft => {
                &&& self.inline_only(old)
                &&& self.inline@.drop_last() == old.inline@
                &&& self.inline@.len() == old.inline@.len() + 1
                &&& self.inline@.last().text@ == " "@ && self.inline@.last().style == cur
                &&& self.inline@.last().link == old.link && self.inline@.last().src == start
                &&& self.inline@.last().soft && !self.inline@.last().brk
                &&& self.inline_src == (if old.inline_src is None { Some(start) } else { old.inline_src })
            },
            Leaf::Hard => {
                &&& self.inline_only(old)
                &&& self.inline@.drop_last() == old.inline@
                &&& self.inline@.len() == old.inline@.len() + 1
                &&& self.inline@.last().text@.len() == 0 && self.inline@.last().style == plain_style()
                &&& self.inline@.last().link is None && self.inline@.last().src == start
                &&& self.inline@.last().brk && !self.inline@.last().soft
                &&& self.inline_src == old.inline_src
            },
            Leaf::Html(t) => if crate::parse::in_ranges(comments, start as int) {
                *self == old
            } else {
                self.took_atom(old, crate::text::trim_end(t@), dim_style(), start)
            },
            Leaf::Note(t) => self.took_atom(old, "[^"@ + t@ + "]"@, dim_style(), start),
            Leaf::Math(t) => self.took_atom(old, t@, code_style(old.theme.color), start),
            Leaf::Rule => {
                &&& self.flushed(old)
                &&& self.need_blank
                &&& exists|mid: OutView|
                    #![trigger started_out(old, mid)]
                    started_out(old, mid) && out_view(self.out) == (OutView {
                        lines: mid.lines.push(
                            seq![(Seq::new((if old.width < 60 { old.width } else { 60 }) as nat, |i: int| '─'), dim_style())],
                        ),
                        srcs: mid.srcs.push(line_number(old.starts@, start)),
                        hits: mid.hits,
                    })
                &&& self.out.lines@.len() > 0
                &&& span_views(self.out.lines@.last()@) == seq![
                    (Seq::new((if old.width < 60 { old.width } else { 60 }) as nat, |i: int| '─'), dim_style()),
                ]
            },
            Leaf::Task(done) => {
                &&& self.only_stack(old)
                &&& if old.stack@.len() > 0 && old.stack@.last() is Item {
                    &&& self.stack@.len() == old.stack@.len()
                    &&& self.stack@.drop_last() == old.stack@.drop_last()
                    &&& self.stack@.last() matches Container::Item { bullet: Some(b), width } && b@ == (match old.stack@.last() {
                        Container::Item { bullet: Some(ob), .. } => ob@,
                        _ => "• "@,
                    }) + (if done { "[x] "@ } else { "[ ] "@ }) && width == str_width_of(b@)
                } else {
                    self.stack@ == old.stack@
                }
            },
        }
    }

    /// The fields no block event changes are those of `old`.
    pub open spec fn core_same(&self, old: Renderer) -> bool {
        &&& self.width == old.width && self.theme == old.theme && self.starts@ == old.starts@ && self.n == old.n
        &&& self.link == old.link && self.in_image == old.in_image && self.external == old.external
    }

    /// What starting a block does to the output of `old`: the pending
    /// inline run is laid out, and a blank line follows an earlier block.
    pub open spec fn began(&self, old: Renderer) -> bool {
        &&& started_out(old, out_view(self.out))
        &&& self.grows(old)
        &&& !self.need_blank
        &&& old.need_blank && self.out.lines@.len() > 0 ==> self.out.lines@.last()@.len() == 0
        &&& !old.need_blank && old.inline@.len() == 0 ==> self.out == old.out
    }

    /// The inline run is empty, and the style stack is that of `old`.
    pub open spec fn run_cleared(&self, old: Renderer) -> bool {
        &&& self.style@ == old.style@
        &&& self.inline@.len() == 0
        &&& self.inline_src is None
    }

    /// What opening block `b` at byte `start` does to `old`.
    pub open spec fn opened(&self, old: Renderer, b: Block, start: usize) -> bool {
        let fs = flushed_stack(old);
        let tight = old.stack@.len() > 0 && old.inline@.len() == 0 && old.stack@.last() matches Container::Item {
            bullet: Some(_),
            ..
        };
        let kept = self.in_metadata == old.in_metadata && self.code == old.code && self.table == old.table;
        match b {
            Block::Paragraph => {
                &&& self.core_same(old) && kept && self.run_cleared(old) && self.stack@ == fs
                &&& if tight {
                    self.grows(old) && self.out == old.out && self.need_blank == old.need_blank
                } else {
                    self.began(old)
                }
            },
            Block::Heading(level) => {
                &&& self.core_same(old) && kept && self.began(old) && self.stack@ == fs
                &&& self.inline@.len() == 1
                &&& added_atom(self.inline@[0], Seq::new(level as nat, |i: int| '#').push(' '), dim_style(), old.link, start)
                &&& self.inline_src == Some(start)
                &&& self.style@ == old.style@.push(patch_of(old.style@.last(), heading_style(old.theme.color)))
            },
            Block::Quote => {
                &&& self.core_same(old) && kept && self.began(old) && self.run_cleared(old)
                &&& self.stack@ == fs.push(Container::Quote { first: true })
            },
            Block::List(next) => {
                &&& self.core_same(old) && kept && self.run_cleared(old)
                &&& self.stack@ == fs.push(Container::List { next })
                &&& if tight {
                    self.grows(old) && self.out == old.out && self.need_blank == old.need_blank
                } else {
                    self.began(old)
                }
            },
            Block::Item => {
                &&& self.core_same(old) && kept && self.run_cleared(old) && self.grows(old)
                &&& old.inline@.len() == 0 ==> self.out == old.out
                &&& flush_out(old, out_view(self.out))
                &&& !self.need_blank
                &&& self.stack@.len() == fs.len() + 1
                &&& self.stack@.drop_last() == numbered(fs)
                &&& self.stack@.last() matches Container::Item { bullet: Some(bl), width } && bl@ == bullet_text(fs)
                    && width == str_width_of(bl@)
            },
            Block::CodeBlock => {
                &&& self.core_same(old) && self.began(old) && self.run_cleared(old) && self.stack@ == fs
                &&& self.in_metadata == old.in_metadata && self.table == old.table
                &&& self.code matches Some((c, at)) && c@.len() == 0 && at == start
            },
            Block::Table => {
                &&& self.core_same(old) && self.began(old) && self.run_cleared(old) && self.stack@ == fs
                &&& self.in_metadata == old.in_metadata && self.code == old.code
                &&& self.table matches Some(t) && t.rows@.len() == 0 && t.header_rows == 0 && t.src == start
            },
            Block::Row => {
                &&& self.core_same(old) && self.in_metadata == old.in_metadata && self.code == old.code
                &&& self.out == old.out && self.stack@ == old.stack@ && self.style@ == old.style@
                &&& self.inline@ == old.inline@ && self.inline_src == old.inline_src && self.need_blank == old.need_blank
                &&& match old.table {
                    Some(t) => self.table matches Some(t2) && t2.rows@.len() == t.rows@.len() + 1 && t2.rows@.drop_last()
                        == t.rows@ && t2.rows@.last()@.len() == 0 && t2.header_rows == t.header_rows && t2.src == t.src,
                    None => self.table is None,
                }
            },
            Block::Cell => {
                &&& self.core_same(old) && kept
                &&& self.out == old.out && self.stack@ == old.stack@ && self.style@ == old.style@
                &&& self.inline@.len() == 0 && self.inline_src == old.inline_src && self.need_blank == old.need_blank
            },
            Block::Metadata => {
                &&& self.core_same(old) && self.in_metadata && self.code == old.code && self.table == old.table
                &&& self.out == old.out && self.stack@ == old.stack@ && self.style@ == old.style@
                &&& self.inline@ == old.inline@ && self.inline_src == old.inline_src && self.need_blank == old.need_blank
            },
            Block::Other => *self == old,
        }
    }

    /// What closing block `b` does to `old`.
    pub open spec fn closed(&self, old: Renderer, b: BlockEnd) -> bool {
        let fs = flushed_stack(old);
        let popped_stack = if fs.len() > 0 { fs.drop_last() } else { fs };
        let kept = self.in_metadata == old.in_metadata && self.code == old.code && self.table == old.table;
        let laid_out = self.grows(old) && (old.inline@.len() == 0 ==> self.out == old.out) && flush_out(
            old,
            out_view(self.out),
        );
        match b {
            BlockEnd::Paragraph => self.core_same(old) && kept && laid_out && self.run_cleared(old) && self.stack@ == fs
                && self.need_blank,
            BlockEnd::Heading => {
                &&& self.core_same(old) && kept && laid_out && self.stack@ == fs && self.need_blank
                &&& self.inline@.len() == 0 && self.inline_src is None
                &&& self.style@ == (if old.style@.len() > 1 { old.style@.drop_last() } else { old.style@ })
            },
            BlockEnd::Quote | BlockEnd::List => self.core_same(old) && kept && laid_out && self.run_cleared(old)
                && self.stack@ == popped_stack && self.need_blank,
            BlockEnd::Item => self.core_same(old) && kept && laid_out && self.run_cleared(old) && self.stack@ == popped_stack
                && self.need_blank == old.need_blank,
            BlockEnd::TableHead => {
                &&& self.core_same(old) && self.in_metadata == old.in_metadata && self.code == old.code
                &&& self.out == old.out && self.stack@ == old.stack@ && self.style@ == old.style@
                &&& self.inline@ == old.inline@ && self.inline_src == old.inline_src && self.need_blank == old.need_blank
                &&& match old.table {
                    Some(t) => self.table matches Some(t2) && t2.rows@ == t.rows@ && t2.header_rows == t.rows@.len()
                        && t2.src == t.src,
                    None => self.table is None,
                }
            },
            BlockEnd::Cell => {
                &&& self.core_same(old) && self.in_metadata == old.in_metadata && self.code == old.code
                &&& self.out == old.out && self.stack@ == old.stack@ && self.style@ == old.style@
                &&& self.need_blank == old.need_blank
                &&& self.inline@.len() == 0 && self.inline_src is None
                &&& match old.table {
                    Some(t) => self.table matches Some(t2) && t2.header_rows == t.header_rows && t2.src == t.src
                        && if t.rows@.len() > 0 {
                        t2.rows@.len() == t.rows@.len() && t2.rows@.drop_last() == t.rows@.drop_last()
                            && t2.rows@.last()@ == t.rows@.last()@.push(old.inline)
                    } else {
                        t2.rows@ == t.rows@
                    },
                    None => self.table is None,
                }
            },
            BlockEnd::Table => {
                &&& self.core_same(old) && self.in_metadata == old.in_metadata && self.code == old.code
                &&& self.table is None && self.need_blank
                &&& self.style@ == old.style@ && self.inline@ == old.inline@ && self.inline_src == old.inline_src
                &&& self.grows(old)
                &&& match old.table {
                    Some(t) => if table_cols(t.rows@) > 0 {
                        &&& out_view(self.out) == table_out(out_view(old.out), t, old.stack@, old.width, old.starts@)
                        &&& self.stack@ == old.stack@.map_values(|c: Container| bullet_taken(c))
                        &&& self.out.lines@.len() == old.out.lines@.len() + t.rows@.len() + (if 1 <= t.header_rows
                            <= t.rows@.len() { 1int } else { 0int })
                        &&& forall|j: int| old.out.lines@.len() <= j < self.out.lines@.len() ==> begins(
                            #[trigger] self.out.lines@[j]@,
                            first_prefix(old.stack@),
                        )
                    } else {
                        self.out == old.out && self.stack@ == old.stack@
                    },
                    None => self.out == old.out && self.stack@ == old.stack@,
                }
            },
            BlockEnd::CodeBlock => *self == old,
            BlockEnd::Metadata => {
                &&& self.core_same(old) && !self.in_metadata && self.code == old.code && self.table == old.table
                &&& self.out == old.out && self.stack@ == old.stack@ && self.style@ == old.style@
                &&& self.inline@ == old.inline@ && self.inline_src == old.inline_src && self.need_blank == old.need_blank
            },
            BlockEnd::Other => *self == old,
        }
    }

    /// What event `ev` over bytes `start..` does to `old`: inside a code
    /// block only its text and its end count; metadata is skipped.
    pub open spec fn event_done(&self, old: Renderer, ev: Ev, start: usize, end: usize, src: Seq<u8>, links: Seq<Link>, states: Seq<Resolved>, comments: Seq<crate::parse::Span>) -> bool {
        match old.code {
            Some((c, src)) => match ev {
                Ev::Leaf(Leaf::Text(t)) => {
                    &&& self.same_frame_but_code(old)
                    &&& self.out == old.out && self.stack@ == old.stack@ && self.style@ == old.style@
                    &&& self.inline@ == old.inline@ && self.inline_src == old.inline_src && self.need_blank == old.need_blank
                    &&& self.code matches Some((c2, src2)) && c2@ == c@ + t@ && src2 == src
                },
                Ev::Close(BlockEnd::CodeBlock) => self.shows_code(old, code_rows(c@), src),
                _ => *self == old,
            },
            None => match ev {
                Ev::Open(Block::Metadata) => self.opened(old, Block::Metadata, start),
                Ev::Close(BlockEnd::Metadata) => self.closed(old, BlockEnd::Metadata),
                _ => if old.in_metadata {
                    *self == old
                } else {
                    match ev {
                        Ev::Open(b) => self.opened(old, b, start),
                        Ev::Close(b) => self.closed(old, b),
                        Ev::In(i) => self.inline_done(old, i, start, links, states, comments),
                        Ev::Leaf(l) => self.leaf_done(old, l, start, end, src, comments),
                    }
                },
            },
        }
    }

    /// Only the style stack differs from `old`.
    pub open spec fn only_style(&self, old: Renderer) -> bool {
        &&& self.same_frame(old)
        &&& self.out == old.out
        &&& self.stack@ == old.stack@
        &&& self.inline@ == old.inline@
        &&& self.inline_src == old.inline_src
        &&& self.need_blank == old.need_blank
    }

    /// Only the output differs from `old`, by lines and link hits added
    /// after those it had.
    pub open spec fn adds_out(&self, old: Renderer) -> bool {
        &&& self.only_out(old)
        &&& self.grows(old)
    }

    /// The output of `old`, with lines and link hits added after it.
    pub open spec fn grows(&self, old: Renderer) -> bool {
        &&& self.keeps(old)
        &&& old.out.hits@.len() <= self.out.hits@.len()
        &&& forall|k: int| 0 <= k < old.out.hits@.len() ==> #[trigger] self.out.hits@[k] == old.out.hits@[k]
        &&& forall|k: int| old.out.hits@.len() <= k < self.out.hits@.len() ==> (#[trigger] self.out.hits@[k]).line >= old.out.lines@.len()
    }

    /// The pending inline run of `old` has been laid out: the run is empty,
    /// and the containers have shown their bullets and quote titles.
    pub open spec fn flushed(&self, old: Renderer) -> bool {
        &&& self.grows(old)
        &&& self.same_frame(old)
        &&& self.style@ == old.style@
        &&& self.inline@.len() == 0
        &&& self.inline_src is None
        &&& old.inline@.len() == 0 ==> self.stack@ == old.stack@
        &&& old.inline@.len() > 0 ==> self.stack@ == quote_started(old.stack@).map_values(|c: Container| bullet_taken(c))
    }

    /// A closed code block of `rows` is shown after the output of `old`:
    /// each row after the line prefix and two spaces, cut to the room left,
    /// on consecutive source lines.
    pub open spec fn shows_code(&self, old: Renderer, rows: Seq<Seq<char>>, src: usize) -> bool {
        let m = old.out.lines@.len() as int;
        let st = old.stack@;
        let room = code_room(old.width, views_width(first_prefix(st)));
        &&& self.same_frame_but_code(old)
        &&& self.code is None
        &&& self.need_blank
        &&& self.style@ == old.style@
        &&& self.inline@ == old.inline@
        &&& self.inline_src == old.inline_src
        &&& self.stack@ == st.map_values(|c: Container| bullet_taken(c))
        &&& self.out.hits@ == old.out.hits@
        &&& self.out.lines@.len() == m + rows.len()
        &&& forall|i: int| 0 <= i < rows.len() ==> span_views(#[trigger] self.out.lines@[m + i]@) == (if i == 0 {
            first_prefix(st)
        } else {
            rest_prefix(st)
        }) + seq![(spaces_of(2), plain_style()), (cut_of(rows[i], room), code_style(old.theme.color))]
        &&& forall|i: int| 0 <= i < rows.len() ==> #[trigger] self.out.source_line@[m + i] == sat32(self.out.source_line@[m], i)
        &&& rows.len() > 0 ==> self.out.source_line@[m] == sat32(line_number(old.starts@, src), 1)
    }

    /// A table of `rows` rows, `header` of them heading it, is shown after
    /// the output of `old`: one line per row and a rule under the header,
    /// each line after the first-line prefix.
    pub open spec fn shows_table(&self, old: Renderer, rows: int, header: int) -> bool {
        let m = old.out.lines@.len() as int;
        &&& self.grows(old)
        &&& self.same_frame(old)
        &&& self.style@ == old.style@
        &&& self.inline@ == old.inline@
        &&& self.inline_src == old.inline_src
        &&& self.need_blank == old.need_blank
        &&& self.stack@ == old.stack@.map_values(|c: Container| bullet_taken(c))
        &&& self.out.lines@.len() == m + rows + (if 1 <= header <= rows { 1int } else { 0int })
        &&& forall|j: int| m <= j < self.out.lines@.len() ==> begins(#[trigger] self.out.lines@[j]@, first_prefix(old.stack@))
    }

    /// The fields no block changes, but for the code block, are those of
    /// `old`.
    pub open spec fn same_frame_but_code(&self, old: Renderer) -> bool {
        &&& self.width == old.width
        &&& self.theme == old.theme
        &&& self.starts@ == old.starts@
        &&& self.n == old.n
        &&& self.link == old.link
        &&& self.in_image == old.in_image
        &&& self.in_metadata == old.in_metadata
        &&& self.external == old.external
        &&& self.table == old.table
    }

    /// Each line from `m` on begins with `first` when it is line `m`, and
    /// with `rest` after it.
    pub open spec fn prefixed(&self, m: int, first: Seq<(Seq<char>, Style)>, rest: Seq<(Seq<char>, Style)>) -> bool {
        forall|j: int| m <= j < self.out.lines@.len() ==> begins(#[trigger] self.out.lines@[j]@, if j == m { first } else { rest })
    }

    proof fn lemma_prefixed_step(&self, pre: Renderer, m: int, first: Seq<(Seq<char>, Style)>, rest: Seq<(Seq<char>, Style)>, line: Seq<Span>)
        requires
            pre.prefixed(m, first, rest),
            0 <= m <= pre.out.lines@.len(),
            begins(line, if pre.out.lines@.len() == m { first } else { rest }),
            self.out.lines@.len() == pre.out.lines@.len() + 1,
            self.out.lines@.last()@ == line,
            forall|k: int| 0 <= k < pre.out.lines@.len() ==> #[trigger] self.out.lines@[k] == pre.out.lines@[k],
        ensures
            self.prefixed(m, first, rest),
    {
        assert forall|j: int| m <= j < self.out.lines@.len() implies begins(
            #[trigger] self.out.lines@[j]@,
            if j == m { first } else { rest },
        ) by {
            if j < pre.out.lines@.len() {
                assert(self.out.lines@[j] == pre.out.lines@[j]);
            }
        }
    }

    /// Only the output differs from `old`.
    pub open spec fn only_out(&self, old: Renderer) -> bool {
        &&& self.same_frame(old)
        &&& self.style@ == old.style@
        &&& self.stack@ == old.stack@
        &&& self.inline@ == old.inline@
        &&& self.inline_src == old.inline_src
        &&& self.need_blank == old.need_blank
    }

    fn cur_style(&self) -> (r: Style)
        requires
            self.wf(),
        ensures
            r == self.style@.last(),
    {
        self.style[self.style.len() - 1]
    }

    fn push_style(&mut self, add: Style)
        requires
            old(self).wf(),
        ensures
            final(self).keeps(*old(self)),
            final(self).only_style(*old(self)),
            final(self).style@ == old(self).style@.push(patch_of(old(self).style@.last(), add)),
    {
        let s = self.cur_style().patch(add);
        self.style.push(s);
    }

    fn pop_style(&mut self)
        requires
            old(self).wf(),
        ensures
            final(self).keeps(*old(self)),
            final(self).only_style(*old(self)),
            final(self).style@ == if old(self).style@.len() > 1 {
                old(self).style@.drop_last()
            } else {
                old(self).style@
            },
    {
        if self.style.len() > 1 {
            self.style.pop();
        }
    }

    fn atom(&mut self, text: &str, style: Style, src: usize)
        requires
            old(self).wf(),
        ensures
            final(self).keeps(*old(self)),
            final(self).took_atom(*old(self), text@, style, src),
    {
        if text.is_empty() {
            return;
        }
        if self.inline_src.is_none() {
            self.inline_src = Some(src);
        }
        let a = Atom { text: crate::text::owned(text), style, link: self.link, src, brk: false, soft: false };
        let ghost before = self.inline@;
        self.inline.push(a);
        assert(self.inline@ == before.push(a));
        assert(self.inline@.drop_last() =~= before);
        assert(atoms_ok(self.inline@, self.n as int));
    }

    fn emit(&mut self, spans: Vec<Span>, src_line: u32)
        requires
            old(self).wf(),
            src_line >= 1,
        ensures
            final(self).keeps(*old(self)),
            final(self).out.lines@.len() == old(self).out.lines@.len() + 1,
            final(self).out.hits@ == old(self).out.hits@,
            final(self).out.lines@[old(self).out.lines@.len() as int] == spans,
            final(self).out.source_line@[old(self).out.lines@.len() as int] == src_line,
            final(self).only_out(*old(self)),
    {
        self.out.lines.push(spans);
        self.out.source_line.push(src_line);
        assert(rendered_ok(self.out, self.n as int)) by {
            assert forall|k: int| 0 <= k < self.out.source_line@.len() implies #[trigger] self.out.source_line@[k] >= 1 by {
                if k < self.out.source_line@.len() - 1 {
                    assert(self.out.source_line@[k] == old(self).out.source_line@[k]);
                }
            }
        }
    }

    fn blank(&mut self)
        requires
            old(self).wf(),
        ensures
            final(self).keeps(*old(self)),
            final(self).only_out(*old(self)),
            final(self).out.hits@ == old(self).out.hits@,
            final(self).out.lines@.len() == old(self).out.lines@.len() + 1,
            final(self).out.lines@.last()@.len() == 0,
            final(self).out.source_line@.last() == (if old(self).out.source_line@.len() > 0 {
                old(self).out.source_line@.last()
            } else {
                1u32
            }),
            out_view(final(self).out) == blank_after(out_view(old(self).out)),
    {
        let n = self.out.source_line.len();
        let line = if n > 0 { self.out.source_line[n - 1] } else { 1 };
        let ghost o0 = out_view(self.out);
        let e: Vec<Span> = Vec::new();
        assert(span_views(e@) =~= Seq::<(Seq<char>, Style)>::empty());
        self.emit(e, line);
        assert(out_view(self.out).lines =~= o0.lines.push(seq![]));
        assert(out_view(self.out) =~= blank_after(o0));
    }

    /// Starts a block: a blank line first unless this is the first block or
    /// the start of a tight list item.
    fn block_start(&mut self)
        requires
            old(self).wf(),
        ensures
            final(self).keeps(*old(self)),
            final(self).flushed(*old(self)),
            !final(self).need_blank,
            old(self).need_blank && final(self).out.lines@.len() > 0 ==> final(self).out.lines@.last()@.len() == 0,
            !old(self).need_blank && old(self).inline@.len() == 0 ==> final(self).out == old(self).out,
            started_out(*old(self), out_view(final(self).out)),
    {
        self.flush();
        let ghost mid = out_view(self.out);
        if self.need_blank && self.out.lines.len() > 0 {
            self.blank();
        }
        self.need_blank = false;
        assert(out_view(self.out) == (if old(self).need_blank && mid.lines.len() > 0 { blank_after(mid) } else { mid }));
    }

    fn block_end(&mut self)
        requires
            old(self).wf(),
        ensures
            final(self).keeps(*old(self)),
            final(self).flushed(*old(self)),
            final(self).need_blank,
            old(self).inline@.len() == 0 ==> final(self).out == old(self).out,
            flush_out(*old(self), out_view(final(self).out)),
            final(self).prefixed(
                old(self).out.lines@.len() as int,
                first_prefix(old(self).stack@),
                rest_prefix(old(self).stack@),
            ),
    {
        self.flush();
        self.need_blank = true;
    }

    /// Prefix spans for the first and following lines of the current inline
    /// run. Takes a pending bullet.
    fn prefixes(&mut self) -> (r: (Vec<Span>, Vec<Span>))
        requires
            old(self).wf(),
        ensures
            final(self).keeps(*old(self)),
            final(self).same_frame(*old(self)),
            final(self).out == old(self).out,
            final(self).style@ == old(self).style@,
            final(self).inline@ == old(self).inline@,
            final(self).inline_src == old(self).inline_src,
            final(self).need_blank == old(self).need_blank,
            span_views(r.0@) == first_prefix(old(self).stack@),
            span_views(r.1@) == rest_prefix(old(self).stack@),
            final(self).stack@ == old(self).stack@.map_values(|c: Container| bullet_taken(c)),
    {
        let dim = self.theme.dim();
        let mut first: Vec<Span> = Vec::new();
        let mut rest: Vec<Span> = Vec::new();
        let mut i: usize = 0;
        let ghost st = self.stack@;
        while i < self.stack.len()
            invariant
                i <= self.stack@.len(),
                self.keeps(*old(self)),
                dim == dim_style(),
                self.same_frame(*old(self)),
                self.out == old(self).out,
                self.style@ == old(self).style@,
                self.inline@ == old(self).inline@,
                self.inline_src == old(self).inline_src,
                self.need_blank == old(self).need_blank,
                st == old(self).stack@,
                self.stack@.len() == st.len(),
                forall|k: int| 0 <= k < i ==> #[trigger] self.stack@[k] == bullet_taken(st[k]),
                forall|k: int| i <= k < st.len() ==> #[trigger] self.stack@[k] == st[k],
                span_views(first@) == first_prefix(st.take(i as int)),
                span_views(rest@) == rest_prefix(st.take(i as int)),
            decreases self.stack.len() - i,
        {
            let ghost f0 = first@;
            let ghost r0 = rest@;
            assert(st.take(i + 1).drop_last() =~= st.take(i as int));
            assert(st.take(i + 1).last() == st[i as int]);
            let mut taken: Option<(Option<String>, usize)> = None;
            match &self.stack[i] {
                Container::Quote { .. } => {
                    first.push(Span { content: crate::text::owned("│ "), style: dim });
                    rest.push(Span { content: crate::text::owned("│ "), style: dim });
                },
                Container::List { .. } => {},
                Container::Item { bullet, width } => {
                    match bullet {
                        Some(b) => first.push(Span { content: b.clone(), style: dim }),
                        None => first.push(raw(spaces(*width))),
                    }
                    rest.push(raw(spaces(*width)));
                    if bullet.is_some() {
                        taken = Some((None, *width));
                    }
                },
            }
            if let Some((b, w)) = taken {
                self.stack.set(i, Container::Item { bullet: b, width: w });
            }
            assert(span_views(first@) =~= span_views(f0) + piece_views(first_piece(st[i as int])));
            assert(span_views(rest@) =~= span_views(r0) + piece_views(rest_piece(st[i as int])));
            i = i + 1;
        }
        assert(st.take(st.len() as int) =~= st);
        assert(self.stack@ =~= st.map_values(|c: Container| bullet_taken(c)));
        (first, rest)
    }

    fn flush(&mut self)
        requires
            old(self).wf(),
        ensures
            final(self).keeps(*old(self)),
            final(self).grows(*old(self)),
            final(self).same_frame(*old(self)),
            final(self).style@ == old(self).style@,
            final(self).need_blank == old(self).need_blank,
            final(self).inline@.len() == 0,
            final(self).inline_src is None,
            old(self).inline@.len() == 0 ==> final(self).out == old(self).out && final(self).stack@ == old(self).stack@,
            old(self).inline@.len() > 0 ==> final(self).stack@ == quote_started(old(self).stack@).map_values(
                |c: Container| bullet_taken(c),
            ),
            final(self).prefixed(
                old(self).out.lines@.len() as int,
                first_prefix(old(self).stack@),
                rest_prefix(old(self).stack@),
            ),
            flush_out(*old(self), out_view(final(self).out)),
    {
        if self.inline.len() == 0 {
            self.inline_src = None;
            return;
        }
        let mut atoms: Vec<Atom> = Vec::new();
        std::mem::swap(&mut atoms, &mut self.inline);
        let src = match self.inline_src {
            Some(s) => s,
            None => 0,
        };
        self.inline_src = None;
        // A quote's first line `[!type] title` is a callout.
        let ghost st = self.stack@;
        let mut k: usize = self.stack.len();
        let mut quote: Option<usize> = None;
        while k > 0
            invariant_except_break
                quote is None,
            invariant
                k <= self.stack@.len(),
                self.stack@ == st,
                quote matches Some(q) ==> q < self.stack@.len() && innermost_quote(st, st.len() as int) == Some(q as int),
                quote is None ==> innermost_quote(st, k as int) == innermost_quote(st, st.len() as int),
            ensures
                quote matches Some(q) ==> q < self.stack@.len() && innermost_quote(st, st.len() as int) == Some(q as int),
                quote is None ==> innermost_quote(st, st.len() as int) is None,
            decreases k,
        {
            k = k - 1;
            if let Container::Quote { .. } = &self.stack[k] {
                quote = Some(k);
                break;
            }
        }
        proof {
            lemma_innermost_quote(st, st.len() as int);
        }
        let ghost run = atoms@;
        if let Some(q) = quote {
            let first = match &self.stack[q] {
                Container::Quote { first } => *first,
                _ => false,
            };
            if first {
                self.stack.set(q, Container::Quote { first: false });
                callout(&mut atoms, self.theme);
            }
            assert(self.stack@ =~= quote_started(st));
        } else {
            assert(self.stack@ =~= quote_started(st));
        }
        assert(atom_views(atoms@) == run_views(*old(self)));
        proof {
            lemma_innermost_quote(st, st.len() as int);
            if let Some(q) = innermost_quote(st, st.len() as int) {
                lemma_prefix_update(st, q, Container::Quote { first: false });
            }
        }
        let (first, rest) = self.prefixes();
        let ghost a2 = atoms@;
        self.wrap(atoms, first, rest, src);
        assert(src == src_of(*old(self)));
    }

    /// Ends the current line: its link hits, then the line itself.
    fn finish(&mut self, line: &mut Vec<Span>, pending: &mut Vec<(usize, usize, usize)>, line_src: usize)
        requires
            old(self).wf(),
            pending_ok(old(pending)@, old(self).n as int),
        ensures
            final(self).keeps(*old(self)),
            final(self).adds_out(*old(self)),
            final(self).out.lines@.len() == old(self).out.lines@.len() + 1,
            final(self).out.lines@.last() == *old(line),
            final(pending)@.len() == 0,
            out_view(final(self).out) == fin(out_view(old(self).out), span_views(old(line)@), old(pending)@, line_src, old(self).starts@),
    {
        let idx = self.out.lines.len();
        let ghost o0 = out_view(self.out);
        let ghost lv = span_views(line@);
        let src_line = line_of(&self.starts, line_src);
        let mut taken: Vec<Span> = Vec::new();
        std::mem::swap(&mut taken, line);
        self.emit(taken, src_line);
        let ghost lines1 = self.out.lines@;
        let mut k: usize = 0;
        while k < pending.len()
            invariant
                k <= pending@.len(),
                pending_ok(pending@, self.n as int),
                idx < self.out.lines@.len(),
                idx == old(self).out.lines@.len(),
                self.keeps(*old(self)),
                self.adds_out(*old(self)),
                self.out.lines@ == lines1,
                lines1.len() == idx + 1,
                lines1.last() == *old(line),
                pending@ == old(pending)@,
                self.out.source_line@ == o0.srcs.push(line_number(old(self).starts@, line_src)),
                out_view(self.out).lines == o0.lines.push(lv),
                out_view(self.out).hits == o0.hits + pending_hits(pending@.take(k as int), idx),
            decreases pending.len() - k,
        {
            let (link, start, end) = pending[k];
            let hit = LinkHit {
                line: idx,
                cols: std::ops::Range { start: #[verifier::truncate] (start as u16), end: #[verifier::truncate] (end as u16) },
                link,
            };
            let ghost before = self.out.hits@;
            let ghost hv = out_view(self.out).hits;
            self.out.hits.push(hit);
            assert(rendered_ok(self.out, self.n as int)) by {
                assert forall|j: int| 0 <= j < self.out.hits@.len() implies (#[trigger] self.out.hits@[j]).line < self.out.lines@.len()
                    && self.out.hits@[j].link < self.n by {
                    if j < before.len() {
                        assert(self.out.hits@[j] == before[j]);
                    }
                }
            }
            assert(out_view(self.out).hits =~= hv.push(hit_tuple(hit)));
            assert(pending_hits(pending@.take(k + 1), idx) =~= pending_hits(pending@.take(k as int), idx).push(hit_tuple(hit)));
            k = k + 1;
        }
        assert(pending@.take(pending@.len() as int) =~= pending@);
        assert(out_view(self.out) =~= fin(o0, lv, old(pending)@, line_src, old(self).starts@));
        pending.clear();
    }
}

/// A link hit as its line, its columns and its link.
pub open spec fn hit_tuple(h: LinkHit) -> (usize, u16, u16, usize) {
    (h.line, h.cols.start, h.cols.end, h.link)
}

/// Rendered output with its text taken as chars.
#[verifier::ext_equal]
pub struct OutView {
    pub lines: Seq<Seq<(Seq<char>, Style)>>,
    pub srcs: Seq<u32>,
    pub hits: Seq<(usize, u16, u16, usize)>,
}

pub open spec fn out_view(r: Rendered) -> OutView {
    OutView {
        lines: r.lines@.map_values(|l: Vec<Span>| span_views(l@)),
        srcs: r.source_line@,
        hits: r.hits@.map_values(|h: LinkHit| hit_tuple(h)),
    }
}

/// The hits of a line `idx` from its pending (link, start, end) triples.
pub open spec fn pending_hits(p: Seq<(usize, usize, usize)>, idx: usize) -> Seq<(usize, u16, u16, usize)> {
    p.map_values(|q: (usize, usize, usize)| (idx, q.1 as u16, q.2 as u16, q.0))
}

/// `o` with `line` ended: the line, its source line for byte `line_src`,
/// then its link hits.
pub open spec fn fin(o: OutView, line: Seq<(Seq<char>, Style)>, pending: Seq<(usize, usize, usize)>, line_src: usize, starts: Seq<usize>) -> OutView {
    OutView {
        lines: o.lines.push(line),
        srcs: o.srcs.push(line_number(starts, line_src)),
        hits: o.hits + pending_hits(pending, o.lines.len() as usize),
    }
}

/// `a + b`, held at `usize::MAX`.
pub open spec fn sat_add(a: usize, b: usize) -> usize {
    if a + b > usize::MAX { usize::MAX } else { (a + b) as usize }
}

/// The link hits of a line after text `w` columns wide from `link` lands at
/// column `col`: it extends the last hit when that is the same link and
/// ends at `col`, else it opens a new one.
pub open spec fn placed(pending: Seq<(usize, usize, usize)>, link: Option<usize>, col: usize, w: usize) -> Seq<(usize, usize, usize)> {
    match link {
        None => pending,
        Some(l) => if pending.len() > 0 && pending.last().0 == l && pending.last().2 == col {
            pending.drop_last().push((l, pending.last().1, sat_add(pending.last().2, w)))
        } else {
            pending.push((l, col, sat_add(col, w)))
        },
    }
}

/// Places `text` from `atom` at the end of `line`, noting where a link's
/// text lands; touching pieces of one link make one hit.
fn place(line: &mut Vec<Span>, pending: &mut Vec<(usize, usize, usize)>, col: &mut usize, text: &str, atom: &Atom, Ghost(n): Ghost<int>)
    requires
        pending_ok(old(pending)@, n),
        link_ok(atom.link, n),
    ensures
        pending_ok(final(pending)@, n),
        final(line)@.drop_last() == old(line)@,
        final(line)@.len() == old(line)@.len() + 1,
        final(line)@.last().content@ == text@,
        final(line)@.last().style == atom.style,
        *final(col) == sat_add(*old(col), str_width_of(text@)),
        final(pending)@ == placed(old(pending)@, atom.link, *old(col), str_width_of(text@)),
{
    let w = str_width(text);
    if let Some(link) = atom.link {
        let k = pending.len();
        if k > 0 && pending[k - 1].0 == link && pending[k - 1].2 == *col {
            let (l, s, e) = pending[k - 1];
            let ghost before = pending@;
            pending.set(k - 1, (l, s, e.saturating_add(w)));
            assert(pending@ =~= before.drop_last().push((l, s, e.saturating_add(w))));
        } else {
            pending.push((link, *col, col.saturating_add(w)));
        }
    }
    let ghost line0 = line@;
    line.push(Span { content: crate::text::owned(text), style: atom.style });
    assert(line@.drop_last() =~= line0);
    *col = col.saturating_add(w);
}

/// The atoms' texts, run together.
pub open spec fn texts(a: Seq<Atom>) -> Seq<char>
    decreases a.len(),
{
    if a.len() == 0 {
        seq![]
    } else {
        texts(a.drop_last()) + a.last().text@
    }
}

proof fn lemma_texts_first(a: Seq<Atom>)
    requires
        a.len() > 0,
    ensures
        texts(a).len() == a[0].text@.len() + texts(a.drop_first()).len(),
    decreases a.len(),
{
    if a.len() > 1 {
        lemma_texts_first(a.drop_last());
        assert(a.drop_last().drop_first() =~= a.drop_first().drop_last());
    } else {
        assert(a.drop_first() =~= Seq::<Atom>::empty());
        assert(a.drop_last() =~= Seq::<Atom>::empty());
    }
}

proof fn lemma_texts_take(a: Seq<Atom>, i: int)
    requires
        0 <= i <= a.len(),
    ensures
        texts(a.take(i)).len() <= texts(a).len(),
    decreases a.len(),
{
    if i < a.len() {
        assert(a.drop_last().take(i) =~= a.take(i));
        lemma_texts_take(a.drop_last(), i);
    } else {
        assert(a.take(i) =~= a);
    }
}

/// Where the title line ends: the first atom at or after `i` that is a
/// soft or hard break, or the end.
pub open spec fn title_end(a: Seq<Atom>, i: int) -> int
    decreases a.len() - i,
{
    if i >= a.len() || i < 0 || a[i].soft || a[i].brk {
        i
    } else {
        title_end(a, i + 1)
    }
}

/// The text of the title line.
pub open spec fn title_text(a: Seq<Atom>) -> Seq<char> {
    texts(a.take(title_end(a, 0)))
}

/// The first `]` in `h` at or after `i`, or its length.
pub open spec fn close_at(h: Seq<char>, i: int) -> int
    decreases h.len() - i,
{
    if i >= h.len() || i < 0 || h[i] == ']' {
        i
    } else {
        close_at(h, i + 1)
    }
}

/// Where a callout's kind ends: before `e`, without trailing `+` or `-`.
pub open spec fn kind_end_at(h: Seq<char>, e: int) -> int
    decreases e,
{
    if e > 2 && (h[e - 1] == '+' || h[e - 1] == '-') {
        kind_end_at(h, e - 1)
    } else {
        e
    }
}

/// The title line starts `[!kind]`.
pub open spec fn has_callout(h: Seq<char>) -> bool {
    h.len() >= 2 && h[0] == '[' && h[1] == '!' && close_at(h, 2) < h.len()
}

/// The first char in ASCII uppercase.
pub open spec fn upper_first(k: Seq<char>) -> Seq<char> {
    if k.len() == 0 {
        k
    } else {
        seq![ascii_upper(k[0])] + k.drop_first()
    }
}

/// `▌ Kind:` for the title line `[!kind]…`.
pub open spec fn callout_marker(h: Seq<char>) -> Seq<char> {
    seq!['▌', ' '] + upper_first(h.subrange(2, kind_end_at(h, close_at(h, 2)))) + seq![':']
}

/// An atom with its text taken as chars.
pub struct AtomView {
    pub text: Seq<char>,
    pub style: Style,
    pub link: Option<usize>,
    pub src: usize,
    pub brk: bool,
    pub soft: bool,
}

pub open spec fn atom_view(a: Atom) -> AtomView {
    AtomView { text: a.text@, style: a.style, link: a.link, src: a.src, brk: a.brk, soft: a.soft }
}

pub open spec fn atom_views(a: Seq<Atom>) -> Seq<AtomView> {
    a.map_values(|x: Atom| atom_view(x))
}

/// The atoms with their first `c` chars of text gone.
pub open spec fn consumed(v: Seq<AtomView>, c: int) -> Seq<AtomView>
    decreases v.len(),
{
    if c <= 0 || v.len() == 0 {
        v
    } else if v[0].text.len() <= c {
        consumed(v.drop_first(), c - v[0].text.len())
    } else {
        v.update(0, AtomView { text: v[0].text.skip(c), ..v[0] })
    }
}

/// The first soft break at or after `i`, or the end.
pub open spec fn soft_at(v: Seq<AtomView>, i: int) -> int
    decreases v.len() - i,
{
    if i < 0 || i >= v.len() || v[i].soft {
        i
    } else {
        soft_at(v, i + 1)
    }
}

/// The first soft break made a hard one.
pub open spec fn soft_broken(v: Seq<AtomView>) -> Seq<AtomView> {
    let s = soft_at(v, 0);
    if s < v.len() {
        v.update(s, AtomView { text: seq![], brk: true, ..v[s] })
    } else {
        v
    }
}

/// A callout's atoms: the marker in place of `[!kind]`, then the rest, its
/// title line ended at the first soft break.
pub open spec fn callout_atoms(v: Seq<AtomView>, h: Seq<char>, color: bool) -> Seq<AtomView> {
    let rest = consumed(v, close_at(h, 2) + 1);
    let marker = AtomView {
        text: callout_marker(h),
        style: callout_style(color),
        link: None,
        src: if rest.len() > 0 { rest[0].src } else { 0 },
        brk: false,
        soft: false,
    };
    soft_broken(seq![marker] + rest)
}

/// Turns a leading `[!type]` into `▌ Type:` and ends the title line at the
/// first soft break. pulldown-cmark may split `[!type]` across text events,
/// so the marker is read across atoms.
#[verifier::rlimit(40)]
fn callout(atoms: &mut Vec<Atom>, theme: Theme)
    ensures
        forall|n: int| atoms_ok(old(atoms)@, n) ==> atoms_ok(final(atoms)@, n),
        !has_callout(title_text(old(atoms)@)) ==> final(atoms)@ == old(atoms)@,
        has_callout(title_text(old(atoms)@)) ==> atom_views(final(atoms)@) == callout_atoms(
            atom_views(old(atoms)@),
            title_text(old(atoms)@),
            theme.color,
        ),
{
    let ghost orig = atoms@;
    let mut head: Vec<char> = Vec::new();
    let mut i: usize = 0;
    while i < atoms.len() && !atoms[i].soft && !atoms[i].brk
        invariant
            i <= atoms@.len(),
            atoms@ == orig,
            head@ == texts(orig.take(i as int)),
            title_end(orig, i as int) == title_end(orig, 0),
        decreases atoms.len() - i,
    {
        let t = chars_of(atoms[i].text.as_str());
        let ghost h0 = head@;
        let mut j: usize = 0;
        while j < t.len()
            invariant
                j <= t@.len(),
                head@ == h0 + t@.take(j as int),
            decreases t.len() - j,
        {
            head.push(t[j]);
            assert(t@.take(j + 1) =~= t@.take(j as int).push(t@[j as int]));
            j = j + 1;
        }
        assert(orig.take(i + 1).drop_last() =~= orig.take(i as int));
        assert(t@.take(t@.len() as int) =~= t@);
        i = i + 1;
    }
    let ghost h = head@;
    assert(h == title_text(orig));
    if !(head.len() >= 2 && head[0] == '[' && head[1] == '!') {
        return;
    }
    let mut close: usize = 2;
    while close < head.len() && head[close] != ']'
        invariant
            2 <= close <= head@.len(),
            close_at(h, close as int) == close_at(h, 2),
            head@ == h,
        decreases head.len() - close,
    {
        close = close + 1;
    }
    if close == head.len() {
        return;
    }
    // The kind, without a trailing fold marker.
    let mut kind_end = close;
    while kind_end > 2 && (head[kind_end - 1] == '+' || head[kind_end - 1] == '-')
        invariant
            2 <= kind_end <= close < head@.len(),
            kind_end_at(h, kind_end as int) == kind_end_at(h, close as int),
            head@ == h,
        decreases kind_end,
    {
        kind_end = kind_end - 1;
    }
    proof {
        lemma_texts_take(orig, i as int);
    }
    let mut consume: usize = close + 1;
    assert(close == close_at(h, 2));
    while consume > 0
        invariant
            forall|n: int| atoms_ok(orig, n) ==> atoms_ok(atoms@, n),
            consume <= texts(atoms@).len(),
            consumed(atom_views(atoms@), consume as int) == consumed(atom_views(orig), close + 1),
        decreases consume, atoms@.len(),
    {
        if atoms.len() == 0 {
            assert(atoms@ =~= Seq::<Atom>::empty());
            return;
        }
        proof {
            lemma_texts_first(atoms@);
        }
        let t = chars_of(atoms[0].text.as_str());
        if t.len() <= consume {
            consume = consume - t.len();
            let ghost before = atoms@;
            atoms.remove(0);
            assert(atoms@ =~= before.drop_first());
            assert(atom_views(atoms@) =~= atom_views(before).drop_first());
            assert forall|n: int| atoms_ok(orig, n) implies atoms_ok(atoms@, n) by {
                assert forall|k: int| 0 <= k < atoms@.len() implies link_ok((#[trigger] atoms@[k]).link, n) by {
                    assert(atoms@[k] == before[k + 1]);
                }
            }
        } else {
            let tail = crate::text::slice_range(t.as_slice(), consume, t.len());
            let a = Atom {
                text: string_of(tail),
                style: atoms[0].style,
                link: atoms[0].link,
                src: atoms[0].src,
                brk: atoms[0].brk,
                soft: atoms[0].soft,
            };
            let ghost before = atoms@;
            atoms.set(0, a);
            assert(atom_views(atoms@) =~= atom_views(before).update(
                0,
                AtomView { text: atom_views(before)[0].text.skip(consume as int), ..atom_views(before)[0] },
            ));
            assert forall|n: int| atoms_ok(orig, n) implies atoms_ok(atoms@, n) by {
                assert forall|k: int| 0 <= k < atoms@.len() implies link_ok((#[trigger] atoms@[k]).link, n) by {
                    if k > 0 {
                        assert(atoms@[k] == before[k]);
                    } else {
                        assert(atoms@[0].link == before[0].link);
                    }
                }
            }
            consume = 0;
        }
    }
    let mut marker_text: Vec<char> = Vec::new();
    marker_text.push('▌');
    marker_text.push(' ');
    let mut k: usize = 2;
    while k < kind_end
        invariant
            2 <= k <= kind_end <= head@.len(),
            head@ == h,
            marker_text@ == seq!['▌', ' '] + upper_first(h.subrange(2, k as int)),
        decreases kind_end - k,
    {
        let c = head[k];
        let ghost m0 = marker_text@;
        if k == 2 {
            marker_text.push(ascii_upper_char(c));
        } else {
            marker_text.push(c);
        }
        assert(h.subrange(2, k + 1) =~= h.subrange(2, k as int).push(c));
        assert(upper_first(h.subrange(2, k + 1)) =~= upper_first(h.subrange(2, k as int)).push(if k == 2 {
            ascii_upper(c)
        } else {
            c
        }));
        assert(marker_text@ =~= m0.push(if k == 2 { ascii_upper(c) } else { c }));
        k = k + 1;
    }
    marker_text.push(':');
    assert(marker_text@ =~= callout_marker(h));
    let src = if atoms.len() > 0 { atoms[0].src } else { 0 };
    let marker = Atom { text: string_of(marker_text.as_slice()), style: theme.callout(), link: None, src, brk: false, soft: false };
    let ghost before = atoms@;
    atoms.insert(0, marker);
    assert forall|n: int| atoms_ok(orig, n) implies atoms_ok(atoms@, n) by {
        assert forall|k: int| 0 <= k < atoms@.len() implies link_ok((#[trigger] atoms@[k]).link, n) by {
            if k > 0 {
                assert(atoms@[k] == before[k - 1]);
            }
        }
    }
    let ghost with_marker = atoms@;
    let ghost joined = seq![atom_view(marker)] + consumed(atom_views(orig), close + 1);
    assert(atom_views(with_marker) =~= joined);
    assert(joined == seq![
        AtomView {
            text: callout_marker(h),
            style: callout_style(theme.color),
            link: None,
            src: if consumed(atom_views(orig), close + 1).len() > 0 { consumed(atom_views(orig), close + 1)[0].src } else { 0 },
            brk: false,
            soft: false,
        },
    ] + consumed(atom_views(orig), close + 1));
    let mut s: usize = 0;
    while s < atoms.len() && !atoms[s].soft
        invariant
            s <= atoms@.len(),
            atoms@ == with_marker,
            atom_views(with_marker) == joined,
            soft_at(joined, s as int) == soft_at(joined, 0),
        decreases atoms.len() - s,
    {
        assert(joined[s as int] == atom_view(atoms@[s as int]));
        s = s + 1;
    }
    if s < atoms.len() {
        assert(s > 0);
        let a = Atom {
            text: String::new(),
            style: atoms[s].style,
            link: atoms[s].link,
            src: atoms[s].src,
            brk: true,
            soft: atoms[s].soft,
        };
        let ghost before = atoms@;
        atoms.set(s, a);
        assert(atom_views(atoms@) =~= joined.update(s as int, AtomView { text: seq![], brk: true, ..joined[s as int] }));
        assert forall|n: int| atoms_ok(orig, n) implies atoms_ok(atoms@, n) by {
            assert forall|k: int| 0 <= k < atoms@.len() implies link_ok((#[trigger] atoms@[k]).link, n) by {
                assert(atoms@[k].link == before[k].link);
            }
        }
    }
}

/// The ASCII uppercase of a char: `a`..`z` move down 32 code points.
pub open spec fn ascii_upper(c: char) -> char {
    if 'a' <= c <= 'z' { ((c as u32) - 32) as char } else { c }
}

/// The ASCII uppercase of a char.
fn ascii_upper_char(c: char) -> (r: char)
    ensures
        r == ascii_upper(c),
{
    if 'a' <= c && c <= 'z' {
        ((c as u8) - 32) as char
    } else {
        c
    }
}

/// `words_of` over atoms taken as views.
pub open spec fn words_of_v(atoms: Seq<AtomView>) -> Seq<WordView>
    decreases atoms.len(),
{
    if atoms.len() == 0 {
        seq![]
    } else {
        let ws = words_of_v(atoms.drop_last());
        let a = atoms.last();
        if a.brk {
            ws.push(WordView::Break(sat_add(a.src, 1)))
        } else {
            push_pieces(ws, runs(a.text), (atoms.len() - 1) as usize)
        }
    }
}

proof fn lemma_words_of_v(atoms: Seq<Atom>)
    ensures
        words_of(atoms) == words_of_v(atom_views(atoms)),
    decreases atoms.len(),
{
    if atoms.len() > 0 {
        assert(atom_views(atoms.drop_last()) =~= atom_views(atoms).drop_last());
        lemma_words_of_v(atoms.drop_last());
    }
}

/// A word as the layout sees it.
pub enum WordView {
    Text(Seq<(Seq<char>, usize)>, bool),
    Break(usize),
}

pub open spec fn word_view(w: Word) -> WordView {
    match w {
        Word::Text { parts, space } => WordView::Text(parts@.map_values(|p: (String, usize)| (p.0@, p.1)), space),
        Word::Break(s) => WordView::Break(s),
    }
}

pub open spec fn word_views(ws: Seq<Word>) -> Seq<WordView> {
    ws.map_values(|w: Word| word_view(w))
}

/// Only spaces and tabs.
pub open spec fn blank_run(p: Seq<char>) -> bool {
    forall|j: int| 0 <= j < p.len() ==> p[j] == ' ' || p[j] == '\t'
}

/// Adds piece `p` of atom `i`: text that touches the word before it joins
/// that word; a run of space, or text after space, starts a new one.
pub open spec fn push_piece(ws: Seq<WordView>, p: Seq<char>, i: usize) -> Seq<WordView> {
    let fresh = ws.push(WordView::Text(seq![(p, i)], blank_run(p)));
    if !blank_run(p) && ws.len() > 0 {
        match ws.last() {
            WordView::Text(parts, false) => ws.drop_last().push(WordView::Text(parts.push((p, i)), false)),
            _ => fresh,
        }
    } else {
        fresh
    }
}

pub open spec fn push_pieces(ws: Seq<WordView>, ps: Seq<Seq<char>>, i: usize) -> Seq<WordView>
    decreases ps.len(),
{
    if ps.len() == 0 {
        ws
    } else {
        push_piece(push_pieces(ws, ps.drop_last(), i), ps.last(), i)
    }
}

/// The words of a run of atoms: a hard break is a break before the text
/// after it; text is split into words and runs of space.
pub open spec fn words_of(atoms: Seq<Atom>) -> Seq<WordView>
    decreases atoms.len(),
{
    if atoms.len() == 0 {
        seq![]
    } else {
        let ws = words_of(atoms.drop_last());
        let a = atoms.last();
        if a.brk {
            ws.push(WordView::Break(sat_add(a.src, 1)))
        } else {
            push_pieces(ws, runs(a.text@), (atoms.len() - 1) as usize)
        }
    }
}

/// Groups atoms into words and runs of space. Text from different atoms
/// with no space between (a link and the comma after it) is one word.
fn words(atoms: &Vec<Atom>) -> (r: Vec<Word>)
    ensures
        words_ok(r@, atoms@.len() as int),
        word_views(r@) == words_of(atoms@),
{
    let mut out: Vec<Word> = Vec::new();
    let mut i: usize = 0;
    while i < atoms.len()
        invariant
            i <= atoms@.len(),
            words_ok(out@, atoms@.len() as int),
            word_views(out@) == words_of(atoms@.take(i as int)),
        decreases atoms.len() - i,
    {
        let atom = &atoms[i];
        assert(atoms@.take(i + 1).drop_last() =~= atoms@.take(i as int));
        assert(atoms@.take(i + 1).last() == atoms@[i as int]);
        if atom.brk {
            let ghost before = out@;
            out.push(Word::Break(atom.src.saturating_add(1)));
            assert(word_views(out@) =~= word_views(before).push(WordView::Break(sat_add(atom.src, 1))));
            assert(words_ok(out@, atoms@.len() as int)) by {
                assert forall|k: int| 0 <= k < out@.len() implies match #[trigger] out@[k] {
                    Word::Text { parts, .. } => parts@.len() > 0 && forall|j: int| 0 <= j < parts@.len() ==> (#[trigger] parts@[j]).1 < atoms@.len(),
                    Word::Break(_) => true,
                } by {
                    if k < before.len() {
                        assert(out@[k] == before[k]);
                    }
                }
            }
        } else {
            let pieces = split_words(atom.text.as_str());
            let ghost w0 = word_views(out@);
            let mut p: usize = 0;
            while p < pieces.len()
                invariant
                    p <= pieces@.len(),
                    i < atoms@.len(),
                    words_ok(out@, atoms@.len() as int),
                    word_views(out@) == push_pieces(w0, views(pieces@).take(p as int), i),
                decreases pieces.len() - p,
            {
                let piece = &pieces[p];
                let pc = chars_of(piece.as_str());
                let mut space = true;
                let mut j: usize = 0;
                assert(views(pieces@).take(p + 1).drop_last() =~= views(pieces@).take(p as int));
                assert(views(pieces@).take(p + 1).last() == piece@);
                while j < pc.len()
                    invariant
                        j <= pc@.len(),
                        space == blank_run(pc@.take(j as int)),
                    decreases pc.len() - j,
                {
                    if !(pc[j] == ' ' || pc[j] == '\t') {
                        space = false;
                    }
                    assert(pc@.take(j + 1)[j as int] == pc@[j as int]);
                    assert forall|q: int| 0 <= q < j implies #[trigger] pc@.take(j + 1)[q] == pc@.take(j as int)[q] by {}
                    assert(pc@.take(j + 1) =~= pc@.take(j as int).push(pc@[j as int]));
                    j = j + 1;
                }
                assert(pc@.take(pc@.len() as int) =~= pc@);
                let ghost before = out@;
                let n = out.len();
                let mut merged = false;
                if n > 0 && !space {
                    if let Word::Text { space: false, .. } = &out[n - 1] {
                        merged = true;
                    }
                }
                if merged {
                    let last = out.pop().unwrap();
                    if let Word::Text { mut parts, space: s } = last {
                        let ghost p0 = parts@;
                        parts.push((crate::text::owned(piece.as_str()), i));
                        assert(parts@.map_values(|q: (String, usize)| (q.0@, q.1)) =~= p0.map_values(
                            |q: (String, usize)| (q.0@, q.1),
                        ).push((piece@, i)));
                        out.push(Word::Text { parts, space: s });
                    } else {
                        out.push(last);
                    }
                    assert(word_views(out@) =~= push_piece(word_views(before), pc@, i));
                } else {
                    let mut parts: Vec<(String, usize)> = Vec::new();
                    parts.push((crate::text::owned(piece.as_str()), i));
                    out.push(Word::Text { parts, space });
                    assert(parts@.map_values(|q: (String, usize)| (q.0@, q.1)) =~= seq![(piece@, i)]);
                    assert(word_views(out@) =~= push_piece(word_views(before), pc@, i));
                }
                assert(words_ok(out@, atoms@.len() as int)) by {
                    assert forall|k: int| 0 <= k < out@.len() implies match #[trigger] out@[k] {
                        Word::Text { parts, .. } => parts@.len() > 0 && forall|j: int| 0 <= j < parts@.len() ==> (#[trigger] parts@[j]).1 < atoms@.len(),
                        Word::Break(_) => true,
                    } by {
                        if k < n - 1 || (!merged && k < n) {
                            assert(out@[k] == before[k]);
                        }
                        if merged && k == n - 1 {
                            let w = before[k];
                            if let Word::Text { parts, .. } = w {
                                assert forall|jj: int| 0 <= jj < parts@.len() implies (#[trigger] parts@[jj]).1 < atoms@.len() by {}
                            }
                        }
                    }
                }
                p = p + 1;
            }
            assert(views(pieces@).take(pieces@.len() as int) =~= runs(atom.text@));
        }
        i = i + 1;
    }
    assert(atoms@.take(atoms@.len() as int) =~= atoms@);
    out
}

/// Each run of `s` has a char.
proof fn lemma_runs_nonempty(s: Seq<char>)
    ensures
        forall|k: int| 0 <= k < runs(s).len() ==> (#[trigger] runs(s)[k]).len() > 0,
    decreases s.len(),
{
    if s.len() > 0 {
        lemma_runs_nonempty(s.drop_last());
        let r = runs(s.drop_last());
        if r.len() > 0 && r.last().len() > 0 && is_break(r.last().last()) == is_break(s.last()) {
            assert forall|k: int| 0 <= k < runs(s).len() implies (#[trigger] runs(s)[k]).len() > 0 by {
                if k < r.len() - 1 {
                    assert(runs(s)[k] == r[k]);
                }
            }
        } else {
            assert forall|k: int| 0 <= k < runs(s).len() implies (#[trigger] runs(s)[k]).len() > 0 by {
                if k < r.len() {
                    assert(runs(s)[k] == r[k]);
                }
            }
        }
    }
}

/// Every piece of every text word has a char.
pub open spec fn words_filled(ws: Seq<WordView>) -> bool {
    forall|k: int| 0 <= k < ws.len() ==> match #[trigger] ws[k] {
        WordView::Text(ps, _) => forall|j: int| 0 <= j < ps.len() ==> (#[trigger] ps[j]).0.len() > 0,
        WordView::Break(_) => true,
    }
}

/// A word that shows: a hard break, or text that is not only space.
pub open spec fn visible(w: WordView) -> bool {
    match w {
        WordView::Text(_, space) => !space,
        WordView::Break(_) => true,
    }
}

proof fn lemma_push_pieces_filled(ws: Seq<WordView>, ps: Seq<Seq<char>>, i: usize)
    requires
        words_filled(ws),
        forall|k: int| 0 <= k < ps.len() ==> (#[trigger] ps[k]).len() > 0,
    ensures
        words_filled(push_pieces(ws, ps, i)),
    decreases ps.len(),
{
    if ps.len() > 0 {
        lemma_push_pieces_filled(ws, ps.drop_last(), i);
        let w = push_pieces(ws, ps.drop_last(), i);
        let p = ps.last();
        let r = push_piece(w, p, i);
        assert forall|k: int| 0 <= k < r.len() implies match #[trigger] r[k] {
            WordView::Text(qs, _) => forall|j: int| 0 <= j < qs.len() ==> (#[trigger] qs[j]).0.len() > 0,
            WordView::Break(_) => true,
        } by {
            if k < w.len() - 1 || (k < w.len() && r[k] == w[k]) {
                assert(r[k] == w[k]);
            } else if k == r.len() - 1 {
                match r[k] {
                    WordView::Text(qs, _) => {
                        assert forall|j: int| 0 <= j < qs.len() implies (#[trigger] qs[j]).0.len() > 0 by {
                            if j < qs.len() - 1 {
                                match w.last() {
                                    WordView::Text(os, _) => {
                                        assert(qs[j] == os[j]);
                                    },
                                    _ => {},
                                }
                            }
                        }
                    },
                    _ => {},
                }
            }
        }
    }
}

proof fn lemma_words_filled(atoms: Seq<Atom>)
    ensures
        words_filled(words_of(atoms)),
    decreases atoms.len(),
{
    if atoms.len() > 0 {
        lemma_words_filled(atoms.drop_last());
        let ws = words_of(atoms.drop_last());
        let a = atoms.last();
        if a.brk {
            let r = ws.push(WordView::Break(sat_add(a.src, 1)));
            assert forall|k: int| 0 <= k < r.len() implies match #[trigger] r[k] {
                WordView::Text(qs, _) => forall|j: int| 0 <= j < qs.len() ==> (#[trigger] qs[j]).0.len() > 0,
                WordView::Break(_) => true,
            } by {
                if k < ws.len() {
                    assert(r[k] == ws[k]);
                }
            }
        } else {
            lemma_runs_nonempty(a.text@);
            lemma_push_pieces_filled(ws, runs(a.text@), (atoms.len() - 1) as usize);
        }
    }
}

proof fn lemma_span_views_push(a: Seq<Span>, b: Seq<Span>)
    requires
        b.len() == a.len() + 1,
        b.drop_last() == a,
    ensures
        span_views(b) == span_views(a).push((b.last().content@, b.last().style)),
{
    assert forall|i: int| 0 <= i < a.len() implies #[trigger] b[i] == a[i] by {
        assert(b[i] == b.drop_last()[i]);
    }
    assert(span_views(b) =~= span_views(a).push((b.last().content@, b.last().style)));
}

proof fn lemma_span_views_push_one(a: Seq<Span>, x: Span)
    ensures
        span_views(a.push(x)) == span_views(a).push((x.content@, x.style)),
{
    assert(span_views(a.push(x)) =~= span_views(a).push((x.content@, x.style)));
}

/// The state of a wrap in progress.
pub open spec fn ws_of(o: Rendered, line: Seq<Span>, col: usize, line_src: usize, has_text: bool, pending: Seq<(usize, usize, usize)>) -> WrapState {
    WrapState { o: out_view(o), line: span_views(line), col, line_src, has_text, pending }
}

/// What stays fixed while a run is wrapped.
pub struct WrapEnv {
    pub width: usize,
    pub rest: Seq<(Seq<char>, Style)>,
    pub starts: Seq<usize>,
}

/// Where wrapping a run has got to: the output so far, the open line, the
/// column it has reached, the source offset it starts at, whether it holds
/// text yet, and the link hits it holds.
pub struct WrapState {
    pub o: OutView,
    pub line: Seq<(Seq<char>, Style)>,
    pub col: usize,
    pub line_src: usize,
    pub has_text: bool,
    pub pending: Seq<(usize, usize, usize)>,
}

/// The open line ended; a new one opens with the follow-on prefix at
/// source offset `src`.
pub open spec fn ws_newline(ws: WrapState, env: WrapEnv, src: usize) -> WrapState {
    WrapState {
        o: fin(ws.o, ws.line, ws.pending, ws.line_src, env.starts),
        line: env.rest,
        col: views_width(env.rest) as usize,
        line_src: src,
        has_text: ws.has_text,
        pending: seq![],
    }
}

/// `text` from atom `a` placed at the end of the open line.
pub open spec fn ws_place(ws: WrapState, text: Seq<char>, a: AtomView) -> WrapState {
    WrapState {
        line: ws.line.push((text, a.style)),
        col: sat_add(ws.col, str_width_of(text)),
        pending: placed(ws.pending, a.link, ws.col, str_width_of(text)),
        ..ws
    }
}

/// Piece `rem` of atom `a` placed: while it overflows the width, the part
/// that fits in the room left (at least one char) ends the line.
pub open spec fn ws_piece(ws: WrapState, rem: Seq<char>, a: AtomView, env: WrapEnv) -> WrapState
    decreases rem.len(),
{
    if sat_add(ws.col, str_width_of(rem)) > env.width && rem.len() > 0 {
        let room = if env.width > ws.col { (env.width - ws.col) as usize } else { 1usize };
        let k = split_point(rem, room as int, 0, 0);
        proof {
            lemma_split_first(rem, room as int);
        }
        ws_piece(ws_newline(ws_place(ws, rem.take(k), a), env, a.src), rem.skip(k), a, env)
    } else if rem.len() > 0 {
        WrapState { has_text: true, ..ws_place(ws, rem, a) }
    } else {
        ws
    }
}

/// The pieces of a word placed in turn.
pub open spec fn ws_parts(ws: WrapState, ps: Seq<(Seq<char>, usize)>, atoms: Seq<AtomView>, env: WrapEnv) -> WrapState
    decreases ps.len(),
{
    if ps.len() == 0 {
        ws
    } else {
        let w = ws_parts(ws, ps.drop_last(), atoms, env);
        ws_piece(w, ps.last().0, atoms[ps.last().1 as int], env)
    }
}

/// The summed widths of a word's pieces, held at `usize::MAX`.
pub open spec fn parts_width(ps: Seq<(Seq<char>, usize)>) -> usize
    decreases ps.len(),
{
    if ps.len() == 0 {
        0
    } else {
        sat_add(parts_width(ps.drop_last()), str_width_of(ps.last().0))
    }
}

/// One word laid out: a break ends the line; space at the start of a line
/// is dropped; a word that does not fit after text starts a new line.
pub open spec fn ws_word(ws: WrapState, w: WordView, atoms: Seq<AtomView>, env: WrapEnv) -> WrapState {
    match w {
        WordView::Break(src) => WrapState { has_text: false, ..ws_newline(ws, env, src) },
        WordView::Text(ps, space) => {
            let skip0 = space && !ws.has_text;
            let full = !skip0 && sat_add(ws.col, parts_width(ps)) > env.width && ws.has_text;
            let ws1 = if full {
                WrapState { has_text: false, ..ws_newline(ws, env, atoms[ps[0].1 as int].src) }
            } else {
                ws
            };
            let skip = if full { space } else { skip0 };
            if skip { ws1 } else { ws_parts(ws1, ps, atoms, env) }
        },
    }
}

/// The words laid out in turn.
pub open spec fn ws_words(ws: WrapState, words: Seq<WordView>, atoms: Seq<AtomView>, env: WrapEnv) -> WrapState
    decreases words.len(),
{
    if words.len() == 0 {
        ws
    } else {
        ws_word(ws_words(ws, words.drop_last(), atoms, env), words.last(), atoms, env)
    }
}

/// The output `o` with the run `atoms` wrapped at `width` after it: its
/// first line after `first`, the others after `rest`, a line ending at
/// each hard break and wherever the next word would not fit.
pub open spec fn wrap_out(o: OutView, atoms: Seq<AtomView>, first: Seq<(Seq<char>, Style)>, rest: Seq<(Seq<char>, Style)>, width: usize, starts: Seq<usize>, src: usize) -> OutView {
    let env = WrapEnv { width, rest, starts };
    let ws0 = WrapState { o, line: first, col: views_width(first) as usize, line_src: src, has_text: false, pending: seq![] };
    let ws = ws_words(ws0, words_of_v(atoms), atoms, env);
    if ws.has_text || ws.line.len() > 0 {
        fin(ws.o, ws.line, ws.pending, ws.line_src, starts)
    } else {
        ws.o
    }
}

impl Renderer {
    fn wrap(&mut self, atoms: Vec<Atom>, first: Vec<Span>, rest: Vec<Span>, src: usize)
        requires
            old(self).wf(),
            atoms_ok(atoms@, old(self).n as int),
        ensures
            final(self).keeps(*old(self)),
            final(self).adds_out(*old(self)),
            atoms@.len() == 0 && first@.len() == 0 ==> final(self).out == old(self).out,
            final(self).prefixed(old(self).out.lines@.len() as int, span_views(first@), span_views(rest@)),
            first@.len() > 0 || (exists|k: int| 0 <= k < words_of(atoms@).len() && visible(#[trigger] words_of(atoms@)[k]))
                ==> final(self).out.lines@.len() > old(self).out.lines@.len(),
            out_view(final(self).out) == wrap_out(
                out_view(old(self).out),
                atom_views(atoms@),
                span_views(first@),
                span_views(rest@),
                old(self).width,
                old(self).starts@,
                src,
            ),
    {
        let width = self.width;
        let ghost n = self.n as int;
        let ghost m = self.out.lines@.len() as int;
        let ghost fv = span_views(first@);
        let ghost rv = span_views(rest@);
        let mut line: Vec<Span> = copy_spans(&first);
        let mut col = spans_width(&first);
        let mut line_src = src;
        let mut has_text = false;
        let mut pending: Vec<(usize, usize, usize)> = Vec::new();
        let ws = words(&atoms);
        proof {
            if atoms@.len() == 0 {
                assert(word_views(ws@).len() == 0);
            }
            lemma_words_filled(atoms@);
        }
        let ghost wv = word_views(ws@);
        let ghost mut saw = false;
        let ghost env = WrapEnv { width, rest: rv, starts: self.starts@ };
        let ghost av = atom_views(atoms@);
        proof {
            lemma_words_of_v(atoms@);
        }
        let ghost ws0 = WrapState { o: out_view(self.out), line: fv, col: views_width(fv) as usize, line_src: src, has_text: false, pending: seq![] };
        assert(wv.take(0) =~= Seq::<WordView>::empty());
        let ghost out0 = self.out;
        let mut wi: usize = 0;
        while wi < ws.len()
            invariant
                wi <= ws@.len(),
                ws@.len() == 0 ==> self.out == out0 && line@.len() == first@.len() && !has_text,
                out0 == old(self).out,
                width == self.width,
                n == self.n,
                self.adds_out(*old(self)),
                m == old(self).out.lines@.len(),
                fv == span_views(first@),
                rv == span_views(rest@),
                self.prefixed(m, fv, rv),
                begins(line@, if self.out.lines@.len() == m { fv } else { rv }),
                atoms_ok(atoms@, n),
                words_ok(ws@, atoms@.len() as int),
                pending_ok(pending@, n),
                wv == word_views(ws@),
                wv == words_of(atoms@),
                words_filled(wv),
                saw == exists|k: int| 0 <= k < wi && visible(#[trigger] wv[k]),
                saw ==> has_text || self.out.lines@.len() > m,
                env == (WrapEnv { width, rest: rv, starts: self.starts@ }),
                av == atom_views(atoms@),
                self.starts@ == old(self).starts@,
                ws_of(self.out, line@, col, line_src, has_text, pending@) == ws_words(ws0, wv.take(wi as int), av, env),
            decreases ws.len() - wi,
        {
            let ghost lines_before = self.out.lines@.len();
            assert(wv[wi as int] == word_view(ws@[wi as int]));
            let ghost wsb = ws_of(self.out, line@, col, line_src, has_text, pending@);
            assert(wv.take(wi + 1).drop_last() =~= wv.take(wi as int));
            assert(wv.take(wi + 1).last() == wv[wi as int]);
            match &ws[wi] {
                Word::Break(s) => {
                    let ghost pre = *self;
                    let ghost line0 = line@;
                    self.finish(&mut line, &mut pending, line_src);
                    proof {
                        self.lemma_prefixed_step(pre, m, fv, rv, line0);
                    }
                    line = copy_spans(&rest);
                    col = spans_width(&rest);
                    has_text = false;
                    line_src = *s;
                    proof {
                        saw = true;
                    }
                    assert(pending@ =~= Seq::<(usize, usize, usize)>::empty());
                    assert(wv[wi as int] == WordView::Break(*s));
                    assert(ws_of(self.out, line@, col, line_src, has_text, pending@) == ws_word(wsb, wv[wi as int], av, env));
                },
                Word::Text { parts, space } => {
                    assert(parts@.len() > 0 && forall|j: int| 0 <= j < parts@.len() ==> (#[trigger] parts@[j]).1 < atoms@.len()) by {
                        assert(words_ok(ws@, atoms@.len() as int));
                        assert(ws@[wi as int] == ws[wi as int]);
                    }
                    let ghost pv = parts@.map_values(|p: (String, usize)| (p.0@, p.1));
                    let mut w: usize = 0;
                    let mut k: usize = 0;
                    assert(pv.take(0) =~= Seq::<(Seq<char>, usize)>::empty());
                    while k < parts.len()
                        invariant
                            k <= parts@.len(),
                            pv == parts@.map_values(|p: (String, usize)| (p.0@, p.1)),
                            w == parts_width(pv.take(k as int)),
                        decreases parts.len() - k,
                    {
                        assert(pv.take(k + 1).drop_last() =~= pv.take(k as int));
                        w = w.saturating_add(str_width(parts[k].0.as_str()));
                        k = k + 1;
                    }
                    assert(pv.take(pv.len() as int) =~= pv);
                    let mut skip = *space && !has_text;
                    if !skip && col.saturating_add(w) > width && has_text {
                        let ghost pre = *self;
                        let ghost line0 = line@;
                        self.finish(&mut line, &mut pending, line_src);
                        proof {
                            self.lemma_prefixed_step(pre, m, fv, rv, line0);
                        }
                        line = copy_spans(&rest);
                        col = spans_width(&rest);
                        has_text = false;
                        line_src = atoms[parts[0].1].src;
                        if *space {
                            skip = true;
                        }
                        assert(pending@ =~= Seq::<(usize, usize, usize)>::empty());
                    }
                    assert(!*space ==> !skip);
                    let ghost ws1 = ws_of(self.out, line@, col, line_src, has_text, pending@);
                    assert(wv[wi as int] == WordView::Text(pv, *space));
                    assert(pv[0].1 == parts@[0].1);
                    proof {
                        let skip0 = *space && !wsb.has_text;
                        let full = !skip0 && sat_add(wsb.col, parts_width(pv)) > env.width && wsb.has_text;
                        if full {
                            assert(ws1 == (WrapState { has_text: false, ..ws_newline(wsb, env, av[pv[0].1 as int].src) }));
                        } else {
                            assert(ws1 == wsb);
                        }
                        assert(skip == if full { *space } else { skip0 });
                    }
                    assert forall|j: int| 0 <= j < pv.len() implies (#[trigger] pv[j]).0.len() > 0 by {
                        let k = wi as int;
                        assert(0 <= k < wv.len());
                        assert(match wv[k] {
                            WordView::Text(ps, _) => forall|j: int| 0 <= j < ps.len() ==> (#[trigger] ps[j]).0.len() > 0,
                            WordView::Break(_) => true,
                        });
                        if let WordView::Text(ps, _) = wv[k] {
                            assert(ps == pv);
                            assert(ps[j].0.len() > 0);
                        }
                    }
                    if !skip {
                        let mut k: usize = 0;
                        assert(pv.take(0) =~= Seq::<(Seq<char>, usize)>::empty());
                        while k < parts.len()
                            invariant
                                k <= parts@.len(),
                                pv == parts@.map_values(|p: (String, usize)| (p.0@, p.1)),
                                env == (WrapEnv { width, rest: rv, starts: self.starts@ }),
                                av == atom_views(atoms@),
                                self.starts@ == old(self).starts@,
                                ws_of(self.out, line@, col, line_src, has_text, pending@) == ws_parts(ws1, pv.take(k as int), av, env),
                                forall|j: int| 0 <= j < pv.len() ==> (#[trigger] pv[j]).0.len() > 0,
                                k > 0 ==> has_text || self.out.lines@.len() > m,
                                saw ==> has_text || self.out.lines@.len() > m,
                                width == self.width,
                                n == self.n,
                                self.adds_out(*old(self)),
                                m == old(self).out.lines@.len(),
                                fv == span_views(first@),
                                rv == span_views(rest@),
                                self.prefixed(m, fv, rv),
                                begins(line@, if self.out.lines@.len() == m { fv } else { rv }),
                                atoms_ok(atoms@, n),
                                pending_ok(pending@, n),
                                forall|j: int| 0 <= j < parts@.len() ==> (#[trigger] parts@[j]).1 < atoms@.len(),
                            decreases parts.len() - k,
                        {
                            let which = parts[k].1;
                            let atom = &atoms[which];
                            assert(link_ok(atoms@[which as int].link, n));
                            // A word longer than a whole line is broken by characters.
                            let mut remaining: String = crate::text::owned(parts[k].0.as_str());
                            let ghost orig = remaining@;
                            assert(orig == pv[k as int].0);
                            let ghost wsk = ws_of(self.out, line@, col, line_src, has_text, pending@);
                            assert(pv.take(k + 1).drop_last() =~= pv.take(k as int));
                            assert(pv.take(k + 1).last() == pv[k as int]);
                            assert(*atom == atoms@[pv[k as int].1 as int]);
                            assert(atom_view(*atom) == av[pv[k as int].1 as int]);
                            while col.saturating_add(str_width(remaining.as_str())) > width && !remaining.as_str().is_empty()
                                invariant
                                    env == (WrapEnv { width, rest: rv, starts: self.starts@ }),
                                    av == atom_views(atoms@),
                                    self.starts@ == old(self).starts@,
                                    *atom == atoms@[which as int],
                                    ws_piece(ws_of(self.out, line@, col, line_src, has_text, pending@), remaining@, atom_view(*atom), env)
                                        == ws_piece(wsk, orig, atom_view(*atom), env),
                                    remaining@ != orig ==> self.out.lines@.len() > m,
                                    orig.len() > 0,
                                    k > 0 ==> has_text || self.out.lines@.len() > m,
                                    saw ==> has_text || self.out.lines@.len() > m,
                                    width == self.width,
                                    n == self.n,
                                    self.adds_out(*old(self)),
                                    m == old(self).out.lines@.len(),
                                    fv == span_views(first@),
                                    rv == span_views(rest@),
                                    self.prefixed(m, fv, rv),
                                    begins(line@, if self.out.lines@.len() == m { fv } else { rv }),
                                    pending_ok(pending@, n),
                                    link_ok(atom.link, n),
                                decreases remaining@.len(),
                            {
                                let room = if width > col { width - col } else { 1 };
                                let ghost wsc = ws_of(self.out, line@, col, line_src, has_text, pending@);
                                let (head, tail) = split_at_width(remaining.as_str(), room);
                                proof {
                                    if remaining@.len() == 0 {
                                        assert(remaining@ =~= Seq::<char>::empty());
                                    }
                                    lemma_split_first(remaining@, room as int);
                                }
                                let ghost l0 = line@;
                                place(&mut line, &mut pending, &mut col, head.as_str(), atom, Ghost(n));
                                proof {
                                    lemma_begins_push(l0, line@, if self.out.lines@.len() == m { fv } else { rv });
                                    lemma_span_views_push(l0, line@);
                                }
                                assert(ws_of(self.out, line@, col, line_src, has_text, pending@) == ws_place(wsc, head@, atom_view(*atom)));
                                let ghost pre = *self;
                                let ghost line0 = line@;
                                self.finish(&mut line, &mut pending, line_src);
                                proof {
                                    self.lemma_prefixed_step(pre, m, fv, rv, line0);
                                }
                                line = copy_spans(&rest);
                                col = spans_width(&rest);
                                line_src = atom.src;
                                let ghost rem0 = remaining@;
                                remaining = tail;
                                assert(pending@ =~= Seq::<(usize, usize, usize)>::empty());
                                assert(ws_of(self.out, line@, col, line_src, has_text, pending@) == ws_newline(
                                    ws_place(wsc, head@, atom_view(*atom)),
                                    env,
                                    atom.src,
                                ));
                            }
                            if !remaining.as_str().is_empty() {
                                let ghost l0 = line@;
                                let ghost wsr = ws_of(self.out, line@, col, line_src, has_text, pending@);
                                place(&mut line, &mut pending, &mut col, remaining.as_str(), atom, Ghost(n));
                                proof {
                                    lemma_begins_push(l0, line@, if self.out.lines@.len() == m { fv } else { rv });
                                    lemma_span_views_push(l0, line@);
                                }
                                assert(ws_of(self.out, line@, col, line_src, has_text, pending@) == ws_place(wsr, remaining@, atom_view(*atom)));
                                has_text = true;
                            }
                            assert(ws_of(self.out, line@, col, line_src, has_text, pending@) == ws_piece(wsk, orig, atom_view(*atom), env));
                            k = k + 1;
                        }
                    }
                },
            }
            proof {
                if visible(wv[wi as int]) {
                    saw = true;
                }
            }
            assert(ws_of(self.out, line@, col, line_src, has_text, pending@) == ws_word(wsb, wv[wi as int], av, env));
            wi = wi + 1;
        }
        assert(wv.take(wv.len() as int) =~= wv);
        let ghost wsf = ws_of(self.out, line@, col, line_src, has_text, pending@);
        if has_text || line.len() > 0 {
            let ghost pre = *self;
            let ghost line0 = line@;
            self.finish(&mut line, &mut pending, line_src);
            proof {
                self.lemma_prefixed_step(pre, m, fv, rv, line0);
            }
        }
    }
}


/// The positions of the atoms that have text.
pub open spec fn texted(cell: Seq<Atom>) -> Seq<usize>
    decreases cell.len(),
{
    if cell.len() == 0 {
        seq![]
    } else {
        texted(cell.drop_last()) + if cell.last().text@.len() > 0 {
            seq![(cell.len() - 1) as usize]
        } else {
            seq![]
        }
    }
}

/// The text of one atom of a cell: leading whitespace gone from the first,
/// trailing from the last.
pub open spec fn trimmed_piece(t: Seq<char>, first: bool, last: bool) -> Seq<char> {
    let a = if first { crate::text::trim_start(t) } else { t };
    if last { crate::text::trim_end(a) } else { a }
}

/// The first `n` of the cell's texted atoms, trimmed, with the empty ones
/// left out.
pub open spec fn trimmed_upto(cell: Seq<Atom>, ids: Seq<usize>, n: int) -> Seq<(Seq<char>, usize)>
    decreases n,
{
    if n <= 0 {
        seq![]
    } else {
        let p = trimmed_piece(cell[ids[n - 1] as int].text@, n - 1 == 0, n - 1 == ids.len() - 1);
        trimmed_upto(cell, ids, n - 1) + if p.len() > 0 {
            seq![(p, ids[n - 1])]
        } else {
            seq![]
        }
    }
}

pub open spec fn piece_pairs(r: Seq<(String, usize)>) -> Seq<(Seq<char>, usize)> {
    r.map_values(|p: (String, usize)| (p.0@, p.1))
}

/// A cell's atoms with surrounding whitespace trimmed, as (text, atom).
fn trim_cell(cell: &Vec<Atom>) -> (r: Vec<(String, usize)>)
    ensures
        forall|k: int| 0 <= k < r@.len() ==> (#[trigger] r@[k]).1 < cell@.len(),
        piece_pairs(r@) == trimmed_upto(cell@, texted(cell@), texted(cell@).len() as int),
{
    let mut idx: Vec<usize> = Vec::new();
    let mut i: usize = 0;
    while i < cell.len()
        invariant
            i <= cell@.len(),
            forall|k: int| 0 <= k < idx@.len() ==> #[trigger] idx@[k] < cell@.len(),
            idx@ == texted(cell@.take(i as int)),
        decreases cell.len() - i,
    {
        assert(cell@.take(i + 1).drop_last() =~= cell@.take(i as int));
        assert(cell@.take(i + 1).last() == cell@[i as int]);
        let ghost before = idx@;
        if !cell[i].text.as_str().is_empty() {
            idx.push(i);
        }
        assert(idx@ =~= texted(cell@.take(i + 1)));
        i = i + 1;
    }
    assert(cell@.take(cell@.len() as int) =~= cell@);
    let last = if idx.len() > 0 { idx.len() - 1 } else { 0 };
    let mut out: Vec<(String, usize)> = Vec::new();
    let mut n: usize = 0;
    while n < idx.len()
        invariant
            n <= idx@.len(),
            forall|k: int| 0 <= k < idx@.len() ==> #[trigger] idx@[k] < cell@.len(),
            forall|k: int| 0 <= k < out@.len() ==> (#[trigger] out@[k]).1 < cell@.len(),
            idx@ == texted(cell@),
            last == (if idx@.len() > 0 { idx@.len() - 1 } else { 0 }),
            piece_pairs(out@) == trimmed_upto(cell@, idx@, n as int),
        decreases idx.len() - n,
    {
        let ghost before = out@;
        let a = idx[n];
        let c = chars_of(cell[a].text.as_str());
        let mut lo: usize = 0;
        let mut hi: usize = c.len();
        if n == 0 {
            let (s, _) = crate::text::trim_bounds(c.as_slice());
            lo = s;
        }
        if n == last {
            hi = lo + crate::text::trim_end_len(crate::text::slice_range(c.as_slice(), lo, c.len()));
        }
        assert(c@.subrange(lo as int, hi as int) == trimmed_piece(cell@[a as int].text@, n == 0, n == idx@.len() - 1)) by {
            if n == last {
                assert(c@.subrange(lo as int, c@.len() as int).take((hi - lo) as int) =~= c@.subrange(lo as int, hi as int));
            } else {
                assert(c@.subrange(lo as int, hi as int) =~= c@.subrange(lo as int, c@.len() as int));
            }
            if n != 0 {
                assert(c@.subrange(0, c@.len() as int) =~= c@);
            }
        }
        if lo < hi && hi <= c.len() {
            out.push((string_of(crate::text::slice_range(c.as_slice(), lo, hi)), a));
        }
        assert(piece_pairs(out@) =~= trimmed_upto(cell@, idx@, n + 1));
        n = n + 1;
    }
    out
}

/// The columns' widths: each the widest trimmed cell in it, at least 1.
/// Column `c`'s width: its widest trimmed cell among the rows, at least 1.
pub open spec fn col_width(rows: Seq<Vec<Vec<Atom>>>, c: int) -> usize
    decreases rows.len(),
{
    if rows.len() == 0 {
        1
    } else {
        let m = col_width(rows.drop_last(), c);
        let row = rows.last()@;
        if 0 <= c < row.len() {
            let w = str_width_of(crate::text::trim(texts(row[c]@)));
            if w > m { w } else { m }
        } else {
            m
        }
    }
}

fn column_widths(rows: &Vec<Vec<Vec<Atom>>>, cols: usize) -> (r: Vec<usize>)
    ensures
        r@.len() == cols,
        forall|c: int| 0 <= c < cols ==> #[trigger] r@[c] == col_width(rows@, c),
{
    let mut widths: Vec<usize> = Vec::new();
    let mut c: usize = 0;
    while c < cols
        invariant
            c <= cols,
            widths@.len() == c,
            forall|j: int| 0 <= j < c ==> #[trigger] widths@[j] == col_width(rows@, j),
        decreases cols - c,
    {
        let mut m: usize = 1;
        let mut r: usize = 0;
        assert(rows@.take(0) =~= Seq::<Vec<Vec<Atom>>>::empty());
        while r < rows.len()
            invariant
                r <= rows@.len(),
                m == col_width(rows@.take(r as int), c as int),
            decreases rows.len() - r,
        {
            assert(rows@.take(r + 1).drop_last() =~= rows@.take(r as int));
            assert(rows@.take(r + 1).last() == rows@[r as int]);
            if c < rows[r].len() {
                let cell = &rows[r][c];
                let mut text = String::new();
                let mut k: usize = 0;
                assert(cell@.take(0) =~= Seq::<Atom>::empty());
                while k < cell.len()
                    invariant
                        k <= cell@.len(),
                        text@ == texts(cell@.take(k as int)),
                    decreases cell.len() - k,
                {
                    assert(cell@.take(k + 1).drop_last() =~= cell@.take(k as int));
                    text.append(cell[k].text.as_str());
                    k = k + 1;
                }
                assert(cell@.take(cell@.len() as int) =~= cell@);
                let tc = chars_of(text.as_str());
                let (lo, hi) = crate::text::trim_bounds(tc.as_slice());
                let t = string_of(crate::text::slice_range(tc.as_slice(), lo, hi));
                let w = str_width(t.as_str());
                if w > m {
                    m = w;
                }
            }
            r = r + 1;
        }
        assert(rows@.take(rows@.len() as int) =~= rows@);
        widths.push(m);
        c = c + 1;
    }
    widths
}

/// The sum of a sequence.
pub open spec fn total(s: Seq<usize>) -> int
    decreases s.len(),
{
    if s.len() == 0 {
        0
    } else {
        total(s.drop_last()) + s.last()
    }
}

pub proof fn lemma_total_update(s: Seq<usize>, i: int, v: usize)
    requires
        0 <= i < s.len(),
    ensures
        total(s.update(i, v)) == total(s) - s[i] + v,
        total(s) >= 0,
    decreases s.len(),
{
    if i < s.len() - 1 {
        lemma_total_update(s.drop_last(), i, v);
        assert(s.update(i, v).drop_last() =~= s.drop_last().update(i, v));
    } else {
        assert(s.update(i, v).drop_last() =~= s.drop_last());
        lemma_total_nonneg(s.drop_last());
    }
}

pub proof fn lemma_total_nonneg(s: Seq<usize>)
    ensures
        total(s) >= 0,
    decreases s.len(),
{
    if s.len() > 0 {
        lemma_total_nonneg(s.drop_last());
    }
}

/// The sum of widths, held at `usize::MAX`.
pub open spec fn sat_total(ws: Seq<usize>) -> usize {
    if total(ws) > usize::MAX { usize::MAX } else { total(ws) as usize }
}

/// The last of the widest columns from `k` on, `i` being the widest before.
pub open spec fn last_widest(ws: Seq<usize>, k: int, i: int) -> int
    decreases ws.len() - k,
{
    if k < 0 || k >= ws.len() {
        i
    } else {
        last_widest(ws, k + 1, if ws[k] >= ws[i] { k } else { i })
    }
}

pub proof fn lemma_last_widest(ws: Seq<usize>, k: int, i: int)
    requires
        0 <= i < ws.len(),
        0 <= k,
    ensures
        0 <= last_widest(ws, k, i) < ws.len(),
    decreases ws.len() - k,
{
    if k < ws.len() {
        lemma_last_widest(ws, k + 1, if ws[k] >= ws[i] { k } else { i });
    }
}

/// The widths narrowed to `room`: while they overflow it, the last of the
/// widest gives up a column, down to 3.
pub open spec fn shrink(ws: Seq<usize>, room: usize) -> Seq<usize>
    decreases total(ws),
{
    if ws.len() > 0 && sat_total(ws) > room {
        proof {
            lemma_last_widest(ws, 1, 0);
            lemma_total_nonneg(ws);
        }
        let i = last_widest(ws, 1, 0);
        if ws[i] <= 3 {
            ws
        } else {
            proof {
                lemma_total_update(ws, i, (ws[i] - 1) as usize);
            }
            shrink(ws.update(i, (ws[i] - 1) as usize), room)
        }
    } else {
        ws
    }
}

/// A table line as it is built: its spans, the column reached, and its
/// link hits.
pub struct RowState {
    pub spans: Seq<(Seq<char>, Style)>,
    pub col: usize,
    pub hits: Seq<(usize, usize, usize)>,
}

/// Cell pieces placed from `k` on, `used` columns of the cell's `w` being
/// taken: each shown whole when the cell fits, else cut to what is left;
/// header rows bold.
pub open spec fn place_cell(
    rs: RowState,
    pieces: Seq<(Seq<char>, usize)>,
    cell: Seq<Atom>,
    w: usize,
    fits: bool,
    bold: bool,
    k: int,
    used: usize,
) -> (RowState, usize)
    decreases pieces.len() - k,
{
    if k < 0 || k >= pieces.len() || used >= w {
        (rs, used)
    } else {
        let text = pieces[k].0;
        let a = cell[pieces[k].1 as int];
        let left = (w - used) as usize;
        let shown = if fits || str_width_of(text) < left { text } else { cut_of(text, left as int) };
        let sw = str_width_of(shown);
        let at = sat_add(rs.col, used);
        let hits = match a.link {
            Some(l) => rs.hits.push((l, at, sat_add(at, sw))),
            None => rs.hits,
        };
        let style = if bold { Style { bold: true, ..a.style } } else { a.style };
        place_cell(
            RowState { spans: rs.spans.push((shown, style)), hits, ..rs },
            pieces,
            cell,
            w,
            fits,
            bold,
            k + 1,
            sat_add(used, sw),
        )
    }
}

/// Column `c` of `row` added to a table line, `w` wide: a separator before
/// all but the first, the trimmed cell, then padding.
pub open spec fn row_col(rs: RowState, row: Seq<Vec<Atom>>, c: int, w: usize, bold: bool) -> RowState {
    let rs1 = if c > 0 {
        RowState { spans: rs.spans.push((" │ "@, dim_style())), col: sat_add(rs.col, 3), ..rs }
    } else {
        rs
    };
    let cell = if 0 <= c < row.len() { row[c]@ } else { seq![] };
    let pieces = trimmed_upto(cell, texted(cell), texted(cell).len() as int);
    let (rs2, used) = place_cell(rs1, pieces, cell, w, parts_width(pieces) <= w, bold, 0, 0);
    let rs3 = if used < w { RowState { spans: rs2.spans.push((spaces_of((w - used) as usize), plain_style())), ..rs2 } } else { rs2 };
    RowState { col: sat_add(rs1.col, w), ..rs3 }
}

/// The first `n` columns of `row`.
pub open spec fn row_cols(rs: RowState, row: Seq<Vec<Atom>>, widths: Seq<usize>, n: int, bold: bool) -> RowState
    decreases n,
{
    if n <= 0 {
        rs
    } else {
        row_col(row_cols(rs, row, widths, n - 1, bold), row, n - 1, widths[n - 1], bold)
    }
}

/// The rule under a table's header: `─` across each column, `─┼─` between.
pub open spec fn table_rule(widths: Seq<usize>) -> Seq<char>
    decreases widths.len(),
{
    if widths.len() == 0 {
        seq![]
    } else {
        table_rule(widths.drop_last()) + (if widths.len() > 1 { "─┼─"@ } else { seq![] }) + Seq::new(
            widths.last() as nat,
            |i: int| '─',
        )
    }
}

/// The table's lines from row `r` on after `o`: each row after the prefix
/// `fp`, at its source line, with its link hits; the rule after the header.
pub open spec fn table_rows(o: OutView, rows: Seq<Vec<Vec<Atom>>>, header: usize, widths: Seq<usize>, fp: Seq<(Seq<char>, Style)>, pw: usize, line: u32, r: int) -> OutView
    decreases rows.len() - r,
{
    if r < 0 || r >= rows.len() {
        o
    } else {
        let rs = row_cols(RowState { spans: fp, col: pw, hits: seq![] }, rows[r]@, widths, widths.len() as int, r < header);
        let below = if r >= header && header > 0 { 1int } else { 0int };
        let o1 = OutView {
            lines: o.lines.push(rs.spans),
            srcs: o.srcs.push(sat32(sat32(line, r), below)),
            hits: o.hits + pending_hits(rs.hits, o.lines.len() as usize),
        };
        let o2 = if r + 1 == header {
            OutView {
                lines: o1.lines.push(fp.push((table_rule(widths), dim_style()))),
                srcs: o1.srcs.push(sat32(sat32(line, r), 1)),
                hits: o1.hits,
            }
        } else {
            o1
        };
        table_rows(o2, rows, header, widths, fp, pw, line, r + 1)
    }
}

/// A table drawn after `o` by a renderer whose containers are `st`: the
/// columns as wide as their widest cell, narrowed to the room after the
/// prefix and the separators.
pub open spec fn table_out(o: OutView, t: Table, st: Seq<Container>, width: usize, starts: Seq<usize>) -> OutView {
    let cols = table_cols(t.rows@);
    let fp = first_prefix(st);
    let pw = views_width(fp) as usize;
    let seps = if cols - 1 > usize::MAX / 3 { usize::MAX } else { (3 * (cols - 1)) as usize };
    let taken = sat_add(pw, seps);
    let room = if width > taken { (width - taken) as usize } else { 0usize };
    let widths = shrink(Seq::new(cols as nat, |c: int| col_width(t.rows@, c)), room);
    table_rows(o, t.rows@, t.header_rows, widths, fp, pw, line_number(starts, t.src), 0)
}

/// The sum of widths, saturating.
fn sum_widths(ws: &Vec<usize>) -> (r: usize)
    ensures
        total(ws@) <= usize::MAX ==> r == total(ws@),
        total(ws@) > usize::MAX ==> r == usize::MAX,
{
    let mut t: usize = 0;
    let mut i: usize = 0;
    let mut saturated = false;
    while i < ws.len()
        invariant
            i <= ws@.len(),
            !saturated ==> t == total(ws@.take(i as int)),
            saturated ==> total(ws@.take(i as int)) > usize::MAX,
            saturated ==> t == usize::MAX,
        decreases ws.len() - i,
    {
        assert(ws@.take(i + 1).drop_last() =~= ws@.take(i as int));
        proof {
            lemma_total_nonneg(ws@.take(i as int));
        }
        if saturated || t > usize::MAX - ws[i] {
            saturated = true;
            t = usize::MAX;
        } else {
            t = t + ws[i];
        }
        i = i + 1;
    }
    assert(ws@.take(ws@.len() as int) =~= ws@);
    proof {
        if saturated {
            assert(total(ws@) > usize::MAX);
        }
    }
    t
}

impl Renderer {
    /// Whether the next block is the first thing in a list item, which gets
    /// no blank line before it.
    fn in_tight_item_start(&self) -> (r: bool)
        ensures
            r == (self.stack@.len() > 0 && self.inline@.len() == 0 && self.stack@.last() matches Container::Item {
                bullet: Some(_),
                ..
            }),
    {
        let n = self.stack.len();
        if n == 0 || self.inline.len() > 0 {
            return false;
        }
        match &self.stack[n - 1] {
            Container::Item { bullet: Some(_), .. } => true,
            _ => false,
        }
    }

    fn end_code(&mut self)
        requires
            old(self).wf(),
        ensures
            final(self).keeps(*old(self)),
            old(self).code is None ==> *final(self) == *old(self),
            old(self).code matches Some((text, src)) ==> final(self).shows_code(*old(self), code_rows(text@), src),
    {
        let mut code: Option<(String, usize)> = None;
        std::mem::swap(&mut code, &mut self.code);
        let (text, src) = match code {
            Some(c) => c,
            None => return,
        };
        let style = self.theme.code();
        let ghost st = self.stack@;
        let (first, rest) = self.prefixes();
        let prefix_w = spans_width(&first);
        let room = if self.width > prefix_w.saturating_add(2) { self.width - prefix_w.saturating_add(2) } else { 1 };
        assert(room == code_room(self.width, views_width(first_prefix(st))));
        let start_line = line_of(&self.starts, src).saturating_add(1);
        let tc = chars_of(text.as_str());
        let mut end = tc.len();
        assert(tc@.take(end as int) =~= tc@);
        while end > 0 && tc[end - 1] == '\n'
            invariant
                end <= tc@.len(),
                crate::text::trim_end_by(tc@.take(end as int), newline()) == crate::text::trim_end_by(tc@, newline()),
            decreases end,
        {
            assert(tc@.take(end as int).drop_last() =~= tc@.take(end - 1));
            end = end - 1;
        }
        let body = crate::text::slice_range(tc.as_slice(), 0, end);
        assert(body@ =~= tc@.take(end as int));
        let pieces = crate::paths::split_char_exec(body, '\n');
        let ghost rows = pieces@.map_values(|v: Vec<char>| v@);
        assert(rows == code_rows(text@));
        let ghost m = self.out.lines@.len() as int;
        let ghost mid = *self;
        let mut i: usize = 0;
        while i < pieces.len()
            invariant
                i <= pieces@.len(),
                start_line >= 1,
                self.keeps(*old(self)),
                self.only_out(mid),
                mid.code is None,
                mid.same_frame_but_code(*old(self)),
                mid.stack@ == st.map_values(|c: Container| bullet_taken(c)),
                mid.style@ == old(self).style@,
                mid.inline@ == old(self).inline@,
                mid.inline_src == old(self).inline_src,
                mid.out == old(self).out,
                st == old(self).stack@,
                rows == pieces@.map_values(|v: Vec<char>| v@),
                style == code_style(self.theme.color),
                room == code_room(self.width, views_width(first_prefix(st))),
                span_views(first@) == first_prefix(st),
                span_views(rest@) == rest_prefix(st),
                m == old(self).out.lines@.len(),
                self.out.hits@ == old(self).out.hits@,
                self.out.lines@.len() == m + i,
                forall|j: int| 0 <= j < i ==> span_views(#[trigger] self.out.lines@[m + j]@) == (if j == 0 {
                    first_prefix(st)
                } else {
                    rest_prefix(st)
                }) + seq![(spaces_of(2), plain_style()), (cut_of(rows[j], room as int), code_style(self.theme.color))],
                forall|j: int| 0 <= j < i ==> #[trigger] self.out.source_line@[m + j] == sat32(start_line, j),
            decreases pieces.len() - i,
        {
            let line = string_of(pieces[i].as_slice());
            let shown = cut(line.as_str(), room);
            let mut spans = if i == 0 { copy_spans(&first) } else { copy_spans(&rest) };
            let ghost s0 = spans@;
            spans.push(raw(spaces(2)));
            spans.push(Span { content: shown, style });
            assert(span_views(spans@) =~= span_views(s0) + seq![(spaces_of(2), plain_style()), (cut_of(rows[i as int], room as int), code_style(self.theme.color))]);
            let n: u32 = if i > 0xffff_ffff { 0xffff_ffff } else { #[verifier::truncate] (i as u32) };
            assert(start_line.saturating_add(n) == sat32(start_line, i as int));
            let ghost prev = self.out;
            self.emit(spans, start_line.saturating_add(n));
            assert forall|j: int| 0 <= j < i + 1 implies span_views(#[trigger] self.out.lines@[m + j]@) == (if j == 0 {
                first_prefix(st)
            } else {
                rest_prefix(st)
            }) + seq![(spaces_of(2), plain_style()), (cut_of(rows[j], room as int), code_style(self.theme.color))] by {
                if j < i {
                    assert(self.out.lines@[m + j] == prev.lines@[m + j]);
                }
            }
            assert forall|j: int| 0 <= j < i + 1 implies #[trigger] self.out.source_line@[m + j] == sat32(start_line, j) by {
                if j < i {
                    assert(self.out.source_line@[m + j] == prev.source_line@[m + j]);
                }
            }
            i = i + 1;
        }
        self.need_blank = true;
        assert(self.out.source_line@[m] == start_line) by {
            assert(code_rows(text@).len() > 0);
            assert(self.out.source_line@[m + 0] == sat32(start_line, 0));
        }
    }

    fn end_table(&mut self, t: Table)
        requires
            old(self).wf(),
            table_ok(t, old(self).n as int),
        ensures
            final(self).keeps(*old(self)),
            table_cols(t.rows@) == 0 ==> *final(self) == *old(self),
            table_cols(t.rows@) > 0 ==> final(self).shows_table(*old(self), t.rows@.len() as int, t.header_rows as int),
            table_cols(t.rows@) > 0 ==> out_view(final(self).out) == table_out(
                out_view(old(self).out),
                t,
                old(self).stack@,
                old(self).width,
                old(self).starts@,
            ),
    {
        let ghost n = self.n as int;
        let mut cols: usize = 0;
        let mut r: usize = 0;
        while r < t.rows.len()
            invariant
                r <= t.rows@.len(),
                cols == table_cols(t.rows@.take(r as int)),
            decreases t.rows.len() - r,
        {
            assert(t.rows@.take(r + 1).drop_last() =~= t.rows@.take(r as int));
            if t.rows[r].len() > cols {
                cols = t.rows[r].len();
            }
            r = r + 1;
        }
        assert(t.rows@.take(t.rows@.len() as int) =~= t.rows@);
        if cols == 0 {
            return;
        }
        let mut widths = column_widths(&t.rows, cols);
        let sep: usize = 3;
        let ghost st = self.stack@;
        let (first, _) = self.prefixes();
        let ghost fp = first_prefix(st);
        let ghost m = self.out.lines@.len() as int;
        let ghost mid = *self;
        let prefix_w = spans_width(&first);
        let seps: usize = if cols - 1 > usize::MAX / 3 { usize::MAX } else { sep * (cols - 1) };
        let taken = prefix_w.saturating_add(seps);
        let room = if self.width > taken { self.width - taken } else { 0 };
        proof {
            lemma_total_nonneg(widths@);
        }
        let ghost w0 = widths@;
        assert(w0 =~= Seq::new(cols as nat, |c: int| col_width(t.rows@, c)));
        while sum_widths(&widths) > room
            invariant
                widths@.len() == cols,
                cols > 0,
                shrink(widths@, room) == shrink(w0, room),
            ensures
                shrink(widths@, room) == widths@,
                widths@.len() == cols,
            decreases total(widths@),
        {
            // The last of the widest columns gives up a column.
            let mut i: usize = 0;
            let mut k: usize = 1;
            while k < widths.len()
                invariant
                    i < widths@.len(),
                    k <= widths@.len(),
                    1 <= k,
                    last_widest(widths@, k as int, i as int) == last_widest(widths@, 1, 0),
                decreases widths.len() - k,
            {
                if widths[k] >= widths[i] {
                    i = k;
                }
                k = k + 1;
            }
            let w = widths[i];
            if w <= 3 {
                break;
            }
            proof {
                lemma_total_update(widths@, i as int, (w - 1) as usize);
            }
            let ghost wb = widths@;
            widths.set(i, w - 1);
            assert(widths@ =~= wb.update(i as int, (w - 1) as usize));
        }
        let ghost widths_v = widths@;
        assert(widths_v == shrink(w0, room));
        let ghost tout = table_rows(out_view(self.out), t.rows@, t.header_rows, widths_v, fp, prefix_w, line_number(self.starts@, t.src), 0);
        let dim = self.theme.dim();
        let src_line = line_of(&self.starts, t.src);
        let mut r: usize = 0;
        while r < t.rows.len()
            invariant
                r <= t.rows@.len(),
                widths@.len() == cols,
                src_line >= 1,
                n == self.n,
                table_ok(t, n),
                self.keeps(*old(self)),
                self.grows(mid),
                self.only_out(mid),
                mid.same_frame(*old(self)),
                mid.stack@ == st.map_values(|c: Container| bullet_taken(c)),
                mid.style@ == old(self).style@,
                mid.inline@ == old(self).inline@,
                mid.inline_src == old(self).inline_src,
                mid.need_blank == old(self).need_blank,
                mid.out == old(self).out,
                st == old(self).stack@,
                fp == first_prefix(st),
                span_views(first@) == fp,
                m == old(self).out.lines@.len(),
                self.out.lines@.len() == m + r + (if t.header_rows >= 1 && r >= t.header_rows { 1int } else { 0int }),
                forall|j: int| m <= j < self.out.lines@.len() ==> begins(#[trigger] self.out.lines@[j]@, fp),
                widths@ == widths_v,
                prefix_w == views_width(fp) as usize,
                src_line == line_number(self.starts@, t.src),
                dim == dim_style(),
                table_rows(out_view(self.out), t.rows@, t.header_rows, widths_v, fp, prefix_w, src_line, r as int) == tout,
                sep == 3,
            decreases t.rows.len() - r,
        {
            let row = &t.rows[r];
            let ghost bold = r < t.header_rows;
            let ghost rs0 = RowState { spans: fp, col: prefix_w, hits: seq![] };
            let mut spans = copy_spans(&first);
            assert(begins(spans@, fp));
            let mut col = prefix_w;
            let mut hits: Vec<(usize, usize, usize)> = Vec::new();
            let mut c: usize = 0;
            assert(hits@ =~= Seq::<(usize, usize, usize)>::empty());
            while c < widths.len()
                invariant
                    c <= widths@.len(),
                    r < t.rows@.len(),
                    row == t.rows@[r as int],
                    n == self.n,
                    table_ok(t, n),
                    pending_ok(hits@, n),
                    begins(spans@, fp),
                    widths@ == widths_v,
                    dim == dim_style(),
                    bold == (r < t.header_rows),
                    sep == 3,
                    (RowState { spans: span_views(spans@), col, hits: hits@ }) == row_cols(rs0, row@, widths_v, c as int, bold),
                decreases widths.len() - c,
            {
                let ghost rsc = RowState { spans: span_views(spans@), col, hits: hits@ };
                let w = widths[c];
                if c > 0 {
                    let ghost sp0 = spans@;
                    spans.push(Span { content: crate::text::owned(" │ "), style: dim });
                    proof {
                        lemma_span_views_push_one(sp0, spans@.last());
                    }
                    col = col.saturating_add(sep);
                }
                let ghost rs1 = RowState { spans: span_views(spans@), col, hits: hits@ };
                let empty: Vec<Atom> = Vec::new();
                let cell = if c < row.len() { &row[c] } else { &empty };
                assert(cell@ == (if 0 <= c < row@.len() { row@[c as int]@ } else { seq![] }));
                assert(atoms_ok(cell@, n)) by {
                    if c < row@.len() {
                        assert(atoms_ok(t.rows@[r as int]@[c as int]@, n));
                    }
                }
                let pieces = trim_cell(cell);
                let ghost pp = piece_pairs(pieces@);
                let mut pw: usize = 0;
                let mut k: usize = 0;
                assert(pp.take(0) =~= Seq::<(Seq<char>, usize)>::empty());
                while k < pieces.len()
                    invariant
                        k <= pieces@.len(),
                        pp == piece_pairs(pieces@),
                        pw == parts_width(pp.take(k as int)),
                    decreases pieces.len() - k,
                {
                    assert(pp.take(k + 1).drop_last() =~= pp.take(k as int));
                    pw = pw.saturating_add(str_width(pieces[k].0.as_str()));
                    k = k + 1;
                }
                assert(pp.take(pp.len() as int) =~= pp);
                let fits = pw <= w;
                let mut used: usize = 0;
                let mut k: usize = 0;
                while k < pieces.len() && used < w
                    invariant
                        k <= pieces@.len(),
                        n == self.n,
                        atoms_ok(cell@, n),
                        pending_ok(hits@, n),
                        begins(spans@, fp),
                        forall|j: int| 0 <= j < pieces@.len() ==> (#[trigger] pieces@[j]).1 < cell@.len(),
                        pp == piece_pairs(pieces@),
                        col == rs1.col,
                        bold == (r < t.header_rows),
                        place_cell(RowState { spans: span_views(spans@), col, hits: hits@ }, pp, cell@, w, fits, bold, k as int, used)
                            == place_cell(rs1, pp, cell@, w, fits, bold, 0, 0),
                    decreases pieces.len() - k,
                {
                    let text = &pieces[k].0;
                    let a = &cell[pieces[k].1];
                    assert(link_ok(cell@[pieces@[k as int].1 as int].link, n));
                    let left = w - used;
                    let shown = if fits || str_width(text.as_str()) < left {
                        crate::text::owned(text.as_str())
                    } else {
                        cut(text.as_str(), left)
                    };
                    let sw = str_width(shown.as_str());
                    if let Some(link) = a.link {
                        let at = col.saturating_add(used);
                        hits.push((link, at, at.saturating_add(sw)));
                    }
                    let mut style = a.style;
                    if r < t.header_rows {
                        style = Style { bold: true, ..style };
                    }
                    let ghost sp0 = spans@;
                    spans.push(Span { content: shown, style });
                    proof {
                        lemma_span_views_push_one(sp0, spans@.last());
                    }
                    assert(pp[k as int] == (pieces@[k as int].0@, pieces@[k as int].1));
                    used = used.saturating_add(sw);
                    k = k + 1;
                }
                let ghost rs2 = RowState { spans: span_views(spans@), col, hits: hits@ };
                assert(place_cell(rs1, pp, cell@, w, fits, bold, 0, 0) == (rs2, used));
                if used < w {
                    let ghost sp0 = spans@;
                    spans.push(raw(spaces(w - used)));
                    proof {
                        lemma_span_views_push_one(sp0, spans@.last());
                    }
                }
                col = col.saturating_add(w);
                proof {
                    let srs1 = if c > 0 {
                        RowState { spans: rsc.spans.push((" │ "@, dim_style())), col: sat_add(rsc.col, 3), ..rsc }
                    } else {
                        rsc
                    };
                    assert(srs1 == rs1);
                    let scell = if 0 <= c < row@.len() { row@[c as int]@ } else { seq![] };
                    assert(scell == cell@);
                    assert(trimmed_upto(scell, texted(scell), texted(scell).len() as int) == pp);
                    assert(parts_width(pp) == pw);
                }
                assert((RowState { spans: span_views(spans@), col, hits: hits@ }) == row_col(rsc, row@, c as int, w, bold));
                c = c + 1;
            }
            // The `|---|` row takes a source line but is not a row.
            let below_header: u32 = if r >= t.header_rows && t.header_rows > 0 { 1 } else { 0 };
            let rn: u32 = if r > 0xffff_ffff { 0xffff_ffff } else { #[verifier::truncate] (r as u32) };
            let mut empty_line: Vec<Span> = Vec::new();
            let mut line_hits = hits;
            std::mem::swap(&mut empty_line, &mut spans);
            let idx = self.out.lines.len();
            let ghost lines0 = self.out.lines@;
            let ghost ob = out_view(self.out);
            let ghost rsf = row_cols(rs0, row@, widths_v, widths_v.len() as int, bold);
            assert(span_views(empty_line@) == rsf.spans && line_hits@ == rsf.hits);
            assert(src_line.saturating_add(rn).saturating_add(below_header) == sat32(
                sat32(src_line, r as int),
                if r >= t.header_rows && t.header_rows > 0 { 1int } else { 0int },
            ));
            self.emit(empty_line, src_line.saturating_add(rn).saturating_add(below_header));
            let ghost lines1 = self.out.lines@;
            assert forall|j: int| m <= j < self.out.lines@.len() implies begins(#[trigger] self.out.lines@[j]@, fp) by {
                if j < lines0.len() {
                    assert(self.out.lines@[j] == lines0[j]);
                }
            }
            let mut h: usize = 0;
            while h < line_hits.len()
                invariant
                    h <= line_hits@.len(),
                    pending_ok(line_hits@, self.n as int),
                    idx < self.out.lines@.len(),
                    idx == lines1.len() - 1,
                    idx >= mid.out.lines@.len(),
                    self.keeps(*old(self)),
                    self.grows(mid),
                    self.only_out(mid),
                    self.out.lines@ == lines1,
                    out_view(self.out).lines == ob.lines.push(rsf.spans),
                    out_view(self.out).srcs == ob.srcs.push(sat32(
                        sat32(src_line, r as int),
                        if r >= t.header_rows && t.header_rows > 0 { 1int } else { 0int },
                    )),
                    out_view(self.out).hits == ob.hits + pending_hits(line_hits@.take(h as int), idx),
                    idx == ob.lines.len(),
                decreases line_hits.len() - h,
            {
                let (link, start, end) = line_hits[h];
                let hit = LinkHit {
                    line: idx,
                    cols: std::ops::Range { start: #[verifier::truncate] (start as u16), end: #[verifier::truncate] (end as u16) },
                    link,
                };
                let ghost before = self.out.hits@;
                let ghost hv = out_view(self.out).hits;
                self.out.hits.push(hit);
                assert(rendered_ok(self.out, self.n as int)) by {
                    assert forall|j: int| 0 <= j < self.out.hits@.len() implies (#[trigger] self.out.hits@[j]).line < self.out.lines@.len()
                        && self.out.hits@[j].link < self.n by {
                        if j < before.len() {
                            assert(self.out.hits@[j] == before[j]);
                        }
                    }
                }
                assert(out_view(self.out).hits =~= hv.push(hit_tuple(hit)));
                assert(pending_hits(line_hits@.take(h + 1), idx) =~= pending_hits(line_hits@.take(h as int), idx).push(hit_tuple(hit)));
                h = h + 1;
            }
            assert(line_hits@.take(line_hits@.len() as int) =~= line_hits@);
            let ghost o1 = out_view(self.out);
            if r + 1 == t.header_rows {
                let mut rule = String::new();
                let mut k: usize = 0;
                assert(widths_v.take(0) =~= Seq::<usize>::empty());
                while k < widths.len()
                    invariant
                        k <= widths@.len(),
                        widths@ == widths_v,
                        rule@ == table_rule(widths_v.take(k as int)),
                    decreases widths.len() - k,
                {
                    assert(widths_v.take(k + 1).drop_last() =~= widths_v.take(k as int));
                    let ghost r0 = rule@;
                    if k > 0 {
                        rule.append("─┼─");
                    }
                    let piece = repeat('─', widths[k]);
                    rule.append(piece.as_str());
                    assert(rule@ =~= r0 + (if k + 1 > 1 { "─┼─"@ } else { seq![] }) + Seq::new(widths_v[k as int] as nat, |i: int| '─'));
                    k = k + 1;
                }
                assert(widths_v.take(widths_v.len() as int) =~= widths_v);
                let mut spans = copy_spans(&first);
                assert(begins(spans@, fp));
                let ghost sp0 = spans@;
                spans.push(Span { content: rule, style: dim });
                proof {
                    lemma_span_views_push_one(sp0, spans@.last());
                }
                let ghost lines2 = self.out.lines@;
                assert(src_line.saturating_add(rn).saturating_add(1) == sat32(sat32(src_line, r as int), 1));
                self.emit(spans, src_line.saturating_add(rn).saturating_add(1));
                assert(out_view(self.out).lines =~= o1.lines.push(fp.push((table_rule(widths_v), dim_style()))));
                assert(out_view(self.out) =~= (OutView {
                    lines: o1.lines.push(fp.push((table_rule(widths_v), dim_style()))),
                    srcs: o1.srcs.push(sat32(sat32(src_line, r as int), 1)),
                    hits: o1.hits,
                }));
                assert forall|j: int| m <= j < self.out.lines@.len() implies begins(#[trigger] self.out.lines@[j]@, fp) by {
                    if j < lines2.len() {
                        assert(self.out.lines@[j] == lines2[j]);
                    }
                }
            }
            assert(table_rows(ob, t.rows@, t.header_rows, widths_v, fp, prefix_w, src_line, r as int) == table_rows(
                out_view(self.out),
                t.rows@,
                t.header_rows,
                widths_v,
                fp,
                prefix_w,
                src_line,
                r + 1,
            ));
            r = r + 1;
        }
    }
}


/// The link that starts at byte `start`, property links aside; the last
/// one when several do.
fn by_start(links: &[Link], start: usize) -> (r: Option<usize>)
    ensures
        r matches Some(i) ==> i < links@.len() && starts_at(links@[i as int], start),
        r matches Some(i) ==> forall|j: int| i < j < links@.len() ==> !starts_at(#[trigger] links@[j], start),
        r is None ==> forall|j: int| 0 <= j < links@.len() ==> !starts_at(#[trigger] links@[j], start),
        r matches Some(i) ==> last_link(links@, start, links@.len() as int) == Some(i as int),
        r is None ==> last_link(links@, start, links@.len() as int) is None,
{
    let mut i = links.len();
    while i > 0
        invariant
            i <= links@.len(),
            forall|j: int| i <= j < links@.len() ==> !starts_at(#[trigger] links@[j], start),
            last_link(links@, start, i as int) == last_link(links@, start, links@.len() as int),
        decreases i,
    {
        i = i - 1;
        let l = &links[i];
        let prop = match l.kind {
            LinkKind::Property => true,
            _ => false,
        };
        if !prop && l.span.start == start {
            return Some(i);
        }
    }
    None
}

/// The last of the first `i` links that starts at `start`.
pub open spec fn last_link(links: Seq<Link>, start: usize, i: int) -> Option<int>
    decreases i,
{
    if i <= 0 {
        None
    } else if starts_at(links[i - 1], start) {
        Some(i - 1)
    } else {
        last_link(links, start, i - 1)
    }
}

/// A link that is not a property link and starts at byte `start`.
pub open spec fn starts_at(l: Link, start: usize) -> bool {
    !(l.kind is Property) && l.span.start == start
}

/// Where the text after the last `/` among the first `i` chars starts.
pub open spec fn segment_start(s: Seq<char>, i: int) -> int
    decreases i,
{
    if i <= 0 || s[i - 1] == '/' {
        i
    } else {
        segment_start(s, i - 1)
    }
}

/// The text after the last `/`.
fn last_segment(s: &str) -> (r: String)
    ensures
        r@ == s@.subrange(segment_start(s@, s@.len() as int), s@.len() as int),
{
    let c = chars_of(s);
    let mut i = c.len();
    while i > 0 && c[i - 1] != '/'
        invariant
            i <= c@.len(),
            c@ == s@,
            segment_start(c@, i as int) == segment_start(c@, c@.len() as int),
        decreases i,
    {
        i = i - 1;
    }
    string_of(crate::text::slice_range(c.as_slice(), i, c.len()))
}

/// `a` followed by `b`.
fn concat(a: &str, b: &str) -> (r: String)
    ensures
        r@ == a@ + b@,
{
    let mut s = crate::text::owned(a);
    s.append(b);
    s
}

/// Rendered line `i` is the frontmatter's heading.
pub open spec fn heads_frontmatter(r: Rendered, i: int, folded: bool, keys: nat) -> bool {
    &&& 0 <= i < r.lines@.len()
    &&& r.source_line@[i] == 1
    &&& r.lines@[i]@.len() == 1
    &&& r.lines@[i]@[0].content@ == frontmatter_label(folded, keys)
    &&& r.lines@[i]@[0].style == dim_style()
}

/// The line that heads the frontmatter: folded, with its number of keys.
pub open spec fn frontmatter_label(folded: bool, keys: nat) -> Seq<char> {
    if folded {
        "▸ frontmatter ("@ + decimal(keys) + " keys)"@
    } else {
        "▾ frontmatter"@
    }
}

impl Renderer {
    /// Text outside comments; a text event that crosses a comment keeps only
    /// its visible parts.
    fn text(&mut self, t: &str, start: usize, end: usize, source: &str, style: Style, comments: &[crate::parse::Span])
        requires
            old(self).wf(),
        ensures
            final(self).keeps(*old(self)),
            final(self).adds_atoms(*old(self), style, start),
            !overlaps_any(comments@, start, end) ==> final(self).took_atom(*old(self), t@, style, start),
            final(self).took_parts(*old(self), visible_parts(t@, start, end, source.spec_bytes(), comments@), style),
    {
        let ghost src = source.spec_bytes();
        let mut overlapping: Vec<(usize, usize)> = Vec::new();
        let mut k: usize = 0;
        while k < comments.len()
            invariant
                k <= comments@.len(),
                overlapping@.len() == 0 ==> forall|j: int| 0 <= j < k ==> !((#[trigger] comments@[j]).0 < end && start < comments@[j].1),
                overlapping@.len() > 0 ==> overlaps_any(comments@, start, end),
                overlapping@ == meeting(comments@.take(k as int), start, end),
            decreases comments.len() - k,
        {
            let c = comments[k];
            assert(comments@.take(k + 1).drop_last() =~= comments@.take(k as int));
            assert(comments@.take(k + 1).last() == c);
            if c.0 < end && start < c.1 {
                overlapping.push(c);
            }
            k = k + 1;
        }
        assert(comments@.take(comments@.len() as int) =~= comments@);
        let ghost cs = overlapping@;
        let ghost parts = visible_parts(t@, start, end, src, comments@);
        if overlapping.len() == 0 {
            self.atom(t, style, start);
            proof {
                assert(parts == seq![(t@, start)]);
                assert(seq![(t@, start)].drop_last() =~= Seq::<(Seq<char>, usize)>::empty());
                assert(nonempty_parts(Seq::<(Seq<char>, usize)>::empty()) =~= Seq::<(Seq<char>, usize)>::empty());
                if t@.len() > 0 {
                    assert(nonempty_parts(parts) =~= seq![(t@, start)]);
                    assert(self.inline@[old(self).inline@.len() as int + 0] == self.inline@.last());
                    assert forall|j: int| 0 <= j < old(self).inline@.len() implies #[trigger] self.inline@[j] == old(self).inline@[j] by {
                        assert(self.inline@[j] == self.inline@.drop_last()[j]);
                    }
                } else {
                    assert(nonempty_parts(parts) =~= Seq::<(Seq<char>, usize)>::empty());
                }
            }
            return;
        }
        let got = crate::text::str_get(source, start, end);
        let same = match got {
            Some(s) => strs_eq(s, t),
            None => false,
        };
        proof {
            match got {
                Some(s) => {
                    assert(s.spec_bytes() == src.subrange(start as int, end as int));
                    vstd::utf8::encode_utf8_decode_utf8(s@);
                    assert(decode_utf8(s.spec_bytes()) == s@);
                    assert(source_slice(src, start as int, end as int) == Some(s@));
                },
                None => {
                    assert(source_slice(src, start as int, end as int) is None);
                },
            }
            assert(same <==> source_slice(src, start as int, end as int) == Some(t@));
        }
        if !same {
            // Escapes or entities changed the text; keep it unless it is
            // entirely inside a comment.
            let mut inside = false;
            let mut k: usize = 0;
            while k < overlapping.len()
                invariant
                    k <= overlapping@.len(),
                    cs == overlapping@,
                    inside <==> exists|j: int| 0 <= j < k && (#[trigger] cs[j]).0 <= start && end <= cs[j].1,
                decreases overlapping.len() - k,
            {
                if overlapping[k].0 <= start && end <= overlapping[k].1 {
                    inside = true;
                }
                k = k + 1;
            }
            if !inside {
                self.atom(t, style, start);
                proof {
                    assert(parts == seq![(t@, start)]);
                    assert(seq![(t@, start)].drop_last() =~= Seq::<(Seq<char>, usize)>::empty());
                    assert(nonempty_parts(Seq::<(Seq<char>, usize)>::empty()) =~= Seq::<(Seq<char>, usize)>::empty());
                    if t@.len() > 0 {
                        assert(nonempty_parts(parts) =~= seq![(t@, start)]);
                        assert(self.inline@[old(self).inline@.len() as int + 0] == self.inline@.last());
                        assert forall|j: int| 0 <= j < old(self).inline@.len() implies #[trigger] self.inline@[j] == old(self).inline@[j] by {
                            assert(self.inline@[j] == self.inline@.drop_last()[j]);
                        }
                    } else {
                        assert(nonempty_parts(parts) =~= Seq::<(Seq<char>, usize)>::empty());
                    }
                }
            } else {
                assert(parts =~= Seq::<(Seq<char>, usize)>::empty());
                assert(nonempty_parts(parts) =~= Seq::<(Seq<char>, usize)>::empty());
                assert(self.inline@ =~= old(self).inline@);
            }
            return;
        }
        assert(parts == gaps(src, cs, end, start, 0));
        let mut pos = start;
        let mut k: usize = 0;
        let ghost mut done: Seq<(Seq<char>, usize)> = seq![];
        proof {
            assert(nonempty_parts(done) =~= done);
            assert(self.inline@ =~= old(self).inline@);
        }
        while k < overlapping.len()
            invariant
                k <= overlapping@.len(),
                cs == overlapping@,
                src == source.spec_bytes(),
                self.wf(),
                self.keeps(*old(self)),
                self.adds_atoms(*old(self), style, start),
                self.took_parts(*old(self), done, style),
                done + gaps(src, cs, end, pos, k as int) == parts,
                pos >= start,
            decreases overlapping.len() - k,
        {
            let c = overlapping[k];
            let ghost here: Seq<(Seq<char>, usize)> = if c.0 > pos { piece_at(src, pos, c.0) } else { seq![] };
            let ghost next_pos: usize = if c.1 > pos { c.1 } else { pos };
            assert(gaps(src, cs, end, pos, k as int) == here + gaps(src, cs, end, next_pos, k + 1));
            if c.0 > pos {
                let got = crate::text::str_get(source, pos, c.0);
                if let Some(piece) = got {
                    let ghost b = *self;
                    self.atom(piece, style, pos);
                    proof {
                        vstd::utf8::encode_utf8_decode_utf8(piece@);
                        assert(decode_utf8(piece.spec_bytes()) == piece@);
                        assert(here == seq![(piece@, pos)]);
                        Renderer::lemma_adds_atoms_step(*old(self), b, *self, piece@, style, start, pos);
                        Renderer::lemma_took_parts_step(*old(self), b, *self, done, piece@, style, pos);
                        assert(done.push((piece@, pos)) =~= done + here);
                    }
                    proof {
                        done = done + here;
                    }
                } else {
                    assert(here =~= Seq::<(Seq<char>, usize)>::empty());
                    assert(done + here =~= done);
                }
            } else {
                assert(done + here =~= done);
            }
            proof {
                assert(done + gaps(src, cs, end, next_pos, k + 1) == parts) by {
                    assert((done + here) + gaps(src, cs, end, next_pos, k + 1) =~= done + (here + gaps(src, cs, end, next_pos, k + 1)));
                }
            }
            if c.1 > pos {
                pos = c.1;
            }
            k = k + 1;
        }
        assert(gaps(src, cs, end, pos, k as int) == if pos < end { piece_at(src, pos, end) } else { seq![] });
        if pos < end {
            let got = crate::text::str_get(source, pos, end);
            if let Some(piece) = got {
                let ghost b = *self;
                self.atom(piece, style, pos);
                proof {
                    vstd::utf8::encode_utf8_decode_utf8(piece@);
                        assert(decode_utf8(piece.spec_bytes()) == piece@);
                    Renderer::lemma_adds_atoms_step(*old(self), b, *self, piece@, style, start, pos);
                    Renderer::lemma_took_parts_step(*old(self), b, *self, done, piece@, style, pos);
                    assert(done.push((piece@, pos)) =~= parts);
                }
            } else {
                assert(done + Seq::<(Seq<char>, usize)>::empty() =~= done);
            }
        } else {
            assert(done + Seq::<(Seq<char>, usize)>::empty() =~= done);
        }
    }

    #[verifier::rlimit(60)]
    fn frontmatter(&mut self, parsed: &Parsed, states: &[Resolved], folded: bool)
        requires
            old(self).wf(),
            old(self).n == parsed.links@.len(),
            states@.len() == parsed.links@.len(),
        ensures
            final(self).keeps(*old(self)),
            parsed.frontmatter@.len() > 0 ==> heads_frontmatter(
                final(self).out,
                old(self).out.lines@.len() as int,
                folded,
                parsed.frontmatter@.len(),
            ),
            parsed.frontmatter@.len() == 0 ==> *final(self) == *old(self),
            parsed.frontmatter@.len() > 0 ==> final(self).need_blank,
            final(self).same_frame(*old(self)) && final(self).stack@ == old(self).stack@ && final(self).style@
                == old(self).style@ && final(self).inline@ == old(self).inline@ && final(self).inline_src == old(self).inline_src,
            parsed.frontmatter@.len() > 0 ==> out_view(final(self).out) == frontmatter_out(
                out_view(old(self).out),
                parsed.frontmatter@,
                parsed.links@,
                states@,
                folded,
                old(self).width,
                old(self).starts@,
                old(self).theme.color,
            ),
    {
        let fm = &parsed.frontmatter;
        if fm.len() == 0 {
            return;
        }
        let ghost o0 = out_view(self.out);
        let links = &parsed.links;
        let dim = self.theme.dim();
        if folded {
            let mut label = crate::text::owned("▸ frontmatter (");
            label.append(crate::text::decimal_string(fm.len() as u64).as_str());
            label.append(" keys)");
            let mut spans: Vec<Span> = Vec::new();
            spans.push(Span { content: label, style: dim });
            let ghost sv = span_views(spans@);
            assert(sv =~= seq![(frontmatter_label(true, fm@.len()), dim_style())]);
            self.emit(spans, 1);
            self.need_blank = true;
            assert(out_view(self.out).lines =~= o0.lines.push(sv));
            assert(out_view(self.out) =~= label_out(o0, true, fm@.len()));
            return;
        }
        let mut spans: Vec<Span> = Vec::new();
        spans.push(Span { content: crate::text::owned("▾ frontmatter"), style: dim });
        let ghost i0 = self.out.lines@.len() as int;
        let ghost sv = span_views(spans@);
        assert(sv =~= seq![(frontmatter_label(false, fm@.len()), dim_style())]);
        self.emit(spans, 1);
        assert(out_view(self.out).lines =~= o0.lines.push(sv));
        let ghost ol = label_out(o0, false, fm@.len());
        assert(out_view(self.out) =~= ol);
        let ghost keys = fm@.len();
        let ghost env = FmEnv { links: links@, states: states@, color: self.theme.color, width: self.width, starts: self.starts@ };
        assert(heads_frontmatter(self.out, i0, folded, keys));
        let mut key_widths: Vec<usize> = Vec::new();
        let mut key_width: usize = 0;
        let mut k: usize = 0;
        assert(fm@.take(0) =~= Seq::<(String, Value)>::empty());
        while k < fm.len()
            invariant
                k <= fm@.len(),
                key_widths@.len() == k,
                forall|j: int| 0 <= j < k ==> #[trigger] key_widths@[j] <= key_width,
                forall|j: int| 0 <= j < k ==> #[trigger] key_widths@[j] == str_width_of(fm@[j].0@),
                key_width == key_width_of(fm@.take(k as int)),
                heads_frontmatter(self.out, i0, folded, keys),
            decreases fm.len() - k,
        {
            assert(fm@.take(k + 1).drop_last() =~= fm@.take(k as int));
            let w = str_width(fm[k].0.as_str());
            key_widths.push(w);
            if w > key_width {
                key_width = w;
            }
            k = k + 1;
        }
        assert(fm@.take(fm@.len() as int) =~= fm@);
        // Property links in file order; each list item takes the next unused
        // one written the same way.
        let mut unused: Vec<usize> = Vec::new();
        let mut i: usize = 0;
        assert(links@.take(0) =~= Seq::<Link>::empty());
        while i < links.len()
            invariant
                i <= links@.len(),
                forall|j: int| 0 <= j < unused@.len() ==> #[trigger] unused@[j] < links@.len(),
                heads_frontmatter(self.out, i0, folded, keys),
                unused@ == property_links(links@.take(i as int)),
            decreases links.len() - i,
        {
            assert(links@.take(i + 1).drop_last() =~= links@.take(i as int));
            if let LinkKind::Property = links[i].kind {
                unused.push(i);
            }
            i = i + 1;
        }
        assert(links@.take(links@.len() as int) =~= links@);
        let ghost st0 = FmState { o: ol, unused: property_links(links@) };
        let mut e: usize = 0;
        while e < fm.len()
            invariant
                e <= fm@.len(),
                key_widths@.len() == fm@.len(),
                forall|j: int| 0 <= j < fm@.len() ==> #[trigger] key_widths@[j] <= key_width,
                forall|j: int| 0 <= j < fm@.len() ==> #[trigger] key_widths@[j] == str_width_of(fm@[j].0@),
                key_width == key_width_of(fm@),
                forall|j: int| 0 <= j < unused@.len() ==> #[trigger] unused@[j] < links@.len(),
                self.n == links@.len(),
                states@.len() == links@.len(),
                self.keeps(*old(self)),
                self.only_out(*old(self)),
                i0 == old(self).out.lines@.len(),
                keys == fm@.len(),
                heads_frontmatter(self.out, i0, folded, keys),
                env == (FmEnv { links: links@, states: states@, color: self.theme.color, width: self.width, starts: self.starts@ }),
                (FmState { o: out_view(self.out), unused: unused@ }) == fm_entries(st0, fm@.take(e as int), key_width, env),
                dim == dim_style(),
            decreases fm.len() - e,
        {
            assert(fm@.take(e + 1).drop_last() =~= fm@.take(e as int));
            assert(fm@.take(e + 1).last() == fm@[e as int]);
            let ghost ste = FmState { o: out_view(self.out), unused: unused@ };
            let key = &fm[e].0;
            let value = &fm[e].1;
            let mut items: Vec<String> = Vec::new();
            match value {
                Value::Str(s) => items.push(crate::text::owned(s.as_str())),
                Value::Date(s) => items.push(crate::text::owned(s.as_str())),
                Value::Raw(s) => items.push(crate::text::owned(s.as_str())),
                Value::Bool(b) => items.push(crate::text::owned(if *b { "true" } else { "false" })),
                Value::List(l) => items = crate::config::copy_strings(l.as_slice()),
            }
            let ghost iv = views(items@);
            assert(iv =~= value_items(fm@[e as int].1@));
            let mut atoms: Vec<Atom> = Vec::new();
            let mut src: usize = 0;
            let mut m: usize = 0;
            let ghost r0 = FmRun { atoms: seq![], unused: unused@, src: 0 };
            assert(atom_views(atoms@) =~= Seq::<AtomView>::empty());
            assert(iv.take(0) =~= Seq::<Seq<char>>::empty());
            while m < items.len()
                invariant
                    m <= items@.len(),
                    atoms_ok(atoms@, self.n as int),
                    forall|j: int| 0 <= j < unused@.len() ==> #[trigger] unused@[j] < links@.len(),
                    self.n == links@.len(),
                    states@.len() == links@.len(),
                    heads_frontmatter(self.out, i0, folded, keys),
                    iv == views(items@),
                    env == (FmEnv { links: links@, states: states@, color: self.theme.color, width: self.width, starts: self.starts@ }),
                    (FmRun { atoms: atom_views(atoms@), unused: unused@, src }) == fm_items(r0, iv.take(m as int), env),
                decreases items.len() - m,
            {
                assert(iv.take(m + 1).drop_last() =~= iv.take(m as int));
                assert(iv.take(m + 1).last() == items@[m as int]@);
                let ghost rb = FmRun { atoms: atom_views(atoms@), unused: unused@, src };
                let item = &items[m];
                if m > 0 {
                    let ghost before = atoms@;
                    let a = plain(", ", Style::new(), src);
                    atoms.push(a);
                    assert(atoms@ == before.push(a));
                    assert(atom_views(atoms@) =~= atom_views(before).push(atom_view(a)));
                }
                let ghost a0 = atom_views(atoms@);
                assert(a0 == (if m > 0 {
                    rb.atoms.push(AtomView { text: ", "@, style: plain_style(), link: None, src: rb.src, brk: false, soft: false })
                } else {
                    rb.atoms
                }));
                let mut pos: usize = 0;
                while pos < unused.len() && !strs_eq(links[unused[pos]].written.as_str(), item.as_str())
                    invariant
                        pos <= unused@.len(),
                        forall|j: int| 0 <= j < unused@.len() ==> #[trigger] unused@[j] < links@.len(),
                        claim(unused@, links@, item@, pos as int) == claim(unused@, links@, item@, 0),
                    decreases unused.len() - pos,
                {
                    pos = pos + 1;
                }
                let ghost before = atoms@;
                assert(claim(unused@, links@, item@, pos as int) == pos);
                if pos < unused.len() {
                    let ghost uv = unused@;
                    let i = unused.remove(pos);
                    assert(i == uv[pos as int]);
                    assert forall|j: int| 0 <= j < unused@.len() implies #[trigger] unused@[j] < links@.len() by {
                        if j < pos {
                            assert(unused@[j] == uv[j]);
                        } else {
                            assert(unused@[j] == uv[j + 1]);
                        }
                    }
                    assert(unused@ =~= uv.remove(pos as int));
                    let l = &links[i];
                    src = l.span.start;
                    let text = match &l.alias {
                        Some(a) => crate::text::owned(a.as_str()),
                        None => crate::text::owned(item.as_str()),
                    };
                    let a = Atom { text, style: self.theme.link(&states[i]), link: Some(i), src, brk: false, soft: false };
                    atoms.push(a);
                    assert(atoms@ == before.push(a));
                } else {
                    let a = plain(item.as_str(), Style::new(), src);
                    atoms.push(a);
                    assert(atoms@ == before.push(a));
                }
                assert(atom_views(atoms@) =~= atom_views(before).push(atom_view(atoms@.last())));
                proof {
                    reveal_strlit(", ");
                }
                assert((FmRun { atoms: atom_views(atoms@), unused: unused@, src }) == fm_item(rb, item@, m as int, env));
                m = m + 1;
            }
            assert(iv.take(iv.len() as int) =~= iv);
            let pad_n = (key_width - key_widths[e]).saturating_add(2);
            let mut head = crate::text::owned("  ");
            head.append(key.as_str());
            head.append(spaces(pad_n).as_str());
            let mut first: Vec<Span> = Vec::new();
            let ghost hv = head@;
            first.push(Span { content: head, style: dim });
            assert(first@.len() == 1 && first@[0].content@ == hv && first@[0].style == dim_style());
            let mut rest: Vec<Span> = Vec::new();
            rest.push(raw(spaces(key_width.saturating_add(4))));
            assert(key_widths@[e as int] == str_width_of(key@));
            assert(head@ == "  "@ + key@ + spaces_of(sat_add((key_width - str_width_of(key@)) as usize, 2)));
            assert(span_views(first@) =~= seq![("  "@ + key@ + spaces_of(sat_add((key_width - str_width_of(key@)) as usize, 2)), dim_style())]);
            assert(span_views(rest@) =~= seq![(spaces_of(sat_add(key_width, 4)), plain_style())]);
            let before = self.out.lines.len();
            assert(old(self).out.lines@.len() <= before);
            let ghost pre = self.out;
            let ghost pre_self = *self;
            self.wrap(atoms, first, rest, src);
            assert(self.out.lines@[i0] == pre.lines@[i0]);
            assert(self.out.source_line@[i0] == pre.source_line@[i0]);
            let ghost o2 = out_view(self.out);
            if src == 0 {
                let mut k = before;
                while k < self.out.source_line.len()
                    invariant
                        self.keeps(*old(self)),
                        self.only_out(*old(self)),
                        self.n == links@.len(),
                        old(self).out.lines@.len() <= before <= k,
                        i0 < before,
                        heads_frontmatter(self.out, i0, folded, keys),
                        out_view(self.out).lines == o2.lines,
                        out_view(self.out).hits == o2.hits,
                        self.out.source_line@.len() == o2.srcs.len(),
                        forall|j: int| 0 <= j < o2.srcs.len() ==> #[trigger] self.out.source_line@[j] == (if before <= j < k {
                            1u32
                        } else {
                            o2.srcs[j]
                        }),
                    decreases self.out.source_line.len() - k,
                {
                    let ghost prev = self.out.source_line@;
                    self.out.source_line.set(k, 1);
                    assert(forall|j: int| 0 <= j < old(self).out.lines@.len() ==> self.out.source_line@[j] == prev[j]);
                    assert(rendered_ok(self.out, self.n as int)) by {
                        assert forall|j: int| 0 <= j < self.out.source_line@.len() implies #[trigger] self.out.source_line@[j] >= 1 by {
                            if j != k {
                                assert(self.out.source_line@[j] == prev[j]);
                            }
                        }
                    }
                    k = k + 1;
                }
                assert(out_view(self.out).srcs =~= Seq::new(o2.srcs.len(), |j: int| if j >= before { 1u32 } else { o2.srcs[j] }));
            }
            assert(ste.o.lines.len() == before);
            assert((FmState { o: out_view(self.out), unused: unused@ }) == fm_entry(ste, key@, value@, key_width, env));
            e = e + 1;
        }
        assert(fm@.take(fm@.len() as int) =~= fm@);
        self.need_blank = true;
    }
}


/// The items a frontmatter value shows: a list's items, else the value.
pub open spec fn value_items(v: crate::parse::ValueView) -> Seq<Seq<char>> {
    match v {
        crate::parse::ValueView::Str(s) => seq![s],
        crate::parse::ValueView::Date(s) => seq![s],
        crate::parse::ValueView::Raw(s) => seq![s],
        crate::parse::ValueView::Bool(b) => seq![if b { "true"@ } else { "false"@ }],
        crate::parse::ValueView::List(l) => l,
    }
}

/// The property links in file order.
pub open spec fn property_links(links: Seq<Link>) -> Seq<usize>
    decreases links.len(),
{
    if links.len() == 0 {
        seq![]
    } else {
        property_links(links.drop_last()) + if links.last().kind is Property {
            seq![(links.len() - 1) as usize]
        } else {
            seq![]
        }
    }
}

/// The first of the unused links from `pos` on written as `item`, or the
/// end.
pub open spec fn claim(unused: Seq<usize>, links: Seq<Link>, item: Seq<char>, pos: int) -> int
    decreases unused.len() - pos,
{
    if pos < 0 || pos >= unused.len() || links[unused[pos] as int].written@ == item {
        pos
    } else {
        claim(unused, links, item, pos + 1)
    }
}

/// The atoms of a frontmatter value so far, the property links not yet
/// claimed, and the source offset of the last claimed one.
pub struct FmRun {
    pub atoms: Seq<AtomView>,
    pub unused: Seq<usize>,
    pub src: usize,
}

/// What a frontmatter entry is shown with.
pub struct FmEnv {
    pub links: Seq<Link>,
    pub states: Seq<Resolved>,
    pub color: bool,
    pub width: usize,
    pub starts: Seq<usize>,
}

/// Item `m` of a value added: after a comma when it is not the first; a
/// link when an unclaimed property link is written the same way, styled by
/// its state, else plain text.
pub open spec fn fm_item(r: FmRun, item: Seq<char>, m: int, env: FmEnv) -> FmRun {
    let plain = |t: Seq<char>, src: usize| AtomView { text: t, style: plain_style(), link: None, src, brk: false, soft: false };
    let a0 = if m > 0 { r.atoms.push(plain(", "@, r.src)) } else { r.atoms };
    let pos = claim(r.unused, env.links, item, 0);
    if pos < r.unused.len() {
        let i = r.unused[pos];
        let l = env.links[i as int];
        let shown = match l.alias {
            Some(a) => a@,
            None => item,
        };
        FmRun {
            atoms: a0.push(
                AtomView { text: shown, style: link_style(env.color, env.states[i as int]), link: Some(i), src: l.span.start, brk: false, soft: false },
            ),
            unused: r.unused.remove(pos),
            src: l.span.start,
        }
    } else {
        FmRun { atoms: a0.push(plain(item, r.src)), ..r }
    }
}

pub open spec fn fm_items(r: FmRun, items: Seq<Seq<char>>, env: FmEnv) -> FmRun
    decreases items.len(),
{
    if items.len() == 0 {
        r
    } else {
        fm_item(fm_items(r, items.drop_last(), env), items.last(), items.len() - 1, env)
    }
}

/// The widest key.
pub open spec fn key_width_of(fm: Seq<(String, Value)>) -> usize
    decreases fm.len(),
{
    if fm.len() == 0 {
        0
    } else {
        let w = key_width_of(fm.drop_last());
        let k = str_width_of(fm.last().0@);
        if k > w { k } else { w }
    }
}

/// The output so far, with the property links not yet claimed.
pub struct FmState {
    pub o: OutView,
    pub unused: Seq<usize>,
}

/// One entry shown: the key, padded to the widest, then its value wrapped
/// after it and indented under it. Lines with no claimed link take source
/// line 1.
pub open spec fn fm_entry(st: FmState, key: Seq<char>, v: crate::parse::ValueView, kw: usize, env: FmEnv) -> FmState {
    let r = fm_items(FmRun { atoms: seq![], unused: st.unused, src: 0 }, value_items(v), env);
    let pad = sat_add((kw - str_width_of(key)) as usize, 2);
    let first = seq![("  "@ + key + spaces_of(pad), dim_style())];
    let rest = seq![(spaces_of(sat_add(kw, 4)), plain_style())];
    let o2 = wrap_out(st.o, r.atoms, first, rest, env.width, env.starts, r.src);
    let n0 = st.o.lines.len();
    let o3 = if r.src == 0 {
        OutView { srcs: Seq::new(o2.srcs.len(), |j: int| if j >= n0 { 1u32 } else { o2.srcs[j] }), ..o2 }
    } else {
        o2
    };
    FmState { o: o3, unused: r.unused }
}

pub open spec fn fm_entries(st: FmState, fm: Seq<(String, Value)>, kw: usize, env: FmEnv) -> FmState
    decreases fm.len(),
{
    if fm.len() == 0 {
        st
    } else {
        let s1 = fm_entries(st, fm.drop_last(), kw, env);
        fm_entry(s1, fm.last().0@, fm.last().1@, kw, env)
    }
}

/// `o` with the frontmatter heading.
pub open spec fn label_out(o: OutView, folded: bool, keys: nat) -> OutView {
    OutView { lines: o.lines.push(seq![(frontmatter_label(folded, keys), dim_style())]), srcs: o.srcs.push(1u32), hits: o.hits }
}

/// `o` with the frontmatter shown: folded, only its heading; open, the
/// heading and then each entry.
pub open spec fn frontmatter_out(
    o: OutView,
    fm: Seq<(String, Value)>,
    links: Seq<Link>,
    states: Seq<Resolved>,
    folded: bool,
    width: usize,
    starts: Seq<usize>,
    color: bool,
) -> OutView {
    let head = label_out(o, folded, fm.len());
    if folded {
        head
    } else {
        let env = FmEnv { links, states, color, width, starts };
        fm_entries(FmState { o: head, unused: property_links(links) }, fm, key_width_of(fm), env).o
    }
}

/// One event as the renderer reads it.
pub enum Ev {
    Open(Block),
    Close(BlockEnd),
    In(Inline),
    Leaf(Leaf),
}

impl Renderer {
    fn open_block(&mut self, b: Block, start: usize)
        requires
            old(self).wf(),
        ensures
            final(self).keeps(*old(self)),
            final(self).opened(*old(self), b, start),
    {
        match b {
            Block::Paragraph => {
                if !self.in_tight_item_start() {
                    self.block_start();
                } else {
                    self.flush();
                }
            },
            Block::Heading(level) => {
                self.block_start();
                let mut marks = repeat('#', level as usize);
                push_char(&mut marks, ' ');
                let dim = self.theme.dim();
                self.atom(marks.as_str(), dim, start);
                let h = self.theme.heading();
                self.push_style(h);
            },
            Block::Quote => {
                self.block_start();
                self.stack.push(Container::Quote { first: true });
            },
            Block::List(next) => {
                if !self.in_tight_item_start() {
                    self.block_start();
                } else {
                    self.flush();
                }
                self.stack.push(Container::List { next });
            },
            Block::Item => {
                self.flush();
                let ghost fs = self.stack@;
                assert(fs == flushed_stack(*old(self)));
                let k = self.stack.len();
                let mut bullet = crate::text::owned("• ");
                if k > 0 {
                    if let Container::List { next: Some(n) } = &self.stack[k - 1] {
                        let n = *n;
                        bullet = crate::text::decimal_string(n);
                        bullet.append(". ");
                        let after = if n < u64::MAX { n + 1 } else { n };
                        self.stack.set(k - 1, Container::List { next: Some(after) });
                    }
                }
                assert(self.stack@ =~= numbered(fs));
                assert(bullet@ == bullet_text(fs));
                let width = str_width(bullet.as_str());
                let ghost st1 = self.stack@;
                self.stack.push(Container::Item { bullet: Some(bullet), width });
                assert(self.stack@.drop_last() =~= st1);
                self.need_blank = false;
            },
            Block::CodeBlock => {
                self.block_start();
                self.code = Some((String::new(), start));
            },
            Block::Table => {
                self.block_start();
                self.table = Some(Table { rows: Vec::new(), header_rows: 0, src: start });
            },
            Block::Row => {
                match self.table.take() {
                    Some(mut t) => {
                        let ghost r0 = t.rows@;
                        t.rows.push(Vec::new());
                        assert(t.rows@.drop_last() =~= r0);
                        self.table = Some(t);
                    },
                    None => {},
                }
                assert(self.table matches Some(t) ==> table_ok(t, self.n as int)) by {
                    if let Some(t) = self.table {
                        assert forall|r: int, c: int| 0 <= r < t.rows@.len() && 0 <= c < t.rows@[r]@.len() implies atoms_ok(
                            #[trigger] t.rows@[r]@[c]@,
                            self.n as int,
                        ) by {
                            let t0 = old(self).table->0;
                            assert(r < t0.rows@.len());
                            assert(t.rows@[r] == t0.rows@[r]);
                        }
                    }
                }
            },
            Block::Cell => {
                self.inline.clear();
            },
            Block::Metadata => {
                self.in_metadata = true;
            },
            Block::Other => {},
        }
    }

    fn close_block(&mut self, b: BlockEnd)
        requires
            old(self).wf(),
        ensures
            final(self).keeps(*old(self)),
            final(self).closed(*old(self), b),
    {
        match b {
            BlockEnd::Paragraph => self.block_end(),
            BlockEnd::Heading => {
                self.pop_style();
                let ghost popped = *self;
                self.block_end();
                proof {
                    lemma_flush_out_style(popped, *old(self), out_view(self.out));
                }
            },
            BlockEnd::Quote | BlockEnd::List => {
                self.flush();
                self.stack.pop();
                self.need_blank = true;
            },
            BlockEnd::Item => {
                self.flush();
                self.stack.pop();
            },
            BlockEnd::TableHead => {
                match self.table.take() {
                    Some(mut t) => {
                        t.header_rows = t.rows.len();
                        self.table = Some(t);
                    },
                    None => {},
                }
            },
            BlockEnd::Cell => {
                let mut cell: Vec<Atom> = Vec::new();
                std::mem::swap(&mut cell, &mut self.inline);
                self.inline_src = None;
                let ghost n = self.n as int;
                assert(atoms_ok(cell@, n));
                let ghost cell0 = cell;
                match self.table.take() {
                    Some(mut t) => {
                        let k = t.rows.len();
                        if k > 0 {
                            let ghost r0 = t.rows@;
                            let mut row: Vec<Vec<Atom>> = Vec::new();
                            std::mem::swap(&mut row, &mut t.rows[k - 1]);
                            assert(row == r0[k - 1]);
                            row.push(cell);
                            t.rows.set(k - 1, row);
                            assert(t.rows@.drop_last() =~= r0.drop_last());
                        }
                        self.table = Some(t);
                    },
                    None => {},
                }
                assert(self.table matches Some(t) ==> table_ok(t, n)) by {
                    if let Some(t) = self.table {
                        let t0 = old(self).table->0;
                        assert forall|r: int, c: int| 0 <= r < t.rows@.len() && 0 <= c < t.rows@[r]@.len() implies atoms_ok(
                            #[trigger] t.rows@[r]@[c]@,
                            n,
                        ) by {
                            if r < t.rows@.len() - 1 {
                                assert(t.rows@[r] == t0.rows@[r]);
                            } else if c < t0.rows@[r]@.len() {
                                assert(t.rows@[r]@[c] == t0.rows@[r]@[c]);
                            } else {
                                assert(t.rows@[r]@[c] == cell);
                            }
                        }
                    }
                }
            },
            BlockEnd::Table => {
                let mut t: Option<Table> = None;
                std::mem::swap(&mut t, &mut self.table);
                if let Some(t) = t {
                    self.end_table(t);
                }
                self.need_blank = true;
            },
            BlockEnd::CodeBlock => {},
            BlockEnd::Metadata => {
                self.in_metadata = false;
            },
            BlockEnd::Other => {},
        }
    }

    fn inline_event(&mut self, e: &Inline, start: usize, links: &[Link], states: &[Resolved], comments: &[crate::parse::Span])
        requires
            old(self).wf(),
            old(self).n == links@.len(),
            states@.len() == links@.len(),
        ensures
            final(self).keeps(*old(self)),
            final(self).inline_done(*old(self), *e, start, links@, states@, comments@),
    {
        match e {
            Inline::Emphasis => self.push_style(Style { italic: true, ..Style::new() }),
            Inline::Strong => self.push_style(Style { bold: true, ..Style::new() }),
            Inline::Strikethrough => self.push_style(Style { crossed_out: true, ..Style::new() }),
            Inline::StyleEnd => self.pop_style(),
            Inline::AutoLink(dest) | Inline::Link(dest) => {
                if crate::parse::in_ranges_exec(comments, start) {
                    self.push_style(Style::new());
                    return;
                }
                match by_start(links, start) {
                    Some(i) => {
                        self.link = Some(i);
                        let style = self.theme.link(&states[i]);
                        self.push_style(style);
                    },
                    None => {
                        self.push_style(Style { underlined: true, ..Style::new() });
                        if let Inline::Link(_) = e {
                            self.external = Some((crate::text::owned(dest.as_str()), String::new(), start));
                        }
                    },
                }
            },
            Inline::LinkEnd => {
                self.pop_style();
                self.link = None;
                let mut ext: Option<(String, String, usize)> = None;
                std::mem::swap(&mut ext, &mut self.external);
                if let Some((url, shown, src)) = ext {
                    if !strs_eq(url.as_str(), shown.as_str()) {
                        let dim = self.theme.dim();
                        let mut t = crate::text::owned(" <");
                        t.append(url.as_str());
                        push_char(&mut t, '>');
                        proof {
                            reveal_strlit(">");
                        }
                        assert(t@ =~= " <"@ + url@ + ">"@);
                        self.atom(t.as_str(), dim, src);
                    }
                }
            },
            Inline::Image(dest) => {
                self.in_image = true;
                if crate::parse::in_ranges_exec(comments, start) {
                    return;
                }
                let link = by_start(links, start);
                let target = match link {
                    Some(i) => crate::text::owned(links[i].target.as_str()),
                    None => crate::text::owned(dest.as_str()),
                };
                self.link = link;
                if is_image(target.as_str()) {
                    let name = last_segment(target.as_str());
                    let mut t = crate::text::owned("[image:\u{a0}");
                    t.append(name.as_str());
                    push_char(&mut t, ']');
                    proof {
                        reveal_strlit("]");
                    }
                    assert(t@ =~= "[image:\u{a0}"@ + name@ + "]"@);
                    let dim = self.theme.dim();
                    self.atom(t.as_str(), dim, start);
                } else {
                    let style = match link {
                        Some(i) => self.theme.link(&states[i]),
                        None => Style::new(),
                    };
                    let shown = match link {
                        Some(i) => match &links[i].alias {
                            Some(a) => crate::text::owned(a.as_str()),
                            None => target,
                        },
                        None => target,
                    };
                    let t = concat("↳\u{a0}", shown.as_str());
                    self.atom(t.as_str(), style, start);
                }
                self.link = None;
            },
            Inline::ImageEnd => {
                self.in_image = false;
            },
            Inline::Other => {},
        }
    }

    fn leaf_event(&mut self, e: &Leaf, start: usize, end: usize, text: &str, comments: &[crate::parse::Span])
        requires
            old(self).wf(),
        ensures
            final(self).keeps(*old(self)),
            final(self).leaf_done(*old(self), *e, start, end, text.spec_bytes(), comments@),
    {
        match e {
            Leaf::Text(t) => {
                if self.in_image {
                    return;
                }
                let ext = self.external.take();
                assert(ext == old(self).external);
                if let Some((url, mut shown, src)) = ext {
                    shown.append(t.as_str());
                    self.external = Some((url, shown, src));
                }
                assert(ext_view(self.external) == match ext_view(old(self).external) {
                    Some((u, sh, src)) => Some((u, sh + t@, src)),
                    None => None,
                });
                let style = self.cur_style();
                self.text(t.as_str(), start, end, text, style, comments);
            },
            Leaf::Code(t) => {
                if crate::parse::in_ranges_exec(comments, start) {
                    return;
                }
                let style = self.cur_style().patch(self.theme.code());
                self.atom(t.as_str(), style, start);
            },
            Leaf::Soft => {
                let style = self.cur_style();
                proof {
                    reveal_strlit(" ");
                }
                self.atom(" ", style, start);
                let k = self.inline.len();
                if k > 0 {
                    let a = &self.inline[k - 1];
                    let b = Atom {
                        text: crate::text::owned(a.text.as_str()),
                        style: a.style,
                        link: a.link,
                        src: a.src,
                        brk: a.brk,
                        soft: true,
                    };
                    let ghost before = self.inline@;
                    self.inline.set(k - 1, b);
                    assert(self.inline@.drop_last() =~= before.drop_last());
                    assert(atoms_ok(self.inline@, self.n as int)) by {
                        assert forall|j: int| 0 <= j < self.inline@.len() implies link_ok((#[trigger] self.inline@[j]).link, self.n as int) by {
                            assert(self.inline@[j].link == before[j].link);
                        }
                    }
                }
            },
            Leaf::Hard => {
                let a = Atom { text: String::new(), style: Style::new(), link: None, src: start, brk: true, soft: false };
                let ghost before = self.inline@;
                self.inline.push(a);
                assert(self.inline@ == before.push(a));
                assert(self.inline@.drop_last() =~= before);
                assert(atoms_ok(self.inline@, self.n as int));
            },
            Leaf::Html(t) => {
                if !crate::parse::in_ranges_exec(comments, start) {
                    let c = chars_of(t.as_str());
                    let keep = crate::text::trim_end_len(c.as_slice());
                    let shown = string_of(crate::text::slice_range(c.as_slice(), 0, keep));
                    let dim = self.theme.dim();
                    self.atom(shown.as_str(), dim, start);
                }
            },
            Leaf::Note(t) => {
                let mut s = crate::text::owned("[^");
                s.append(t.as_str());
                push_char(&mut s, ']');
                proof {
                    reveal_strlit("]");
                }
                assert(s@ =~= "[^"@ + t@ + "]"@);
                let dim = self.theme.dim();
                self.atom(s.as_str(), dim, start);
            },
            Leaf::Math(t) => {
                let style = self.theme.code();
                self.atom(t.as_str(), style, start);
            },
            Leaf::Rule => {
                self.block_start();
                let ghost mid = *self;
                let line = line_of(&self.starts, start);
                let n = if self.width < 60 { self.width } else { 60 };
                let rule = repeat('─', n);
                let dim = self.theme.dim();
                let mut spans: Vec<Span> = Vec::new();
                spans.push(Span { content: rule, style: dim });
                assert(span_views(spans@) =~= seq![(Seq::new(n as nat, |i: int| '─'), dim_style())]);
                let ghost mo = out_view(self.out);
                self.emit(spans, line);
                self.need_blank = true;
                assert(out_view(self.out).lines =~= mo.lines.push(seq![(Seq::new(n as nat, |i: int| '─'), dim_style())]));
                assert(out_view(self.out) =~= (OutView {
                    lines: mo.lines.push(seq![(Seq::new(n as nat, |i: int| '─'), dim_style())]),
                    srcs: mo.srcs.push(line_number(old(self).starts@, start)),
                    hits: mo.hits,
                }));
                assert(started_out(*old(self), mo));
                assert(self.grows(mid));
                assert(self.grows(*old(self))) by {
                    assert forall|k: int| 0 <= k < old(self).out.lines@.len() implies #[trigger] self.out.lines@[k] == old(self).out.lines@[k] by {
                        assert(self.out.lines@[k] == mid.out.lines@[k]);
                    }
                    assert forall|k: int| 0 <= k < old(self).out.lines@.len() implies #[trigger] self.out.source_line@[k] == old(self).out.source_line@[k] by {
                        assert(self.out.source_line@[k] == mid.out.source_line@[k]);
                    }
                }
            },
            Leaf::Task(done) => {
                let k = self.stack.len();
                if k > 0 {
                    if let Container::Item { bullet, .. } = &self.stack[k - 1] {
                        let mut b = match bullet {
                            Some(b) => crate::text::owned(b.as_str()),
                            None => crate::text::owned("• "),
                        };
                        if *done {
                            b.append("[x] ");
                        } else {
                            b.append("[ ] ");
                        }
                        let width = str_width(b.as_str());
                        let ghost before = self.stack@;
                        self.stack.set(k - 1, Container::Item { bullet: Some(b), width });
                        assert(self.stack@.drop_last() =~= before.drop_last());
                    }
                }
            },
        }
    }

    fn event(&mut self, ev: &Ev, start: usize, end: usize, text: &str, links: &[Link], states: &[Resolved], comments: &[crate::parse::Span])
        requires
            old(self).wf(),
            old(self).n == links@.len(),
            states@.len() == links@.len(),
        ensures
            final(self).keeps(*old(self)),
            final(self).event_done(*old(self), *ev, start, end, text.spec_bytes(), links@, states@, comments@),
    {
        if self.code.is_some() {
            match ev {
                Ev::Leaf(Leaf::Text(t)) => {
                    let code = self.code.take();
                    if let Some((mut c, src)) = code {
                        c.append(t.as_str());
                        self.code = Some((c, src));
                    }
                },
                Ev::Close(BlockEnd::CodeBlock) => self.end_code(),
                _ => {},
            }
            return;
        }
        match ev {
            Ev::Open(Block::Metadata) => self.in_metadata = true,
            Ev::Close(BlockEnd::Metadata) => self.in_metadata = false,
            _ => {
                if self.in_metadata {
                    return;
                }
                match ev {
                    Ev::Open(b) => self.open_block(*b, start),
                    Ev::Close(b) => self.close_block(*b),
                    Ev::In(i) => self.inline_event(i, start, links, states, comments),
                    Ev::Leaf(l) => self.leaf_event(l, start, end, text, comments),
                }
            },
        }
    }
}

/// An event with its text taken as chars.
pub enum EvView {
    Open(Block),
    Close(BlockEnd),
    In(InlineView),
    Text(Seq<char>),
    Code(Seq<char>),
    Html(Seq<char>),
    Note(Seq<char>),
    Math(Seq<char>),
    Soft,
    Hard,
    Rule,
    Task(bool),
}

pub open spec fn ev_view(e: Ev) -> EvView {
    match e {
        Ev::Open(b) => EvView::Open(b),
        Ev::Close(b) => EvView::Close(b),
        Ev::In(i) => EvView::In(crate::markup::inline_view(i)),
        Ev::Leaf(Leaf::Text(t)) => EvView::Text(t@),
        Ev::Leaf(Leaf::Code(t)) => EvView::Code(t@),
        Ev::Leaf(Leaf::Html(t)) => EvView::Html(t@),
        Ev::Leaf(Leaf::Note(t)) => EvView::Note(t@),
        Ev::Leaf(Leaf::Math(t)) => EvView::Math(t@),
        Ev::Leaf(Leaf::Soft) => EvView::Soft,
        Ev::Leaf(Leaf::Hard) => EvView::Hard,
        Ev::Leaf(Leaf::Rule) => EvView::Rule,
        Ev::Leaf(Leaf::Task(b)) => EvView::Task(b),
    }
}

/// The event pulldown-cmark's readings give at one position: a start or an
/// end is a block's when it names one, else an inline element's; a leaf
/// carries its text, empty when it has none.
pub open spec fn event_of(shape: Shape, payload: Option<Seq<char>>, b: Block, e: BlockEnd, i: InlineView) -> EvView {
    let t = match payload {
        Some(t) => t,
        None => Seq::<char>::empty(),
    };
    match shape {
        Shape::Start => if b != Block::Other { EvView::Open(b) } else { EvView::In(i) },
        Shape::End => if e != BlockEnd::Other { EvView::Close(e) } else { EvView::In(i) },
        Shape::Text => EvView::Text(t),
        Shape::Code => EvView::Code(t),
        Shape::Html => EvView::Html(t),
        Shape::Note => EvView::Note(t),
        Shape::Math => EvView::Math(t),
        Shape::Soft => EvView::Soft,
        Shape::Hard => EvView::Hard,
        Shape::Rule => EvView::Rule,
        Shape::Task(d) => EvView::Task(d),
    }
}

/// The events of `text` with their byte ranges; none when the readings
/// differ in length.
pub open spec fn events_of(text: Seq<char>) -> Seq<(EvView, usize, usize)> {
    let ls = crate::markup::shapes_of(text);
    let ps = crate::markup::payloads_of(text);
    let bs = crate::markup::blocks_of(text);
    let es = crate::markup::block_ends_of(text);
    let is = crate::markup::inlines_of(text);
    if ps.len() != ls.len() || bs.len() != ls.len() || es.len() != ls.len() || is.len() != ls.len() {
        seq![]
    } else {
        Seq::new(ls.len(), |k: int| (event_of(ls[k].0, ps[k], bs[k], es[k], is[k]), ls[k].1, ls[k].2))
    }
}

pub open spec fn event_views(v: Seq<(Ev, usize, usize)>) -> Seq<(EvView, usize, usize)> {
    v.map_values(|x: (Ev, usize, usize)| (ev_view(x.0), x.1, x.2))
}

/// A copy of an inline element.
fn copy_inline(i: &Inline) -> (r: Inline)
    ensures
        crate::markup::inline_view(r) == crate::markup::inline_view(*i),
{
    match i {
        Inline::Emphasis => Inline::Emphasis,
        Inline::Strong => Inline::Strong,
        Inline::Strikethrough => Inline::Strikethrough,
        Inline::AutoLink(d) => Inline::AutoLink(crate::text::owned(d.as_str())),
        Inline::Link(d) => Inline::Link(crate::text::owned(d.as_str())),
        Inline::Image(d) => Inline::Image(crate::text::owned(d.as_str())),
        Inline::StyleEnd => Inline::StyleEnd,
        Inline::LinkEnd => Inline::LinkEnd,
        Inline::ImageEnd => Inline::ImageEnd,
        Inline::Other => Inline::Other,
    }
}

/// The renderer's events for `text`, when pulldown-cmark's four readings of
/// it line up: each event's shape, payload and byte range.
fn events(text: &str) -> (r: Vec<(Ev, usize, usize)>)
    ensures
        event_views(r@) == events_of(text@),
{
    let ls = crate::markup::shapes(text);
    let ps = crate::markup::payloads(text);
    let bs = crate::markup::blocks(text);
    let es = crate::markup::block_ends(text);
    let is = crate::markup::inlines(text);
    let mut out: Vec<(Ev, usize, usize)> = Vec::new();
    let ghost lv = ls@.map_values(|e: (Shape, std::ops::Range<usize>)| (e.0, e.1.start, e.1.end));
    let ghost pv = ps@.map_values(|p: Option<String>| crate::text::opt_string_view(p));
    let ghost iv = is@.map_values(|i: Inline| crate::markup::inline_view(i));
    if ps.len() != ls.len() || bs.len() != ls.len() || es.len() != ls.len() || is.len() != ls.len() {
        assert(event_views(out@) =~= events_of(text@));
        return out;
    }
    let ghost all = events_of(text@);
    let mut i: usize = 0;
    while i < ls.len()
        invariant
            i <= ls@.len(),
            ps@.len() == ls@.len(),
            bs@.len() == ls@.len(),
            es@.len() == ls@.len(),
            is@.len() == ls@.len(),
            lv == crate::markup::shapes_of(text@),
            pv == crate::markup::payloads_of(text@),
            bs@ == crate::markup::blocks_of(text@),
            es@ == crate::markup::block_ends_of(text@),
            iv == crate::markup::inlines_of(text@),
            lv == ls@.map_values(|e: (Shape, std::ops::Range<usize>)| (e.0, e.1.start, e.1.end)),
            pv == ps@.map_values(|p: Option<String>| crate::text::opt_string_view(p)),
            iv == is@.map_values(|i: Inline| crate::markup::inline_view(i)),
            all == events_of(text@),
            all.len() == ls@.len(),
            event_views(out@) == all.take(i as int),
        decreases ls.len() - i,
    {
        let (shape, range) = &ls[i];
        let payload = match &ps[i] {
            Some(t) => crate::text::owned(t.as_str()),
            None => String::new(),
        };
        assert(pv[i as int] == crate::text::opt_string_view(ps@[i as int]));
        assert(iv[i as int] == crate::markup::inline_view(is@[i as int]));
        let ev = match shape {
            Shape::Start => if bs[i] != Block::Other {
                Ev::Open(bs[i])
            } else {
                Ev::In(copy_inline(&is[i]))
            },
            Shape::End => if es[i] != BlockEnd::Other {
                Ev::Close(es[i])
            } else {
                Ev::In(copy_inline(&is[i]))
            },
            Shape::Text => Ev::Leaf(Leaf::Text(payload)),
            Shape::Code => Ev::Leaf(Leaf::Code(payload)),
            Shape::Html => Ev::Leaf(Leaf::Html(payload)),
            Shape::Note => Ev::Leaf(Leaf::Note(payload)),
            Shape::Math => Ev::Leaf(Leaf::Math(payload)),
            Shape::Soft => Ev::Leaf(Leaf::Soft),
            Shape::Hard => Ev::Leaf(Leaf::Hard),
            Shape::Rule => Ev::Leaf(Leaf::Rule),
            Shape::Task(b) => Ev::Leaf(Leaf::Task(*b)),
        };
        assert(ev_view(ev) == all[i as int].0);
        let ghost before = out@;
        out.push((ev, range.start, range.end));
        assert(event_views(out@) =~= event_views(before).push((ev_view(ev), range.start, range.end)));
        assert(all.take(i + 1) =~= all.take(i as int).push(all[i as int]));
        i = i + 1;
    }
    assert(all.take(ls@.len() as int) =~= all);
    out
}

/// The `%%comment%%` byte ranges of a note, outside code.
pub open spec fn comments_of(text: Seq<char>) -> Seq<crate::parse::Span> {
    crate::parse::comment_ranges_of(crate::text::bytes_of(text), crate::parse::code_ranges_of(crate::markdown::md_kinds_of(text)))
}

/// The width a note is laid out at: at least 10 columns.
pub open spec fn layout_width(width: u16) -> usize {
    if width < 10 { 10 } else { width as usize }
}

impl Renderer {
    /// The renderer after a note's frontmatter, before its Markdown.
    pub open spec fn after_frontmatter(&self, text: &str, parsed: Parsed, states: Seq<Resolved>, width: u16, fold: bool, theme: Theme) -> bool {
        &&& self.width == layout_width(width)
        &&& self.theme == theme
        &&& self.starts@ == line_starts_of(text.spec_bytes())
        &&& self.n == parsed.links@.len()
        &&& self.stack@.len() == 0
        &&& self.inline@.len() == 0
        &&& self.inline_src is None
        &&& self.style@ == seq![plain_style()]
        &&& self.link is None
        &&& !self.in_image
        &&& !self.in_metadata
        &&& self.external is None
        &&& self.code is None
        &&& self.table is None
        &&& self.need_blank == (parsed.frontmatter@.len() > 0)
        &&& out_view(self.out) == (if parsed.frontmatter@.len() > 0 {
            frontmatter_out(
                OutView { lines: seq![], srcs: seq![], hits: seq![] },
                parsed.frontmatter@,
                parsed.links@,
                states,
                fold,
                layout_width(width),
                line_starts_of(text.spec_bytes()),
                theme.color,
            )
        } else {
            OutView { lines: seq![], srcs: seq![], hits: seq![] }
        })
    }
}

/// `trace` is the renderer's state before each of the events `evs` and
/// after the last: it starts after the frontmatter, and each event takes
/// it one step.
pub open spec fn render_trace(
    evs: Seq<(Ev, usize, usize)>,
    trace: Seq<Renderer>,
    text: &str,
    parsed: Parsed,
    states: Seq<Resolved>,
    width: u16,
    fold: bool,
    theme: Theme,
) -> bool {
    &&& event_views(evs) == events_of(text@)
    &&& trace.len() == evs.len() + 1
    &&& trace[0].after_frontmatter(text, parsed, states, width, fold, theme)
    &&& forall|i: int|
        0 <= i < evs.len() ==> #[trigger] trace[i + 1].event_done(
            trace[i],
            evs[i].0,
            evs[i].1,
            evs[i].2,
            text.spec_bytes(),
            parsed.links@,
            states,
            comments_of(text@),
        )
}

/// `r` is the note rendered: pulldown-cmark's events taken in turn after
/// the frontmatter, each as the renderer's step for it says, then the last
/// inline run laid out.
pub open spec fn renders(r: Rendered, text: &str, parsed: Parsed, states: Seq<Resolved>, width: u16, fold: bool, theme: Theme) -> bool {
    exists|evs: Seq<(Ev, usize, usize)>, trace: Seq<Renderer>|
        #![trigger render_trace(evs, trace, text, parsed, states, width, fold, theme)]
        render_trace(evs, trace, text, parsed, states, width, fold, theme) && flush_out(trace.last(), out_view(r))
}

/// Renders a note for the detail panel at `width` columns (at least 10):
/// its frontmatter, folded or not, then its Markdown as styled lines, with
/// where each line starts in the source and where each local link landed.
pub fn render(text: &str, parsed: &Parsed, states: &[Resolved], width: u16, fold_frontmatter: bool, theme: Theme) -> (r: Rendered)
    requires
        states@.len() == parsed.links@.len(),
    ensures
        rendered_ok(r, parsed.links@.len() as int),
        parsed.frontmatter@.len() > 0 ==> heads_frontmatter(r, 0, fold_frontmatter, parsed.frontmatter@.len()),
        renders(r, text, *parsed, states@, width, fold_frontmatter, theme),
{
    let w: usize = if width < 10 { 10 } else { width as usize };
    let mut style: Vec<Style> = Vec::new();
    style.push(Style::new());
    let mut r = Renderer {
        width: w,
        theme,
        starts: line_starts(text),
        out: Rendered { lines: Vec::new(), source_line: Vec::new(), hits: Vec::new() },
        stack: Vec::new(),
        inline: Vec::new(),
        inline_src: None,
        style,
        link: None,
        in_image: false,
        in_metadata: false,
        external: None,
        code: None,
        table: None,
        need_blank: false,
        n: parsed.links.len(),
    };
    assert(out_view(r.out) =~= (OutView { lines: seq![], srcs: seq![], hits: seq![] }));
    r.frontmatter(parsed, states, fold_frontmatter);
    assert(r.after_frontmatter(text, *parsed, states@, width, fold_frontmatter, theme));
    let ranges = crate::parse::comments(text);
    let mut comments: Vec<crate::parse::Span> = Vec::new();
    let mut k: usize = 0;
    let ghost rv = ranges@.map_values(|x: std::ops::Range<usize>| (x.start, x.end));
    while k < ranges.len()
        invariant
            k <= ranges@.len(),
            rv == ranges@.map_values(|x: std::ops::Range<usize>| (x.start, x.end)),
            comments@ == rv.take(k as int),
        decreases ranges.len() - k,
    {
        comments.push((ranges[k].start, ranges[k].end));
        assert(rv.take(k + 1) =~= rv.take(k as int).push(rv[k as int]));
        k = k + 1;
    }
    assert(rv.take(rv.len() as int) =~= rv);
    assert(comments@ == comments_of(text@));
    let evs = events(text);
    let ghost mut trace: Seq<Renderer> = seq![r];
    let mut i: usize = 0;
    while i < evs.len()
        invariant
            i <= evs@.len(),
            r.wf(),
            r.n == parsed.links@.len(),
            states@.len() == parsed.links@.len(),
            parsed.frontmatter@.len() > 0 ==> heads_frontmatter(r.out, 0, fold_frontmatter, parsed.frontmatter@.len()),
            event_views(evs@) == events_of(text@),
            comments@ == comments_of(text@),
            trace.len() == i + 1,
            trace[0].after_frontmatter(text, *parsed, states@, width, fold_frontmatter, theme),
            trace.last() == r,
            forall|j: int|
                0 <= j < i ==> #[trigger] trace[j + 1].event_done(
                    trace[j],
                    evs@[j].0,
                    evs@[j].1,
                    evs@[j].2,
                    text.spec_bytes(),
                    parsed.links@,
                    states@,
                    comments_of(text@),
                ),
        decreases evs.len() - i,
    {
        let (ev, start, end) = &evs[i];
        let ghost pre = r.out;
        let ghost before = r;
        r.event(ev, *start, *end, text, parsed.links.as_slice(), states, comments.as_slice());
        assert(parsed.frontmatter@.len() > 0 ==> r.out.lines@[0] == pre.lines@[0] && r.out.source_line@[0] == pre.source_line@[0]);
        proof {
            let t0 = trace;
            trace = trace.push(r);
            assert forall|j: int| 0 <= j < i + 1 implies #[trigger] trace[j + 1].event_done(
                trace[j],
                evs@[j].0,
                evs@[j].1,
                evs@[j].2,
                text.spec_bytes(),
                parsed.links@,
                states@,
                comments_of(text@),
            ) by {
                if j < i {
                    assert(trace[j + 1] == t0[j + 1]);
                    assert(trace[j] == t0[j]);
                } else {
                    assert(trace[j] == before);
                }
            }
        }
        i = i + 1;
    }
    let ghost pre = r.out;
    let ghost last = r;
    r.flush();
    assert(parsed.frontmatter@.len() > 0 ==> r.out.lines@[0] == pre.lines@[0] && r.out.source_line@[0] == pre.source_line@[0]);
    assert(render_trace(evs@, trace, text, *parsed, states@, width, fold_frontmatter, theme));
    assert(flush_out(trace.last(), out_view(r.out)));
    r.out
}

} // verus!
