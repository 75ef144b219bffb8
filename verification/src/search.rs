//! Full-text search over the indexed notes: what matches in one note, and
//! what one `rg --json` record says.

use vstd::prelude::*;

use crate::offsets::{boff, Src};
use crate::text::views;
use crate::text::{
    chars_of, contains, first_at, has_char, occurs_at, owned, string_of, to_lowercase, unicode_lowercase,
    unicode_uppercase,
};

verus! {

pub const MAX_RESULTS: usize = 500;

#[derive(Debug, Clone, PartialEq, Eq)]
pub struct Match {
    pub rel: String,
    pub line: u32,
    /// The matching line, without its line ending.
    pub text: String,
    /// Byte ranges of the matches within `text`.
    pub ranges: Vec<std::ops::Range<usize>>,
}

/// A match as plain values.
pub struct MatchView {
    pub rel: Seq<char>,
    pub line: u32,
    pub text: Seq<char>,
    pub ranges: Seq<(usize, usize)>,
}

impl View for Match {
    type V = MatchView;

    open spec fn view(&self) -> MatchView {
        MatchView {
            rel: self.rel@,
            line: self.line,
            text: self.text@,
            ranges: self.ranges@.map_values(|r: std::ops::Range<usize>| (r.start, r.end)),
        }
    }
}

/// A query with an uppercase letter is matched case-sensitively.
pub open spec fn case_sensitive_of(query: Seq<char>) -> bool {
    exists|i: int| 0 <= i < query.len() && unicode_uppercase(#[trigger] query[i])
}

pub fn case_sensitive(query: &str) -> (r: bool)
    ensures
        r == case_sensitive_of(query@),
{
    let q = chars_of(query);
    let mut i: usize = 0;
    while i < q.len()
        invariant
            i <= q@.len(),
            q@ == query@,
            forall|k: int| 0 <= k < i ==> !unicode_uppercase(#[trigger] q@[k]),
        decreases q.len() - i,
    {
        if crate::text::is_uppercase(q[i]) {
            return true;
        }
        i = i + 1;
    }
    false
}

/// `str::lines`: split at `\n`, a `\r` before it dropped, no line after a
/// final `\n`.
pub open spec fn lines_of(s: Seq<char>) -> Seq<Seq<char>>
    decreases s.len(),
{
    if s.len() == 0 {
        seq![]
    } else if has_char(s, '\n') {
        let k = first_at(s, '\n');
        if 0 <= k < s.len() {
            let line = s.take(k);
            let line = if line.len() > 0 && line.last() == '\r' { line.drop_last() } else { line };
            seq![line] + lines_of(s.skip(k + 1))
        } else {
            seq![]
        }
    } else {
        seq![s]
    }
}

/// Where `needle` occurs in `hay` from char `i` on, left to right, without
/// overlaps, as `str::match_indices` finds it.
pub open spec fn match_starts(hay: Seq<char>, needle: Seq<char>, i: int) -> Seq<int>
    decreases hay.len() - i,
{
    if needle.len() == 0 || i < 0 || i + needle.len() > hay.len() {
        seq![]
    } else if occurs_at(hay, needle, i) {
        seq![i] + match_starts(hay, needle, i + needle.len())
    } else {
        match_starts(hay, needle, i + 1)
    }
}

/// The byte ranges of the matches.
pub open spec fn match_ranges(hay: Seq<char>, needle: Seq<char>) -> Seq<(usize, usize)> {
    match_starts(hay, needle, 0).map_values(|p: int| (boff(hay, p) as usize, boff(hay, p + needle.len()) as usize))
}

/// Line `i` (from 0) of a note, as a match when it holds the query.
pub open spec fn line_match(rel: Seq<char>, line: Seq<char>, i: int, query: Seq<char>) -> Option<MatchView> {
    let sensitive = case_sensitive_of(query);
    let needle = if sensitive { query } else { unicode_lowercase(query) };
    let hay = if sensitive { line } else { unicode_lowercase(line) };
    if !contains(hay, needle) {
        None
    } else {
        Some(MatchView {
            rel,
            line: ((i as u32) + 1) as u32,
            text: line,
            ranges: if crate::text::bytes_of(hay).len() == crate::text::bytes_of(line).len() {
                match_ranges(hay, needle)
            } else {
                seq![]
            },
        })
    }
}

/// The matches in lines `i..` of a note.
pub open spec fn note_matches_from(rel: Seq<char>, lines: Seq<Seq<char>>, i: int, query: Seq<char>) -> Seq<MatchView>
    decreases lines.len() - i,
{
    if i < 0 || i >= lines.len() {
        seq![]
    } else {
        match line_match(rel, lines[i], i, query) {
            Some(m) => seq![m] + note_matches_from(rel, lines, i + 1, query),
            None => note_matches_from(rel, lines, i + 1, query),
        }
    }
}

/// The built-in search of one note: each line holding the query (smart
/// case), with the matches marked when lowercasing kept the line's length.
pub open spec fn note_matches_of(rel: Seq<char>, text: Seq<char>, query: Seq<char>) -> Seq<MatchView> {
    if query.len() == 0 {
        seq![]
    } else {
        note_matches_from(rel, lines_of(text), 0, query)
    }
}

proof fn lemma_sensitive_lines(rel: Seq<char>, lines: Seq<Seq<char>>, i: int, query: Seq<char>)
    requires
        exists|k: int| 0 <= k < query.len() && unicode_uppercase(#[trigger] query[k]),
    ensures
        forall|m: int|
            0 <= m < note_matches_from(rel, lines, i, query).len() ==> contains(
                (#[trigger] note_matches_from(rel, lines, i, query)[m]).text,
                query,
            ),
    decreases lines.len() - i,
{
    if 0 <= i < lines.len() {
        lemma_sensitive_lines(rel, lines, i + 1, query);
        let rest = note_matches_from(rel, lines, i + 1, query);
        match line_match(rel, lines[i], i, query) {
            Some(x) => {
                assert(case_sensitive_of(query));
                assert forall|m: int|
                    0 <= m < note_matches_from(rel, lines, i, query).len() implies contains(
                    (#[trigger] note_matches_from(rel, lines, i, query)[m]).text,
                    query,
                ) by {
                    if m > 0 {
                        assert(note_matches_from(rel, lines, i, query)[m] == rest[m - 1]);
                    }
                }
            },
            None => {},
        }
    }
}

/// Smart case: a query with an uppercase char anywhere in it is matched
/// case-sensitively, so every line the search of a note lists holds the
/// query exactly as written.
pub proof fn lemma_uppercase_matches_exactly(rel: Seq<char>, text: Seq<char>, query: Seq<char>)
    requires
        exists|k: int| 0 <= k < query.len() && unicode_uppercase(#[trigger] query[k]),
    ensures
        forall|m: int|
            0 <= m < note_matches_of(rel, text, query).len() ==> contains(
                (#[trigger] note_matches_of(rel, text, query)[m]).text,
                query,
            ),
{
    lemma_sensitive_lines(rel, lines_of(text), 0, query);
}

proof fn lemma_lines_listed(rel: Seq<char>, lines: Seq<Seq<char>>, i: int, query: Seq<char>)
    requires
        0 <= i,
    ensures
        (forall|k: int| 0 <= k < query.len() ==> !unicode_uppercase(#[trigger] query[k])) ==> forall|m: int|
            0 <= m < note_matches_from(rel, lines, i, query).len() ==> contains(
                unicode_lowercase((#[trigger] note_matches_from(rel, lines, i, query)[m]).text),
                unicode_lowercase(query),
            ),
        (exists|k: int| 0 <= k < query.len() && unicode_uppercase(#[trigger] query[k])) ==> forall|j: int|
            i <= j < lines.len() && contains(#[trigger] lines[j], query) ==> exists|m: int|
                0 <= m < note_matches_from(rel, lines, i, query).len() && (#[trigger] note_matches_from(
                    rel,
                    lines,
                    i,
                    query,
                )[m]).text == lines[j],
    decreases lines.len() - i,
{
    if i < lines.len() {
        lemma_lines_listed(rel, lines, i + 1, query);
        let all = note_matches_from(rel, lines, i, query);
        let rest = note_matches_from(rel, lines, i + 1, query);
        if forall|k: int| 0 <= k < query.len() ==> !unicode_uppercase(#[trigger] query[k]) {
            assert(!case_sensitive_of(query));
            assert forall|m: int| 0 <= m < all.len() implies contains(
                unicode_lowercase((#[trigger] all[m]).text),
                unicode_lowercase(query),
            ) by {
                if line_match(rel, lines[i], i, query) is Some && m > 0 {
                    assert(all[m] == rest[m - 1]);
                } else if line_match(rel, lines[i], i, query) is None {
                    assert(all[m] == rest[m]);
                }
            }
        }
        if exists|k: int| 0 <= k < query.len() && unicode_uppercase(#[trigger] query[k]) {
            assert(case_sensitive_of(query));
            assert forall|j: int| i <= j < lines.len() && contains(#[trigger] lines[j], query) implies exists|m: int|
                0 <= m < all.len() && (#[trigger] all[m]).text == lines[j] by {
                if j == i {
                    assert(all[0].text == lines[i]);
                } else {
                    let m = choose|m: int| 0 <= m < rest.len() && (#[trigger] rest[m]).text == lines[j];
                    if line_match(rel, lines[i], i, query) is Some {
                        assert(all[m + 1] == rest[m]);
                    } else {
                        assert(all[m] == rest[m]);
                    }
                }
            }
        }
    }
}

/// Smart case, the other way: a query with no uppercase char is matched
/// ignoring case, so every line listed holds the query once both are
/// lowercased; and a query with an uppercase char lists every line that
/// holds it as written.
pub proof fn lemma_smart_case(rel: Seq<char>, text: Seq<char>, query: Seq<char>)
    ensures
        (forall|k: int| 0 <= k < query.len() ==> !unicode_uppercase(#[trigger] query[k])) ==> forall|m: int|
            0 <= m < note_matches_of(rel, text, query).len() ==> contains(
                unicode_lowercase((#[trigger] note_matches_of(rel, text, query)[m]).text),
                unicode_lowercase(query),
            ),
        (exists|k: int| 0 <= k < query.len() && unicode_uppercase(#[trigger] query[k])) ==> forall|j: int|
            0 <= j < lines_of(text).len() && contains(#[trigger] lines_of(text)[j], query) ==> exists|m: int|
                0 <= m < note_matches_of(rel, text, query).len() && (#[trigger] note_matches_of(rel, text, query)[m]).text
                    == lines_of(text)[j],
{
    lemma_lines_listed(rel, lines_of(text), 0, query);
    if exists|k: int| 0 <= k < query.len() && unicode_uppercase(#[trigger] query[k]) {
        assert(query.len() > 0);
        assert(note_matches_of(rel, text, query) == note_matches_from(rel, lines_of(text), 0, query));
    }
}

/// The matches as plain values.
pub open spec fn match_views(ms: Seq<Match>) -> Seq<MatchView> {
    ms.map_values(|m: Match| m@)
}

fn lines_exec(s: &[char]) -> (r: Vec<Vec<char>>)
    ensures
        r@.map_values(|v: Vec<char>| v@) == lines_of(s@),
{
    let mut out: Vec<Vec<char>> = Vec::new();
    let mut a: usize = 0;
    assert(s@.skip(0) =~= s@);
    while a < s.len()
        invariant
            a <= s@.len(),
            out@.map_values(|v: Vec<char>| v@) + lines_of(s@.skip(a as int)) == lines_of(s@),
        decreases s.len() - a,
    {
        let rest = crate::text::slice_range(s, a, s.len());
        assert(rest@ =~= s@.skip(a as int));
        let ghost before = out@.map_values(|v: Vec<char>| v@);
        match crate::text::find_char(rest, '\n') {
            Some(k) => {
                let mut e = k;
                if e > 0 && rest[e - 1] == '\r' {
                    e = e - 1;
                }
                let line = vstd::slice::slice_to_vec(crate::text::slice_range(rest, 0, e));
                assert(rest@.take(k as int).len() > 0 && rest@.take(k as int).last() == '\r' ==> line@ =~= rest@.take(k as int).drop_last());
                assert(!(rest@.take(k as int).len() > 0 && rest@.take(k as int).last() == '\r') ==> line@ =~= rest@.take(k as int));
                out.push(line);
                assert(rest@.skip(k + 1) =~= s@.skip(a + k + 1));
                assert(out@.map_values(|v: Vec<char>| v@) =~= before.push(line@));
                assert(before.push(line@) + lines_of(s@.skip(a + k + 1)) =~= before + (seq![line@] + lines_of(rest@.skip(k + 1))));
                a = a + k + 1;
            },
            None => {
                let line = vstd::slice::slice_to_vec(rest);
                out.push(line);
                assert(out@.map_values(|v: Vec<char>| v@) =~= before.push(rest@));
                assert(out@.map_values(|v: Vec<char>| v@) =~= before + lines_of(rest@));
                return out;
            },
        }
    }
    assert(lines_of(s@.skip(a as int)) =~= Seq::<Seq<char>>::empty());
    assert(out@.map_values(|v: Vec<char>| v@) =~= out@.map_values(|v: Vec<char>| v@) + Seq::<Seq<char>>::empty());
    out
}

fn occurs_exec(hay: &[char], needle: &[char], i: usize) -> (r: bool)
    requires
        i + needle@.len() <= hay@.len(),
    ensures
        r == occurs_at(hay@, needle@, i as int),
{
    assert(hay@.len() == hay.len());
    let piece = crate::text::slice_range(hay, i, i + needle.len());
    crate::text::chars_eq(piece, needle)
}

fn match_ranges_exec(hay: &str, needle: &[char]) -> (r: Vec<std::ops::Range<usize>>)
    ensures
        r@.map_values(|x: std::ops::Range<usize>| (x.start, x.end)) == match_ranges(hay@, needle@),
{
    let src = Src::new(hay);
    let h = src.chars.as_slice();
    let n = needle.len();
    let mut out: Vec<std::ops::Range<usize>> = Vec::new();
    let ghost starts = match_starts(h@, needle@, 0);
    let ghost f = |p: int| (boff(h@, p) as usize, boff(h@, p + needle@.len()) as usize);
    if n == 0 || n > h.len() {
        assert(out@.map_values(|x: std::ops::Range<usize>| (x.start, x.end)) =~= match_ranges(hay@, needle@));
        return out;
    }
    let mut i: usize = 0;
    while i <= h.len() - n
        invariant
            src.wf(),
            h@ == src.chars@,
            h@ == hay@,
            n == needle@.len(),
            0 < n <= h@.len(),
            i <= h@.len() - n + 1,
            f == (|p: int| (boff(h@, p) as usize, boff(h@, p + needle@.len()) as usize)),
            out@.map_values(|x: std::ops::Range<usize>| (x.start, x.end)) + match_starts(h@, needle@, i as int).map_values(f)
                == match_starts(h@, needle@, 0).map_values(f),
        decreases h.len() + 1 - i,
    {
        let ghost before = out@.map_values(|x: std::ops::Range<usize>| (x.start, x.end));
        if occurs_exec(h, needle, i) {
            let r = std::ops::Range { start: src.offs[i], end: src.offs[i + n] };
            out.push(r);
            assert(out@.map_values(|x: std::ops::Range<usize>| (x.start, x.end)) =~= before.push(f(i as int)));
            assert(match_starts(h@, needle@, i as int).map_values(f) =~= seq![f(i as int)] + match_starts(h@, needle@, i + n).map_values(f));
            assert(before.push(f(i as int)) + match_starts(h@, needle@, i + n).map_values(f) =~= before + (seq![f(i as int)] + match_starts(h@, needle@, i + n).map_values(f)));
            if i + n > h.len() - n {
                assert(match_starts(h@, needle@, i + n) =~= Seq::<int>::empty());
                assert(out@.map_values(|x: std::ops::Range<usize>| (x.start, x.end)) =~= out@.map_values(|x: std::ops::Range<usize>| (x.start, x.end)) + Seq::<(usize, usize)>::empty());
                return out;
            }
            i = i + n;
        } else {
            i = i + 1;
        }
    }
    assert(match_starts(h@, needle@, i as int) =~= Seq::<int>::empty());
    assert(out@.map_values(|x: std::ops::Range<usize>| (x.start, x.end)) =~= out@.map_values(|x: std::ops::Range<usize>| (x.start, x.end)) + Seq::<(usize, usize)>::empty());
    out
}

/// The built-in search of one note: each line holding the query (smart
/// case), with the matches marked when lowercasing kept the line's length.
pub fn note_matches(rel: &str, text: &str, query: &str) -> (r: Vec<Match>)
    ensures
        match_views(r@) == note_matches_of(rel@, text@, query@),
{
    let mut out: Vec<Match> = Vec::new();
    if query.as_bytes().len() == 0 {
        assert(match_views(out@) =~= Seq::<MatchView>::empty());
        return out;
    }
    let sensitive = case_sensitive(query);
    let needle = if sensitive { owned(query) } else { to_lowercase(query) };
    let nc = chars_of(needle.as_str());
    let tc = chars_of(text);
    let lines = lines_exec(tc.as_slice());
    let ghost lv = lines@.map_values(|v: Vec<char>| v@);
    let mut i: usize = 0;
    assert(match_views(out@) + note_matches_from(rel@, lv, 0, query@) =~= note_matches_from(rel@, lv, 0, query@));
    while i < lines.len()
        invariant
            i <= lines@.len(),
            lv == lines@.map_values(|v: Vec<char>| v@),
            lv == lines_of(text@),
            query@.len() > 0,
            sensitive == case_sensitive_of(query@),
            needle@ == (if sensitive { query@ } else { unicode_lowercase(query@) }),
            nc@ == needle@,
            match_views(out@) + note_matches_from(rel@, lv, i as int, query@) == note_matches_from(rel@, lv, 0, query@),
        decreases lines.len() - i,
    {
        let line = string_of(lines[i].as_slice());
        assert(line@ == lv[i as int]);
        let hay = if sensitive { owned(line.as_str()) } else { to_lowercase(line.as_str()) };
        let ghost before = match_views(out@);
        if crate::text::str_contains(hay.as_str(), needle.as_str()) {
            let ranges = if hay.as_str().as_bytes().len() == line.as_str().as_bytes().len() {
                match_ranges_exec(hay.as_str(), nc.as_slice())
            } else {
                Vec::new()
            };
            assert(ranges@.map_values(|x: std::ops::Range<usize>| (x.start, x.end)) == (if crate::text::bytes_of(hay@).len() == crate::text::bytes_of(line@).len() {
                match_ranges(hay@, needle@)
            } else {
                seq![]
            }));
            let x = #[verifier::truncate] (i as u32);
            let ln: u32 = if x < u32::MAX { x + 1 } else { 0 };
            proof {
                assert(x < 0xffff_ffffu32 ==> ((x + 1) as u32) == x + 1) by (bit_vector);
                assert(x == 0xffff_ffffu32 ==> ((x + 1) as u32) == 0) by (bit_vector);
            }
            assert(ln == ((i as u32) + 1) as u32);
            let m = Match { rel: owned(rel), line: ln, text: line, ranges };
            out.push(m);
            assert(match_views(out@) =~= before.push(m@));
            assert(before.push(m@) + note_matches_from(rel@, lv, i + 1, query@) =~= before + (seq![m@] + note_matches_from(rel@, lv, i + 1, query@)));
        }
        i = i + 1;
    }
    assert(match_views(out@) =~= match_views(out@) + note_matches_from(rel@, lv, i as int, query@));
    out
}

/// The fields of one `rg --json` record that a match is made from; a field
/// is `None` when the record lacks it or holds another JSON type.
#[derive(Debug, Clone, PartialEq, Eq)]
pub struct RgRecord {
    /// `type`.
    pub kind: Option<String>,
    /// `data.path.text`: absent for paths that are not UTF-8.
    pub path_text: Option<String>,
    /// `data.lines.text`.
    pub lines_text: Option<String>,
    /// `data.line_number`.
    pub line_number: Option<u64>,
    /// `data.submatches`, each `start` and `end`.
    pub submatches: Option<Vec<(Option<u64>, Option<u64>)>>,
}

/// A record's fields as plain values, in the order `RgRecord` holds them.
pub open spec fn rg_record_view(rec: RgRecord) -> (
    Option<Seq<char>>,
    Option<Seq<char>>,
    Option<Seq<char>>,
    Option<u64>,
    Option<Seq<(Option<u64>, Option<u64>)>>,
) {
    (
        crate::text::opt_string_view(rec.kind),
        crate::text::opt_string_view(rec.path_text),
        crate::text::opt_string_view(rec.lines_text),
        rec.line_number,
        match rec.submatches {
            Some(v) => Some(v@),
            None => None,
        },
    )
}

/// What serde_json reads of one `rg --json` line: `None` when the line is
/// not JSON; else `type`, `data.path.text`, `data.lines.text`,
/// `data.line_number` and the `start` and `end` of each of
/// `data.submatches`, each where it is there with the JSON type it should
/// have.
pub uninterp spec fn rg_record_of(line: Seq<char>) -> Option<(
    Option<Seq<char>>,
    Option<Seq<char>>,
    Option<Seq<char>>,
    Option<u64>,
    Option<Seq<(Option<u64>, Option<u64>)>>,
)>;

/// serde_json's `from_str` into a `Value`, then `pointer`, `get`, `as_str`,
/// `as_u64` and `as_array` on it: the fields of one `rg --json` line. The
/// contract names the result and says no more of it.
#[verifier::external_body]
fn rg_record(line: &str) -> (r: Option<RgRecord>)
    ensures
        match r {
            Some(rec) => rg_record_of(line@) == Some(rg_record_view(rec)),
            None => rg_record_of(line@) is None,
        },
{
    let v: serde_json::Value = serde_json::from_str(line).ok()?;
    let s = |p: &str| v.pointer(p).and_then(serde_json::Value::as_str).map(str::to_string);
    let n = |x: Option<&serde_json::Value>| x.and_then(serde_json::Value::as_u64);
    let subs = v.pointer("/data/submatches").and_then(serde_json::Value::as_array);
    Some(RgRecord {
        kind: s("/type"),
        path_text: s("/data/path/text"),
        lines_text: s("/data/lines/text"),
        line_number: n(v.pointer("/data/line_number")),
        submatches: subs.map(|a| a.iter().map(|m| (n(m.get("start")), n(m.get("end")))).collect()),
    })
}

/// One `rg --json` line to a match; `None` for lines that are not JSON,
/// for other records and for paths that are not UTF-8 (given as
/// `path.bytes`).
pub fn parse_rg_match(line: &str) -> (r: Option<Match>)
    ensures
        match rg_record_of(line@) {
            Some(t) => match r {
                Some(m) => rg_match_of(t.0, t.1, t.2, t.3, t.4) == Some(m@),
                None => rg_match_of(t.0, t.1, t.2, t.3, t.4) is None,
            },
            None => r is None,
        },
{
    match rg_record(line) {
        Some(rec) => parse_rg_record(&rec),
        None => None,
    }
}

/// A search goes on after its `count`th match while the sink takes more,
/// fewer than `MAX_RESULTS` have come, and it was not cancelled.
pub fn search_goes_on(count: usize, sink_ok: bool, cancelled: bool) -> (r: bool)
    ensures
        r == (sink_ok && count < MAX_RESULTS && !cancelled),
{
    sink_ok && count < MAX_RESULTS && !cancelled
}

/// The submatches with both ends, and an end within the text.
pub open spec fn kept_ranges(subs: Seq<(Option<u64>, Option<u64>)>, text_len: int) -> Seq<(usize, usize)>
    decreases subs.len(),
{
    if subs.len() == 0 {
        seq![]
    } else {
        let r = kept_ranges(subs.drop_last(), text_len);
        match subs.last() {
            (Some(s), Some(e)) => if (e as usize) <= text_len {
                r.push((s as usize, e as usize))
            } else {
                r
            },
            _ => r,
        }
    }
}

/// A `match` record as a match: the path without `./`, the line without
/// its line ending; `None` for other records and missing fields.
pub open spec fn rg_match_of(
    kind: Option<Seq<char>>,
    path: Option<Seq<char>>,
    lines: Option<Seq<char>>,
    line_number: Option<u64>,
    subs: Option<Seq<(Option<u64>, Option<u64>)>>,
) -> Option<MatchView> {
    match (kind, path, lines, line_number, subs) {
        (Some(k), Some(p), Some(l), Some(n), Some(s)) => if k == seq!['m', 'a', 't', 'c', 'h'] {
            let rel = if crate::text::starts_with(p, seq!['.', '/']) { p.skip(2) } else { p };
            let text = strip_line_end(l);
            Some(MatchView { rel, line: n as u32, text, ranges: kept_ranges(s, crate::text::bytes_of(text).len() as int) })
        } else {
            None
        },
        _ => None,
    }
}

/// One `rg --json` record to a match; `None` for other records and for
/// paths that are not UTF-8.
pub fn parse_rg_record(rec: &RgRecord) -> (r: Option<Match>)
    ensures
        match r {
            Some(m) => rg_match_of(
                crate::text::opt_string_view(rec.kind),
                crate::text::opt_string_view(rec.path_text),
                crate::text::opt_string_view(rec.lines_text),
                rec.line_number,
                match rec.submatches { Some(v) => Some(v@), None => None },
            ) == Some(m@),
            None => rg_match_of(
                crate::text::opt_string_view(rec.kind),
                crate::text::opt_string_view(rec.path_text),
                crate::text::opt_string_view(rec.lines_text),
                rec.line_number,
                match rec.submatches { Some(v) => Some(v@), None => None },
            ) is None,
        },
{
    let (k, p, l, n, s) = match (&rec.kind, &rec.path_text, &rec.lines_text, rec.line_number, &rec.submatches) {
        (Some(k), Some(p), Some(l), Some(n), Some(s)) => (k, p, l, n, s),
        _ => return None,
    };
    proof {
        reveal_strlit("match");
        assert("match"@ =~= seq!['m', 'a', 't', 'c', 'h']);
    }
    if !crate::text::strs_eq(k.as_str(), "match") {
        return None;
    }
    let pc = chars_of(p.as_str());
    let rel: &[char] = if pc.len() >= 2 && pc[0] == '.' && pc[1] == '/' {
        crate::text::slice_range(pc.as_slice(), 2, pc.len())
    } else {
        pc.as_slice()
    };
    proof {
        if pc@.len() >= 2 {
            assert(pc@.take(2) =~= seq![pc@[0], pc@[1]]);
            if !(pc@[0] == '.' && pc@[1] == '/') {
                assert(pc@.take(2) != seq!['.', '/']) by {
                    if pc@.take(2) == seq!['.', '/'] {
                        assert(pc@.take(2)[0] == '.' && pc@.take(2)[1] == '/');
                    }
                }
            }
        }
        assert(pc@.len() >= 2 && pc@[0] == '.' && pc@[1] == '/' ==> rel@ =~= pc@.skip(2));
    }
    let lc = chars_of(l.as_str());
    let mut e = lc.len();
    assert(lc@.take(lc@.len() as int) =~= lc@);
    while e > 0 && (lc[e - 1] == '\n' || lc[e - 1] == '\r')
        invariant
            e <= lc@.len(),
            strip_line_end(lc@) == strip_line_end(lc@.take(e as int)),
        decreases e,
    {
        assert(lc@.take(e as int).drop_last() =~= lc@.take(e - 1));
        e = e - 1;
    }
    assert(lc@.take(lc@.len() as int) =~= lc@);
    let text = string_of(crate::text::slice_range(lc.as_slice(), 0, e));
    assert(text@ =~= lc@.take(e as int));
    let tlen = text.as_str().as_bytes().len();
    let mut ranges: Vec<std::ops::Range<usize>> = Vec::new();
    let mut j: usize = 0;
    while j < s.len()
        invariant
            j <= s@.len(),
            tlen == crate::text::bytes_of(text@).len(),
            ranges@.map_values(|x: std::ops::Range<usize>| (x.start, x.end)) == kept_ranges(s@.take(j as int), tlen as int),
        decreases s.len() - j,
    {
        assert(s@.take(j + 1).drop_last() =~= s@.take(j as int));
        assert(s@.take(j + 1).last() == s@[j as int]);
        let ghost before = ranges@.map_values(|x: std::ops::Range<usize>| (x.start, x.end));
        match s[j] {
            (Some(a), Some(b)) => {
                let bu = #[verifier::truncate] (b as usize);
                let au = #[verifier::truncate] (a as usize);
                if bu <= tlen {
                    ranges.push(std::ops::Range { start: au, end: bu });
                    assert(ranges@.map_values(|x: std::ops::Range<usize>| (x.start, x.end)) =~= before.push((au, bu)));
                }
            },
            _ => {},
        }
        j = j + 1;
    }
    assert(s@.take(s@.len() as int) =~= s@);
    let line = #[verifier::truncate] (n as u32);
    Some(Match { rel: string_of(rel), line, text, ranges })
}

/// The `rg` arguments for a search: JSON output, fixed strings, smart
/// case, Markdown files only, and the excluded folders skipped.
pub open spec fn rg_args_of(query: Seq<char>, exclude: Seq<Seq<char>>) -> Seq<Seq<char>> {
    seq![
        seq!['-', '-', 'j', 's', 'o', 'n'],
        seq!['-', '-', 'f', 'i', 'x', 'e', 'd', '-', 's', 't', 'r', 'i', 'n', 'g', 's'],
        seq!['-', '-', 's', 'm', 'a', 'r', 't', '-', 'c', 'a', 's', 'e'],
        seq!['-', '-', 'n', 'o', '-', 'i', 'g', 'n', 'o', 'r', 'e'],
        seq!['-', '-', 'i', 'g', 'l', 'o', 'b'],
        seq!['*', '.', 'm', 'd'],
    ] + exclude_globs(exclude) + seq![seq!['-', '-'], query, seq!['.']]
}

/// `--glob !dir/**` for each excluded folder (an entry ending in `/`).
pub open spec fn exclude_globs(exclude: Seq<Seq<char>>) -> Seq<Seq<char>>
    decreases exclude.len(),
{
    if exclude.len() == 0 {
        seq![]
    } else {
        let e = exclude.last();
        exclude_globs(exclude.drop_last()) + if crate::text::ends_with(e, seq!['/']) {
            seq![seq!['-', '-', 'g', 'l', 'o', 'b'], seq!['!'] + e + seq!['*', '*']]
        } else {
            seq![]
        }
    }
}

/// `s` without the `\n` and `\r` chars it ends with.
pub open spec fn strip_line_end(s: Seq<char>) -> Seq<char> {
    crate::text::trim_end_by(s, |c: char| c == '\n' || c == '\r')
}


fn lit(v: &mut Vec<String>, s: &str)
    ensures
        views(final(v)@) == views(old(v)@).push(s@),
{
    let ghost before = views(v@);
    v.push(crate::text::owned(s));
    assert(views(v@) =~= before.push(s@));
}

/// The arguments `rg` runs with for `query`, in the root, skipping the
/// excluded folders.
pub fn rg_args(query: &str, exclude: &[String]) -> (r: Vec<String>)
    ensures
        views(r@) == rg_args_of(query@, views(exclude@)),
{
    proof {
        reveal_strlit("--json");
        reveal_strlit("--fixed-strings");
        reveal_strlit("--smart-case");
        reveal_strlit("--no-ignore");
        reveal_strlit("--iglob");
        reveal_strlit("*.md");
        reveal_strlit("--glob");
        reveal_strlit("--");
        reveal_strlit(".");
        reveal_strlit("!");
        reveal_strlit("**");
        assert("--json"@ =~= seq!['-', '-', 'j', 's', 'o', 'n']);
        assert("--fixed-strings"@ =~= seq!['-', '-', 'f', 'i', 'x', 'e', 'd', '-', 's', 't', 'r', 'i', 'n', 'g', 's']);
        assert("--smart-case"@ =~= seq!['-', '-', 's', 'm', 'a', 'r', 't', '-', 'c', 'a', 's', 'e']);
        assert("--no-ignore"@ =~= seq!['-', '-', 'n', 'o', '-', 'i', 'g', 'n', 'o', 'r', 'e']);
        assert("--iglob"@ =~= seq!['-', '-', 'i', 'g', 'l', 'o', 'b']);
        assert("*.md"@ =~= seq!['*', '.', 'm', 'd']);
        assert("--glob"@ =~= seq!['-', '-', 'g', 'l', 'o', 'b']);
        assert("--"@ =~= seq!['-', '-']);
        assert("."@ =~= seq!['.']);
        assert("!"@ =~= seq!['!']);
        assert("**"@ =~= seq!['*', '*']);
    }
    let mut out: Vec<String> = Vec::new();
    lit(&mut out, "--json");
    lit(&mut out, "--fixed-strings");
    lit(&mut out, "--smart-case");
    lit(&mut out, "--no-ignore");
    lit(&mut out, "--iglob");
    lit(&mut out, "*.md");
    let ghost head = views(out@);
    assert(head =~= seq![
        seq!['-', '-', 'j', 's', 'o', 'n'],
        seq!['-', '-', 'f', 'i', 'x', 'e', 'd', '-', 's', 't', 'r', 'i', 'n', 'g', 's'],
        seq!['-', '-', 's', 'm', 'a', 'r', 't', '-', 'c', 'a', 's', 'e'],
        seq!['-', '-', 'n', 'o', '-', 'i', 'g', 'n', 'o', 'r', 'e'],
        seq!['-', '-', 'i', 'g', 'l', 'o', 'b'],
        seq!['*', '.', 'm', 'd'],
    ]);
    let mut i: usize = 0;
    while i < exclude.len()
        invariant
            i <= exclude@.len(),
            views(out@) == head + exclude_globs(views(exclude@).take(i as int)),
            "--glob"@ == seq!['-', '-', 'g', 'l', 'o', 'b'],
            "!"@ == seq!['!'],
            "**"@ == seq!['*', '*'],
        decreases exclude.len() - i,
    {
        assert(views(exclude@).take(i + 1).drop_last() =~= views(exclude@).take(i as int));
        assert(views(exclude@).take(i + 1).last() == exclude@[i as int]@);
        let e = exclude[i].as_str();
        let ec = crate::text::chars_of(e);
        if ec.len() > 0 && ec[ec.len() - 1] == '/' {
            assert(crate::text::ends_with(e@, seq!['/'])) by {
                assert(e@.skip(e@.len() - 1) =~= seq!['/']);
            }
            let ghost before = views(out@);
            lit(&mut out, "--glob");
            let mut g = crate::text::owned("!");
            g.append(e);
            g.append("**");
            let ghost gv = g@;
            out.push(g);
            assert(views(out@) =~= before.push("--glob"@).push(gv));
            assert(gv =~= seq!['!'] + e@ + seq!['*', '*']);
            assert(views(out@) =~= head + exclude_globs(views(exclude@).take(i + 1)));
        } else {
            assert(!crate::text::ends_with(e@, seq!['/'])) by {
                if e@.len() >= 1 {
                    assert(e@.skip(e@.len() - 1)[0] == e@[e@.len() - 1]);
                }
            }
            assert(views(out@) =~= head + exclude_globs(views(exclude@).take(i + 1)));
        }
        i = i + 1;
    }
    assert(views(exclude@).take(exclude@.len() as int) =~= views(exclude@));
    let ghost mid = views(out@);
    lit(&mut out, "--");
    let ghost q = views(out@);
    out.push(crate::text::owned(query));
    assert(views(out@) =~= q.push(query@));
    lit(&mut out, ".");
    assert(views(out@) =~= rg_args_of(query@, views(exclude@)));
    out
}

} // verus!
