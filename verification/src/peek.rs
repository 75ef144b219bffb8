//! `peek-selection` and `peek`: what to show.

use vstd::prelude::*;

use crate::parse::{percent_decode, percent_decoded};
use crate::text::{
    ascii_lowercase, ascii_lowercase_exec, before_first, before_first_exec, bytes_of, chars_eq, chars_of,
    ends_with, ends_with_exec, find_char, first_at, first_line, first_line_exec, has_char, is,
    is_control, opt_string_view, owned, slice_range, split_once, starts_with, starts_with_exec,
    string_of, to_lowercase, trim, trim_chars, unicode_control, unicode_lowercase,
};
use vstd::string::StringExecFns;

verus! {

/// Where a note to peek at is, with a `#fragment` to scroll to.
#[derive(Debug, Clone, PartialEq, Eq)]
pub struct Target {
    pub path: String,
    pub fragment: Option<String>,
}

/// A host name's first label.
pub open spec fn short_host(h: Seq<char>) -> Seq<char> {
    before_first(h, '.')
}

/// The host of a `file://` URL names this machine: empty, `localhost`, or
/// `hostname` (trimmed, any case), in full or by its first label.
pub open spec fn local_host(host: Seq<char>, hostname: Seq<char>) -> bool {
    let me = ascii_lowercase(trim(hostname));
    host.len() == 0 || host == "localhost"@ || host == me || (me.len() > 0 && host == short_host(me))
}

/// What `from_url` makes of `url`: the decoded path and a non-empty decoded
/// fragment, or the message it refuses with.
pub open spec fn url_target(url: Seq<char>, hostname: Seq<char>) -> Result<(Seq<char>, Option<Seq<char>>), Seq<char>> {
    if !starts_with(url, "file://"@) {
        Err("not a file URL: "@ + url)
    } else {
        let rest = url.skip("file://"@.len() as int);
        if !has_char(rest, '/') {
            Err("no path in "@ + url)
        } else {
            let host = ascii_lowercase(rest.take(first_at(rest, '/')));
            let path = rest.skip(first_at(rest, '/'));
            if !local_host(host, hostname) {
                Err("a link to another machine ("@ + host + ")"@)
            } else {
                match split_once(path, '#') {
                    Some((p, f)) => {
                        let fd = percent_decoded(f);
                        Ok((percent_decoded(p), if fd.len() > 0 { Some(fd) } else { None }))
                    },
                    None => Ok((percent_decoded(path), None)),
                }
            }
        }
    }
}

fn is_local(host: &[char], hostname: &str) -> (r: bool)
    ensures
        r == local_host(host@, hostname@),
{
    let hn = chars_of(hostname);
    let me = ascii_lowercase_exec(trim_chars(hn.as_slice()));
    if host.len() == 0 || is(host, "localhost") || chars_eq(host, me.as_slice()) {
        return true;
    }
    me.len() > 0 && chars_eq(host, before_first_exec(me.as_slice(), '.'))
}

/// A clicked `file://[host]/path[#fragment]`. The host must be empty,
/// `localhost`, or this machine (full name or its first label).
pub fn from_url(url: &str, hostname: &str) -> (r: Result<Target, String>)
    ensures
        match (r, url_target(url@, hostname@)) {
            (Ok(t), Ok((p, f))) => t.path@ == p && opt_string_view(t.fragment) == f,
            (Err(e), Err(m)) => e@ == m,
            _ => false,
        },
{
    let u = chars_of(url);
    let scheme = chars_of("file://");
    if !starts_with_exec(u.as_slice(), "file://") {
        let mut e = owned("not a file URL: ");
        e.append(url);
        return Err(e);
    }
    let rest = slice_range(u.as_slice(), scheme.len(), u.len());
    let slash = match find_char(rest, '/') {
        Some(i) => i,
        None => {
            let mut e = owned("no path in ");
            e.append(url);
            return Err(e);
        },
    };
    let host = ascii_lowercase_exec(slice_range(rest, 0, slash));
    let path = slice_range(rest, slash, rest.len());
    if !is_local(host.as_slice(), hostname) {
        let mut e = owned("a link to another machine (");
        let h = string_of(host.as_slice());
        e.append(h.as_str());
        e.append(")");
        return Err(e);
    }
    match find_char(path, '#') {
        Some(k) => {
            let p = string_of(slice_range(path, 0, k));
            let f = string_of(slice_range(path, k + 1, path.len()));
            let fd = percent_decode(f.as_str());
            let pd = percent_decode(p.as_str());
            let fragment = if fd.as_str().is_empty() { None } else { Some(fd) };
            Ok(Target { path: pd, fragment })
        },
        None => {
            let p = string_of(path);
            Ok(Target { path: percent_decode(p.as_str()), fragment: None })
        },
    }
}

/// `t` with `open` and `close` around it removed and what is inside
/// trimmed, when both are there.
pub open spec fn unwrap_pair(t: Seq<char>, open: Seq<char>, close: Seq<char>) -> Seq<char> {
    if starts_with(t, open) && ends_with(t.skip(open.len() as int), close) {
        trim(t.skip(open.len() as int).take(t.len() - open.len() - close.len()))
    } else {
        t
    }
}

/// Selected text as a link target: the first line, trimmed, with `![[…]]`,
/// `[[…]]`, backticks, and quotes around it removed in that order, cut at
/// `|`, and split at the first `#` (an empty fragment is none).
pub open spec fn selection(text: Seq<char>) -> (Seq<char>, Option<Seq<char>>) {
    let t = trim(first_line(text));
    let t = unwrap_pair(t, "![["@, "]]"@);
    let t = unwrap_pair(t, "[["@, "]]"@);
    let t = unwrap_pair(t, "`"@, "`"@);
    let t = unwrap_pair(t, "\""@, "\""@);
    let t = unwrap_pair(t, "'"@, "'"@);
    let t = before_first(t, '|');
    match split_once(t, '#') {
        Some((p, f)) => if f.len() > 0 { (p, Some(f)) } else { (p, None) },
        None => (t, None),
    }
}

fn unwrap_pair_exec(t: Vec<char>, open: &str, close: &str) -> (r: Vec<char>)
    ensures
        r@ == unwrap_pair(t@, open@, close@),
{
    let o = chars_of(open);
    let c = chars_of(close);
    if !starts_with_exec(t.as_slice(), open) {
        return t;
    }
    let rem = slice_range(t.as_slice(), o.len(), t.len());
    if !ends_with_exec(rem, close) {
        return t;
    }
    let inner = slice_range(rem, 0, rem.len() - c.len());
    assert(inner@ =~= t@.skip(o@.len() as int).take(t@.len() - o@.len() - c@.len()));
    vstd::slice::slice_to_vec(trim_chars(inner))
}

/// Selected text as a link target: the first line, trimmed, with `[[…]]`,
/// quotes, or backticks around it removed and any `|alias` dropped. Returns
/// the target and its `#fragment`.
pub fn clean_selection(text: &str) -> (r: (String, Option<String>))
    ensures
        (r.0@, opt_string_view(r.1)) == selection(text@),
{
    let all = chars_of(text);
    let t = vstd::slice::slice_to_vec(trim_chars(first_line_exec(all.as_slice())));
    let t = unwrap_pair_exec(t, "![[", "]]");
    let t = unwrap_pair_exec(t, "[[", "]]");
    let t = unwrap_pair_exec(t, "`", "`");
    let t = unwrap_pair_exec(t, "\"", "\"");
    let t = unwrap_pair_exec(t, "'", "'");
    let t = before_first_exec(t.as_slice(), '|');
    match find_char(t, '#') {
        Some(k) => {
            let p = string_of(slice_range(t, 0, k));
            if t.len() - k > 1 {
                (p, Some(string_of(slice_range(t, k + 1, t.len()))))
            } else {
                (p, None)
            }
        },
        None => (string_of(t), None),
    }
}

/// Punctuation a loose selection may end with.
pub open spec fn trailing_punct(c: char) -> bool {
    c == '.' || c == ',' || c == ';' || c == ':' || c == ')' || c == '!' || c == '?'
}

/// `s` without trailing punctuation.
pub open spec fn trim_punct(s: Seq<char>) -> Seq<char>
    decreases s.len(),
{
    if s.len() > 0 && trailing_punct(s.last()) {
        trim_punct(s.drop_last())
    } else {
        s
    }
}

fn trim_punct_exec(s: &[char]) -> (r: &[char])
    ensures
        r@ == trim_punct(s@),
{
    let mut j = s.len();
    assert(s@.take(j as int) =~= s@);
    while j > 0 && (s[j - 1] == '.' || s[j - 1] == ',' || s[j - 1] == ';' || s[j - 1] == ':' || s[j - 1]
        == ')' || s[j - 1] == '!' || s[j - 1] == '?')
        invariant
            j <= s@.len(),
            trim_punct(s@) == trim_punct(s@.take(j as int)),
        decreases j,
    {
        assert(s@.take(j as int).drop_last() =~= s@.take(j - 1));
        j = j - 1;
    }
    slice_range(s, 0, j)
}

/// Clipboard text worth peeking at: one line of at most 1024 bytes with no
/// control characters, trailing punctuation dropped, that is a
/// `[[wikilink]]` or whose target ends in `.md` in any case.
pub open spec fn shaped(text: Seq<char>) -> Option<Seq<char>> {
    let t = trim(text);
    if t.len() == 0 || bytes_of(t).len() > 1024 || exists|i: int| 0 <= i < t.len() && unicode_control(#[trigger] t[i]) {
        None
    } else {
        let t = trim_punct(t);
        let wikilink = starts_with(t, "[["@) || starts_with(t, "![["@);
        if wikilink || ends_with(unicode_lowercase(selection(t).0), ".md"@) {
            Some(t)
        } else {
            None
        }
    }
}

/// Clipboard text worth peeking at: one line, a `[[wikilink]]` or a path to
/// a `.md` file, with trailing punctuation from a loose selection dropped.
/// Anything else (a paragraph, a password, a URL) is `None`.
pub fn note_shaped(text: &str) -> (r: Option<String>)
    ensures
        opt_string_view(r) == shaped(text@),
{
    let all = chars_of(text);
    let t = trim_chars(all.as_slice());
    let ts = string_of(t);
    if t.len() == 0 || ts.as_str().as_bytes().len() > 1024 {
        return None;
    }
    let mut i: usize = 0;
    while i < t.len()
        invariant
            i <= t@.len(),
            t@ == trim(text@),
            forall|k: int| 0 <= k < i ==> !unicode_control(#[trigger] t@[k]),
        decreases t.len() - i,
    {
        if is_control(t[i]) {
            assert(0 <= i < t@.len() && unicode_control(t@[i as int]));
            return None;
        }
        i = i + 1;
    }
    let t = trim_punct_exec(t);
    let wikilink = starts_with_exec(t, "[[") || starts_with_exec(t, "![[");
    let ts = string_of(t);
    let (target, _) = clean_selection(ts.as_str());
    let lower = to_lowercase(target.as_str());
    let lc = chars_of(lower.as_str());
    if wikilink || ends_with_exec(lc.as_slice(), ".md") {
        Some(ts)
    } else {
        None
    }
}

} // verus!
