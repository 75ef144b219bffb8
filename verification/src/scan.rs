//! What a walk of a root finds, and the rules that decide what it keeps.

use vstd::prelude::*;

use crate::text::{
    ascii_lowercase, chars_of, ends_with, starts_with, to_lowercase, trim, trim_chars, unicode_lowercase, views,
};

verus! {

#[derive(Debug, Clone, Copy, PartialEq, Eq, Structural)]
pub enum Kind {
    Note,
    Attachment,
}

#[derive(Debug, Clone)]
pub struct Entry {
    /// Root-relative, `/`-separated.
    pub rel: String,
    pub kind: Kind,
    /// Covered by Obsidian's Excluded files: resolvable, never parsed or shown.
    pub excluded: bool,
    pub mtime_ns: u128,
    pub size: u64,
}

#[derive(Debug)]
pub struct Scan {
    pub entries: Vec<Entry>,
    /// `userIgnoreFilters` entries knapp does not apply (`/regex/`).
    pub skipped_filters: Vec<String>,
}

/// A folder (`dir/`, with its slash) that an exclude entry ending in `/`
/// covers.
pub open spec fn excluded_dir_of(dir_rel: Seq<char>, exclude: Seq<Seq<char>>) -> bool {
    exists|i: int| 0 <= i < exclude.len() && ends_with(#[trigger] exclude[i], seq!['/']) && starts_with(dir_rel, exclude[i])
}

pub fn excluded_dir(dir_rel: &str, exclude: &[String]) -> (r: bool)
    ensures
        r == excluded_dir_of(dir_rel@, views(exclude@)),
{
    let d = chars_of(dir_rel);
    let mut i: usize = 0;
    while i < exclude.len()
        invariant
            i <= exclude@.len(),
            d@ == dir_rel@,
            forall|k: int| 0 <= k < i ==> !(ends_with(#[trigger] views(exclude@)[k], seq!['/']) && starts_with(dir_rel@, views(exclude@)[k])),
        decreases exclude.len() - i,
    {
        let e = chars_of(exclude[i].as_str());
        assert(views(exclude@)[i as int] == e@);
        if crate::index::ends_with_chars_pub(e.as_slice(), '/') && crate::index::starts_with_chars_pub(d.as_slice(), e.as_slice()) {
            return true;
        }
        i = i + 1;
    }
    false
}

/// A file that an exclude entry not ending in `/` names exactly.
pub open spec fn excluded_file_of(rel: Seq<char>, exclude: Seq<Seq<char>>) -> bool {
    exists|i: int| 0 <= i < exclude.len() && !ends_with(#[trigger] exclude[i], seq!['/']) && exclude[i] == rel
}

pub fn excluded_file(rel: &str, exclude: &[String]) -> (r: bool)
    ensures
        r == excluded_file_of(rel@, views(exclude@)),
{
    let d = chars_of(rel);
    let mut i: usize = 0;
    while i < exclude.len()
        invariant
            i <= exclude@.len(),
            d@ == rel@,
            forall|k: int| 0 <= k < i ==> !(!ends_with(#[trigger] views(exclude@)[k], seq!['/']) && views(exclude@)[k] == rel@),
        decreases exclude.len() - i,
    {
        let e = chars_of(exclude[i].as_str());
        assert(views(exclude@)[i as int] == e@);
        if !crate::index::ends_with_chars_pub(e.as_slice(), '/') && crate::text::chars_eq(e.as_slice(), d.as_slice()) {
            return true;
        }
        i = i + 1;
    }
    false
}

/// Notes are the files named `*.md`, in any ASCII case.
pub open spec fn kind_of(name: Seq<char>) -> Kind {
    if ends_with(ascii_lowercase(name), seq!['.', 'm', 'd']) {
        Kind::Note
    } else {
        Kind::Attachment
    }
}

pub fn kind_for(name: &str) -> (r: Kind)
    ensures
        r == kind_of(name@),
{
    let n = chars_of(name);
    let low = crate::text::ascii_lowercase_exec(n.as_slice());
    proof {
        reveal_strlit(".md");
        assert(".md"@ =~= seq!['.', 'm', 'd']);
    }
    if crate::text::ends_with_exec(low.as_slice(), ".md") {
        Kind::Note
    } else {
        Kind::Attachment
    }
}

/// Obsidian's Excluded files cover a path whose lowercase starts with one
/// of the (lowercased) filters.
pub open spec fn ignored_of(rel: Seq<char>, filters: Seq<Seq<char>>) -> bool {
    exists|i: int| 0 <= i < filters.len() && starts_with(unicode_lowercase(rel), #[trigger] filters[i])
}

pub fn ignored(rel: &str, filters: &[String]) -> (r: bool)
    ensures
        r == ignored_of(rel@, views(filters@)),
{
    let low = to_lowercase(rel);
    let l = chars_of(low.as_str());
    let mut i: usize = 0;
    while i < filters.len()
        invariant
            i <= filters@.len(),
            l@ == unicode_lowercase(rel@),
            forall|k: int| 0 <= k < i ==> !starts_with(unicode_lowercase(rel@), #[trigger] views(filters@)[k]),
        decreases filters.len() - i,
    {
        let f = chars_of(filters[i].as_str());
        assert(views(filters@)[i as int] == f@);
        if crate::index::starts_with_chars_pub(l.as_slice(), f.as_slice()) {
            return true;
        }
        i = i + 1;
    }
    false
}

/// Obsidian's `userIgnoreFilters`, trimmed, blanks dropped: `/regex/`
/// filters are skipped, the rest lowercased as path prefixes.
pub open spec fn split_filters_of(filters: Seq<Seq<char>>) -> (Seq<Seq<char>>, Seq<Seq<char>>)
    decreases filters.len(),
{
    if filters.len() == 0 {
        (seq![], seq![])
    } else {
        let (p, s) = split_filters_of(filters.drop_last());
        let f = trim(filters.last());
        if f.len() == 0 {
            (p, s)
        } else if crate::text::bytes_of(f).len() > 2 && f[0] == '/' && f.last() == '/' {
            (p, s.push(f))
        } else {
            (p.push(unicode_lowercase(f)), s)
        }
    }
}

/// The path-prefix filters to apply, and the `/regex/` filters skipped.
pub fn split_filters(filters: &[String]) -> (r: (Vec<String>, Vec<String>))
    ensures
        (views(r.0@), views(r.1@)) == split_filters_of(views(filters@)),
{
    let ghost fv = views(filters@);
    let mut prefixes: Vec<String> = Vec::new();
    let mut skipped: Vec<String> = Vec::new();
    let mut i: usize = 0;
    while i < filters.len()
        invariant
            i <= filters@.len(),
            fv == views(filters@),
            (views(prefixes@), views(skipped@)) == split_filters_of(fv.take(i as int)),
        decreases filters.len() - i,
    {
        assert(fv.take(i + 1).drop_last() =~= fv.take(i as int));
        assert(fv.take(i + 1).last() == filters@[i as int]@);
        let c = chars_of(filters[i].as_str());
        let f = trim_chars(c.as_slice());
        let fs = crate::text::string_of(f);
        if f.len() > 0 {
            let nbytes = fs.as_str().as_bytes().len();
            if nbytes > 2 && f[0] == '/' && f[f.len() - 1] == '/' {
                let ghost before = views(skipped@);
                skipped.push(fs);
                assert(views(skipped@) =~= before.push(f@));
            } else {
                let low = to_lowercase(fs.as_str());
                let ghost before = views(prefixes@);
                prefixes.push(low);
                assert(views(prefixes@) =~= before.push(unicode_lowercase(f@)));
            }
        }
        i = i + 1;
    }
    assert(fv.take(filters@.len() as int) =~= fv);
    (prefixes, skipped)
}

/// What serde_json reads of Obsidian's `app.json`: `None` when the text is
/// not JSON or has no `userIgnoreFilters` array; else each of its items,
/// where it is a string.
pub uninterp spec fn ignore_filters_of(text: Seq<char>) -> Option<Seq<Option<Seq<char>>>>;

/// The items as plain values.
pub open spec fn opt_views(items: Seq<Option<String>>) -> Seq<Option<Seq<char>>> {
    items.map_values(|o: Option<String>| crate::text::opt_string_view(o))
}

/// serde_json's `from_str` into a `Value`, then `get("userIgnoreFilters")`,
/// `as_array` and `as_str` on each item. The contract names the result and
/// says no more of it.
#[verifier::external_body]
fn ignore_filters(text: &str) -> (r: Option<Vec<Option<String>>>)
    ensures
        match r {
            Some(v) => ignore_filters_of(text@) == Some(opt_views(v@)),
            None => ignore_filters_of(text@) is None,
        },
{
    let v: serde_json::Value = serde_json::from_str(text).ok()?;
    let items = v.get("userIgnoreFilters").and_then(serde_json::Value::as_array)?;
    Some(items.iter().map(|i| i.as_str().map(str::to_string)).collect())
}

/// The strings among the items, in order.
pub open spec fn strings_of(items: Seq<Option<Seq<char>>>) -> Seq<Seq<char>>
    decreases items.len(),
{
    if items.len() == 0 {
        seq![]
    } else {
        match items.last() {
            Some(s) => strings_of(items.drop_last()).push(s),
            None => strings_of(items.drop_last()),
        }
    }
}

/// The filters that Obsidian's `app.json` text gives: its
/// `userIgnoreFilters` strings split into path prefixes and skipped
/// `/regex/` filters; none when it is not JSON or has no such array.
pub open spec fn obsidian_filters_of(text: Seq<char>) -> (Seq<Seq<char>>, Seq<Seq<char>>) {
    match ignore_filters_of(text) {
        Some(items) => split_filters_of(strings_of(items)),
        None => (seq![], seq![]),
    }
}

/// Obsidian's Excluded files from the text of `.obsidian/app.json`:
/// path-prefix filters, lowercased, and the `/regex/` filters knapp skips.
pub fn obsidian_filters(text: &str) -> (r: (Vec<String>, Vec<String>))
    ensures
        (views(r.0@), views(r.1@)) == obsidian_filters_of(text@),
{
    let items = match ignore_filters(text) {
        Some(items) => items,
        None => return (Vec::new(), Vec::new()),
    };
    let ghost iv = opt_views(items@);
    let mut strings: Vec<String> = Vec::new();
    let mut i: usize = 0;
    while i < items.len()
        invariant
            i <= items@.len(),
            iv == opt_views(items@),
            views(strings@) == strings_of(iv.take(i as int)),
        decreases items.len() - i,
    {
        assert(iv.take(i + 1).drop_last() =~= iv.take(i as int));
        assert(iv.take(i + 1).last() == crate::text::opt_string_view(items@[i as int]));
        if let Some(f) = &items[i] {
            let ghost before = views(strings@);
            strings.push(crate::text::owned(f.as_str()));
            assert(views(strings@) =~= before.push(f@));
        }
        i = i + 1;
    }
    assert(iv.take(items@.len() as int) =~= iv);
    split_filters(strings.as_slice())
}

/// What a walk does with a directory entry.
#[derive(Debug)]
pub enum Visit {
    /// Leave it out.
    Skip,
    /// Walk into the directory, by its path with a trailing `/`.
    Descend(String),
    /// Keep the file at this path, marked excluded when Obsidian's filters
    /// name it.
    Keep { rel: String, excluded: bool, kind: Kind },
}

/// Names starting with `.` are always skipped.
pub open spec fn hidden(name: Seq<char>) -> bool {
    name.len() > 0 && name[0] == '.'
}

/// Whether the walk always skips `name`.
pub fn hidden_name(name: &str) -> (r: bool)
    ensures
        r == hidden(name@),
{
    let nc = chars_of(name);
    nc.len() > 0 && nc[0] == '.'
}

/// What the walk does with entry `name` under the directory at `prefix`:
/// hidden names and excluded paths are skipped; a directory is walked; a
/// file is kept.
pub fn visit(prefix: &str, name: &str, is_dir: bool, exclude: &[String], ignore: &[String]) -> (r: Visit)
    ensures
        hidden(name@) ==> r is Skip,
        !hidden(name@) && is_dir ==> match r {
            Visit::Skip => excluded_dir_of(prefix@ + name@ + "/"@, views(exclude@)),
            Visit::Descend(d) => !excluded_dir_of(prefix@ + name@ + "/"@, views(exclude@)) && d@ == prefix@ + name@ + "/"@,
            Visit::Keep { .. } => false,
        },
        !hidden(name@) && !is_dir ==> match r {
            Visit::Skip => excluded_file_of(prefix@ + name@, views(exclude@)),
            Visit::Descend(_) => false,
            Visit::Keep { rel, excluded, kind } => !excluded_file_of(prefix@ + name@, views(exclude@)) && rel@ == prefix@
                + name@ && excluded == ignored_of(prefix@ + name@, views(ignore@)) && kind == kind_of(name@),
        },
{
    if hidden_name(name) {
        return Visit::Skip;
    }
    let mut rel = crate::text::owned(prefix);
    rel.append(name);
    if is_dir {
        let mut dir_rel = rel;
        dir_rel.append("/");
        if excluded_dir(dir_rel.as_str(), exclude) {
            return Visit::Skip;
        }
        return Visit::Descend(dir_rel);
    }
    if excluded_file(rel.as_str(), exclude) {
        return Visit::Skip;
    }
    let excluded = ignored(rel.as_str(), ignore);
    let kind = kind_for(name);
    Visit::Keep { rel, excluded, kind }
}

} // verus!
