//! The subcommands' arguments and what they print, apart from reading the
//! tree and writing to the terminal.

use vstd::prelude::*;

use crate::index::{links_of, File, FileId, Fragment, Index, LoadStats, Resolved};
use crate::parse::Link;
use crate::scan::Kind;
use crate::tags::{TagNode, Target};
use crate::graph::dedup;
use crate::index::{lex_less, lex_less_exec};
use crate::order::{lemma_insert_lt, sort_lt};
use crate::text::{chars_of, decimal, string_of, trim, decimal_string, join_by, opt_string_view, owned, push_char, strs_eq, views};

verus! {

pub const USAGE: &'static str = "usage: knapp <command> [args]

commands:
  links FILE [--root NAME|PATH]           forward links, with resolution state
  backlinks FILE [--root NAME|PATH]       notes linking to FILE
  unresolved [--root NAME|PATH] [--json]  unresolved and ambiguous targets
  orphans [--root NAME|PATH]              notes nothing links to
  tags [--root NAME|PATH]                 tags with note counts
  graph FILE [--root NAME|PATH] [--hops N] [--dot]
                                          the local graph as a tree, or Graphviz
  pane [--root NAME|PATH]                 browse the notes in a terminal pane
  peek                                    the note in KNAPP_NOTE (herdr popup)
  open-pane                               herdr action: open, focus, or close the pane
  peek-selection                          herdr action: peek at a clicked or selected note
  index [--root NAME|PATH] [--rebuild] [--stats] [--watch]
                                          load the root and write the cache
  help                                    show this message
  version                                 print the version";

/// Whether every char is an ASCII digit.
pub open spec fn all_digits(s: Seq<char>) -> bool {
    forall|i: int| 0 <= i < s.len() ==> '0' <= #[trigger] s[i] <= '9'
}

/// The number ASCII digits spell.
pub open spec fn digits_value(s: Seq<char>) -> int
    decreases s.len(),
{
    if s.len() == 0 {
        0
    } else {
        digits_value(s.drop_last()) * 10 + (s.last() as int - 48)
    }
}

/// `str::parse::<u32>`: an optional `+`, then one or more digits, at most
/// `u32::MAX`.
pub open spec fn u32_of(s: Seq<char>) -> Option<u32> {
    let d = if s.len() > 0 && s[0] == '+' { s.drop_first() } else { s };
    if d.len() > 0 && all_digits(d) && digits_value(d) <= u32::MAX {
        Some(digits_value(d) as u32)
    } else {
        None
    }
}

proof fn lemma_digits_grow(s: Seq<char>, i: int, j: int)
    requires
        0 <= i <= j <= s.len(),
        all_digits(s),
    ensures
        0 <= digits_value(s.take(i)) <= digits_value(s.take(j)),
    decreases j - i,
{
    if i < j {
        lemma_digits_grow(s, i, j - 1);
        assert(s.take(j).drop_last() =~= s.take(j - 1));
        assert(s.take(j).last() == s[j - 1]);
    } else {
        lemma_digits_nonneg(s.take(i));
    }
}

proof fn lemma_digits_nonneg(s: Seq<char>)
    requires
        all_digits(s),
    ensures
        digits_value(s) >= 0,
    decreases s.len(),
{
    if s.len() > 0 {
        assert(all_digits(s.drop_last())) by {
            assert forall|i: int| 0 <= i < s.drop_last().len() implies '0' <= #[trigger] s.drop_last()[i] <= '9' by {
                assert(s.drop_last()[i] == s[i]);
            }
        }
        lemma_digits_nonneg(s.drop_last());
    }
}

/// Strs taken as chars.
pub open spec fn str_views(v: Seq<&str>) -> Seq<Seq<char>> {
    v.map_values(|f: &str| f@)
}

/// `str::parse::<u32>`.
pub fn parse_u32(s: &str) -> (r: Option<u32>)
    ensures
        r == u32_of(s@),
{
    let c = chars_of(s);
    let start: usize = if c.len() > 0 && c[0] == '+' { 1 } else { 0 };
    let ghost d = if s@.len() > 0 && s@[0] == '+' { s@.drop_first() } else { s@ };
    assert(d =~= c@.skip(start as int));
    if start == c.len() {
        return None;
    }
    let mut v: u64 = 0;
    let mut over = false;
    let mut i: usize = start;
    while i < c.len()
        invariant
            start <= i <= c@.len(),
            d == c@.skip(start as int),
            d == (if s@.len() > 0 && s@[0] == '+' { s@.drop_first() } else { s@ }),
            all_digits(d.take(i - start)),
            !over ==> v == digits_value(d.take(i - start)),
            !over ==> v <= u32::MAX,
            over ==> digits_value(d.take(i - start)) > u32::MAX,
        decreases c.len() - i,
    {
        let ch = c[i];
        if !('0' <= ch && ch <= '9') {
            assert(!all_digits(d)) by {
                assert(d[i - start] == ch);
            }
            return None;
        }
        let ghost k = (i - start) as int;
        assert(d.take(k + 1).drop_last() =~= d.take(k));
        assert(d.take(k + 1).last() == ch);
        assert(all_digits(d.take(k + 1))) by {
            assert forall|j: int| 0 <= j < k + 1 implies '0' <= #[trigger] d.take(k + 1)[j] <= '9' by {
                if j < k {
                    assert(d.take(k + 1)[j] == d.take(k)[j]);
                }
            }
        }
        if !over {
            let digit = (ch as u32 - 48) as u64;
            let next = v * 10 + digit;
            if next > 0xffff_ffff {
                over = true;
            } else {
                v = next;
            }
        } else {
            proof {
                lemma_digits_grow(d.take(k + 1), k, k + 1);
                assert(d.take(k + 1).take(k) =~= d.take(k));
                assert(d.take(k + 1).take(k + 1) =~= d.take(k + 1));
            }
        }
        i = i + 1;
    }
    assert(d.take(d.len() as int) =~= d);
    if over {
        None
    } else {
        Some(v as u32)
    }
}

/// A file's path relative to the root, `/`-separated: its components
/// after the root's, when the root's components begin its own.
pub open spec fn relative_of(root: Seq<char>, full: Seq<char>) -> Option<Seq<char>> {
    if crate::paths::comps_start_with(full, root) {
        Some(crate::paths::join_slash(crate::paths::path_comps(full).skip(crate::paths::path_comps(root).len() as int)))
    } else {
        None
    }
}

/// The root-relative path of `full` (both canonical); `None` outside the
/// root.
pub fn relative_to(root: &str, full: &str) -> (r: Option<String>)
    ensures
        opt_string_view(r) == relative_of(root@, full@),
{
    let fc = chars_of(full);
    let rc = chars_of(root);
    if !crate::paths::comps_start_with_exec(fc.as_slice(), rc.as_slice()) {
        return None;
    }
    let a = crate::paths::path_comps_exec(fc.as_slice());
    let b = crate::paths::path_comps_exec(rc.as_slice());
    assert(a@.map_values(|v: Vec<char>| v@) =~= crate::paths::path_comps(full@));
    assert(b@.map_values(|v: Vec<char>| v@) =~= crate::paths::path_comps(root@));
    let rel = crate::watch::rest_of(&a, b.len());
    let joined = crate::paths::join_slash_exec(rel.as_slice());
    Some(string_of(joined.as_slice()))
}

/// A subcommand's arguments as plain values.
pub struct ArgsView {
    pub file: Option<Seq<char>>,
    pub root: Option<Seq<char>>,
    pub hops: Option<u32>,
    pub flags: Seq<Seq<char>>,
}

/// A subcommand's arguments: the file it takes, `--root`, `--hops`, and
/// the boolean flags given, each once.
#[derive(Debug, Clone)]
pub struct Args {
    pub file: Option<String>,
    pub root: Option<String>,
    pub hops: Option<u32>,
    pub flags: Vec<String>,
}

pub open spec fn args_view(a: Args) -> ArgsView {
    ArgsView { file: opt_string_view(a.file), root: opt_string_view(a.root), hops: a.hops, flags: views(a.flags@) }
}

pub open spec fn no_args() -> ArgsView {
    ArgsView { file: None, root: None, hops: None, flags: seq![] }
}

/// Reads the arguments from `i` on, onto what was read before them.
/// `flags` lists the boolean flags the command accepts, such as `--json`.
pub open spec fn parse_from(args: Seq<Seq<char>>, i: int, wants_file: bool, flags: Seq<Seq<char>>, acc: ArgsView) -> Result<
    ArgsView,
    Seq<char>,
>
    decreases args.len() - i,
{
    if i < 0 || i >= args.len() {
        if wants_file && acc.file is None {
            Err("missing FILE\n"@ + USAGE@)
        } else {
            Ok(acc)
        }
    } else {
        let a = args[i];
        if a == "--hops"@ && flags.contains("--hops"@) {
            if i + 1 >= args.len() {
                Err("--hops needs a value"@)
            } else {
                match u32_of(args[i + 1]) {
                    None => Err("--hops: not a number: "@ + args[i + 1]),
                    Some(h) => parse_from(args, i + 2, wants_file, flags, ArgsView { hops: Some(h), ..acc }),
                }
            }
        } else if flags.contains(a) {
            let fl = if acc.flags.contains(a) { acc.flags } else { acc.flags.push(a) };
            parse_from(args, i + 1, wants_file, flags, ArgsView { flags: fl, ..acc })
        } else if a == "--root"@ {
            if i + 1 >= args.len() {
                Err("--root needs a value"@)
            } else {
                parse_from(args, i + 2, wants_file, flags, ArgsView { root: Some(args[i + 1]), ..acc })
            }
        } else if a.len() > 0 && a[0] == '-' {
            Err("unknown flag: "@ + a + "\n"@ + USAGE@)
        } else if wants_file && acc.file is None {
            parse_from(args, i + 1, wants_file, flags, ArgsView { file: Some(a), ..acc })
        } else {
            Err("unexpected argument: "@ + a + "\n"@ + USAGE@)
        }
    }
}

fn holds_str(v: &[&str], s: &str) -> (r: bool)
    ensures
        r == str_views(v@).contains(s@),
{
    let ghost vv = str_views(v@);
    let mut i: usize = 0;
    while i < v.len()
        invariant
            i <= v@.len(),
            vv == str_views(v@),
            forall|k: int| 0 <= k < i ==> vv[k] != s@,
        decreases v.len() - i,
    {
        if strs_eq(v[i], s) {
            assert(vv[i as int] == s@);
            return true;
        }
        i = i + 1;
    }
    false
}

fn holds_string(v: &Vec<String>, s: &str) -> (r: bool)
    ensures
        r == views(v@).contains(s@),
{
    let mut i: usize = 0;
    while i < v.len()
        invariant
            i <= v@.len(),
            forall|k: int| 0 <= k < i ==> views(v@)[k] != s@,
        decreases v.len() - i,
    {
        if strs_eq(v[i].as_str(), s) {
            assert(views(v@)[i as int] == s@);
            return true;
        }
        i = i + 1;
    }
    false
}

fn with_usage(head: &str, a: &str) -> (r: String)
    ensures
        r@ == head@ + a@ + "\n"@ + USAGE@,
{
    let mut s = owned(head);
    s.append(a);
    s.append("\n");
    s.append(USAGE);
    s
}

fn starts_with_dash(a: &str) -> (r: bool)
    ensures
        r == (a@.len() > 0 && a@[0] == '-'),
{
    let c = chars_of(a);
    c.len() > 0 && c[0] == '-'
}

/// Reads a subcommand's arguments. `flags` lists the boolean flags it
/// accepts, such as `--json`; `--hops` among them takes a number.
pub fn parse_args(args: &[String], wants_file: bool, flags: &[&str]) -> (r: Result<Args, String>)
    ensures
        match r {
            Ok(a) => parse_from(views(args@), 0, wants_file, str_views(flags@), no_args()) == Ok::<
                ArgsView,
                Seq<char>,
            >(args_view(a)),
            Err(e) => parse_from(views(args@), 0, wants_file, str_views(flags@), no_args()) == Err::<
                ArgsView,
                Seq<char>,
            >(e@),
        },
{
    let ghost av = views(args@);
    let ghost fl = str_views(flags@);
    let mut out = Args { file: None, root: None, hops: None, flags: Vec::new() };
    assert(args_view(out) == no_args()) by {
        assert(views(out.flags@) =~= Seq::<Seq<char>>::empty());
    }
    let mut i: usize = 0;
    while i < args.len()
        invariant
            i <= args@.len(),
            av == views(args@),
            fl == str_views(flags@),
            parse_from(av, 0, wants_file, fl, no_args()) == parse_from(av, i as int, wants_file, fl, args_view(out)),
        decreases args.len() - i,
    {
        let arg = args[i].as_str();
        assert(av[i as int] == arg@);
        proof {
            reveal_strlit("--hops");
            reveal_strlit("--root");
        }
        if strs_eq(arg, "--hops") && holds_str(flags, "--hops") {
            if i + 1 >= args.len() {
                return Err(owned("--hops needs a value"));
            }
            let v = args[i + 1].as_str();
            assert(av[i + 1] == v@);
            match parse_u32(v) {
                None => {
                    let mut e = owned("--hops: not a number: ");
                    e.append(v);
                    return Err(e);
                },
                Some(h) => {
                    out.hops = Some(h);
                },
            }
            i = i + 2;
        } else if holds_str(flags, arg) {
            if !holds_string(&out.flags, arg) {
                let ghost before = views(out.flags@);
                out.flags.push(owned(arg));
                assert(views(out.flags@) =~= before.push(arg@));
            }
            i = i + 1;
        } else if strs_eq(arg, "--root") {
            if i + 1 >= args.len() {
                return Err(owned("--root needs a value"));
            }
            assert(av[i + 1] == args@[i + 1]@);
            out.root = Some(args[i + 1].clone());
            i = i + 2;
        } else if starts_with_dash(arg) {
            return Err(with_usage("unknown flag: ", arg));
        } else if wants_file && out.file.is_none() {
            out.file = Some(owned(arg));
            i = i + 1;
        } else {
            return Err(with_usage("unexpected argument: ", arg));
        }
    }
    if wants_file && out.file.is_none() {
        let mut e = owned("missing FILE\n");
        e.append(USAGE);
        return Err(e);
    }
    Ok(out)
}

impl Args {
    /// Whether the boolean flag `f` was given.
    pub fn has(&self, f: &str) -> (r: bool)
        ensures
            r == views(self.flags@).contains(f@),
    {
        holds_string(&self.flags, f)
    }
}


/// A fragment's state as `links` prints it.
pub open spec fn fragment_word(f: Fragment) -> Seq<char> {
    match f {
        Fragment::Absent => "-"@,
        Fragment::Found => "ok"@,
        Fragment::Missing => "missing"@,
    }
}

/// A file's path, or nothing for an id past the files.
pub open spec fn rel_at(files: Seq<File>, id: FileId) -> Seq<char> {
    if id < files.len() {
        files[id as int].rel@
    } else {
        seq![]
    }
}

/// How `links` prints a resolution: its state, its fragment's state, and
/// where it goes (every candidate of an ambiguous one, comma-separated).
pub open spec fn resolution_words(files: Seq<File>, r: Resolved) -> (Seq<char>, Seq<char>, Seq<char>) {
    match r {
        Resolved::File { id, fragment } => ("resolved"@, fragment_word(fragment), rel_at(files, id)),
        Resolved::Ambiguous { pick, others, fragment } => (
            "ambiguous"@,
            fragment_word(fragment),
            join_by(seq![rel_at(files, pick)] + others@.map_values(|o: FileId| rel_at(files, o)), ','),
        ),
        Resolved::Unresolved => ("unresolved"@, "-"@, "-"@),
    }
}

/// One line of `links`: line, state, fragment, the link as written, target.
pub open spec fn link_row(files: Seq<File>, l: Link, r: Resolved) -> Seq<char> {
    let (state, fragment, target) = resolution_words(files, r);
    decimal(l.line as nat) + "\t"@ + state + "\t"@ + fragment + "\t"@ + l.written@ + "\t"@ + target + "\n"@
}

/// The first `n` lines of `links`.
pub open spec fn link_rows(files: Seq<File>, links: Seq<Link>, rs: Seq<Resolved>, n: int) -> Seq<char>
    decreases n,
{
    if n <= 0 {
        seq![]
    } else {
        link_rows(files, links, rs, n - 1) + link_row(files, links[n - 1], rs[n - 1])
    }
}

fn fragment_text(f: Fragment) -> (r: &'static str)
    ensures
        r@ == fragment_word(f),
{
    match f {
        Fragment::Absent => "-",
        Fragment::Found => "ok",
        Fragment::Missing => "missing",
    }
}

fn rel_text(files: &Vec<File>, id: FileId) -> (r: String)
    ensures
        r@ == rel_at(files@, id),
{
    if id < files.len() {
        files[id].rel.clone()
    } else {
        String::new()
    }
}

/// `knapp links`: each link of note `id` with how it resolves; an error
/// for an attachment.
pub fn links_report(index: &Index, id: FileId) -> (r: Result<String, String>)
    requires
        index.wf(),
        id < index.files@.len(),
    ensures
        index.files@[id as int].kind == Kind::Attachment ==> r == Err::<String, String>(
            r->Err_0,
        ) && r->Err_0@ == index.files@[id as int].rel@ + ": not a note"@,
        index.files@[id as int].kind == Kind::Note ==> r is Ok && r->Ok_0@ == link_rows(
            index.files@,
            links_of(index.files@[id as int]),
            index.forward@[id as int]@,
            links_of(index.files@[id as int]).len() as int,
        ),
{
    if index.files[id].kind == Kind::Attachment {
        let mut e = index.files[id].rel.clone();
        e.append(": not a note");
        return Err(e);
    }
    let links = index.links(id);
    let row = &index.forward[id];
    let ghost files = index.files@;
    let ghost rs = index.forward@[id as int]@;
    assert(row@.len() == links@.len());
    let mut out = String::new();
    let mut k: usize = 0;
    while k < links.len()
        invariant
            k <= links@.len(),
            row@.len() == links@.len(),
            files == index.files@,
            rs == row@,
            out@ == link_rows(files, links@, rs, k as int),
        decreases links.len() - k,
    {
        let l = &links[k];
        let (state, fragment, target): (&str, Fragment, String) = match &row[k] {
            Resolved::File { id, fragment } => ("resolved", *fragment, rel_text(&index.files, *id)),
            Resolved::Ambiguous { pick, others, fragment } => {
                let mut names: Vec<String> = Vec::new();
                names.push(rel_text(&index.files, *pick));
                let mut j: usize = 0;
                while j < others.len()
                    invariant
                        j <= others@.len(),
                        files == index.files@,
                        views(names@) == seq![rel_at(files, *pick)] + others@.take(j as int).map_values(
                            |o: FileId| rel_at(files, o),
                        ),
                    decreases others.len() - j,
                {
                    let ghost before = views(names@);
                    names.push(rel_text(&index.files, others[j]));
                    assert(views(names@) =~= before.push(rel_at(files, others@[j as int])));
                    assert(others@.take(j + 1).map_values(|o: FileId| rel_at(files, o)) =~= others@.take(
                        j as int,
                    ).map_values(|o: FileId| rel_at(files, o)).push(rel_at(files, others@[j as int])));
                    j = j + 1;
                }
                assert(others@.take(others@.len() as int) =~= others@);
                ("ambiguous", *fragment, crate::text::join_strings(names.as_slice(), ','))
            },
            Resolved::Unresolved => ("unresolved", Fragment::Absent, owned("-")),
        };
        proof {
            reveal_strlit("-");
        }
        let mut line = decimal_string(l.line as u64);
        line.append("\t");
        line.append(state);
        line.append("\t");
        line.append(fragment_text(fragment));
        line.append("\t");
        line.append(l.written.as_str());
        line.append("\t");
        line.append(target.as_str());
        line.append("\n");
        assert(line@ == link_row(files, links@[k as int], rs[k as int]));
        out.append(line.as_str());
        k = k + 1;
    }
    Ok(out)
}

/// How many of the files are notes.
pub open spec fn count_notes(files: Seq<File>) -> nat
    decreases files.len(),
{
    if files.len() == 0 {
        0
    } else {
        count_notes(files.drop_last()) + if files.last().kind == Kind::Note { 1nat } else { 0nat }
    }
}

/// How many of the files are excluded.
pub open spec fn count_excluded(files: Seq<File>) -> nat
    decreases files.len(),
{
    if files.len() == 0 {
        0
    } else {
        count_excluded(files.drop_last()) + if files.last().excluded { 1nat } else { 0nat }
    }
}

/// Resolved, ambiguous and unresolved links in a row of resolutions.
pub open spec fn row_counts(row: Seq<Resolved>) -> (nat, nat, nat)
    decreases row.len(),
{
    if row.len() == 0 {
        (0, 0, 0)
    } else {
        let (a, b, c) = row_counts(row.drop_last());
        match row.last() {
            Resolved::File { .. } => (a + 1, b, c),
            Resolved::Ambiguous { .. } => (a, b + 1, c),
            Resolved::Unresolved => (a, b, c + 1),
        }
    }
}

/// Resolved, ambiguous and unresolved links over all rows.
pub open spec fn table_counts(rows: Seq<Vec<Resolved>>) -> (nat, nat, nat)
    decreases rows.len(),
{
    if rows.len() == 0 {
        (0, 0, 0)
    } else {
        let (a, b, c) = table_counts(rows.drop_last());
        let (x, y, z) = row_counts(rows.last()@);
        (a + x, b + y, c + z)
    }
}

/// The tag names of the parsed files, in file order.
pub open spec fn tag_names(files: Seq<File>) -> Seq<Seq<char>>
    decreases files.len(),
{
    if files.len() == 0 {
        seq![]
    } else {
        tag_names(files.drop_last()) + match files.last().parsed {
            Some(p) => p.tags@.map_values(|t: crate::parse::Tag| t.name@),
            None => seq![],
        }
    }
}

/// The distinct elements, in order of first appearance.
pub open spec fn uniq(s: Seq<Seq<char>>) -> Seq<Seq<char>>
    decreases s.len(),
{
    if s.len() == 0 {
        seq![]
    } else {
        let r = uniq(s.drop_last());
        if r.contains(s.last()) {
            r
        } else {
            r.push(s.last())
        }
    }
}

proof fn lemma_counts_bound(row: Seq<Resolved>)
    ensures
        row_counts(row).0 + row_counts(row).1 + row_counts(row).2 == row.len(),
    decreases row.len(),
{
    if row.len() > 0 {
        lemma_counts_bound(row.drop_last());
    }
}

proof fn lemma_notes_bound(files: Seq<File>)
    ensures
        count_notes(files) <= files.len(),
        count_excluded(files) <= files.len(),
    decreases files.len(),
{
    if files.len() > 0 {
        lemma_notes_bound(files.drop_last());
    }
}

/// The number of links over all rows.
pub open spec fn link_total(rows: Seq<Vec<Resolved>>) -> nat {
    let (a, b, c) = table_counts(rows);
    a + b + c
}

fn note_counts(files: &Vec<File>) -> (r: (usize, usize))
    ensures
        r.0 == count_notes(files@),
        r.1 == count_excluded(files@),
{
    let mut notes: usize = 0;
    let mut excluded: usize = 0;
    let mut i: usize = 0;
    while i < files.len()
        invariant
            i <= files@.len(),
            notes == count_notes(files@.take(i as int)),
            excluded == count_excluded(files@.take(i as int)),
        decreases files.len() - i,
    {
        assert(files@.take(i + 1).drop_last() =~= files@.take(i as int));
        proof {
            lemma_notes_bound(files@.take(i as int));
        }
        if files[i].kind == Kind::Note {
            notes = notes + 1;
        }
        if files[i].excluded {
            excluded = excluded + 1;
        }
        i = i + 1;
    }
    assert(files@.take(files@.len() as int) =~= files@);
    (notes, excluded)
}

fn link_counts(rows: &Vec<Vec<Resolved>>) -> (r: (usize, usize, usize))
    requires
        link_total(rows@) <= usize::MAX,
    ensures
        (r.0 as nat, r.1 as nat, r.2 as nat) == table_counts(rows@),
{
    let mut a: usize = 0;
    let mut b: usize = 0;
    let mut c: usize = 0;
    let mut i: usize = 0;
    while i < rows.len()
        invariant
            i <= rows@.len(),
            link_total(rows@) <= usize::MAX,
            (a as nat, b as nat, c as nat) == table_counts(rows@.take(i as int)),
        decreases rows.len() - i,
    {
        assert(rows@.take(i + 1).drop_last() =~= rows@.take(i as int));
        proof {
            lemma_table_prefix(rows@, i as int + 1);
        }
        let row = &rows[i];
        let ghost base = (a as nat, b as nat, c as nat);
        let mut j: usize = 0;
        while j < row.len()
            invariant
                j <= row@.len(),
                i < rows@.len(),
                row == rows@[i as int],
                a + b + c <= usize::MAX,
                base.0 + base.1 + base.2 + row@.len() <= usize::MAX,
                (a as nat, b as nat, c as nat) == (
                    base.0 + row_counts(row@.take(j as int)).0,
                    base.1 + row_counts(row@.take(j as int)).1,
                    base.2 + row_counts(row@.take(j as int)).2,
                ),
            decreases row.len() - j,
        {
            assert(row@.take(j + 1).drop_last() =~= row@.take(j as int));
            proof {
                lemma_counts_bound(row@.take(j as int));
            }
            match &row[j] {
                Resolved::File { .. } => a = a + 1,
                Resolved::Ambiguous { .. } => b = b + 1,
                Resolved::Unresolved => c = c + 1,
            }
            j = j + 1;
        }
        assert(row@.take(row@.len() as int) =~= row@);
        i = i + 1;
    }
    assert(rows@.take(rows@.len() as int) =~= rows@);
    (a, b, c)
}

proof fn lemma_table_prefix(rows: Seq<Vec<Resolved>>, n: int)
    requires
        0 <= n <= rows.len(),
    ensures
        link_total(rows.take(n)) <= link_total(rows),
        n > 0 ==> link_total(rows.take(n - 1)) + rows[n - 1]@.len() == link_total(rows.take(n)),
    decreases rows.len() - n,
{
    if n > 0 {
        assert(rows.take(n).drop_last() =~= rows.take(n - 1));
        lemma_counts_bound(rows[n - 1]@);
    }
    if n < rows.len() {
        lemma_table_prefix(rows, n + 1);
        assert(rows.take(n + 1).drop_last() =~= rows.take(n));
        lemma_counts_bound(rows[n]@);
    } else {
        assert(rows.take(n) =~= rows);
    }
}

fn tag_count(files: &Vec<File>) -> (r: usize)
    ensures
        r == uniq(tag_names(files@)).len(),
{
    let mut seen: Vec<String> = Vec::new();
    let mut i: usize = 0;
    while i < files.len()
        invariant
            i <= files@.len(),
            views(seen@) == uniq(tag_names(files@.take(i as int))),
        decreases files.len() - i,
    {
        assert(files@.take(i + 1).drop_last() =~= files@.take(i as int));
        let ghost pre = tag_names(files@.take(i as int));
        if let Some(p) = &files[i].parsed {
            let ghost names = p.tags@.map_values(|t: crate::parse::Tag| t.name@);
            assert(tag_names(files@.take(i + 1)) == pre + names);
            let mut j: usize = 0;
            while j < p.tags.len()
                invariant
                    j <= p.tags@.len(),
                    names == p.tags@.map_values(|t: crate::parse::Tag| t.name@),
                    views(seen@) == uniq(pre + names.take(j as int)),
                decreases p.tags.len() - j,
            {
                let name = p.tags[j].name.as_str();
                assert((pre + names.take(j + 1)).drop_last() =~= pre + names.take(j as int));
                assert((pre + names.take(j + 1)).last() == name@);
                if !holds_string(&seen, name) {
                    let ghost before = views(seen@);
                    seen.push(owned(name));
                    assert(views(seen@) =~= before.push(name@));
                }
                j = j + 1;
            }
            assert(names.take(names.len() as int) =~= names);
        } else {
            assert(tag_names(files@.take(i + 1)) =~= pre);
        }
        i = i + 1;
    }
    assert(files@.take(files@.len() as int) =~= files@);
    proof {
        lemma_uniq_len(tag_names(files@));
    }
    seen.len()
}

proof fn lemma_uniq_len(s: Seq<Seq<char>>)
    ensures
        uniq(s).len() <= s.len(),
    decreases s.len(),
{
    if s.len() > 0 {
        lemma_uniq_len(s.drop_last());
    }
}

/// `knapp index`: `N notes, M attachments, L links`.
pub open spec fn summary_of(files: Seq<File>, rows: Seq<Vec<Resolved>>) -> Seq<char> {
    decimal(count_notes(files)) + " notes, "@ + decimal((files.len() - count_notes(files)) as nat) + " attachments, "@
        + decimal(link_total(rows)) + " links"@
}

/// `knapp index`'s summary line of what it loaded.
pub fn index_summary(index: &Index) -> (r: String)
    requires
        link_total(index.forward@) <= usize::MAX,
    ensures
        r@ == summary_of(index.files@, index.forward@),
{
    let (notes, _) = note_counts(&index.files);
    proof {
        lemma_notes_bound(index.files@);
    }
    let (a, b, c) = link_counts(&index.forward);
    let mut s = decimal_string(notes as u64);
    s.append(" notes, ");
    s.append(decimal_string((index.files.len() - notes) as u64).as_str());
    s.append(" attachments, ");
    s.append(decimal_string((a + b + c) as u64).as_str());
    s.append(" links");
    s
}

/// The pane's summary page: the files, then the links by state.
pub open spec fn pane_summary_of(files: Seq<File>, rows: Seq<Vec<Resolved>>) -> (Seq<char>, Seq<char>) {
    let (resolved, ambiguous, unresolved) = table_counts(rows);
    (
        decimal(count_notes(files)) + " notes, "@ + decimal((files.len() - count_notes(files)) as nat) + " attachments"@,
        decimal(resolved) + " links resolved, "@ + decimal(ambiguous) + " ambiguous, "@ + decimal(unresolved)
            + " unresolved"@,
    )
}

/// The two lines of the pane's summary page.
pub fn pane_summary(index: &Index) -> (r: (String, String))
    requires
        link_total(index.forward@) <= usize::MAX,
    ensures
        (r.0@, r.1@) == pane_summary_of(index.files@, index.forward@),
{
    let (notes, _) = note_counts(&index.files);
    proof {
        lemma_notes_bound(index.files@);
    }
    let (a, b, c) = link_counts(&index.forward);
    let mut files = decimal_string(notes as u64);
    files.append(" notes, ");
    files.append(decimal_string((index.files.len() - notes) as u64).as_str());
    files.append(" attachments");
    let mut links = decimal_string(a as u64);
    links.append(" links resolved, ");
    links.append(decimal_string(b as u64).as_str());
    links.append(" ambiguous, ");
    links.append(decimal_string(c as u64).as_str());
    links.append(" unresolved");
    (files, links)
}

/// `knapp index --stats` before the timings: counts of files, links by
/// state, distinct tags, and what the load reused and parsed.
pub open spec fn stats_head_of(files: Seq<File>, rows: Seq<Vec<Resolved>>, stats: LoadStats) -> Seq<char> {
    let (resolved, ambiguous, unresolved) = table_counts(rows);
    "notes\t"@ + decimal(count_notes(files)) + "\nattachments\t"@ + decimal((files.len() - count_notes(files)) as nat)
        + "\nexcluded\t"@ + decimal(count_excluded(files)) + "\nlinks.resolved\t"@ + decimal(resolved)
        + "\nlinks.ambiguous\t"@ + decimal(ambiguous) + "\nlinks.unresolved\t"@ + decimal(unresolved) + "\ntags\t"@
        + decimal(uniq(tag_names(files)).len()) + "\ncache.reused\t"@ + decimal(stats.reused as nat)
        + "\ncache.parsed\t"@ + decimal(stats.parsed as nat) + "\n"@
}

/// One `skipped_filter` line per filter the scan did not apply.
pub open spec fn skipped_lines(filters: Seq<Seq<char>>) -> Seq<char>
    decreases filters.len(),
{
    if filters.len() == 0 {
        seq![]
    } else {
        skipped_lines(filters.drop_last()) + "skipped_filter\t"@ + filters.last() + "\n"@
    }
}

fn push_num(s: &mut String, label: &str, n: usize)
    ensures
        final(s)@ == old(s)@ + label@ + decimal(n as nat),
{
    s.append(label);
    s.append(decimal_string(n as u64).as_str());
}

/// `knapp index --stats`, apart from the timings that go between: the
/// counts, and the filters the scan skipped.
pub fn stats_report(index: &Index, stats: &LoadStats) -> (r: (String, String))
    requires
        link_total(index.forward@) <= usize::MAX,
    ensures
        r.0@ == stats_head_of(index.files@, index.forward@, *stats),
        r.1@ == skipped_lines(views(index.skipped_filters@)),
{
    let (notes, excluded) = note_counts(&index.files);
    proof {
        lemma_notes_bound(index.files@);
    }
    let (a, b, c) = link_counts(&index.forward);
    let tags = tag_count(&index.files);
    let mut s = String::new();
    push_num(&mut s, "notes\t", notes);
    push_num(&mut s, "\nattachments\t", index.files.len() - notes);
    push_num(&mut s, "\nexcluded\t", excluded);
    push_num(&mut s, "\nlinks.resolved\t", a);
    push_num(&mut s, "\nlinks.ambiguous\t", b);
    push_num(&mut s, "\nlinks.unresolved\t", c);
    push_num(&mut s, "\ntags\t", tags);
    push_num(&mut s, "\ncache.reused\t", stats.reused);
    push_num(&mut s, "\ncache.parsed\t", stats.parsed);
    s.append("\n");
    let mut t = String::new();
    let mut i: usize = 0;
    while i < index.skipped_filters.len()
        invariant
            i <= index.skipped_filters@.len(),
            t@ == skipped_lines(views(index.skipped_filters@).take(i as int)),
        decreases index.skipped_filters.len() - i,
    {
        assert(views(index.skipped_filters@).take(i + 1).drop_last() =~= views(index.skipped_filters@).take(i as int));
        t.append("skipped_filter\t");
        t.append(index.skipped_filters[i].as_str());
        t.append("\n");
        i = i + 1;
    }
    assert(views(index.skipped_filters@).take(index.skipped_filters@.len() as int) =~= views(index.skipped_filters@));
    (s, t)
}


/// A backlink as `backlinks` lists it: the source's path, the line of the
/// link, and the source.
pub open spec fn hit_of(index: &Index, b: (FileId, usize)) -> (Seq<char>, u32, FileId) {
    (index.files@[b.0 as int].rel@, links_of(index.files@[b.0 as int])[b.1 as int].line, b.0)
}

/// Path order, then line, then source.
pub open spec fn hit_lt() -> spec_fn((Seq<char>, u32, FileId), (Seq<char>, u32, FileId)) -> bool {
    |a: (Seq<char>, u32, FileId), b: (Seq<char>, u32, FileId)|
        lex_less(a.0, b.0) || (a.0 == b.0 && (a.1 < b.1 || (a.1 == b.1 && a.2 < b.2)))
}

/// The backlinks of `id` as `backlinks` lists them: sorted, each once.
pub open spec fn backlink_hits_of(index: &Index, id: FileId) -> Seq<(Seq<char>, u32, FileId)> {
    dedup(sort_lt(index.back@[id as int]@.map_values(|b: (FileId, usize)| hit_of(index, b)), hit_lt()))
}

proof fn lemma_lex_irreflexive(a: Seq<char>)
    ensures
        !lex_less(a, a),
    decreases a.len(),
{
    if a.len() > 0 {
        lemma_lex_irreflexive(a.drop_first());
    }
}

proof fn lemma_lex_transitive(a: Seq<char>, b: Seq<char>, c: Seq<char>)
    requires
        lex_less(a, b),
        lex_less(b, c),
    ensures
        lex_less(a, c),
    decreases a.len(),
{
    if a.len() > 0 && b.len() > 0 && c.len() > 0 && a[0] == b[0] && b[0] == c[0] {
        lemma_lex_transitive(a.drop_first(), b.drop_first(), c.drop_first());
    }
}

proof fn lemma_lex_total(a: Seq<char>, b: Seq<char>)
    requires
        a != b,
    ensures
        lex_less(a, b) || lex_less(b, a),
    decreases a.len(),
{
    if a.len() > 0 && b.len() > 0 && a[0] == b[0] {
        if a.drop_first() == b.drop_first() {
            assert(a =~= seq![a[0]] + a.drop_first());
            assert(b =~= seq![b[0]] + b.drop_first());
        }
        lemma_lex_total(a.drop_first(), b.drop_first());
    } else if a.len() > 0 && b.len() > 0 {
        if (a[0] as u32) == (b[0] as u32) {
            vstd::utf8::char_u32_cast(a[0], a[0] as u32);
            vstd::utf8::char_u32_cast(b[0], b[0] as u32);
        }
    } else if a.len() == 0 && b.len() == 0 {
        assert(a =~= b);
    }
}

proof fn lemma_hit_order()
    ensures
        crate::order::strict_total(hit_lt()),
{
    let lt = hit_lt();
    assert forall|a: (Seq<char>, u32, FileId)| !#[trigger] lt(a, a) by {
        lemma_lex_irreflexive(a.0);
    }
    assert forall|a: (Seq<char>, u32, FileId), b: (Seq<char>, u32, FileId), c: (Seq<char>, u32, FileId)|
        #[trigger] lt(a, b) && #[trigger] lt(b, c) implies lt(a, c) by {
        if lex_less(a.0, b.0) && lex_less(b.0, c.0) {
            lemma_lex_transitive(a.0, b.0, c.0);
        }
    }
    assert forall|a: (Seq<char>, u32, FileId), b: (Seq<char>, u32, FileId)| a != b implies #[trigger] lt(a, b) || #[trigger] lt(
        b,
        a,
    ) by {
        if a.0 != b.0 {
            lemma_lex_total(a.0, b.0);
        }
    }
}

/// The backlinks are listed strictly in order, by path, then line, then
/// source: each path and line once, no row twice.
pub proof fn lemma_backlink_hits_strict(index: &Index, id: FileId)
    ensures
        forall|a: int, b: int|
            #![trigger backlink_hits_of(index, id)[a], backlink_hits_of(index, id)[b]]
            0 <= a < b < backlink_hits_of(index, id).len() ==> {
                let (x, y) = (backlink_hits_of(index, id)[a], backlink_hits_of(index, id)[b]);
                lex_less(x.0, y.0) || (x.0 == y.0 && (x.1 < y.1 || (x.1 == y.1 && x.2 < y.2)))
            },
        backlink_hits_of(index, id).no_duplicates(),
{
    let lt = hit_lt();
    let hs = index.back@[id as int]@.map_values(|b: (FileId, usize)| hit_of(index, b));
    lemma_hit_order();
    crate::order::lemma_sort_sorted(hs, lt);
    crate::graph::lemma_dedup_strict(sort_lt(hs, lt), lt);
    let r = backlink_hits_of(index, id);
    assert forall|a: int, b: int| #![trigger r[a], r[b]] 0 <= a < b < r.len() implies {
        let (x, y) = (r[a], r[b]);
        lex_less(x.0, y.0) || (x.0 == y.0 && (x.1 < y.1 || (x.1 == y.1 && x.2 < y.2)))
    } by {
        assert(lt(r[a], r[b]));
    }
    assert forall|a: int, b: int| 0 <= a < r.len() && 0 <= b < r.len() && a != b implies r[a] != r[b] by {
        if a < b {
            assert(lt(r[a], r[b]));
        } else {
            assert(lt(r[b], r[a]));
        }
        if r[a] == r[b] {
            lemma_lex_irreflexive(r[a].0);
        }
    }
}

/// A backlink with its path as a `String`.
pub open spec fn hit_view(h: (String, u32, FileId)) -> (Seq<char>, u32, FileId) {
    (h.0@, h.1, h.2)
}

fn hit_before(a: &(Vec<char>, u32, FileId), b: &(Vec<char>, u32, FileId)) -> (r: bool)
    ensures
        r == (hit_lt())((a.0@, a.1, a.2), (b.0@, b.1, b.2)),
{
    if lex_less_exec(a.0.as_slice(), b.0.as_slice()) {
        return true;
    }
    if !crate::text::chars_eq(a.0.as_slice(), b.0.as_slice()) {
        return false;
    }
    a.1 < b.1 || (a.1 == b.1 && a.2 < b.2)
}

/// The notes linking to `id`, as `backlinks` lists them: by path, then
/// line, each link once.
pub fn backlink_hits(index: &Index, id: FileId) -> (r: Vec<(String, u32, FileId)>)
    requires
        index.wf(),
        id < index.files@.len(),
    ensures
        r@.map_values(|h: (String, u32, FileId)| hit_view(h)) == backlink_hits_of(index, id),
{
    let back = &index.back[id];
    let ghost lt = hit_lt();
    let ghost hs = back@.map_values(|b: (FileId, usize)| hit_of(index, b));
    let mut sorted: Vec<(Vec<char>, u32, FileId)> = Vec::new();
    let mut i: usize = 0;
    while i < back.len()
        invariant
            i <= back@.len(),
            index.wf(),
            id < index.files@.len(),
            back == index.back@[id as int],
            lt == hit_lt(),
            hs == back@.map_values(|b: (FileId, usize)| hit_of(index, b)),
            sorted@.map_values(|h: (Vec<char>, u32, FileId)| (h.0@, h.1, h.2)) == sort_lt(hs.take(i as int), lt),
        decreases back.len() - i,
    {
        let (source, pos) = back[i];
        assert(crate::index::is_edge(index.files@, index.forward@, source as int, pos as int, id as int)) by {
            assert(back@[i as int] == index.back@[id as int]@[i as int]);
        }
        let links = index.links(source);
        assert(pos < links@.len());
        let x = (crate::text::chars_of(index.files[source].rel.as_str()), links[pos].line, source);
        let ghost xv = (x.0@, x.1, x.2);
        assert(xv == hs[i as int]);
        let ghost sv = sorted@.map_values(|h: (Vec<char>, u32, FileId)| (h.0@, h.1, h.2));
        let mut p: usize = 0;
        while p < sorted.len() && !hit_before(&x, &sorted[p])
            invariant
                p <= sorted@.len(),
                lt == hit_lt(),
                xv == (x.0@, x.1, x.2),
                sv == sorted@.map_values(|h: (Vec<char>, u32, FileId)| (h.0@, h.1, h.2)),
                forall|k: int| 0 <= k < p ==> !lt(xv, #[trigger] sv[k]),
            decreases sorted.len() - p,
        {
            assert(sv[p as int] == (sorted@[p as int].0@, sorted@[p as int].1, sorted@[p as int].2));
            p = p + 1;
        }
        proof {
            if p < sorted@.len() {
                assert(sv[p as int] == (sorted@[p as int].0@, sorted@[p as int].1, sorted@[p as int].2));
            }
            lemma_insert_lt(sv, xv, lt, p as int);
            assert(hs.take(i + 1).drop_last() =~= hs.take(i as int));
            assert(hs.take(i + 1).last() == xv);
        }
        sorted.insert(p, x);
        assert(sorted@.map_values(|h: (Vec<char>, u32, FileId)| (h.0@, h.1, h.2)) =~= sv.insert(p as int, xv));
        i = i + 1;
    }
    assert(hs.take(back@.len() as int) =~= hs);
    let ghost all = sorted@.map_values(|h: (Vec<char>, u32, FileId)| (h.0@, h.1, h.2));
    let mut out: Vec<(String, u32, FileId)> = Vec::new();
    let mut k: usize = 0;
    while k < sorted.len()
        invariant
            k <= sorted@.len(),
            all == sorted@.map_values(|h: (Vec<char>, u32, FileId)| (h.0@, h.1, h.2)),
            out@.map_values(|h: (String, u32, FileId)| hit_view(h)) == dedup(all.take(k as int)),
        decreases sorted.len() - k,
    {
        assert(all.take(k + 1).drop_last() =~= all.take(k as int));
        assert(all.take(k + 1).last() == all[k as int]);
        let n = out.len();
        let ghost before = out@.map_values(|h: (String, u32, FileId)| hit_view(h));
        let same = n > 0 && {
            let last = &out[n - 1];
            let lc = crate::text::chars_of(last.0.as_str());
            crate::text::chars_eq(lc.as_slice(), sorted[k].0.as_slice()) && last.1 == sorted[k].1 && last.2 == sorted[k].2
        };
        if !same {
            out.push((string_of(sorted[k].0.as_slice()), sorted[k].1, sorted[k].2));
            assert(out@.map_values(|h: (String, u32, FileId)| hit_view(h)) =~= before.push(all[k as int]));
        } else {
            assert(before.last() == all[k as int]);
        }
        k = k + 1;
    }
    assert(all.take(sorted@.len() as int) =~= all);
    out
}

/// One line of `backlinks`: `path:line`, a tab, and that line of the
/// source, trimmed.
pub open spec fn backlink_row_of(rel: Seq<char>, line: u32, lines: Seq<Seq<char>>) -> Seq<char> {
    let text = if line as int - 1 < lines.len() { trim(lines[line as int - 1]) } else { seq![] };
    rel + ":"@ + decimal(line as nat) + "\t"@ + text + "\n"@
}

/// One line of `backlinks`, from the source's lines.
pub fn backlink_row(rel: &str, line: u32, lines: &[String]) -> (r: String)
    requires
        line >= 1,
    ensures
        r@ == backlink_row_of(rel@, line, views(lines@)),
{
    let mut s = owned(rel);
    s.append(":");
    s.append(decimal_string(line as u64).as_str());
    s.append("\t");
    let k = (line - 1) as usize;
    if k < lines.len() {
        let c = chars_of(lines[k].as_str());
        let (lo, hi) = crate::text::trim_bounds(c.as_slice());
        s.append(string_of(crate::text::slice_range(c.as_slice(), lo, hi)).as_str());
    }
    s.append("\n");
    s
}


/// `knapp unresolved`: per group, how many links, the state, the target.
pub open spec fn unresolved_lines(groups: Seq<Target>) -> Seq<char>
    decreases groups.len(),
{
    if groups.len() == 0 {
        seq![]
    } else {
        let g = groups.last();
        unresolved_lines(groups.drop_last()) + decimal(g.sources@.len()) + "\t"@ + (if g.ambiguous {
            "ambiguous"@
        } else {
            "unresolved"@
        }) + "\t"@ + g.shown@ + "\n"@
    }
}

/// The lines `knapp unresolved` prints for the groups.
pub fn unresolved_report(groups: &[Target]) -> (r: String)
    ensures
        r@ == unresolved_lines(groups@),
{
    let mut out = String::new();
    let mut i: usize = 0;
    while i < groups.len()
        invariant
            i <= groups@.len(),
            out@ == unresolved_lines(groups@.take(i as int)),
        decreases groups.len() - i,
    {
        assert(groups@.take(i + 1).drop_last() =~= groups@.take(i as int));
        let g = &groups[i];
        out.append(decimal_string(g.sources.len() as u64).as_str());
        out.append("\t");
        out.append(if g.ambiguous { "ambiguous" } else { "unresolved" });
        out.append("\t");
        out.append(g.shown.as_str());
        out.append("\n");
        i = i + 1;
    }
    assert(groups@.take(groups@.len() as int) =~= groups@);
    out
}

/// `knapp tags`: per tag level, its note count and its spelling.
pub open spec fn tag_lines(nodes: Seq<TagNode>) -> Seq<char>
    decreases nodes.len(),
{
    if nodes.len() == 0 {
        seq![]
    } else {
        tag_lines(nodes.drop_last()) + decimal(nodes.last().count as nat) + "\t"@ + nodes.last().shown@ + "\n"@
    }
}

/// The lines `knapp tags` prints for the tag tree.
pub fn tags_report(nodes: &[TagNode]) -> (r: String)
    ensures
        r@ == tag_lines(nodes@),
{
    let mut out = String::new();
    let mut i: usize = 0;
    while i < nodes.len()
        invariant
            i <= nodes@.len(),
            out@ == tag_lines(nodes@.take(i as int)),
        decreases nodes.len() - i,
    {
        assert(nodes@.take(i + 1).drop_last() =~= nodes@.take(i as int));
        out.append(decimal_string(nodes[i].count as u64).as_str());
        out.append("\t");
        out.append(nodes[i].shown.as_str());
        out.append("\n");
        i = i + 1;
    }
    assert(nodes@.take(nodes@.len() as int) =~= nodes@);
    out
}

} // verus!
