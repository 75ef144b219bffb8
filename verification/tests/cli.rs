use knapp::cli::{
    backlink_hits, backlink_row, index_summary, links_report, pane_summary, parse_args, parse_u32, relative_to, stats_report, tags_report,
    unresolved_report,
};
use knapp::index::{File, Index, LoadStats};
use knapp::parse::parse;
use knapp::scan::Kind;

fn args(list: &[&str]) -> Vec<String> {
    list.iter().map(|s| s.to_string()).collect()
}

fn vault() -> Index {
    let note = |rel: &str, text: &str| File {
        rel: rel.into(),
        kind: Kind::Note,
        excluded: false,
        mtime_ns: 1,
        size: 1,
        parsed: Some(parse(text)),
    };
    let files = vec![
        note("a.md", "[[b]] [[missing]] #t\n[[b#Nope]] [[dup]]\n"),
        note("b.md", "# B\n[[a]] #t #u\n"),
        File { rel: "pic.png".into(), kind: Kind::Attachment, excluded: false, mtime_ns: 1, size: 3, parsed: None },
        note("x/dup.md", "x\n"),
        note("y/dup.md", "y\n"),
    ];
    Index::from_files("/v".into(), files, vec!["/re/".into()], Vec::new())
}

#[test]
fn arguments_files_flags_and_errors() {
    let a = parse_args(&args(&["note.md", "--root", "docs", "--json"]), true, &["--json"]).unwrap();
    assert_eq!(a.file.as_deref(), Some("note.md"));
    assert_eq!(a.root.as_deref(), Some("docs"));
    assert!(a.has("--json"));
    let g = parse_args(&args(&["n.md", "--hops", "3", "--dot"]), true, &["--hops", "--dot"]).unwrap();
    assert_eq!(g.hops, Some(3));
    assert!(g.has("--dot") && !g.has("--json"));
    assert_eq!(parse_args(&args(&["--hops"]), true, &["--hops"]).unwrap_err(), "--hops needs a value");
    assert_eq!(parse_args(&args(&["--hops", "x"]), true, &["--hops"]).unwrap_err(), "--hops: not a number: x");
    assert_eq!(parse_args(&args(&["--root"]), false, &[]).unwrap_err(), "--root needs a value");
    assert!(parse_args(&args(&["--json"]), false, &[]).unwrap_err().starts_with("unknown flag: --json\nusage: knapp"));
    assert!(parse_args(&args(&["a", "b"]), true, &[]).unwrap_err().starts_with("unexpected argument: b\n"));
    assert!(parse_args(&args(&[]), true, &[]).unwrap_err().starts_with("missing FILE\n"));
    assert!(parse_args(&args(&[]), false, &[]).is_ok());
}

#[test]
fn numbers_parse_as_u32() {
    assert_eq!(parse_u32("42"), Some(42));
    assert_eq!(parse_u32("+7"), Some(7));
    assert_eq!(parse_u32("4294967295"), Some(u32::MAX));
    assert_eq!(parse_u32("4294967296"), None);
    assert_eq!(parse_u32(""), None);
    assert_eq!(parse_u32("+"), None);
    assert_eq!(parse_u32("-1"), None);
    assert_eq!(parse_u32("1a"), None);
}

#[test]
fn links_lists_state_fragment_and_target() {
    let idx = vault();
    let a = idx.id("a.md").unwrap();
    assert_eq!(
        links_report(&idx, a).unwrap(),
        "1\tresolved\t-\t[[b]]\tb.md\n1\tunresolved\t-\t[[missing]]\t-\n2\tresolved\tmissing\t[[b#Nope]]\tb.md\n2\tambiguous\t-\t[[dup]]\tx/dup.md,y/dup.md\n"
    );
    let pic = idx.id("pic.png").unwrap();
    assert_eq!(links_report(&idx, pic).unwrap_err(), "pic.png: not a note");
}

#[test]
fn backlinks_by_path_and_line() {
    let idx = vault();
    let b = idx.id("b.md").unwrap();
    let hits = backlink_hits(&idx, b);
    assert_eq!(hits, [("a.md".to_string(), 1, 0), ("a.md".to_string(), 2, 0)]);
    let lines = args(&["  [[b]] and more  ", "x"]);
    assert_eq!(backlink_row("a.md", 1, &lines), "a.md:1\t[[b]] and more\n");
    assert_eq!(backlink_row("a.md", 9, &lines), "a.md:9\t\n");
}

#[test]
fn summary_and_stats() {
    let idx = vault();
    assert_eq!(index_summary(&idx), "4 notes, 1 attachments, 5 links");
    let (head, tail) = stats_report(&idx, &LoadStats { reused: 2, parsed: 3, stale: false });
    assert_eq!(
        head,
        "notes\t4\nattachments\t1\nexcluded\t0\nlinks.resolved\t3\nlinks.ambiguous\t1\nlinks.unresolved\t1\ntags\t2\ncache.reused\t2\ncache.parsed\t3\n"
    );
    assert_eq!(tail, "skipped_filter\t/re/\n");
}

#[test]
fn unresolved_and_tags_lines() {
    let idx = vault();
    assert_eq!(unresolved_report(&idx.unresolved()), "1\tunresolved\tmissing\n1\tambiguous\tdup\n");
    assert_eq!(tags_report(&idx.tags()), "2\tt\n1\tu\n");
}

#[test]
fn pane_summary_counts_files_and_link_states() {
    let idx = vault();
    let (files, links) = pane_summary(&idx);
    assert_eq!(files, "4 notes, 1 attachments");
    assert_eq!(links, "3 links resolved, 1 ambiguous, 1 unresolved");
}

#[test]
fn files_are_named_relative_to_their_root() {
    assert_eq!(relative_to("/v", "/v/a/b.md").as_deref(), Some("a/b.md"));
    assert_eq!(relative_to("/v/", "/v//a/./b.md").as_deref(), Some("a/b.md"));
    assert_eq!(relative_to("/v", "/v").as_deref(), Some(""));
    assert_eq!(relative_to("/v", "/vault/a.md"), None);
    assert_eq!(relative_to("/v/a", "/v/b.md"), None);
}
