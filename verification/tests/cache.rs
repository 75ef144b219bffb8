use knapp::index::{
    modified, needs_parse, refresh_action, refresh_apply, refresh_reads, CachedFile, Change, File, Index, LoadAction, LoadStats, RefreshAction, RACY_NS};
use knapp::parse::parse;
use knapp::scan::{Entry, Kind};

fn entry(rel: &str, mtime_ns: u128, size: u64) -> Entry {
    Entry { rel: rel.into(), kind: Kind::Note, excluded: false, mtime_ns, size }
}

fn cached(mtime_ns: u128, size: u64, text: Option<&str>) -> CachedFile {
    CachedFile { kind: Kind::Note, mtime_ns, size, parsed: text.map(parse) }
}

const WRITTEN: u128 = 100 * RACY_NS;

#[test]
fn second_load_reuses_every_parse() {
    let mut stats = LoadStats::start(Some(2), 2);
    assert!(!stats.stale);
    let a = stats.step(&entry("a.md", 5, 3), Some(cached(5, 3, Some("[[b]]"))), WRITTEN);
    assert!(matches!(a, LoadAction::Reuse(p) if p.links.len() == 1));
    let b = stats.step(&entry("b.md", 6, 1), Some(cached(6, 1, Some("x"))), WRITTEN);
    assert!(matches!(b, LoadAction::Reuse(_)));
    assert_eq!(stats, LoadStats { reused: 2, parsed: 0, stale: false });
}

#[test]
fn bad_caches_fall_back_to_parsing() {
    let mut stats = LoadStats::start(None, 1);
    assert!(stats.stale);
    assert!(matches!(stats.step(&entry("a.md", 5, 3), None, WRITTEN), LoadAction::Parse));
    assert_eq!(stats.parsed, 1);
    // A changed size, an unknown mtime, or a record without a parse: parse.
    let mut stats = LoadStats::start(Some(1), 1);
    assert!(matches!(stats.step(&entry("a.md", 5, 4), Some(cached(5, 3, Some("x"))), WRITTEN), LoadAction::Parse));
    assert!(matches!(stats.step(&entry("a.md", 0, 3), Some(cached(0, 3, Some("x"))), WRITTEN), LoadAction::Parse));
    assert!(matches!(stats.step(&entry("a.md", 5, 3), Some(cached(5, 3, None)), WRITTEN), LoadAction::Parse));
    assert!(stats.stale);
}

#[test]
fn same_tick_rewrite_is_seen() {
    // Changed within RACY_NS of the cache write: parsed again.
    let mut stats = LoadStats::start(Some(1), 1);
    let close = WRITTEN - RACY_NS;
    assert!(matches!(stats.step(&entry("a.md", close, 3), Some(cached(close, 3, Some("x"))), WRITTEN), LoadAction::Parse));
    assert!(matches!(stats.step(&entry("a.md", close - 1, 3), Some(cached(close - 1, 3, Some("x"))), WRITTEN), LoadAction::Reuse(_)));
    assert!(matches!(stats.step(&entry("a.md", u128::MAX, 3), Some(cached(u128::MAX, 3, Some("x"))), u128::MAX), LoadAction::Parse));
}

#[test]
fn deleted_and_added_files_mark_the_cache_stale() {
    assert!(LoadStats::start(Some(3), 2).stale);
    let mut stats = LoadStats::start(Some(1), 1);
    let pic = Entry { rel: "p.png".into(), kind: Kind::Attachment, excluded: false, mtime_ns: 5, size: 3 };
    assert!(!needs_parse(&pic));
    assert!(matches!(stats.step(&pic, Some(CachedFile { kind: Kind::Attachment, mtime_ns: 5, size: 3, parsed: None }), WRITTEN), LoadAction::Unparsed));
    assert!(!stats.stale);
    assert!(matches!(stats.step(&pic, None, WRITTEN), LoadAction::Unparsed));
    assert!(stats.stale);
}

fn file(rel: &str, mtime_ns: u128, text: &str) -> File {
    File { rel: rel.into(), kind: Kind::Note, excluded: false, mtime_ns, size: text.len() as u64, parsed: Some(parse(text)) }
}

#[test]
fn refresh_reports_changes_and_flips_state() {
    let old = file("a.md", 5, "[[b]]");
    assert_eq!(refresh_action(&entry("a.md", 5, 5), Some(&old), false), RefreshAction::Keep);
    assert_eq!(refresh_action(&entry("a.md", 5, 5), Some(&old), true), RefreshAction::Reread);
    assert_eq!(refresh_action(&entry("a.md", 6, 5), Some(&old), false), RefreshAction::Reread);
    assert_eq!(refresh_action(&entry("n.md", 6, 5), None, false), RefreshAction::Add);
    let index = Index::from_files("/v".into(), vec![old.clone(), file("b.md", 1, "")], Vec::new(), Vec::new());
    let (same, change) = index.refreshed(vec![old.clone(), file("b.md", 1, "")], Vec::new(), Change { added: vec![], removed: vec![], modified: vec![] });
    assert!(change.is_none());
    assert_eq!(same.files.len(), 2);
    let added = Change { added: vec!["c.md".into()], removed: vec![], modified: vec![] };
    let (grown, change) = same.refreshed(vec![old, file("b.md", 1, ""), file("c.md", 1, "[[a]]")], Vec::new(), added.clone());
    assert_eq!(change, Some(added));
    assert_eq!(grown.back[0].len(), 1);
}

#[test]
fn a_prose_only_edit_is_a_modification() {
    // Same links, headings and tags; only the text differs.
    let old = file("a.md", 5, "[[b]] one");
    assert!(modified(&old, &entry("a.md", 6, 9), &Some(parse("[[b]] two"))));
    // Named by the watcher but the same on disk and in its parse: unchanged.
    let same = entry("a.md", 5, 9);
    assert!(!modified(&old, &same, &Some(parse("[[b]] one"))));
    assert!(modified(&old, &same, &Some(parse("[[b]] one\n#tag"))));
    assert!(modified(&old, &same, &None));
    assert!(modified(&old, &Entry { excluded: true, ..same.clone() }, &Some(parse("[[b]] one"))));
}

#[test]
fn a_refresh_sweep_assembles_the_change() {
    let mut change = Change { added: vec![], removed: vec![], modified: vec![] };
    let mut files: Vec<File> = Vec::new();
    // Unchanged: kept, not read.
    let a = file("a.md", 5, "[[b]]");
    assert!(!refresh_reads(&entry("a.md", 5, 5), Some(&a), false));
    refresh_apply(&mut change, &mut files, entry("a.md", 5, 5), Some(a.clone()), false, None);
    // Changed on disk: read again, modified.
    let b = file("b.md", 1, "x");
    assert!(refresh_reads(&entry("b.md", 2, 2), Some(&b), false));
    refresh_apply(&mut change, &mut files, entry("b.md", 2, 2), Some(b), false, Some(parse("y")));
    // Named by the watcher, same on disk and in its parse: read, not modified.
    let c = file("c.md", 3, "z");
    assert!(refresh_reads(&entry("c.md", 3, 1), Some(&c), true));
    refresh_apply(&mut change, &mut files, entry("c.md", 3, 1), Some(c), true, Some(parse("z")));
    // New.
    assert!(refresh_reads(&entry("d.md", 4, 1), None, false));
    refresh_apply(&mut change, &mut files, entry("d.md", 4, 1), None, false, Some(parse("[[a]]")));
    assert_eq!(change.added, vec!["d.md".to_string()]);
    assert_eq!(change.modified, vec!["b.md".to_string()]);
    assert!(change.removed.is_empty());
    let rels: Vec<&str> = files.iter().map(|f| f.rel.as_str()).collect();
    assert_eq!(rels, ["a.md", "b.md", "c.md", "d.md"]);
    assert_eq!(files[0].parsed, a.parsed);
    assert_eq!(files[1].mtime_ns, 2);
    assert_eq!(files[3].parsed.as_ref().map(|p| p.links.len()), Some(1));
}
