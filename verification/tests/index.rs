use knapp::graph::{dot, local, place_cells, tree, tree_checked, Mark};
use knapp::index::{block_line, cache_path, key, removed_paths, File, Fragment, Index, Resolved};
use knapp::tags::target_key;
use knapp::parse::parse;
use knapp::scan::Kind;

fn note(rel: &str, text: &str) -> File {
    File { rel: rel.into(), kind: Kind::Note, excluded: false, mtime_ns: 1, size: text.len() as u64, parsed: Some(parse(text)) }
}

fn attachment(rel: &str) -> File {
    File { rel: rel.into(), kind: Kind::Attachment, excluded: false, mtime_ns: 1, size: 3, parsed: None }
}

fn index(files: Vec<File>) -> Index {
    Index::from_files("/vault".into(), files, Vec::new(), Vec::new())
}

fn broken() -> Index {
    index(vec![
        note("hub.md", "[[loop-a]] [[ref]]\n"),
        note("loop-a.md", "[[loop-b]]\n"),
        note("loop-b.md", "[[loop-c]]\n"),
        note("loop-c.md", "[[loop-a]]\n"),
        note("orphan.md", "[[hub]]\n"),
        note("ref.md", "nothing\n"),
        note("self.md", "# Top\n[[self]] and [[#Top]]\n"),
    ])
}

fn resolved_to(index: &Index, source: &str, pos: usize) -> Resolved {
    index.forward[index.id(source).expect("source")][pos].clone()
}

#[test]
fn self_links_are_not_backlinks() {
    let index = broken();
    let me = index.id("self.md").expect("self.md");
    assert!(index.back[me].is_empty());
    assert_eq!(resolved_to(&index, "self.md", 1), Resolved::File { id: me, fragment: Fragment::Found });
}

#[test]
fn moving_and_adding_files_changes_state() {
    let idx = index(vec![note("index.md", "x [[alpha]]\n"), note("x/alpha.md", "a\n")]);
    let x = idx.id("x/alpha.md").unwrap();
    assert!(matches!(resolved_to(&idx, "index.md", 0), Resolved::File { id, .. } if id == x));
    let idx = index(vec![note("index.md", "x [[alpha]]\n"), note("x/alpha.md", "a\n"), note("y/alpha.md", "a\n")]);
    let (x, y) = (idx.id("x/alpha.md").unwrap(), idx.id("y/alpha.md").unwrap());
    assert!(matches!(
        resolved_to(&idx, "index.md", 0),
        Resolved::Ambiguous { pick, others, .. } if pick == x && others == [y]
    ));
}

#[test]
fn nfd_file_names_match_nfc_links() {
    let idx = index(vec![note("cafe\u{301}.md", "x\n"), note("a.md", "[[café]]\n")]);
    let target = idx.id("cafe\u{301}.md").unwrap();
    assert!(matches!(resolved_to(&idx, "a.md", 0), Resolved::File { id, .. } if id == target));
    assert_eq!(key("Café"), key("CAFE\u{301}"));
}

#[test]
fn unresolved_links_and_backlinks() {
    let idx = broken();
    let hub = idx.id("hub.md").unwrap();
    assert_eq!(idx.back[hub], [(idx.id("orphan.md").unwrap(), 0)]);
    let missing = index(vec![note("a.md", "[[nowhere]] [[Nowhere.md]]\n")]);
    assert_eq!(resolved_to(&missing, "a.md", 0), Resolved::Unresolved);
    let groups = missing.unresolved();
    assert_eq!(groups.len(), 1);
    assert_eq!(groups[0].shown, "nowhere");
    assert_eq!(groups[0].sources.len(), 2);
    assert!(!groups[0].ambiguous);
}

#[test]
fn ambiguous_groups_list_candidates_by_path() {
    let idx = index(vec![note("a.md", "[[dup]]\n"), note("z/dup.md", "z\n"), note("b/dup.md", "b\n")]);
    let groups = idx.unresolved();
    assert_eq!(groups.len(), 1);
    assert!(groups[0].ambiguous);
    let names: Vec<&str> = groups[0].candidates.iter().map(|&c| idx.files[c].rel.as_str()).collect();
    assert_eq!(names, ["b/dup.md", "z/dup.md"]);
    assert_eq!(groups[0].key, "dup");
}

#[test]
fn tags_fold_case_keep_the_most_used_spelling_and_count_notes() {
    let idx = index(vec![
        note("a.md", "#Project/Alpha #project/beta\n"),
        note("b.md", "#project/alpha #project/alpha\n"),
        note("c.md", "#project/ALPHA #solo\n"),
    ]);
    let tags = idx.tags();
    let top: Vec<(&str, usize)> = tags.iter().filter(|t| t.depth == 0).map(|t| (t.shown.as_str(), t.count)).collect();
    assert_eq!(top, [("project", 3), ("solo", 1)]);
    let kids: Vec<(String, usize, usize)> = tags.iter().filter(|t| t.depth == 1).map(|t| (t.name(), t.count, t.notes.len())).collect();
    assert_eq!(kids, [("alpha".to_string(), 3, 3), ("beta".to_string(), 1, 1)]);
    let keys: Vec<&str> = tags.iter().map(|t| t.key.as_str()).collect();
    assert_eq!(keys, ["project", "project/alpha", "project/beta", "solo"]);
}

#[test]
fn orphans_skip_self_links_excluded_notes_and_attachments() {
    let mut hidden = note("hidden.md", "nobody links here\n");
    hidden.excluded = true;
    hidden.parsed = None;
    let idx = index(vec![note("a.md", "[[a]] only myself\n"), note("b.md", "[[c]]\n"), note("c.md", "linked from b\n"), hidden, attachment("pic.png")]);
    let orphans: Vec<&str> = idx.orphans().into_iter().map(|id| idx.files[id].rel.as_str()).collect();
    assert_eq!(orphans, ["a.md", "b.md"]);
}

#[test]
fn shortest_links_and_ids() {
    let idx = index(vec![note("a/x.md", "1\n"), note("b/x.md", "2\n"), note("c/y.md", "3\n")]);
    assert_eq!(idx.shortest_link(idx.id("c/y.md").unwrap()), "y");
    assert_eq!(idx.shortest_link(idx.id("a/x.md").unwrap()), "a/x");
    assert_eq!(idx.id("A/X.md"), idx.id("a/x.md"));
    assert_eq!(idx.id("missing.md"), None);
}

#[test]
fn hops_limit_the_walk() {
    let index = broken();
    let hub = index.id("hub.md").unwrap();
    let one = local(&index, hub, 1, None);
    let names: Vec<&str> = one.nodes.iter().map(|n| index.files[n.id].rel.as_str()).collect();
    assert_eq!(names, ["hub.md", "loop-a.md", "orphan.md", "ref.md"]);
    assert_eq!(one.nodes[2].mark, Mark::In);
    let two = local(&index, hub, 2, None);
    assert_eq!(two.nodes.len(), 6);
    assert_eq!(local(&index, hub, 0, None).nodes.len(), 1);
}

#[test]
fn the_cap_cuts_the_farthest_hop_first() {
    let index = broken();
    let hub = index.id("hub.md").unwrap();
    let capped = local(&index, hub, 2, Some(4));
    assert_eq!(capped.left_out, 2);
    assert!(capped.nodes.iter().all(|n| n.hop <= 1));
    let lines = tree(&index, &capped);
    assert_eq!(lines.last().unwrap(), "(2 more not shown)");
    assert_eq!(tree_checked(&index, &capped), Some(lines));
    // A node listed before the node that reached it is refused.
    let mut reordered = capped.clone();
    reordered.nodes.swap(0, 1);
    assert_eq!(tree_checked(&index, &reordered), None);
}

#[test]
fn dot_escapes_and_lists_edges() {
    let index = broken();
    let a = index.id("loop-a.md").unwrap();
    let text = dot(&index, &local(&index, a, 1, None));
    assert!(text.starts_with("digraph knapp {\n"));
    assert!(text.contains("  \"loop-a.md\" -> \"loop-b.md\";\n"));
    assert!(text.contains("  \"loop-c.md\" -> \"loop-a.md\";\n"));
    assert!(text.ends_with("}\n"));
}

#[test]
fn cache_files_are_named_by_the_root_digest() {
    assert_eq!(
        cache_path("/c", "/vault"),
        "/c/index/".to_string() + "27d33c883a0ee639bfd4331c771837a43407083ac5172d8aeefd14a0a48a9ca5" + ".json"
    );
}

#[test]
fn heading_lines_follow_nested_fragments() {
    let idx = index(vec![
        note("h.md", "# Top\ntext\n## Sub Part\nmore\n# Other\n## Sub Part\n"),
        attachment("pic.png"),
    ]);
    let h = idx.id("h.md").unwrap();
    assert_eq!(idx.heading_line(h, "Top", false), Some(1));
    assert_eq!(idx.heading_line(h, "Other#Sub Part", false), Some(6));
    assert_eq!(idx.heading_line(h, "Top#Sub Part", false), Some(3));
    assert_eq!(idx.heading_line(h, "sub-part", true), Some(3));
    assert_eq!(idx.heading_line(h, "sub-part", false), None);
    assert_eq!(idx.heading_line(h, "^block", false), None);
    assert_eq!(idx.heading_line(h, "Missing", false), None);
    assert_eq!(idx.heading_line(idx.id("pic.png").unwrap(), "Top", false), None);
}

#[test]
fn block_lines_match_the_id_at_a_line_end() {
    let text = "intro\nA claim ^Claim-1  \nmore ^other\nlast ^claim-1\n";
    assert_eq!(block_line(text, "claim-1"), Some(2));
    assert_eq!(block_line(text, "CLAIM-1"), Some(2));
    assert_eq!(block_line(text, "other"), Some(3));
    assert_eq!(block_line(text, "missing"), None);
    assert_eq!(block_line("x^claim\n", "claim"), None);
}

#[test]
fn unresolved_groups_fold_case_and_md_and_list_sources_in_link_order() {
    let idx = index(vec![
        note("a.md", "[[Gone]] [[gone.md]]\n[[x]]\n"),
        note("b.md", "[[GONE]]\n"),
        note("c/x.md", "1\n"),
        note("d/x.md", "2\n"),
    ]);
    let groups = idx.unresolved();
    assert_eq!(groups.len(), 2);
    assert!(!groups[0].ambiguous);
    assert_eq!(groups[0].key, "gone");
    assert_eq!(groups[0].shown, "Gone");
    let sources: Vec<(usize, u32)> = groups[0].sources.iter().map(|s| (s.file, s.line)).collect();
    assert_eq!(sources, vec![(0, 1), (0, 1), (1, 1)]);
    assert!(groups[1].ambiguous);
    assert_eq!(groups[1].key, "x");
    let cands: Vec<&str> = groups[1].candidates.iter().map(|&c| idx.files[c].rel.as_str()).collect();
    assert_eq!(cands, ["c/x.md", "d/x.md"]);
    assert_eq!(groups[1].sources[0].pick, Some(2));
    assert_eq!(target_key("Notes/Gone.MD"), "notes/gone");
    assert_eq!(target_key("gone"), "gone");
}

#[test]
fn tag_levels_count_notes_under_them() {
    let idx = index(vec![
        note("a.md", "#Project/alpha #project\n"),
        note("b.md", "#project/Alpha #project/beta\n"),
        note("c.md", "#project/alpha\n"),
    ]);
    let tags = idx.tags();
    let rows: Vec<(&str, &str, usize, usize, Vec<usize>)> =
        tags.iter().map(|t| (t.key.as_str(), t.shown.as_str(), t.depth, t.count, t.notes.clone())).collect();
    assert_eq!(
        rows,
        vec![
            ("project", "project", 0, 3, vec![0]),
            ("project/alpha", "Project/alpha", 1, 3, vec![0, 1, 2]),
            ("project/beta", "project/beta", 1, 1, vec![1]),
        ]
    );
    assert_eq!(tags[1].name(), "alpha");
}

#[test]
fn a_sweep_reports_the_paths_it_no_longer_finds_sorted() {
    let old: Vec<String> = ["z.md", "a/b.md", "a-c.md", "keep.md", "B.md"].iter().map(|s| s.to_string()).collect();
    let now: Vec<String> = ["keep.md", "new.md"].iter().map(|s| s.to_string()).collect();
    assert_eq!(removed_paths(&old, &now), vec!["B.md", "a-c.md", "a/b.md", "z.md"]);
    assert!(removed_paths(&old, &old).is_empty());
    assert!(removed_paths(&Vec::new(), &now).is_empty());
}

#[test]
fn a_taken_cell_sends_the_node_to_the_nearest_free_one() {
    let wants = vec![(1, 1), (1, 1), (1, 1), (5, 5), (-4, 1)];
    assert_eq!(place_cells(&wants, 3, 3), vec![(1, 1), (0, 0), (0, 1), (2, 2), (0, 2)]);
    assert_eq!(place_cells(&vec![(0, 0), (0, 0)], 1, 1), vec![(0, 0), (0, 0)]);
    assert!(place_cells(&Vec::new(), 3, 3).is_empty());
}
