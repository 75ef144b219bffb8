use knapp::index::File;
use knapp::parse::parse;
use knapp::scan::Kind;
use knapp::index::Index;
use knapp::tui::rows::{hit_pieces, jump_row, recent, tag_rows, tree_rows, TagRow, TreeRow};

fn strings(list: &[&str]) -> Vec<String> {
    list.iter().map(|s| s.to_string()).collect()
}

fn row(path: &str, name: &str, depth: usize, folder: bool, open: bool) -> TreeRow {
    TreeRow { path: path.into(), name: name.into(), depth, folder, open }
}

#[test]
fn the_tree_shows_folded_folders_before_files() {
    let rels = strings(&["b.md", "Zeta/x.md", "alpha/deep/y.md", "alpha/z.md", "A.md"]);
    let rows = tree_rows(&rels, &[]);
    assert_eq!(
        rows,
        vec![
            row("alpha/", "alpha", 0, true, false),
            row("Zeta/", "Zeta", 0, true, false),
            row("A.md", "A.md", 0, false, false),
            row("b.md", "b.md", 0, false, false),
        ]
    );
}

#[test]
fn unfolded_folders_show_their_folders_then_files() {
    let rels = strings(&["alpha/z.md", "alpha/deep/y.md", "alpha/Bee.md", "top.md"]);
    let rows = tree_rows(&rels, &strings(&["alpha/"]));
    assert_eq!(
        rows,
        vec![
            row("alpha/", "alpha", 0, true, true),
            row("alpha/deep/", "deep", 1, true, false),
            row("alpha/Bee.md", "Bee.md", 1, false, false),
            row("alpha/z.md", "z.md", 1, false, false),
            row("top.md", "top.md", 0, false, false),
        ]
    );
    let deeper = tree_rows(&rels, &strings(&["alpha/", "alpha/deep/"]));
    assert_eq!(deeper[2], row("alpha/deep/y.md", "y.md", 2, false, false));
    let hidden = tree_rows(&rels, &strings(&["alpha/deep/"]));
    assert_eq!(hidden.len(), 2);
}

#[test]
fn same_names_differing_in_case_keep_both() {
    let rows = tree_rows(&strings(&["b.md", "B.md", "a.md"]), &[]);
    let names: Vec<&str> = rows.iter().map(|r| r.name.as_str()).collect();
    assert_eq!(names, ["a.md", "B.md", "b.md"]);
}

fn file(rel: &str, kind: Kind, excluded: bool, mtime_ns: u128) -> File {
    let parsed = if kind == Kind::Note { Some(parse("x\n")) } else { None };
    File { rel: rel.into(), kind, excluded, mtime_ns, size: 2, parsed }
}

#[test]
fn recent_lists_visible_notes_newest_first_then_by_path() {
    let files = vec![
        file("a.md", Kind::Note, false, 5),
        file("b.md", Kind::Note, false, 9),
        file("c.md", Kind::Note, true, 99),
        file("d.png", Kind::Attachment, false, 50),
        file("e.md", Kind::Note, false, 9),
    ];
    assert_eq!(recent(&files), vec![1, 4, 0]);
    assert!(recent(&Vec::new()).is_empty());
}

#[test]
fn a_jump_lands_on_the_first_row_of_its_line() {
    let source_line = [1, 1, 3, 3, 4, 7];
    assert_eq!(jump_row(&source_line, 3), 2);
    assert_eq!(jump_row(&source_line, 2), 2);
    assert_eq!(jump_row(&source_line, 5), 5);
    assert_eq!(jump_row(&source_line, 1), 0);
    assert_eq!(jump_row(&source_line, 8), 0);
    assert_eq!(jump_row(&[], 2), 0);
}

#[test]
fn tag_rows_show_unfolded_tags_with_their_notes_after_their_children() {
    let note = |rel: &str, text: &str| File { rel: rel.into(), kind: Kind::Note, excluded: false, mtime_ns: 1, size: 1, parsed: Some(parse(text)) };
    let idx = Index::from_files(
        "/v".into(),
        vec![note("a.md", "#p/x #p\n"), note("b.md", "#p/x/deep #q\n")],
        Vec::new(),
        Vec::new(),
    );
    let tags = idx.tags();
    let keys: Vec<&str> = tags.iter().map(|t| t.key.as_str()).collect();
    assert_eq!(keys, ["p", "p/x", "p/x/deep", "q"]);
    assert_eq!(tag_rows(&tags, &[]), vec![TagRow::Node(0), TagRow::Node(3)]);
    assert_eq!(
        tag_rows(&tags, &strings(&["p"])),
        vec![TagRow::Node(0), TagRow::Node(1), TagRow::Note { id: 0, depth: 0 }, TagRow::Node(3)]
    );
    assert_eq!(
        tag_rows(&tags, &strings(&["p", "p/x", "p/x/deep"])),
        vec![
            TagRow::Node(0),
            TagRow::Node(1),
            TagRow::Node(2),
            TagRow::Note { id: 1, depth: 2 },
            TagRow::Note { id: 0, depth: 1 },
            TagRow::Note { id: 0, depth: 0 },
            TagRow::Node(3),
        ]
    );
    assert_eq!(tag_rows(&tags, &strings(&["p/x"])), vec![TagRow::Node(0), TagRow::Node(3)]);
}

#[test]
fn hit_lines_are_cut_into_plain_and_marked_pieces() {
    assert_eq!(hit_pieces(11, 2, &[3..5, 7..9]), vec![(2, 3, false), (3, 5, true), (5, 7, false), (7, 9, true), (9, 11, false)]);
    assert_eq!(hit_pieces(11, 4, &[3..5, 6..20, 8..10]), vec![(4, 8, false), (8, 10, true), (10, 11, false)]);
    assert_eq!(hit_pieces(5, 0, &[]), vec![(0, 5, false)]);
}
