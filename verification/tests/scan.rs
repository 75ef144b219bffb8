use knapp::scan::{hidden_name, obsidian_filters, visit, Kind, Visit};

fn strings(list: &[&str]) -> Vec<String> {
    list.iter().map(|s| s.to_string()).collect()
}

#[test]
fn dot_names_are_always_skipped() {
    assert!(hidden_name(".obsidian"));
    assert!(!hidden_name("notes"));
    assert!(matches!(visit("", ".git", true, &[], &[]), Visit::Skip));
    assert!(matches!(visit("a/", ".hidden.md", false, &[], &[]), Visit::Skip));
}

#[test]
fn directories_descend_unless_excluded() {
    match visit("a/", "b", true, &[], &[]) {
        Visit::Descend(d) => assert_eq!(d, "a/b/"),
        other => panic!("{other:?}"),
    }
    assert!(matches!(visit("a/", "b", true, &strings(&["a/b/"]), &[]), Visit::Skip));
}

#[test]
fn files_are_kept_with_their_kind_and_obsidian_exclusion() {
    match visit("dir/", "x.md", false, &[], &strings(&["dir/"])) {
        Visit::Keep { rel, excluded, kind } => {
            assert_eq!(rel, "dir/x.md");
            assert!(excluded);
            assert_eq!(kind, Kind::Note);
        }
        other => panic!("{other:?}"),
    }
    assert!(matches!(visit("", "img.png", false, &strings(&["img.png"]), &[]), Visit::Skip));
}

#[test]
fn obsidian_filters_come_from_app_json() {
    let (prefixes, skipped) =
        obsidian_filters(r#"{"userIgnoreFilters":[" Archive/ ","/^tmp/","", 3, "Notes/Old.md"],"other":1}"#);
    assert_eq!(prefixes, strings(&["archive/", "notes/old.md"]));
    assert_eq!(skipped, strings(&["/^tmp/"]));
    assert_eq!(obsidian_filters("not json"), (Vec::new(), Vec::new()));
    assert_eq!(obsidian_filters(r#"{"userIgnoreFilters":"x"}"#), (Vec::new(), Vec::new()));
    assert_eq!(obsidian_filters("{}"), (Vec::new(), Vec::new()));
}
