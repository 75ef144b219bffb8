use knapp::watch::{add, relevant, EventClass, FsEvent};

#[test]
fn dot_folders_and_the_cache_dir_are_ignored() {
    let root = "/v";
    let cache = Some("/v/.cache/knapp");
    assert_eq!(relevant(root, cache, "/v/notes/a.md").as_deref(), Some("notes/a.md"));
    assert_eq!(relevant(root, cache, "/v/.obsidian/app.json"), None);
    assert_eq!(relevant(root, cache, "/v/.cache/knapp/index/x.json"), None);
    assert_eq!(relevant(root, cache, "/elsewhere/a.md"), None);
    assert_eq!(relevant(root, cache, "/v").as_deref(), Some(""));
    assert_eq!(relevant(root, None, "/v//deep/./b.md").as_deref(), Some("deep/b.md"));
    assert_eq!(relevant("/v", Some("/cache"), "/vault/a.md"), None);
}

#[test]
fn create_edit_rename_delete() {
    let mut batch: Vec<String> = Vec::new();
    let ev = |class, paths: &[&str]| FsEvent::Named { class, paths: paths.iter().map(|s| s.to_string()).collect() };
    assert!(add("/v", None, &ev(EventClass::Change, &["/v/a.md", "/v/b.md"]), &mut batch));
    assert!(add("/v", None, &ev(EventClass::CloseWrite, &["/v/a.md"]), &mut batch));
    assert_eq!(batch, ["a.md", "b.md"]);
    // Opens and reads never count: the sweep makes them.
    assert!(!add("/v", None, &ev(EventClass::OtherAccess, &["/v/c.md"]), &mut batch));
    // A folder event counts but names no file.
    assert!(add("/v", None, &ev(EventClass::Change, &["/v"]), &mut batch));
    assert!(!add("/v", None, &ev(EventClass::Change, &["/v/.git/HEAD"]), &mut batch));
    // An error may mean anything changed.
    assert!(add("/v", None, &FsEvent::Failed, &mut batch));
    assert_eq!(batch, ["a.md", "b.md"]);
}
