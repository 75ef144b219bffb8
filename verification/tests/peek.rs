use knapp::peek::{clean_selection, from_url, note_shaped};

#[test]
fn file_urls() {
    let t = from_url("file:///Users/s/My%20Notes/a.md#Big%20Idea", "mbp.local").unwrap();
    assert_eq!(t.path, "/Users/s/My Notes/a.md");
    assert_eq!(t.fragment.as_deref(), Some("Big Idea"));
    // rg and ls write the host; this machine, short or full, and localhost pass.
    for host in ["mbp.local", "MBP", "localhost", ""] {
        let url = format!("file://{host}/tmp/a.md");
        assert!(from_url(&url, "mbp.local").is_ok(), "{url}");
    }
    assert!(from_url("file://other-box/tmp/a.md", "mbp.local")
        .unwrap_err()
        .contains("another machine"));
    assert!(from_url("https://x/a.md", "mbp").is_err());
    // Another machine that shares only the first label is refused.
    assert_eq!(
        from_url("file://mbp.elsewhere/tmp/a.md", "mbp.local").unwrap_err(),
        "a link to another machine (mbp.elsewhere)"
    );
    assert_eq!(from_url("file:///a.md#", "h").unwrap().fragment, None);
}

#[test]
fn selections() {
    let cases = [
        ("[[alpha]]", ("alpha", None)),
        ("  [[beta#Top|shown]] ", ("beta", Some("Top"))),
        ("![[img.png]]", ("img.png", None)),
        ("`notes/a.md`", ("notes/a.md", None)),
        ("\"dir/deep\"", ("dir/deep", None)),
        ("first line\nsecond", ("first line", None)),
        ("a.md#^blk", ("a.md", Some("^blk"))),
    ];
    for (input, (target, frag)) in cases {
        let (t, f) = clean_selection(input);
        assert_eq!((t.as_str(), f.as_deref()), (target, frag), "{input:?}");
    }
}

#[test]
fn clipboard_text_must_look_like_a_note() {
    let yes = [
        ("docs/PLAN.md", "docs/PLAN.md"),
        ("  docs/PLAN.md#Graph \n", "docs/PLAN.md#Graph"),
        ("docs/PLAN.md,", "docs/PLAN.md"),
        ("(see a.MD).", "(see a.MD"),
        ("[[alpha]]", "[[alpha]]"),
        ("![[img.png]]", "![[img.png]]"),
        ("`notes/a.md`", "`notes/a.md`"),
        ("/Users/s/My Notes/a.md", "/Users/s/My Notes/a.md"),
    ];
    for (input, want) in yes {
        assert_eq!(note_shaped(input).as_deref(), Some(want), "{input:?}");
    }
    let long = "x".repeat(1100);
    let no = [
        "",
        "hunter2",
        "https://example.com/a.md.html",
        "line one a.md\nline two",
        "a.md\tb.md",
        "notes/a.txt",
        long.as_str(),
    ];
    for input in no {
        assert_eq!(note_shaped(input), None, "{input:?}");
    }
}
