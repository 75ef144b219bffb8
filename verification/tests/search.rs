use knapp::search::{case_sensitive, note_matches, parse_rg_match, parse_rg_record, rg_args, search_goes_on, Match, RgRecord};

fn summary(ms: &[Match]) -> Vec<String> {
    ms.iter()
        .map(|m| {
            let marked: Vec<&str> = m.ranges.iter().map(|r| &m.text[r.clone()]).collect();
            format!("{}:{} {:?}", m.rel, m.line, marked)
        })
        .collect()
}

#[test]
fn builtin_smart_case_and_code() {
    let text = "# Syntax\n\nSome prose.\n\n`in-code` and more\n";
    assert_eq!(summary(&note_matches("syntax.md", text, "in-code")), ["syntax.md:5 [\"in-code\"]"]);
    let note = "alpha and Alpha\nALPHA\nbeta\n";
    let lower = note_matches("a.md", note, "alpha");
    let upper = note_matches("a.md", note, "Alpha");
    assert!(lower.len() > upper.len(), "{lower:?} {upper:?}");
    assert!(upper.iter().all(|m| m.ranges.iter().all(|r| &m.text[r.clone()] == "Alpha")));
    assert_eq!(summary(&lower), ["a.md:1 [\"alpha\", \"Alpha\"]", "a.md:2 [\"ALPHA\"]"]);
}

#[test]
fn smart_case_needs_an_uppercase_letter() {
    assert!(!case_sensitive("deep notes"));
    assert!(case_sensitive("Deep"));
    assert!(case_sensitive("Émile"));
    assert!(note_matches("a.md", "x\n", "").is_empty());
}

#[test]
fn lowercasing_that_changes_lengths_marks_nothing() {
    // `İ` lowercases to two chars: the line matches, unmarked.
    let m = note_matches("a.md", "İstanbul ist", "ist");
    assert_eq!(m.len(), 1);
    assert!(m[0].ranges.is_empty());
}

fn record(kind: &str, path: Option<&str>, text: &str, line: u64, subs: Vec<(Option<u64>, Option<u64>)>) -> RgRecord {
    RgRecord {
        kind: Some(kind.to_string()),
        path_text: path.map(str::to_string),
        lines_text: Some(text.to_string()),
        line_number: Some(line),
        submatches: Some(subs),
    }
}

#[test]
fn rg_json_records() {
    let m = parse_rg_match(r#"{"type":"match","data":{"path":{"text":"./a/b.md"},"lines":{"text":"hello World\n"},"line_number":3,"absolute_offset":0,"submatches":[{"match":{"text":"World"},"start":6,"end":11}]}}"#).unwrap();
    assert_eq!((m.rel.as_str(), m.line, m.text.as_str()), ("a/b.md", 3, "hello World"));
    assert_eq!(m.ranges, [std::ops::Range { start: 6, end: 11 }]);
    assert!(parse_rg_match(r#"{"type":"begin","data":{"path":{"text":"a.md"}}}"#).is_none());
    assert!(parse_rg_match(r#"{"type":"match","data":{"path":{"bytes":"/w=="},"lines":{"text":"x"},"line_number":1,"submatches":[]}}"#).is_none());
}

#[test]
fn rg_records_as_built_by_hand() {
    let m = parse_rg_record(&record("match", Some("./a/b.md"), "hello World\n", 3, vec![(Some(6), Some(11))])).unwrap();
    assert_eq!((m.rel.as_str(), m.line, m.text.as_str()), ("a/b.md", 3, "hello World"));
    assert!(parse_rg_record(&RgRecord {
        kind: Some("begin".into()),
        path_text: Some("a.md".into()),
        lines_text: None,
        line_number: None,
        submatches: None
    })
    .is_none());
    assert!(parse_rg_record(&record("match", None, "x", 1, vec![])).is_none());
}

#[test]
fn rg_lines_that_are_not_json_or_miss_fields_give_nothing() {
    assert!(parse_rg_match("not json").is_none());
    assert!(parse_rg_match("").is_none());
    assert!(parse_rg_match(r#"{"type":"match","data":{"path":{"text":"a.md"},"lines":{"text":"x"},"submatches":[]}}"#).is_none());
    assert!(parse_rg_match(r#"{"type":"match","data":{"path":{"text":"a.md"},"lines":{"text":"x"},"line_number":"1","submatches":[]}}"#).is_none());
    let m = parse_rg_match(r#"{"type":"match","data":{"path":{"text":"a.md"},"lines":{"text":"abc\r\n"},"line_number":7,"submatches":[{"start":0,"end":9},{"start":1},{"start":1,"end":2}]}}"#).unwrap();
    assert_eq!((m.rel.as_str(), m.line, m.text.as_str()), ("a.md", 7, "abc"));
    assert_eq!(m.ranges, [std::ops::Range { start: 1, end: 2 }]);
}

#[test]
fn a_search_stops_at_the_sink_the_cap_or_a_cancel() {
    assert!(search_goes_on(1, true, false));
    assert!(search_goes_on(499, true, false));
    assert!(!search_goes_on(500, true, false));
    assert!(!search_goes_on(3, false, false));
    assert!(!search_goes_on(3, true, true));
}

#[test]
fn rg_records_drop_ranges_past_the_text() {
    let m = parse_rg_record(&record("match", Some("a.md"), "abc\r\n", 1, vec![(Some(0), Some(9)), (Some(1), Some(2))])).unwrap();
    assert_eq!(m.text, "abc");
    assert_eq!(m.ranges, [std::ops::Range { start: 1, end: 2 }]);
}

#[test]
fn rg_arguments_skip_excluded_folders() {
    let args = rg_args("Deep Notes", &["skip/".to_string(), "file.md".to_string()]);
    assert_eq!(
        args,
        [
            "--json",
            "--fixed-strings",
            "--smart-case",
            "--no-ignore",
            "--iglob",
            "*.md",
            "--glob",
            "!skip/**",
            "--",
            "Deep Notes",
            "."
        ]
    );
}
