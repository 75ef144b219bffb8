use knapp::index::{Fragment, Resolved};
use knapp::parse::parse;
use knapp::render::{cut, is_image, render, split_at_width, split_words, Color, Rendered, Theme};

const PLAIN: Theme = Theme { color: false };

fn text_of(r: &Rendered) -> Vec<String> {
    r.lines
        .iter()
        .map(|l| l.iter().map(|s| s.content.as_str()).collect::<String>().trim_end().to_string())
        .collect()
}

fn render_str(text: &str, width: u16) -> Vec<String> {
    let parsed = parse(text);
    let states = vec![Resolved::Unresolved; parsed.links.len()];
    text_of(&render(text, &parsed, &states, width, true, PLAIN))
}

#[test]
fn blocks() {
    let text = "# Title\n\n- one\n- [ ] task\n  - nested\n\n1. first\n2. second\n\n> quote\n\n> [!warning] Careful\n> body\n\n```\ncode line that is too long for the width\n```\n\n| A | B |\n|---|---|\n| x | 日本 |\n\n---\n\nend %%hidden%% here\n";
    assert_eq!(
        render_str(text, 30),
        [
            "# Title",
            "",
            "• one",
            "• [ ] task",
            "      • nested",
            "",
            "1. first",
            "2. second",
            "",
            "│ quote",
            "",
            "│ ▌ Warning: Careful",
            "│ body",
            "",
            "  code line that is too long …",
            "",
            "A │ B",
            "──┼─────",
            "x │ 日本",
            "",
            "──────────────────────────────",
            "",
            "end  here",
        ]
    );
}

#[test]
fn wraps_at_width_and_keeps_punctuation_with_links() {
    let lines = render_str("See [[alpha]], then more words here to wrap.", 16);
    assert_eq!(lines, ["See alpha, then", "more words here", "to wrap."]);
    for l in render_str(&"word ".repeat(30), 12) {
        assert!(unicode_width::UnicodeWidthStr::width(l.as_str()) <= 12, "{l}");
    }
}

#[test]
fn hits_point_at_the_right_links() {
    let text = "Go to [[alpha]] and [[beta|the second]], then [text](gamma.md).\n";
    let parsed = parse(text);
    let states = vec![Resolved::Unresolved; parsed.links.len()];
    let r = render(text, &parsed, &states, 60, true, PLAIN);
    let rows = text_of(&r);
    let shown: Vec<String> = r
        .hits
        .iter()
        .map(|h| rows[h.line].chars().skip(h.cols.start as usize).take((h.cols.end - h.cols.start) as usize).collect())
        .collect();
    assert_eq!(shown, ["alpha", "the second", "text"]);
    let links: Vec<usize> = r.hits.iter().map(|h| h.link).collect();
    assert_eq!(links, [0, 1, 2]);
    assert_eq!(r.source_line.len(), r.lines.len());
}

#[test]
fn frontmatter_folded_and_open() {
    let text = "---\ntitle: Beta\ndraft: false\ncreated: 2026-09-22\naliases: [b, bee]\nowners:\n  - ana\n  - \"[[alpha]]\"\nweird: {a: 1}\n---\n# Top\n";
    let parsed = parse(text);
    let states = vec![Resolved::Unresolved; parsed.links.len()];
    let folded = text_of(&render(text, &parsed, &states, 60, true, PLAIN));
    assert_eq!(folded[0], "▸ frontmatter (6 keys)");
    let open = render(text, &parsed, &states, 60, false, PLAIN);
    let rows = text_of(&open);
    assert_eq!(rows[0], "▾ frontmatter");
    assert_eq!(rows[5], "  owners   ana, [[alpha]]");
    assert_eq!(open.hits.len(), 1);
    assert_eq!(open.hits[0].line, 5);
    assert_eq!(open.source_line[0], 1);
}

#[test]
fn link_colors_follow_state_and_no_color() {
    let text = "[[here]] [[missing]]";
    let parsed = parse(text);
    let states = vec![Resolved::File { id: 0, fragment: Fragment::Absent }, Resolved::Unresolved];
    let color = render(text, &parsed, &states, 40, true, Theme { color: true });
    let spans = &color.lines[0];
    assert_eq!(spans[0].style.fg, Some(Color::Cyan));
    assert_eq!(spans[2].style.fg, Some(Color::Red));
    let plain = render(text, &parsed, &states, 40, true, PLAIN);
    assert!(plain.lines[0].iter().all(|s| s.style.fg.is_none()));
}

#[test]
fn cut_marks_truncation() {
    assert_eq!(cut("abcdef", 4), "abc…");
    assert_eq!(cut("abc", 4), "abc");
    assert_eq!(cut("日本語", 4), "日…");
}

#[test]
fn words_split_on_spaces_only() {
    assert_eq!(split_words("a  b\u{a0}c\td"), ["a", "  ", "b\u{a0}c", "\t", "d"]);
    assert_eq!(split_at_width("日本語", 3), ("日".to_string(), "本語".to_string()));
    assert_eq!(split_at_width("abc", 0), ("a".to_string(), "bc".to_string()));
}

#[test]
fn images_by_extension() {
    assert!(is_image("a/b.PNG"));
    assert!(is_image("x.jpeg"));
    assert!(!is_image("notes.md"));
    assert!(!is_image("png"));
}

#[test]
fn external_links_show_their_url_and_images_a_placeholder() {
    let text = "[site](https://x.org) <https://y.org>\n\n![[pic.png]]\n";
    assert_eq!(render_str(text, 60), ["site <https://x.org> https://y.org", "", "[image:\u{a0}pic.png]"]);
}

#[test]
fn empty_text_renders_nothing() {
    let r = render("", &parse(""), &[], 40, true, PLAIN);
    assert!(r.lines.is_empty() && r.hits.is_empty() && r.source_line.is_empty());
}
