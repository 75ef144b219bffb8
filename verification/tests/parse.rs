use knapp::parse::{parse, parsed_eq, percent_decode, LinkKind, Value};

fn tags(text: &str) -> Vec<String> {
    parse(text).tags.into_iter().map(|t| t.name).collect()
}

#[test]
fn wikilink_parts_and_spans() {
    let text = "See [[dir/Note#Sec|shown]] and ![[img.png]].\n[[n#^blk]] [[#Top]]";
    let links = parse(text).links;
    assert_eq!(links.len(), 4);

    let l = &links[0];
    assert_eq!(l.kind, LinkKind::Link);
    assert!(!l.markdown);
    assert_eq!(l.span, 4..26);
    assert_eq!(&text[l.span.clone()], "[[dir/Note#Sec|shown]]");
    assert_eq!(l.written, "[[dir/Note#Sec|shown]]");
    assert_eq!(l.target, "dir/Note");
    assert_eq!(l.fragment.as_deref(), Some("Sec"));
    assert_eq!(l.alias.as_deref(), Some("shown"));
    assert_eq!(l.line, 1);

    assert_eq!(links[1].kind, LinkKind::Embed);
    assert_eq!(links[1].target, "img.png");
    assert_eq!(&text[links[1].span.clone()], "![[img.png]]");

    assert_eq!(links[2].target, "n");
    assert_eq!(links[2].fragment.as_deref(), Some("^blk"));
    assert_eq!(links[2].line, 2);

    assert_eq!(links[3].target, "");
    assert_eq!(links[3].fragment.as_deref(), Some("Top"));
}

#[test]
fn markdown_links_decode_and_skip_schemes() {
    let text = "[a](my%20note.md#Deep%20Notes) [b](https://x.com/a.md) [c](mailto:a@b.c) [d](<sp ace.md>)";
    let links = parse(text).links;
    let targets: Vec<(&str, Option<&str>)> = links.iter().map(|l| (l.target.as_str(), l.fragment.as_deref())).collect();
    assert_eq!(targets, [("my note.md", Some("Deep Notes")), ("sp ace.md", None)]);
    assert!(links.iter().all(|l| l.markdown));
}

#[test]
fn table_escaped_pipe_strips_backslash() {
    let text = "| a | b |\n|---|---|\n| [[target\\|shown]] | x |\n";
    let links = parse(text).links;
    assert_eq!(links.len(), 1);
    assert_eq!(links[0].target, "target");
    assert_eq!(links[0].alias.as_deref(), Some("shown"));
    assert_eq!(links[0].written, "[[target\\|shown]]");
}

#[test]
fn comments_keep_offsets() {
    let text = "%%[[hidden]]%% [[shown]]";
    let links = parse(text).links;
    assert_eq!(links.len(), 1);
    assert_eq!(&text[links[0].span.clone()], "[[shown]]");
}

#[test]
fn tag_rules() {
    assert_eq!(
        tags("#a #nested/b x#no `#code` #123 #1a (#paren) \\#esc\n# Heading #in-heading"),
        ["a", "nested/b", "1a", "in-heading"]
    );
}

#[test]
fn frontmatter_tags_as_string_and_nested_map() {
    let parsed = parse("---\ntags: one, #two three\nmeta:\n  nested: x\n---\nbody\n");
    let names: Vec<&str> = parsed.tags.iter().map(|t| t.name.as_str()).collect();
    assert_eq!(names, ["one", "two", "three"]);
    assert_eq!(parsed.frontmatter[1], ("meta".into(), Value::Raw("  nested: x".into())));
}

#[test]
fn frontmatter_values_and_property_links() {
    let text = "---\ntitle: Beta\ndraft: false\ncreated: 2026-09-22\naliases: [b, bee]\nowners:\n  - ana\n  - \"[[alpha]]\"\n---\n# Top\n";
    let parsed = parse(text);
    assert_eq!(parsed.frontmatter[0], ("title".into(), Value::Str("Beta".into())));
    assert_eq!(parsed.frontmatter[1], ("draft".into(), Value::Bool(false)));
    assert_eq!(parsed.frontmatter[2], ("created".into(), Value::Date("2026-09-22".into())));
    assert_eq!(parsed.frontmatter[3], ("aliases".into(), Value::List(vec!["b".into(), "bee".into()])));
    assert_eq!(parsed.links[0].kind, LinkKind::Property);
    assert_eq!(parsed.links[0].target, "alpha");
    assert_eq!(&text[parsed.links[0].span.clone()], "[[alpha]]");
    assert_eq!(parsed.headings[0].level, 1);
    assert_eq!(parsed.headings[0].text, "Top");
}

#[test]
fn block_ids_and_code_are_skipped() {
    let parsed = parse("para one ^para1\n\n```\n[[in-code]] #in-code\n```\n`[[inline]]` [[real]]\n");
    assert_eq!(parsed.blocks, ["para1"]);
    let targets: Vec<&str> = parsed.links.iter().map(|l| l.target.as_str()).collect();
    assert_eq!(targets, ["real"]);
    assert!(parsed.tags.is_empty());
}

#[test]
fn percent_decoding_keeps_bad_escapes() {
    assert_eq!(percent_decode("a%20b%zz%"), "a b%zz%");
    assert_eq!(percent_decode("caf%C3%A9"), "café");
}

#[test]
fn equal_parses_compare_equal() {
    let a = parse("[[x]] #t\n");
    let b = parse("[[x]] #t\n");
    let c = parse("[[y]] #t\n");
    assert!(parsed_eq(&a, &b));
    assert!(!parsed_eq(&a, &c));
}

/// `vault-syntax/syntax.md`: links and tags in inline code, fenced code,
/// comments, an inline comment, `%%` inside code, an unclosed `%%`, and a
/// table with an escaped pipe.
const SYNTAX_MD: &str = "# Syntax

[[real]] #real-tag

`[[in-code]] #code-tag`

```
[[fenced]] #fenced-tag
```

%%
[[in-comment]] #comment-tag
%%

Inline %%[[inline-comment]] #inline-comment%% then [[after-comment]].

| a | b |
|---|---|
| [[table-target\\|shown]] | x |

`%%` and [[after-code-percent]]

%% unclosed [[never]] #never-tag
";

#[test]
fn syntax_fixture_skips_code_and_comments() {
    let parsed = parse(SYNTAX_MD);
    let targets: Vec<&str> = parsed.links.iter().map(|l| l.target.as_str()).collect();
    assert_eq!(targets, ["real", "after-comment", "table-target", "after-code-percent"]);
    let names: Vec<&str> = parsed.tags.iter().map(|t| t.name.as_str()).collect();
    assert_eq!(names, ["real-tag"]);
}

/// `vault-basic/index.md`, `alpha.md` and `beta.md`.
const INDEX_MD: &str = "---
tags: [home, meta/index]
up: \"[[dir/deep]]\"
---
# Index

Body #inline-tag and #nested/child, not #123.
";

const ALPHA_MD: &str = "# Alpha

A paragraph. ^para1
";

const BETA_MD: &str = "---
title: Beta
draft: false
created: 2026-09-22
aliases: [b, bee]
owners:
  - ana
  - \"[[alpha]]\"
weird: {a: 1}
---
# Top

## Inner

## Tagged #heading-tag
";

#[test]
fn vault_basic_tags_blocks_and_frontmatter() {
    let index = parse(INDEX_MD);
    let names: Vec<&str> = index.tags.iter().map(|t| t.name.as_str()).collect();
    assert_eq!(names, ["home", "meta/index", "inline-tag", "nested/child"]);
    assert_eq!(index.links[0].kind, LinkKind::Property);
    assert_eq!(index.links[0].written, "[[dir/deep]]");
    assert_eq!(index.links[0].line, 3);

    let alpha = parse(ALPHA_MD);
    assert_eq!(alpha.blocks, ["para1"]);
    assert!(alpha.tags.is_empty());

    let beta = parse(BETA_MD);
    let names: Vec<&str> = beta.tags.iter().map(|t| t.name.as_str()).collect();
    assert_eq!(names, ["heading-tag"]);
    let fm: Vec<(&str, &Value)> = beta.frontmatter.iter().map(|(k, v)| (k.as_str(), v)).collect();
    assert_eq!(
        fm,
        [
            ("title", &Value::Str("Beta".into())),
            ("draft", &Value::Bool(false)),
            ("created", &Value::Date("2026-09-22".into())),
            ("aliases", &Value::List(vec!["b".into(), "bee".into()])),
            ("owners", &Value::List(vec!["ana".into(), "[[alpha]]".into()])),
            ("weird", &Value::Raw("{a: 1}".into())),
        ]
    );
    let heads: Vec<(u8, &str)> = beta.headings.iter().map(|h| (h.level, h.text.as_str())).collect();
    assert_eq!(heads, [(1, "Top"), (2, "Inner"), (2, "Tagged #heading-tag")]);
    let link = &beta.links[0];
    assert_eq!(link.kind, LinkKind::Property);
    assert_eq!(link.target, "alpha");
    assert_eq!(link.line, 8);
    assert_eq!(&BETA_MD[link.span.clone()], "[[alpha]]");
}
