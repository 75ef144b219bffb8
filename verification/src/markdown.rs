//! What pulldown-cmark reads in a note, as plain values: one entry per event
//! of its offset iterator, with wikilinks, tables and YAML metadata blocks
//! enabled.

use pulldown_cmark::Event::{Code, End, Start, Text};
use pulldown_cmark::Tag::{CodeBlock, Heading, Image, Link, MetadataBlock};
use pulldown_cmark::{Event, LinkType, Options, Parser, TagEnd};
use vstd::prelude::*;

verus! {

/// The kind of an event, as the note parser tells them apart.
#[derive(Debug, Clone, Copy, PartialEq, Eq, Structural)]
pub enum MdKind {
    Meta,
    MetaEnd,
    CodeBlock,
    CodeBlockEnd,
    Heading,
    HeadingEnd,
    Link,
    Image,
    LinkEnd,
    Text,
    Code,
    Other,
}

/// What an event carries besides its kind: the text of a text or code
/// event, the destination of a link or image, the level of a heading.
#[derive(Debug, Clone, PartialEq, Eq)]
pub enum Payload {
    Str(String),
    Level(u8),
    Nothing,
}

/// The kind of link a link or image start is.
#[derive(Debug, Clone, Copy, PartialEq, Eq, Structural)]
pub enum LinkStyle {
    /// `[[target]]`, piped or not.
    Wiki(bool),
    /// `[text](dest)` and the reference forms.
    Plain,
    /// Autolinks, e-mail autolinks, and events that are not links.
    Auto,
}

/// A payload with its string taken as chars.
pub open spec fn payload_view(p: Payload) -> Option<Result<Seq<char>, u8>> {
    match p {
        Payload::Str(s) => Some(Ok(s@)),
        Payload::Level(l) => Some(Err(l)),
        Payload::Nothing => None,
    }
}

/// Payloads with their strings taken as chars.
pub open spec fn payload_views(ps: Seq<Payload>) -> Seq<Option<Result<Seq<char>, u8>>> {
    ps.map_values(|p: Payload| payload_view(p))
}

/// The kind and byte range of each event pulldown-cmark yields for `text`.
pub uninterp spec fn md_kinds_of(text: Seq<char>) -> Seq<(MdKind, usize, usize)>;

/// The payload of each event pulldown-cmark yields for `text`.
pub uninterp spec fn md_payloads_of(text: Seq<char>) -> Seq<Option<Result<Seq<char>, u8>>>;

/// The link style of each event pulldown-cmark yields for `text`.
pub uninterp spec fn md_styles_of(text: Seq<char>) -> Seq<LinkStyle>;

/// `Parser::new_ext(..).into_offset_iter()`: each event's kind and byte
/// range. The contract names the sequence and claims nothing else of it.
#[verifier::external_body]
pub fn md_kinds(text: &str) -> (r: Vec<(MdKind, std::ops::Range<usize>)>)
    ensures
        r@.map_values(|e: (MdKind, std::ops::Range<usize>)| (e.0, e.1.start, e.1.end)) == md_kinds_of(text@),
{
    let o = Options::ENABLE_WIKILINKS | Options::ENABLE_TABLES | Options::ENABLE_YAML_STYLE_METADATA_BLOCKS;
    Parser::new_ext(text, o).into_offset_iter().map(|(e, r)| (match e {
        Start(MetadataBlock(_)) => MdKind::Meta,
        End(TagEnd::MetadataBlock(_)) => MdKind::MetaEnd,
        Start(CodeBlock(_)) => MdKind::CodeBlock,
        End(TagEnd::CodeBlock) => MdKind::CodeBlockEnd,
        Start(Heading { .. }) => MdKind::Heading,
        End(TagEnd::Heading(_)) => MdKind::HeadingEnd,
        Start(Link { .. }) => MdKind::Link,
        Start(Image { .. }) => MdKind::Image,
        End(TagEnd::Link | TagEnd::Image) => MdKind::LinkEnd,
        Text(_) => MdKind::Text,
        Code(_) => MdKind::Code,
        _ => MdKind::Other,
    }, r)).collect()
}

/// `Parser::new_ext(..)`: each event's text, destination or heading level.
/// The contract names the sequence and claims nothing else of it.
#[verifier::external_body]
pub fn md_payloads(text: &str) -> (r: Vec<Payload>)
    ensures
        payload_views(r@) == md_payloads_of(text@),
{
    let o = Options::ENABLE_WIKILINKS | Options::ENABLE_TABLES | Options::ENABLE_YAML_STYLE_METADATA_BLOCKS;
    Parser::new_ext(text, o).map(|e: Event| match e {
        Text(t) | Code(t) => Payload::Str(t.into_string()),
        Start(Link { dest_url: t, .. } | Image { dest_url: t, .. }) => Payload::Str(t.into_string()),
        Start(Heading { level, .. }) => Payload::Level(level as u8),
        _ => Payload::Nothing,
    }).collect()
}

/// `Parser::new_ext(..)`: each link or image start's link type.
/// The contract names the sequence and claims nothing else of it.
#[verifier::external_body]
pub fn md_styles(text: &str) -> (r: Vec<LinkStyle>)
    ensures
        r@ == md_styles_of(text@),
{
    let o = Options::ENABLE_WIKILINKS | Options::ENABLE_TABLES | Options::ENABLE_YAML_STYLE_METADATA_BLOCKS;
    Parser::new_ext(text, o).map(|e: Event| match e {
        Start(Link { link_type: t, .. } | Image { link_type: t, .. }) => match t {
            LinkType::WikiLink { has_pothole } => LinkStyle::Wiki(has_pothole),
            LinkType::Inline | LinkType::Reference | LinkType::ReferenceUnknown => LinkStyle::Plain,
            LinkType::Collapsed | LinkType::CollapsedUnknown => LinkStyle::Plain,
            LinkType::Shortcut | LinkType::ShortcutUnknown => LinkStyle::Plain,
            LinkType::Autolink | LinkType::Email => LinkStyle::Auto,
        },
        _ => LinkStyle::Auto,
    }).collect()
}

} // verus!
