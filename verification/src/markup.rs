//! What pulldown-cmark reads in a note for the detail panel, as plain
//! values: the parse options of the note parser with task lists and
//! strikethrough added. Each event is described by four parallel sequences:
//! its shape and payload, and what it starts or ends.

use pulldown_cmark::Event::{self, Code, DisplayMath, End, FootnoteReference, Html, InlineHtml, InlineMath, Rule, Start, Text};
use pulldown_cmark::Event::{HardBreak, SoftBreak, TaskListMarker};
use pulldown_cmark::LinkType::{Autolink, Email};
use pulldown_cmark::Tag::{Emphasis, Image, Link, Strikethrough, Strong};
use pulldown_cmark::{Options, Parser, Tag, TagEnd};
use vstd::prelude::*;

verus! {

/// An event that neither starts nor ends an element, with the text it
/// carries.
#[derive(Debug, Clone, PartialEq, Eq)]
pub enum Leaf {
    Text(String),
    Code(String),
    /// Block or inline HTML.
    Html(String),
    /// A footnote reference, by its label.
    Note(String),
    /// Inline or display math.
    Math(String),
    Soft,
    Hard,
    Rule,
    /// A task list marker, checked or not.
    Task(bool),
}

/// An event by its shape alone.
#[derive(Debug, Clone, Copy, PartialEq, Eq, Structural)]
pub enum Shape {
    Start,
    End,
    Text,
    Code,
    Html,
    Note,
    Math,
    Soft,
    Hard,
    Rule,
    Task(bool),
}

/// The block an event starts; `Other` for anything else.
#[derive(Debug, Clone, Copy, PartialEq, Eq, Structural)]
pub enum Block {
    Paragraph,
    Heading(u8),
    Quote,
    CodeBlock,
    /// A list, with the number of its first item when ordered.
    List(Option<u64>),
    Item,
    Table,
    /// The header row or a body row of a table.
    Row,
    Cell,
    Metadata,
    Other,
}

/// The block an event ends; `Other` for anything else.
#[derive(Debug, Clone, Copy, PartialEq, Eq, Structural)]
pub enum BlockEnd {
    Paragraph,
    Heading,
    Quote,
    CodeBlock,
    List,
    Item,
    TableHead,
    Cell,
    Table,
    Metadata,
    Other,
}

/// The inline element an event starts or ends; `Other` for anything else.
#[derive(Debug, Clone, PartialEq, Eq)]
pub enum Inline {
    Emphasis,
    Strong,
    Strikethrough,
    /// An autolink or e-mail autolink, with its destination.
    AutoLink(String),
    /// Any other link, with its destination.
    Link(String),
    Image(String),
    /// The end of emphasis, strong or strikethrough.
    StyleEnd,
    LinkEnd,
    ImageEnd,
    Other,
}

/// An inline element with its destination taken as chars.
pub enum InlineView {
    Emphasis,
    Strong,
    Strikethrough,
    AutoLink(Seq<char>),
    Link(Seq<char>),
    Image(Seq<char>),
    StyleEnd,
    LinkEnd,
    ImageEnd,
    Other,
}

pub open spec fn inline_view(i: Inline) -> InlineView {
    match i {
        Inline::Emphasis => InlineView::Emphasis,
        Inline::Strong => InlineView::Strong,
        Inline::Strikethrough => InlineView::Strikethrough,
        Inline::AutoLink(s) => InlineView::AutoLink(s@),
        Inline::Link(s) => InlineView::Link(s@),
        Inline::Image(s) => InlineView::Image(s@),
        Inline::StyleEnd => InlineView::StyleEnd,
        Inline::LinkEnd => InlineView::LinkEnd,
        Inline::ImageEnd => InlineView::ImageEnd,
        Inline::Other => InlineView::Other,
    }
}

/// The shape and byte range of each event pulldown-cmark yields.
pub uninterp spec fn shapes_of(text: Seq<char>) -> Seq<(Shape, usize, usize)>;

/// The text each event carries, if any.
pub uninterp spec fn payloads_of(text: Seq<char>) -> Seq<Option<Seq<char>>>;

/// The block each event starts.
pub uninterp spec fn blocks_of(text: Seq<char>) -> Seq<Block>;

/// The block each event ends.
pub uninterp spec fn block_ends_of(text: Seq<char>) -> Seq<BlockEnd>;

/// The inline element each event starts or ends.
pub uninterp spec fn inlines_of(text: Seq<char>) -> Seq<InlineView>;

/// `Parser::new_ext(..).into_offset_iter()`: each event's shape and byte
/// range. The contract names the sequence and claims nothing else.
#[verifier::external_body]
pub fn shapes(text: &str) -> (r: Vec<(Shape, std::ops::Range<usize>)>)
    ensures
        r@.map_values(|e: (Shape, std::ops::Range<usize>)| (e.0, e.1.start, e.1.end)) == shapes_of(text@),
{
    let o = Options::ENABLE_WIKILINKS | Options::ENABLE_TABLES | Options::ENABLE_YAML_STYLE_METADATA_BLOCKS | Options::ENABLE_TASKLISTS | Options::ENABLE_STRIKETHROUGH;
    Parser::new_ext(text, o).into_offset_iter().map(|(e, r)| (match e {
        Start(_) => Shape::Start,
        End(_) => Shape::End,
        Text(_) => Shape::Text,
        Code(_) => Shape::Code,
        Html(_) | InlineHtml(_) => Shape::Html,
        FootnoteReference(_) => Shape::Note,
        InlineMath(_) | DisplayMath(_) => Shape::Math,
        SoftBreak => Shape::Soft,
        HardBreak => Shape::Hard,
        Rule => Shape::Rule,
        TaskListMarker(b) => Shape::Task(b),
    }, r)).collect()
}

/// `Parser::new_ext(..)`: the text each event carries. The contract names
/// the sequence and claims nothing else.
#[verifier::external_body]
pub fn payloads(text: &str) -> (r: Vec<Option<String>>)
    ensures
        r@.map_values(|p: Option<String>| crate::text::opt_string_view(p)) == payloads_of(text@),
{
    let o = Options::ENABLE_WIKILINKS | Options::ENABLE_TABLES | Options::ENABLE_YAML_STYLE_METADATA_BLOCKS | Options::ENABLE_TASKLISTS | Options::ENABLE_STRIKETHROUGH;
    Parser::new_ext(text, o).map(|e: Event| match e {
        Text(t) | Code(t) | Html(t) | InlineHtml(t) | FootnoteReference(t) | InlineMath(t) | DisplayMath(t) => Some(t.into_string()),
        _ => None,
    }).collect()
}

/// `Parser::new_ext(..)`: the block each event starts. The contract names
/// the sequence and claims nothing else.
#[verifier::external_body]
pub fn blocks(text: &str) -> (r: Vec<Block>)
    ensures
        r@ == blocks_of(text@),
{
    let o = Options::ENABLE_WIKILINKS | Options::ENABLE_TABLES | Options::ENABLE_YAML_STYLE_METADATA_BLOCKS | Options::ENABLE_TASKLISTS | Options::ENABLE_STRIKETHROUGH;
    Parser::new_ext(text, o).map(|e: Event| match e {
        Start(Tag::Paragraph) => Block::Paragraph,
        Start(Tag::Heading { level, .. }) => Block::Heading(level as u8),
        Start(Tag::BlockQuote(_)) => Block::Quote,
        Start(Tag::CodeBlock(_)) => Block::CodeBlock,
        Start(Tag::List(n)) => Block::List(n),
        Start(Tag::Item) => Block::Item,
        Start(Tag::Table(_)) => Block::Table,
        Start(Tag::TableHead | Tag::TableRow) => Block::Row,
        Start(Tag::TableCell) => Block::Cell,
        Start(Tag::MetadataBlock(_)) => Block::Metadata,
        _ => Block::Other,
    }).collect()
}

/// `Parser::new_ext(..)`: the block each event ends. The contract names
/// the sequence and claims nothing else.
#[verifier::external_body]
pub fn block_ends(text: &str) -> (r: Vec<BlockEnd>)
    ensures
        r@ == block_ends_of(text@),
{
    let o = Options::ENABLE_WIKILINKS | Options::ENABLE_TABLES | Options::ENABLE_YAML_STYLE_METADATA_BLOCKS | Options::ENABLE_TASKLISTS | Options::ENABLE_STRIKETHROUGH;
    Parser::new_ext(text, o).map(|e: Event| match e {
        End(TagEnd::Paragraph) => BlockEnd::Paragraph,
        End(TagEnd::Heading(_)) => BlockEnd::Heading,
        End(TagEnd::BlockQuote(_)) => BlockEnd::Quote,
        End(TagEnd::CodeBlock) => BlockEnd::CodeBlock,
        End(TagEnd::List(_)) => BlockEnd::List,
        End(TagEnd::Item) => BlockEnd::Item,
        End(TagEnd::TableHead) => BlockEnd::TableHead,
        End(TagEnd::TableCell) => BlockEnd::Cell,
        End(TagEnd::Table) => BlockEnd::Table,
        End(TagEnd::MetadataBlock(_)) => BlockEnd::Metadata,
        _ => BlockEnd::Other,
    }).collect()
}

/// `Parser::new_ext(..)`: the inline element each event starts or ends. The
/// contract names the sequence and claims nothing else.
#[verifier::external_body]
pub fn inlines(text: &str) -> (r: Vec<Inline>)
    ensures
        r@.map_values(|i: Inline| inline_view(i)) == inlines_of(text@),
{
    let o = Options::ENABLE_WIKILINKS | Options::ENABLE_TABLES | Options::ENABLE_YAML_STYLE_METADATA_BLOCKS | Options::ENABLE_TASKLISTS | Options::ENABLE_STRIKETHROUGH;
    Parser::new_ext(text, o).map(|e: Event| match e {
        Start(Emphasis) => Inline::Emphasis,
        Start(Strong) => Inline::Strong,
        Start(Strikethrough) => Inline::Strikethrough,
        Start(Link { link_type: Autolink | Email, dest_url: t, .. }) => Inline::AutoLink(t.into_string()),
        Start(Link { dest_url: t, .. }) => Inline::Link(t.into_string()),
        Start(Image { dest_url: t, .. }) => Inline::Image(t.into_string()),
        End(TagEnd::Emphasis | TagEnd::Strong | TagEnd::Strikethrough) => Inline::StyleEnd,
        End(TagEnd::Link) => Inline::LinkEnd,
        End(TagEnd::Image) => Inline::ImageEnd,
        _ => Inline::Other,
    }).collect()
}

} // verus!
