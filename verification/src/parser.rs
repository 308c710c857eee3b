//! Reading a markdown document into events.
//!
//! The parsing itself is the work of `pulldown_cmark`. Nothing is proved of
//! it here: the events of a text are known to this crate by name only, as
//! [`parsed`].

use vstd::prelude::*;

use crate::event::{Element, LinkKind, Spanned, Token};

verus! {

/// `pulldown_cmark::Event`, of which nothing is known here beyond its name.
#[verifier::external_type_specification]
#[verifier::external_body]
pub struct ExMarkdownEvent<'a>(pulldown_cmark::Event<'a>);

/// `pulldown_cmark::Tag`, of which nothing is known here beyond its name.
#[verifier::external_type_specification]
#[verifier::external_body]
pub struct ExMarkdownTag<'a>(pulldown_cmark::Tag<'a>);

/// `pulldown_cmark::LinkType`, of which nothing is known here beyond its
/// name.
#[verifier::external_type_specification]
#[verifier::external_body]
pub struct ExMarkdownLinkType(pulldown_cmark::LinkType);

/// The events that `pulldown_cmark` reads from a text when strikethrough and
/// task lists are switched on, each with the span of the text that it
/// covers.
pub uninterp spec fn parsed(text: Seq<char>) -> Seq<Spanned>;

/// `pulldown_cmark::Parser::new_ext` with the extensions for strikethrough
/// and task lists, followed by `into_offset_iter`, run to its end. The
/// result depends on the text alone, which is all that the contract says of
/// it. Each event is turned into a [`Token`] of this crate.
#[verifier::external_body]
fn parse_markdown(text: &str) -> (events: Vec<Spanned>)
    ensures
        events@ == parsed(text@),
{
    let mut options = pulldown_cmark::Options::empty();
    options.insert(pulldown_cmark::Options::ENABLE_STRIKETHROUGH);
    options.insert(pulldown_cmark::Options::ENABLE_TASKLISTS);
    pulldown_cmark::Parser::new_ext(text, options)
        .into_offset_iter()
        .map(|(event, at)| Spanned { event: event_from(event), start: at.start, end: at.end })
        .collect()
}

/// Turns a `pulldown_cmark::Event` into a [`Token`], variant by variant.
/// Texts are copied; the label of a footnote reference is dropped.
#[verifier::external_body]
fn event_from(event: pulldown_cmark::Event<'_>) -> Token {
    match event {
        pulldown_cmark::Event::Start(tag) => Token::Start(tag_from(tag)),
        pulldown_cmark::Event::End(tag) => Token::End(tag_from(tag)),
        pulldown_cmark::Event::Text(text) => Token::Text(text.into_string()),
        pulldown_cmark::Event::Code(text) => Token::Code(text.into_string()),
        pulldown_cmark::Event::Html(text) => Token::Html(text.into_string()),
        pulldown_cmark::Event::FootnoteReference(_) => Token::FootnoteReference,
        pulldown_cmark::Event::SoftBreak => Token::SoftBreak,
        pulldown_cmark::Event::HardBreak => Token::HardBreak,
        pulldown_cmark::Event::Rule => Token::Rule,
        pulldown_cmark::Event::TaskListMarker(checked) => Token::TaskListMarker(checked),
    }
}

/// Turns a `pulldown_cmark::Tag` into an [`Element`]: here the variants for
/// elements inside a line of text. Of a link or image the destination is
/// copied, its kind is turned into a [`LinkKind`], and its title is dropped.
#[verifier::external_body]
fn tag_from(tag: pulldown_cmark::Tag<'_>) -> Element {
    match tag {
        pulldown_cmark::Tag::Emphasis => Element::Emphasis,
        pulldown_cmark::Tag::Strong => Element::Strong,
        pulldown_cmark::Tag::Strikethrough => Element::Strikethrough,
        pulldown_cmark::Tag::Link(kind, url, _) => {
            Element::Link { kind: kind_from(kind), url: url.into_string() }
        },
        pulldown_cmark::Tag::Image(kind, url, _) => {
            Element::Image { kind: kind_from(kind), url: url.into_string() }
        },
        block => block_tag_from(block),
    }
}

/// Turns a `pulldown_cmark::LinkType` into the [`LinkKind`] of the same
/// name, variant by variant.
#[verifier::external_body]
fn kind_from(kind: pulldown_cmark::LinkType) -> LinkKind {
    match kind {
        pulldown_cmark::LinkType::Inline => LinkKind::Inline,
        pulldown_cmark::LinkType::Reference => LinkKind::Reference,
        pulldown_cmark::LinkType::ReferenceUnknown => LinkKind::ReferenceUnknown,
        pulldown_cmark::LinkType::Collapsed => LinkKind::Collapsed,
        pulldown_cmark::LinkType::CollapsedUnknown => LinkKind::CollapsedUnknown,
        pulldown_cmark::LinkType::Shortcut => LinkKind::Shortcut,
        pulldown_cmark::LinkType::ShortcutUnknown => LinkKind::ShortcutUnknown,
        pulldown_cmark::LinkType::Autolink => LinkKind::Autolink,
        pulldown_cmark::LinkType::Email => LinkKind::Email,
    }
}

/// Turns a `pulldown_cmark::Tag` into an [`Element`]: here the variants for
/// blocks. The language of a code block, the label of a footnote and the
/// alignments of a table are dropped.
#[verifier::external_body]
fn block_tag_from(tag: pulldown_cmark::Tag<'_>) -> Element {
    match tag {
        pulldown_cmark::Tag::Paragraph => Element::Paragraph,
        pulldown_cmark::Tag::Heading(level) => Element::Heading(level),
        pulldown_cmark::Tag::BlockQuote => Element::BlockQuote,
        pulldown_cmark::Tag::CodeBlock(_) => Element::CodeBlock,
        pulldown_cmark::Tag::List(first) => Element::List(first),
        pulldown_cmark::Tag::Item => Element::Item,
        pulldown_cmark::Tag::FootnoteDefinition(_) => Element::FootnoteDefinition,
        pulldown_cmark::Tag::Table(_) => Element::Table,
        pulldown_cmark::Tag::TableHead => Element::TableHead,
        pulldown_cmark::Tag::TableRow => Element::TableRow,
        pulldown_cmark::Tag::TableCell => Element::TableCell,
        inline => tag_from(inline),
    }
}

/// Reads a markdown text into events, with strikethrough and task lists
/// recognized.
pub fn parse(text: &str) -> (events: Vec<Spanned>)
    ensures
        events@ == parsed(text@),
{
    parse_markdown(text)
}

} // verus!
