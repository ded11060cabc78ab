//! The stream of structural markdown events that the catalog extractor
//! consumes. Any standards-compliant markdown tokenizer can drive the
//! extractor; the one used here is pulldown_cmark, behind one trusted
//! wrapper.

use pulldown_cmark::{Event, Parser, Tag, TagEnd};
use vstd::prelude::*;

verus! {

/// One structural markdown event. Kinds the extractor does not react to
/// (paragraphs, emphasis, lists opening and closing, links closing, and so
/// on) are all folded into `Other`.
#[derive(Debug, Clone)]
pub enum MdEvent {
    /// A heading opens, with its level (one for the document title).
    HeadingStart(u32),
    /// The open heading closes.
    HeadingEnd,
    /// A link opens; its destination URL is carried along.
    LinkStart(String),
    /// Plain inline text.
    Text(String),
    /// Inline code.
    Code(String),
    /// A list item opens.
    ItemStart,
    /// The open list item closes.
    ItemEnd,
    /// A soft or hard line break.
    LineBreak,
    /// Any other event: ignored by the extractor.
    Other,
}

/// The markdown events of a document with this text, in order.
pub uninterp spec fn events_of(s: Seq<char>) -> Seq<MdEvent>;

/// Relies on pulldown_cmark::Parser: the markdown events of a document
/// depend on its text alone. Each event is carried over one to one, and
/// kinds the extractor ignores map to `Other`.
#[verifier::external_body]
pub fn tokenize(markdown: &str) -> (r: Vec<MdEvent>)
    ensures
        r@ == events_of(markdown@),
{
    Parser::new(markdown).map(|e| match e {
        Event::Start(Tag::Heading { level, .. }) => MdEvent::HeadingStart(level as u32),
        Event::End(TagEnd::Heading(_)) => MdEvent::HeadingEnd,
        Event::Start(Tag::Link { dest_url, .. }) => MdEvent::LinkStart(dest_url.into_string()),
        Event::Text(t) => MdEvent::Text(t.into_string()),
        Event::Code(c) => MdEvent::Code(c.into_string()),
        Event::Start(Tag::Item) => MdEvent::ItemStart,
        Event::End(TagEnd::Item) => MdEvent::ItemEnd,
        Event::SoftBreak | Event::HardBreak => MdEvent::LineBreak,
        _ => MdEvent::Other,
    }).collect()
}

} // verus!
