//! The XML events that the feed parser reads, and the reader that produces them.

use vstd::prelude::*;
use xml::reader::{EventReader, XmlEvent};

verus! {

/// One XML event, reduced to what feed parsing reads: local names, attributes and text.
pub enum XmlItem {
    /// An opening tag, with its attributes as (local name, value) pairs.
    Start { name: String, attributes: Vec<(String, String)> },
    /// A closing tag.
    End { name: String },
    /// Character data or a CDATA section.
    Text { data: String },
    /// The document is not well-formed here; no event follows.
    Malformed { message: String },
    /// Anything else: declarations, whitespace, processing instructions, the document's end.
    Other,
}

/// The model of an [`XmlItem`]: its text as character sequences.
pub enum XmlItemView {
    Start { name: Seq<char>, attributes: Seq<(Seq<char>, Seq<char>)> },
    End { name: Seq<char> },
    Text { data: Seq<char> },
    Malformed { message: Seq<char> },
    Other,
}

pub open spec fn attribute_views(a: Seq<(String, String)>) -> Seq<(Seq<char>, Seq<char>)> {
    a.map_values(|p: (String, String)| (p.0@, p.1@))
}

impl View for XmlItem {
    type V = XmlItemView;

    open spec fn view(&self) -> XmlItemView {
        match self {
            XmlItem::Start { name, attributes } => XmlItemView::Start {
                name: name@,
                attributes: attribute_views(attributes@),
            },
            XmlItem::End { name } => XmlItemView::End { name: name@ },
            XmlItem::Text { data } => XmlItemView::Text { data: data@ },
            XmlItem::Malformed { message } => XmlItemView::Malformed { message: message@ },
            XmlItem::Other => XmlItemView::Other,
        }
    }
}

pub open spec fn item_views(s: Seq<XmlItem>) -> Seq<XmlItemView> {
    s.map_values(|x: XmlItem| x@)
}

/// The events that xml-rs reads from a document.
pub uninterp spec fn xml_events_of(doc: Seq<u8>) -> Seq<XmlItemView>;

/// Relies on xml-rs: `EventReader::new` with its default configuration, iterated
/// until it stops (after the end of the document or the first error). The events
/// depend on the document's bytes alone.
#[verifier::external_body]
pub(crate) fn xml_events(doc: &[u8]) -> (r: Vec<XmlItem>)
    ensures
        item_views(r@) == xml_events_of(doc@),
{
    let mut out = Vec::new();
    for ev in EventReader::new(doc) {
        out.push(match ev {
            Ok(XmlEvent::StartElement { name, attributes, .. }) => XmlItem::Start {
                name: name.local_name,
                attributes: attributes.into_iter().map(|a| (a.name.local_name, a.value)).collect(),
            },
            Ok(XmlEvent::EndElement { name }) => XmlItem::End { name: name.local_name },
            Ok(XmlEvent::Characters(data)) => XmlItem::Text { data },
            Ok(XmlEvent::CData(data)) => XmlItem::Text { data },
            Ok(_) => XmlItem::Other,
            Err(e) => XmlItem::Malformed { message: e.to_string() },
        });
    }
    out
}

} // verus!
