//! Markup events, as the library sees them, and the reader that yields them.

use vstd::prelude::*;
use quick_xml::events::Event;

verus! {

/// An attribute of a tag: its raw name and its decoded value, `None` where the
/// value could not be decoded.
#[derive(Debug, Clone)]
pub struct Attr {
    pub key: Vec<u8>,
    pub value: Option<String>,
}

/// An opening or self-closing tag: its raw name and its attributes, `None`
/// where the attribute list is malformed.
#[derive(Debug, Clone)]
pub struct Tag {
    pub name: Vec<u8>,
    pub attrs: Option<Vec<Attr>>,
}

/// One event of a markup document, in document order.
#[derive(Debug, Clone)]
pub enum XmlEvent {
    Start(Tag),
    Empty(Tag),
    End(Vec<u8>),
    /// Character data, trimmed and decoded; `None` where it could not be decoded.
    Text(Option<String>),
    Eof,
    Other,
}

#[verifier::external_type_specification]
#[verifier::external_body]
pub struct ExBytesStart<'a>(quick_xml::events::BytesStart<'a>);

#[verifier::external_type_specification]
#[verifier::external_body]
pub struct ExEvent<'a>(quick_xml::events::Event<'a>);

/// Relies on quick_xml's `BytesStart::name`, `BytesStart::attributes` (without
/// duplicate checks) and `Attribute::unescape_value`: the raw tag name, and
/// each attribute's raw name and decoded value.
#[verifier::external_body]
fn tag_of(e: &quick_xml::events::BytesStart) -> Tag {
    let attrs = e.attributes().with_checks(false).map(|a| a.ok().map(|a| Attr {
        key: a.key.as_ref().to_vec(),
        value: a.unescape_value().ok().map(|v| v.into_owned()),
    })).collect();
    Tag { name: e.name().as_ref().to_vec(), attrs }
}

/// Relies on quick_xml's `Event` variants, `BytesEnd::name` and
/// `BytesText::unescape`: one event in the library's form.
#[verifier::external_body]
fn event_of(e: Event) -> XmlEvent {
    match e {
        Event::Start(e) => XmlEvent::Start(tag_of(&e)),
        Event::Empty(e) => XmlEvent::Empty(tag_of(&e)),
        Event::End(e) => XmlEvent::End(e.name().as_ref().to_vec()),
        Event::Text(t) => XmlEvent::Text(t.unescape().ok().map(|s| s.into_owned())),
        Event::Eof => XmlEvent::Eof,
        _ => XmlEvent::Other,
    }
}

/// The events that quick_xml reads from a document, with blank text skipped
/// and text trimmed, up to and including its end; `None` where the document is
/// malformed.
pub uninterp spec fn xml_events_of(doc: Seq<u8>) -> Option<Seq<XmlEvent>>;

/// Relies on quick_xml's `Reader::from_reader`, `Reader::trim_text` and
/// `Reader::read_event`: the events of the whole document, which depend on its
/// bytes alone.
#[verifier::external_body]
pub(crate) fn read_events(doc: &[u8]) -> (r: Option<Vec<XmlEvent>>)
    ensures
        r is Some <==> xml_events_of(doc@) is Some,
        r is Some ==> r->Some_0@ == xml_events_of(doc@)->Some_0,
{
    let mut reader = quick_xml::Reader::from_reader(doc);
    reader.trim_text(true);
    let mut out = Vec::new();
    loop {
        match reader.read_event() {
            Ok(Event::Eof) => {
                out.push(XmlEvent::Eof);
                return Some(out);
            },
            Ok(e) => out.push(event_of(e)),
            Err(_) => return None,
        }
    }
}

} // verus!
