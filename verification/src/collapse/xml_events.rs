//! The events of an XML text, as the `quick-xml` reader reports them, one after the other.
use vstd::prelude::*;
use quick_xml::events::Event;
use crate::collapse::xctrace::{EventSpec, XmlEvent};

verus! {

#[verifier::external_type_specification]
#[verifier::external_body]
#[verifier::reject_recursive_types(R)]
pub struct ExXmlReader<R>(quick_xml::Reader<R>);

/// A name for the events that `quick-xml` reads from a text: the result of the call number
/// `k` (from 0) of `Reader::read_event` on a reader made by `Reader::from_str(text)` with the
/// default settings, as [`XmlEvents::next_event`] hands it out; `None` where the reader
/// reports an error.
pub uninterp spec fn xml_event_at(text: Seq<char>, k: int) -> Option<EventSpec>;

pub open spec fn event_view(e: Option<XmlEvent>) -> Option<EventSpec> {
    match e {
        Some(ev) => Some(ev@),
        None => None,
    }
}

/// The events of one text, read in order. Only [`XmlEvents::new`] makes one, and only
/// [`XmlEvents::next_event`] moves it on.
pub struct XmlEvents<'a> {
    reader: quick_xml::Reader<&'a [u8]>,
    text: Ghost<Seq<char>>,
    read: Ghost<int>,
}

/// `quick_xml::Reader::from_str`: a reader at the start of the text, with the default
/// settings. Nothing is stated of it: what it reads is told by [`XmlEvents::next_event`].
#[verifier::external_body]
fn xml_reader(text: &str) -> quick_xml::Reader<&[u8]> {
    quick_xml::Reader::from_str(text)
}

impl<'a> XmlEvents<'a> {
    /// The text whose events are read.
    pub closed spec fn text(&self) -> Seq<char> {
        self.text@
    }

    /// How many events have been read.
    pub closed spec fn position(&self) -> int {
        self.read@
    }

    /// The events of `text`, none read yet.
    pub fn new(text: &'a str) -> (r: XmlEvents<'a>)
        ensures
            r.text() == text@,
            r.position() == 0,
    {
        XmlEvents { reader: xml_reader(text), text: Ghost(text@), read: Ghost(0) }
    }

    /// `quick_xml::Reader::read_event`: the next event of the text, with tag names and the keys
    /// and raw values of attributes copied into strings (attributes that the reader reports
    /// malformed are left out); `None` where the reader reports an error. The contract names
    /// the result: the event numbered by how many were read before.
    #[verifier::external_body]
    pub(crate) fn next_event(&mut self) -> (r: Option<XmlEvent>)
        ensures
            final(self).text() == old(self).text(),
            final(self).position() == old(self).position() + 1,
            event_view(r) == xml_event_at(old(self).text(), old(self).position()),
    {
        let (start, e) = match self.reader.read_event().ok()? {
            Event::Start(e) => (true, e),
            Event::Empty(e) => (false, e),
            Event::End(e) => return Some(XmlEvent::End { name: e.name().0.to_string() }),
            Event::Eof => return Some(XmlEvent::Eof),
            _ => return Some(XmlEvent::Other),
        };
        let name = e.name().0.to_string();
        let attributes = e.attributes().flatten().map(|a| (a.key.0.to_string(), a.value.into_owned())).collect();
        Some(if start { XmlEvent::Start { name, attributes } } else { XmlEvent::Empty { name, attributes } })
    }
}

} // verus!
