//! The event source: structural parse events drawn from the `quick_xml`
//! tokenizer over an in-memory byte stream.
//!
//! The extractor never sees the tokenizer itself. It sees `EventSource`, whose
//! event sequence is `xml_events` of the underlying bytes: each event is
//! either the start of an element (with its tag name and attribute list), an
//! end-of-stream mark, a structural error, or something the extractor ignores.
//! The sequence is modelled up to and including its first terminal event.

use vstd::prelude::*;

use quick_xml::events::BytesStart;
use quick_xml::events::Event;
use quick_xml::reader::Reader;
use std::io::Cursor;

verus! {

#[verifier::external_type_specification]
#[verifier::external_body]
pub struct ExBytesStart<'a>(BytesStart<'a>);

#[verifier::external_type_specification]
#[verifier::external_body]
#[verifier::reject_recursive_types(R)]
pub struct ExReader<R>(Reader<R>);

#[verifier::external_type_specification]
#[verifier::external_body]
#[verifier::reject_recursive_types(T)]
pub struct ExCursor<T>(Cursor<T>);

/// One structural event, as the extractor's specification sees it: the tag
/// name and attribute list of an element start (`attrs` is `None` when the
/// attribute list is corrupt), the end of the stream, a fatal tokenizer
/// error, or an ignored event kind.
pub enum XmlItem {
    Start { name: Seq<u8>, attrs: Option<Seq<(Seq<u8>, Seq<u8>)>> },
    Eof,
    Other,
    Bad,
}

/// The tag name of a start event.
pub uninterp spec fn start_name_of(e: BytesStart<'static>) -> Seq<u8>;

/// The attribute list of a start event as (name, raw value) pairs, or `None`
/// when the list is corrupt.
pub uninterp spec fn start_attrs_of(e: BytesStart<'static>) -> Option<Seq<(Seq<u8>, Seq<u8>)>>;

/// One structural event as handed to the extractor.
pub enum XmlEvent {
    Start(BytesStart<'static>),
    Eof,
    Other,
    Bad,
}

impl View for XmlEvent {
    type V = XmlItem;

    open spec fn view(&self) -> XmlItem {
        match self {
            XmlEvent::Start(b) => XmlItem::Start {
                name: start_name_of(*b),
                attrs: start_attrs_of(*b),
            },
            XmlEvent::Eof => XmlItem::Eof,
            XmlEvent::Other => XmlItem::Other,
            XmlEvent::Bad => XmlItem::Bad,
        }
    }
}

pub open spec fn is_terminal(e: XmlItem) -> bool {
    e is Eof || e is Bad
}

/// The event sequence of a finite in-memory stream: at least one event, it
/// ends at its first terminal (end-of-stream or error), and nothing after.
pub open spec fn stream_wf(evs: Seq<XmlItem>) -> bool {
    &&& evs.len() >= 1
    &&& is_terminal(evs.last())
    &&& forall|i: int| 0 <= i < evs.len() - 1 ==> !is_terminal(#[trigger] evs[i])
}

/// The structural events that the tokenizer yields for these bytes, up to and
/// including the first terminal event.
pub uninterp spec fn xml_events(bytes: Seq<u8>) -> Seq<XmlItem>;

/// A tokenizer over an in-memory byte stream, positioned after the events
/// already read.
pub struct EventSource {
    reader: Reader<Cursor<Vec<u8>>>,
    buf: Vec<u8>,
}

/// The bytes the source was opened over.
pub uninterp spec fn source_bytes(s: EventSource) -> Seq<u8>;

/// How many events have been read from the source.
pub uninterp spec fn source_read(s: EventSource) -> int;

/// Relies on quick_xml's `Reader::from_reader`: a fresh reader has consumed
/// nothing. The comment and end-name consistency checks are switched off, a
/// throughput-over-strictness trade for large trusted inputs. A reader over a
/// finite in-memory stream always reaches `Eof` or an error, so its event
/// sequence is well formed.
#[verifier::external_body]
pub fn source_from_bytes(data: Vec<u8>) -> (s: EventSource)
    ensures
        source_bytes(s) == data@,
        source_read(s) == 0,
        stream_wf(xml_events(source_bytes(s))),
{
    let mut reader = Reader::from_reader(Cursor::new(data));
    reader.check_comments(false).check_end_names(false);
    EventSource { reader, buf: Vec::new() }
}

/// Relies on quick_xml's `Reader::read_event_into`: each call yields the next
/// structural event of the stream, advancing the source by exactly one event.
/// A tokenizer error becomes the terminal `Bad` event.
#[verifier::external_body]
pub fn next_event(src: &mut EventSource) -> (e: XmlEvent)
    requires
        source_read(*old(src)) < xml_events(source_bytes(*old(src))).len(),
    ensures
        source_bytes(*final(src)) == source_bytes(*old(src)),
        source_read(*final(src)) == source_read(*old(src)) + 1,
        e@ == xml_events(source_bytes(*old(src)))[source_read(*old(src))],
{
    src.buf.clear();
    match src.reader.read_event_into(&mut src.buf) {
        Ok(Event::Start(b)) => XmlEvent::Start(b.into_owned()),
        Ok(Event::Eof) => XmlEvent::Eof,
        Ok(_) => XmlEvent::Other,
        Err(_) => XmlEvent::Bad,
    }
}

/// Relies on quick_xml's `BytesStart::name`: the tag name of a start event, a
/// function of the event alone.
#[verifier::external_body]
pub fn start_name(e: &BytesStart<'static>) -> (r: Vec<u8>)
    ensures
        r@ == start_name_of(*e),
{
    e.name().into_inner().to_vec()
}

/// Relies on quick_xml's `Attributes` iterator, with its well-formedness
/// checks off as the extraction pass configures it: the attribute list of a
/// start event as (name, raw value) pairs, in document order, `None` when the
/// list is corrupt; a function of the event alone.
#[verifier::external_body]
pub fn start_attributes(e: &BytesStart<'static>) -> (r: Option<Vec<(Vec<u8>, Vec<u8>)>>)
    ensures
        match r {
            Some(l) => start_attrs_of(*e) == Some(
                l@.map_values(|p: (Vec<u8>, Vec<u8>)| (p.0@, p.1@)),
            ),
            None => start_attrs_of(*e) is None,
        },
{
    let mut a = e.attributes();
    a.with_checks(false);
    let out: Result<Vec<(Vec<u8>, Vec<u8>)>, _> = a.map(
        |x| x.map(|x| (x.key.into_inner().to_vec(), x.value.into_owned())),
    ).collect();
    out.ok()
}

} // verus!
