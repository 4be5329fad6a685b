//! The XML reader and writer of quick-xml, as this library uses them.
//!
//! Every function here is trusted: Verus reads the contracts and not the
//! bodies. The names below stand for what quick-xml computes; the reader and
//! the writer are used in their default configuration, so each depends on its
//! argument alone.

use crate::attrs::{attrs_model, Attr, AttrModel};
use quick_xml::events::attributes::AttrError;
use quick_xml::events::{BytesStart, Event};
use quick_xml::{Reader, Writer};
use vstd::prelude::*;

verus! {

#[verifier::external_type_specification]
#[verifier::external_body]
#[verifier::reject_recursive_types(W)]
pub struct ExWriter<W>(Writer<W>);

#[verifier::external_type_specification]
#[verifier::external_body]
pub struct ExEvent<'a>(Event<'a>);

#[verifier::external_type_specification]
#[verifier::external_body]
pub struct ExBytesStart<'a>(BytesStart<'a>);

#[verifier::external_type_specification]
#[verifier::external_body]
pub struct ExAttrError(AttrError);

#[verifier::external_type_specification]
#[verifier::external_body]
pub struct ExXmlError(quick_xml::Error);

/// One event of a document as the rewrite sees it: an element start, or any
/// other event (end tag, text, comment, declaration, self-closing element...).
pub enum Item {
    Start(BytesStart<'static>),
    Other(Event<'static>),
}

/// The events that quick-xml's reader yields for a document, up to the end of
/// the document; `None` where it reports an error.
pub uninterp spec fn document_items(input: Seq<u8>) -> Option<Seq<Item>>;

/// The content of an element start: its tag name followed by the attribute
/// text, as it stands between `<` and `>`.
pub uninterp spec fn start_bytes(start: BytesStart<'static>) -> Seq<u8>;

/// The tag name of an element start.
pub uninterp spec fn start_name(start: BytesStart<'static>) -> Seq<u8>;

/// The attributes of an element start, in order, keys and values raw;
/// `None` where the attribute text is malformed.
pub uninterp spec fn start_attrs(start: BytesStart<'static>) -> Option<Seq<AttrModel>>;

/// The bytes that quick-xml's writer emits for an event.
pub uninterp spec fn event_bytes(event: Event<'static>) -> Seq<u8>;

/// The bytes that a writer into a buffer holds.
pub uninterp spec fn writer_bytes(writer: Writer<Vec<u8>>) -> Seq<u8>;

/// ` key="value"`: the text `push_attribute` appends for an attribute.
pub open spec fn attr_text(a: AttrModel) -> Seq<u8> {
    seq![32u8] + a.0 + seq![61u8, 34u8] + a.1 + seq![34u8]
}

/// Relies on `Reader::from_reader` and `Reader::read_event` over the bytes:
/// every event up to `Event::Eof`, element starts told apart from the rest;
/// on an error, `Reader::buffer_position` where it was found.
#[verifier::external_body]
pub(crate) fn read_items(input: &[u8]) -> (r: Result<Vec<Item>, usize>)
    ensures
        match r {
            Ok(items) => document_items(input@) == Some(items@),
            Err(_) => document_items(input@) is None,
        },
{
    let mut reader = Reader::from_reader(input);
    let mut items = Vec::new();
    loop {
        match reader.read_event() {
            Ok(Event::Eof) => return Ok(items),
            Ok(Event::Start(start)) => items.push(Item::Start(start.into_owned())),
            Ok(other) => items.push(Item::Other(other.into_owned())),
            Err(_) => return Err(reader.buffer_position()),
        }
    }
}

/// Relies on `BytesStart::attributes`, with the duplicate check switched off:
/// the attributes in document order, keys and values as raw bytes.
#[verifier::external_body]
pub(crate) fn attributes_of(start: &BytesStart<'static>) -> (r: Result<Vec<Attr>, AttrError>)
    ensures
        match r {
            Ok(v) => start_attrs(*start) == Some(attrs_model(v@)),
            Err(_) => start_attrs(*start) is None,
        },
{
    let mut attributes = start.attributes();
    attributes.with_checks(false);
    attributes
        .map(|a| a.map(|a| Attr { key: a.key.into_inner().to_vec(), value: a.value.into_owned() }))
        .collect()
}

/// Relies on `BytesStart::to_owned`: a copy with the same content.
#[verifier::external_body]
pub(crate) fn copy_start(start: &BytesStart<'static>) -> (r: BytesStart<'static>)
    ensures
        start_bytes(r) == start_bytes(*start),
        start_name(r) == start_name(*start),
{
    start.to_owned()
}

/// Relies on `BytesStart::clear_attributes`: truncates the content to the
/// tag name.
#[verifier::external_body]
pub(crate) fn clear_attributes(start: &mut BytesStart<'static>)
    ensures
        start_bytes(*final(start)) == start_name(*old(start)),
        start_name(*final(start)) == start_name(*old(start)),
{
    start.clear_attributes();
}

/// Relies on `BytesStart::push_attribute` with a pair of byte slices: appends
/// ` key="value"` with key and value as given, unescaped.
#[verifier::external_body]
pub(crate) fn push_attribute(start: &mut BytesStart<'static>, key: &[u8], value: &[u8])
    ensures
        start_bytes(*final(start)) == start_bytes(*old(start)) + attr_text((key@, value@)),
        start_name(*final(start)) == start_name(*old(start)),
{
    start.push_attribute((key, value));
}

/// Wraps an element start into an event; the writer emits it as `<`, the
/// content, `>` (`Writer::write_event`, `Event::Start` arm).
#[verifier::external_body]
pub(crate) fn start_event(start: BytesStart<'static>) -> (r: Event<'static>)
    ensures
        event_bytes(r) == seq![60u8] + start_bytes(start) + seq![62u8],
{
    Event::Start(start)
}

/// Relies on `Writer::new`: a writer into an empty buffer, without indentation.
#[verifier::external_body]
pub(crate) fn buffer_writer() -> (r: Writer<Vec<u8>>)
    ensures
        writer_bytes(r) == Seq::<u8>::empty(),
{
    Writer::new(Vec::new())
}

/// Relies on `Writer::write_event`: appends the event's bytes to the buffer;
/// writing into a `Vec` does not fail.
#[verifier::external_body]
pub(crate) fn write_event(writer: &mut Writer<Vec<u8>>, event: &Event<'static>) -> (r: Result<(), quick_xml::Error>)
    ensures
        r is Ok,
        writer_bytes(*final(writer)) == writer_bytes(*old(writer)) + event_bytes(*event),
{
    writer.write_event(event)
}

/// Relies on `Writer::into_inner`: the buffer written so far.
#[verifier::external_body]
pub(crate) fn written(writer: Writer<Vec<u8>>) -> (r: Vec<u8>)
    ensures
        r@ == writer_bytes(writer),
{
    writer.into_inner()
}

/// Relies on `std::str::from_utf8`, which succeeds exactly on valid UTF-8.
#[verifier::external_body]
pub(crate) fn is_utf8(bytes: &[u8]) -> (r: bool)
    ensures
        r == vstd::utf8::valid_utf8(bytes@),
{
    std::str::from_utf8(bytes).is_ok()
}

} // verus!
