//! The rewrite of a whole document: read its events, rewrite element starts,
//! serialize, and apply the final substitutions.

use crate::attrs::{
    has_label, id_key, label_value, lemma_label_has_first, rewrite_attributes, rewritten,
    without_id, Attr, AttrModel,
};
use crate::text::{post_process, post_processed};
use crate::xml::{
    attr_text, attributes_of, buffer_writer, clear_attributes, copy_start, document_items,
    event_bytes, is_utf8, push_attribute, read_items, start_attrs, start_bytes, start_event,
    start_name, write_event, writer_bytes, written, Item,
};
use quick_xml::events::BytesStart;
use vstd::prelude::*;
use vstd::utf8::valid_utf8;

verus! {

/// Why a document could not be rewritten. Every error is fatal: no output is
/// produced.
#[derive(Debug, Clone, Copy, PartialEq, Eq)]
pub enum RewriteError {
    /// The XML is malformed; `position` is the reader's byte offset.
    Parse { position: usize },
    /// The attribute list of an element start is malformed; `index` is the
    /// position of that element start among the document's events.
    Attribute { index: usize },
    /// The serialized document is not valid UTF-8.
    Encoding,
}

/// The text of a list of attributes, each as ` key="value"`.
pub open spec fn attrs_text(s: Seq<AttrModel>) -> Seq<u8>
    decreases s.len(),
{
    if s.len() == 0 {
        Seq::empty()
    } else {
        attrs_text(s.drop_last()) + attr_text(s.last())
    }
}

/// The content written for an element start: unchanged where it has no
/// label, else its name followed by the rewritten attributes; `None` where
/// its attributes are malformed.
pub open spec fn start_output(start: BytesStart<'static>) -> Option<Seq<u8>> {
    match start_attrs(start) {
        None => None,
        Some(a) => match rewritten(a) {
            None => Some(start_bytes(start)),
            Some(n) => Some(start_name(start) + attrs_text(n)),
        },
    }
}

/// The bytes written for one event.
pub open spec fn item_output(item: Item) -> Option<Seq<u8>> {
    match item {
        Item::Start(start) => match start_output(start) {
            Some(c) => Some(seq![60u8] + c + seq![62u8]),
            None => None,
        },
        Item::Other(event) => Some(event_bytes(event)),
    }
}

/// The bytes written for a sequence of events, one after the other; `None`
/// where an element start among them has malformed attributes.
pub open spec fn items_output(items: Seq<Item>) -> Option<Seq<u8>>
    decreases items.len(),
{
    if items.len() == 0 {
        Some(Seq::empty())
    } else {
        match (items_output(items.drop_last()), item_output(items.last())) {
            (Some(a), Some(b)) => Some(a + b),
            _ => None,
        }
    }
}

/// The bytes written for the events, each written as it was read.
pub open spec fn items_reserialized(items: Seq<Item>) -> Seq<u8>
    decreases items.len(),
{
    if items.len() == 0 {
        Seq::empty()
    } else {
        items_reserialized(items.drop_last()) + match items.last() {
            Item::Start(start) => seq![60u8] + start_bytes(start) + seq![62u8],
            Item::Other(event) => event_bytes(event),
        }
    }
}

/// What a run on `input` ends with: the reader's error, an attribute error,
/// an encoding error, or the post-processed serialization.
pub open spec fn document_result(input: Seq<u8>) -> Option<Result<Seq<u8>, RewriteError>> {
    match document_items(input) {
        None => None,
        Some(items) => match items_output(items) {
            None => None,
            Some(raw) => Some(
                if valid_utf8(raw) {
                    Ok(post_processed(raw))
                } else {
                    Err(RewriteError::Encoding)
                },
            ),
        },
    }
}

/// Turns the serialized document into the final output: the text
/// substitutions where it is valid UTF-8, an encoding error otherwise.
pub fn finish(raw: &Vec<u8>) -> (r: Result<Vec<u8>, RewriteError>)
    ensures
        r is Ok <==> valid_utf8(raw@),
        r matches Ok(out) ==> out@ == post_processed(raw@),
        r matches Err(e) ==> e is Encoding,
{
    if is_utf8(raw.as_slice()) {
        Ok(post_process(raw))
    } else {
        Err(RewriteError::Encoding)
    }
}

fn push_all(start: &mut BytesStart<'static>, attrs: &Vec<Attr>)
    ensures
        start_bytes(*final(start)) == start_bytes(*old(start)) + attrs_text(
            crate::attrs::attrs_model(attrs@),
        ),
        start_name(*final(start)) == start_name(*old(start)),
{
    let ghost s = crate::attrs::attrs_model(attrs@);
    let ghost base = start_bytes(*start);
    let mut i: usize = 0;
    assert(s.subrange(0, 0) =~= Seq::<AttrModel>::empty());
    assert(base + attrs_text(s.subrange(0, 0)) =~= base);
    while i < attrs.len()
        invariant
            0 <= i <= attrs@.len(),
            s == crate::attrs::attrs_model(attrs@),
            start_bytes(*start) == base + attrs_text(s.subrange(0, i as int)),
            start_name(*start) == start_name(*old(start)),
        decreases attrs@.len() - i,
    {
        push_attribute(start, attrs[i].key.as_slice(), attrs[i].value.as_slice());
        assert(s.subrange(0, i + 1).drop_last() =~= s.subrange(0, i as int));
        assert(base + attrs_text(s.subrange(0, i + 1)) =~= base + attrs_text(s.subrange(0, i as int))
            + attr_text(s[i as int]));
        i = i + 1;
    }
    assert(s.subrange(0, attrs@.len() as int) =~= s);
}

/// Applies the rewrite rule of `rewrite_attributes` to one element start: one
/// without a label comes back with the same content; one with a label comes
/// back as its name followed by the rewritten attributes. `None` where its
/// attributes are malformed.
pub fn rewrite_start(start: &BytesStart<'static>) -> (r: Option<BytesStart<'static>>)
    ensures
        match r {
            Some(s) => start_output(*start) == Some(start_bytes(s)),
            None => start_output(*start) is None,
        },
{
    let attrs = match attributes_of(start) {
        Ok(a) => a,
        Err(_) => {
            return None;
        },
    };
    let mut out = copy_start(start);
    match rewrite_attributes(&attrs) {
        None => {},
        Some(new_attrs) => {
            clear_attributes(&mut out);
            push_all(&mut out, &new_attrs);
        },
    }
    Some(out)
}

/// Rewrites a whole document. Each element start that carries an
/// `inkscape:label` gets its `id` set to that label (see
/// `rewrite_attributes`); every other event is written back as it came. The
/// serialized text then goes through `finish`.
pub fn rewrite_document(input: &[u8]) -> (r: Result<Vec<u8>, RewriteError>)
    ensures
        document_items(input@) is None <==> r matches Err(RewriteError::Parse { .. }),
        document_items(input@) is Some && items_output(document_items(input@)->0) is None
            <==> r matches Err(RewriteError::Attribute { .. }),
        document_result(input@) matches Some(res) ==> match (res, r) {
            (Ok(a), Ok(b)) => a == b@,
            (Err(a), Err(b)) => a == b,
            _ => false,
        },
{
    let items = match read_items(input) {
        Ok(v) => v,
        Err(position) => {
            return Err(RewriteError::Parse { position });
        },
    };
    let ghost s = items@;
    let mut writer = buffer_writer();
    let mut i: usize = 0;
    assert(s.subrange(0, 0) =~= Seq::<Item>::empty());
    while i < items.len()
        invariant
            0 <= i <= items@.len(),
            s == items@,
            document_items(input@) == Some(s),
            items_output(s.subrange(0, i as int)) == Some(writer_bytes(writer)),
        decreases items@.len() - i,
    {
        assert(s.subrange(0, i + 1).drop_last() =~= s.subrange(0, i as int));
        match &items[i] {
            Item::Start(start) => {
                match rewrite_start(start) {
                    Some(out) => {
                        let event = start_event(out);
                        let _ = write_event(&mut writer, &event);
                    },
                    None => {
                        proof {
                            lemma_output_stays_none(s, i as int + 1);
                        }
                        return Err(RewriteError::Attribute { index: i });
                    },
                }
            },
            Item::Other(event) => {
                let _ = write_event(&mut writer, event);
            },
        }
        i = i + 1;
    }
    assert(s.subrange(0, s.len() as int) =~= s);
    let raw = written(writer);
    finish(&raw)
}

proof fn lemma_output_stays_none(s: Seq<Item>, k: int)
    requires
        0 <= k <= s.len(),
        items_output(s.subrange(0, k)) is None,
    ensures
        items_output(s) is None,
    decreases s.len() - k,
{
    if k < s.len() {
        assert(s.subrange(0, k + 1).drop_last() =~= s.subrange(0, k));
        lemma_output_stays_none(s, k + 1);
    } else {
        assert(s.subrange(0, k) =~= s);
    }
}

/// A document in which no element start carries `inkscape:label` is written
/// back event by event, as it was read.
pub proof fn lemma_unlabelled_document_unchanged(input: Seq<u8>)
    requires
        document_items(input) is Some,
        forall|k: int|
            0 <= k < document_items(input)->0.len() ==> match #[trigger] document_items(
                input,
            )->0[k] {
                Item::Start(start) => start_attrs(start) matches Some(a) && !has_label(a),
                Item::Other(_) => true,
            },
    ensures
        items_output(document_items(input)->0) == Some(
            items_reserialized(document_items(input)->0),
        ),
{
    lemma_unlabelled_items(document_items(input)->0);
}

proof fn lemma_unlabelled_items(s: Seq<Item>)
    requires
        forall|k: int|
            0 <= k < s.len() ==> match #[trigger] s[k] {
                Item::Start(start) => start_attrs(start) matches Some(a) && !has_label(a),
                Item::Other(_) => true,
            },
    ensures
        items_output(s) == Some(items_reserialized(s)),
    decreases s.len(),
{
    if s.len() > 0 {
        let p = s.drop_last();
        assert forall|k: int| 0 <= k < p.len() implies match #[trigger] p[k] {
            Item::Start(start) => start_attrs(start) matches Some(a) && !has_label(a),
            Item::Other(_) => true,
        } by {
            assert(p[k] == s[k]);
        }
        lemma_unlabelled_items(p);
        assert(s.last() == s[s.len() - 1]);
    }
}

/// An element start with a label is written as its name, every attribute but
/// `id` in order, and last `id` set to the value of the first label.
pub proof fn lemma_labelled_start_output(start: BytesStart<'static>)
    requires
        start_attrs(start) matches Some(a) && has_label(a),
    ensures
        start_output(start) == Some(
            start_name(start) + attrs_text(without_id(start_attrs(start)->0)) + attr_text(
                (id_key(), label_value(start_attrs(start)->0)->0),
            ),
        ),
{
    let a = start_attrs(start)->0;
    lemma_label_has_first(a);
    let n = without_id(a).push((id_key(), label_value(a)->0));
    assert(n.drop_last() =~= without_id(a));
}

/// The events of a document are written independently: the output for two
/// runs of events one after the other is the output of the first followed by
/// that of the second.
pub proof fn lemma_items_output_append(s: Seq<Item>, t: Seq<Item>)
    requires
        items_output(s) is Some,
        items_output(t) is Some,
    ensures
        items_output(s + t) == Some(items_output(s)->0 + items_output(t)->0),
    decreases t.len(),
{
    if t.len() == 0 {
        assert(s + t =~= s);
        assert(items_output(s)->0 + Seq::<u8>::empty() =~= items_output(s)->0);
    } else {
        let tp = t.drop_last();
        assert((s + t).drop_last() =~= s + tp);
        assert((s + t).last() == t.last());
        lemma_items_output_append(s, tp);
        let a = items_output(s)->0;
        let b = items_output(tp)->0;
        let c = item_output(t.last())->0;
        assert(a + b + c =~= a + (b + c));
    }
}

} // verus!
