//! The boundary to the external XML tokenizer. The tokenizer (quick_xml) is
//! an assumed-correct collaborator: it turns bytes into structural events and
//! parses attribute lists. Every call into it stands behind a trusted item
//! here; everything downstream works on the owned event model and is
//! verified.
//!
//! What the tokenizer yields for a given byte input is a function of those
//! bytes alone (the reader walks an in-memory slice), so its result carries
//! the name `tok_of`: `None` when tokenization fails, the event sequence
//! otherwise. Contracts all the way up to the byte-level operators speak of
//! that name.

use vstd::prelude::*;

use quick_xml::events::Event;
use quick_xml::reader::Reader;

use crate::events::spec_name_len;
use crate::events::EventS;
use crate::events::XmlEvent;
use crate::TmxError;

verus! {

#[verifier::external_type_specification]
#[verifier::external_body]
pub struct ExEvent<'a>(Event<'a>);

/// What the tokenizer yields for this byte input: `None` when the input is
/// not valid UTF-8 or is not well-formed enough to tokenize, the document's
/// event sequence otherwise. Unmatched end tags are tolerated (the
/// operators close a merged or filtered body with literal text, and their
/// output must tokenize again); mismatched end tags are not.
pub uninterp spec fn tok_of(input: Seq<u8>) -> Option<Seq<EventS>>;

/// Relies on `Reader::from_str`, `Reader::config_mut`, `Reader::read_event`
/// and `Reader::error_position` of quick_xml: tokenizes the whole input.
/// The reader walks the given slice and nothing else, so the outcome is a
/// function of the input bytes, named `tok_of`; the encoding error comes
/// exactly when the input is not valid UTF-8, the parse error (with the
/// offset the tokenizer reports) on any later failure.
#[verifier::external_body]
fn tokenize_all(input: &[u8]) -> (r: Result<Vec<XmlEvent>, TmxError>)
    ensures
        r is Ok <==> tok_of(input@) is Some,
        r is Ok ==> r->Ok_0.deep_view() == tok_of(input@)->Some_0,
        r is Err ==> (r->Err_0 is Encoding <==> !vstd::utf8::valid_utf8(input@)),
        r is Err ==> r->Err_0 is Encoding || r->Err_0 is Parse,
{
    let s = match core::str::from_utf8(input) {
        Ok(s) => s,
        Err(_) => return Err(TmxError::Encoding),
    };
    let mut rd = Reader::from_str(s);
    rd.config_mut().allow_unmatched_ends = true;
    let mut out: Vec<XmlEvent> = Vec::new();
    loop {
        match rd.read_event() {
            Ok(Event::Eof) => return Ok(out),
            Ok(ev) => out.push(ev_to_raw(ev)),
            Err(_) => return Err(TmxError::Parse(rd.error_position())),
        }
    }
}

/// Relies on the tokenizer's event payloads dereferencing to their raw
/// content; moves each payload into the owned event model.
#[verifier::external_body]
fn ev_to_raw(ev: Event<'_>) -> (r: XmlEvent) {
    match ev {
        Event::Start(e) => XmlEvent::Open(e.as_bytes().to_vec()),
        Event::Empty(e) => XmlEvent::Empty(e.as_bytes().to_vec()),
        Event::End(e) => XmlEvent::Close(e.as_bytes().to_vec()),
        Event::Text(e) => XmlEvent::Text(e.as_bytes().to_vec()),
        Event::Decl(e) => XmlEvent::Decl(e.as_bytes().to_vec()),
        other => ev_to_raw_rest(other),
    }
}

/// Continues `ev_to_raw` for the rarer constructs. The catch-all arm is
/// never reached: end-of-file ends the read loop before the conversion.
#[verifier::external_body]
fn ev_to_raw_rest(ev: Event<'_>) -> (r: XmlEvent) {
    match ev {
        Event::CData(e) => XmlEvent::CData(e.as_bytes().to_vec()),
        Event::Comment(e) => XmlEvent::Comment(e.as_bytes().to_vec()),
        Event::PI(e) => XmlEvent::PI(e.as_bytes().to_vec()),
        Event::DocType(e) => XmlEvent::DocType(e.as_bytes().to_vec()),
        Event::GeneralRef(e) => XmlEvent::GeneralRef(e.as_bytes().to_vec()),
        _ => XmlEvent::Text(Vec::new()),
    }
}

/// The first value of the attribute named `name` in a tag content, as the
/// external attribute parser reads it; nothing when there is no such
/// attribute or the attribute list is not well formed.
pub uninterp spec fn attr_lookup(content: Seq<u8>, name: Seq<u8>) -> Option<Seq<u8>>;

/// Relies on `BytesStart::try_get_attribute`: the first attribute whose key
/// equals `attr_name`, with its raw (undecoded) value; first-match
/// semantics over the tag's attribute list.
#[verifier::external_body]
pub fn get_attribute_value(content: &[u8], name_end: usize, attr_name: &[u8]) -> (r: Option<
    Vec<u8>,
>)
    requires
        name_end == spec_name_len(content@),
    ensures
        r.deep_view() == attr_lookup(content@, attr_name@),
{
    let s = match core::str::from_utf8(content) {
        Ok(s) => s,
        Err(_) => return None,
    };
    let want = match core::str::from_utf8(attr_name) {
        Ok(s) => s,
        Err(_) => return None,
    };
    let tag = quick_xml::events::BytesStart::from_content(s, name_end);
    match tag.try_get_attribute(want) {
        Ok(Some(a)) => Some(a.value.as_bytes().to_vec()),
        _ => None,
    }
}

/// Reads the whole event stream of one document: exactly the events that
/// `tok_of` names for these bytes, the encoding error exactly on invalid
/// UTF-8, the parse error exactly on any other tokenizer failure.
pub fn parse_events(input: &[u8]) -> (r: Result<Vec<XmlEvent>, TmxError>)
    ensures
        r is Ok <==> tok_of(input@) is Some,
        r is Ok ==> r->Ok_0.deep_view() == tok_of(input@)->Some_0,
        r is Err ==> (r->Err_0 is Encoding <==> !vstd::utf8::valid_utf8(input@)),
        r is Err ==> r->Err_0 is Encoding || r->Err_0 is Parse,
{
    tokenize_all(input)
}

/// The tokenization of a whole list of documents: the event stream of each,
/// or nothing as soon as any of them fails.
pub open spec fn tok_all(inputs: Seq<Seq<u8>>) -> Option<Seq<Seq<EventS>>>
    decreases inputs.len(),
{
    if inputs.len() == 0 {
        Some(Seq::empty())
    } else {
        match tok_of(inputs[0]) {
            Some(evs) => match tok_all(inputs.drop_first()) {
                Some(t) => Some(seq![evs] + t),
                None => None,
            },
            None => None,
        }
    }
}

/// The list tokenizes exactly when every document does, to the sequence of
/// their event streams.
pub proof fn lemma_tok_all_char(inputs: Seq<Seq<u8>>)
    ensures
        tok_all(inputs) is Some <==> (forall|j: int|
            0 <= j < inputs.len() ==> #[trigger] tok_of(inputs[j]) is Some),
        tok_all(inputs) is Some ==> tok_all(inputs)->Some_0.len() == inputs.len(),
        tok_all(inputs) is Some ==> forall|j: int|
            0 <= j < inputs.len() ==> #[trigger] tok_all(inputs)->Some_0[j] == tok_of(
                inputs[j],
            )->Some_0,
    decreases inputs.len(),
{
    if inputs.len() == 0 {
    } else {
        lemma_tok_all_char(inputs.drop_first());
        assert forall|j: int|
            0 <= j < inputs.drop_first().len() implies inputs.drop_first()[j] == inputs[j
            + 1] by {}
        if tok_of(inputs[0]) is Some && tok_all(inputs.drop_first()) is Some {
            let v = seq![tok_of(inputs[0])->Some_0] + tok_all(inputs.drop_first())->Some_0;
            assert(tok_all(inputs) == Some(v));
            assert forall|j: int| 0 <= j < inputs.len() implies #[trigger] tok_of(inputs[j])
                is Some by {
                if j > 0 {
                    assert(inputs.drop_first()[j - 1] == inputs[j]);
                    assert(tok_of(inputs.drop_first()[j - 1]) is Some);
                }
            }
            assert forall|j: int| 0 <= j < inputs.len() implies #[trigger] v[j] == tok_of(
                inputs[j],
            )->Some_0 by {
                if j > 0 {
                    assert(v[j] == tok_all(inputs.drop_first())->Some_0[j - 1]);
                    assert(inputs.drop_first()[j - 1] == inputs[j]);
                }
            }
        } else {
            assert(tok_all(inputs) is None);
            if !(tok_of(inputs[0]) is Some) {
                assert(!(tok_of(inputs[0]) is Some));
            } else {
                assert(tok_all(inputs.drop_first()) is None);
                let j = choose|j: int|
                    0 <= j < inputs.drop_first().len() && !(#[trigger] tok_of(
                        inputs.drop_first()[j],
                    ) is Some);
                assert(inputs.drop_first()[j] == inputs[j + 1]);
                assert(!(tok_of(inputs[j + 1]) is Some));
            }
        }
    }
}

} // verus!
