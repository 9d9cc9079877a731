//! The structural event model: an owned, closed sum type for the events that
//! an XML tokenizer produces, together with its mathematical view, the exact
//! serialized form of each event, and small byte-level helpers shared by the
//! stream operators.

use vstd::prelude::*;

verus! {

/// One structural XML event, owning its bytes.
///
/// `Open`, `Empty` and `Close` carry the raw content between the angle
/// brackets (for `Close`, the element name). `Text` carries raw character
/// data exactly as it stands in the document (escapes untouched). The other
/// variants carry the raw content of the corresponding construct, without
/// its delimiters.
pub enum XmlEvent {
    Open(Vec<u8>),
    Empty(Vec<u8>),
    Close(Vec<u8>),
    Text(Vec<u8>),
    CData(Vec<u8>),
    Comment(Vec<u8>),
    Decl(Vec<u8>),
    PI(Vec<u8>),
    DocType(Vec<u8>),
    GeneralRef(Vec<u8>),
}

/// The mathematical model of an event: the same sum, over byte sequences.
pub enum EventS {
    Open(Seq<u8>),
    Empty(Seq<u8>),
    Close(Seq<u8>),
    Text(Seq<u8>),
    CData(Seq<u8>),
    Comment(Seq<u8>),
    Decl(Seq<u8>),
    PI(Seq<u8>),
    DocType(Seq<u8>),
    GeneralRef(Seq<u8>),
}

impl View for XmlEvent {
    type V = EventS;

    open spec fn view(&self) -> EventS {
        match self {
            XmlEvent::Open(c) => EventS::Open(c@),
            XmlEvent::Empty(c) => EventS::Empty(c@),
            XmlEvent::Close(c) => EventS::Close(c@),
            XmlEvent::Text(c) => EventS::Text(c@),
            XmlEvent::CData(c) => EventS::CData(c@),
            XmlEvent::Comment(c) => EventS::Comment(c@),
            XmlEvent::Decl(c) => EventS::Decl(c@),
            XmlEvent::PI(c) => EventS::PI(c@),
            XmlEvent::DocType(c) => EventS::DocType(c@),
            XmlEvent::GeneralRef(c) => EventS::GeneralRef(c@),
        }
    }
}

impl DeepView for XmlEvent {
    type V = EventS;

    open spec fn deep_view(&self) -> EventS {
        self.view()
    }
}

/// Whether a byte is XML whitespace: space, tab, carriage return or line feed.
pub open spec fn is_ws_byte(b: u8) -> bool {
    b == 32 || b == 9 || b == 13 || b == 10
}

/// Whether every byte of the sequence is XML whitespace.
pub open spec fn all_ws(s: Seq<u8>) -> bool {
    forall|i: int| 0 <= i < s.len() ==> is_ws_byte(s[i])
}

/// Reports whether every byte is XML whitespace (space, tab, CR, LF).
/// The empty slice counts as whitespace-only.
pub fn is_xml_whitespace(bytes: &[u8]) -> (r: bool)
    ensures
        r == all_ws(bytes@),
{
    let n = bytes.len();
    let mut i: usize = 0;
    while i < n
        invariant
            0 <= i <= n,
            n == bytes@.len(),
            forall|j: int| 0 <= j < i ==> is_ws_byte(bytes@[j]),
        decreases n - i,
    {
        let b = bytes[i];
        if !(b == 32 || b == 9 || b == 13 || b == 10) {
            return false;
        }
        i = i + 1;
    }
    true
}

/// The length of the element name at the start of a tag's content: the
/// longest prefix free of XML whitespace.
pub open spec fn spec_name_len(c: Seq<u8>) -> nat
    decreases c.len(),
{
    if c.len() == 0 || is_ws_byte(c[0]) {
        0
    } else {
        1 + spec_name_len(c.drop_first())
    }
}

/// The element name at the start of a tag's content.
pub open spec fn spec_name_of(c: Seq<u8>) -> Seq<u8> {
    c.take(spec_name_len(c) as int)
}

/// The name prefix is characterized by: no whitespace before it, and either
/// the end of the content or a whitespace byte at it.
pub proof fn lemma_name_len_char(c: Seq<u8>)
    ensures
        spec_name_len(c) <= c.len(),
        forall|j: int| 0 <= j < spec_name_len(c) ==> !is_ws_byte(c[j]),
        spec_name_len(c) < c.len() ==> is_ws_byte(c[spec_name_len(c) as int]),
    decreases c.len(),
{
    if c.len() == 0 || is_ws_byte(c[0]) {
    } else {
        lemma_name_len_char(c.drop_first());
        assert forall|j: int| 0 <= j < spec_name_len(c) implies !is_ws_byte(c[j]) by {
            if j > 0 {
                assert(c.drop_first()[j - 1] == c[j]);
            }
        }
        if spec_name_len(c) < c.len() {
            assert(c.drop_first()[spec_name_len(c) as int - 1] == c[spec_name_len(c) as int]);
        }
    }
}

/// Conversely, any index with those properties is the name length.
pub proof fn lemma_name_len_unique(c: Seq<u8>, k: int)
    requires
        0 <= k <= c.len(),
        forall|j: int| 0 <= j < k ==> !is_ws_byte(c[j]),
        k < c.len() ==> is_ws_byte(c[k]),
    ensures
        spec_name_len(c) == k,
    decreases c.len(),
{
    if c.len() == 0 {
    } else if is_ws_byte(c[0]) {
        assert(k == 0);
    } else {
        assert(k >= 1);
        lemma_name_len_unique(c.drop_first(), k - 1);
    }
}

/// Computes the element name length of a tag's content.
pub fn name_len_of(c: &[u8]) -> (r: usize)
    ensures
        r == spec_name_len(c@),
{
    let n = c.len();
    let mut i: usize = 0;
    while i < n
        invariant
            0 <= i <= n,
            n == c@.len(),
            forall|j: int| 0 <= j < i ==> !is_ws_byte(c@[j]),
        decreases n - i,
    {
        let b = c[i];
        if b == 32 || b == 9 || b == 13 || b == 10 {
            proof {
                lemma_name_len_unique(c@, i as int);
            }
            return i;
        }
        i = i + 1;
    }
    proof {
        lemma_name_len_unique(c@, n as int);
    }
    n
}

/// Reports whether two byte slices hold the same bytes.
pub fn bytes_eq(a: &[u8], b: &[u8]) -> (r: bool)
    ensures
        r == (a@ == b@),
{
    if a.len() != b.len() {
        assert(a@.len() != b@.len());
        return false;
    }
    let n = a.len();
    let mut i: usize = 0;
    while i < n
        invariant
            0 <= i <= n,
            n == a@.len(),
            n == b@.len(),
            forall|j: int| 0 <= j < i ==> a@[j] == b@[j],
        decreases n - i,
    {
        if a[i] != b[i] {
            assert(a@ != b@);
            return false;
        }
        i = i + 1;
    }
    assert(a@ =~= b@);
    true
}

/// Reports whether the content of a tag begins with exactly the given name.
pub fn name_is(c: &[u8], name: &[u8]) -> (r: bool)
    ensures
        r == (spec_name_of(c@) == name@),
{
    let k = name_len_of(c);
    proof {
        lemma_name_len_char(c@);
    }
    let mut i: usize = 0;
    if k != name.len() {
        assert(spec_name_of(c@).len() == k);
        return false;
    }
    while i < k
        invariant
            0 <= i <= k,
            k == spec_name_len(c@),
            k <= c@.len(),
            k == name@.len(),
            forall|j: int| 0 <= j < i ==> c@[j] == name@[j],
        decreases k - i,
    {
        if c[i] != name[i] {
            assert(spec_name_of(c@)[i as int] != name@[i as int]);
            return false;
        }
        i = i + 1;
    }
    assert(spec_name_of(c@) =~= name@);
    true
}

/// Copies a byte vector.
pub fn dup_bytes(v: &Vec<u8>) -> (r: Vec<u8>)
    ensures
        r@ == v@,
{
    let mut out: Vec<u8> = Vec::new();
    let n = v.len();
    let mut i: usize = 0;
    while i < n
        invariant
            0 <= i <= n,
            n == v@.len(),
            out@ == v@.take(i as int),
        decreases n - i,
    {
        out.push(v[i]);
        assert(out@ =~= v@.take(i as int + 1));
        i = i + 1;
    }
    assert(out@ =~= v@);
    out
}

/// Copies an event.
pub fn dup_event(ev: &XmlEvent) -> (r: XmlEvent)
    ensures
        r@ == ev@,
{
    match ev {
        XmlEvent::Open(c) => XmlEvent::Open(dup_bytes(c)),
        XmlEvent::Empty(c) => XmlEvent::Empty(dup_bytes(c)),
        XmlEvent::Close(c) => XmlEvent::Close(dup_bytes(c)),
        XmlEvent::Text(c) => XmlEvent::Text(dup_bytes(c)),
        XmlEvent::CData(c) => XmlEvent::CData(dup_bytes(c)),
        XmlEvent::Comment(c) => XmlEvent::Comment(dup_bytes(c)),
        XmlEvent::Decl(c) => XmlEvent::Decl(dup_bytes(c)),
        XmlEvent::PI(c) => XmlEvent::PI(dup_bytes(c)),
        XmlEvent::DocType(c) => XmlEvent::DocType(dup_bytes(c)),
        XmlEvent::GeneralRef(c) => XmlEvent::GeneralRef(dup_bytes(c)),
    }
}

/// Appends a copy of the event to the output events.
pub fn push_ev(out: &mut Vec<XmlEvent>, ev: &XmlEvent)
    ensures
        final(out).deep_view() == old(out).deep_view().push(ev@),
{
    let d = dup_event(ev);
    out.push(d);
    proof {
        assert(out.deep_view() =~= old(out).deep_view().push(ev@));
    }
}

/// Whether the event opens an element of this name.
pub open spec fn is_open_named(ev: EventS, name: Seq<u8>) -> bool {
    match ev {
        EventS::Open(c) => spec_name_of(c) == name,
        _ => false,
    }
}

/// Whether the event is a self-closing element of this name.
pub open spec fn is_empty_named(ev: EventS, name: Seq<u8>) -> bool {
    match ev {
        EventS::Empty(c) => spec_name_of(c) == name,
        _ => false,
    }
}

/// Whether the event closes an element of this name.
pub open spec fn is_close_named(ev: EventS, name: Seq<u8>) -> bool {
    match ev {
        EventS::Close(c) => spec_name_of(c) == name,
        _ => false,
    }
}

pub fn ev_open_named(ev: &XmlEvent, name: &[u8]) -> (r: bool)
    ensures
        r == is_open_named(ev@, name@),
{
    match ev {
        XmlEvent::Open(c) => name_is(c.as_slice(), name),
        _ => false,
    }
}

pub fn ev_empty_named(ev: &XmlEvent, name: &[u8]) -> (r: bool)
    ensures
        r == is_empty_named(ev@, name@),
{
    match ev {
        XmlEvent::Empty(c) => name_is(c.as_slice(), name),
        _ => false,
    }
}

/// The raw content carried by the event, whatever its kind.
pub open spec fn content_of(ev: EventS) -> Seq<u8> {
    match ev {
        EventS::Open(c) => c,
        EventS::Empty(c) => c,
        EventS::Close(c) => c,
        EventS::Text(c) => c,
        EventS::CData(c) => c,
        EventS::Comment(c) => c,
        EventS::Decl(c) => c,
        EventS::PI(c) => c,
        EventS::DocType(c) => c,
        EventS::GeneralRef(c) => c,
    }
}

pub fn ev_content<'a>(ev: &'a XmlEvent) -> (r: &'a Vec<u8>)
    ensures
        r@ == content_of(ev@),
{
    match ev {
        XmlEvent::Open(c) => c,
        XmlEvent::Empty(c) => c,
        XmlEvent::Close(c) => c,
        XmlEvent::Text(c) => c,
        XmlEvent::CData(c) => c,
        XmlEvent::Comment(c) => c,
        XmlEvent::Decl(c) => c,
        XmlEvent::PI(c) => c,
        XmlEvent::DocType(c) => c,
        XmlEvent::GeneralRef(c) => c,
    }
}

/// Copies the element name out of a tag's content.
pub fn name_of_vec(c: &Vec<u8>) -> (r: Vec<u8>)
    ensures
        r@ == spec_name_of(c@),
{
    let k = name_len_of(c.as_slice());
    proof {
        lemma_name_len_char(c@);
    }
    let mut out: Vec<u8> = Vec::new();
    let mut i: usize = 0;
    while i < k
        invariant
            0 <= i <= k,
            k == spec_name_len(c@),
            k <= c@.len(),
            out@ == c@.take(i as int),
        decreases k - i,
    {
        out.push(c[i]);
        assert(out@ =~= c@.take(i as int + 1));
        i = i + 1;
    }
    out
}

pub fn ev_close_named(ev: &XmlEvent, name: &[u8]) -> (r: bool)
    ensures
        r == is_close_named(ev@, name@),
{
    match ev {
        XmlEvent::Close(c) => name_is(c.as_slice(), name),
        _ => false,
    }
}

} // verus!
