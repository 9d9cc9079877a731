//! The serialized form of structural events. Each event turns back into
//! bytes by wrapping its raw content in the delimiters of its construct;
//! nothing is escaped or re-encoded, so a parsed document round-trips.

use vstd::prelude::*;

use crate::events::EventS;
use crate::events::XmlEvent;

verus! {

/// The serialized bytes of one event.
pub open spec fn ser_event(ev: EventS) -> Seq<u8> {
    match ev {
        EventS::Open(c) => seq![60u8] + c + seq![62u8],
        EventS::Empty(c) => seq![60u8] + c + seq![47u8, 62u8],
        EventS::Close(c) => seq![60u8, 47u8] + c + seq![62u8],
        EventS::Text(c) => c,
        EventS::CData(c) => seq![60u8, 33u8, 91u8, 67u8, 68u8, 65u8, 84u8, 65u8, 91u8] + c + seq![
            93u8,
            93u8,
            62u8,
        ],
        EventS::Comment(c) => seq![60u8, 33u8, 45u8, 45u8] + c + seq![45u8, 45u8, 62u8],
        EventS::Decl(c) => seq![60u8, 63u8] + c + seq![63u8, 62u8],
        EventS::PI(c) => seq![60u8, 63u8] + c + seq![63u8, 62u8],
        EventS::DocType(c) => seq![60u8, 33u8, 68u8, 79u8, 67u8, 84u8, 89u8, 80u8, 69u8, 32u8] + c
            + seq![62u8],
        EventS::GeneralRef(c) => seq![38u8] + c + seq![59u8],
    }
}

/// The serialized bytes of a whole event sequence.
pub open spec fn ser_events(evs: Seq<EventS>) -> Seq<u8>
    decreases evs.len(),
{
    if evs.len() == 0 {
        Seq::empty()
    } else {
        ser_event(evs[0]) + ser_events(evs.drop_first())
    }
}

/// Appending one event to a sequence appends its bytes to the serialization.
pub proof fn lemma_ser_events_push(evs: Seq<EventS>, ev: EventS)
    ensures
        ser_events(evs.push(ev)) == ser_events(evs) + ser_event(ev),
    decreases evs.len(),
{
    if evs.len() == 0 {
        assert(evs.push(ev).drop_first() =~= Seq::<EventS>::empty());
        assert(ser_event(evs.push(ev)[0]) + ser_events(evs.push(ev).drop_first()) =~= ser_events(
            evs,
        ) + ser_event(ev));
    } else {
        assert(evs.push(ev).drop_first() =~= evs.drop_first().push(ev));
        lemma_ser_events_push(evs.drop_first(), ev);
        assert(ser_events(evs.push(ev)) =~= ser_events(evs) + ser_event(ev));
    }
}

/// Appends a byte slice to the output buffer.
pub fn push_bytes(out: &mut Vec<u8>, b: &[u8])
    ensures
        final(out)@ == old(out)@ + b@,
{
    let n = b.len();
    let mut i: usize = 0;
    while i < n
        invariant
            0 <= i <= n,
            n == b@.len(),
            out@ == old(out)@ + b@.take(i as int),
        decreases n - i,
    {
        out.push(b[i]);
        assert(out@ =~= old(out)@ + b@.take(i as int + 1));
        i = i + 1;
    }
    assert(out@ =~= old(out)@ + b@);
}

/// Writes the serialized form of one event onto the output buffer.
pub fn write_event(out: &mut Vec<u8>, ev: &XmlEvent)
    ensures
        final(out)@ == old(out)@ + ser_event(ev@),
{
    match ev {
        XmlEvent::Open(c) => {
            out.push(60);
            push_bytes(out, c.as_slice());
            out.push(62);
            assert(out@ =~= old(out)@ + ser_event(ev@));
        },
        XmlEvent::Empty(c) => {
            out.push(60);
            push_bytes(out, c.as_slice());
            out.push(47);
            out.push(62);
            assert(out@ =~= old(out)@ + ser_event(ev@));
        },
        XmlEvent::Close(c) => {
            out.push(60);
            out.push(47);
            push_bytes(out, c.as_slice());
            out.push(62);
            assert(out@ =~= old(out)@ + ser_event(ev@));
        },
        XmlEvent::Text(c) => {
            push_bytes(out, c.as_slice());
            assert(out@ =~= old(out)@ + ser_event(ev@));
        },
        XmlEvent::CData(c) => {
            out.push(60);
            out.push(33);
            out.push(91);
            out.push(67);
            out.push(68);
            out.push(65);
            out.push(84);
            out.push(65);
            out.push(91);
            push_bytes(out, c.as_slice());
            out.push(93);
            out.push(93);
            out.push(62);
            assert(out@ =~= old(out)@ + ser_event(ev@));
        },
        XmlEvent::Comment(c) => {
            out.push(60);
            out.push(33);
            out.push(45);
            out.push(45);
            push_bytes(out, c.as_slice());
            out.push(45);
            out.push(45);
            out.push(62);
            assert(out@ =~= old(out)@ + ser_event(ev@));
        },
        XmlEvent::Decl(c) => {
            out.push(60);
            out.push(63);
            push_bytes(out, c.as_slice());
            out.push(63);
            out.push(62);
            assert(out@ =~= old(out)@ + ser_event(ev@));
        },
        XmlEvent::PI(c) => {
            out.push(60);
            out.push(63);
            push_bytes(out, c.as_slice());
            out.push(63);
            out.push(62);
            assert(out@ =~= old(out)@ + ser_event(ev@));
        },
        XmlEvent::DocType(c) => {
            out.push(60);
            out.push(33);
            out.push(68);
            out.push(79);
            out.push(67);
            out.push(84);
            out.push(89);
            out.push(80);
            out.push(69);
            out.push(32);
            push_bytes(out, c.as_slice());
            out.push(62);
            assert(out@ =~= old(out)@ + ser_event(ev@));
        },
        XmlEvent::GeneralRef(c) => {
            out.push(38);
            push_bytes(out, c.as_slice());
            out.push(59);
            assert(out@ =~= old(out)@ + ser_event(ev@));
        },
    }
}

/// Serializes a whole event sequence.
pub fn serialize_events(evs: &Vec<XmlEvent>) -> (r: Vec<u8>)
    ensures
        r@ == ser_events(evs.deep_view()),
{
    let mut out: Vec<u8> = Vec::new();
    let n = evs.len();
    let mut i: usize = 0;
    while i < n
        invariant
            0 <= i <= n,
            n == evs@.len(),
            evs.deep_view().len() == n,
            forall|j: int| 0 <= j < n ==> evs.deep_view()[j] == #[trigger] evs@[j]@,
            out@ == ser_events(evs.deep_view().take(i as int)),
        decreases n - i,
    {
        write_event(&mut out, &evs[i]);
        proof {
            lemma_ser_events_push(evs.deep_view().take(i as int), evs.deep_view()[i as int]);
            assert(evs.deep_view().take(i as int).push(evs.deep_view()[i as int]) =~= evs
                .deep_view()
                .take(i as int + 1));
        }
        i = i + 1;
    }
    proof {
        assert(evs.deep_view().take(n as int) =~= evs.deep_view());
    }
    out
}

} // verus!
