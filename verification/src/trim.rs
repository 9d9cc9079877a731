//! The trim operator: suppresses the first N translation units of a
//! document and every event inside them, plus the single whitespace-only
//! text event that immediately follows a suppressed unit boundary; every
//! other event passes through unchanged.

use vstd::prelude::*;

use crate::events::all_ws;
use crate::events::is_close_named;
use crate::events::is_empty_named;
use crate::events::is_open_named;
use crate::events::is_xml_whitespace;
use crate::events::push_ev;
use crate::events::ev_close_named;
use crate::events::ev_empty_named;
use crate::events::ev_open_named;
use crate::events::EventS;
use crate::events::XmlEvent;
use crate::names::tu;
use crate::names::tu_bytes;

verus! {

/// The trim machine's state: how many unit boundaries have begun, whether
/// the scan stands inside a unit that is being suppressed or copied, and
/// whether the event just before was a suppressed unit boundary.
pub struct TrimState {
    pub seen: nat,
    pub inside_tu: bool,
    pub just_skipped: bool,
}

pub open spec fn trim_init() -> TrimState {
    TrimState { seen: 0, inside_tu: false, just_skipped: false }
}

/// Forwards the event unless the scan stands inside a suppressed unit.
pub open spec fn trim_pass(st: TrimState, ev: EventS, n: nat) -> (TrimState, Seq<EventS>) {
    if st.inside_tu && st.seen <= n {
        (st, Seq::empty())
    } else {
        (TrimState { seen: st.seen, inside_tu: st.inside_tu, just_skipped: false }, seq![ev])
    }
}

/// One step of the trim machine.
pub open spec fn trim_step(st: TrimState, ev: EventS, n: nat) -> (TrimState, Seq<EventS>) {
    if is_open_named(ev, tu()) {
        let seen = st.seen + 1;
        if seen > n {
            (TrimState { seen, inside_tu: true, just_skipped: false }, seq![ev])
        } else {
            (TrimState { seen, inside_tu: true, just_skipped: true }, Seq::empty())
        }
    } else if is_empty_named(ev, tu()) {
        let seen = st.seen + 1;
        if seen > n {
            (TrimState { seen, inside_tu: st.inside_tu, just_skipped: false }, seq![ev])
        } else {
            (TrimState { seen, inside_tu: st.inside_tu, just_skipped: true }, Seq::empty())
        }
    } else if is_close_named(ev, tu()) {
        if st.seen > n {
            (TrimState { seen: st.seen, inside_tu: false, just_skipped: false }, seq![ev])
        } else {
            (TrimState { seen: st.seen, inside_tu: false, just_skipped: true }, Seq::empty())
        }
    } else {
        match ev {
            EventS::Text(c) => if st.just_skipped && all_ws(c) {
                (
                    TrimState {
                        seen: st.seen,
                        inside_tu: st.inside_tu,
                        just_skipped: false,
                    },
                    Seq::empty(),
                )
            } else {
                trim_pass(st, ev, n)
            },
            _ => trim_pass(st, ev, n),
        }
    }
}

/// The events the machine emits from state `st` over the suffix of `evs`
/// that starts at `i`.
pub open spec fn trim_from(st: TrimState, evs: Seq<EventS>, i: int, n: nat) -> Seq<EventS>
    decreases evs.len() - i,
{
    if i < 0 || i >= evs.len() {
        Seq::empty()
    } else {
        trim_step(st, evs[i], n).1 + trim_from(trim_step(st, evs[i], n).0, evs, i + 1, n)
    }
}

/// The whole output of trimming the first `n` units from `evs`.
pub open spec fn trim_spec(evs: Seq<EventS>, n: nat) -> Seq<EventS> {
    trim_from(trim_init(), evs, 0, n)
}

/// Drops the first `n` translation units of the document and returns every
/// remaining event, exactly as the trim machine emits them.
pub fn trim_events(evs: &Vec<XmlEvent>, n: usize) -> (out: Vec<XmlEvent>)
    ensures
        out.deep_view() == trim_spec(evs.deep_view(), n as nat),
{
    let ghost dv = evs.deep_view();
    let mut out: Vec<XmlEvent> = Vec::new();
    let mut seen: usize = 0;
    let mut inside_tu: bool = false;
    let mut just_skipped: bool = false;
    let len = evs.len();
    let mut i: usize = 0;
    let tu_n = tu_bytes();
    while i < len
        invariant
            0 <= i <= len,
            len == evs@.len(),
            dv == evs.deep_view(),
            dv.len() == len,
            forall|j: int| 0 <= j < len ==> dv[j] == #[trigger] evs@[j]@,
            seen <= i,
            tu_n@ == tu(),
            trim_spec(dv, n as nat) == out.deep_view() + trim_from(
                TrimState { seen: seen as nat, inside_tu, just_skipped },
                dv,
                i as int,
                n as nat,
            ),
        decreases len - i,
    {
        let ghost st0 = TrimState { seen: seen as nat, inside_tu, just_skipped };
        let ghost out0 = out.deep_view();
        let ghost step = trim_step(st0, dv[i as int], n as nat);
        let ev = &evs[i];
        assert(ev@ == dv[i as int]);
        if ev_open_named(ev, tu_n.as_slice()) {
            seen = seen + 1;
            inside_tu = true;
            if seen > n {
                push_ev(&mut out, ev);
                just_skipped = false;
                proof {
                    assert(out.deep_view() =~= out0 + step.1);
                }
            } else {
                just_skipped = true;
            }
        } else if ev_empty_named(ev, tu_n.as_slice()) {
            seen = seen + 1;
            if seen > n {
                push_ev(&mut out, ev);
                just_skipped = false;
                proof {
                    assert(out.deep_view() =~= out0 + step.1);
                }
            } else {
                just_skipped = true;
            }
        } else if ev_close_named(ev, tu_n.as_slice()) {
            if seen > n {
                push_ev(&mut out, ev);
                just_skipped = false;
                proof {
                    assert(out.deep_view() =~= out0 + step.1);
                }
            } else {
                just_skipped = true;
            }
            inside_tu = false;
        } else {
            let is_ws_text = match ev {
                XmlEvent::Text(c) => is_xml_whitespace(c.as_slice()),
                _ => false,
            };
            if just_skipped && is_ws_text {
                just_skipped = false;
            } else if !(inside_tu && seen <= n) {
                push_ev(&mut out, ev);
                just_skipped = false;
                proof {
                    assert(out.deep_view() =~= out0 + step.1);
                }
            }
        }
        proof {
            assert(TrimState { seen: seen as nat, inside_tu, just_skipped } == step.0);
            if step.1.len() == 0 {
                assert(out.deep_view() =~= out0 + step.1);
            }
            assert(trim_from(st0, dv, i as int, n as nat) == step.1 + trim_from(
                step.0,
                dv,
                i as int + 1,
                n as nat,
            ));
            assert(out0 + (step.1 + trim_from(step.0, dv, i as int + 1, n as nat)) =~= (out0
                + step.1) + trim_from(step.0, dv, i as int + 1, n as nat));
        }
        i = i + 1;
    }
    proof {
        assert(trim_spec(dv, n as nat) =~= out.deep_view());
    }
    out
}

/// The machine's state after the events from `i` on.
pub open spec fn trim_after(st: TrimState, evs: Seq<EventS>, i: int, n: nat) -> TrimState
    decreases evs.len() - i,
{
    if i < 0 || i >= evs.len() {
        st
    } else {
        trim_after(trim_step(st, evs[i], n).0, evs, i + 1, n)
    }
}

proof fn lemma_trim_from_shift(st: TrimState, a: Seq<EventS>, b: Seq<EventS>, j: int, n: nat)
    requires
        0 <= j <= b.len(),
    ensures
        trim_from(st, a + b, a.len() + j, n) == trim_from(st, b, j, n),
    decreases b.len() - j,
{
    if j < b.len() {
        assert((a + b)[a.len() + j] == b[j]);
        lemma_trim_from_shift(trim_step(st, b[j], n).0, a, b, j + 1, n);
    }
}

/// Trimming a concatenation trims the first part, then the second from the
/// state the first part left behind.
proof fn lemma_trim_from_append(st: TrimState, a: Seq<EventS>, b: Seq<EventS>, i: int, n: nat)
    requires
        0 <= i <= a.len(),
    ensures
        trim_from(st, a + b, i, n) == trim_from(st, a, i, n) + trim_from(
            trim_after(st, a, i, n),
            b,
            0,
            n,
        ),
    decreases a.len() - i,
{
    if i == a.len() {
        lemma_trim_from_shift(st, a, b, 0, n);
        assert(trim_from(st, a, i, n) =~= Seq::<EventS>::empty());
        assert(Seq::<EventS>::empty() + trim_from(st, b, 0, n) =~= trim_from(st, b, 0, n));
    } else {
        assert((a + b)[i] == a[i]);
        let step = trim_step(st, a[i], n);
        lemma_trim_from_append(step.0, a, b, i + 1, n);
        assert(step.1 + (trim_from(step.0, a, i + 1, n) + trim_from(
            trim_after(step.0, a, i + 1, n),
            b,
            0,
            n,
        )) =~= (step.1 + trim_from(step.0, a, i + 1, n)) + trim_from(
            trim_after(step.0, a, i + 1, n),
            b,
            0,
            n,
        ));
    }
}

/// Once more units have begun than are to be dropped, the machine is the
/// identity: everything left is forwarded untouched.
proof fn lemma_trim_tail_id(st: TrimState, evs: Seq<EventS>, i: int, n: nat)
    requires
        0 <= i <= evs.len(),
        st.seen > n,
        !st.just_skipped,
    ensures
        trim_from(st, evs, i, n) == evs.skip(i),
    decreases evs.len() - i,
{
    if i == evs.len() {
        assert(evs.skip(i) =~= Seq::<EventS>::empty());
    } else {
        let step = trim_step(st, evs[i], n);
        lemma_trim_tail_id(step.0, evs, i + 1, n);
        assert(trim_from(st, evs, i, n) =~= evs.skip(i));
    }
}

/// Whatever follows the Nth unit is copied verbatim, its own trailing
/// whitespace included: once the part already scanned has begun more than
/// `n` units and did not just suppress a boundary, the rest of the
/// document passes through unchanged.
pub proof fn lemma_trim_tail_verbatim(a: Seq<EventS>, b: Seq<EventS>, n: nat)
    requires
        trim_after(trim_init(), a, 0, n).seen > n,
        !trim_after(trim_init(), a, 0, n).just_skipped,
    ensures
        trim_spec(a + b, n) == trim_spec(a, n) + b,
{
    lemma_trim_from_append(trim_init(), a, b, 0, n);
    lemma_trim_tail_id(trim_after(trim_init(), a, 0, n), b, 0, n);
    assert(b.skip(0) =~= b);
}

/// Whether the event is any translation-unit boundary event.
pub open spec fn is_tu_event(ev: EventS) -> bool {
    is_open_named(ev, tu()) || is_empty_named(ev, tu()) || is_close_named(ev, tu())
}

/// How many translation units begin in the sequence: one per `tu` open tag
/// and one per self-closing `tu` tag.
pub open spec fn tu_count(evs: Seq<EventS>) -> nat
    decreases evs.len(),
{
    if evs.len() == 0 {
        0
    } else {
        tu_count(evs.drop_last()) + if is_open_named(evs.last(), tu()) || is_empty_named(
            evs.last(),
            tu(),
        ) {
            1nat
        } else {
            0nat
        }
    }
}

pub proof fn lemma_tu_count_concat(a: Seq<EventS>, b: Seq<EventS>)
    ensures
        tu_count(a + b) == tu_count(a) + tu_count(b),
    decreases b.len(),
{
    if b.len() == 0 {
        assert(a + b =~= a);
    } else {
        lemma_tu_count_concat(a, b.drop_last());
        assert((a + b).drop_last() =~= a + b.drop_last());
        assert((a + b).last() == b.last());
    }
}

pub proof fn lemma_tu_count_skip(evs: Seq<EventS>, i: int)
    requires
        0 <= i < evs.len(),
    ensures
        tu_count(evs.skip(i)) == tu_count(evs.skip(i + 1)) + if is_open_named(evs[i], tu())
            || is_empty_named(evs[i], tu()) {
            1nat
        } else {
            0nat
        },
{
    assert(evs.skip(i) =~= seq![evs[i]] + evs.skip(i + 1));
    lemma_tu_count_concat(seq![evs[i]], evs.skip(i + 1));
    assert(seq![evs[i]].drop_last() =~= Seq::<EventS>::empty());
    assert(seq![evs[i]].last() == evs[i]);
    assert(tu_count(Seq::<EventS>::empty()) == 0);
    assert(tu_count(seq![evs[i]]) == if is_open_named(evs[i], tu()) || is_empty_named(
        evs[i],
        tu(),
    ) {
        1nat
    } else {
        0nat
    });
}

/// With no units to drop, the machine forwards everything, as long as every
/// `tu` close tag comes after some unit has begun.
proof fn lemma_trim_zero_from(st: TrimState, evs: Seq<EventS>, i: int)
    requires
        0 <= i <= evs.len(),
        !st.just_skipped,
        st.inside_tu ==> st.seen >= 1,
        st.seen >= tu_count(evs.take(i)),
        forall|k: int|
            0 <= k < evs.len() && is_close_named(#[trigger] evs[k], tu()) ==> tu_count(
                evs.take(k),
            ) >= 1,
    ensures
        trim_from(st, evs, i, 0) == evs.skip(i),
    decreases evs.len() - i,
{
    if i == evs.len() {
        assert(evs.skip(i) =~= Seq::<EventS>::empty());
    } else {
        let ev = evs[i];
        let step = trim_step(st, ev, 0);
        if is_close_named(ev, tu()) {
            assert(tu_count(evs.take(i)) >= 1);
            assert(st.seen >= 1);
        }
        assert(evs.take(i + 1).drop_last() =~= evs.take(i));
        assert(evs.take(i + 1).last() == ev);
        lemma_trim_zero_from(step.0, evs, i + 1);
        assert(trim_from(st, evs, i, 0) =~= evs.skip(i));
    }
}

/// Trimming zero units is the identity, whenever every `tu` close tag in
/// the document stands after the start of some unit.
pub proof fn lemma_trim_zero(evs: Seq<EventS>)
    requires
        forall|k: int|
            0 <= k < evs.len() && is_close_named(#[trigger] evs[k], tu()) ==> tu_count(
                evs.take(k),
            ) >= 1,
    ensures
        trim_spec(evs, 0) == evs,
{
    assert(evs.take(0) =~= Seq::<EventS>::empty());
    lemma_trim_zero_from(trim_init(), evs, 0);
    assert(evs.skip(0) =~= evs);
}

/// How many units the machine still emits from state `st` onward.
proof fn lemma_trim_count_from(st: TrimState, evs: Seq<EventS>, i: int, n: nat)
    requires
        0 <= i <= evs.len(),
    ensures
        tu_count(trim_from(st, evs, i, n)) as int == if st.seen >= n {
            tu_count(evs.skip(i)) as int
        } else if st.seen + tu_count(evs.skip(i)) >= n {
            st.seen + tu_count(evs.skip(i)) - n
        } else {
            0
        },
    decreases evs.len() - i,
{
    if i == evs.len() {
        assert(evs.skip(i) =~= Seq::<EventS>::empty());
        assert(trim_from(st, evs, i, n) =~= Seq::<EventS>::empty());
    } else {
        let ev = evs[i];
        let step = trim_step(st, ev, n);
        lemma_trim_count_from(step.0, evs, i + 1, n);
        lemma_tu_count_skip(evs, i);
        lemma_tu_count_concat(step.1, trim_from(step.0, evs, i + 1, n));
        assert(trim_from(st, evs, i, n) == step.1 + trim_from(step.0, evs, i + 1, n));
        if step.1.len() > 0 {
            assert(step.1 =~= seq![ev]);
            assert(seq![ev].drop_last() =~= Seq::<EventS>::empty());
            assert(seq![ev].last() == ev);
            assert(tu_count(Seq::<EventS>::empty()) == 0);
            assert(tu_count(step.1) == if is_open_named(ev, tu()) || is_empty_named(ev, tu()) {
                1nat
            } else {
                0nat
            });
        } else {
            assert(step.1 =~= Seq::<EventS>::empty());
            assert(tu_count(step.1) == 0);
        }
    }
}

/// Dropping `n` units leaves `count - n` units when the document has
/// `count >= n`, and none at all otherwise.
pub proof fn lemma_trim_unit_count(evs: Seq<EventS>, n: nat)
    ensures
        n <= tu_count(evs) ==> tu_count(trim_spec(evs, n)) == tu_count(evs) - n,
        n >= tu_count(evs) ==> tu_count(trim_spec(evs, n)) == 0,
{
    lemma_trim_count_from(trim_init(), evs, 0, n);
    assert(evs.skip(0) =~= evs);
}

/// When `n` is at least the document's unit count, nothing of any unit
/// boundary survives: the output holds no `tu` event at all.
proof fn lemma_trim_all_from(st: TrimState, evs: Seq<EventS>, i: int, n: nat)
    requires
        0 <= i <= evs.len(),
        st.seen + tu_count(evs.skip(i)) <= n,
    ensures
        forall|k: int|
            0 <= k < trim_from(st, evs, i, n).len() ==> !is_tu_event(
                #[trigger] trim_from(st, evs, i, n)[k],
            ),
    decreases evs.len() - i,
{
    if i == evs.len() {
    } else {
        let ev = evs[i];
        let step = trim_step(st, ev, n);
        lemma_tu_count_skip(evs, i);
        lemma_trim_all_from(step.0, evs, i + 1, n);
        assert forall|k: int| 0 <= k < trim_from(st, evs, i, n).len() implies !is_tu_event(
            #[trigger] trim_from(st, evs, i, n)[k],
        ) by {
            if k < step.1.len() {
                assert(trim_from(st, evs, i, n)[k] == step.1[k]);
                assert(step.1.len() > 0 ==> step.1 == seq![ev]);
            } else {
                assert(trim_from(st, evs, i, n)[k] == trim_from(step.0, evs, i + 1, n)[k
                    - step.1.len()]);
            }
        }
    }
}

/// Trimming at least as many units as the document holds leaves a body with
/// no `tu` element: no unit boundary event of any form survives.
pub proof fn lemma_trim_all(evs: Seq<EventS>, n: nat)
    requires
        n >= tu_count(evs),
    ensures
        forall|k: int|
            0 <= k < trim_spec(evs, n).len() ==> !is_tu_event(#[trigger] trim_spec(evs, n)[k]),
{
    assert(evs.skip(0) =~= evs);
    lemma_trim_all_from(trim_init(), evs, 0, n);
}

} // verus!
