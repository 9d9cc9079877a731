//! The dedup filter: collapses duplicate translation units across one
//! document. Each unit's capture is keyed by a composite of its source
//! segment, provenance fields and (optionally) target segments; of two
//! colliding units the one with the strictly greater timestamp survives,
//! the earlier capture otherwise. At the end the survivors are re-emitted
//! sorted by ascending timestamp, each behind a newline, and the document
//! is closed with literal text.

use vstd::prelude::*;

use crate::events::bytes_eq;
use crate::events::content_of;
use crate::events::dup_bytes;
use crate::events::is_close_named;
use crate::events::is_empty_named;
use crate::events::is_open_named;
use crate::events::name_len_of;
use crate::events::name_of_vec;
use crate::events::push_ev;
use crate::events::spec_name_of;
use crate::events::ev_close_named;
use crate::events::ev_content;
use crate::events::ev_empty_named;
use crate::events::ev_open_named;
use crate::events::EventS;
use crate::events::XmlEvent;
use crate::keys::key_eq;
use crate::keys::key_of;
use crate::keys::opt_bytes_eq;
use crate::keys::upper_ascii;
use crate::keys::context_bytes;
use crate::keys::DedupKey;
use crate::keys::DedupKeyS;
use crate::keys::FilterOptions;
use crate::keys::KeyToken;
use crate::keys::KeyTokenS;
use crate::names::creationdate;
use crate::names::creationdate_bytes;
use crate::names::creationid;
use crate::names::creationid_bytes;
use crate::names::footer;
use crate::names::footer_bytes;
use crate::names::newline;
use crate::names::newline_bytes;
use crate::names::prop;
use crate::names::prop_bytes;
use crate::names::seg;
use crate::names::seg_bytes;
use crate::names::tmgr_context;
use crate::names::tmgr_context_bytes;
use crate::names::tmgr_docname;
use crate::names::tmgr_docname_bytes;
use crate::names::tu;
use crate::names::tu_bytes;
use crate::names::tuv;
use crate::names::tuv_bytes;
use crate::names::type_attr;
use crate::names::type_attr_bytes;
use crate::names::xml_lang;
use crate::names::xml_lang_bytes;
use crate::timestamp::parse_timestamp;
use crate::timestamp::ts_of;
use crate::xmlio::attr_lookup;
use crate::xmlio::get_attribute_value;

verus! {

/// The token a segment-buffer entry contributes for this event: the
/// element name for tag events, the raw bytes for everything else.
pub open spec fn token_of(ev: EventS) -> KeyTokenS {
    match ev {
        EventS::Open(c) => KeyTokenS::Name(spec_name_of(c)),
        EventS::Empty(c) => KeyTokenS::Name(spec_name_of(c)),
        EventS::Close(c) => KeyTokenS::Name(spec_name_of(c)),
        _ => KeyTokenS::Raw(content_of(ev)),
    }
}

/// The per-unit accumulation, plus the process-wide source language. The
/// language is `None` until the first `tuv` of the stream fixes it; its
/// value is that `tuv`'s (possibly absent) language attribute.
pub struct UnitAcc {
    pub lang: Option<Option<Seq<u8>>>,
    pub in_doc_prop: bool,
    pub in_ctx_prop: bool,
    pub variant: Option<bool>,
    pub in_seg: bool,
    pub doc_val: Option<Seq<u8>>,
    pub ctx_val: Option<Seq<u8>>,
    pub src_toks: Seq<KeyTokenS>,
    pub tgt_toks: Seq<KeyTokenS>,
}

/// A fresh per-unit accumulation carrying the language over.
pub open spec fn acc_init(lang: Option<Option<Seq<u8>>>) -> UnitAcc {
    UnitAcc {
        lang,
        in_doc_prop: false,
        in_ctx_prop: false,
        variant: None,
        in_seg: false,
        doc_val: None,
        ctx_val: None,
        src_toks: Seq::empty(),
        tgt_toks: Seq::empty(),
    }
}

/// One interior event of a unit, folded into the accumulation.
pub open spec fn unit_step(a: UnitAcc, ev: EventS) -> UnitAcc {
    if a.in_seg {
        if is_close_named(ev, seg()) {
            UnitAcc { in_seg: false, ..a }
        } else {
            match a.variant {
                Some(true) => UnitAcc { src_toks: a.src_toks.push(token_of(ev)), ..a },
                Some(false) => UnitAcc { tgt_toks: a.tgt_toks.push(token_of(ev)), ..a },
                None => a,
            }
        }
    } else if is_open_named(ev, prop()) {
        let t = attr_lookup(content_of(ev), type_attr());
        if t == Some(tmgr_docname()) && a.doc_val is None {
            UnitAcc { in_doc_prop: true, ..a }
        } else if t == Some(tmgr_context()) && a.ctx_val is None {
            UnitAcc { in_ctx_prop: true, ..a }
        } else {
            a
        }
    } else if is_open_named(ev, tuv()) {
        let l = attr_lookup(content_of(ev), xml_lang());
        match a.lang {
            None => UnitAcc { lang: Some(l), variant: Some(true), ..a },
            Some(sl) => UnitAcc { variant: Some(l == sl), ..a },
        }
    } else if is_empty_named(ev, tuv()) {
        match a.lang {
            None => UnitAcc { lang: Some(attr_lookup(content_of(ev), xml_lang())), ..a },
            Some(_) => a,
        }
    } else if is_open_named(ev, seg()) {
        if a.variant is Some {
            UnitAcc { in_seg: true, ..a }
        } else {
            a
        }
    } else if is_close_named(ev, tuv()) {
        UnitAcc { variant: None, ..a }
    } else {
        match ev {
            EventS::Text(c) => {
                let a1 = if a.in_doc_prop {
                    UnitAcc {
                        doc_val: if a.doc_val is None {
                            Some(c)
                        } else {
                            a.doc_val
                        },
                        in_doc_prop: false,
                        ..a
                    }
                } else {
                    a
                };
                if a1.in_ctx_prop {
                    UnitAcc {
                        ctx_val: if a1.ctx_val is None {
                            Some(c)
                        } else {
                            a1.ctx_val
                        },
                        in_ctx_prop: false,
                        ..a1
                    }
                } else {
                    a1
                }
            },
            _ => a,
        }
    }
}

/// A retained record: its composite key, its timestamp, and the unit's
/// full capture.
pub struct RecordS {
    pub key: DedupKeyS,
    pub ts: int,
    pub capture: Seq<EventS>,
}

pub struct Record {
    pub key: DedupKey,
    pub ts: i64,
    pub capture: Vec<XmlEvent>,
}

impl View for Record {
    type V = RecordS;

    open spec fn view(&self) -> RecordS {
        RecordS { key: self.key@, ts: self.ts as int, capture: self.capture.deep_view() }
    }
}

impl DeepView for Record {
    type V = RecordS;

    open spec fn deep_view(&self) -> RecordS {
        self.view()
    }
}

/// Insert-or-replace: a new key goes to the end; a colliding record is
/// replaced in place exactly when the newcomer's timestamp is strictly
/// greater, so the first-captured record wins ties.
pub open spec fn upsert(recs: Seq<RecordS>, r: RecordS) -> Seq<RecordS>
    decreases recs.len(),
{
    if recs.len() == 0 {
        seq![r]
    } else if recs[0].key == r.key {
        if r.ts > recs[0].ts {
            seq![r] + recs.drop_first()
        } else {
            recs
        }
    } else {
        seq![recs[0]] + upsert(recs.drop_first(), r)
    }
}

/// The whole filter machine's state.
pub struct FState {
    pub cur: Option<Seq<EventS>>,
    pub author: Option<Seq<u8>>,
    pub tsraw: Option<Seq<u8>>,
    pub acc: UnitAcc,
    pub recs: Seq<RecordS>,
}

pub open spec fn finit() -> FState {
    FState { cur: None, author: None, tsraw: None, acc: acc_init(None), recs: Seq::empty() }
}

/// One event of the document, folded into the machine. A `tu` open tag
/// begins a capture and reads the unit's attributes; a self-closing `tu`
/// is silently dropped; a `tu` close tag finishes the capture and
/// insert-or-replaces the record; every event inside a unit is captured
/// verbatim and folded into the accumulation; everything outside units is
/// ignored.
pub open spec fn fstep(st: FState, ev: EventS, o: FilterOptions) -> FState {
    if is_open_named(ev, tu()) {
        FState {
            cur: Some(seq![ev]),
            author: attr_lookup(content_of(ev), creationid()),
            tsraw: attr_lookup(content_of(ev), creationdate()),
            acc: acc_init(st.acc.lang),
            recs: st.recs,
        }
    } else if is_empty_named(ev, tu()) {
        st
    } else if is_close_named(ev, tu()) {
        match st.cur {
            Some(cap) => FState {
                cur: None,
                author: None,
                tsraw: None,
                acc: acc_init(st.acc.lang),
                recs: upsert(
                    st.recs,
                    RecordS {
                        key: key_of(
                            st.acc.src_toks,
                            st.author,
                            st.acc.doc_val,
                            st.acc.ctx_val,
                            st.acc.tgt_toks,
                            o,
                        ),
                        ts: ts_of(st.tsraw),
                        capture: cap.push(ev),
                    },
                ),
            },
            None => st,
        }
    } else {
        match st.cur {
            Some(cap) => FState {
                cur: Some(cap.push(ev)),
                author: st.author,
                tsraw: st.tsraw,
                acc: unit_step(st.acc, ev),
                recs: st.recs,
            },
            None => st,
        }
    }
}

/// The machine's state after the first `i` events of `evs`, started from
/// `st`.
pub open spec fn frun_from(st: FState, evs: Seq<EventS>, i: int, o: FilterOptions) -> FState
    decreases i,
{
    if i <= 0 {
        st
    } else {
        fstep(frun_from(st, evs, i - 1, o), evs[i - 1], o)
    }
}

/// The machine's state after the first `i` events.
pub open spec fn frun(evs: Seq<EventS>, i: int, o: FilterOptions) -> FState {
    frun_from(finit(), evs, i, o)
}

/// Stable insertion by ascending timestamp: the newcomer goes after every
/// record whose timestamp is not greater.
pub open spec fn insert_by_ts(r: RecordS, s: Seq<RecordS>) -> Seq<RecordS>
    decreases s.len(),
{
    if s.len() == 0 {
        seq![r]
    } else if s[0].ts <= r.ts {
        seq![s[0]] + insert_by_ts(r, s.drop_first())
    } else {
        seq![r] + s
    }
}

/// Stable sort by ascending timestamp.
pub open spec fn sort_by_ts(s: Seq<RecordS>) -> Seq<RecordS>
    decreases s.len(),
{
    if s.len() == 0 {
        Seq::empty()
    } else {
        insert_by_ts(s.last(), sort_by_ts(s.drop_last()))
    }
}

/// The emitted form of the retained records: each capture verbatim, its
/// opening tag preceded by a single newline text event.
pub open spec fn emit_records(recs: Seq<RecordS>) -> Seq<EventS>
    decreases recs.len(),
{
    if recs.len() == 0 {
        Seq::empty()
    } else {
        seq![EventS::Text(newline())] + recs[0].capture + emit_records(recs.drop_first())
    }
}

/// The whole output of the dedup filter on one document.
pub open spec fn filter_spec(evs: Seq<EventS>, o: FilterOptions) -> Seq<EventS> {
    emit_records(sort_by_ts(frun(evs, evs.len() as int, o).recs)).push(
        EventS::Text(footer()),
    )
}

/// A prefix free of the key leaves insert-or-replace to the rest.
proof fn lemma_upsert_prefix(s: Seq<RecordS>, r: RecordS, i: int)
    requires
        0 <= i <= s.len(),
        forall|j: int| 0 <= j < i ==> (#[trigger] s[j].key) != r.key,
    ensures
        upsert(s, r) == s.take(i) + upsert(s.skip(i), r),
    decreases i,
{
    if i == 0 {
        assert(s.skip(0) =~= s);
        assert(s.take(0) + upsert(s.skip(0), r) =~= upsert(s, r));
    } else {
        lemma_upsert_prefix(s.drop_first(), r, i - 1);
        assert(s.len() > 0);
        assert(s[0].key != r.key);
        assert(upsert(s, r) == seq![s[0]] + upsert(s.drop_first(), r));
        assert(s.drop_first().take(i - 1) =~= s.subrange(1, i));
        assert(s.drop_first().skip(i - 1) =~= s.skip(i));
        assert(seq![s[0]] + (s.subrange(1, i) + upsert(s.skip(i), r)) =~= s.take(i) + upsert(
            s.skip(i),
            r,
        ));
    }
}

/// Insert-or-replaces a record in the retained list.
fn upsert_exec(recs: &mut Vec<Record>, r: Record)
    ensures
        final(recs).deep_view() == upsert(old(recs).deep_view(), r@),
{
    let ghost dv = recs.deep_view();
    let n = recs.len();
    let mut i: usize = 0;
    let mut found = false;
    while i < n && !found
        invariant
            0 <= i <= n,
            n == recs@.len(),
            recs.deep_view() == dv,
            dv.len() == n,
            forall|j: int| 0 <= j < n ==> dv[j] == #[trigger] recs@[j]@,
            forall|j: int| 0 <= j < i ==> (#[trigger] dv[j].key) != r@.key,
            found ==> i < n && dv[i as int].key == r@.key,
        decreases n - i + if found {
            0int
        } else {
            1int
        },
    {
        proof {
            assert(dv[i as int] == recs@[i as int]@);
        }
        if key_eq(&recs[i].key, &r.key) {
            found = true;
        } else {
            i = i + 1;
        }
    }
    proof {
        lemma_upsert_prefix(dv, r@, i as int);
    }
    if found {
        proof {
            assert(dv.skip(i as int)[0] == dv[i as int]);
            assert(dv.skip(i as int)[0].key == r@.key);
            assert(dv.skip(i as int).drop_first() =~= dv.skip(i as int + 1));
            assert(dv[i as int] == recs@[i as int]@);
        }
        if r.ts > recs[i].ts {
            let ghost rv = r@;
            recs.remove(i);
            recs.insert(i, r);
            proof {
                assert(upsert(dv.skip(i as int), rv) == seq![rv] + dv.skip(i as int + 1));
                assert(recs.deep_view() =~= dv.take(i as int) + (seq![rv] + dv.skip(
                    i as int + 1,
                )));
            }
        } else {
            proof {
                assert(upsert(dv.skip(i as int), r@) == dv.skip(i as int));
                assert(dv.take(i as int) + dv.skip(i as int) =~= dv);
            }
        }
    } else {
        proof {
            assert(i == n);
            assert(dv.skip(n as int) =~= Seq::<RecordS>::empty());
            assert(upsert(dv.skip(n as int), r@) == seq![r@]);
            assert(dv.take(n as int) =~= dv);
        }
        let ghost rv = r@;
        recs.push(r);
        proof {
            assert(recs.deep_view() =~= dv + seq![rv]);
            assert(dv.take(n as int) + seq![rv] =~= dv + seq![rv]);
        }
    }
}

/// Where the newcomer lands: after every record with a timestamp not
/// greater than its own.
proof fn lemma_insert_at(s: Seq<RecordS>, r: RecordS, j: int)
    requires
        0 <= j <= s.len(),
        forall|q: int| 0 <= q < j ==> #[trigger] s[q].ts <= r.ts,
        j < s.len() ==> s[j].ts > r.ts,
    ensures
        insert_by_ts(r, s) == s.take(j) + seq![r] + s.skip(j),
    decreases s.len(),
{
    if s.len() == 0 {
        assert(insert_by_ts(r, s) =~= s.take(j) + seq![r] + s.skip(j));
    } else if j == 0 {
        assert(s[0].ts > r.ts);
        assert(insert_by_ts(r, s) =~= s.take(0) + seq![r] + s.skip(0));
    } else {
        assert(s[0].ts <= r.ts);
        lemma_insert_at(s.drop_first(), r, j - 1);
        assert(s.drop_first().take(j - 1) =~= s.subrange(1, j));
        assert(s.drop_first().skip(j - 1) =~= s.skip(j));
        assert(seq![s[0]] + (s.subrange(1, j) + seq![r] + s.skip(j)) =~= s.take(j) + seq![r]
            + s.skip(j));
    }
}

/// Sorts the retained records by ascending timestamp, stably.
fn sort_records(recs: Vec<Record>) -> (out: Vec<Record>)
    ensures
        out.deep_view() == sort_by_ts(recs.deep_view()),
{
    let ghost dv = recs.deep_view();
    let mut rest = recs;
    let mut out: Vec<Record> = Vec::new();
    let ghost k: int = 0;
    while rest.len() > 0
        invariant
            0 <= k <= dv.len(),
            rest.deep_view() =~= dv.skip(k),
            out.deep_view() == sort_by_ts(dv.take(k)),
        decreases rest@.len(),
    {
        proof {
            assert(dv.skip(k).len() > 0);
            assert(k < dv.len());
        }
        let ghost rdv0 = rest.deep_view();
        let r = rest.remove(0);
        proof {
            assert(r@ == rdv0[0]);
            assert(rdv0[0] == dv.skip(k)[0]);
            assert(dv.skip(k)[0] == dv[k]);
            assert forall|z: int| 0 <= z < rest.deep_view().len() implies rest.deep_view()[z]
                == rdv0[z + 1] by {
                assert(rest.deep_view()[z] == rest@[z]@);
                assert(rdv0[z + 1] == rest@[z]@);
            }
            assert(rest.deep_view() =~= dv.skip(k + 1));
        }
        let ghost sorted0 = out.deep_view();
        // find the first position whose timestamp is greater
        let m = out.len();
        let mut j: usize = 0;
        let mut found = false;
        while j < m && !found
            invariant
                0 <= j <= m,
                m == out@.len(),
                out.deep_view() == sorted0,
                sorted0.len() == m,
                forall|q: int| 0 <= q < m ==> sorted0[q] == #[trigger] out@[q]@,
                forall|q: int| 0 <= q < j ==> #[trigger] sorted0[q].ts <= r@.ts,
                found ==> j < m && sorted0[j as int].ts > r@.ts,
            decreases m - j + if found { 0int } else { 1int },
        {
            if out[j].ts > r.ts {
                found = true;
            } else {
                j = j + 1;
            }
        }
        proof {
            assert(j < m ==> sorted0[j as int].ts > r@.ts);
            lemma_insert_at(sorted0, r@, j as int);
        }
        out.insert(j, r);
        proof {
            assert(out.deep_view() =~= sorted0.take(j as int) + seq![r@] + sorted0.skip(j as int));
            assert(dv.take(k + 1).drop_last() =~= dv.take(k));
            assert(dv.take(k + 1).last() == dv[k]);
            assert(sort_by_ts(dv.take(k + 1)) == insert_by_ts(dv[k], sort_by_ts(dv.take(k))));
        }
        proof {
            k = k + 1;
        }
    }
    proof {
        assert(dv.take(k) =~= dv);
    }
    out
}

/// Writes the retained records out, each behind a single newline.
fn emit_exec(recs: &Vec<Record>, out: &mut Vec<XmlEvent>)
    ensures
        final(out).deep_view() == old(out).deep_view() + emit_records(recs.deep_view()),
{
    let ghost dv = recs.deep_view();
    let ghost base = out.deep_view();
    proof {
        assert(dv.skip(0) =~= dv);
    }
    let n = recs.len();
    let mut i: usize = 0;
    while i < n
        invariant
            0 <= i <= n,
            n == recs@.len(),
            dv == recs.deep_view(),
            dv.len() == n,
            forall|j: int| 0 <= j < n ==> dv[j] == #[trigger] recs@[j]@,
            base + emit_records(dv) == out.deep_view() + emit_records(dv.skip(i as int)),
        decreases n - i,
    {
        proof {
            assert(dv[i as int] == recs@[i as int]@);
        }
        let ghost out0 = out.deep_view();
        let nl = newline_bytes();
        let mut nlv: Vec<u8> = Vec::new();
        nlv.push(nl[0]);
        assert(nlv@ =~= newline());
        out.push(XmlEvent::Text(nlv));
        let ghost out1 = out.deep_view();
        proof {
            assert(out1 =~= out0.push(EventS::Text(newline())));
        }
        let cap = &recs[i].capture;
        let cl = cap.len();
        let mut q: usize = 0;
        while q < cl
            invariant
                0 <= q <= cl,
                cl == cap@.len(),
                cap.deep_view().len() == cl,
                forall|z: int| 0 <= z < cl ==> cap.deep_view()[z] == #[trigger] cap@[z]@,
                out.deep_view() == out1 + cap.deep_view().take(q as int),
            decreases cl - q,
        {
            push_ev(out, &cap[q]);
            proof {
                assert(out.deep_view() =~= out1 + cap.deep_view().take(q as int + 1));
            }
            q = q + 1;
        }
        proof {
            assert(cap.deep_view().take(cl as int) =~= cap.deep_view());
            assert(dv.skip(i as int)[0] == dv[i as int]);
            assert(dv.skip(i as int).drop_first() =~= dv.skip(i as int + 1));
            assert(dv[i as int].capture == cap.deep_view());
            assert(emit_records(dv.skip(i as int)) == seq![EventS::Text(newline())]
                + dv[i as int].capture + emit_records(dv.skip(i as int + 1)));
            assert(out0 + (seq![EventS::Text(newline())] + dv[i as int].capture + emit_records(
                dv.skip(i as int + 1),
            )) =~= (out0.push(EventS::Text(newline())) + cap.deep_view()) + emit_records(
                dv.skip(i as int + 1),
            ));
        }
        i = i + 1;
    }
    proof {
        assert(dv.skip(n as int) =~= Seq::<RecordS>::empty());
        assert(emit_records(dv.skip(n as int)) =~= Seq::<EventS>::empty());
        assert(out.deep_view() + Seq::<EventS>::empty() =~= out.deep_view());
        assert(base + emit_records(dv) =~= out.deep_view());
    }
}

/// Two colliding units collapse to a single record: the one with the
/// strictly later timestamp survives; on a tie or an older newcomer the
/// first capture stays.
pub proof fn lemma_collision_keeps_later(a: RecordS, b: RecordS)
    requires
        a.key == b.key,
    ensures
        b.ts > a.ts ==> upsert(upsert(Seq::empty(), a), b) == seq![b],
        !(b.ts > a.ts) ==> upsert(upsert(Seq::empty(), a), b) == seq![a],
{
    assert(upsert(Seq::empty(), a) == seq![a]);
    assert(seq![a][0] == a);
    if b.ts > a.ts {
        assert(seq![a].drop_first() =~= Seq::<RecordS>::empty());
        assert(seq![b] + Seq::<RecordS>::empty() =~= seq![b]);
    }
}

/// Two units with different keys are both retained, in capture order.
pub proof fn lemma_distinct_keys_kept(a: RecordS, b: RecordS)
    requires
        a.key != b.key,
    ensures
        upsert(upsert(Seq::empty(), a), b) == seq![a, b],
{
    assert(upsert(Seq::empty(), a) == seq![a]);
    assert(seq![a][0] == a);
    assert(seq![a].drop_first() =~= Seq::<RecordS>::empty());
    assert(upsert(seq![a].drop_first(), b) == seq![b]);
    assert(seq![a] + seq![b] =~= seq![a, b]);
}

/// Whether the records stand in non-decreasing timestamp order.
pub open spec fn sorted_by_ts(s: Seq<RecordS>) -> bool {
    forall|i: int, j: int| 0 <= i < j < s.len() ==> s[i].ts <= s[j].ts
}

proof fn lemma_insert_keeps_sorted(r: RecordS, s: Seq<RecordS>)
    requires
        sorted_by_ts(s),
    ensures
        sorted_by_ts(insert_by_ts(r, s)),
        insert_by_ts(r, s).to_multiset() == s.push(r).to_multiset(),
    decreases s.len(),
{
    broadcast use vstd::seq_lib::group_seq_properties;

    if s.len() == 0 {
        assert(sorted_by_ts(seq![r]));
        assert(seq![r] =~= Seq::<RecordS>::empty().push(r));
    } else if s[0].ts <= r.ts {
        assert(sorted_by_ts(s.drop_first()));
        lemma_insert_keeps_sorted(r, s.drop_first());
        let t = insert_by_ts(r, s.drop_first());
        assert forall|i: int, j: int|
            0 <= i < j < (seq![s[0]] + t).len() implies (seq![s[0]] + t)[i].ts <= (seq![s[0]]
            + t)[j].ts by {
            if i > 0 {
                assert((seq![s[0]] + t)[i] == t[i - 1]);
                assert((seq![s[0]] + t)[j] == t[j - 1]);
            } else {
                assert((seq![s[0]] + t)[j] == t[j - 1]);
                assert(t.to_multiset() == s.drop_first().push(r).to_multiset());
                assert(t.to_multiset().contains(t[j - 1]));
                assert(s.drop_first().push(r).to_multiset().contains(t[j - 1]));
                assert(s.drop_first().push(r).contains(t[j - 1]));
                let w = choose|w: int|
                    0 <= w < s.drop_first().push(r).len() && s.drop_first().push(r)[w] == t[j - 1];
                if w < s.drop_first().len() {
                    assert(s.drop_first()[w] == s[w + 1]);
                    assert(s[0].ts <= s[w + 1].ts);
                } else {
                    assert(s.drop_first().push(r)[w] == r);
                }
            }
        }
        assert(seq![s[0]] + s.drop_first() =~= s);
        assert((seq![s[0]] + s.drop_first()).push(r) =~= seq![s[0]] + s.drop_first().push(r));
        assert((seq![s[0]] + t).to_multiset() == s.push(r).to_multiset()) by {
            assert(s.push(r) =~= seq![s[0]] + s.drop_first().push(r));
            vstd::seq_lib::lemma_multiset_commutative(seq![s[0]], t);
            vstd::seq_lib::lemma_multiset_commutative(seq![s[0]], s.drop_first().push(r));
        }
    } else {
        assert forall|i: int, j: int|
            0 <= i < j < (seq![r] + s).len() implies (seq![r] + s)[i].ts <= (seq![r] + s)[j].ts by {
            if i > 0 {
                assert((seq![r] + s)[i] == s[i - 1]);
                assert((seq![r] + s)[j] == s[j - 1]);
            } else {
                assert((seq![r] + s)[j] == s[j - 1]);
                assert(r.ts < s[0].ts);
                if j - 1 > 0 {
                    assert(s[0].ts <= s[j - 1].ts);
                }
            }
        }
        assert((seq![r] + s).to_multiset() == s.push(r).to_multiset()) by {
            vstd::seq_lib::lemma_multiset_commutative(seq![r], s);
            assert(s.push(r) =~= s + seq![r]);
            vstd::seq_lib::lemma_multiset_commutative(s, seq![r]);
        }
    }
}

/// The sorted records are in non-decreasing timestamp order and hold
/// exactly the retained records.
pub proof fn lemma_sort_sorted(s: Seq<RecordS>)
    ensures
        sorted_by_ts(sort_by_ts(s)),
        sort_by_ts(s).to_multiset() == s.to_multiset(),
    decreases s.len(),
{
    broadcast use vstd::seq_lib::group_seq_properties;

    if s.len() == 0 {
    } else {
        lemma_sort_sorted(s.drop_last());
        lemma_insert_keeps_sorted(s.last(), sort_by_ts(s.drop_last()));
        assert(sort_by_ts(s.drop_last()).push(s.last()).to_multiset() == s.drop_last().push(
            s.last(),
        ).to_multiset()) by {
            vstd::seq_lib::lemma_multiset_commutative(sort_by_ts(s.drop_last()), seq![s.last()]);
            vstd::seq_lib::lemma_multiset_commutative(s.drop_last(), seq![s.last()]);
            assert(sort_by_ts(s.drop_last()).push(s.last()) =~= sort_by_ts(s.drop_last()) + seq![
                s.last(),
            ]);
            assert(s.drop_last().push(s.last()) =~= s.drop_last() + seq![s.last()]);
        }
        assert(s.drop_last().push(s.last()) =~= s);
    }
}

/// Sorting a list already in non-decreasing timestamp order changes
/// nothing: re-filtering output that is already sorted re-emits it as it
/// stands.
pub proof fn lemma_sort_of_sorted_id(s: Seq<RecordS>)
    requires
        sorted_by_ts(s),
    ensures
        sort_by_ts(s) == s,
    decreases s.len(),
{
    if s.len() == 0 {
    } else {
        assert(sorted_by_ts(s.drop_last()));
        lemma_sort_of_sorted_id(s.drop_last());
        assert forall|q: int| 0 <= q < s.drop_last().len() implies #[trigger] s.drop_last()[q].ts
            <= s.last().ts by {
            assert(s.drop_last()[q] == s[q]);
        }
        lemma_insert_at(s.drop_last(), s.last(), s.drop_last().len() as int);
        assert(s.drop_last().take(s.drop_last().len() as int) =~= s.drop_last());
        assert(s.drop_last().skip(s.drop_last().len() as int) =~= Seq::<RecordS>::empty());
        assert(s.drop_last() + seq![s.last()] + Seq::<RecordS>::empty() =~= s);
    }
}

/// The machine reads only the events before `i`.
proof fn lemma_frun_from_prefix(
    st: FState,
    a: Seq<EventS>,
    b: Seq<EventS>,
    i: int,
    o: FilterOptions,
)
    requires
        0 <= i <= a.len(),
        i <= b.len(),
        a.take(i) == b.take(i),
    ensures
        frun_from(st, a, i, o) == frun_from(st, b, i, o),
    decreases i,
{
    if i > 0 {
        assert(a.take(i - 1) =~= a.take(i).take(i - 1));
        assert(b.take(i - 1) =~= b.take(i).take(i - 1));
        lemma_frun_from_prefix(st, a, b, i - 1, o);
        assert(a[i - 1] == a.take(i)[i - 1]);
        assert(b[i - 1] == b.take(i)[i - 1]);
    }
}

/// Running over a concatenation runs over each part in turn.
proof fn lemma_frun_from_append(
    st: FState,
    a: Seq<EventS>,
    b: Seq<EventS>,
    j: int,
    o: FilterOptions,
)
    requires
        0 <= j <= b.len(),
    ensures
        frun_from(st, a + b, a.len() + j, o) == frun_from(
            frun_from(st, a, a.len() as int, o),
            b,
            j,
            o,
        ),
    decreases j,
{
    if j == 0 {
        assert((a + b).take(a.len() as int) =~= a.take(a.len() as int));
        lemma_frun_from_prefix(st, a + b, a, a.len() as int, o);
    } else {
        lemma_frun_from_append(st, a, b, j - 1, o);
        assert((a + b)[a.len() + j - 1] == b[j - 1]);
    }
}

/// A text event outside any capture leaves the machine unchanged.
proof fn lemma_fstep_text_outside(st: FState, c: Seq<u8>, o: FilterOptions)
    requires
        st.cur is None,
    ensures
        fstep(st, EventS::Text(c), o) == st,
{
}

/// A clean unit capture: a `tu` open tag, interior events free of unit
/// boundaries, and the closing `tu` tag.
pub open spec fn clean_capture(cap: Seq<EventS>) -> bool {
    &&& cap.len() >= 2
    &&& is_open_named(cap[0], tu())
    &&& is_close_named(cap.last(), tu())
    &&& forall|q: int| 0 < q < cap.len() - 1 ==> !crate::trim::is_tu_event(#[trigger] cap[q])
}

/// The accumulation after the first `i` interior events.
pub open spec fn acc_fold(evs: Seq<EventS>, i: int, a0: UnitAcc) -> UnitAcc
    decreases i,
{
    if i <= 0 {
        a0
    } else {
        unit_step(acc_fold(evs, i - 1, a0), evs[i - 1])
    }
}

/// The record that re-reading a clean capture derives, under the source
/// language in force when its open tag is read.
pub open spec fn replay_record(
    cap: Seq<EventS>,
    lang: Option<Option<Seq<u8>>>,
    o: FilterOptions,
) -> RecordS {
    let interior = cap.subrange(1, cap.len() - 1);
    let a = acc_fold(interior, interior.len() as int, acc_init(lang));
    RecordS {
        key: key_of(
            a.src_toks,
            attr_lookup(content_of(cap[0]), creationid()),
            a.doc_val,
            a.ctx_val,
            a.tgt_toks,
            o,
        ),
        ts: ts_of(attr_lookup(content_of(cap[0]), creationdate())),
        capture: cap,
    }
}

/// The source language in force after re-reading the capture.
pub open spec fn replay_lang_after(
    cap: Seq<EventS>,
    lang: Option<Option<Seq<u8>>>,
) -> Option<Option<Seq<u8>>> {
    let interior = cap.subrange(1, cap.len() - 1);
    acc_fold(interior, interior.len() as int, acc_init(lang)).lang
}

proof fn lemma_unit_replay_partial(st: FState, cap: Seq<EventS>, j: int, o: FilterOptions)
    requires
        st.cur is None,
        clean_capture(cap),
        1 <= j <= cap.len() - 1,
    ensures
        frun_from(st, cap, j, o) == (FState {
            cur: Some(cap.take(j)),
            author: attr_lookup(content_of(cap[0]), creationid()),
            tsraw: attr_lookup(content_of(cap[0]), creationdate()),
            acc: acc_fold(cap.subrange(1, cap.len() - 1), j - 1, acc_init(st.acc.lang)),
            recs: st.recs,
        }),
    decreases j,
{
    if j == 1 {
        assert(cap.take(1) =~= seq![cap[0]]);
    } else {
        lemma_unit_replay_partial(st, cap, j - 1, o);
        let ev = cap[j - 1];
        assert(!crate::trim::is_tu_event(ev));
        assert(cap.take(j) =~= cap.take(j - 1).push(ev));
        assert(cap.subrange(1, cap.len() - 1)[j - 2] == ev);
    }
}

/// Re-reading one clean capture from an idle machine retains exactly its
/// replayed record, and moves the language along.
pub proof fn lemma_unit_replay(st: FState, cap: Seq<EventS>, o: FilterOptions)
    requires
        st.cur is None,
        clean_capture(cap),
    ensures
        frun_from(st, cap, cap.len() as int, o) == (FState {
            cur: None,
            author: None,
            tsraw: None,
            acc: acc_init(replay_lang_after(cap, st.acc.lang)),
            recs: upsert(st.recs, replay_record(cap, st.acc.lang, o)),
        }),
{
    lemma_unit_replay_partial(st, cap, cap.len() - 1, o);
    let ev = cap.last();
    assert(cap.take(cap.len() - 1).push(ev) =~= cap);
    assert(cap.subrange(1, cap.len() - 1).len() == cap.len() - 2);
}

/// Whether some record carries this key.
pub open spec fn has_key(s: Seq<RecordS>, k: DedupKeyS) -> bool {
    exists|i: int| 0 <= i < s.len() && s[i].key == k
}

/// A record with a fresh key is appended.
proof fn lemma_upsert_new_key(s: Seq<RecordS>, r: RecordS)
    requires
        !has_key(s, r.key),
    ensures
        upsert(s, r) == s.push(r),
    decreases s.len(),
{
    if s.len() == 0 {
        assert(seq![r] =~= s.push(r));
    } else {
        assert(s[0].key != r.key);
        assert(!has_key(s.drop_first(), r.key)) by {
            if has_key(s.drop_first(), r.key) {
                let i = choose|i: int|
                    0 <= i < s.drop_first().len() && s.drop_first()[i].key == r.key;
                assert(s[i + 1].key == r.key);
            }
        }
        lemma_upsert_new_key(s.drop_first(), r);
        assert(seq![s[0]] + s.drop_first().push(r) =~= s.push(r));
    }
}

/// Appending a record to the emission appends its newline and capture.
proof fn lemma_emit_records_push(recs: Seq<RecordS>, r: RecordS)
    ensures
        emit_records(recs.push(r)) == emit_records(recs) + (seq![EventS::Text(newline())]
            + r.capture),
    decreases recs.len(),
{
    if recs.len() == 0 {
        assert(recs.push(r).drop_first() =~= Seq::<RecordS>::empty());
        assert(recs.push(r)[0] == r);
        assert(emit_records(Seq::<RecordS>::empty()) =~= Seq::<EventS>::empty());
        assert(emit_records(recs.push(r)) =~= emit_records(recs) + (seq![
            EventS::Text(newline()),
        ] + r.capture));
    } else {
        assert(recs.push(r).drop_first() =~= recs.drop_first().push(r));
        assert(recs.push(r)[0] == recs[0]);
        lemma_emit_records_push(recs.drop_first(), r);
        assert(emit_records(recs.push(r)) =~= emit_records(recs) + (seq![
            EventS::Text(newline()),
        ] + r.capture));
    }
}

/// The source language in force when the `i`-th emitted unit is re-read.
pub open spec fn replay_lang(recs: Seq<RecordS>, i: int) -> Option<Option<Seq<u8>>>
    decreases i,
{
    if i <= 0 {
        None
    } else {
        replay_lang_after(recs[i - 1].capture, replay_lang(recs, i - 1))
    }
}

/// Whether each emitted capture, re-read in its new position, derives
/// again the key and timestamp it was retained under.
pub open spec fn replay_consistent(recs: Seq<RecordS>, o: FilterOptions) -> bool {
    forall|i: int|
        0 <= i < recs.len() ==> #[trigger] replay_record(recs[i].capture, replay_lang(recs, i), o)
            == recs[i]
}

/// Whether the retained keys are pairwise distinct.
pub open spec fn distinct_keys(recs: Seq<RecordS>) -> bool {
    forall|i: int, j: int| 0 <= i < j < recs.len() ==> recs[i].key != recs[j].key
}

#[verifier::rlimit(100)]
#[verifier::spinoff_prover]
proof fn lemma_emission_replay(recs: Seq<RecordS>, i: int, o: FilterOptions)
    requires
        0 <= i <= recs.len(),
        forall|q: int| 0 <= q < recs.len() ==> clean_capture(#[trigger] recs[q].capture),
        distinct_keys(recs),
        replay_consistent(recs, o),
    ensures
        frun_from(
            finit(),
            emit_records(recs.take(i)),
            emit_records(recs.take(i)).len() as int,
            o,
        ) == (FState {
            cur: None,
            author: None,
            tsraw: None,
            acc: acc_init(replay_lang(recs, i)),
            recs: recs.take(i),
        }),
    decreases i,
{
    if i == 0 {
        assert(recs.take(0) =~= Seq::<RecordS>::empty());
        assert(finit() == (FState {
            cur: None,
            author: None,
            tsraw: None,
            acc: acc_init(replay_lang(recs, 0)),
            recs: recs.take(0),
        }));
    } else {
        lemma_emission_replay(recs, i - 1, o);
        let r = recs[i - 1];
        let prev = FState {
            cur: None,
            author: None,
            tsraw: None,
            acc: acc_init(replay_lang(recs, i - 1)),
            recs: recs.take(i - 1),
        };
        let a = emit_records(recs.take(i - 1));
        let b = seq![EventS::Text(newline())] + r.capture;
        assert(recs.take(i) =~= recs.take(i - 1).push(r));
        lemma_emit_records_push(recs.take(i - 1), r);
        assert(emit_records(recs.take(i)) == a + b);
        lemma_frun_from_append(finit(), a, b, b.len() as int, o);
        assert(frun_from(finit(), a + b, (a + b).len() as int, o) == frun_from(
            prev,
            b,
            b.len() as int,
            o,
        ));
        // the newline first, then the capture
        let nl = seq![EventS::Text(newline())];
        lemma_frun_from_append(prev, nl, r.capture, r.capture.len() as int, o);
        assert(nl + r.capture =~= b);
        assert(nl[0] == EventS::Text(newline()));
        assert(frun_from(prev, nl, 0, o) == prev);
        assert(frun_from(prev, nl, 1, o) == fstep(prev, nl[0], o));
        lemma_fstep_text_outside(prev, newline(), o);
        let after_nl = frun_from(prev, nl, 1, o);
        assert(after_nl == prev);
        assert(clean_capture(r.capture));
        lemma_unit_replay(prev, r.capture, o);
        assert(replay_record(r.capture, replay_lang(recs, i - 1), o) == r);
        assert(!has_key(recs.take(i - 1), r.key)) by {
            if has_key(recs.take(i - 1), r.key) {
                let q = choose|q: int|
                    0 <= q < recs.take(i - 1).len() && (#[trigger] recs.take(i - 1)[q]).key
                        == r.key;
                assert(recs[q].key == recs[i - 1].key);
            }
        }
        lemma_upsert_new_key(recs.take(i - 1), r);
        assert(recs.take(i - 1).push(r) =~= recs.take(i));
        assert(replay_lang(recs, i) == replay_lang_after(r.capture, replay_lang(recs, i - 1)));
    }
}

/// Filtering what the filter emitted re-emits it unchanged: the captures
/// are clean and re-captured verbatim, the keys stay pairwise distinct, so
/// nothing collapses further; the timestamps already stand in ascending
/// order, so the stable sort keeps the emission order. The hypothesis of
/// substance is `replay_consistent`: each capture, re-read under the
/// source language in force at its new position, derives the key and
/// timestamp it was retained under. A document whose units disagree about
/// their first variant's language can violate it, since sorting may change
/// which unit fixes the source language.
#[verifier::rlimit(100)]
#[verifier::spinoff_prover]
pub proof fn lemma_filter_idempotent(recs: Seq<RecordS>, o: FilterOptions)
    requires
        forall|q: int| 0 <= q < recs.len() ==> clean_capture(#[trigger] recs[q].capture),
        distinct_keys(recs),
        sorted_by_ts(recs),
        replay_consistent(recs, o),
    ensures
        filter_spec(emit_records(recs).push(EventS::Text(footer())), o) == emit_records(
            recs,
        ).push(EventS::Text(footer())),
{
    let emission = emit_records(recs).push(EventS::Text(footer()));
    lemma_emission_replay(recs, recs.len() as int, o);
    assert(recs.take(recs.len() as int) =~= recs);
    let a = emit_records(recs);
    let b = seq![EventS::Text(footer())];
    assert(emission =~= a + b);
    lemma_frun_from_append(finit(), a, b, 1, o);
    let mid = frun_from(finit(), a, a.len() as int, o);
    assert(mid == (FState {
        cur: None,
        author: None,
        tsraw: None,
        acc: acc_init(replay_lang(recs, recs.len() as int)),
        recs: recs,
    }));
    assert(b[0] == EventS::Text(footer()));
    assert(frun_from(mid, b, 0, o) == mid);
    assert(frun_from(mid, b, 1, o) == fstep(mid, b[0], o));
    lemma_fstep_text_outside(mid, footer(), o);
    assert(emission.len() == a.len() + 1);
    assert(frun_from(finit(), emission, emission.len() as int, o) == frun_from(
        finit(),
        a + b,
        a.len() as int + 1,
        o,
    ));
    assert(frun(emission, emission.len() as int, o).recs == recs);
    lemma_sort_of_sorted_id(recs);
}

/// The keys after insert-or-replace are the old keys plus the newcomer's.
proof fn lemma_upsert_key_set(s: Seq<RecordS>, r: RecordS, k: DedupKeyS)
    ensures
        has_key(upsert(s, r), k) <==> (has_key(s, k) || r.key == k),
    decreases s.len(),
{
    if s.len() == 0 {
        assert(upsert(s, r) == seq![r]);
        assert(r.key == k ==> upsert(s, r)[0].key == k);
        if has_key(upsert(s, r), k) {
            let q = choose|q: int| 0 <= q < upsert(s, r).len() && upsert(s, r)[q].key == k;
            assert(upsert(s, r)[q] == r);
        }
    } else if s[0].key == r.key {
        if r.ts > s[0].ts {
            let u = seq![r] + s.drop_first();
            assert(upsert(s, r) == u);
            if has_key(u, k) {
                let q = choose|q: int| 0 <= q < u.len() && u[q].key == k;
                if q == 0 {
                } else {
                    assert(u[q] == s.drop_first()[q - 1]);
                    assert(s[q].key == k);
                }
            }
            if has_key(s, k) {
                let q = choose|q: int| 0 <= q < s.len() && s[q].key == k;
                if q == 0 {
                    assert(u[0].key == k);
                } else {
                    assert(u[q] == s.drop_first()[q - 1]);
                    assert(u[q].key == k);
                }
            }
            if r.key == k {
                assert(u[0].key == k);
            }
        }
    } else {
        lemma_upsert_key_set(s.drop_first(), r, k);
        let u = seq![s[0]] + upsert(s.drop_first(), r);
        assert(upsert(s, r) == u);
        if has_key(u, k) {
            let q = choose|q: int| 0 <= q < u.len() && u[q].key == k;
            if q == 0 {
                assert(s[0].key == k);
            } else {
                assert(u[q] == upsert(s.drop_first(), r)[q - 1]);
                assert(has_key(upsert(s.drop_first(), r), k));
                if has_key(s.drop_first(), k) {
                    let p = choose|p: int|
                        0 <= p < s.drop_first().len() && s.drop_first()[p].key == k;
                    assert(s[p + 1].key == k);
                }
            }
        }
        if has_key(s, k) {
            let q = choose|q: int| 0 <= q < s.len() && s[q].key == k;
            if q == 0 {
                assert(u[0].key == k);
            } else {
                assert(s.drop_first()[q - 1].key == k);
                assert(has_key(s.drop_first(), k));
                assert(has_key(upsert(s.drop_first(), r), k));
                let p = choose|p: int|
                    0 <= p < upsert(s.drop_first(), r).len() && upsert(s.drop_first(), r)[p].key
                        == k;
                assert(u[p + 1].key == k);
            }
        }
        if r.key == k {
            assert(has_key(upsert(s.drop_first(), r), k));
            let p = choose|p: int|
                0 <= p < upsert(s.drop_first(), r).len() && upsert(s.drop_first(), r)[p].key == k;
            assert(u[p + 1].key == k);
        }
    }
}

/// Keys stay pairwise distinct through insert-or-replace.
proof fn lemma_upsert_distinct(s: Seq<RecordS>, r: RecordS)
    requires
        distinct_keys(s),
    ensures
        distinct_keys(upsert(s, r)),
    decreases s.len(),
{
    if s.len() == 0 {
    } else if s[0].key == r.key {
        if r.ts > s[0].ts {
            let u = seq![r] + s.drop_first();
            assert forall|i: int, j: int| 0 <= i < j < u.len() implies u[i].key != u[j].key by {
                if i == 0 {
                    assert(u[j] == s.drop_first()[j - 1]);
                    assert(s[0].key != s[j].key);
                } else {
                    assert(u[i] == s.drop_first()[i - 1]);
                    assert(u[j] == s.drop_first()[j - 1]);
                    assert(s[i].key != s[j].key);
                }
            }
        }
    } else {
        assert(distinct_keys(s.drop_first())) by {
            assert forall|i: int, j: int|
                0 <= i < j < s.drop_first().len() implies s.drop_first()[i].key
                != s.drop_first()[j].key by {
                assert(s.drop_first()[i] == s[i + 1]);
                assert(s.drop_first()[j] == s[j + 1]);
            }
        }
        lemma_upsert_distinct(s.drop_first(), r);
        assert(!has_key(s.drop_first(), s[0].key)) by {
            if has_key(s.drop_first(), s[0].key) {
                let p = choose|p: int|
                    0 <= p < s.drop_first().len() && s.drop_first()[p].key == s[0].key;
                assert(s[p + 1].key == s[0].key);
            }
        }
        lemma_upsert_key_set(s.drop_first(), r, s[0].key);
        let u = seq![s[0]] + upsert(s.drop_first(), r);
        assert forall|i: int, j: int| 0 <= i < j < u.len() implies u[i].key != u[j].key by {
            if i == 0 {
                assert(u[j] == upsert(s.drop_first(), r)[j - 1]);
                if u[j].key == s[0].key {
                    assert(has_key(upsert(s.drop_first(), r), s[0].key));
                }
            } else {
                assert(u[i] == upsert(s.drop_first(), r)[i - 1]);
                assert(u[j] == upsert(s.drop_first(), r)[j - 1]);
            }
        }
    }
}

/// Every record after insert-or-replace is the newcomer or was already
/// retained.
proof fn lemma_upsert_elems(s: Seq<RecordS>, r: RecordS)
    ensures
        forall|q: int|
            0 <= q < upsert(s, r).len() ==> (#[trigger] upsert(s, r)[q] == r || s.contains(
                upsert(s, r)[q],
            )),
    decreases s.len(),
{
    if s.len() == 0 {
    } else if s[0].key == r.key {
        if r.ts > s[0].ts {
            let u = seq![r] + s.drop_first();
            assert forall|q: int|
                0 <= q < u.len() implies (u[q] == r || s.contains(u[q])) by {
                if q > 0 {
                    assert(u[q] == s.drop_first()[q - 1]);
                    assert(u[q] == s[q]);
                }
            }
        } else {
            assert forall|q: int|
                0 <= q < s.len() implies (s[q] == r || s.contains(s[q])) by {}
        }
    } else {
        lemma_upsert_elems(s.drop_first(), r);
        let u = seq![s[0]] + upsert(s.drop_first(), r);
        assert forall|q: int| 0 <= q < u.len() implies (u[q] == r || s.contains(u[q])) by {
            if q == 0 {
                assert(s.contains(s[0]));
            } else {
                assert(u[q] == upsert(s.drop_first(), r)[q - 1]);
                if u[q] != r {
                    assert(s.drop_first().contains(u[q]));
                    let p = choose|p: int|
                        0 <= p < s.drop_first().len() && s.drop_first()[p] == u[q];
                    assert(s[p + 1] == u[q]);
                }
            }
        }
    }
}

/// A capture in progress: its open tag first, no unit boundary inside.
pub open spec fn cur_clean(st: FState) -> bool {
    match st.cur {
        Some(cap) => cap.len() >= 1 && is_open_named(cap[0], tu()) && forall|q: int|
            1 <= q < cap.len() ==> !crate::trim::is_tu_event(#[trigger] cap[q]),
        None => true,
    }
}

/// The machine only ever retains clean captures under pairwise distinct
/// keys.
pub proof fn lemma_frun_wf(evs: Seq<EventS>, i: int, o: FilterOptions)
    requires
        0 <= i <= evs.len(),
    ensures
        cur_clean(frun(evs, i, o)),
        distinct_keys(frun(evs, i, o).recs),
        forall|q: int|
            0 <= q < frun(evs, i, o).recs.len() ==> clean_capture(
                #[trigger] frun(evs, i, o).recs[q].capture,
            ),
    decreases i,
{
    if i > 0 {
        lemma_frun_wf(evs, i - 1, o);
        let st = frun(evs, i - 1, o);
        let ev = evs[i - 1];
        if is_open_named(ev, tu()) {
        } else if is_empty_named(ev, tu()) {
        } else if is_close_named(ev, tu()) {
            match st.cur {
                Some(cap) => {
                    let newcap = cap.push(ev);
                    assert(clean_capture(newcap)) by {
                        assert(newcap.last() == ev);
                        assert(is_open_named(newcap[0], tu()));
                        assert forall|q: int|
                            0 < q < newcap.len() - 1 implies !crate::trim::is_tu_event(
                            #[trigger] newcap[q],
                        ) by {
                            assert(newcap[q] == cap[q]);
                        }
                    }
                    let r = frun(evs, i, o).recs;
                    let added = RecordS {
                        key: key_of(
                            st.acc.src_toks,
                            st.author,
                            st.acc.doc_val,
                            st.acc.ctx_val,
                            st.acc.tgt_toks,
                            o,
                        ),
                        ts: ts_of(st.tsraw),
                        capture: newcap,
                    };
                    lemma_upsert_distinct(st.recs, added);
                    lemma_upsert_elems(st.recs, added);
                    assert forall|q: int| 0 <= q < r.len() implies clean_capture(
                        #[trigger] r[q].capture,
                    ) by {
                        if r[q] != added {
                            assert(st.recs.contains(r[q]));
                            let p = choose|p: int| 0 <= p < st.recs.len() && st.recs[p] == r[q];
                        }
                    }
                },
                None => {},
            }
        } else {
            match st.cur {
                Some(cap) => {
                    assert(cur_clean(frun(evs, i, o))) by {
                        let newcap = cap.push(ev);
                        assert(newcap[0] == cap[0]);
                        assert forall|q: int|
                            1 <= q < newcap.len() implies !crate::trim::is_tu_event(
                            #[trigger] newcap[q],
                        ) by {
                            if q < cap.len() {
                                assert(newcap[q] == cap[q]);
                            } else {
                                assert(newcap[q] == ev);
                            }
                        }
                    }
                },
                None => {},
            }
        }
    }
}

/// Sorting keeps every record, keeps the keys pairwise distinct, and keeps
/// every capture clean.
#[verifier::rlimit(60)]
#[verifier::spinoff_prover]
proof fn lemma_sorted_records_wf(s: Seq<RecordS>)
    requires
        distinct_keys(s),
        forall|q: int| 0 <= q < s.len() ==> clean_capture(#[trigger] s[q].capture),
    ensures
        distinct_keys(sort_by_ts(s)),
        forall|q: int|
            0 <= q < sort_by_ts(s).len() ==> clean_capture(#[trigger] sort_by_ts(s)[q].capture),
{
    broadcast use vstd::seq_lib::group_to_multiset_ensures;

    lemma_sort_sorted(s);
    let t = sort_by_ts(s);
    assert forall|q: int| 0 <= q < t.len() implies clean_capture(#[trigger] t[q].capture) by {
        assert(t.contains(t[q]));
        assert(t.to_multiset().count(t[q]) > 0);
        assert(s.to_multiset().count(t[q]) > 0);
        assert(s.contains(t[q]));
        let p = choose|p: int| 0 <= p < s.len() && s[p] == t[q];
    }
    assert(s.no_duplicates()) by {
        assert forall|i: int, j: int| 0 <= i < s.len() && 0 <= j < s.len() && i != j implies s[i]
            != s[j] by {
            if i < j {
                assert(s[i].key != s[j].key);
            } else {
                assert(s[j].key != s[i].key);
            }
        }
    }
    s.lemma_multiset_has_no_duplicates();
    assert(forall|x: RecordS| t.to_multiset().contains(x) ==> t.to_multiset().count(x) == 1);
    t.lemma_multiset_has_no_duplicates_conv();
    assert(t.no_duplicates());
    assert forall|i: int, j: int| 0 <= i < j < t.len() implies t[i].key != t[j].key by {
        assert(t[i] != t[j]);
        assert(t.contains(t[i]));
        assert(t.contains(t[j]));
        assert(t.to_multiset().count(t[i]) > 0);
        assert(t.to_multiset().count(t[j]) > 0);
        assert(s.to_multiset().count(t[i]) > 0);
        assert(s.to_multiset().count(t[j]) > 0);
        assert(s.contains(t[i]));
        assert(s.contains(t[j]));
        if t[i].key == t[j].key {
            let p = choose|p: int| 0 <= p < s.len() && s[p] == t[i];
            let q = choose|q: int| 0 <= q < s.len() && s[q] == t[j];
            assert(p != q);
            if p < q {
                assert(s[p].key != s[q].key);
            } else {
                assert(s[q].key != s[p].key);
            }
        }
    }
}

/// Filtering twice is filtering once, as long as each emitted capture,
/// re-read in its new position, derives the key and timestamp it was
/// retained under (`replay_consistent`): the machine retains only clean
/// captures under distinct keys, the emission is sorted, and re-filtering
/// such an emission reproduces it.
pub proof fn lemma_filter_spec_idempotent(evs: Seq<EventS>, o: FilterOptions)
    requires
        replay_consistent(sort_by_ts(frun(evs, evs.len() as int, o).recs), o),
    ensures
        filter_spec(filter_spec(evs, o), o) == filter_spec(evs, o),
{
    let recs = frun(evs, evs.len() as int, o).recs;
    let sorted = sort_by_ts(recs);
    lemma_frun_wf(evs, evs.len() as int, o);
    lemma_sorted_records_wf(recs);
    lemma_sort_sorted(recs);
    lemma_filter_idempotent(sorted, o);
}

/// The token a captured event contributes to a segment buffer.
fn token_of_exec(ev: &XmlEvent) -> (t: KeyToken)
    ensures
        t@ == token_of(ev@),
{
    match ev {
        XmlEvent::Open(c) => KeyToken::Name(name_of_vec(c)),
        XmlEvent::Empty(c) => KeyToken::Name(name_of_vec(c)),
        XmlEvent::Close(c) => KeyToken::Name(name_of_vec(c)),
        _ => KeyToken::Raw(dup_bytes(ev_content(ev))),
    }
}

/// Collapses duplicate translation units, exactly as the filter machine
/// does: one record survives per composite key, the strictly newer
/// timestamp replacing the older capture, and the survivors come out
/// sorted by ascending timestamp, each behind a newline, before the
/// literal closing text.
pub fn filter_events(evs: &Vec<XmlEvent>, opts: FilterOptions) -> (out: Vec<XmlEvent>)
    ensures
        out.deep_view() == filter_spec(evs.deep_view(), opts),
{
    let ghost dv = evs.deep_view();
    let mut inside: bool = false;
    let mut capture: Vec<XmlEvent> = Vec::new();
    let mut author: Option<Vec<u8>> = None;
    let mut tsraw: Option<Vec<u8>> = None;
    let mut lang: Option<Option<Vec<u8>>> = None;
    let mut in_doc_prop: bool = false;
    let mut in_ctx_prop: bool = false;
    let mut variant_src: Option<bool> = None;
    let mut in_seg: bool = false;
    let mut doc_val: Option<Vec<u8>> = None;
    let mut ctx_val: Option<Vec<u8>> = None;
    let mut src_toks: Vec<KeyToken> = Vec::new();
    let mut tgt_toks: Vec<KeyToken> = Vec::new();
    let mut recs: Vec<Record> = Vec::new();
    proof {
        assert(recs.deep_view() =~= Seq::<RecordS>::empty());
        assert(src_toks.deep_view() =~= Seq::<KeyTokenS>::empty());
        assert(tgt_toks.deep_view() =~= Seq::<KeyTokenS>::empty());
    }
    let len = evs.len();
    let mut i: usize = 0;
    while i < len
        invariant
            0 <= i <= len,
            len == evs@.len(),
            dv == evs.deep_view(),
            dv.len() == len,
            forall|j: int| 0 <= j < len ==> dv[j] == #[trigger] evs@[j]@,
            frun(dv, i as int, opts) == (FState {
                cur: if inside {
                    Some(capture.deep_view())
                } else {
                    None
                },
                author: author.deep_view(),
                tsraw: tsraw.deep_view(),
                acc: UnitAcc {
                    lang: lang.deep_view(),
                    in_doc_prop: in_doc_prop,
                    in_ctx_prop: in_ctx_prop,
                    variant: variant_src,
                    in_seg: in_seg,
                    doc_val: doc_val.deep_view(),
                    ctx_val: ctx_val.deep_view(),
                    src_toks: src_toks.deep_view(),
                    tgt_toks: tgt_toks.deep_view(),
                },
                recs: recs.deep_view(),
            }),
        decreases len - i,
    {
        let ghost st0 = frun(dv, i as int, opts);
        let ghost st1 = fstep(st0, dv[i as int], opts);
        proof {
            assert(frun(dv, i as int + 1, opts) == st1);
        }
        let ev = &evs[i];
        assert(ev@ == dv[i as int]);
        let tu_n = tu_bytes();
        if ev_open_named(ev, tu_n.as_slice()) {
            inside = true;
            capture = Vec::new();
            push_ev(&mut capture, ev);
            let c = ev_content(ev);
            let ne = name_len_of(c.as_slice());
            let cid = creationid_bytes();
            let cdt = creationdate_bytes();
            author = get_attribute_value(c.as_slice(), ne, cid.as_slice());
            tsraw = get_attribute_value(c.as_slice(), ne, cdt.as_slice());
            in_doc_prop = false;
            in_ctx_prop = false;
            variant_src = None;
            in_seg = false;
            doc_val = None;
            ctx_val = None;
            src_toks = Vec::new();
            tgt_toks = Vec::new();
            proof {
                assert(capture.deep_view() =~= seq![dv[i as int]]);
                assert(src_toks.deep_view() =~= Seq::<KeyTokenS>::empty());
                assert(tgt_toks.deep_view() =~= Seq::<KeyTokenS>::empty());
            }
        } else if ev_empty_named(ev, tu_n.as_slice()) {
        } else if ev_close_named(ev, tu_n.as_slice()) {
            if inside {
                push_ev(&mut capture, ev);
                let cap = capture;
                capture = Vec::new();
                let a_field: Option<Vec<u8>> = if opts.skip_author {
                    None
                } else {
                    match &author {
                        Some(av) => {
                            proof {
                                assert(av.deep_view() =~= av@);
                            }
                            let up = upper_ascii(av);
                            proof {
                                assert(up.deep_view() =~= up@);
                            }
                            Some(up)
                        },
                        None => None,
                    }
                };
                let d0 = doc_val;
                doc_val = None;
                let d_field: Option<Vec<u8>> = if opts.skip_document {
                    None
                } else {
                    d0
                };
                let c_field: Option<Vec<u8>> = if opts.skip_context {
                    None
                } else {
                    let cb = context_bytes(&ctx_val);
                    proof {
                        assert(cb.deep_view() =~= cb@);
                    }
                    Some(cb)
                };
                let s_toks = src_toks;
                src_toks = Vec::new();
                let g_toks = tgt_toks;
                tgt_toks = Vec::new();
                let t_field: Option<Vec<KeyToken>> = if opts.keep_diff_targets {
                    Some(g_toks)
                } else {
                    None
                };
                let key = DedupKey {
                    src: s_toks,
                    author: a_field,
                    document: d_field,
                    context: c_field,
                    targets: t_field,
                };
                let ts = parse_timestamp(&tsraw);
                proof {
                    assert(key@ == key_of(
                        st0.acc.src_toks,
                        st0.author,
                        st0.acc.doc_val,
                        st0.acc.ctx_val,
                        st0.acc.tgt_toks,
                        opts,
                    ));
                }
                let rec = Record { key, ts, capture: cap };
                proof {
                    assert(rec@ == RecordS {
                        key: key_of(
                            st0.acc.src_toks,
                            st0.author,
                            st0.acc.doc_val,
                            st0.acc.ctx_val,
                            st0.acc.tgt_toks,
                            opts,
                        ),
                        ts: ts_of(st0.tsraw),
                        capture: st0.cur->Some_0.push(dv[i as int]),
                    });
                }
                upsert_exec(&mut recs, rec);
                inside = false;
                author = None;
                tsraw = None;
                in_doc_prop = false;
                in_ctx_prop = false;
                variant_src = None;
                in_seg = false;
                ctx_val = None;
                proof {
                    assert(src_toks.deep_view() =~= Seq::<KeyTokenS>::empty());
                    assert(tgt_toks.deep_view() =~= Seq::<KeyTokenS>::empty());
                }
            }
        } else {
            if inside {
                push_ev(&mut capture, ev);
                let seg_n = seg_bytes();
                let tuv_n = tuv_bytes();
                if in_seg {
                    if ev_close_named(ev, seg_n.as_slice()) {
                        in_seg = false;
                    } else {
                        let tk = token_of_exec(ev);
                        match variant_src {
                            Some(true) => {
                                src_toks.push(tk);
                                proof {
                                    assert(src_toks.deep_view() =~= st0.acc.src_toks.push(
                                        token_of(dv[i as int]),
                                    ));
                                }
                            },
                            Some(false) => {
                                tgt_toks.push(tk);
                                proof {
                                    assert(tgt_toks.deep_view() =~= st0.acc.tgt_toks.push(
                                        token_of(dv[i as int]),
                                    ));
                                }
                            },
                            None => {},
                        }
                    }
                } else {
                    let prop_n = prop_bytes();
                    if ev_open_named(ev, prop_n.as_slice()) {
                        let c = ev_content(ev);
                        let ne = name_len_of(c.as_slice());
                        let ta = type_attr_bytes();
                        let t = get_attribute_value(c.as_slice(), ne, ta.as_slice());
                        let dn = tmgr_docname_bytes();
                        let cx = tmgr_context_bytes();
                        let is_doc = match &t {
                            Some(v) => bytes_eq(v.as_slice(), dn.as_slice()),
                            None => false,
                        };
                        let is_ctx = match &t {
                            Some(v) => bytes_eq(v.as_slice(), cx.as_slice()),
                            None => false,
                        };
                        proof {
                            match t {
                                Some(ref v) => {
                                    assert(v.deep_view() =~= v@);
                                },
                                None => {},
                            }
                            assert(is_doc == (attr_lookup(content_of(dv[i as int]), type_attr())
                                == Some(tmgr_docname())));
                            assert(is_ctx == (attr_lookup(content_of(dv[i as int]), type_attr())
                                == Some(tmgr_context())));
                        }
                        if is_doc && doc_val.is_none() {
                            in_doc_prop = true;
                        } else if is_ctx && ctx_val.is_none() {
                            in_ctx_prop = true;
                        }
                    } else if ev_open_named(ev, tuv_n.as_slice()) {
                        let c = ev_content(ev);
                        let ne = name_len_of(c.as_slice());
                        let xl = xml_lang_bytes();
                        let l = get_attribute_value(c.as_slice(), ne, xl.as_slice());
                        let established = match &lang {
                            None => false,
                            Some(_) => true,
                        };
                        if !established {
                            lang = Some(l);
                            variant_src = Some(true);
                        } else {
                            let same = match &lang {
                                Some(sl) => opt_bytes_eq(&l, sl),
                                None => false,
                            };
                            variant_src = Some(same);
                        }
                    } else if ev_empty_named(ev, tuv_n.as_slice()) {
                        if lang.is_none() {
                            let c = ev_content(ev);
                            let ne = name_len_of(c.as_slice());
                            let xl = xml_lang_bytes();
                            lang = Some(get_attribute_value(c.as_slice(), ne, xl.as_slice()));
                        }
                    } else if ev_open_named(ev, seg_n.as_slice()) {
                        if variant_src.is_some() {
                            in_seg = true;
                        }
                    } else if ev_close_named(ev, tuv_n.as_slice()) {
                        variant_src = None;
                    } else {
                        match ev {
                            XmlEvent::Text(c) => {
                                if in_doc_prop {
                                    if doc_val.is_none() {
                                        let d = dup_bytes(c);
                                        proof {
                                            assert(d.deep_view() =~= d@);
                                        }
                                        doc_val = Some(d);
                                    }
                                    in_doc_prop = false;
                                }
                                if in_ctx_prop {
                                    if ctx_val.is_none() {
                                        let d = dup_bytes(c);
                                        proof {
                                            assert(d.deep_view() =~= d@);
                                        }
                                        ctx_val = Some(d);
                                    }
                                    in_ctx_prop = false;
                                }
                            },
                            _ => {},
                        }
                    }
                }
            }
        }
        proof {
            assert(st1 == FState {
                cur: if inside {
                    Some(capture.deep_view())
                } else {
                    None
                },
                author: author.deep_view(),
                tsraw: tsraw.deep_view(),
                acc: UnitAcc {
                    lang: lang.deep_view(),
                    in_doc_prop: in_doc_prop,
                    in_ctx_prop: in_ctx_prop,
                    variant: variant_src,
                    in_seg: in_seg,
                    doc_val: doc_val.deep_view(),
                    ctx_val: ctx_val.deep_view(),
                    src_toks: src_toks.deep_view(),
                    tgt_toks: tgt_toks.deep_view(),
                },
                recs: recs.deep_view(),
            });
        }
        i = i + 1;
    }
    let sorted = sort_records(recs);
    let mut out: Vec<XmlEvent> = Vec::new();
    proof {
        assert(out.deep_view() =~= Seq::<EventS>::empty());
    }
    emit_exec(&sorted, &mut out);
    let fo = footer_bytes();
    let mut fv: Vec<u8> = Vec::new();
    crate::ser::push_bytes(&mut fv, fo.as_slice());
    let ghost before = out.deep_view();
    out.push(XmlEvent::Text(fv));
    proof {
        assert(out.deep_view() =~= before.push(EventS::Text(footer())));
        assert(Seq::<EventS>::empty() + emit_records(sort_by_ts(frun(dv, len as int, opts).recs))
            =~= emit_records(sort_by_ts(frun(dv, len as int, opts).recs)));
    }
    out
}

} // verus!
