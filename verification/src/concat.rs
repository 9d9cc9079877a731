//! The concat operator: copies the first document up to and into its
//! `<body>`, then merges the translation units of every further document
//! into that body, and closes the merged document with literal text. The
//! protective placeholder `t5:n` may be unprotected into plain text on the
//! way.

use vstd::prelude::*;

use crate::events::all_ws;
use crate::events::is_close_named;
use crate::events::is_empty_named;
use crate::events::is_open_named;
use crate::events::is_xml_whitespace;
use crate::events::push_ev;
use crate::events::ev_close_named;
use crate::events::ev_empty_named;
use crate::events::ev_open_named;
use crate::events::name_len_of;
use crate::events::spec_name_of;
use crate::events::EventS;
use crate::events::XmlEvent;
use crate::names::body;
use crate::names::body_bytes;
use crate::names::footer;
use crate::names::footer_bytes;
use crate::names::header;
use crate::names::header_bytes;
use crate::names::n_attr;
use crate::names::n_attr_bytes;
use crate::names::t5n;
use crate::names::t5n_bytes;
use crate::names::tmx;
use crate::names::tmx_bytes;
use crate::names::tu;
use crate::xmlio::attr_lookup;
use crate::xmlio::get_attribute_value;
use crate::TmxError;

verus! {

/// What the placeholder element `t5:n` with this tag content turns into:
/// itself when protection is kept or when it carries no `n` attribute, and
/// a plain text event holding the attribute's value (written as it stands,
/// not re-escaped) when unprotecting.
pub open spec fn t5n_out(c: Seq<u8>, unprotect: bool) -> Seq<EventS> {
    if !unprotect {
        seq![EventS::Empty(c)]
    } else {
        match attr_lookup(c, n_attr()) {
            Some(v) => seq![EventS::Text(v)],
            None => seq![EventS::Empty(c)],
        }
    }
}

/// Whether the event is an XML declaration.
pub open spec fn is_decl(ev: EventS) -> bool {
    match ev {
        EventS::Decl(_) => true,
        _ => false,
    }
}

/// The content of a self-closing tag event.
pub open spec fn empty_content(ev: EventS) -> Seq<u8>
    recommends
        ev is Empty,
{
    match ev {
        EventS::Empty(c) => c,
        _ => Seq::empty(),
    }
}

/// The first document's preamble: every event before `<body>` opens is
/// copied; a self-closing `<body/>` is copied and ends the document's part;
/// an opening `<body>` is copied and the unit region follows. Reaching the
/// end first is a structural fault.
pub open spec fn first_pre(evs: Seq<EventS>, i: int, u: bool) -> Result<Seq<EventS>, TmxError>
    decreases evs.len() - i, 1int,
{
    if i < 0 || i >= evs.len() {
        Err(TmxError::BodyNotFound)
    } else {
        let ev = evs[i];
        if is_open_named(ev, body()) {
            match first_units(evs, i + 1, u) {
                Ok(rest) => Ok(seq![ev] + rest),
                Err(e) => Err(e),
            }
        } else if is_empty_named(ev, body()) {
            Ok(seq![ev])
        } else {
            match first_pre(evs, i + 1, u) {
                Ok(rest) => Ok(seq![ev] + rest),
                Err(e) => Err(e),
            }
        }
    }
}

/// The first document's unit region: everything is copied verbatim up to,
/// and not including, `</body>`, except that a self-closing `t5:n` is
/// transformed. Reaching the end before `</body>` is a structural fault.
pub open spec fn first_units(evs: Seq<EventS>, i: int, u: bool) -> Result<Seq<EventS>, TmxError>
    decreases evs.len() - i, 0int,
{
    if i < 0 || i >= evs.len() {
        Err(TmxError::BodyNotClosed)
    } else {
        let ev = evs[i];
        if is_close_named(ev, body()) {
            Ok(Seq::empty())
        } else if is_empty_named(ev, t5n()) {
            match first_units(evs, i + 1, u) {
                Ok(rest) => Ok(t5n_out(empty_content(ev), u) + rest),
                Err(e) => Err(e),
            }
        } else {
            match first_units(evs, i + 1, u) {
                Ok(rest) => Ok(seq![ev] + rest),
                Err(e) => Err(e),
            }
        }
    }
}

/// A later document's contribution. The declaration, the `tmx` tags, the
/// whole `header` element and the `body` open tag are skipped; a
/// whitespace-only text event right after something skipped is suppressed
/// once; `t5:n` is transformed; everything else is copied until `</body>`
/// ends the document's part.
pub open spec fn rest_from(js: bool, in_header: bool, evs: Seq<EventS>, i: int, u: bool) -> Result<
    Seq<EventS>,
    TmxError,
>
    decreases evs.len() - i,
{
    if i < 0 || i >= evs.len() {
        Err(TmxError::BodyNotClosed)
    } else {
        let ev = evs[i];
        if in_header {
            if is_close_named(ev, header()) {
                rest_from(true, false, evs, i + 1, u)
            } else {
                rest_from(js, true, evs, i + 1, u)
            }
        } else if is_close_named(ev, body()) {
            Ok(Seq::empty())
        } else if is_decl(ev) || is_open_named(ev, tmx()) || is_empty_named(ev, tmx())
            || is_close_named(ev, tmx()) || is_empty_named(ev, header()) || is_open_named(
            ev,
            body(),
        ) {
            rest_from(true, false, evs, i + 1, u)
        } else if is_open_named(ev, header()) {
            rest_from(js, true, evs, i + 1, u)
        } else if is_empty_named(ev, t5n()) {
            match rest_from(js, false, evs, i + 1, u) {
                Ok(rest) => Ok(t5n_out(empty_content(ev), u) + rest),
                Err(e) => Err(e),
            }
        } else {
            match ev {
                EventS::Text(c) => if js && all_ws(c) {
                    rest_from(false, false, evs, i + 1, u)
                } else {
                    match rest_from(js, false, evs, i + 1, u) {
                        Ok(rest) => Ok(seq![ev] + rest),
                        Err(e) => Err(e),
                    }
                },
                _ => match rest_from(js, false, evs, i + 1, u) {
                    Ok(rest) => Ok(seq![ev] + rest),
                    Err(e) => Err(e),
                },
            }
        }
    }
}

/// One later document's whole contribution.
pub open spec fn rest_contrib(doc: Seq<EventS>, u: bool) -> Result<Seq<EventS>, TmxError> {
    rest_from(false, false, doc, 0, u)
}

/// The contributions of all later documents, in their given order.
pub open spec fn rest_all(docs: Seq<Seq<EventS>>, u: bool) -> Result<Seq<EventS>, TmxError>
    decreases docs.len(),
{
    if docs.len() == 0 {
        Ok(Seq::empty())
    } else {
        match rest_contrib(docs[0], u) {
            Ok(h) => match rest_all(docs.drop_first(), u) {
                Ok(t) => Ok(h + t),
                Err(e) => Err(e),
            },
            Err(e) => Err(e),
        }
    }
}

/// The whole merged document: the first document's part, then every later
/// document's units in order, then the literal closing text for the body
/// and the document root.
pub open spec fn concat_spec(docs: Seq<Seq<EventS>>, u: bool) -> Result<Seq<EventS>, TmxError> {
    if docs.len() == 0 {
        Err(TmxError::NoInput)
    } else {
        match first_pre(docs[0], 0, u) {
            Ok(h) => match rest_all(docs.drop_first(), u) {
                Ok(t) => Ok(h + t + seq![EventS::Text(footer())]),
                Err(e) => Err(e),
            },
            Err(e) => Err(e),
        }
    }
}

/// A `t5:n` placeholder carrying an `n` attribute becomes the literal text
/// of that attribute's value when unprotecting; it stays itself when
/// protection is kept or when it carries no `n` attribute.
pub proof fn lemma_unprotect(c: Seq<u8>)
    ensures
        attr_lookup(c, n_attr()) is Some ==> t5n_out(c, true) == seq![
            EventS::Text(attr_lookup(c, n_attr())->Some_0),
        ],
        attr_lookup(c, n_attr()) is None ==> t5n_out(c, true) == seq![EventS::Empty(c)],
        t5n_out(c, false) == seq![EventS::Empty(c)],
{
}

/// The concatenation of the later documents' contributions, in order.
pub open spec fn contribs_cat(docs: Seq<Seq<EventS>>, u: bool) -> Seq<EventS>
    decreases docs.len(),
{
    if docs.len() == 0 {
        Seq::empty()
    } else {
        (match rest_contrib(docs[0], u) {
            Ok(h) => h,
            Err(_) => Seq::empty(),
        }) + contribs_cat(docs.drop_first(), u)
    }
}

proof fn lemma_rest_all_flatten(docs: Seq<Seq<EventS>>, u: bool)
    requires
        rest_all(docs, u) is Ok,
    ensures
        forall|i: int| 0 <= i < docs.len() ==> #[trigger] rest_contrib(docs[i], u) is Ok,
        rest_all(docs, u) == Ok::<Seq<EventS>, TmxError>(contribs_cat(docs, u)),
    decreases docs.len(),
{
    if docs.len() == 0 {
    } else {
        lemma_rest_all_flatten(docs.drop_first(), u);
        assert forall|i: int| 0 <= i < docs.len() implies #[trigger] rest_contrib(docs[i], u)
            is Ok by {
            if i > 0 {
                assert(docs.drop_first()[i - 1] == docs[i]);
            }
        }
    }
}

/// Order is preserved across file boundaries: a merged document is the
/// first document's part, then each later document's contribution in the
/// order the documents were given, then the closing text.
pub proof fn lemma_concat_order(docs: Seq<Seq<EventS>>, u: bool, out: Seq<EventS>)
    requires
        concat_spec(docs, u) == Ok::<Seq<EventS>, TmxError>(out),
    ensures
        docs.len() >= 1,
        first_pre(docs[0], 0, u) is Ok,
        forall|i: int|
            1 <= i < docs.len() ==> #[trigger] rest_contrib(docs[i], u) is Ok,
        out == (match first_pre(docs[0], 0, u) {
            Ok(h) => h,
            Err(_) => Seq::empty(),
        }) + contribs_cat(docs.drop_first(), u) + seq![EventS::Text(footer())],
{
    lemma_rest_all_flatten(docs.drop_first(), u);
    assert forall|i: int| 1 <= i < docs.len() implies #[trigger] rest_contrib(docs[i], u) is Ok by {
        assert(docs.drop_first()[i - 1] == docs[i]);
    }
}

/// The index of the first `</body>` at or after `i`, or the length.
pub open spec fn body_close_at(evs: Seq<EventS>, i: int) -> int
    decreases evs.len() - i,
{
    if i < 0 || i >= evs.len() {
        evs.len() as int
    } else if is_close_named(evs[i], body()) {
        i
    } else {
        body_close_at(evs, i + 1)
    }
}

/// The index of the first `<body>` or `<body/>` at or after `i`, or the
/// length.
pub open spec fn body_open_at(evs: Seq<EventS>, i: int) -> int
    decreases evs.len() - i,
{
    if i < 0 || i >= evs.len() {
        evs.len() as int
    } else if is_open_named(evs[i], body()) || is_empty_named(evs[i], body()) {
        i
    } else {
        body_open_at(evs, i + 1)
    }
}

proof fn lemma_body_close_bounds(evs: Seq<EventS>, i: int)
    requires
        0 <= i <= evs.len(),
    ensures
        i <= body_close_at(evs, i) <= evs.len(),
        body_close_at(evs, i) < evs.len() ==> is_close_named(evs[body_close_at(evs, i)], body()),
    decreases evs.len() - i,
{
    if i < evs.len() && !is_close_named(evs[i], body()) {
        lemma_body_close_bounds(evs, i + 1);
    }
}

/// What the placeholder turns into is never a unit boundary.
proof fn lemma_t5n_out_no_units(c: Seq<u8>, u: bool)
    requires
        spec_name_of(c) == t5n(),
    ensures
        crate::trim::tu_count(t5n_out(c, u)) == 0,
{
    assert(t5n() != tu()) by {
        assert(t5n().len() != tu().len());
    }
    let out = t5n_out(c, u);
    assert(out.len() == 1);
    assert(out.drop_last() =~= Seq::<EventS>::empty());
    assert(crate::trim::tu_count(Seq::<EventS>::empty()) == 0);
    assert(out.last() == out[0]);
    assert(!is_open_named(out[0], tu()) && !is_empty_named(out[0], tu()));
}

proof fn lemma_tu_count_single(ev: EventS)
    ensures
        crate::trim::tu_count(seq![ev]) == if is_open_named(ev, tu()) || is_empty_named(
            ev,
            tu(),
        ) {
            1nat
        } else {
            0nat
        },
{
    assert(seq![ev].drop_last() =~= Seq::<EventS>::empty());
    assert(crate::trim::tu_count(Seq::<EventS>::empty()) == 0);
    assert(seq![ev].last() == ev);
}

/// The first document's unit region emits exactly the unit boundaries it
/// scans: no `tu` event appears or disappears before `</body>`.
pub proof fn lemma_first_units_count(evs: Seq<EventS>, i: int, u: bool)
    requires
        0 <= i <= evs.len(),
        first_units(evs, i, u) is Ok,
    ensures
        crate::trim::tu_count(first_units(evs, i, u)->Ok_0) == crate::trim::tu_count(
            evs.subrange(i, body_close_at(evs, i)),
        ),
    decreases evs.len() - i,
{
    crate::trim::lemma_tu_count_concat(Seq::<EventS>::empty(), Seq::<EventS>::empty());
    if i >= evs.len() {
        assert(false);
    } else if is_close_named(evs[i], body()) {
        assert(evs.subrange(i, i) =~= Seq::<EventS>::empty());
        assert(crate::trim::tu_count(Seq::<EventS>::empty()) == 0);
    } else {
        lemma_body_close_bounds(evs, i + 1);
        let m = body_close_at(evs, i);
        assert(m == body_close_at(evs, i + 1));
        lemma_first_units_count(evs, i + 1, u);
        assert(evs.subrange(i, m) =~= seq![evs[i]] + evs.subrange(i + 1, m));
        crate::trim::lemma_tu_count_concat(seq![evs[i]], evs.subrange(i + 1, m));
        lemma_tu_count_single(evs[i]);
        let rest = first_units(evs, i + 1, u)->Ok_0;
        if is_empty_named(evs[i], t5n()) {
            lemma_t5n_out_no_units(empty_content(evs[i]), u);
            crate::trim::lemma_tu_count_concat(t5n_out(empty_content(evs[i]), u), rest);
            assert(is_empty_named(evs[i], tu()) ==> t5n() == tu());
            assert(t5n() != tu()) by {
                assert(t5n().len() != tu().len());
            }
        } else {
            crate::trim::lemma_tu_count_concat(seq![evs[i]], rest);
        }
    }
}

/// A later document's contribution emits exactly the unit boundaries it
/// scans, when the document opens no `header` element before `</body>`.
pub proof fn lemma_rest_count(js: bool, evs: Seq<EventS>, i: int, u: bool)
    requires
        0 <= i <= evs.len(),
        rest_from(js, false, evs, i, u) is Ok,
        forall|q: int|
            i <= q < body_close_at(evs, i) ==> !is_open_named(#[trigger] evs[q], header()),
    ensures
        crate::trim::tu_count(rest_from(js, false, evs, i, u)->Ok_0) == crate::trim::tu_count(
            evs.subrange(i, body_close_at(evs, i)),
        ),
    decreases evs.len() - i,
{
    if i >= evs.len() {
        assert(false);
    } else if is_close_named(evs[i], body()) {
        assert(evs.subrange(i, i) =~= Seq::<EventS>::empty());
        assert(crate::trim::tu_count(Seq::<EventS>::empty()) == 0);
    } else {
        lemma_body_close_bounds(evs, i + 1);
        let m = body_close_at(evs, i);
        assert(m == body_close_at(evs, i + 1));
        assert(!is_open_named(evs[i], header()));
        assert(evs.subrange(i, m) =~= seq![evs[i]] + evs.subrange(i + 1, m));
        crate::trim::lemma_tu_count_concat(seq![evs[i]], evs.subrange(i + 1, m));
        lemma_tu_count_single(evs[i]);
        assert(tu() != tmx()) by {
            assert(tu().len() != tmx().len());
        }
        assert(tu() != header()) by {
            assert(tu().len() != header().len());
        }
        assert(tu() != body()) by {
            assert(tu().len() != body().len());
        }
        if is_decl(evs[i]) || is_open_named(evs[i], tmx()) || is_empty_named(evs[i], tmx())
            || is_close_named(evs[i], tmx()) || is_empty_named(evs[i], header()) || is_open_named(
            evs[i],
            body(),
        ) {
            lemma_rest_count(true, evs, i + 1, u);
        } else if is_empty_named(evs[i], t5n()) {
            lemma_rest_count(js, evs, i + 1, u);
            let rest = rest_from(js, false, evs, i + 1, u)->Ok_0;
            lemma_t5n_out_no_units(empty_content(evs[i]), u);
            crate::trim::lemma_tu_count_concat(t5n_out(empty_content(evs[i]), u), rest);
            assert(t5n() != tu()) by {
                assert(t5n().len() != tu().len());
            }
        } else {
            match evs[i] {
                EventS::Text(c) => {
                    if js && all_ws(c) {
                        lemma_rest_count(false, evs, i + 1, u);
                    } else {
                        lemma_rest_count(js, evs, i + 1, u);
                        crate::trim::lemma_tu_count_concat(
                            seq![evs[i]],
                            rest_from(js, false, evs, i + 1, u)->Ok_0,
                        );
                    }
                },
                _ => {
                    lemma_rest_count(js, evs, i + 1, u);
                    crate::trim::lemma_tu_count_concat(
                        seq![evs[i]],
                        rest_from(js, false, evs, i + 1, u)->Ok_0,
                    );
                },
            }
        }
    }
}

proof fn lemma_body_open_bounds(evs: Seq<EventS>, i: int)
    requires
        0 <= i <= evs.len(),
    ensures
        i <= body_open_at(evs, i) <= evs.len(),
        body_open_at(evs, i) < evs.len() ==> is_open_named(evs[body_open_at(evs, i)], body())
            || is_empty_named(evs[body_open_at(evs, i)], body()),
        forall|q: int|
            i <= q < body_open_at(evs, i) ==> !is_open_named(#[trigger] evs[q], body())
                && !is_empty_named(evs[q], body()),
    decreases evs.len() - i,
{
    if i < evs.len() && !(is_open_named(evs[i], body()) || is_empty_named(evs[i], body())) {
        lemma_body_open_bounds(evs, i + 1);
    }
}

proof fn lemma_body_close_skip(evs: Seq<EventS>, a: int, j: int)
    requires
        0 <= a <= j <= evs.len(),
        forall|q: int| a <= q < j ==> !is_close_named(#[trigger] evs[q], body()),
    ensures
        body_close_at(evs, a) == body_close_at(evs, j),
    decreases j - a,
{
    if a < j {
        assert(!is_close_named(evs[a], body()));
        lemma_body_close_skip(evs, a + 1, j);
    }
}

/// The first document's part splits at its `<body>`: the copied preamble
/// up to and including the open tag, then the unit region's output.
proof fn lemma_first_pre_decomp(evs: Seq<EventS>, i: int, u: bool)
    requires
        0 <= i <= evs.len(),
        first_pre(evs, i, u) is Ok,
    ensures
        i <= body_open_at(evs, i) < evs.len(),
        is_open_named(evs[body_open_at(evs, i)], body()) ==> first_units(
            evs,
            body_open_at(evs, i) + 1,
            u,
        ) is Ok && first_pre(evs, i, u)->Ok_0 == evs.subrange(i, body_open_at(evs, i) + 1)
            + first_units(evs, body_open_at(evs, i) + 1, u)->Ok_0,
        !is_open_named(evs[body_open_at(evs, i)], body()) ==> first_pre(evs, i, u)->Ok_0
            == evs.subrange(i, body_open_at(evs, i) + 1),
    decreases evs.len() - i,
{
    if i >= evs.len() {
        assert(false);
    } else {
        let ev = evs[i];
        if is_open_named(ev, body()) {
            assert(body_open_at(evs, i) == i);
            assert(evs.subrange(i, i + 1) =~= seq![ev]);
        } else if is_empty_named(ev, body()) {
            assert(body_open_at(evs, i) == i);
            assert(evs.subrange(i, i + 1) =~= seq![ev]);
        } else {
            lemma_first_pre_decomp(evs, i + 1, u);
            let k = body_open_at(evs, i);
            assert(k == body_open_at(evs, i + 1));
            assert(evs.subrange(i, k + 1) =~= seq![ev] + evs.subrange(i + 1, k + 1));
        }
    }
}

/// Merging a container-bodied document with itself doubles its units: the
/// merged body holds exactly twice the unit count of the document's body
/// region. The document must hold no unit boundary and no `</body>` before
/// its `<body>` opens, and open no `header` element before `</body>`.
pub proof fn lemma_concat_self_doubles(d: Seq<EventS>, u: bool, out: Seq<EventS>)
    requires
        concat_spec(seq![d, d], u) == Ok::<Seq<EventS>, TmxError>(out),
        body_open_at(d, 0) < d.len() && is_open_named(d[body_open_at(d, 0)], body()),
        crate::trim::tu_count(d.subrange(0, body_open_at(d, 0) + 1)) == 0,
        forall|q: int| 0 <= q <= body_open_at(d, 0) ==> !is_close_named(#[trigger] d[q], body()),
        forall|q: int|
            0 <= q < body_close_at(d, 0) ==> !is_open_named(#[trigger] d[q], header()),
    ensures
        crate::trim::tu_count(out) == 2 * crate::trim::tu_count(
            d.subrange(body_open_at(d, 0) + 1, body_close_at(d, body_open_at(d, 0) + 1)),
        ),
{
    let k = body_open_at(d, 0);
    let docs = seq![d, d];
    assert(docs[0] == d);
    assert(docs.drop_first() =~= seq![d]);
    assert(first_pre(d, 0, u) is Ok);
    let h = first_pre(d, 0, u)->Ok_0;
    assert(rest_all(seq![d], u) is Ok);
    assert(seq![d][0] == d);
    assert(seq![d].drop_first() =~= Seq::<Seq<EventS>>::empty());
    assert(rest_all(Seq::<Seq<EventS>>::empty(), u) == Ok::<Seq<EventS>, TmxError>(Seq::empty()));
    assert(rest_contrib(d, u) is Ok);
    let t = rest_contrib(d, u)->Ok_0;
    assert(rest_all(seq![d], u) == Ok::<Seq<EventS>, TmxError>(t + Seq::<EventS>::empty()));
    assert(t + Seq::<EventS>::empty() =~= t);
    assert(out == h + t + seq![EventS::Text(footer())]);

    lemma_first_pre_decomp(d, 0, u);
    assert(h == d.subrange(0, k + 1) + first_units(d, k + 1, u)->Ok_0);
    lemma_first_units_count(d, k + 1, u);
    let m = body_close_at(d, k + 1);
    let x = crate::trim::tu_count(d.subrange(k + 1, m));
    crate::trim::lemma_tu_count_concat(d.subrange(0, k + 1), first_units(d, k + 1, u)->Ok_0);
    assert(crate::trim::tu_count(h) == x);

    assert(!is_close_named(d[k], body()));
    lemma_body_close_skip(d, 0, k + 1);
    assert(body_close_at(d, 0) == m);
    lemma_rest_count(false, d, 0, u);
    assert(crate::trim::tu_count(t) == crate::trim::tu_count(d.subrange(0, m)));
    lemma_body_close_bounds(d, k + 1);
    assert(d.subrange(0, m) =~= d.subrange(0, k + 1) + d.subrange(k + 1, m));
    crate::trim::lemma_tu_count_concat(d.subrange(0, k + 1), d.subrange(k + 1, m));
    assert(crate::trim::tu_count(t) == x);

    lemma_tu_count_single(EventS::Text(footer()));
    crate::trim::lemma_tu_count_concat(h, t);
    crate::trim::lemma_tu_count_concat(h + t, seq![EventS::Text(footer())]);
}

/// Away from the structural elements it skips, a later document's pass
/// copies a unit region exactly as the first document's pass does: the same
/// events in the same order, with the same placeholder transform. So in a
/// self-merge the second copy's units come out verbatim equal to the
/// first's.
pub proof fn lemma_rest_equals_first(evs: Seq<EventS>, i: int, u: bool)
    requires
        0 <= i <= evs.len(),
        forall|q: int|
            i <= q < body_close_at(evs, i) ==> !is_decl(#[trigger] evs[q]) && !is_open_named(
                evs[q],
                tmx(),
            ) && !is_empty_named(evs[q], tmx()) && !is_close_named(evs[q], tmx())
                && !is_empty_named(evs[q], header()) && !is_open_named(evs[q], header())
                && !is_open_named(evs[q], body()),
    ensures
        rest_from(false, false, evs, i, u) == first_units(evs, i, u),
    decreases evs.len() - i,
{
    if i >= evs.len() {
    } else if is_close_named(evs[i], body()) {
    } else {
        lemma_body_close_bounds(evs, i + 1);
        assert(body_close_at(evs, i) == body_close_at(evs, i + 1));
        assert(!is_decl(evs[i]) && !is_open_named(evs[i], tmx()) && !is_empty_named(evs[i], tmx())
            && !is_close_named(evs[i], tmx()) && !is_empty_named(evs[i], header())
            && !is_open_named(evs[i], header()) && !is_open_named(evs[i], body()));
        lemma_rest_equals_first(evs, i + 1, u);
    }
}

/// Appends what the placeholder content turns into.
fn t5n_push(c: &Vec<u8>, unprotect: bool, out: &mut Vec<XmlEvent>)
    ensures
        final(out).deep_view() == old(out).deep_view() + t5n_out(c@, unprotect),
{
    if !unprotect {
        let d = crate::events::dup_bytes(c);
        out.push(XmlEvent::Empty(d));
        proof {
            assert(out.deep_view() =~= old(out).deep_view() + t5n_out(c@, unprotect));
        }
    } else {
        let ne = name_len_of(c.as_slice());
        let n_name = n_attr_bytes();
        match get_attribute_value(c.as_slice(), ne, n_name.as_slice()) {
            Some(v) => {
                proof {
                    assert(v.deep_view() =~= v@);
                }
                out.push(XmlEvent::Text(v));
                proof {
                    assert(out.deep_view() =~= old(out).deep_view() + t5n_out(c@, unprotect));
                }
            },
            None => {
                let d = crate::events::dup_bytes(c);
                out.push(XmlEvent::Empty(d));
                proof {
                    assert(out.deep_view() =~= old(out).deep_view() + t5n_out(c@, unprotect));
                }
            },
        }
    }
}

/// Merges the documents' translation units into the first document's body,
/// exactly as the concat machines emit them; fails as they do when a body
/// never opens or never closes, or when no document is given.
pub fn concat_events(docs: &Vec<Vec<XmlEvent>>, unprotect: bool) -> (r: Result<
    Vec<XmlEvent>,
    TmxError,
>)
    ensures
        match r {
            Ok(out) => concat_spec(docs.deep_view(), unprotect) == Ok::<Seq<EventS>, TmxError>(
                out.deep_view(),
            ),
            Err(e) => concat_spec(docs.deep_view(), unprotect) == Err::<Seq<EventS>, TmxError>(e),
        },
{
    let ghost ddv = docs.deep_view();
    if docs.len() == 0 {
        return Err(TmxError::NoInput);
    }
    assert(ddv.len() == docs@.len());
    let body_n = body_bytes();
    let header_n = header_bytes();
    let tmx_n = tmx_bytes();
    let t5n_n = t5n_bytes();
    let mut out: Vec<XmlEvent> = Vec::new();

    // The first document's preamble, up to and including the open of its
    // body.
    let first = &docs[0];
    let ghost fdv = first.deep_view();
    assert(fdv == ddv[0]);
    let flen = first.len();
    let mut i: usize = 0;
    let mut in_body = false;
    let mut body_done = false;
    while i < flen && !body_done
        invariant
            0 <= i <= flen,
            flen == first@.len(),
            fdv == first.deep_view(),
            fdv.len() == flen,
            forall|j: int| 0 <= j < flen ==> fdv[j] == #[trigger] first@[j]@,
            body_n@ == body(),
            t5n_n@ == t5n(),
            !body_done ==> !in_body,
            !body_done ==> first_pre(fdv, 0, unprotect) == (match first_pre(fdv, i as int, unprotect) {
                Ok(rest) => Ok::<Seq<EventS>, TmxError>(out.deep_view() + rest),
                Err(e) => Err::<Seq<EventS>, TmxError>(e),
            }),
            body_done && in_body ==> first_pre(fdv, 0, unprotect) == (match first_units(
                fdv,
                i as int,
                unprotect,
            ) {
                Ok(rest) => Ok::<Seq<EventS>, TmxError>(out.deep_view() + rest),
                Err(e) => Err::<Seq<EventS>, TmxError>(e),
            }),
            body_done && !in_body ==> first_pre(fdv, 0, unprotect) == Ok::<Seq<EventS>, TmxError>(
                out.deep_view(),
            ),
        decreases flen - i,
    {
        let ghost out0 = out.deep_view();
        let ev = &first[i];
        assert(ev@ == fdv[i as int]);
        if ev_open_named(ev, body_n.as_slice()) {
            push_ev(&mut out, ev);
            in_body = true;
            body_done = true;
            proof {
                assert(out.deep_view() =~= out0.push(ev@));
                assert forall|rest: Seq<EventS>| out0 + (seq![ev@] + rest) =~= out0.push(ev@)
                    + rest by {}
            }
        } else if ev_empty_named(ev, body_n.as_slice()) {
            push_ev(&mut out, ev);
            body_done = true;
            proof {
                assert(out0 + seq![ev@] =~= out0.push(ev@));
            }
        } else {
            push_ev(&mut out, ev);
            proof {
                assert forall|rest: Seq<EventS>| out0 + (seq![ev@] + rest) =~= out0.push(ev@)
                    + rest by {}
            }
        }
        i = i + 1;
    }
    if !body_done {
        assert(first_pre(fdv, i as int, unprotect) == Err::<Seq<EventS>, TmxError>(
            TmxError::BodyNotFound,
        ));
        return Err(TmxError::BodyNotFound);
    }
    // The first document's unit region, when its body is a container.
    if in_body {
        let mut closed = false;
        while i < flen && !closed
            invariant
                0 <= i <= flen,
                flen == first@.len(),
                fdv == first.deep_view(),
                fdv.len() == flen,
                forall|j: int| 0 <= j < flen ==> fdv[j] == #[trigger] first@[j]@,
                body_n@ == body(),
                t5n_n@ == t5n(),
                !closed ==> first_pre(fdv, 0, unprotect) == (match first_units(
                    fdv,
                    i as int,
                    unprotect,
                ) {
                    Ok(rest) => Ok::<Seq<EventS>, TmxError>(out.deep_view() + rest),
                    Err(e) => Err::<Seq<EventS>, TmxError>(e),
                }),
                closed ==> first_pre(fdv, 0, unprotect) == Ok::<Seq<EventS>, TmxError>(
                    out.deep_view(),
                ),
            decreases flen - i,
        {
            let ghost out0 = out.deep_view();
            let ev = &first[i];
            assert(ev@ == fdv[i as int]);
            if ev_close_named(ev, body_n.as_slice()) {
                closed = true;
                proof {
                    assert(out0 + Seq::<EventS>::empty() =~= out0);
                }
            } else if ev_empty_named(ev, t5n_n.as_slice()) {
                match ev {
                    XmlEvent::Empty(c) => {
                        t5n_push(c, unprotect, &mut out);
                        proof {
                            assert(empty_content(ev@) == c@);
                            assert forall|rest: Seq<EventS>|
                                out0 + (t5n_out(c@, unprotect) + rest) =~= (out0 + t5n_out(
                                    c@,
                                    unprotect,
                                )) + rest by {}
                        }
                    },
                    _ => {
                        proof {
                            assert(false);
                        }
                    },
                }
            } else {
                push_ev(&mut out, ev);
                proof {
                    assert forall|rest: Seq<EventS>| out0 + (seq![ev@] + rest) =~= out0.push(ev@)
                        + rest by {}
                }
            }
            i = i + 1;
        }
        if !closed {
            assert(first_units(fdv, i as int, unprotect) == Err::<Seq<EventS>, TmxError>(
                TmxError::BodyNotClosed,
            ));
            return Err(TmxError::BodyNotClosed);
        }
    }
    assert(first_pre(fdv, 0, unprotect) == Ok::<Seq<EventS>, TmxError>(out.deep_view()));

    // Every later document's units.
    let ghost first_out = out.deep_view();
    let dcount = docs.len();
    let mut d: usize = 1;
    while d < dcount
        invariant
            1 <= d <= dcount,
            dcount == docs@.len(),
            ddv == docs.deep_view(),
            ddv.len() == dcount,
            forall|j: int| 0 <= j < dcount ==> ddv[j] == #[trigger] docs@[j].deep_view(),
            body_n@ == body(),
            header_n@ == header(),
            tmx_n@ == tmx(),
            t5n_n@ == t5n(),
            first_pre(ddv[0], 0, unprotect) == Ok::<Seq<EventS>, TmxError>(first_out),
            rest_all(ddv.skip(1), unprotect) == (match rest_all(ddv.skip(d as int), unprotect) {
                Ok(t) => Ok::<Seq<EventS>, TmxError>(out.deep_view().skip(first_out.len() as int)
                    + t),
                Err(e) => Err::<Seq<EventS>, TmxError>(e),
            }),
            out.deep_view().take(first_out.len() as int) == first_out,
            out.deep_view().len() >= first_out.len(),
        decreases dcount - d,
    {
        let doc = &docs[d];
        let ghost dv = doc.deep_view();
        assert(dv == ddv[d as int]);
        let dlen = doc.len();
        let mut k: usize = 0;
        let mut js = false;
        let mut in_header = false;
        let mut closed = false;
        let ghost doc_start = out.deep_view();
        while k < dlen && !closed
            invariant
                0 <= k <= dlen,
                dlen == doc@.len(),
                dv == doc.deep_view(),
                dv.len() == dlen,
                forall|j: int| 0 <= j < dlen ==> dv[j] == #[trigger] doc@[j]@,
                body_n@ == body(),
                header_n@ == header(),
                tmx_n@ == tmx(),
                t5n_n@ == t5n(),
                doc_start.len() <= out.deep_view().len(),
                out.deep_view().take(doc_start.len() as int) == doc_start,
                !closed ==> rest_contrib(dv, unprotect) == (match rest_from(
                    js,
                    in_header,
                    dv,
                    k as int,
                    unprotect,
                ) {
                    Ok(rest) => Ok::<Seq<EventS>, TmxError>(out.deep_view().skip(
                        doc_start.len() as int,
                    ) + rest),
                    Err(e) => Err::<Seq<EventS>, TmxError>(e),
                }),
                closed ==> rest_contrib(dv, unprotect) == Ok::<Seq<EventS>, TmxError>(
                    out.deep_view().skip(doc_start.len() as int),
                ),
            decreases dlen - k,
        {
            let ghost out0 = out.deep_view();
            let ghost contrib0 = out0.skip(doc_start.len() as int);
            let ev = &doc[k];
            assert(ev@ == dv[k as int]);
            if in_header {
                if ev_close_named(ev, header_n.as_slice()) {
                    in_header = false;
                    js = true;
                }
            } else if ev_close_named(ev, body_n.as_slice()) {
                closed = true;
                proof {
                    assert(contrib0 + Seq::<EventS>::empty() =~= contrib0);
                }
            } else {
                let skip_struct = (match ev {
                    XmlEvent::Decl(_) => true,
                    _ => false,
                }) || ev_open_named(ev, tmx_n.as_slice()) || ev_empty_named(ev, tmx_n.as_slice())
                    || ev_close_named(ev, tmx_n.as_slice()) || ev_empty_named(
                    ev,
                    header_n.as_slice(),
                ) || ev_open_named(ev, body_n.as_slice());
                if skip_struct {
                    js = true;
                } else if ev_open_named(ev, header_n.as_slice()) {
                    in_header = true;
                } else if ev_empty_named(ev, t5n_n.as_slice()) {
                    match ev {
                        XmlEvent::Empty(c) => {
                            t5n_push(c, unprotect, &mut out);
                            proof {
                                assert(empty_content(ev@) == c@);
                                assert(out.deep_view() =~= out0 + t5n_out(c@, unprotect));
                                assert(out.deep_view().skip(doc_start.len() as int) =~= contrib0
                                    + t5n_out(c@, unprotect));
                                assert(out.deep_view().take(doc_start.len() as int) =~= doc_start);
                                assert forall|rest: Seq<EventS>|
                                    contrib0 + (t5n_out(c@, unprotect) + rest) =~= (contrib0
                                        + t5n_out(c@, unprotect)) + rest by {}
                            }
                        },
                        _ => {
                            proof {
                                assert(false);
                            }
                        },
                    }
                } else {
                    let is_ws_text = match ev {
                        XmlEvent::Text(c) => is_xml_whitespace(c.as_slice()),
                        _ => false,
                    };
                    if js && is_ws_text {
                        js = false;
                    } else {
                        push_ev(&mut out, ev);
                        proof {
                            assert(out.deep_view() =~= out0 + seq![ev@]);
                            assert(out.deep_view().skip(doc_start.len() as int) =~= contrib0 + seq![
                                ev@,
                            ]);
                            assert(out.deep_view().take(doc_start.len() as int) =~= doc_start);
                            assert forall|rest: Seq<EventS>|
                                contrib0 + (seq![ev@] + rest) =~= (contrib0 + seq![ev@])
                                    + rest by {}
                        }
                    }
                }
            }
            k = k + 1;
        }
        if !closed {
            assert(rest_from(js, in_header, dv, k as int, unprotect) == Err::<
                Seq<EventS>,
                TmxError,
            >(TmxError::BodyNotClosed));
            return Err(TmxError::BodyNotClosed);
        }
        proof {
            let aa = first_out.len() as int;
            let h = out.deep_view().skip(doc_start.len() as int);
            assert(rest_contrib(dv, unprotect) == Ok::<Seq<EventS>, TmxError>(h));
            assert(ddv.skip(d as int).drop_first() =~= ddv.skip(d as int + 1));
            assert(ddv.skip(d as int)[0] == dv);
            assert(out.deep_view().take(doc_start.len() as int) == doc_start);
            assert(doc_start.take(aa) == first_out);
            assert(out.deep_view().skip(aa) =~= doc_start.skip(aa) + h);
            assert(out.deep_view().take(aa) =~= first_out);
            if rest_all(ddv.skip(d as int + 1), unprotect) is Ok {
                let t = rest_all(ddv.skip(d as int + 1), unprotect)->Ok_0;
                assert(rest_all(ddv.skip(d as int), unprotect) == Ok::<Seq<EventS>, TmxError>(
                    h + t,
                ));
                assert(doc_start.skip(aa) + (h + t) =~= (doc_start.skip(aa) + h) + t);
            } else {
                assert(rest_all(ddv.skip(d as int), unprotect) == rest_all(
                    ddv.skip(d as int + 1),
                    unprotect,
                ));
            }
        }
        d = d + 1;
    }
    proof {
        assert(ddv.skip(dcount as int) =~= Seq::<Seq<EventS>>::empty());
        assert(rest_all(ddv.skip(dcount as int), unprotect) == Ok::<Seq<EventS>, TmxError>(
            Seq::empty(),
        ));
    }
    let ghost before_footer = out.deep_view();
    let footer_v = footer_bytes();
    let mut fv: Vec<u8> = Vec::new();
    crate::ser::push_bytes(&mut fv, footer_v.as_slice());
    out.push(XmlEvent::Text(fv));
    proof {
        assert(out.deep_view() =~= before_footer.push(EventS::Text(footer())));
        assert(before_footer.skip(first_out.len() as int) + Seq::<EventS>::empty()
            =~= before_footer.skip(first_out.len() as int));
        assert(out.deep_view() =~= first_out + before_footer.skip(first_out.len() as int) + seq![
            EventS::Text(footer()),
        ]);
        assert(ddv.drop_first() =~= ddv.skip(1));
    }
    Ok(out)
}

} // verus!
