//! Streaming transformations over TMX documents: trim the first N translation
//! units, concatenate the bodies of several documents, or collapse duplicate
//! units by a composite content/provenance key.
//!
//! The operators work on an owned model of structural XML events; an external
//! tokenizer turns bytes into events and the exact serialized form of every
//! event is part of each operator's contract.

use vstd::prelude::*;

pub mod events;
pub mod concat;
pub mod filterop;
pub mod keys;
pub mod names;
pub mod ser;
pub mod xmlio;
pub mod timestamp;
pub mod trim;

verus! {

/// Why an operation could not produce an output document.
#[derive(Debug, PartialEq, Eq)]
pub enum TmxError {
    /// The input is not valid UTF-8 text.
    Encoding,
    /// The tokenizer failed at this byte offset.
    Parse(u64),
    /// No input document was given.
    NoInput,
    /// The end of the document came before `<body>` opened.
    BodyNotFound,
    /// The end of the document came before `</body>`.
    BodyNotClosed,
}

/// Drops the first `n` translation units of the TMX document `input` and
/// returns the remaining document's bytes: the tokenizer's events, put
/// through the trim machine, serialized back. Succeeds exactly when the
/// input tokenizes; `n` alone never causes a failure.
pub fn trim(input: &[u8], n: usize) -> (r: Result<Vec<u8>, TmxError>)
    ensures
        r is Ok <==> xmlio::tok_of(input@) is Some,
        r is Ok ==> r->Ok_0@ == ser::ser_events(
            trim::trim_spec(xmlio::tok_of(input@)->Some_0, n as nat),
        ),
        r is Err ==> (r->Err_0 is Encoding <==> !vstd::utf8::valid_utf8(input@)),
        r is Err ==> r->Err_0 is Encoding || r->Err_0 is Parse,
{
    match xmlio::parse_events(input) {
        Ok(evs) => {
            proof {
                assert(evs.deep_view() == xmlio::tok_of(input@)->Some_0);
            }
            let t = trim::trim_events(&evs, n);
            let out = ser::serialize_events(&t);
            Ok(out)
        },
        Err(e) => Err(e),
    }
}

/// Merges the translation units of the given TMX documents into the first
/// one's body: each document's events go through the concat machines and
/// the merged event stream is serialized back. Succeeds exactly when at
/// least one document is given, every document tokenizes, and the merge
/// machines succeed on those streams; the error says which of the three
/// failed.
pub fn concat(inputs: &Vec<Vec<u8>>, unprotect: bool) -> (r: Result<Vec<u8>, TmxError>)
    ensures
        r is Ok <==> (inputs@.len() > 0 && xmlio::tok_all(inputs.deep_view()) is Some
            && concat::concat_spec(xmlio::tok_all(inputs.deep_view())->Some_0, unprotect) is Ok),
        r is Ok ==> r->Ok_0@ == ser::ser_events(
            concat::concat_spec(xmlio::tok_all(inputs.deep_view())->Some_0, unprotect)->Ok_0,
        ),
        inputs@.len() == 0 ==> r == Err::<Vec<u8>, TmxError>(TmxError::NoInput),
        inputs@.len() > 0 && xmlio::tok_all(inputs.deep_view()) is None ==> r is Err && (r->Err_0
            is Encoding || r->Err_0 is Parse),
        inputs@.len() > 0 && xmlio::tok_all(inputs.deep_view()) is Some && concat::concat_spec(
            xmlio::tok_all(inputs.deep_view())->Some_0,
            unprotect,
        ) is Err ==> r == Err::<Vec<u8>, TmxError>(
            concat::concat_spec(xmlio::tok_all(inputs.deep_view())->Some_0, unprotect)->Err_0,
        ),
{
    let ghost idv = inputs.deep_view();
    if inputs.len() == 0 {
        return Err(TmxError::NoInput);
    }
    let mut docs: Vec<Vec<events::XmlEvent>> = Vec::new();
    let k = inputs.len();
    let mut i: usize = 0;
    while i < k
        invariant
            0 <= i <= k,
            k == inputs@.len(),
            idv == inputs.deep_view(),
            idv.len() == k,
            forall|j: int| 0 <= j < k ==> idv[j] == #[trigger] inputs@[j].deep_view(),
            docs@.len() == i,
            forall|j: int|
                0 <= j < i ==> #[trigger] xmlio::tok_of(idv[j]) is Some && docs.deep_view()[j]
                    == xmlio::tok_of(idv[j])->Some_0,
        decreases k - i,
    {
        proof {
            assert(inputs@[i as int].deep_view() =~= inputs@[i as int]@);
        }
        match xmlio::parse_events(inputs[i].as_slice()) {
            Ok(evs) => {
                let ghost docs0 = docs.deep_view();
                let ghost evs_dv = evs.deep_view();
                docs.push(evs);
                proof {
                    assert forall|j: int|
                        0 <= j < i + 1 implies #[trigger] xmlio::tok_of(idv[j]) is Some
                        && docs.deep_view()[j] == xmlio::tok_of(idv[j])->Some_0 by {
                        if j < i {
                            assert(docs.deep_view()[j] == docs0[j]);
                        } else {
                            assert(docs.deep_view()[j] == evs_dv);
                        }
                    }
                }
            },
            Err(e) => {
                proof {
                    assert(xmlio::tok_of(idv[i as int]) is None);
                    xmlio::lemma_tok_all_char(idv);
                    assert(xmlio::tok_all(idv) is None);
                }
                return Err(e);
            },
        }
        i = i + 1;
    }
    proof {
        xmlio::lemma_tok_all_char(idv);
        assert(xmlio::tok_all(idv) is Some);
        assert(xmlio::tok_all(idv)->Some_0 =~= docs.deep_view());
    }
    match concat::concat_events(&docs, unprotect) {
        Ok(out_evs) => {
            let out = ser::serialize_events(&out_evs);
            proof {
                assert(concat::concat_spec(docs.deep_view(), unprotect) is Ok);
                assert(out@ == ser::ser_events(
                    concat::concat_spec(docs.deep_view(), unprotect)->Ok_0,
                ));
            }
            Ok(out)
        },
        Err(e) => Err(e),
    }
}

/// Collapses duplicate translation units of the TMX document `input` under
/// the given options: the tokenizer's events go through the dedup filter
/// machine and the surviving units are serialized back. Succeeds exactly
/// when the input tokenizes.
pub fn filter(input: &[u8], opts: keys::FilterOptions) -> (r: Result<Vec<u8>, TmxError>)
    ensures
        r is Ok <==> xmlio::tok_of(input@) is Some,
        r is Ok ==> r->Ok_0@ == ser::ser_events(
            filterop::filter_spec(xmlio::tok_of(input@)->Some_0, opts),
        ),
        r is Err ==> (r->Err_0 is Encoding <==> !vstd::utf8::valid_utf8(input@)),
        r is Err ==> r->Err_0 is Encoding || r->Err_0 is Parse,
{
    match xmlio::parse_events(input) {
        Ok(evs) => {
            proof {
                assert(evs.deep_view() == xmlio::tok_of(input@)->Some_0);
            }
            let f = filterop::filter_events(&evs, opts);
            let out = ser::serialize_events(&f);
            Ok(out)
        },
        Err(e) => Err(e),
    }
}

} // verus!
