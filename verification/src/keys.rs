//! The composite dedup key of a translation unit: a structural combination
//! of typed tokens over the unit's source segment, its provenance fields
//! and, optionally, its target segments. Two units collide exactly when
//! their selected fields agree, so the key itself is the deterministic,
//! order-sensitive combination the dedup filter needs.

use vstd::prelude::*;

use crate::events::bytes_eq;
use crate::events::dup_bytes;
use crate::names::dash;
use crate::names::dash_bytes;

verus! {

/// One token of a segment buffer: the name of an element event, or the raw
/// bytes of a text-like event.
pub enum KeyToken {
    Name(Vec<u8>),
    Raw(Vec<u8>),
}

pub enum KeyTokenS {
    Name(Seq<u8>),
    Raw(Seq<u8>),
}

impl View for KeyToken {
    type V = KeyTokenS;

    open spec fn view(&self) -> KeyTokenS {
        match self {
            KeyToken::Name(b) => KeyTokenS::Name(b@),
            KeyToken::Raw(b) => KeyTokenS::Raw(b@),
        }
    }
}

impl DeepView for KeyToken {
    type V = KeyTokenS;

    open spec fn deep_view(&self) -> KeyTokenS {
        self.view()
    }
}

/// Which fields take part in the key.
#[derive(Clone, Copy)]
pub struct FilterOptions {
    pub skip_author: bool,
    pub skip_document: bool,
    pub skip_context: bool,
    pub keep_diff_targets: bool,
}

/// The composite key. A `None` field contributes nothing, either because
/// the option skips it or because the unit does not carry it.
pub struct DedupKey {
    pub src: Vec<KeyToken>,
    pub author: Option<Vec<u8>>,
    pub document: Option<Vec<u8>>,
    pub context: Option<Vec<u8>>,
    pub targets: Option<Vec<KeyToken>>,
}

pub struct DedupKeyS {
    pub src: Seq<KeyTokenS>,
    pub author: Option<Seq<u8>>,
    pub document: Option<Seq<u8>>,
    pub context: Option<Seq<u8>>,
    pub targets: Option<Seq<KeyTokenS>>,
}

impl View for DedupKey {
    type V = DedupKeyS;

    open spec fn view(&self) -> DedupKeyS {
        DedupKeyS {
            src: self.src.deep_view(),
            author: self.author.deep_view(),
            document: self.document.deep_view(),
            context: self.context.deep_view(),
            targets: self.targets.deep_view(),
        }
    }
}

impl DeepView for DedupKey {
    type V = DedupKeyS;

    open spec fn deep_view(&self) -> DedupKeyS {
        self.view()
    }
}

/// The byte with every ASCII lowercase letter raised to its uppercase
/// form.
pub open spec fn upper_byte(b: u8) -> u8 {
    if 97 <= b <= 122 {
        (b - 32) as u8
    } else {
        b
    }
}

/// The sequence with all ASCII letters upper-cased.
pub open spec fn upper_seq(s: Seq<u8>) -> Seq<u8> {
    Seq::new(s.len(), |i: int| upper_byte(s[i]))
}

/// Upper-cases every ASCII letter of the value.
pub fn upper_ascii(v: &Vec<u8>) -> (r: Vec<u8>)
    ensures
        r@ == upper_seq(v@),
{
    let mut out: Vec<u8> = Vec::new();
    let n = v.len();
    let mut i: usize = 0;
    while i < n
        invariant
            0 <= i <= n,
            n == v@.len(),
            out@.len() == i,
            forall|j: int| 0 <= j < i ==> out@[j] == upper_byte(v@[j]),
        decreases n - i,
    {
        let b = v[i];
        if 97 <= b && b <= 122 {
            out.push(b - 32);
        } else {
            out.push(b);
        }
        i = i + 1;
    }
    assert(out@ =~= upper_seq(v@));
    out
}

/// The key's context component: the context value itself, or the single
/// byte `-` when the context is absent or empty.
pub open spec fn context_component(ctx: Option<Seq<u8>>) -> Seq<u8> {
    match ctx {
        None => dash(),
        Some(c) => if c.len() == 0 {
            dash()
        } else {
            c
        },
    }
}

/// The composite key over the unit's fields, honoring the options: the
/// source tokens always; the upper-cased author unless skipped or absent;
/// the document name unless skipped or absent; the context (with `-` for
/// absent or empty) unless skipped; the target tokens only when differing
/// targets are kept apart.
pub open spec fn key_of(
    src: Seq<KeyTokenS>,
    author: Option<Seq<u8>>,
    document: Option<Seq<u8>>,
    context: Option<Seq<u8>>,
    targets: Seq<KeyTokenS>,
    o: FilterOptions,
) -> DedupKeyS {
    DedupKeyS {
        src: src,
        author: if o.skip_author {
            None
        } else {
            match author {
                Some(a) => Some(upper_seq(a)),
                None => None,
            }
        },
        document: if o.skip_document {
            None
        } else {
            document
        },
        context: if o.skip_context {
            None
        } else {
            Some(context_component(context))
        },
        targets: if o.keep_diff_targets {
            Some(targets)
        } else {
            None
        },
    }
}

/// A unit with no context at all and a unit with an explicit empty context
/// key alike: both contribute the single byte `-`.
pub proof fn lemma_missing_context_default(
    src: Seq<KeyTokenS>,
    author: Option<Seq<u8>>,
    document: Option<Seq<u8>>,
    targets: Seq<KeyTokenS>,
    o: FilterOptions,
)
    ensures
        key_of(src, author, document, None, targets, o) == key_of(
            src,
            author,
            document,
            Some(Seq::empty()),
            targets,
            o,
        ),
{
}

/// With differing targets kept apart, two keys over different target
/// tokens differ, however the rest agrees.
pub proof fn lemma_diff_targets_distinct(
    src: Seq<KeyTokenS>,
    author: Option<Seq<u8>>,
    document: Option<Seq<u8>>,
    context: Option<Seq<u8>>,
    t1: Seq<KeyTokenS>,
    t2: Seq<KeyTokenS>,
    o: FilterOptions,
)
    requires
        o.keep_diff_targets,
        t1 != t2,
    ensures
        key_of(src, author, document, context, t1, o) != key_of(
            src,
            author,
            document,
            context,
            t2,
            o,
        ),
{
}

/// Without that option the target tokens play no part: the keys agree
/// whatever the targets hold.
pub proof fn lemma_targets_ignored(
    src: Seq<KeyTokenS>,
    author: Option<Seq<u8>>,
    document: Option<Seq<u8>>,
    context: Option<Seq<u8>>,
    t1: Seq<KeyTokenS>,
    t2: Seq<KeyTokenS>,
    o: FilterOptions,
)
    requires
        !o.keep_diff_targets,
    ensures
        key_of(src, author, document, context, t1, o) == key_of(
            src,
            author,
            document,
            context,
            t2,
            o,
        ),
{
}

/// Compares two optional byte values.
pub fn opt_bytes_eq(a: &Option<Vec<u8>>, b: &Option<Vec<u8>>) -> (r: bool)
    ensures
        r == (a.deep_view() == b.deep_view()),
{
    match (a, b) {
        (None, None) => true,
        (Some(x), Some(y)) => {
            proof {
                assert(x.deep_view() =~= x@);
                assert(y.deep_view() =~= y@);
            }
            bytes_eq(x.as_slice(), y.as_slice())
        },
        _ => false,
    }
}

/// Compares two token sequences.
pub fn tokens_eq(a: &Vec<KeyToken>, b: &Vec<KeyToken>) -> (r: bool)
    ensures
        r == (a.deep_view() == b.deep_view()),
{
    if a.len() != b.len() {
        assert(a.deep_view().len() != b.deep_view().len());
        return false;
    }
    let n = a.len();
    let mut i: usize = 0;
    while i < n
        invariant
            0 <= i <= n,
            n == a@.len(),
            n == b@.len(),
            a.deep_view().len() == n,
            b.deep_view().len() == n,
            forall|j: int| 0 <= j < n ==> a.deep_view()[j] == #[trigger] a@[j]@,
            forall|j: int| 0 <= j < n ==> b.deep_view()[j] == #[trigger] b@[j]@,
            forall|j: int| 0 <= j < i ==> a.deep_view()[j] == b.deep_view()[j],
        decreases n - i,
    {
        let same = match (&a[i], &b[i]) {
            (KeyToken::Name(x), KeyToken::Name(y)) => bytes_eq(x.as_slice(), y.as_slice()),
            (KeyToken::Raw(x), KeyToken::Raw(y)) => bytes_eq(x.as_slice(), y.as_slice()),
            _ => false,
        };
        if !same {
            assert(a.deep_view()[i as int] != b.deep_view()[i as int]);
            return false;
        }
        i = i + 1;
    }
    assert(a.deep_view() =~= b.deep_view());
    true
}

/// Compares two composite keys.
pub fn key_eq(a: &DedupKey, b: &DedupKey) -> (r: bool)
    ensures
        r == (a@ == b@),
{
    if !tokens_eq(&a.src, &b.src) {
        return false;
    }
    if !opt_bytes_eq(&a.author, &b.author) {
        return false;
    }
    if !opt_bytes_eq(&a.document, &b.document) {
        return false;
    }
    if !opt_bytes_eq(&a.context, &b.context) {
        return false;
    }
    let t = match (&a.targets, &b.targets) {
        (None, None) => true,
        (Some(x), Some(y)) => tokens_eq(x, y),
        _ => false,
    };
    if !t {
        return false;
    }
    true
}

/// Builds the key's context component.
pub fn context_bytes(ctx: &Option<Vec<u8>>) -> (r: Vec<u8>)
    ensures
        r@ == context_component(ctx.deep_view()),
{
    match ctx {
        None => {
            let d = dash_bytes();
            let mut v: Vec<u8> = Vec::new();
            v.push(d[0]);
            assert(v@ =~= dash());
            v
        },
        Some(c) => {
            proof {
                assert(c.deep_view() =~= c@);
            }
            if c.len() == 0 {
                let d = dash_bytes();
                let mut v: Vec<u8> = Vec::new();
                v.push(d[0]);
                assert(v@ =~= dash());
                v
            } else {
                dup_bytes(c)
            }
        },
    }
}

} // verus!
