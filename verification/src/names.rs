//! The tag names, attribute names and literal byte strings that the stream
//! operators recognize, each as a byte sequence (for contracts) and as a
//! byte array (for executable dispatch).

use vstd::prelude::*;

verus! {

pub open spec fn tu() -> Seq<u8> {
    seq![116u8, 117u8]
}

pub fn tu_bytes() -> (r: [u8; 2])
    ensures
        r@ == tu(),
{
    let a: [u8; 2] = [116, 117];
    proof {
        assert(a@ =~= tu());
    }
    a
}

pub open spec fn body() -> Seq<u8> {
    seq![98u8, 111u8, 100u8, 121u8]
}

pub fn body_bytes() -> (r: [u8; 4])
    ensures
        r@ == body(),
{
    let a: [u8; 4] = [98, 111, 100, 121];
    proof {
        assert(a@ =~= body());
    }
    a
}

pub open spec fn tmx() -> Seq<u8> {
    seq![116u8, 109u8, 120u8]
}

pub fn tmx_bytes() -> (r: [u8; 3])
    ensures
        r@ == tmx(),
{
    let a: [u8; 3] = [116, 109, 120];
    proof {
        assert(a@ =~= tmx());
    }
    a
}

pub open spec fn header() -> Seq<u8> {
    seq![104u8, 101u8, 97u8, 100u8, 101u8, 114u8]
}

pub fn header_bytes() -> (r: [u8; 6])
    ensures
        r@ == header(),
{
    let a: [u8; 6] = [104, 101, 97, 100, 101, 114];
    proof {
        assert(a@ =~= header());
    }
    a
}

pub open spec fn prop() -> Seq<u8> {
    seq![112u8, 114u8, 111u8, 112u8]
}

pub fn prop_bytes() -> (r: [u8; 4])
    ensures
        r@ == prop(),
{
    let a: [u8; 4] = [112, 114, 111, 112];
    proof {
        assert(a@ =~= prop());
    }
    a
}

pub open spec fn tuv() -> Seq<u8> {
    seq![116u8, 117u8, 118u8]
}

pub fn tuv_bytes() -> (r: [u8; 3])
    ensures
        r@ == tuv(),
{
    let a: [u8; 3] = [116, 117, 118];
    proof {
        assert(a@ =~= tuv());
    }
    a
}

pub open spec fn seg() -> Seq<u8> {
    seq![115u8, 101u8, 103u8]
}

pub fn seg_bytes() -> (r: [u8; 3])
    ensures
        r@ == seg(),
{
    let a: [u8; 3] = [115, 101, 103];
    proof {
        assert(a@ =~= seg());
    }
    a
}

/// The protective placeholder element `t5:n`.
pub open spec fn t5n() -> Seq<u8> {
    seq![116u8, 53u8, 58u8, 110u8]
}

pub fn t5n_bytes() -> (r: [u8; 4])
    ensures
        r@ == t5n(),
{
    let a: [u8; 4] = [116, 53, 58, 110];
    proof {
        assert(a@ =~= t5n());
    }
    a
}

/// The attribute `n` of the placeholder element.
pub open spec fn n_attr() -> Seq<u8> {
    seq![110u8]
}

pub fn n_attr_bytes() -> (r: [u8; 1])
    ensures
        r@ == n_attr(),
{
    let a: [u8; 1] = [110];
    proof {
        assert(a@ =~= n_attr());
    }
    a
}

pub open spec fn creationid() -> Seq<u8> {
    seq![99u8, 114u8, 101u8, 97u8, 116u8, 105u8, 111u8, 110u8, 105u8, 100u8]
}

pub fn creationid_bytes() -> (r: [u8; 10])
    ensures
        r@ == creationid(),
{
    let a: [u8; 10] = [99, 114, 101, 97, 116, 105, 111, 110, 105, 100];
    proof {
        assert(a@ =~= creationid());
    }
    a
}

pub open spec fn creationdate() -> Seq<u8> {
    seq![99u8, 114u8, 101u8, 97u8, 116u8, 105u8, 111u8, 110u8, 100u8, 97u8, 116u8, 101u8]
}

pub fn creationdate_bytes() -> (r: [u8; 12])
    ensures
        r@ == creationdate(),
{
    let a: [u8; 12] = [99, 114, 101, 97, 116, 105, 111, 110, 100, 97, 116, 101];
    proof {
        assert(a@ =~= creationdate());
    }
    a
}

/// The attribute `type` of a `prop` element.
pub open spec fn type_attr() -> Seq<u8> {
    seq![116u8, 121u8, 112u8, 101u8]
}

pub fn type_attr_bytes() -> (r: [u8; 4])
    ensures
        r@ == type_attr(),
{
    let a: [u8; 4] = [116, 121, 112, 101];
    proof {
        assert(a@ =~= type_attr());
    }
    a
}

/// The language attribute `xml:lang` of a `tuv` element.
pub open spec fn xml_lang() -> Seq<u8> {
    seq![120u8, 109u8, 108u8, 58u8, 108u8, 97u8, 110u8, 103u8]
}

pub fn xml_lang_bytes() -> (r: [u8; 8])
    ensures
        r@ == xml_lang(),
{
    let a: [u8; 8] = [120, 109, 108, 58, 108, 97, 110, 103];
    proof {
        assert(a@ =~= xml_lang());
    }
    a
}

/// The `prop` type naming the source document: `tmgr:docname`.
pub open spec fn tmgr_docname() -> Seq<u8> {
    seq![116u8, 109u8, 103u8, 114u8, 58u8, 100u8, 111u8, 99u8, 110u8, 97u8, 109u8, 101u8]
}

pub fn tmgr_docname_bytes() -> (r: [u8; 12])
    ensures
        r@ == tmgr_docname(),
{
    let a: [u8; 12] = [116, 109, 103, 114, 58, 100, 111, 99, 110, 97, 109, 101];
    proof {
        assert(a@ =~= tmgr_docname());
    }
    a
}

/// The `prop` type naming the context: `tmgr:context`.
pub open spec fn tmgr_context() -> Seq<u8> {
    seq![116u8, 109u8, 103u8, 114u8, 58u8, 99u8, 111u8, 110u8, 116u8, 101u8, 120u8, 116u8]
}

pub fn tmgr_context_bytes() -> (r: [u8; 12])
    ensures
        r@ == tmgr_context(),
{
    let a: [u8; 12] = [116, 109, 103, 114, 58, 99, 111, 110, 116, 101, 120, 116];
    proof {
        assert(a@ =~= tmgr_context());
    }
    a
}

/// The single byte `-`, standing in for an absent or empty context.
pub open spec fn dash() -> Seq<u8> {
    seq![45u8]
}

pub fn dash_bytes() -> (r: [u8; 1])
    ensures
        r@ == dash(),
{
    let a: [u8; 1] = [45];
    proof {
        assert(a@ =~= dash());
    }
    a
}

/// A single newline, put before each re-emitted unit.
pub open spec fn newline() -> Seq<u8> {
    seq![10u8]
}

pub fn newline_bytes() -> (r: [u8; 1])
    ensures
        r@ == newline(),
{
    let a: [u8; 1] = [10];
    proof {
        assert(a@ =~= newline());
    }
    a
}

/// The literal closing text `</body>\r</tmx>` appended to a merged or
/// filtered document.
pub open spec fn footer() -> Seq<u8> {
    seq![60u8, 47u8, 98u8, 111u8, 100u8, 121u8, 62u8, 13u8, 60u8, 47u8, 116u8, 109u8, 120u8, 62u8]
}

pub fn footer_bytes() -> (r: [u8; 14])
    ensures
        r@ == footer(),
{
    let a: [u8; 14] = [60, 47, 98, 111, 100, 121, 62, 13, 60, 47, 116, 109, 120, 62];
    proof {
        assert(a@ =~= footer());
    }
    a
}

} // verus!
