use crate::bytes::{decimal, is_digit, lemma_decimal, lemma_first_index_is};
use crate::git_object::{kind_bytes, lemma_kind_names, ObjectType};
use crate::kvlm_laws::{lemma_kvlm_round_trip, well_formed};
use crate::store::{
    framed, object_address, parsed_object, stored_object, unframed, view_kind, written_payload,
    ObjectView,
};
use crate::tree::leaves_writable;
use crate::tree_laws::{lemma_tree_emit_stable, lemma_tree_round_trip, ordered};
use crate::zlib::{zlib_deflated, zlib_inflated};
use vstd::prelude::*;

verus! {

/// Whether an object can be written: every entry of a tree can, and a commit
/// or a tag is well formed.
pub open spec fn object_writable(object: ObjectView) -> bool {
    match object {
        ObjectView::Blob(_) => true,
        ObjectView::Tree(leaves) => leaves_writable(leaves),
        ObjectView::Commit(kvlm) => well_formed(kvlm),
        ObjectView::Tag(kvlm) => well_formed(kvlm),
    }
}

/// Whether an object is in canonical form: it can be written, and the entries
/// of a tree stand in canonical order with modes of six digits.
pub open spec fn object_canonical(object: ObjectView) -> bool {
    &&& object_writable(object)
    &&& object matches ObjectView::Tree(leaves) ==> ordered(leaves) && forall|i: int|
        0 <= i < leaves.len() ==> (#[trigger] leaves[i]).mode.len() == 6
}

/// A frame is taken apart into the kind and the payload that it was made of.
pub proof fn lemma_unframe_frame(kind: ObjectType, payload: Seq<u8>)
    ensures
        unframed(framed(kind, payload)) == Some((kind, payload)),
{
    let name = kind_bytes(kind);
    let digits = decimal(payload.len());
    let raw = framed(kind, payload);
    lemma_kind_names(kind);
    lemma_decimal(payload.len());
    let space = name.len() as int;
    let end = space + 1 + digits.len();
    assert forall|k: int| 0 <= k < space implies raw[k] != 32u8 && raw[k] != 0u8 by {
        assert(raw[k] == name[k]);
    }
    assert(raw[space] == 32u8);
    assert forall|k: int| space < k < end implies raw[k] != 0u8 by {
        assert(raw[k] == digits[k - space - 1]);
        assert(is_digit(digits[k - space - 1]));
    }
    assert(raw[end] == 0u8);
    lemma_first_index_is(raw, 32u8, 0, space);
    lemma_first_index_is(raw, 0u8, 0, end);
    assert(raw.take(space) =~= name);
    assert(raw.subrange(space + 1, end) =~= digits);
    assert(raw.skip(end + 1) =~= payload);
}

/// Reading what was written gives the object back: an object in canonical form
/// is read from its framed bytes as itself.
pub proof fn lemma_object_round_trip(object: ObjectView)
    requires
        object_canonical(object),
    ensures
        written_payload(object) matches Some(payload) && parsed_object(
            framed(view_kind(object), payload),
        ) == Some(object),
{
    let payload = written_payload(object)->0;
    lemma_unframe_frame(view_kind(object), payload);
    match object {
        ObjectView::Blob(_) => {},
        ObjectView::Tree(leaves) => {
            lemma_tree_round_trip(leaves);
        },
        ObjectView::Commit(kvlm) => {
            lemma_kvlm_round_trip(kvlm);
        },
        ObjectView::Tag(kvlm) => {
            lemma_kvlm_round_trip(kvlm);
        },
    }
}

/// The same through the store, as far as the codec goes: where inflating the
/// deflated frame gives the frame, the stored file is read as the object.
pub proof fn lemma_store_round_trip(object: ObjectView)
    requires
        object_canonical(object),
    ensures
        written_payload(object) matches Some(payload) && (zlib_inflated(
            zlib_deflated(framed(view_kind(object), payload)),
        ) == Some(framed(view_kind(object), payload)) ==> stored_object(
            zlib_deflated(framed(view_kind(object), payload)),
        ) == Some(object)),
{
    lemma_object_round_trip(object);
}

/// What was written keeps its bytes and its address through a reading: the
/// object read from written bytes is written as the same payload again.
pub proof fn lemma_object_rewrite(object: ObjectView)
    requires
        object_writable(object),
    ensures
        written_payload(object) matches Some(payload) && parsed_object(
            framed(view_kind(object), payload),
        ) matches Some(back) && view_kind(back) == view_kind(object) && written_payload(back)
            == Some(payload) && object_address(view_kind(back), payload) == object_address(
            view_kind(object),
            payload,
        ),
{
    let payload = written_payload(object)->0;
    lemma_unframe_frame(view_kind(object), payload);
    match object {
        ObjectView::Blob(_) => {},
        ObjectView::Tree(leaves) => {
            lemma_tree_emit_stable(leaves);
        },
        ObjectView::Commit(kvlm) => {
            lemma_kvlm_round_trip(kvlm);
        },
        ObjectView::Tag(kvlm) => {
            lemma_kvlm_round_trip(kvlm);
        },
    }
}

/// The address depends on the kind and the payload alone: the same bytes have
/// the same address.
pub proof fn lemma_address_deterministic(kind: ObjectType, first: Seq<u8>, second: Seq<u8>)
    requires
        first == second,
    ensures
        object_address(kind, first) == object_address(kind, second),
{
}

} // verus!
