use crate::bytes::names_view;
use std::hash::RandomState;
use vstd::prelude::*;

verus! {

/// `ordermap::OrderMap`: a map that keeps its keys in the order in which they
/// were first inserted.
#[verifier::external_type_specification]
#[verifier::external_body]
#[verifier::reject_recursive_types(K)]
#[verifier::reject_recursive_types(V)]
#[verifier::reject_recursive_types(S)]
pub struct ExOrderMap<K, V, S>(ordermap::OrderMap<K, V, S>);

/// What a map from byte keys to lists of byte values holds: its pairs, in the
/// map's order.
pub uninterp spec fn ordermap_entries(
    map: ordermap::OrderMap<Vec<u8>, Vec<Vec<u8>>, RandomState>,
) -> Seq<(Seq<u8>, Seq<Seq<u8>>)>;

/// Whether some pair of `entries` has the key `key`.
pub open spec fn has_key(entries: Seq<(Seq<u8>, Seq<Seq<u8>>)>, key: Seq<u8>) -> bool {
    exists|i: int| 0 <= i < entries.len() && (#[trigger] entries[i]).0 == key
}

/// Whether no key occurs twice in `entries`.
pub open spec fn keys_distinct(entries: Seq<(Seq<u8>, Seq<Seq<u8>>)>) -> bool {
    forall|i: int, j: int|
        0 <= i < j < entries.len() ==> (#[trigger] entries[i]).0 != (#[trigger] entries[j]).0
}

/// Calls `OrderMap::new`, which gives an empty map.
#[verifier::external_body]
pub(crate) fn ordermap_new() -> (map: ordermap::OrderMap<Vec<u8>, Vec<Vec<u8>>, RandomState>)
    ensures
        ordermap_entries(map) == Seq::<(Seq<u8>, Seq<Seq<u8>>)>::empty(),
{
    ordermap::OrderMap::new()
}

/// Calls `OrderMap::clone`, which gives a map of the same pairs in the same
/// order.
#[verifier::external_body]
pub(crate) fn ordermap_clone(
    map: &ordermap::OrderMap<Vec<u8>, Vec<Vec<u8>>, RandomState>,
) -> (copy: ordermap::OrderMap<Vec<u8>, Vec<Vec<u8>>, RandomState>)
    ensures
        ordermap_entries(copy) == ordermap_entries(*map),
{
    map.clone()
}

/// Calls `OrderMap::len`, the number of pairs.
#[verifier::external_body]
pub(crate) fn ordermap_len(map: &ordermap::OrderMap<Vec<u8>, Vec<Vec<u8>>, RandomState>) -> (n:
    usize)
    ensures
        n == ordermap_entries(*map).len(),
{
    map.len()
}

/// Calls `OrderMap::get_index_of`. The contract claims what the crate documents:
/// the position of the pair with that key, or `None` where no pair has it.
#[verifier::external_body]
pub(crate) fn ordermap_index_of(
    map: &ordermap::OrderMap<Vec<u8>, Vec<Vec<u8>>, RandomState>,
    key: &[u8],
) -> (found: Option<usize>)
    ensures
        match found {
            Some(i) => i < ordermap_entries(*map).len() && ordermap_entries(*map)[i as int].0
                == key@,
            None => !has_key(ordermap_entries(*map), key@),
        },
{
    map.get_index_of(key)
}

/// Calls `OrderMap::get_index`. The contract claims what the crate documents:
/// the pair at that position, or `None` where the position is past the end.
#[verifier::external_body]
pub(crate) fn ordermap_get_index(
    map: &ordermap::OrderMap<Vec<u8>, Vec<Vec<u8>>, RandomState>,
    index: usize,
) -> (pair: Option<(&Vec<u8>, &Vec<Vec<u8>>)>)
    ensures
        match pair {
            Some((key, values)) => index < ordermap_entries(*map).len() && key@
                == ordermap_entries(*map)[index as int].0 && names_view(values@)
                == ordermap_entries(*map)[index as int].1,
            None => index >= ordermap_entries(*map).len(),
        },
{
    map.get_index(index)
}

/// Calls `OrderMap::insert`. The contract claims what the crate documents: where
/// the key is in the map, it keeps its place and gets the new value; where it is
/// not, the pair is added last.
#[verifier::external_body]
pub(crate) fn ordermap_insert(
    map: &mut ordermap::OrderMap<Vec<u8>, Vec<Vec<u8>>, RandomState>,
    key: Vec<u8>,
    values: Vec<Vec<u8>>,
)
    ensures
        has_key(ordermap_entries(*old(map)), key@) ==> ordermap_entries(*final(map)).len()
            == ordermap_entries(*old(map)).len() && forall|i: int|
            0 <= i < ordermap_entries(*old(map)).len() ==> #[trigger] ordermap_entries(
                *final(map),
            )[i] == (if ordermap_entries(*old(map))[i].0 == key@ {
                (key@, names_view(values@))
            } else {
                ordermap_entries(*old(map))[i]
            }),
        !has_key(ordermap_entries(*old(map)), key@) ==> ordermap_entries(*final(map))
            == ordermap_entries(*old(map)).push((key@, names_view(values@))),
{
    map.insert(key, values);
}

} // verus!
