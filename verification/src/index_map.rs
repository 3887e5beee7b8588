//! Trusted bindings for the insertion-ordered map of the `indexmap` crate,
//! in the one instantiation this library uses: line numbers mapped to a
//! line's text and match offsets.  The map's contents are modelled as the
//! sequence of its key-value entries in insertion order, which is how the
//! crate itself presents them.

use vstd::prelude::*;
use indexmap::IndexMap;

verus! {

#[verifier::external_type_specification]
#[verifier::external_body]
#[verifier::reject_recursive_types(K)]
#[verifier::reject_recursive_types(V)]
#[verifier::reject_recursive_types(S)]
pub struct ExIndexMap<K, V, S>(IndexMap<K, V, S>);

/// The entries held by the map, as key-value pairs in insertion order.
pub uninterp spec fn line_map_entries(m: IndexMap<i32, (Vec<u8>, Vec<usize>)>) -> Seq<
    (i32, (Seq<u8>, Seq<usize>)),
>;

/// Some entry carries the given key.
pub open spec fn has_key(entries: Seq<(i32, (Seq<u8>, Seq<usize>))>, key: i32) -> bool {
    exists|j: int| 0 <= j < entries.len() && (#[trigger] entries[j]).0 == key
}

/// Some entry maps the given key to the given text and offsets.
pub open spec fn key_maps_to(
    entries: Seq<(i32, (Seq<u8>, Seq<usize>))>,
    key: i32,
    text: Seq<u8>,
    offsets: Seq<usize>,
) -> bool {
    exists|j: int| 0 <= j < entries.len() && #[trigger] entries[j] == (key, (text, offsets))
}

/// Relies on indexmap::IndexMap::new: creates an empty map.
#[verifier::external_body]
pub(crate) fn line_map_new() -> (m: IndexMap<i32, (Vec<u8>, Vec<usize>)>)
    ensures
        line_map_entries(m) == Seq::<(i32, (Seq<u8>, Seq<usize>))>::empty(),
{
    IndexMap::new()
}

/// Relies on indexmap::IndexMap::insert: a key not yet present is inserted
/// together with its value, last in insertion order.
#[verifier::external_body]
pub(crate) fn line_map_insert(
    m: &mut IndexMap<i32, (Vec<u8>, Vec<usize>)>,
    key: i32,
    value: (Vec<u8>, Vec<usize>),
)
    requires
        !has_key(line_map_entries(*old(m)), key),
    ensures
        line_map_entries(*final(m)) == line_map_entries(*old(m)).push(
            (key, (value.0@, value.1@)),
        ),
{
    m.insert(key, value);
}

/// Relies on indexmap::IndexMap::len: the number of entries in the map.
#[verifier::external_body]
pub(crate) fn line_map_len(m: &IndexMap<i32, (Vec<u8>, Vec<usize>)>) -> (n: usize)
    ensures
        n == line_map_entries(*m).len(),
{
    m.len()
}

/// Relies on indexmap::IndexMap::get: the value stored under an equivalent
/// key, if one is present.
#[verifier::external_body]
pub(crate) fn line_map_get(m: &IndexMap<i32, (Vec<u8>, Vec<usize>)>, key: i32) -> (r: Option<
    &(Vec<u8>, Vec<usize>),
>)
    ensures
        r is Some <==> has_key(line_map_entries(*m), key),
        r matches Some(v) ==> key_maps_to(line_map_entries(*m), key, v.0@, v.1@),
{
    m.get(&key)
}

/// Relies on indexmap::IndexMap::get_index: the key-value pair at a position
/// of the insertion order, if the position is within the map.
#[verifier::external_body]
pub(crate) fn line_map_get_index(m: &IndexMap<i32, (Vec<u8>, Vec<usize>)>, i: usize) -> (r:
    Option<(&i32, &(Vec<u8>, Vec<usize>))>)
    ensures
        r matches Some(p) ==> i < line_map_entries(*m).len() && *p.0 == line_map_entries(*m)[i as int].0 && line_map_entries(*m)[i as int].1 == (p.1.0@, p.1.1@),
        r is None <==> i >= line_map_entries(*m).len(),
{
    m.get_index(i)
}

} // verus!
