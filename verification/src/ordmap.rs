//! Trusted boundary around the insertion-ordered attribute map of the
//! schema builder, which an outside crate provides.

use crate::props::SchemaProps;
use indexmap::IndexMap;
use vstd::prelude::*;

verus! {

#[verifier::external_type_specification]
#[verifier::external_body]
#[verifier::reject_recursive_types(K)]
#[verifier::reject_recursive_types(V)]
#[verifier::reject_recursive_types(S)]
pub struct ExIndexMap<K, V, S>(IndexMap<K, V, S>);

/// What an attribute map holds: its (name, props) pairs in insertion order.
pub uninterp spec fn attr_entries(m: IndexMap<String, SchemaProps>) -> Seq<(Seq<char>, SchemaProps)>;

/// Whether some pair of the sequence carries the given name.
pub open spec fn has_name(s: Seq<(Seq<char>, SchemaProps)>, n: Seq<char>) -> bool {
    exists|i: int| 0 <= i < s.len() && s[i].0 == n
}

/// Relies on indexmap::IndexMap::new: the new map holds no entries.
#[verifier::external_body]
pub(crate) fn attrs_new() -> (r: IndexMap<String, SchemaProps>)
    ensures
        attr_entries(r) == Seq::<(Seq<char>, SchemaProps)>::empty(),
{
    IndexMap::new()
}

/// Relies on indexmap::IndexMap::len: the number of entries.
#[verifier::external_body]
pub(crate) fn attrs_len(m: &IndexMap<String, SchemaProps>) -> (r: usize)
    ensures
        r == attr_entries(*m).len(),
{
    m.len()
}

/// Relies on indexmap::IndexMap::contains_key.
#[verifier::external_body]
pub(crate) fn attrs_contains(m: &IndexMap<String, SchemaProps>, name: &str) -> (r: bool)
    ensures
        r == has_name(attr_entries(*m), name@),
{
    m.contains_key(name)
}

/// Relies on indexmap::IndexMap::insert: a key not yet present is
/// appended last in order.
#[verifier::external_body]
pub(crate) fn attrs_insert(m: &mut IndexMap<String, SchemaProps>, name: String, props: SchemaProps)
    requires
        !has_name(attr_entries(*old(m)), name@),
    ensures
        attr_entries(*final(m)) == attr_entries(*old(m)).push((name@, props)),
{
    m.insert(name, props);
}

/// Relies on indexmap::IndexMap::into_iter: entries come out in order.
#[verifier::external_body]
pub(crate) fn attrs_into_vec(m: IndexMap<String, SchemaProps>) -> (r: Vec<(String, SchemaProps)>)
    ensures
        r@.map_values(|p: (String, SchemaProps)| (p.0@, p.1)) == attr_entries(m),
{
    m.into_iter().collect()
}

} // verus!
