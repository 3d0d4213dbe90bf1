//! Trusted declarations for the insertion-ordered map of the `indexmap`
//! crate. A folded-span level keeps its entries in a `Vec` in first-seen
//! order and uses an `IndexMap` from entry name to position in that `Vec`
//! for constant-time lookup by name.
//!
//! The map is opaque to the verifier, so its contents are given a name,
//! [`name_index_entries`], and each method the library calls is wrapped in
//! a function whose contract states, over that name, what the crate's
//! source shows.

use vstd::prelude::*;

verus! {

#[verifier::external_type_specification]
#[verifier::external_body]
#[verifier::reject_recursive_types(K)]
#[verifier::reject_recursive_types(V)]
#[verifier::reject_recursive_types(S)]
pub struct ExIndexMap<K, V, S>(indexmap::IndexMap<K, V, S>);

/// An insertion-ordered map from entry name to position, with the hasher
/// that `indexmap` uses by default.
pub type NameIndex = indexmap::IndexMap<String, usize, std::collections::hash_map::RandomState>;

/// What a name index holds: each stored name, as its character sequence,
/// mapped to the value stored for it.
pub uninterp spec fn name_index_entries(m: NameIndex) -> Map<Seq<char>, usize>;

/// The model of a map with nothing in it.
pub open spec fn no_entries() -> Map<Seq<char>, usize> {
    Map::empty()
}

/// Relies on `indexmap::IndexMap::new`: a newly created map is empty.
#[verifier::external_body]
pub(crate) fn name_index_new() -> (r: NameIndex)
    ensures
        name_index_entries(r) == no_entries(),
{
    indexmap::IndexMap::new()
}

/// Relies on `indexmap::IndexMap::get`: returns the value stored for an
/// equivalent key, or `None` when the key is absent. `String` keys compare
/// by their characters.
#[verifier::external_body]
pub(crate) fn name_index_get(m: &NameIndex, name: &str) -> (r: Option<usize>)
    ensures
        r == if name_index_entries(*m).dom().contains(name@) {
            Some(name_index_entries(*m)[name@])
        } else {
            None::<usize>
        },
{
    m.get(name).copied()
}

/// Relies on `indexmap::IndexMap::insert`: a key not yet present is
/// inserted with its value; the callers here never insert a present key.
#[verifier::external_body]
pub(crate) fn name_index_insert(m: &mut NameIndex, name: String, value: usize)
    requires
        !name_index_entries(*old(m)).dom().contains(name@),
    ensures
        name_index_entries(*final(m)) == name_index_entries(*old(m)).insert(name@, value),
{
    m.insert(name, value);
}

} // verus!
