//! The Message-ID index: a hash map from Message-ID strings to arena indices.

use fnv::FnvHashMap;
use fnv::FnvHasher;
use vstd::prelude::*;

verus! {

/// `fnv::FnvHasher`, the hasher of the index. Nothing is said of it.
#[verifier::external_type_specification]
#[verifier::external_body]
pub struct ExFnvHasher(FnvHasher);

/// `std::hash::BuildHasherDefault`, which makes the hashers of the index.
/// Nothing is said of it.
#[verifier::external_type_specification]
#[verifier::external_body]
#[verifier::reject_recursive_types(H)]
pub struct ExBuildHasherDefault<H>(std::hash::BuildHasherDefault<H>);

/// The entries of an ID index: which arena index each Message-ID maps to.
pub uninterp spec fn id_entries(table: FnvHashMap<String, usize>) -> Map<Seq<char>, usize>;

/// The index that holds no entry.
pub open spec fn empty_index() -> Map<Seq<char>, usize> {
    Map::empty()
}

/// Calls `FnvHashMap::default`, which makes a map with the FNV hasher. The
/// new map holds no entry.
#[verifier::external_body]
pub(crate) fn id_table_new() -> (table: FnvHashMap<String, usize>)
    ensures
        id_entries(table) == empty_index(),
{
    FnvHashMap::default()
}

/// Calls `HashMap::get` on the index. The result is the value stored under
/// `key`, or `None` where the index has no such key.
#[verifier::external_body]
pub(crate) fn id_table_get(table: &FnvHashMap<String, usize>, key: &str) -> (found: Option<usize>)
    ensures
        found == (if id_entries(*table).contains_key(key@) {
            Some(id_entries(*table)[key@])
        } else {
            None
        }),
{
    table.get(key).copied()
}

/// Calls `HashMap::insert` on the index. Afterwards `key` maps to `value`
/// and every other key maps to what it mapped to before.
#[verifier::external_body]
pub(crate) fn id_table_insert(table: &mut FnvHashMap<String, usize>, key: String, value: usize)
    ensures
        id_entries(*final(table)) == id_entries(*old(table)).insert(key@, value),
{
    table.insert(key, value);
}

} // verus!
