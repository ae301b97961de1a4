//! The insertion-ordered table of the search: every edge that the search has
//! reached, under its identifier, with the place of the edge it was reached
//! from and the best cost known for it.

use indexmap::IndexMap;
use rustc_hash::FxHasher;
use std::hash::BuildHasherDefault;
use vstd::prelude::*;

verus! {

#[verifier::external_type_specification]
#[verifier::external_body]
#[verifier::reject_recursive_types(K)]
#[verifier::reject_recursive_types(V)]
#[verifier::reject_recursive_types(S)]
pub struct ExIndexMap<K, V, S>(IndexMap<K, V, S>);

#[verifier::external_type_specification]
#[verifier::external_body]
pub struct ExFxHasher(FxHasher);

#[verifier::external_type_specification]
#[verifier::external_body]
#[verifier::reject_recursive_types(H)]
pub struct ExBuildHasherDefault<H>(BuildHasherDefault<H>);

/// What the table holds, in insertion order: each identifier with the place
/// of its parent and its cost.
pub uninterp spec fn slots(table: IndexMap<u32, (usize, i64), BuildHasherDefault<FxHasher>>) -> Seq<
    (u32, (usize, i64)),
>;

/// `IndexMap::default`: a table that holds nothing.
#[verifier::external_body]
pub(crate) fn table_new() -> (table: IndexMap<u32, (usize, i64), BuildHasherDefault<FxHasher>>)
    ensures
        slots(table).len() == 0,
{
    IndexMap::default()
}

/// `IndexMap::get_index`: the identifier and value at a place, where the
/// place is below the table's length, and nothing elsewhere.
#[verifier::external_body]
pub(crate) fn table_get_index(
    table: &IndexMap<u32, (usize, i64), BuildHasherDefault<FxHasher>>,
    place: usize,
) -> (r: Option<(u32, (usize, i64))>)
    ensures
        place < slots(*table).len() ==> r == Some(slots(*table)[place as int]),
        place >= slots(*table).len() ==> r is None,
{
    table.get_index(place).map(|(k, v)| (*k, *v))
}

/// `IndexMap::get_full`: a place that holds the identifier, with the value
/// there; nothing where no place holds it.
#[verifier::external_body]
pub(crate) fn table_get_full(
    table: &IndexMap<u32, (usize, i64), BuildHasherDefault<FxHasher>>,
    id: u32,
) -> (r: Option<(usize, (usize, i64))>)
    ensures
        match r {
            Some((place, value)) => place < slots(*table).len() && slots(*table)[place as int] == (
                id,
                value,
            ),
            None => forall|i: int| 0 <= i < slots(*table).len() ==> (#[trigger] slots(*table)[i]).0 != id,
        },
{
    table.get_full(&id).map(|(place, _, v)| (place, *v))
}

/// `IndexMap::insert_full`: where a place holds the identifier, the value
/// there is replaced, the identifier stays in its place, and the place and
/// the old value come back; where none does, the pair is added after the
/// last place, and that place comes back with no old value.
#[verifier::external_body]
pub(crate) fn table_insert_full(
    table: &mut IndexMap<u32, (usize, i64), BuildHasherDefault<FxHasher>>,
    id: u32,
    value: (usize, i64),
) -> (r: (usize, Option<(usize, i64)>))
    ensures
        match r.1 {
            Some(before) => {
                &&& r.0 < slots(*old(table)).len()
                &&& slots(*old(table))[r.0 as int] == (id, before)
                &&& slots(*final(table)) == slots(*old(table)).update(r.0 as int, (id, value))
            },
            None => {
                &&& forall|i: int| 0 <= i < slots(*old(table)).len() ==> (#[trigger] slots(*old(table))[i]).0 != id
                &&& r.0 == slots(*old(table)).len()
                &&& slots(*final(table)) == slots(*old(table)).push((id, value))
            },
        },
{
    table.insert_full(id, value)
}

} // verus!
