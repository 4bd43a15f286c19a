//! The insertion-ordered table from node identifiers to node slots.
//!
//! The table is an `indexmap::IndexMap`. Verus does not look inside it: the
//! functions below state what the map's methods do to its entries, and those
//! statements are taken on trust.

use indexmap::IndexMap;
use vstd::prelude::*;

verus! {

/// `indexmap::IndexMap`, as a type that Verus carries through without
/// looking inside.
#[verifier::external_type_specification]
#[verifier::external_body]
#[verifier::reject_recursive_types(K)]
#[verifier::reject_recursive_types(V)]
#[verifier::reject_recursive_types(S)]
pub struct ExIndexMap<K, V, S>(IndexMap<K, V, S>);

/// The key-value pairs of a node table, in insertion order.
pub uninterp spec fn table_entries(m: IndexMap<u64, usize>) -> Seq<(u64, usize)>;

/// Whether `key` is the key of some entry of `entries`.
pub open spec fn has_key(entries: Seq<(u64, usize)>, key: u64) -> bool {
    exists|i: int| 0 <= i < entries.len() && (#[trigger] entries[i]).0 == key
}

/// `IndexMap::new`: a map without entries.
#[verifier::external_body]
pub(crate) fn table_new() -> (m: IndexMap<u64, usize>)
    ensures
        table_entries(m) == Seq::<(u64, usize)>::empty(),
{
    IndexMap::new()
}

/// `IndexMap::get`: the value stored under `key`, or `None` where no entry
/// has that key.
#[verifier::external_body]
pub(crate) fn table_get(m: &IndexMap<u64, usize>, key: u64) -> (r: Option<usize>)
    ensures
        match r {
            Some(v) => exists|i: int|
                0 <= i < table_entries(*m).len() && #[trigger] table_entries(*m)[i] == (key, v),
            None => !has_key(table_entries(*m), key),
        },
{
    m.get(&key).copied()
}

/// `IndexMap::get_index`: the entry at position `i`, or `None` where `i` is
/// not below the length.
#[verifier::external_body]
pub(crate) fn table_get_index(m: &IndexMap<u64, usize>, i: usize) -> (r: Option<(u64, usize)>)
    ensures
        r == if i < table_entries(*m).len() {
            Some(table_entries(*m)[i as int])
        } else {
            None
        },
{
    m.get_index(i).map(|(k, v)| (*k, *v))
}

/// `IndexMap::insert`: a key that the map lacks is appended as the last
/// entry and `None` comes back; for a key that is there, its entry keeps its
/// place, takes the new value, and the old value comes back.
#[verifier::external_body]
pub(crate) fn table_insert(m: &mut IndexMap<u64, usize>, key: u64, value: usize) -> (r: Option<
    usize,
>)
    ensures
        match r {
            None => !has_key(table_entries(*old(m)), key) && table_entries(*final(m))
                == table_entries(*old(m)).push((key, value)),
            Some(v) => exists|i: int|
                0 <= i < table_entries(*old(m)).len() && #[trigger] table_entries(*old(m))[i] == (
                    key,
                    v,
                ) && table_entries(*final(m)) == table_entries(*old(m)).update(i, (key, value)),
        },
{
    m.insert(key, value)
}

} // verus!
