//! The insertion-ordered table from road segments to snow depths.
//!
//! The table is an `indexmap::IndexMap`. Verus does not look inside it: the
//! functions below state what the map's methods do to its entries, and those
//! statements are taken on trust.

use indexmap::IndexMap;
use vstd::prelude::*;

verus! {

/// What names a road segment: its endpoints and its discriminator.
pub type SnowKey = (u64, u64, Option<u64>);

/// A table from road segments to depths.
pub type SnowTable = IndexMap<SnowKey, i64>;

/// The key-value pairs of a snow table, in insertion order.
pub uninterp spec fn snow_entries(m: SnowTable) -> Seq<(SnowKey, i64)>;

/// The position of `key` among the keys of `entries`, if it is one.
pub open spec fn position_of(entries: Seq<(SnowKey, i64)>, key: SnowKey) -> Option<int> {
    if exists|i: int| 0 <= i < entries.len() && (#[trigger] entries[i]).0 == key {
        Some(choose|i: int| 0 <= i < entries.len() && (#[trigger] entries[i]).0 == key)
    } else {
        None
    }
}

/// `IndexMap::new`: a map without entries.
#[verifier::external_body]
pub(crate) fn snow_new() -> (m: SnowTable)
    ensures
        snow_entries(m).len() == 0,
{
    IndexMap::new()
}

/// `IndexMap::get`: the value stored under `key`, or `None` where no entry
/// has that key.
#[verifier::external_body]
pub(crate) fn snow_get(m: &SnowTable, key: SnowKey) -> (r: Option<i64>)
    ensures
        match r {
            Some(v) => exists|i: int| 0 <= i < snow_entries(*m).len() && #[trigger] snow_entries(*m)[i] == (key, v),
            None => position_of(snow_entries(*m), key) is None,
        },
{
    m.get(&key).copied()
}

/// `IndexMap::get_index`: the entry at position `i`, or `None` where `i` is
/// not below the length.
#[verifier::external_body]
pub(crate) fn snow_get_index(m: &SnowTable, i: usize) -> (r: Option<(SnowKey, i64)>)
    ensures
        r == if i < snow_entries(*m).len() {
            Some(snow_entries(*m)[i as int])
        } else {
            None
        },
{
    m.get_index(i).map(|(k, v)| (*k, *v))
}

/// `IndexMap::insert`: a key that the map lacks is appended as the last
/// entry and `None` comes back; for a key that is there, its entry keeps its
/// place, takes the new value, and the old value comes back.
#[verifier::external_body]
pub(crate) fn snow_insert(m: &mut SnowTable, key: SnowKey, value: i64) -> (r: Option<i64>)
    ensures
        match r {
            None => position_of(snow_entries(*old(m)), key) is None && snow_entries(*final(m))
                == snow_entries(*old(m)).push((key, value)),
            Some(v) => exists|i: int|
                0 <= i < snow_entries(*old(m)).len() && #[trigger] snow_entries(*old(m))[i] == (
                    key,
                    v,
                ) && snow_entries(*final(m)) == snow_entries(*old(m)).update(i, (key, value)),
        },
{
    m.insert(key, value)
}

} // verus!
