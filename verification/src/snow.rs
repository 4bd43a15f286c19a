//! Merging the observations of snow into one depth for each road segment.

use crate::data::SnowStatusElement;
use crate::snow_index::{
    position_of, snow_entries, snow_get, snow_get_index, snow_insert, snow_new, SnowKey,
};
use vstd::prelude::*;

verus! {

/// What names the segment of an observation.
pub open spec fn key_of(s: SnowStatusElement) -> SnowKey {
    (s.p1, s.p2, s.discriminator)
}

/// The depth of a segment once one more observation of it is taken in:
/// the greater of the two while either is not positive, their mean, rounded
/// down, once both are.
pub open spec fn blend(acc: i64, depth: i64) -> i64 {
    if acc <= 0 || depth <= 0 {
        if acc >= depth {
            acc
        } else {
            depth
        }
    } else {
        ((acc + depth) / 2) as i64
    }
}

/// The merged depths of a list of observations: one entry for each
/// segment, in the order in which the segments first occur; the depth of a
/// segment starts at its first observation and takes in the others in order.
pub open spec fn merged(snows: Seq<SnowStatusElement>) -> Seq<(SnowKey, i64)>
    decreases snows.len(),
{
    if snows.len() == 0 {
        Seq::empty()
    } else {
        let before = merged(snows.drop_last());
        let s = snows.last();
        match position_of(before, key_of(s)) {
            Some(i) => before.update(i, (key_of(s), blend(before[i].1, s.depth))),
            None => before.push((key_of(s), s.depth)),
        }
    }
}

/// Whether no two entries have the same key.
pub open spec fn keys_apart(entries: Seq<(SnowKey, i64)>) -> bool {
    forall|i: int, j: int|
        0 <= i < entries.len() && 0 <= j < entries.len() && i != j ==> (#[trigger] entries[i]).0 != (
        #[trigger] entries[j]).0
}

/// The merged depths name each segment once.
pub proof fn lemma_merged_keys_apart(snows: Seq<SnowStatusElement>)
    ensures
        keys_apart(merged(snows)),
    decreases snows.len(),
{
    if snows.len() > 0 {
        lemma_merged_keys_apart(snows.drop_last());
        let before = merged(snows.drop_last());
        let s = snows.last();
        let after = merged(snows);
        match position_of(before, key_of(s)) {
            Some(p) => {
                assert forall|i: int, j: int|
                    0 <= i < after.len() && 0 <= j < after.len() && i != j implies (
                #[trigger] after[i]).0 != (#[trigger] after[j]).0 by {
                    assert(before[i].0 == after[i].0);
                    assert(before[j].0 == after[j].0);
                }
            },
            None => {
                assert forall|i: int, j: int|
                    0 <= i < after.len() && 0 <= j < after.len() && i != j implies (
                #[trigger] after[i]).0 != (#[trigger] after[j]).0 by {
                    if i < before.len() && j < before.len() {
                        assert(before[i].0 == after[i].0);
                        assert(before[j].0 == after[j].0);
                    } else if i < before.len() {
                        assert(before[i].0 != key_of(s));
                    } else {
                        assert(before[j].0 != key_of(s));
                    }
                }
            },
        }
    }
}

/// More observations leave the segments merged so far in their places, and
/// add the new segments behind them.
pub proof fn lemma_merged_order_stable(snows: Seq<SnowStatusElement>, more: Seq<SnowStatusElement>)
    ensures
        merged(snows).len() <= merged(snows + more).len(),
        forall|i: int|
            0 <= i < merged(snows).len() ==> (#[trigger] merged(snows + more)[i]).0 == merged(
                snows,
            )[i].0,
    decreases more.len(),
{
    if more.len() == 0 {
        assert(snows + more == snows);
    } else {
        lemma_merged_order_stable(snows, more.drop_last());
        assert((snows + more).drop_last() == snows + more.drop_last());
        assert((snows + more).last() == more.last());
    }
}

/// A segment is among the merged depths exactly if it has been observed.
pub proof fn lemma_merged_keys(snows: Seq<SnowStatusElement>, key: SnowKey)
    ensures
        position_of(merged(snows), key) is Some <==> exists|k: int|
            0 <= k < snows.len() && key_of(#[trigger] snows[k]) == key,
    decreases snows.len(),
{
    if snows.len() > 0 {
        let rest = snows.drop_last();
        let before = merged(rest);
        let s = snows.last();
        let after = merged(snows);
        lemma_merged_keys(rest, key);
        if position_of(after, key) is Some {
            let i = choose|i: int| 0 <= i < after.len() && (#[trigger] after[i]).0 == key;
            if i < before.len() && before[i].0 == key {
                let k = choose|k: int| 0 <= k < rest.len() && key_of(#[trigger] rest[k]) == key;
                assert(key_of(snows[k]) == key);
            } else {
                assert(key_of(snows[snows.len() - 1]) == key);
            }
        }
        if exists|k: int| 0 <= k < snows.len() && key_of(#[trigger] snows[k]) == key {
            let k = choose|k: int| 0 <= k < snows.len() && key_of(#[trigger] snows[k]) == key;
            if k < rest.len() {
                assert(key_of(rest[k]) == key);
                let i = choose|i: int| 0 <= i < before.len() && (#[trigger] before[i]).0 == key;
                assert(after[i].0 == key);
            } else {
                match position_of(before, key_of(s)) {
                    Some(p) => {
                        assert(after[p].0 == key);
                    },
                    None => {
                        assert(after[before.len() as int].0 == key);
                    },
                }
            }
        }
    }
}

/// What an observation makes of the depth `acc` of its segment.
pub fn blend_depths(acc: i64, depth: i64) -> (r: i64)
    ensures
        r == blend(acc, depth),
{
    if acc <= 0 || depth <= 0 {
        if acc >= depth {
            acc
        } else {
            depth
        }
    } else {
        let sum: i128 = acc as i128 + depth as i128;
        let half: i128 = sum / 2;
        half as i64
    }
}

/// Merges observations of snow: one record for each segment, in the order
/// in which the segments first occur. A segment observed without snow and
/// with snow has snow; the depths of a segment observed with snow several
/// times are averaged, observation by observation.
pub fn merge_snow_statuses(snows: Vec<SnowStatusElement>) -> (r: Vec<SnowStatusElement>)
    ensures
        r.len() == merged(snows@).len(),
        forall|i: int|
            0 <= i < r.len() ==> key_of(#[trigger] r[i]) == merged(snows@)[i].0 && r[i].depth
                == merged(snows@)[i].1,
{
    let mut keyed = snow_new();
    let mut i: usize = 0;
    assert(snows@.take(0) =~= Seq::empty());
    assert(snow_entries(keyed) =~= merged(snows@.take(0)));
    while i < snows.len()
        invariant
            i <= snows.len(),
            snow_entries(keyed) == merged(snows@.take(i as int)),
        decreases snows.len() - i,
    {
        let s = snows[i];
        let key = (s.p1, s.p2, s.discriminator);
        let ghost before = snow_entries(keyed);
        proof {
            lemma_merged_keys_apart(snows@.take(i as int));
            assert(snows@.take(i as int + 1).drop_last() == snows@.take(i as int));
            assert(snows@.take(i as int + 1).last() == s);
        }
        let seen = snow_get(&keyed, key);
        let depth = match seen {
            Some(v) => blend_depths(v, s.depth),
            None => s.depth,
        };
        let had = snow_insert(&mut keyed, key, depth);
        proof {
            match had {
                Some(v) => {
                    let p = choose|p: int|
                        0 <= p < before.len() && #[trigger] before[p] == (key, v)
                            && snow_entries(keyed) == before.update(p, (key, depth));
                    assert(before[p].0 == key);
                    let q = position_of(before, key)->0;
                    assert(before[q].0 == key);
                    assert(p == q);
                    assert(seen is Some);
                    let a = choose|a: int|
                        0 <= a < before.len() && #[trigger] before[a] == (key, seen->0);
                    assert(before[a].0 == key);
                    assert(a == p);
                },
                None => {},
            }
        }
        i = i + 1;
    }
    assert(snows@.take(snows.len() as int) == snows@);
    let ghost whole = snow_entries(keyed);
    let mut r: Vec<SnowStatusElement> = Vec::new();
    let mut k: usize = 0;
    loop
        invariant
            whole == snow_entries(keyed),
            k <= whole.len(),
            r.len() == k,
            forall|j: int|
                0 <= j < k ==> key_of(#[trigger] r[j]) == whole[j].0 && r[j].depth == whole[j].1,
        ensures
            k == whole.len(),
        decreases whole.len() - k,
    {
        match snow_get_index(&keyed, k) {
            Some((key, depth)) => {
                r.push(SnowStatusElement { p1: key.0, p2: key.1, discriminator: key.2, depth });
                k = r.len();
            },
            None => {
                break ;
            },
        }
    }
    r
}

} // verus!
