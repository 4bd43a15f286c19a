//! Which vehicle clears which road segment.

use crate::data::{lemma_nearest_exists, nearest};
use vstd::prelude::*;

verus! {

/// Of the vehicles nearest to the two ends of a segment, the one with
/// fewer segments so far; the first where they have as many.
pub open spec fn lighter(shares: Seq<Set<usize>>, lv1: int, lv2: int) -> int {
    if lv1 == lv2 || shares[lv1].len() <= shares[lv2].len() {
        lv1
    } else {
        lv2
    }
}

/// The shares of `count` vehicles at `locs` in the segments `snowy`, whose
/// ends lie at `ends`: each segment in turn goes to the vehicle nearest to
/// both its ends or, where two vehicles are nearest to one end each, to the
/// one of them with the lighter share.
pub open spec fn allotment(
    ends: Seq<((i32, i32), (i32, i32))>,
    locs: Seq<(i32, i32)>,
    snowy: Seq<usize>,
) -> Seq<Set<usize>>
    decreases snowy.len(),
{
    if snowy.len() == 0 {
        Seq::new(locs.len(), |i: int| Set::<usize>::empty())
    } else {
        let before = allotment(ends, locs, snowy.drop_last());
        let e = snowy.last();
        let lv = lighter(
            before,
            nearest(locs, ends[e as int].0),
            nearest(locs, ends[e as int].1),
        );
        before.update(lv, before[lv].insert(e))
    }
}

/// Whether each segment of `snowy` is in one share, and nothing else is in
/// any.
pub open spec fn is_partition(shares: Seq<Set<usize>>, snowy: Set<usize>) -> bool {
    &&& forall|i: int, e: usize|
        0 <= i < shares.len() && #[trigger] shares[i].contains(e) ==> snowy.contains(e)
    &&& forall|e: usize| #[trigger] snowy.contains(e) ==> held(shares, e)
    &&& forall|i: int, j: int, e: usize|
        0 <= i < shares.len() && 0 <= j < shares.len() && #[trigger] shares[i].contains(e)
            && #[trigger] shares[j].contains(e) ==> i == j
}

/// Whether segment `e` is in one of the shares.
pub open spec fn held(shares: Seq<Set<usize>>, e: usize) -> bool {
    exists|i: int| 0 <= i < shares.len() && #[trigger] shares[i].contains(e)
}

/// The shares are finite, as many as there are vehicles, and hold the
/// segments allotted, each in one share.
pub proof fn lemma_allotment(
    ends: Seq<((i32, i32), (i32, i32))>,
    locs: Seq<(i32, i32)>,
    snowy: Seq<usize>,
)
    requires
        locs.len() > 0,
        snowy.no_duplicates(),
    ensures
        allotment(ends, locs, snowy).len() == locs.len(),
        forall|i: int| 0 <= i < locs.len() ==> (#[trigger] allotment(ends, locs, snowy)[i]).finite(),
        is_partition(allotment(ends, locs, snowy), snowy.to_set()),
    decreases snowy.len(),
{
    let now = allotment(ends, locs, snowy);
    if snowy.len() == 0 {
        assert forall|e: usize| !snowy.to_set().contains(e) by {
            if snowy.to_set().contains(e) {
                assert(snowy.contains(e));
            }
        }
    } else {
        let rest = snowy.drop_last();
        let before = allotment(ends, locs, rest);
        let e = snowy.last();
        lemma_allotment(ends, locs, rest);
        let a = nearest(locs, ends[e as int].0);
        let b = nearest(locs, ends[e as int].1);
        lemma_nearest_exists(locs, ends[e as int].0);
        lemma_nearest_exists(locs, ends[e as int].1);
        let lv = lighter(before, a, b);
        assert(0 <= lv < locs.len());
        assert(!rest.contains(e)) by {
            if rest.contains(e) {
                let k = choose|k: int| 0 <= k < rest.len() && rest[k] == e;
                assert(snowy[k] == snowy[snowy.len() - 1]);
            }
        }
        assert forall|x: usize| snowy.to_set().contains(x) <==> rest.to_set().contains(x) || x == e by {
            if snowy.contains(x) {
                let k = choose|k: int| 0 <= k < snowy.len() && snowy[k] == x;
                if k < rest.len() {
                    assert(rest[k] == x);
                }
            }
            if rest.contains(x) {
                let k = choose|k: int| 0 <= k < rest.len() && rest[k] == x;
                assert(snowy[k] == x);
            }
            assert(snowy[snowy.len() - 1] == e);
        }
        assert forall|i: int, x: usize|
            0 <= i < now.len() && #[trigger] now[i].contains(x) implies snowy.to_set().contains(x) by {
            if x != e {
                assert(before[i].contains(x));
                assert(rest.to_set().contains(x));
            }
        }
        assert forall|x: usize| #[trigger] snowy.to_set().contains(x) implies held(now, x) by {
            if x == e {
                assert(now[lv].contains(x));
            } else {
                assert(rest.to_set().contains(x));
                assert(held(before, x));
                let i = choose|i: int| 0 <= i < before.len() && #[trigger] before[i].contains(x);
                assert(now[i].contains(x));
            }
        }
        assert forall|i: int, j: int, x: usize|
            0 <= i < now.len() && 0 <= j < now.len() && #[trigger] now[i].contains(x)
                && #[trigger] now[j].contains(x) implies i == j by {
            if x == e {
                if i != lv {
                    assert(before[i].contains(e));
                    assert(rest.to_set().contains(e));
                }
                if j != lv {
                    assert(before[j].contains(e));
                    assert(rest.to_set().contains(e));
                }
            } else {
                assert(before[i].contains(x));
                assert(before[j].contains(x));
            }
        }
    }
}

} // verus!
