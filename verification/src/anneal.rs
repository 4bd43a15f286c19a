//! The search for better plow tours: tours are made for the vehicles in
//! turn, weighed, kept where they are the first or better than the best so
//! far, and mended by handing closed parts of dear tours to cheap ones.

use crate::chance::{random_below, shuffle};
use crate::cover::{taken, views};
use crate::edge::Edge;
use crate::graph::Graph;
use crate::extremes::{is_first_least, is_last_most, least_and_most};
use crate::net::Net;
use crate::allot::{held, is_partition};
use crate::allot::{allotment, lemma_allotment};
use crate::plow::{
    ascending, lemma_ascending, lemma_reallot_partition, lengths_of, reallot, shares_of,
    PlowSolver,
};
use crate::road::{Positioned, Weighted};
use crate::tour::{is_tour, is_tour_from, lemma_splice, splice};
use crate::walk::{
    cost, lemma_walk_concat, lemma_walk_edges, lemma_walk_split,
    walk_end, Weights,
};
use std::collections::HashSet;
use vstd::prelude::*;

verus! {

/// Whether closed parts of dear tours are handed to cheap ones.
#[derive(Clone, Copy, Debug, PartialEq, Eq, Structural)]
pub enum Recycle {
    No,
    ExpensiveToCheap,
}

/// Which segments a vehicle is slow on: the snowy ones of its own share,
/// or every snowy one that no vehicle before it in the order has taken.
#[derive(Clone, Copy, Debug, PartialEq, Eq, Structural)]
pub enum Clearing {
    OnlyAllocated,
    All,
}

/// How the order of the vehicles is changed before tours are made.
#[derive(Clone, Copy, Debug, PartialEq, Eq, Structural)]
pub enum Reorder {
    No,
    Swap2Random,
    Swap2MostLeast,
    RandomReorder,
}

/// How segments are moved between shares; kept for callers, the search
/// does not move any.
#[derive(Clone, Copy, Debug, PartialEq, Eq, Structural)]
pub enum Realloc {
    No,
    Swap2Random,
    MostToLeast,
}

/// What steers the search.
#[derive(Clone, Copy, Debug)]
pub struct Parameters {
    /// How many rounds the search makes.
    pub main_iterations: u64,
    /// What the sum of the vehicles' costs counts for in a plan's value.
    pub weight_total: u64,
    /// What the greatest of the vehicles' costs counts for.
    pub weight_max: u64,
    /// How many thousandths of its length a segment costs the vehicle
    /// that is slow on it. Any other segment costs its length, a thousand
    /// thousandths: 1000 here is no slowdown, 2500 is two and a half times.
    pub slowdown: u64,
    pub recycle: Recycle,
    pub clearing: Clearing,
    pub reorder: Reorder,
    pub realloc: Realloc,
}

/// `x`, or the greatest cost where `x` is beyond it. Costs that great
/// stand for a cost without bound.
pub open spec fn capped(x: int) -> u128 {
    if x >= u128::MAX {
        u128::MAX
    } else if x < 0 {
        0
    } else {
        x as u128
    }
}

/// The sum of two costs, capped.
pub fn add_costs(a: u128, b: u128) -> (r: u128)
    ensures
        r == capped(a + b),
{
    a.saturating_add(b)
}

/// A cost taken a number of times, capped.
pub fn scale_cost(a: u128, times: u64) -> (r: u128)
    ensures
        r == capped(a * times),
{
    match a.checked_mul(times as u128) {
        Some(x) => x,
        None => u128::MAX,
    }
}

/// The value of a plan: the sum of the vehicles' costs and the greatest of
/// them, each taken by its weight.
pub open spec fn plan_value(weight_total: u64, weight_max: u64, all: u128, max: u128) -> u128 {
    capped(capped(all * weight_total) + capped(max * weight_max))
}

/// The value of a plan.
pub fn value_of(weight_total: u64, weight_max: u64, all: u128, max: u128) -> (r: u128)
    ensures
        r == plan_value(weight_total, weight_max, all, max),
{
    add_costs(scale_cost(all, weight_total), scale_cost(max, weight_max))
}

/// Whether a plan of value `value` and greatest cost `max` is better than
/// the best so far: of lower value, or of no higher value and lower
/// greatest cost.
pub open spec fn improves(value: u128, max: u128, value_best: u128, max_best: u128) -> bool {
    value < value_best || (value <= value_best && max < max_best)
}

/// Whether a plan of value `value` and greatest cost `max` is better than
/// the best so far.
pub fn is_better(value: u128, max: u128, value_best: u128, max_best: u128) -> (r: bool)
    ensures
        r == improves(value, max, value_best, max_best),
{
    value < value_best || (value <= value_best && max < max_best)
}

/// Whether the vehicle with share `share` is slow on segment `e`.
pub open spec fn slowed(
    snowy: Set<usize>,
    share: Set<usize>,
    done: Seq<bool>,
    all: bool,
    e: usize,
) -> bool {
    snowy.contains(e) && if all {
        !done[e as int]
    } else {
        share.contains(e)
    }
}

/// What a tour costs its vehicle, in thousandths: the lengths of its
/// segments, each taken a thousand times, but those on which the vehicle
/// is slow `slowdown` times.
pub open spec fn tour_cost(
    w: Weights,
    slowdown: u64,
    snowy: Set<usize>,
    share: Set<usize>,
    done: Seq<bool>,
    all: bool,
    sol: Seq<usize>,
) -> int
    decreases sol.len(),
{
    if sol.len() == 0 {
        0
    } else {
        tour_cost(w, slowdown, snowy, share, done, all, sol.drop_last()) + cost(w, sol.last() as int)
            * if slowed(snowy, share, done, all, sol.last()) {
            slowdown as int
        } else {
            1000
        }
    }
}

/// No tour costs less than nothing.
pub proof fn lemma_tour_cost_nonnegative(
    w: Weights,
    slowdown: u64,
    snowy: Set<usize>,
    share: Set<usize>,
    done: Seq<bool>,
    all: bool,
    sol: Seq<usize>,
)
    ensures
        0 <= tour_cost(w, slowdown, snowy, share, done, all, sol),
    decreases sol.len(),
{
    if sol.len() > 0 {
        lemma_tour_cost_nonnegative(w, slowdown, snowy, share, done, all, sol.drop_last());
        let c = cost(w, sol.last() as int);
        assert(0 <= c * slowdown) by (nonlinear_arith)
            requires
                0 <= c,
                0 <= slowdown,
        ;
    }
}

/// What a tour costs its vehicle, in thousandths and capped.
pub fn cost_of(
    weight: &Vec<Option<u64>>,
    slowdown: u64,
    snowy: &HashSet<usize>,
    share: &HashSet<usize>,
    done: &Vec<bool>,
    all: bool,
    sol: &Vec<usize>,
) -> (r: u128)
    requires
        done.len() == weight.len(),
        forall|i: int| 0 <= i < sol.len() ==> (#[trigger] sol[i]) < weight.len(),
    ensures
        r == capped(tour_cost(weight@, slowdown, snowy@, share@, done@, all, sol@)),
{
    broadcast use vstd::std_specs::hash::group_hash_axioms;

    let mut r: u128 = 0;
    let mut i: usize = 0;
    assert(sol@.take(0).len() == 0);
    while i < sol.len()
        invariant
            done.len() == weight.len(),
            forall|j: int| 0 <= j < sol.len() ==> (#[trigger] sol[j]) < weight.len(),
            i <= sol.len(),
            r == capped(tour_cost(weight@, slowdown, snowy@, share@, done@, all, sol@.take(i as int))),
        decreases sol.len() - i,
    {
        let e = sol[i];
        let slow = snowy.contains(&e) && if all {
            !done[e]
        } else {
            share.contains(&e)
        };
        let c: u64 = match weight[e] {
            Some(c) => c,
            None => 0,
        };
        let times: u64 = if slow {
            slowdown
        } else {
            1000
        };
        assert(c * times <= u128::MAX) by (nonlinear_arith)
            requires
                0 <= c <= u64::MAX,
                0 <= times <= u64::MAX,
        ;
        assert(0 <= c * times) by (nonlinear_arith)
            requires
                0 <= c,
                0 <= times,
        ;
        let step: u128 = (c as u128) * (times as u128);
        proof {
            assert(sol@.take(i as int + 1).drop_last() == sol@.take(i as int));
            assert(sol@.take(i as int + 1).last() == e);
            lemma_tour_cost_nonnegative(
                weight@,
                slowdown,
                snowy@,
                share@,
                done@,
                all,
                sol@.take(i as int),
            );
        }
        r = add_costs(r, step);
        i = i + 1;
    }
    assert(sol@.take(sol.len() as int) == sol@);
    r
}

/// Whether `order` lists each of `count` vehicles once.
pub open spec fn is_order(order: Seq<usize>, count: int) -> bool {
    &&& order.len() == count
    &&& forall|k: int| 0 <= k < order.len() ==> (#[trigger] order[k]) < count
    &&& order.no_duplicates()
    &&& forall|i: usize| i < count ==> #[trigger] order.contains(i)
}

/// An order with two of its places exchanged is an order.
pub proof fn lemma_order_swap(order: Seq<usize>, count: int, a: int, b: int)
    requires
        is_order(order, count),
        0 <= a < count,
        0 <= b < count,
    ensures
        is_order(order.update(a, order[b]).update(b, order[a]), count),
{
    let after = order.update(a, order[b]).update(b, order[a]);
    assert forall|i: usize| i < count implies #[trigger] after.contains(i) by {
        assert(order.contains(i));
        let p = choose|p: int| 0 <= p < order.len() && order[p] == i;
        if p == a {
            assert(after[b] == i);
        } else if p == b {
            assert(after[a] == i);
        } else {
            assert(after[p] == i);
        }
    }
}

/// The same vehicles in another order are an order.
pub proof fn lemma_order_shuffled(order: Seq<usize>, after: Seq<usize>, count: int)
    requires
        is_order(order, count),
        after.to_multiset() == order.to_multiset(),
    ensures
        is_order(after, count),
{
    broadcast use vstd::seq_lib::group_to_multiset_ensures;

    order.lemma_multiset_has_no_duplicates();
    after.lemma_multiset_has_no_duplicates_conv();
    assert(after.len() == after.to_multiset().len());
    assert(order.len() == order.to_multiset().len());
    assert forall|k: int| 0 <= k < after.len() implies (#[trigger] after[k]) < count by {
        assert(after.contains(after[k]));
        assert(after.to_multiset().count(after[k]) > 0);
        assert(order.contains(after[k]));
        let p = choose|p: int| 0 <= p < order.len() && order[p] == after[k];
        assert(order[p] < count);
    }
    assert forall|i: usize| i < count implies #[trigger] after.contains(i) by {
        assert(order.contains(i));
        assert(order.to_multiset().count(i) > 0);
    }
}

/// The order with the places `a` and `b` exchanged.
pub open spec fn exchanged(order: Seq<usize>, a: int, b: int) -> Seq<usize> {
    order.update(a, order[b]).update(b, order[a])
}

/// For each place of the order the length of its vehicle's solution, and
/// the vehicle.
pub open spec fn keyed_by_length(order: Seq<usize>, solution: Seq<Seq<usize>>) -> Seq<(usize, usize)> {
    Seq::new(order.len(), |j: int| (solution[order[j] as int].len() as usize, order[j]))
}

/// Whether `after` is `order` changed in the way `how`: not at all; with
/// two of its places exchanged; with the two places exchanged that are
/// numbered as the first of the vehicles with the shortest solution and
/// the last of those with the longest, where there are two vehicles or
/// more; or in any order.
pub open spec fn is_reordered(
    order: Seq<usize>,
    solution: Seq<Seq<usize>>,
    how: Reorder,
    after: Seq<usize>,
) -> bool {
    match how {
        Reorder::No => after == order,
        Reorder::Swap2Random => order.len() == 0 && after == order || exists|a: int, b: int|
            0 <= a < order.len() && 0 <= b < order.len() && after == #[trigger] exchanged(
                order,
                a,
                b,
            ),
        Reorder::Swap2MostLeast => order.len() < 2 && after == order || exists|a: int, b: int|
            is_first_least(keyed_by_length(order, solution), a) && is_last_most(
                keyed_by_length(order, solution),
                b,
            ) && after == #[trigger] exchanged(order, order[a] as int, order[b] as int),
        Reorder::RandomReorder => after.to_multiset() == order.to_multiset(),
    }
}

/// Exchanges the places `a` and `b` of the order.
pub fn exchange_places(order: &mut Vec<usize>, a: usize, b: usize)
    requires
        a < old(order).len(),
        b < old(order).len(),
    ensures
        final(order)@ == exchanged(old(order)@, a as int, b as int),
{
    let x = order[a];
    let y = order[b];
    order[a] = y;
    order[b] = x;
}

/// Changes the order of the vehicles: not at all, by exchanging two places
/// drawn at random, by exchanging the places numbered as the vehicle with
/// the shortest solution and the one with the longest, or at random.
pub fn reorder(order: &mut Vec<usize>, solution: &Vec<Vec<usize>>, how: Reorder)
    requires
        is_order(old(order)@, solution.len() as int),
    ensures
        is_order(final(order)@, solution.len() as int),
        is_reordered(old(order)@, views(solution@), how, final(order)@),
{
    let ghost before = order@;
    let count = order.len();
    match how {
        Reorder::No => {},
        Reorder::Swap2Random => {
            if count > 0 {
                let a = random_below(count);
                let b = random_below(count);
                proof {
                    lemma_order_swap(order@, count as int, a as int, b as int);
                }
                exchange_places(order, a, b);
            }
        },
        Reorder::Swap2MostLeast => {
            let mut keyed: Vec<(usize, usize)> = Vec::new();
            let mut k: usize = 0;
            while k < count
                invariant
                    count == order.len(),
                    is_order(order@, solution.len() as int),
                    k <= count,
                    keyed.len() == k,
                    forall|j: int|
                        0 <= j < k ==> #[trigger] keyed[j] == (
                            solution[order[j] as int]@.len() as usize,
                            order[j],
                        ),
                decreases count - k,
            {
                let i = order[k];
                keyed.push((solution[i].len(), i));
                k = k + 1;
            }
            match least_and_most(&keyed) {
                Some((low, high)) => {
                    let a = low.1;
                    let b = high.1;
                    proof {
                        let ka = choose|ka: int, kb: int|
                            is_first_least(keyed@, ka) && is_last_most(keyed@, kb) && low
                                == #[trigger] keyed[ka] && high == #[trigger] keyed[kb];
                        assert(low == keyed[ka.0]);
                        assert(high == keyed[ka.1]);
                        assert(a == order[ka.0]);
                        assert(b == order[ka.1]);
                        lemma_order_swap(order@, count as int, a as int, b as int);
                    }
                    exchange_places(order, a, b);
                    proof {
                        let ka = choose|ka: int, kb: int|
                            is_first_least(keyed@, ka) && is_last_most(keyed@, kb) && low
                                == #[trigger] keyed[ka] && high == #[trigger] keyed[kb];
                        assert(keyed@ =~= keyed_by_length(before, views(solution@)));
                        assert(order@ == exchanged(
                            before,
                            before[ka.0] as int,
                            before[ka.1] as int,
                        ));
                    }
                },
                None => {},
            }
        },
        Reorder::RandomReorder => {
            shuffle(order);
            proof {
                lemma_order_shuffled(before, order@, solution.len() as int);
            }
        },
    }
}

/// What the search holds between rounds.
#[derive(Debug)]
pub struct Progress {
    /// The share of each vehicle in the snowy segments.
    pub alloc: Vec<HashSet<usize>>,
    /// The best tours so far, one for each vehicle.
    pub solution: Vec<Vec<usize>>,
    /// The value at which the best tours were kept; the greatest number
    /// while none have been.
    pub value_best: u128,
    /// The greatest cost of a vehicle at which they were kept; the
    /// greatest number while none have been.
    pub cost_max_best: u128,
    /// The order in which tours are made for the vehicles.
    pub order: Vec<usize>,
    /// Whether any tours have been kept yet.
    pub accepted: bool,
}

/// A vehicle whose tour cannot be brought to some segments of its share.
#[derive(Debug)]
pub struct Stranded {
    pub vehicle: usize,
    pub edges: Vec<usize>,
}

/// Whether every snowy segment is taken by a tour.
pub open spec fn all_cleared(sols: Seq<Seq<usize>>, snowy: Set<usize>) -> bool {
    forall|e: usize| #[trigger] snowy.contains(e) ==> taken(sols, e)
}

/// Whether each tour is a closed walk from its vehicle's start.
pub open spec fn all_tours(
    net: Net,
    direspect: bool,
    w: Weights,
    sps: Seq<u64>,
    sols: Seq<Seq<usize>>,
) -> bool {
    &&& sols.len() == sps.len()
    &&& forall|i: int|
        0 <= i < sps.len() ==> is_tour_from(net, direspect, w, sps[i], #[trigger] sols[i])
}

/// Filling an empty place among the tours takes no segment out of them.
pub proof fn lemma_taken_grows(sols: Seq<Seq<usize>>, i: int, sol: Seq<usize>, e: usize)
    requires
        0 <= i < sols.len(),
        sols[i].len() == 0,
        taken(sols, e) || sol.contains(e),
    ensures
        taken(sols.update(i, sol), e),
{
    let after = sols.update(i, sol);
    if sol.contains(e) {
        assert(after[i].contains(e));
    } else {
        let j = choose|j: int| 0 <= j < sols.len() && (#[trigger] sols[j]).contains(e);
        assert(j != i);
        assert(after[j].contains(e));
    }
}

/// A closed part cut out of a closed walk leaves a closed walk, and is a
/// closed walk from the node where it was cut.
pub proof fn lemma_cut(net: Net, direspect: bool, w: Weights, p: Seq<usize>, iu: int, iv: int, s: int)
    requires
        net.wf(),
        is_tour(net, direspect, w, s, p),
        0 <= iu <= iv <= p.len(),
        walk_end(net, p.take(iu), s) == walk_end(net, p.take(iv), s),
    ensures
        is_tour(net, direspect, w, s, p.take(iu) + p.skip(iv)),
        is_tour(net, direspect, w, walk_end(net, p.take(iu), s), p.subrange(iu, iv)),
        forall|e: usize|
            p.contains(e) <==> (p.take(iu) + p.skip(iv)).contains(e) || p.subrange(iu, iv).contains(e),
{
    lemma_walk_split(net, direspect, w, p, iv, s);
    lemma_walk_split(net, direspect, w, p.take(iv), iu, s);
    assert(p.take(iv).take(iu) == p.take(iu));
    assert(p.take(iv).skip(iu) == p.subrange(iu, iv));
    lemma_walk_concat(net, direspect, w, p.take(iu), p.skip(iv), s);
    let rest = p.take(iu) + p.skip(iv);
    let part = p.subrange(iu, iv);
    assert forall|e: usize| p.contains(e) <==> rest.contains(e) || part.contains(e) by {
        if p.contains(e) {
            let k = choose|k: int| 0 <= k < p.len() && p[k] == e;
            if k < iu {
                assert(rest[k] == e);
            } else if k < iv {
                assert(part[k - iu] == e);
            } else {
                assert(rest[k - (iv - iu)] == e);
            }
        }
        if rest.contains(e) {
            let k = choose|k: int| 0 <= k < rest.len() && rest[k] == e;
            if k < iu {
                assert(p[k] == e);
            } else {
                assert(p[k + (iv - iu)] == e);
            }
        }
        if part.contains(e) {
            let k = choose|k: int| 0 <= k < part.len() && part[k] == e;
            assert(p[k + iu] == e);
        }
    }
}

/// What a walk takes once another has been let into it.
pub proof fn lemma_splice_contains(p: Seq<usize>, y: int, c: Seq<usize>)
    requires
        0 <= y <= p.len(),
    ensures
        forall|e: usize| (p.take(y) + c + p.skip(y)).contains(e) <==> p.contains(e) || c.contains(e),
{
    let joined = p.take(y) + c + p.skip(y);
    assert forall|e: usize| joined.contains(e) <==> p.contains(e) || c.contains(e) by {
        if joined.contains(e) {
            let k = choose|k: int| 0 <= k < joined.len() && joined[k] == e;
            if k < y {
                assert(p[k] == e);
            } else if k < y + c.len() {
                assert(c[k - y] == e);
            } else {
                assert(p[k - c.len()] == e);
            }
        }
        if p.contains(e) {
            let k = choose|k: int| 0 <= k < p.len() && p[k] == e;
            if k < y {
                assert(joined[k] == e);
            } else {
                assert(joined[k + c.len()] == e);
            }
        }
        if c.contains(e) {
            let k = choose|k: int| 0 <= k < c.len() && c[k] == e;
            assert(joined[y + k] == e);
        }
    }
}

impl<N: Positioned, E: Edge + Weighted> PlowSolver<N, E> {
    /// Hands the first closed part of the tour of vehicle `a` that starts
    /// at a node of the tour of vehicle `b` over to that tour, if there
    /// is one.
    fn hand_over(
        &self,
        Ghost(direspect): Ghost<bool>,
        Ghost(w): Ghost<Weights>,
        starts: &Vec<usize>,
        sols: &mut Vec<Vec<usize>>,
        a: usize,
        b: usize,
    )
        requires
            self.wf(),
            w.len() == self.graph_spec()@.edges(),
            starts.len() == old(sols).len(),
            a < starts.len(),
            b < starts.len(),
            a != b,
            forall|i: int|
                0 <= i < starts.len() ==> is_tour(
                    self.graph_spec()@,
                    direspect,
                    w,
                    starts[i] as int,
                    #[trigger] old(sols)[i]@,
                ),
        ensures
            final(sols).len() == old(sols).len(),
            forall|i: int|
                0 <= i < starts.len() ==> is_tour(
                    self.graph_spec()@,
                    direspect,
                    w,
                    starts[i] as int,
                    #[trigger] final(sols)[i]@,
                ),
            forall|e: usize| taken(views(final(sols)@), e) <==> taken(views(old(sols)@), e),
            views(final(sols)@) == handed_over(
                self.graph_spec()@,
                starts@,
                views(old(sols)@),
                a as int,
                b as int,
            ),
    {
        let ghost net = self.graph@;
        let ghost before = views(sols@);
        let ghost along_a = stops(net, before[a as int], starts[a as int] as int);
        let ghost along_b = stops(net, before[b as int], starts[b as int] as int);
        proof {
            lemma_walk_edges(net, direspect, w, sols[a as int]@, starts[a as int] as int);
            lemma_walk_edges(net, direspect, w, sols[b as int]@, starts[b as int] as int);
        }
        let va = self.graph.slots_along(&sols[a], starts[a]);
        let vb = self.graph.slots_along(&sols[b], starts[b]);
        assert(before[a as int] == sols[a as int]@ && before[b as int] == sols[b as int]@);
        let mut iu: usize = 0;
        while iu < va.len()
            invariant
                iu <= va.len(),
                va.len() == sols[a as int]@.len() + 1,
                vb.len() == sols[b as int]@.len() + 1,
                sols.len() == starts.len(),
                starts.len() == old(sols).len(),
                a < starts.len(),
                b < starts.len(),
                a != b,
                self.wf(),
                net == self.graph_spec()@,
                w.len() == net.edges(),
                before == views(sols@),
                before == views(old(sols)@),
                along_a == stops(net, before[a as int], starts[a as int] as int),
                along_b == stops(net, before[b as int], starts[b as int] as int),
                forall|i: int| 0 <= i < va.len() ==> (#[trigger] va[i]) == along_a[i],
                forall|i: int| 0 <= i < vb.len() ==> (#[trigger] vb[i]) == along_b[i],
                forall|i: int| 0 <= i < iu ==> !#[trigger] can_give(along_a, along_b, i),
                forall|i: int|
                    0 <= i < starts.len() ==> is_tour(
                        net,
                        direspect,
                        w,
                        starts[i] as int,
                        #[trigger] sols[i]@,
                    ),
                forall|i: int|
                    0 <= i <= sols[a as int]@.len() ==> (#[trigger] va[i]) == walk_end(
                        net,
                        sols[a as int]@.take(i),
                        starts[a as int] as int,
                    ),
                forall|i: int|
                    0 <= i <= sols[b as int]@.len() ==> (#[trigger] vb[i]) == walk_end(
                        net,
                        sols[b as int]@.take(i),
                        starts[b as int] as int,
                    ),
            decreases va.len() - iu,
        {
            let mut ju: usize = 0;
            while ju < vb.len()
                invariant
                    iu < va.len(),
                    ju <= vb.len(),
                    va.len() == sols[a as int]@.len() + 1,
                    vb.len() == sols[b as int]@.len() + 1,
                    sols.len() == starts.len(),
                    starts.len() == old(sols).len(),
                    a < starts.len(),
                    b < starts.len(),
                    a != b,
                    self.wf(),
                    net == self.graph_spec()@,
                    w.len() == net.edges(),
                    before == views(sols@),
                    before == views(old(sols)@),
                    along_a == stops(net, before[a as int], starts[a as int] as int),
                    along_b == stops(net, before[b as int], starts[b as int] as int),
                    forall|i: int| 0 <= i < va.len() ==> (#[trigger] va[i]) == along_a[i],
                    forall|i: int| 0 <= i < vb.len() ==> (#[trigger] vb[i]) == along_b[i],
                    forall|i: int| 0 <= i < iu ==> !#[trigger] can_give(along_a, along_b, i),
                    forall|j: int| 0 <= j < ju && #[trigger] along_b[j] == along_a[iu as int] ==> !recurs(along_a, iu as int),
                    forall|i: int|
                        0 <= i < starts.len() ==> is_tour(
                            net,
                            direspect,
                            w,
                            starts[i] as int,
                            #[trigger] sols[i]@,
                        ),
                    forall|i: int|
                        0 <= i <= sols[a as int]@.len() ==> (#[trigger] va[i]) == walk_end(
                            net,
                            sols[a as int]@.take(i),
                            starts[a as int] as int,
                        ),
                    forall|i: int|
                        0 <= i <= sols[b as int]@.len() ==> (#[trigger] vb[i]) == walk_end(
                            net,
                            sols[b as int]@.take(i),
                            starts[b as int] as int,
                        ),
                decreases vb.len() - ju,
            {
                if va[iu] == vb[ju] {
                    let mut iv: usize = iu + 1;
                    while iv < va.len()
                        invariant
                            iu < iv <= va.len(),
                            iu < va.len(),
                            ju < vb.len(),
                            va[iu as int] == vb[ju as int],
                            va.len() == sols[a as int]@.len() + 1,
                            vb.len() == sols[b as int]@.len() + 1,
                            sols.len() == starts.len(),
                            starts.len() == old(sols).len(),
                            a < starts.len(),
                            b < starts.len(),
                            a != b,
                            self.wf(),
                            net == self.graph_spec()@,
                            w.len() == net.edges(),
                            before == views(sols@),
                            before == views(old(sols)@),
                            along_a == stops(net, before[a as int], starts[a as int] as int),
                            along_b == stops(net, before[b as int], starts[b as int] as int),
                            forall|i: int| 0 <= i < va.len() ==> (#[trigger] va[i]) == along_a[i],
                            forall|i: int| 0 <= i < vb.len() ==> (#[trigger] vb[i]) == along_b[i],
                            forall|i: int| 0 <= i < iu ==> !#[trigger] can_give(along_a, along_b, i),
                            forall|j: int| 0 <= j < ju && #[trigger] along_b[j] == along_a[iu as int] ==> !recurs(along_a, iu as int),
                            forall|k: int| iu < k < iv ==> #[trigger] along_a[k] != along_a[iu as int],
                            forall|i: int|
                                0 <= i < starts.len() ==> is_tour(
                                    net,
                                    direspect,
                                    w,
                                    starts[i] as int,
                                    #[trigger] sols[i]@,
                                ),
                            forall|i: int|
                                0 <= i <= sols[a as int]@.len() ==> (#[trigger] va[i]) == walk_end(
                                    net,
                                    sols[a as int]@.take(i),
                                    starts[a as int] as int,
                                ),
                            forall|i: int|
                                0 <= i <= sols[b as int]@.len() ==> (#[trigger] vb[i]) == walk_end(
                                    net,
                                    sols[b as int]@.take(i),
                                    starts[b as int] as int,
                                ),
                        decreases va.len() - iv,
                    {
                        if va[iv] == va[iu] {
                            let ghost giver = sols[a as int]@;
                            let ghost taker = sols[b as int]@;
                            let ghost start_a = starts[a as int] as int;
                            let ghost start_b = starts[b as int] as int;
                            proof {
                                lemma_cut(net, direspect, w, giver, iu as int, iv as int, start_a);
                                lemma_splice(
                                    net,
                                    direspect,
                                    w,
                                    taker,
                                    ju as int,
                                    giver.subrange(iu as int, iv as int),
                                    start_b,
                                );
                                lemma_splice_contains(
                                    taker,
                                    ju as int,
                                    giver.subrange(iu as int, iv as int),
                                );
                            }
                            let mut head = sols[a].clone();
                            let mut tail = head.split_off(iv);
                            let mut part = head.split_off(iu);
                            head.append(&mut tail);
                            assert(head@ =~= giver.take(iu as int) + giver.skip(iv as int));
                            assert(part@ =~= giver.subrange(iu as int, iv as int));
                            let joined = splice(sols[b].clone(), ju, part);
                            sols[a] = head;
                            sols[b] = joined;
                            proof {
                                let after = views(sols@);
                                assert(after[a as int] == giver.take(iu as int) + giver.skip(
                                    iv as int,
                                ));
                                assert(after[b as int] == taker.take(ju as int) + giver.subrange(
                                    iu as int,
                                    iv as int,
                                ) + taker.skip(ju as int));
                                assert forall|e: usize| taken(after, e) <==> taken(before, e) by {
                                    if taken(after, e) {
                                        let i = choose|i: int|
                                            0 <= i < after.len() && (#[trigger] after[i]).contains(e);
                                        if i == a {
                                            assert(before[a as int].contains(e));
                                        } else if i == b {
                                            if taker.contains(e) {
                                                assert(before[b as int].contains(e));
                                            } else {
                                                assert(before[a as int].contains(e));
                                            }
                                        } else {
                                            assert(before[i] == after[i]);
                                            assert(before[i].contains(e));
                                        }
                                    }
                                    if taken(before, e) {
                                        let i = choose|i: int|
                                            0 <= i < before.len() && (#[trigger] before[i]).contains(
                                                e,
                                            );
                                        if i == a {
                                            if after[a as int].contains(e) {
                                            } else {
                                                assert(after[b as int].contains(e));
                                            }
                                        } else if i == b {
                                            assert(after[b as int].contains(e));
                                        } else {
                                            assert(before[i] == after[i]);
                                            assert(after[i].contains(e));
                                        }
                                    }
                                }
                                assert forall|i: int| 0 <= i < starts.len() implies is_tour(
                                    net,
                                    direspect,
                                    w,
                                    starts[i] as int,
                                    #[trigger] sols[i]@,
                                ) by {
                                    if i != a && i != b {
                                        assert(sols[i]@ == before[i]);
                                    }
                                }
                            }
                            proof {
                                assert(recurs(along_a, iu as int)) by {
                                    assert(along_a[iv as int] == along_a[iu as int]);
                                }
                                assert(is_site(along_a, along_b, iu as int, ju as int, iv as int));
                                lemma_site_unique(along_a, along_b, iu as int, ju as int, iv as int);
                                assert(views(sols@) =~= handed(
                                    before,
                                    a as int,
                                    b as int,
                                    iu as int,
                                    ju as int,
                                    iv as int,
                                ));
                            }
                            return ;
                        }
                        iv = iv + 1;
                    }
                    assert(!recurs(along_a, iu as int)) by {
                        if recurs(along_a, iu as int) {
                            let k = choose|k: int| iu < k < along_a.len() && #[trigger] along_a[k] == along_a[iu as int];
                            assert(along_a[k] != along_a[iu as int]);
                        }
                    }
                }
                ju = ju + 1;
            }
            assert(!can_give(along_a, along_b, iu as int)) by {
                if occurs(along_b, along_a[iu as int]) {
                    let j = choose|j: int| 0 <= j < along_b.len() && #[trigger] along_b[j] == along_a[iu as int];
                    assert(along_b[j] == along_a[iu as int]);
                }
            }
            iu = iu + 1;
        }
        proof {
            assert forall|i: int, j: int, k: int| !#[trigger] is_site(along_a, along_b, i, j, k) by {
                if is_site(along_a, along_b, i, j, k) {
                    assert(along_b[j] == along_a[i]);
                    assert(along_a[k] == along_a[i]);
                    assert(can_give(along_a, along_b, i));
                }
            }
        }
    }
}

impl Progress {
    /// What holds of the search between rounds: there is a share and a tour
    /// for each vehicle, the tour a closed walk from the vehicle's start;
    /// the order lists each vehicle once; every snowy segment is in one
    /// share; and once tours have been kept, every snowy segment is taken
    /// by a tour.
    pub open spec fn sound(
        &self,
        net: Net,
        direspect: bool,
        w: Weights,
        sps: Seq<u64>,
        snowy: Set<usize>,
    ) -> bool {
        &&& self.alloc@.len() == sps.len()
        &&& is_order(self.order@, sps.len() as int)
        &&& all_tours(net, direspect, w, sps, views(self.solution@))
        &&& is_partition(shares_of(self.alloc@), snowy)
        &&& self.accepted ==> all_cleared(views(self.solution@), snowy)
        &&& !self.accepted ==> self.value_best == u128::MAX && self.cost_max_best == u128::MAX
    }
}

impl<N: Positioned, E: Edge + Weighted> PlowSolver<N, E> {
    /// A tour for each vehicle, in the order given, each over the segments
    /// of the vehicle's share that no tour made before it has taken where
    /// every vehicle clears what it passes, over its whole share else; and
    /// what each tour costs. A vehicle whose tour cannot be brought to all
    /// of these segments ends the making, the first in the order.
    #[verifier::rlimit(40)]
    fn make_tours(
        &self,
        direspect: bool,
        starts: &Vec<usize>,
        order: &Vec<usize>,
        alloc: &Vec<HashSet<usize>>,
        snowy: &HashSet<usize>,
        params: &Parameters,
        weight: &Vec<Option<u64>>,
    ) -> (r: Result<(Vec<Vec<usize>>, Vec<u128>), Stranded>)
        requires
            self.wf(),
            weight.len() == self.graph_spec()@.edges(),
            starts.len() == alloc.len(),
            forall|i: int| 0 <= i < starts.len() ==> (#[trigger] starts[i]) < self.graph_spec()@.nodes(),
            is_order(order@, starts.len() as int),
        ensures
            r is Ok ==> r->Ok_0.0.len() == starts.len() && r->Ok_0.1.len() == starts.len(),
            r is Ok ==> forall|i: int|
                0 <= i < starts.len() ==> is_tour(
                    self.graph_spec()@,
                    direspect,
                    weight@,
                    starts[i] as int,
                    #[trigger] r->Ok_0.0[i]@,
                ),
            r is Ok ==> forall|e: usize|
                e < weight.len() && #[trigger] held(shares_of(alloc@), e) ==> taken(
                    views(r->Ok_0.0@),
                    e,
                ),
            r is Ok ==> are_made(
                self.graph_spec()@,
                direspect,
                weight@,
                starts@,
                order@,
                shares_of(alloc@),
                snowy@,
                params.clearing == Clearing::All,
                params.slowdown,
                views(r->Ok_0.0@),
                r->Ok_0.1@,
            ),
            r is Err ==> r->Err_0.vehicle < starts.len() && r->Err_0.edges.len() > 0,
            r is Err ==> forall|k: int|
                0 <= k < r->Err_0.edges.len() ==> alloc[r->Err_0.vehicle as int]@.contains(
                    #[trigger] r->Err_0.edges[k],
                ),
            r is Err ==> is_round_stuck(
                self.graph_spec()@,
                direspect,
                weight@,
                starts@,
                order@,
                shares_of(alloc@),
                params.clearing == Clearing::All,
                r->Err_0,
            ),
    {
        broadcast use vstd::std_specs::hash::group_hash_axioms;

        let ghost net = self.graph@;
        let ghost w = weight@;
        let ghost shares = shares_of(alloc@);
        let count = starts.len();
        let m = weight.len();
        let all = match params.clearing {
            Clearing::All => true,
            Clearing::OnlyAllocated => false,
        };
        let mut sols: Vec<Vec<usize>> = Vec::new();
        let mut costs: Vec<u128> = Vec::new();
        let mut i: usize = 0;
        while i < count
            invariant
                i <= count,
                sols.len() == i,
                costs.len() == i,
                forall|j: int| 0 <= j < i ==> (#[trigger] sols[j])@.len() == 0,
            decreases count - i,
        {
            sols.push(Vec::new());
            costs.push(0);
            i = i + 1;
        }
        let mut dun: Vec<bool> = Vec::new();
        let mut e: usize = 0;
        while e < m
            invariant
                e <= m,
                dun.len() == e,
                forall|x: int| 0 <= x < e ==> !#[trigger] dun[x],
            decreases m - e,
        {
            dun.push(false);
            e = e + 1;
        }
        assert(dun@ =~= done_marks(all, order@, views(sols@), 0, m as nat));
        let mut k: usize = 0;
        while k < count
            invariant
                self.wf(),
                net == self.graph_spec()@,
                w == weight@,
                shares == shares_of(alloc@),
                all == (params.clearing == Clearing::All),
                m == weight.len(),
                m == net.edges(),
                count == starts.len(),
                count == alloc.len(),
                forall|i: int| 0 <= i < count ==> (#[trigger] starts[i]) < net.nodes(),
                is_order(order@, count as int),
                k <= count,
                sols.len() == count,
                costs.len() == count,
                dun.len() == m,
                dun@ == done_marks(all, order@, views(sols@), k as int, m as nat),
                forall|i: int|
                    0 <= i < count ==> is_tour(
                        net,
                        direspect,
                        w,
                        starts[i] as int,
                        #[trigger] sols[i]@,
                    ),
                forall|j: int| k <= j < count ==> (#[trigger] sols[order[j] as int])@.len() == 0,
                forall|j: int, x: usize|
                    0 <= j < k && x < m && #[trigger] alloc[order[j] as int]@.contains(x) ==> taken(
                        views(sols@),
                        x,
                    ),
                forall|x: int| 0 <= x < m && #[trigger] dun[x] ==> taken(views(sols@), x as usize),
                forall|j: int|
                    0 <= j < k ==> #[trigger] is_made(
                        net,
                        direspect,
                        w,
                        starts@,
                        order@,
                        shares,
                        snowy@,
                        all,
                        params.slowdown,
                        views(sols@),
                        costs@,
                        j,
                    ),
            decreases count - k,
        {
            let i = order[k];
            let mut need: Vec<bool> = Vec::new();
            let mut e: usize = 0;
            while e < m
                invariant
                    e <= m,
                    i < alloc.len(),
                    dun.len() == m,
                    need.len() == e,
                    forall|x: int|
                        0 <= x < e ==> #[trigger] need[x] == (alloc[i as int]@.contains(x as usize)
                            && !dun[x]),
                decreases m - e,
            {
                need.push(alloc[i].contains(&e) && !dun[e]);
                e = e + 1;
            }
            let ghost wanted = need@;
            let ghost done = dun@;
            let ghost was = views(sols@);
            let ghost paid = costs@;
            proof {
                assert(shares[i as int] == alloc[i as int]@);
                assert(wanted =~= need_marks(shares[i as int], done, m as nat));
            }
            match self.graph.tour_over(direspect, starts[i], need, weight) {
                Ok(sol) => {
                    proof {
                        lemma_walk_edges(net, direspect, w, sol@, starts[i as int] as int);
                    }
                    let c = cost_of(weight, params.slowdown, snowy, &alloc[i], &dun, all, &sol);
                    if all {
                        let mut t: usize = 0;
                        while t < sol.len()
                            invariant
                                t <= sol.len(),
                                dun.len() == m,
                                done.len() == m,
                                forall|j: int| 0 <= j < sol.len() ==> (#[trigger] sol[j]) < m,
                                forall|x: int|
                                    0 <= x < m ==> #[trigger] dun[x] == (done[x] || sol@.take(
                                        t as int,
                                    ).contains(x as usize)),
                            decreases sol.len() - t,
                        {
                            let x = sol[t];
                            let ghost seen = sol@.take(t as int);
                            let ghost next = sol@.take(t as int + 1);
                            proof {
                                assert(next == seen.push(x));
                                assert forall|y: usize| next.contains(y) <==> seen.contains(y) || y
                                    == x by {
                                    if next.contains(y) {
                                        let p = choose|p: int| 0 <= p < next.len() && next[p] == y;
                                        if p < seen.len() {
                                            assert(seen[p] == y);
                                        }
                                    }
                                    if seen.contains(y) {
                                        let p = choose|p: int| 0 <= p < seen.len() && seen[p] == y;
                                        assert(next[p] == y);
                                    }
                                    assert(next[t as int] == x);
                                }
                            }
                            dun[x] = true;
                            t = t + 1;
                        }
                        assert(sol@.take(sol.len() as int) == sol@);
                    }
                    costs[i] = c;
                    let ghost path = sol@;
                    sols[i] = sol;
                    proof {
                        let now = views(sols@);
                        assert(now =~= was.update(i as int, path));
                        assert(was[i as int].len() == 0) by {
                            assert(sols[order[k as int] as int]@.len() >= 0);
                        }
                        assert forall|x: usize| taken(was, x) || path.contains(x) implies taken(
                            now,
                            x,
                        ) by {
                            lemma_taken_grows(was, i as int, path, x);
                        }
                        assert forall|j: int| k + 1 <= j < count implies (#[trigger] sols[order[j] as int])@.len()
                            == 0 by {
                            assert(order@[j] != order@[k as int]);
                        }
                        assert forall|j: int, x: usize|
                            0 <= j < k + 1 && x < m && #[trigger] alloc[order[j] as int]@.contains(
                                x,
                            ) implies taken(now, x) by {
                            if j == k {
                                if done[x as int] {
                                    assert(taken(was, x));
                                } else {
                                    assert(wanted[x as int]);
                                    assert(path.contains(x));
                                }
                            } else {
                                assert(taken(was, x));
                            }
                        }
                        assert forall|x: int| 0 <= x < m && #[trigger] dun[x] implies taken(
                            now,
                            x as usize,
                        ) by {
                            if done[x] {
                                assert(taken(was, x as usize));
                            }
                        }
                        lemma_made_more(
                            net,
                            direspect,
                            w,
                            starts@,
                            order@,
                            shares,
                            snowy@,
                            all,
                            params.slowdown,
                            was,
                            paid,
                            k as int,
                            path,
                            c,
                            m as nat,
                        );
                        assert(dun@ =~= done_marks(all, order@, now, k as int + 1, m as nat)) by {
                            assert forall|x: int| 0 <= x < m implies #[trigger] dun[x] == done_marks(
                                all,
                                order@,
                                now,
                                k as int + 1,
                                m as nat,
                            )[x] by {
                                lemma_done_next(all, order@, was, k as int, path, m as nat, x);
                            }
                        }
                    }
                },
                Err(left) => {
                    proof {
                        crate::marks::lemma_count_true_some(left@);
                    }
                    let mut edges: Vec<usize> = Vec::new();
                    let mut e: usize = 0;
                    while e < m
                        invariant
                            e <= m,
                            left.len() == m,
                            forall|x: int| 0 <= x < left.len() && #[trigger] left[x] ==> wanted[x],
                            wanted.len() == m,
                            forall|x: int|
                                0 <= x < m ==> #[trigger] wanted[x] == (alloc[i as int]@.contains(
                                    x as usize,
                                ) && !dun[x]),
                            forall|j: int|
                                0 <= j < edges.len() ==> alloc[i as int]@.contains(
                                    #[trigger] edges[j],
                                ),
                            forall|x: int| 0 <= x < e && #[trigger] left[x] ==> edges.len() > 0,
                            forall|x: usize| edges@.contains(x) <==> x < e && left[x as int],
                        decreases m - e,
                    {
                        if left[e] {
                            assert(wanted[e as int]);
                            let ghost before = edges@;
                            edges.push(e);
                            proof {
                                assert forall|x: usize| edges@.contains(x) <==> x < e + 1 && left[x as int] by {
                                    if edges@.contains(x) {
                                        let p = choose|p: int| 0 <= p < edges@.len() && edges@[p] == x;
                                        if p < before.len() {
                                            assert(before[p] == x);
                                            assert(before.contains(x));
                                        }
                                    }
                                    if x < e + 1 && left[x as int] {
                                        if x < e {
                                            assert(before.contains(x));
                                            let p = choose|p: int| 0 <= p < before.len() && before[p] == x;
                                            assert(edges@[p] == x);
                                        } else {
                                            assert(edges@[before.len() as int] == x);
                                        }
                                    }
                                }
                            }
                        }
                        e = e + 1;
                    }
                    let stranded = Stranded { vehicle: i, edges };
                    proof {
                        assert forall|j: int| 0 <= j < k implies #[trigger] is_toured(
                            net,
                            direspect,
                            w,
                            starts@,
                            order@,
                            shares,
                            all,
                            was,
                            j,
                        ) by {
                            assert(is_made(
                                net,
                                direspect,
                                w,
                                starts@,
                                order@,
                                shares,
                                snowy@,
                                all,
                                params.slowdown,
                                was,
                                paid,
                                j,
                            ));
                        }
                        assert(crate::pwrp::has_stranded(
                            net,
                            direspect,
                            w,
                            starts@[i as int] as int,
                            wanted,
                            left@,
                        ));
                        assert(forall|x: usize|
                            stranded.edges@.contains(x) <==> x < net.edges() && left@[x as int]);
                        assert(is_stuck_at(
                            net,
                            direspect,
                            w,
                            starts@,
                            order@,
                            shares,
                            all,
                            was,
                            k as int,
                            left@,
                            stranded,
                        ));
                    }
                    return Err(stranded);
                },
            }
            k = k + 1;
        }
        proof {
            assert forall|x: usize| x < weight.len() && #[trigger] held(shares_of(alloc@), x) implies taken(
                views(sols@),
                x,
            ) by {
                let i = choose|i: int|
                    0 <= i < shares_of(alloc@).len() && #[trigger] shares_of(alloc@)[i].contains(x);
                assert(order@.contains(i as usize));
                let j = choose|j: int| 0 <= j < order@.len() && order@[j] == i as usize;
                assert(alloc[order[j] as int]@.contains(x));
            }
        }
        Ok((sols, costs))
    }

    /// Hands closed parts of dearer tours to cheaper ones: for each two
    /// vehicles, in the order given, the first closed part of the dearer
    /// tour that starts at a node of the cheaper.
    fn recycle(
        &self,
        Ghost(direspect): Ghost<bool>,
        Ghost(w): Ghost<Weights>,
        starts: &Vec<usize>,
        order: &Vec<usize>,
        costs: &Vec<u128>,
        sols: &mut Vec<Vec<usize>>,
    )
        requires
            self.wf(),
            w.len() == self.graph_spec()@.edges(),
            starts.len() == old(sols).len(),
            costs.len() == starts.len(),
            is_order(order@, starts.len() as int),
            forall|i: int|
                0 <= i < starts.len() ==> is_tour(
                    self.graph_spec()@,
                    direspect,
                    w,
                    starts[i] as int,
                    #[trigger] old(sols)[i]@,
                ),
        ensures
            final(sols).len() == old(sols).len(),
            forall|i: int|
                0 <= i < starts.len() ==> is_tour(
                    self.graph_spec()@,
                    direspect,
                    w,
                    starts[i] as int,
                    #[trigger] final(sols)[i]@,
                ),
            forall|e: usize| taken(views(final(sols)@), e) <==> taken(views(old(sols)@), e),
            views(final(sols)@) == rows_handed(
                self.graph_spec()@,
                starts@,
                order@,
                costs@,
                views(old(sols)@),
                order.len() as int,
            ),
    {
        let ghost net = self.graph@;
        let ghost before = views(sols@);
        let count = starts.len();
        let mut i: usize = 0;
        while i < count
            invariant
                self.wf(),
                w.len() == self.graph_spec()@.edges(),
                count == starts.len(),
                sols.len() == count,
                old(sols).len() == count,
                costs.len() == count,
                is_order(order@, count as int),
                i <= count,
                net == self.graph_spec()@,
                before == views(old(sols)@),
                views(sols@) == rows_handed(net, starts@, order@, costs@, before, i as int),
                forall|x: int|
                    0 <= x < count ==> is_tour(
                        self.graph_spec()@,
                        direspect,
                        w,
                        starts[x] as int,
                        #[trigger] sols[x]@,
                    ),
                forall|e: usize| taken(views(sols@), e) <==> taken(views(old(sols)@), e),
            decreases count - i,
        {
            let mut j: usize = i + 1;
            while j < count
                invariant
                    self.wf(),
                    w.len() == self.graph_spec()@.edges(),
                    count == starts.len(),
                    sols.len() == count,
                    old(sols).len() == count,
                    costs.len() == count,
                    is_order(order@, count as int),
                    i < j <= count,
                    net == self.graph_spec()@,
                    before == views(old(sols)@),
                    views(sols@) == row_handed(
                        net,
                        starts@,
                        order@,
                        costs@,
                        rows_handed(net, starts@, order@, costs@, before, i as int),
                        i as int,
                        j as int,
                    ),
                    forall|x: int|
                        0 <= x < count ==> is_tour(
                            self.graph_spec()@,
                            direspect,
                            w,
                            starts[x] as int,
                            #[trigger] sols[x]@,
                        ),
                    forall|e: usize| taken(views(sols@), e) <==> taken(views(old(sols)@), e),
                decreases count - j,
            {
                let p = order[i];
                let q = order[j];
                assert(order@[i as int] != order@[j as int]);
                let ghost was = views(sols@);
                if costs[p] > costs[q] {
                    self.hand_over(Ghost(direspect), Ghost(w), starts, sols, p, q);
                } else if costs[q] > costs[p] {
                    self.hand_over(Ghost(direspect), Ghost(w), starts, sols, q, p);
                }
                assert(views(sols@) == pair_handed(
                    net,
                    starts@,
                    order@,
                    costs@,
                    was,
                    i as int,
                    j as int,
                ));
                j = j + 1;
            }
            i = i + 1;
        }
    }
}

/// A copy of the tours.
fn copy_tours(tours: &Vec<Vec<usize>>) -> (r: Vec<Vec<usize>>)
    ensures
        views(r@) == views(tours@),
{
    let mut r: Vec<Vec<usize>> = Vec::new();
    let mut i: usize = 0;
    while i < tours.len()
        invariant
            i <= tours.len(),
            r.len() == i,
            forall|j: int| 0 <= j < i ==> (#[trigger] r[j])@ == tours[j]@,
        decreases tours.len() - i,
    {
        let t = tours[i].clone();
        assert(t@ == tours[i as int]@);
        r.push(t);
        i = i + 1;
    }
    assert(views(r@) =~= views(tours@));
    r
}

/// The sum and the greatest of the costs, the sum capped.
fn sum_and_max(costs: &Vec<u128>) -> (r: (u128, u128))
    ensures
        r.0 == capped_sum(costs@),
        r.1 == max_of(costs@),
        forall|i: int| 0 <= i < costs.len() ==> (#[trigger] costs[i]) <= r.1,
        costs.len() == 0 ==> r.1 == 0,
        costs.len() > 0 ==> exists|i: int| 0 <= i < costs.len() && #[trigger] costs[i] == r.1,
{
    let mut all: u128 = 0;
    let mut max: u128 = 0;
    let mut i: usize = 0;
    assert(costs@.take(0).len() == 0);
    while i < costs.len()
        invariant
            i <= costs.len(),
            all == capped_sum(costs@.take(i as int)),
            max == max_of(costs@.take(i as int)),
            forall|j: int| 0 <= j < i ==> (#[trigger] costs[j]) <= max,
            i == 0 ==> max == 0,
            i > 0 ==> exists|j: int| 0 <= j < i && #[trigger] costs[j] == max,
        decreases costs.len() - i,
    {
        proof {
            assert(costs@.take(i as int + 1).drop_last() == costs@.take(i as int));
            assert(costs@.take(i as int + 1).last() == costs[i as int]);
        }
        all = add_costs(all, costs[i]);
        if costs[i] > max {
            max = costs[i];
        } else if i == 0 {
            assert(costs[0] == max);
        } else {
            let ghost j = choose|j: int| 0 <= j < i && #[trigger] costs[j] == max;
            assert(costs[j] == max);
        }
        i = i + 1;
    }
    assert(costs@.take(costs.len() as int) == costs@);
    (all, max)
}

impl<N: Positioned, E: Edge + Weighted> PlowSolver<N, E> {
    /// The slots of the vehicles' start nodes.
    fn start_slots(&self, sps: &Vec<u64>) -> (r: Vec<usize>)
        requires
            self.wf(),
            forall|i: int| 0 <= i < sps.len() ==> self.graph_spec()@.has(#[trigger] sps[i]),
        ensures
            r.len() == sps.len(),
            forall|i: int|
                0 <= i < sps.len() ==> (#[trigger] r[i]) == self.graph_spec()@.slot(sps[i]) && r[i]
                    < self.graph_spec()@.nodes(),
    {
        let mut r: Vec<usize> = Vec::new();
        let mut i: usize = 0;
        while i < sps.len()
            invariant
                self.wf(),
                forall|j: int| 0 <= j < sps.len() ==> self.graph_spec()@.has(#[trigger] sps[j]),
                i <= sps.len(),
                r.len() == i,
                forall|j: int|
                    0 <= j < i ==> (#[trigger] r[j]) == self.graph_spec()@.slot(sps[j]) && r[j]
                        < self.graph_spec()@.nodes(),
            decreases sps.len() - i,
        {
            let s = match self.graph.slot_of(sps[i]) {
                Some(s) => s,
                None => 0,
            };
            r.push(s);
            i = i + 1;
        }
        r
    }

    /// The state from which the search sets out: the snowy segments
    /// shared out in ascending order of their numbers, an empty tour for
    /// each vehicle, the vehicles in the order given, and nothing kept.
    pub fn start(&self, sps: &Vec<u64>, locs: &Vec<(i32, i32)>, snowy: &HashSet<usize>) -> (r:
        Progress)
        requires
            self.wf(),
            sps.len() == locs.len(),
            locs.len() > 0,
            forall|i: int| 0 <= i < sps.len() ==> self.graph_spec()@.has(#[trigger] sps[i]),
            forall|e: usize| #[trigger] snowy@.contains(e) ==> e < self.graph_spec()@.edges(),
        ensures
            r.sound(self.graph_spec()@, true, self.lengths(), sps@, snowy@),
            r.sound(self.graph_spec()@, false, self.lengths(), sps@, snowy@),
            !r.accepted,
            shares_of(r.alloc@) == allotment(
                self.ends_at(),
                locs@,
                ascending(snowy@, self.graph_spec()@.edges()),
            ),
            forall|i: int| 0 <= i < sps.len() ==> (#[trigger] r.solution[i])@.len() == 0,
            forall|i: int| 0 <= i < sps.len() ==> (#[trigger] r.order[i]) == i,
            r.standing() == set_out(self.graph_spec(), locs@, snowy@),
    {
        broadcast use vstd::std_specs::hash::group_hash_axioms;

        let count = locs.len();
        let m = self.graph.edge_count();
        let mut list: Vec<usize> = Vec::new();
        let mut e: usize = 0;
        while e < m
            invariant
                e <= m,
                list@ == ascending(snowy@, e as nat),
                forall|k: int| 0 <= k < list.len() ==> (#[trigger] list[k]) < e,
            decreases m - e,
        {
            if snowy.contains(&e) {
                list.push(e);
            }
            e = e + 1;
        }
        let alloc = self.initial_allocation(locs, &list);
        let mut solution: Vec<Vec<usize>> = Vec::new();
        let mut order: Vec<usize> = Vec::new();
        let mut i: usize = 0;
        while i < count
            invariant
                i <= count,
                solution.len() == i,
                order.len() == i,
                forall|j: int| 0 <= j < i ==> (#[trigger] solution[j])@.len() == 0,
                forall|j: int| 0 <= j < i ==> (#[trigger] order[j]) == j,
            decreases count - i,
        {
            solution.push(Vec::new());
            order.push(i);
            i = i + 1;
        }
        proof {
            lemma_ascending(snowy@, m as nat);
            lemma_allotment(self.ends_at(), locs@, list@);
            assert(list@.to_set() =~= snowy@);
            assert forall|x: usize| x < count implies #[trigger] order@.contains(x) by {
                assert(order@[x as int] == x);
            }
            assert(self.ends_at() =~= ends_of(self.graph));
            assert(views(solution@) =~= set_out(self.graph, locs@, snowy@).solution) by {
                assert forall|j: int| 0 <= j < count implies #[trigger] views(solution@)[j]
                    =~= Seq::<usize>::empty() by {
                    assert(solution[j]@.len() == 0);
                }
            }
            assert(order@ =~= set_out(self.graph, locs@, snowy@).order);
        }
        Progress {
            alloc,
            solution,
            value_best: u128::MAX,
            cost_max_best: u128::MAX,
            order,
            accepted: false,
        }
    }

    /// One round of the search, for the vehicles in the order in which
    /// they stand.
    ///
    /// A tour is made for each vehicle in that order and the plan is
    /// weighed; where nothing has been kept yet, or the plan is better
    /// than the best so far, it is kept and, where every vehicle clears
    /// what it passes, the shares follow the tours. Then, where asked, closed parts of dearer tours are handed to
    /// cheaper ones; the mended plan counts for the value of the plan it
    /// was made from and for the greatest cost of its own tours, and where
    /// that is better than the best so far, it is kept and the shares
    /// follow the tours.
    ///
    /// A vehicle whose tour cannot be brought to all of its share ends the
    /// round, and nothing is changed.
    #[verifier::rlimit(40)]
    pub fn round<const DIRESPECT: bool>(
        &self,
        sps: &Vec<u64>,
        snowy: &HashSet<usize>,
        params: &Parameters,
        state: &mut Progress,
    ) -> (r: Result<(), Stranded>)
        requires
            self.wf(),
            old(state).sound(self.graph_spec()@, DIRESPECT, self.lengths(), sps@, snowy@),
            forall|e: usize| #[trigger] snowy@.contains(e) ==> e < self.graph_spec()@.edges(),
        ensures
            final(state).sound(self.graph_spec()@, DIRESPECT, self.lengths(), sps@, snowy@),
            final(state).value_best <= old(state).value_best,
            old(state).accepted ==> final(state).accepted,
            final(state).value_best < old(state).value_best ==> final(state).accepted,
            final(state).cost_max_best < old(state).cost_max_best ==> final(state).accepted,
            final(state).order@ == old(state).order@,
            r is Ok ==> final(state).accepted,
            r is Ok ==> is_round(
                self.graph_spec()@,
                DIRESPECT,
                self.lengths(),
                slots_of(self.graph_spec()@, sps@),
                snowy@,
                *params,
                old(state).standing(),
                final(state).standing(),
            ),
            r is Err ==> *final(state) == *old(state),
            r is Err ==> r->Err_0.vehicle < sps.len() && r->Err_0.edges.len() > 0,
            r is Err ==> forall|k: int|
                0 <= k < r->Err_0.edges.len() ==> old(state).alloc[r->Err_0.vehicle as int]@.contains(
                    #[trigger] r->Err_0.edges[k],
                ),
            r is Err ==> is_round_stuck(
                self.graph_spec()@,
                DIRESPECT,
                self.lengths(),
                slots_of(self.graph_spec()@, sps@),
                old(state).order@,
                shares_of(old(state).alloc@),
                params.clearing == Clearing::All,
                r->Err_0,
            ),
    {
        let ghost net = self.graph@;
        let ghost w = self.lengths();
        let weight = self.weights();
        proof {
            assert forall|i: int| 0 <= i < sps.len() implies net.has(#[trigger] sps[i]) by {
                assert(is_tour_from(net, DIRESPECT, w, sps[i], views(state.solution@)[i]));
            }
        }
        let starts = self.start_slots(sps);
        let ghost was = state.standing();
        assert(starts@ =~= slots_of(net, sps@));
        let (sol_next, costs) = match self.make_tours(
            DIRESPECT,
            &starts,
            &state.order,
            &state.alloc,
            snowy,
            params,
            &weight,
        ) {
            Ok(made) => made,
            Err(stranded) => { return Err(stranded); },
        };
        let ghost tours = views(sol_next@);
        let ghost paid = costs@;
        proof {
            assert(all_tours(net, DIRESPECT, w, sps@, views(sol_next@))) by {
                assert forall|i: int| 0 <= i < sps.len() implies is_tour_from(
                    net,
                    DIRESPECT,
                    w,
                    sps[i],
                    #[trigger] views(sol_next@)[i],
                ) by {
                    assert(views(sol_next@)[i] == sol_next[i]@);
                }
            }
            assert(all_cleared(views(sol_next@), snowy@)) by {
                assert forall|e: usize| #[trigger] snowy@.contains(e) implies taken(
                    views(sol_next@),
                    e,
                ) by {
                    assert(held(shares_of(state.alloc@), e));
                }
            }
        }
        let (cost_all, cost_max) = sum_and_max(&costs);
        let value_next = value_of(params.weight_total, params.weight_max, cost_all, cost_max);
        if !state.accepted || is_better(
            value_next,
            cost_max,
            state.value_best,
            state.cost_max_best,
        ) {
            state.solution = copy_tours(&sol_next);
            state.value_best = value_next;
            state.cost_max_best = cost_max;
            state.accepted = true;
            match params.clearing {
                Clearing::All => {
                    let ghost shares = shares_of(state.alloc@);
                    Self::sol_to_alloc(&state.order, &state.solution, &mut state.alloc, snowy);
                    proof {
                        lemma_reallot_partition(
                            state.order@,
                            views(state.solution@),
                            snowy@,
                            shares,
                        );
                    }
                },
                Clearing::OnlyAllocated => {},
            }
        }
        let ghost first = state.standing();
        assert(first == first_kept(snowy@, *params, was, tours, paid));
        match params.recycle {
            Recycle::No => {},
            Recycle::ExpensiveToCheap => {
                let mut sol_improv = sol_next;
                let ghost made = views(sol_improv@);
                assert(state.order@.len() == starts.len());
                self.recycle(
                    Ghost(DIRESPECT),
                    Ghost(w),
                    &starts,
                    &state.order,
                    &costs,
                    &mut sol_improv,
                );
                proof {
                    assert(all_tours(net, DIRESPECT, w, sps@, views(sol_improv@))) by {
                        assert forall|i: int| 0 <= i < sps.len() implies is_tour_from(
                            net,
                            DIRESPECT,
                            w,
                            sps[i],
                            #[trigger] views(sol_improv@)[i],
                        ) by {
                            assert(views(sol_improv@)[i] == sol_improv[i]@);
                        }
                    }
                    assert(all_cleared(views(sol_improv@), snowy@)) by {
                        assert forall|e: usize| #[trigger] snowy@.contains(e) implies taken(
                            views(sol_improv@),
                            e,
                        ) by {
                            assert(taken(made, e));
                        }
                    }
                }
                let mut costs_improv: Vec<u128> = Vec::new();
                let mut none: Vec<bool> = Vec::new();
                let mut e: usize = 0;
                while e < weight.len()
                    invariant
                        e <= weight.len(),
                        none.len() == e,
                        forall|x: int| 0 <= x < e ==> !#[trigger] none[x],
                    decreases weight.len() - e,
                {
                    none.push(false);
                    e = e + 1;
                }
                assert(none@ =~= no_marks(w.len()));
                let ghost mended = views(sol_improv@);
                let ghost dues = mended_costs(w, params.slowdown, snowy@, first.alloc, mended);
                let mut i: usize = 0;
                while i < sol_improv.len()
                    invariant
                        i <= sol_improv.len(),
                        mended == views(sol_improv@),
                        first.alloc == shares_of(state.alloc@),
                        none@ == no_marks(w.len()),
                        dues == mended_costs(w, params.slowdown, snowy@, first.alloc, mended),
                        forall|j: int| 0 <= j < i ==> #[trigger] costs_improv[j] == dues[j],
                        sol_improv.len() == sps.len(),
                        state.alloc.len() == sps.len(),
                        none.len() == weight.len(),
                        weight@ == w,
                        w.len() == net.edges(),
                        all_tours(net, DIRESPECT, w, sps@, views(sol_improv@)),
                        costs_improv.len() == i,
                    decreases sol_improv.len() - i,
                {
                    proof {
                        assert(is_tour_from(net, DIRESPECT, w, sps[i as int], views(sol_improv@)[i as int]));
                        assert(views(sol_improv@)[i as int] == sol_improv[i as int]@);
                        lemma_walk_edges(
                            net,
                            DIRESPECT,
                            w,
                            sol_improv[i as int]@,
                            net.slot(sps[i as int]),
                        );
                    }
                    let c = cost_of(
                        &weight,
                        params.slowdown,
                        snowy,
                        &state.alloc[i],
                        &none,
                        false,
                        &sol_improv[i],
                    );
                    assert(c == dues[i as int]) by {
                        assert(first.alloc[i as int] == state.alloc[i as int]@);
                        assert(mended[i as int] == sol_improv[i as int]@);
                    }
                    costs_improv.push(c);
                    i = i + 1;
                }
                assert(costs_improv@ =~= dues);
                let (_, cost_improv_max) = sum_and_max(&costs_improv);
                let value_improv = value_next;
                if is_better(
                    value_improv,
                    cost_improv_max,
                    state.value_best,
                    state.cost_max_best,
                ) {
                    state.solution = sol_improv;
                    state.value_best = value_improv;
                    state.cost_max_best = cost_improv_max;
                    state.accepted = true;
                    let ghost shares = shares_of(state.alloc@);
                    Self::sol_to_alloc(&state.order, &state.solution, &mut state.alloc, snowy);
                    proof {
                        lemma_reallot_partition(
                            state.order@,
                            views(state.solution@),
                            snowy@,
                            shares,
                        );
                    }
                }
            },
        }
        proof {
            assert(state.standing() == kept_after(net, w, starts@, snowy@, *params, was, tours, paid));
            assert(are_made(
                net,
                DIRESPECT,
                w,
                slots_of(net, sps@),
                was.order,
                was.alloc,
                snowy@,
                clears_all(*params),
                params.slowdown,
                tours,
                paid,
            ));
            assert(is_round(
                net,
                DIRESPECT,
                w,
                slots_of(net, sps@),
                snowy@,
                *params,
                was,
                state.standing(),
            ));
        }
        Ok(())
    }


    /// One round of the search: the order of the vehicles is changed as
    /// asked, and a round is made for the vehicles in that order.
    ///
    /// A vehicle whose tour cannot be brought to all of its share ends the
    /// round, with the order changed and nothing else.
    pub fn step<const DIRESPECT: bool>(
        &self,
        sps: &Vec<u64>,
        snowy: &HashSet<usize>,
        params: &Parameters,
        state: &mut Progress,
    ) -> (r: Result<(), Stranded>)
        requires
            self.wf(),
            old(state).sound(self.graph_spec()@, DIRESPECT, self.lengths(), sps@, snowy@),
            forall|e: usize| #[trigger] snowy@.contains(e) ==> e < self.graph_spec()@.edges(),
        ensures
            final(state).sound(self.graph_spec()@, DIRESPECT, self.lengths(), sps@, snowy@),
            final(state).value_best <= old(state).value_best,
            old(state).accepted ==> final(state).accepted,
            final(state).value_best < old(state).value_best ==> final(state).accepted,
            final(state).cost_max_best < old(state).cost_max_best ==> final(state).accepted,
            is_reordered(
                old(state).order@,
                views(old(state).solution@),
                params.reorder,
                final(state).order@,
            ),
            r is Ok ==> final(state).accepted,
            r is Ok ==> is_step(
                self.graph_spec()@,
                DIRESPECT,
                self.lengths(),
                slots_of(self.graph_spec()@, sps@),
                snowy@,
                *params,
                old(state).standing(),
                final(state).standing(),
            ),
            r is Err ==> final(state).alloc == old(state).alloc,
            r is Err ==> final(state).solution == old(state).solution,
            r is Err ==> final(state).value_best == old(state).value_best,
            r is Err ==> final(state).cost_max_best == old(state).cost_max_best,
            r is Err ==> final(state).accepted == old(state).accepted,
            r is Err ==> r->Err_0.vehicle < sps.len() && r->Err_0.edges.len() > 0,
            r is Err ==> forall|k: int|
                0 <= k < r->Err_0.edges.len() ==> old(state).alloc[r->Err_0.vehicle as int]@.contains(
                    #[trigger] r->Err_0.edges[k],
                ),
            r is Err ==> is_round_stuck(
                self.graph_spec()@,
                DIRESPECT,
                self.lengths(),
                slots_of(self.graph_spec()@, sps@),
                final(state).order@,
                shares_of(old(state).alloc@),
                params.clearing == Clearing::All,
                r->Err_0,
            ),
    {
        let ghost was = state.standing();
        reorder(&mut state.order, &state.solution, params.reorder);
        assert(state.standing() == (Standing { order: state.order@, ..was }));
        self.round::<DIRESPECT>(sps, snowy, params, state)
    }

    /// Searches for plow tours: sets out from the snowy segments shared
    /// out among the vehicles and makes as many rounds as the parameters
    /// ask for, each from the state that the one before left. A vehicle
    /// whose tour cannot be brought to all of its share ends the search.
    #[verifier::rlimit(40)]
    pub fn solve<const DIRESPECT: bool>(
        &self,
        sps: &Vec<u64>,
        locs: &Vec<(i32, i32)>,
        snowy: &HashSet<usize>,
        params: &Parameters,
    ) -> (r: Result<Progress, Stranded>)
        requires
            self.wf(),
            sps.len() == locs.len(),
            locs.len() > 0,
            forall|i: int| 0 <= i < sps.len() ==> self.graph_spec()@.has(#[trigger] sps[i]),
            forall|e: usize| #[trigger] snowy@.contains(e) ==> e < self.graph_spec()@.edges(),
        ensures
            is_searched(self.graph_spec(), DIRESPECT, sps@, locs@, snowy@, *params, r),
    {
        let ghost net = self.graph@;
        let ghost w = self.lengths();
        let ghost starts = slots_of(net, sps@);
        let mut state = self.start(sps, locs, snowy);
        let ghost trace: Seq<Standing> = seq![state.standing()];
        let mut round: u64 = 0;
        while round < params.main_iterations
            invariant
                self.wf(),
                net == self.graph_spec()@,
                w == self.lengths(),
                starts == slots_of(net, sps@),
                round <= params.main_iterations,
                state.sound(net, DIRESPECT, w, sps@, snowy@),
                forall|e: usize| #[trigger] snowy@.contains(e) ==> e < net.edges(),
                is_run(net, DIRESPECT, w, starts, snowy@, *params, trace),
                trace[0] == set_out(self.graph_spec(), locs@, snowy@),
                trace.len() == round + 1,
                trace.last() == state.standing(),
                round > 0 ==> state.accepted,
            decreases params.main_iterations - round,
        {
            let ghost shares = shares_of(state.alloc@);
            let ghost before = trace;
            match self.step::<DIRESPECT>(sps, snowy, params, &mut state) {
                Ok(()) => {
                    proof {
                        trace = before.push(state.standing());
                        assert forall|k: int| 0 <= k < trace.len() - 1 implies #[trigger] is_link(
                            net,
                            DIRESPECT,
                            w,
                            starts,
                            snowy@,
                            *params,
                            trace,
                            k,
                        ) by {
                            if k < before.len() - 1 {
                                assert(is_link(net, DIRESPECT, w, starts, snowy@, *params, before, k));
                            }
                        }
                    }
                },
                Err(stranded) => {
                    proof {
                        assert forall|k: int| 0 <= k < stranded.edges.len() implies snowy@.contains(
                            #[trigger] stranded.edges[k],
                        ) by {
                            assert(shares[stranded.vehicle as int].contains(stranded.edges[k]));
                        }
                        assert(is_halted(
                            net,
                            DIRESPECT,
                            w,
                            starts,
                            snowy@,
                            *params,
                            trace,
                            state.order@,
                            stranded,
                        ));
                    }
                    return Err(stranded);
                },
            }
            round = round + 1;
        }
        Ok(state)
    }
}

/// The slots at which a tour from slot `s` stands: before its first edge
/// and after each of its edges.
pub open spec fn stops(net: Net, tour: Seq<usize>, s: int) -> Seq<int> {
    Seq::new(tour.len() + 1, |i: int| walk_end(net, tour.take(i), s))
}

/// Whether the tour that stands at `va` comes again, behind place `i`, to
/// the node where it stands there.
pub open spec fn recurs(va: Seq<int>, i: int) -> bool {
    exists|k: int| i < k < va.len() && #[trigger] va[k] == va[i]
}

/// Whether the tour that stands at `vb` comes to the node in slot `x`.
pub open spec fn occurs(vb: Seq<int>, x: int) -> bool {
    exists|j: int| 0 <= j < vb.len() && #[trigger] vb[j] == x
}

/// Whether the tour that stands at `va` has a closed part from place `i`
/// on that the tour that stands at `vb` can take.
pub open spec fn can_give(va: Seq<int>, vb: Seq<int>, i: int) -> bool {
    occurs(vb, va[i]) && recurs(va, i)
}

/// Whether the part to hand over lies between the places `iu` and `iv` of
/// the giving tour and goes to place `ju` of the taking tour: `iu` is the
/// first place from which the giving tour has a closed part that the
/// taking tour can take, `iv` is the next place at which it stands at the
/// same node, and `ju` is the first place at which the taking tour
/// stands there.
pub open spec fn is_site(va: Seq<int>, vb: Seq<int>, iu: int, ju: int, iv: int) -> bool {
    &&& 0 <= iu < iv < va.len()
    &&& 0 <= ju < vb.len()
    &&& vb[ju] == va[iu]
    &&& va[iv] == va[iu]
    &&& forall|j: int| 0 <= j < ju ==> #[trigger] vb[j] != va[iu]
    &&& forall|k: int| iu < k < iv ==> #[trigger] va[k] != va[iu]
    &&& forall|i: int| 0 <= i < iu ==> !#[trigger] can_give(va, vb, i)
}

/// There is one such part at most.
pub proof fn lemma_site_unique(va: Seq<int>, vb: Seq<int>, iu: int, ju: int, iv: int)
    requires
        is_site(va, vb, iu, ju, iv),
    ensures
        forall|i: int, j: int, k: int| #[trigger]
            is_site(va, vb, i, j, k) ==> i == iu && j == ju && k == iv,
{
    assert(vb[ju] == va[iu]);
    assert(va[iv] == va[iu]);
    assert(can_give(va, vb, iu));
    assert forall|i: int, j: int, k: int| #[trigger] is_site(va, vb, i, j, k) implies i == iu && j
        == ju && k == iv by {
        assert(vb[j] == va[i]);
        assert(va[k] == va[i]);
        assert(can_give(va, vb, i));
        if i < iu {
            assert(!can_give(va, vb, i));
        } else if iu < i {
            assert(!can_give(va, vb, iu));
        } else {
            if j < ju {
                assert(vb[j] != va[iu]);
            } else if ju < j {
                assert(vb[ju] != va[i]);
            }
            if k < iv {
                assert(va[k] != va[iu]);
            } else if iv < k {
                assert(va[iv] != va[i]);
            }
        }
    }
}

/// The tours with the edges between the places `iu` and `iv` of tour `a`
/// taken out of it and let into tour `b` at place `ju`.
pub open spec fn handed(
    sols: Seq<Seq<usize>>,
    a: int,
    b: int,
    iu: int,
    ju: int,
    iv: int,
) -> Seq<Seq<usize>> {
    sols.update(a, sols[a].take(iu) + sols[a].skip(iv)).update(
        b,
        sols[b].take(ju) + sols[a].subrange(iu, iv) + sols[b].skip(ju),
    )
}

/// The tours once tour `a` has handed the first closed part that tour `b`
/// can take over to it: the part is taken out of tour `a` and let into
/// tour `b` where that tour first stands at the node of the part. Where
/// there is no such part, the tours are as they were.
pub open spec fn handed_over(
    net: Net,
    starts: Seq<usize>,
    sols: Seq<Seq<usize>>,
    a: int,
    b: int,
) -> Seq<Seq<usize>> {
    let va = stops(net, sols[a], starts[a] as int);
    let vb = stops(net, sols[b], starts[b] as int);
    if exists|iu: int, ju: int, iv: int| #[trigger] is_site(va, vb, iu, ju, iv) {
        let site = choose|iu: int, ju: int, iv: int| #[trigger] is_site(va, vb, iu, ju, iv);
        handed(sols, a, b, site.0, site.1, site.2)
    } else {
        sols
    }
}

/// The tours once the vehicles at the places `i` and `j` of the order
/// have been through handing over: the one whose tour is dearer hands over
/// to the other; where the tours cost the same, nothing is handed over.
pub open spec fn pair_handed(
    net: Net,
    starts: Seq<usize>,
    order: Seq<usize>,
    costs: Seq<u128>,
    sols: Seq<Seq<usize>>,
    i: int,
    j: int,
) -> Seq<Seq<usize>> {
    let p = order[i] as int;
    let q = order[j] as int;
    if costs[p] > costs[q] {
        handed_over(net, starts, sols, p, q)
    } else if costs[q] > costs[p] {
        handed_over(net, starts, sols, q, p)
    } else {
        sols
    }
}

/// The tours once the vehicle at place `i` of the order has been through
/// handing over with each of those at the places behind it and before
/// place `j`, in turn.
pub open spec fn row_handed(
    net: Net,
    starts: Seq<usize>,
    order: Seq<usize>,
    costs: Seq<u128>,
    sols: Seq<Seq<usize>>,
    i: int,
    j: int,
) -> Seq<Seq<usize>>
    decreases j - i,
{
    if j <= i + 1 {
        sols
    } else {
        pair_handed(
            net,
            starts,
            order,
            costs,
            row_handed(net, starts, order, costs, sols, i, j - 1),
            i,
            j - 1,
        )
    }
}

/// The tours once each of the vehicles at the first `i` places of the
/// order has been through handing over with each of those behind it, in
/// turn.
pub open spec fn rows_handed(
    net: Net,
    starts: Seq<usize>,
    order: Seq<usize>,
    costs: Seq<u128>,
    sols: Seq<Seq<usize>>,
    i: int,
) -> Seq<Seq<usize>>
    decreases i,
{
    if i <= 0 {
        sols
    } else {
        row_handed(
            net,
            starts,
            order,
            costs,
            rows_handed(net, starts, order, costs, sols, i - 1),
            i - 1,
            order.len() as int,
        )
    }
}

/// For each edge of a graph the places of its two ends.
pub open spec fn ends_of<N: Positioned, E: Edge>(g: Graph<N, E>) -> Seq<((i32, i32), (i32, i32))> {
    Seq::new(
        g@.edges(),
        |e: int| (g.payloads()[g@.tail(e)].pos_spec(), g.payloads()[g@.head(e)].pos_spec()),
    )
}

/// The state from which the search sets out, for vehicles that stand at
/// the places `locs`: the snowy segments shared out in ascending order of
/// their numbers, an empty tour for each vehicle, the vehicles in the
/// order given, and nothing kept.
pub open spec fn set_out<N: Positioned, E: Edge>(
    g: Graph<N, E>,
    locs: Seq<(i32, i32)>,
    snowy: Set<usize>,
) -> Standing {
    Standing {
        alloc: allotment(ends_of(g), locs, ascending(snowy, g@.edges())),
        solution: Seq::new(locs.len(), |i: int| Seq::<usize>::empty()),
        value_best: u128::MAX,
        cost_max_best: u128::MAX,
        order: Seq::new(locs.len(), |i: int| i as usize),
        accepted: false,
    }
}

/// Whether the state at place `k + 1` of `trace` is the state after a
/// round from the state at place `k`.
pub open spec fn is_link(
    net: Net,
    direspect: bool,
    w: Weights,
    starts: Seq<usize>,
    snowy: Set<usize>,
    params: Parameters,
    trace: Seq<Standing>,
    k: int,
) -> bool {
    is_step(net, direspect, w, starts, snowy, params, trace[k], trace[k + 1])
}

/// Whether `trace` holds the states of a search, round by round: each
/// but the first is the state after a round from the one before it.
pub open spec fn is_run(
    net: Net,
    direspect: bool,
    w: Weights,
    starts: Seq<usize>,
    snowy: Set<usize>,
    params: Parameters,
    trace: Seq<Standing>,
) -> bool {
    &&& trace.len() > 0
    &&& forall|k: int|
        0 <= k < trace.len() - 1 ==> #[trigger] is_link(
            net,
            direspect,
            w,
            starts,
            snowy,
            params,
            trace,
            k,
        )
}

/// Whether the search whose states so far are `trace` has made fewer
/// rounds than were asked for and ends in its next round: with the
/// vehicles brought into the order `order`, the vehicle `stranded.vehicle`
/// cannot bring its tour to all of its share.
pub open spec fn is_halted(
    net: Net,
    direspect: bool,
    w: Weights,
    starts: Seq<usize>,
    snowy: Set<usize>,
    params: Parameters,
    trace: Seq<Standing>,
    order: Seq<usize>,
    stranded: Stranded,
) -> bool {
    &&& is_run(net, direspect, w, starts, snowy, params, trace)
    &&& trace.len() <= params.main_iterations
    &&& is_reordered(trace.last().order, trace.last().solution, params.reorder, order)
    &&& is_round_stuck(
        net,
        direspect,
        w,
        starts,
        order,
        trace.last().alloc,
        params.clearing == Clearing::All,
        stranded,
    )
}

/// Whether `r` is what the search for plow tours ends on, for vehicles
/// that start at the nodes `sps` and stand at the places `locs`, over the
/// snowy segments `snowy`.
///
/// The search sets out from the snowy segments shared out and makes a
/// round from each state to the next. Where it makes as many rounds as
/// were asked for, it ends on the state after the last of them; after
/// one round or more, tours have been kept, and every snowy segment is
/// taken by one of them. Where a
/// round before that cannot be made, because a vehicle cannot bring its
/// tour to all of its share, it ends on that vehicle and on the segments
/// of its share that it did not reach.
pub open spec fn is_searched<N: Positioned, E: Edge + Weighted>(
    graph: Graph<N, E>,
    direspect: bool,
    sps: Seq<u64>,
    locs: Seq<(i32, i32)>,
    snowy: Set<usize>,
    params: Parameters,
    r: Result<Progress, Stranded>,
) -> bool {
    let w = lengths_of(graph);
    let starts = slots_of(graph@, sps);
    match r {
        Ok(state) => {
            &&& state.sound(graph@, direspect, w, sps, snowy)
            &&& params.main_iterations > 0 ==> state.accepted && all_cleared(
                views(state.solution@),
                snowy,
            )
            &&& exists|trace: Seq<Standing>| #[trigger]
                is_run(graph@, direspect, w, starts, snowy, params, trace) && trace[0] == set_out(
                    graph,
                    locs,
                    snowy,
                ) && trace.len() == params.main_iterations + 1 && trace.last() == state.standing()
        },
        Err(stranded) => {
            &&& stranded.vehicle < sps.len()
            &&& stranded.edges.len() > 0
            &&& forall|k: int|
                0 <= k < stranded.edges.len() ==> snowy.contains(#[trigger] stranded.edges[k])
            &&& exists|trace: Seq<Standing>, order: Seq<usize>| #[trigger]
                is_halted(graph@, direspect, w, starts, snowy, params, trace, order, stranded)
                    && trace[0] == set_out(graph, locs, snowy)
        },
    }
}

/// The sum of the costs, capped at each step.
pub open spec fn capped_sum(costs: Seq<u128>) -> u128
    decreases costs.len(),
{
    if costs.len() == 0 {
        0
    } else {
        capped(capped_sum(costs.drop_last()) + costs.last())
    }
}

/// The greatest of the costs; 0 where there is none.
pub open spec fn max_of(costs: Seq<u128>) -> u128
    decreases costs.len(),
{
    if costs.len() == 0 {
        0
    } else if costs.last() > max_of(costs.drop_last()) {
        costs.last()
    } else {
        max_of(costs.drop_last())
    }
}

/// For each edge whether a vehicle before place `k` of the order has taken
/// it, where every vehicle clears what it passes; no edge else.
pub open spec fn done_marks(
    all: bool,
    order: Seq<usize>,
    tours: Seq<Seq<usize>>,
    k: int,
    m: nat,
) -> Seq<bool> {
    Seq::new(m, |e: int| all && cleared_before(order, tours, k, e as usize))
}

/// Whether the tour of a vehicle before place `k` of the order takes edge
/// `e`.
pub open spec fn cleared_before(order: Seq<usize>, tours: Seq<Seq<usize>>, k: int, e: usize) -> bool {
    exists|j: int| 0 <= j < k && #[trigger] tours[order[j] as int].contains(e)
}

/// For each edge whether it is in the share and not done.
pub open spec fn need_marks(share: Set<usize>, done: Seq<bool>, m: nat) -> Seq<bool> {
    Seq::new(m, |e: int| share.contains(e as usize) && !done[e])
}

/// Whether the tour and the cost of the vehicle at place `k` of the order
/// are as they are made: the tour is a closed walk from the vehicle's
/// start that takes no edge twice and takes every edge of its share that
/// is not done, grown piece by piece as the search for it grows it; the
/// cost is what the tour costs the vehicle.
pub open spec fn is_made(
    net: Net,
    direspect: bool,
    w: Weights,
    starts: Seq<usize>,
    order: Seq<usize>,
    shares: Seq<Set<usize>>,
    snowy: Set<usize>,
    all: bool,
    slowdown: u64,
    tours: Seq<Seq<usize>>,
    costs: Seq<u128>,
    k: int,
) -> bool {
    let i = order[k] as int;
    let done = done_marks(all, order, tours, k, net.edges());
    &&& is_toured(net, direspect, w, starts, order, shares, all, tours, k)
    &&& costs[i] == capped(tour_cost(w, slowdown, snowy, shares[i], done, all, tours[i]))
}

/// Whether the tour of the vehicle at place `k` of the order is as it is
/// made.
pub open spec fn is_toured(
    net: Net,
    direspect: bool,
    w: Weights,
    starts: Seq<usize>,
    order: Seq<usize>,
    shares: Seq<Set<usize>>,
    all: bool,
    tours: Seq<Seq<usize>>,
    k: int,
) -> bool {
    let i = order[k] as int;
    let need = need_marks(shares[i], done_marks(all, order, tours, k, net.edges()), net.edges());
    &&& is_tour(net, direspect, w, starts[i] as int, tours[i])
    &&& tours[i].no_duplicates()
    &&& forall|e: int| 0 <= e < net.edges() && #[trigger] need[e] ==> tours[i].contains(e as usize)
    &&& crate::pwrp::is_grown_to(net, direspect, w, starts[i] as int, need, tours[i])
}

/// Whether the tours and costs are as they are made for the vehicles in
/// the order given.
pub open spec fn are_made(
    net: Net,
    direspect: bool,
    w: Weights,
    starts: Seq<usize>,
    order: Seq<usize>,
    shares: Seq<Set<usize>>,
    snowy: Set<usize>,
    all: bool,
    slowdown: u64,
    tours: Seq<Seq<usize>>,
    costs: Seq<u128>,
) -> bool {
    &&& tours.len() == order.len()
    &&& costs.len() == order.len()
    &&& forall|k: int|
        0 <= k < order.len() ==> #[trigger] is_made(
            net,
            direspect,
            w,
            starts,
            order,
            shares,
            snowy,
            all,
            slowdown,
            tours,
            costs,
            k,
        )
}

/// Whether the making of tours strands at place `k` of the order: the
/// tours of the vehicles before it are as they are made, and the search
/// for the tour of the vehicle there ends with the edges marked in `left`
/// not taken, which are those that `stranded` lists.
pub open spec fn is_stuck_at(
    net: Net,
    direspect: bool,
    w: Weights,
    starts: Seq<usize>,
    order: Seq<usize>,
    shares: Seq<Set<usize>>,
    all: bool,
    tours: Seq<Seq<usize>>,
    k: int,
    left: Seq<bool>,
    stranded: Stranded,
) -> bool {
    let i = order[k] as int;
    let need = need_marks(shares[i], done_marks(all, order, tours, k, net.edges()), net.edges());
    &&& 0 <= k < order.len()
    &&& forall|j: int|
        0 <= j < k ==> #[trigger] is_toured(net, direspect, w, starts, order, shares, all, tours, j)
    &&& crate::pwrp::has_stranded(net, direspect, w, starts[i] as int, need, left)
    &&& stranded.vehicle == i
    &&& forall|e: usize| stranded.edges@.contains(e) <==> e < net.edges() && left[e as int]
}

/// Whether the making of tours strands on the vehicle and the edges of
/// `stranded`.
pub open spec fn is_round_stuck(
    net: Net,
    direspect: bool,
    w: Weights,
    starts: Seq<usize>,
    order: Seq<usize>,
    shares: Seq<Set<usize>>,
    all: bool,
    stranded: Stranded,
) -> bool {
    exists|tours: Seq<Seq<usize>>, k: int, left: Seq<bool>| #[trigger]
        is_stuck_at(net, direspect, w, starts, order, shares, all, tours, k, left, stranded)
}

/// What is done before the next place of the order: what was done, and
/// what the tour just made takes.
pub proof fn lemma_done_next(
    all: bool,
    order: Seq<usize>,
    was: Seq<Seq<usize>>,
    k: int,
    path: Seq<usize>,
    m: nat,
    x: int,
)
    requires
        0 <= k < order.len(),
        order.no_duplicates(),
        forall|j: int| 0 <= j < order.len() ==> 0 <= (#[trigger] order[j]) < was.len(),
        0 <= x < m,
    ensures
        done_marks(all, order, was.update(order[k] as int, path), k + 1, m)[x] == (done_marks(
            all,
            order,
            was,
            k,
            m,
        )[x] || (all && path.contains(x as usize))),
        done_marks(all, order, was.update(order[k] as int, path), k, m)[x] == done_marks(
            all,
            order,
            was,
            k,
            m,
        )[x],
{
    let now = was.update(order[k] as int, path);
    let e = x as usize;
    if cleared_before(order, was, k, e) {
        let j = choose|j: int| 0 <= j < k && #[trigger] was[order[j] as int].contains(e);
        assert(order[j] != order[k]);
        assert(now[order[j] as int].contains(e));
    }
    if cleared_before(order, now, k, e) {
        let j = choose|j: int| 0 <= j < k && #[trigger] now[order[j] as int].contains(e);
        assert(order[j] != order[k]);
        assert(was[order[j] as int].contains(e));
    }
    if cleared_before(order, now, k + 1, e) {
        let j = choose|j: int| 0 <= j < k + 1 && #[trigger] now[order[j] as int].contains(e);
        if j < k {
            assert(order[j] != order[k]);
            assert(was[order[j] as int].contains(e));
        }
    }
    if path.contains(e) {
        assert(now[order[k] as int].contains(e));
    }
}

/// The tours made so far stay as they are made when the next is made.
pub proof fn lemma_made_more(
    net: Net,
    direspect: bool,
    w: Weights,
    starts: Seq<usize>,
    order: Seq<usize>,
    shares: Seq<Set<usize>>,
    snowy: Set<usize>,
    all: bool,
    slowdown: u64,
    was: Seq<Seq<usize>>,
    paid: Seq<u128>,
    k: int,
    path: Seq<usize>,
    c: u128,
    m: nat,
)
    requires
        m == net.edges(),
        0 <= k < order.len(),
        order.no_duplicates(),
        was.len() == order.len(),
        paid.len() == order.len(),
        forall|j: int| 0 <= j < order.len() ==> 0 <= (#[trigger] order[j]) < was.len(),
        forall|j: int|
            0 <= j < k ==> #[trigger] is_made(
                net,
                direspect,
                w,
                starts,
                order,
                shares,
                snowy,
                all,
                slowdown,
                was,
                paid,
                j,
            ),
        is_tour(net, direspect, w, starts[order[k] as int] as int, path),
        path.no_duplicates(),
        forall|e: int|
            0 <= e < m && #[trigger] need_marks(
                shares[order[k] as int],
                done_marks(all, order, was, k, m),
                m,
            )[e] ==> path.contains(e as usize),
        crate::pwrp::is_grown_to(
            net,
            direspect,
            w,
            starts[order[k] as int] as int,
            need_marks(shares[order[k] as int], done_marks(all, order, was, k, m), m),
            path,
        ),
        c == capped(
            tour_cost(
                w,
                slowdown,
                snowy,
                shares[order[k] as int],
                done_marks(all, order, was, k, m),
                all,
                path,
            ),
        ),
    ensures
        forall|j: int|
            0 <= j < k + 1 ==> #[trigger] is_made(
                net,
                direspect,
                w,
                starts,
                order,
                shares,
                snowy,
                all,
                slowdown,
                was.update(order[k] as int, path),
                paid.update(order[k] as int, c),
                j,
            ),
{
    let i = order[k] as int;
    let now = was.update(i, path);
    let pay = paid.update(i, c);
    assert forall|j: int| 0 <= j < k + 1 implies #[trigger] is_made(
        net,
        direspect,
        w,
        starts,
        order,
        shares,
        snowy,
        all,
        slowdown,
        now,
        pay,
        j,
    ) by {
        assert(done_marks(all, order, now, j, m) =~= done_marks(all, order, was, j, m)) by {
            assert forall|x: int| 0 <= x < m implies done_marks(all, order, now, j, m)[x]
                == done_marks(all, order, was, j, m)[x] by {
                let e = x as usize;
                if cleared_before(order, was, j, e) {
                    let p = choose|p: int| 0 <= p < j && #[trigger] was[order[p] as int].contains(e);
                    assert(order[p] != order[k]);
                    assert(now[order[p] as int].contains(e));
                }
                if cleared_before(order, now, j, e) {
                    let p = choose|p: int| 0 <= p < j && #[trigger] now[order[p] as int].contains(e);
                    assert(order[p] != order[k]);
                    assert(was[order[p] as int].contains(e));
                }
            }
        }
        if j < k {
            assert(order[j] != order[k]);
            assert(is_made(net, direspect, w, starts, order, shares, snowy, all, slowdown, was, paid, j));
            assert(now[order[j] as int] == was[order[j] as int]);
            assert(pay[order[j] as int] == paid[order[j] as int]);
        }
    }
}

/// What the search holds between rounds, as a mathematical value.
pub struct Standing {
    pub alloc: Seq<Set<usize>>,
    pub solution: Seq<Seq<usize>>,
    pub value_best: u128,
    pub cost_max_best: u128,
    pub order: Seq<usize>,
    pub accepted: bool,
}

impl Progress {
    /// The state as a mathematical value.
    pub open spec fn standing(&self) -> Standing {
        Standing {
            alloc: shares_of(self.alloc@),
            solution: views(self.solution@),
            value_best: self.value_best,
            cost_max_best: self.cost_max_best,
            order: self.order@,
            accepted: self.accepted,
        }
    }
}

/// The slots of the nodes `sps`.
pub open spec fn slots_of(net: Net, sps: Seq<u64>) -> Seq<usize> {
    Seq::new(sps.len(), |i: int| net.slot(sps[i]) as usize)
}

/// No mark set for any of `m` edges.
pub open spec fn no_marks(m: nat) -> Seq<bool> {
    Seq::new(m, |e: int| false)
}

/// What the mended tours cost their vehicles, each slow on the snowy
/// segments of its own share.
pub open spec fn mended_costs(
    w: Weights,
    slowdown: u64,
    snowy: Set<usize>,
    shares: Seq<Set<usize>>,
    mended: Seq<Seq<usize>>,
) -> Seq<u128> {
    Seq::new(
        mended.len(),
        |i: int| capped(tour_cost(w, slowdown, snowy, shares[i], no_marks(w.len()), false, mended[i])),
    )
}

/// The state once the tours made have been weighed: where nothing has
/// been kept yet, or the plan is better than the best so far, it is kept
/// and, where every vehicle clears what it passes, the shares follow the
/// tours.
pub open spec fn first_kept(
    snowy: Set<usize>,
    params: Parameters,
    was: Standing,
    tours: Seq<Seq<usize>>,
    costs: Seq<u128>,
) -> Standing {
    let value = plan_value(params.weight_total, params.weight_max, capped_sum(costs), max_of(costs));
    if !was.accepted || improves(value, max_of(costs), was.value_best, was.cost_max_best) {
        Standing {
            alloc: if params.clearing == Clearing::All {
                reallot(was.order, tours, snowy, was.alloc)
            } else {
                was.alloc
            },
            solution: tours,
            value_best: value,
            cost_max_best: max_of(costs),
            order: was.order,
            accepted: true,
        }
    } else {
        was
    }
}

/// The state after a round in which the tours `tours` were made at the
/// costs `costs`: the tours are weighed and kept where they are better;
/// then, where asked, closed parts of dearer tours are handed to cheaper
/// ones, and the mended plan, which counts for the value of the plan it
/// was made from and for the greatest cost of its own tours, is kept where
/// that is better, and the shares follow its tours.
pub open spec fn kept_after(
    net: Net,
    w: Weights,
    starts: Seq<usize>,
    snowy: Set<usize>,
    params: Parameters,
    was: Standing,
    tours: Seq<Seq<usize>>,
    costs: Seq<u128>,
) -> Standing {
    let value = plan_value(params.weight_total, params.weight_max, capped_sum(costs), max_of(costs));
    let first = first_kept(snowy, params, was, tours, costs);
    if params.recycle == Recycle::No {
        first
    } else {
        let mended = rows_handed(net, starts, was.order, costs, tours, was.order.len() as int);
        let dues = mended_costs(w, params.slowdown, snowy, first.alloc, mended);
        if improves(value, max_of(dues), first.value_best, first.cost_max_best) {
            Standing {
                alloc: reallot(was.order, mended, snowy, first.alloc),
                solution: mended,
                value_best: value,
                cost_max_best: max_of(dues),
                order: was.order,
                accepted: true,
            }
        } else {
            first
        }
    }
}

/// Whether every vehicle clears what it passes.
pub open spec fn clears_all(params: Parameters) -> bool {
    params.clearing == Clearing::All
}

/// Whether `now` is the state after a round from the state `was`, for the
/// vehicles in the order in which they stand there: tours are made for
/// them as they are made, and the state is what is kept of them.
pub open spec fn is_round(
    net: Net,
    direspect: bool,
    w: Weights,
    starts: Seq<usize>,
    snowy: Set<usize>,
    params: Parameters,
    was: Standing,
    now: Standing,
) -> bool {
    exists|tours: Seq<Seq<usize>>, costs: Seq<u128>|
        #[trigger] are_made(
            net,
            direspect,
            w,
            starts,
            was.order,
            was.alloc,
            snowy,
            clears_all(params),
            params.slowdown,
            tours,
            costs,
        ) && now == kept_after(net, w, starts, snowy, params, was, tours, costs)
}

/// Whether `now` is the state after a round from the state `was`: the
/// order is changed as asked, and a round is made in that order.
pub open spec fn is_step(
    net: Net,
    direspect: bool,
    w: Weights,
    starts: Seq<usize>,
    snowy: Set<usize>,
    params: Parameters,
    was: Standing,
    now: Standing,
) -> bool {
    &&& is_reordered(was.order, was.solution, params.reorder, now.order)
    &&& is_round(net, direspect, w, starts, snowy, params, (Standing { order: now.order, ..was }), now)
}

} // verus!
