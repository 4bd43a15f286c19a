//! The plow solver: a road graph with what the planner needs of its nodes
//! and edges, and the sharing of the snowy segments among the vehicles.

use crate::allot::{allotment, held, is_partition, lighter};
use crate::data::{closest, nearest};
use crate::edge::Edge;
use crate::graph::Graph;
use crate::road::{Positioned, Weighted};
use std::collections::HashSet;
use vstd::prelude::*;

verus! {

/// A road graph whose nodes have places and whose edges have costs.
#[derive(Debug)]
pub struct PlowSolver<N: Positioned, E: Edge + Weighted> {
    pub(crate) graph: Graph<N, E>,
}

/// The shares as sets.
pub open spec fn shares_of(alloc: Seq<HashSet<usize>>) -> Seq<Set<usize>> {
    Seq::new(alloc.len(), |i: int| alloc[i]@)
}

/// Whether the solution of the vehicle at position `k` of `order` takes
/// segment `e`.
pub open spec fn claims(order: Seq<usize>, sols: Seq<Seq<usize>>, k: int, e: usize) -> bool {
    0 <= k < order.len() && 0 <= order[k] < sols.len() && sols[order[k] as int].contains(e)
}

/// Whether a solution takes segment `e`.
pub open spec fn claimed(order: Seq<usize>, sols: Seq<Seq<usize>>, e: usize) -> bool {
    exists|k: int| #[trigger] claims(order, sols, k, e)
}

/// The first position of `order` whose vehicle's solution takes segment
/// `e`.
pub open spec fn first_claim(order: Seq<usize>, sols: Seq<Seq<usize>>, e: usize) -> int {
    choose|k: int|
        #[trigger] claims(order, sols, k, e) && forall|j: int|
            0 <= j < k ==> !#[trigger] claims(order, sols, j, e)
}

/// The shares once the solutions have been heeded: a snowy segment that a
/// solution takes is in the share of the first vehicle in `order` whose
/// solution takes it, and in no other; every other segment is where it
/// was.
pub open spec fn reallot(
    order: Seq<usize>,
    sols: Seq<Seq<usize>>,
    snowy: Set<usize>,
    shares: Seq<Set<usize>>,
) -> Seq<Set<usize>> {
    Seq::new(
        shares.len(),
        |j: int|
            Set::new(
                |e: usize|
                    if snowy.contains(e) && claimed(order, sols, e) {
                        j == order[first_claim(order, sols, e)]
                    } else {
                        shares[j].contains(e)
                    },
            ),
    )
}

/// Among the positions whose vehicle's solution takes a segment, one is
/// the first.
pub proof fn lemma_first_claim(order: Seq<usize>, sols: Seq<Seq<usize>>, e: usize, k: int)
    requires
        claims(order, sols, k, e),
        forall|j: int| 0 <= j < k ==> !#[trigger] claims(order, sols, j, e),
    ensures
        claimed(order, sols, e),
        first_claim(order, sols, e) == k,
{
    let f = first_claim(order, sols, e);
    assert(claims(order, sols, f, e) && forall|j: int|
        0 <= j < f ==> !#[trigger] claims(order, sols, j, e));
    if f < k {
        assert(!claims(order, sols, f, e));
    } else if k < f {
        assert(!claims(order, sols, k, e));
    }
}

/// Heeding the solutions leaves every snowy segment in one share.
pub proof fn lemma_reallot_partition(
    order: Seq<usize>,
    sols: Seq<Seq<usize>>,
    snowy: Set<usize>,
    shares: Seq<Set<usize>>,
)
    requires
        is_partition(shares, snowy),
        forall|k: int| 0 <= k < order.len() ==> (#[trigger] order[k]) < shares.len(),
    ensures
        is_partition(reallot(order, sols, snowy, shares), snowy),
{
    let now = reallot(order, sols, snowy, shares);
    assert forall|e: usize| #[trigger] snowy.contains(e) implies held(now, e) by {
        if claimed(order, sols, e) {
            let c = choose|c: int| #[trigger] claims(order, sols, c, e);
            lemma_first_claim_exists(order, sols, e, c);
            let f = first_claim(order, sols, e);
            assert(claims(order, sols, f, e));
            assert(now[order[f] as int].contains(e));
        } else {
            assert(held(shares, e));
            let i = choose|i: int| 0 <= i < shares.len() && #[trigger] shares[i].contains(e);
            assert(now[i].contains(e));
        }
    }
    assert forall|i: int, e: usize|
        0 <= i < now.len() && #[trigger] now[i].contains(e) implies snowy.contains(e) by {
        if !(snowy.contains(e) && claimed(order, sols, e)) {
            assert(shares[i].contains(e));
        }
    }
    assert forall|i: int, j: int, e: usize|
        0 <= i < now.len() && 0 <= j < now.len() && #[trigger] now[i].contains(e)
            && #[trigger] now[j].contains(e) implies i == j by {
        if !(snowy.contains(e) && claimed(order, sols, e)) {
            assert(shares[i].contains(e));
            assert(shares[j].contains(e));
        }
    }
}

/// Where a solution takes a segment, a first one does.
pub proof fn lemma_first_claim_exists(order: Seq<usize>, sols: Seq<Seq<usize>>, e: usize, k: int)
    requires
        claims(order, sols, k, e),
    ensures
        claims(order, sols, first_claim(order, sols, e), e),
        0 <= first_claim(order, sols, e) <= k,
    decreases k,
{
    if exists|j: int| 0 <= j < k && #[trigger] claims(order, sols, j, e) {
        let j = choose|j: int| 0 <= j < k && #[trigger] claims(order, sols, j, e);
        lemma_first_claim_exists(order, sols, e, j);
    } else {
        lemma_first_claim(order, sols, e, k);
    }
}

/// The segments of `snowy` below number `m`, in ascending order.
pub open spec fn ascending(snowy: Set<usize>, m: nat) -> Seq<usize>
    decreases m,
{
    if m == 0 {
        Seq::empty()
    } else {
        let before = ascending(snowy, (m - 1) as nat);
        if snowy.contains((m - 1) as usize) {
            before.push((m - 1) as usize)
        } else {
            before
        }
    }
}

/// The ascending list holds the segments of the set below `m`, each once.
pub proof fn lemma_ascending(snowy: Set<usize>, m: nat)
    requires
        m <= usize::MAX,
    ensures
        ascending(snowy, m).no_duplicates(),
        forall|e: usize| #[trigger] ascending(snowy, m).contains(e) <==> e < m && snowy.contains(e),
    decreases m,
{
    if m > 0 {
        let before = ascending(snowy, (m - 1) as nat);
        let now = ascending(snowy, m);
        let last = (m - 1) as usize;
        lemma_ascending(snowy, (m - 1) as nat);
        assert forall|e: usize| #[trigger] now.contains(e) <==> e < m && snowy.contains(e) by {
            if now.contains(e) {
                let k = choose|k: int| 0 <= k < now.len() && now[k] == e;
                if k < before.len() {
                    assert(before[k] == e);
                    assert(before.contains(e));
                }
            }
            if e < m && snowy.contains(e) {
                if e == last {
                    assert(now[now.len() - 1] == e);
                } else {
                    assert(before.contains(e));
                    let k = choose|k: int| 0 <= k < before.len() && before[k] == e;
                    assert(now[k] == e);
                }
            }
        }
        assert forall|a: int, b: int| 0 <= a < now.len() && 0 <= b < now.len() && a != b implies now[a]
            != now[b] by {
            if a < before.len() && b < before.len() {
            } else if a < before.len() {
                assert(before.contains(before[a]));
            } else if b < before.len() {
                assert(before.contains(before[b]));
            }
        }
    }
}

/// For each edge of a graph what it costs to traverse.
pub open spec fn lengths_of<N, E: Edge + Weighted>(g: Graph<N, E>) -> Seq<Option<u64>> {
    Seq::new(g@.edges(), |e: int| Some(g.edge_seq()[e].weight_spec()))
}

/// What each edge of a graph costs to traverse, by edge number.
pub fn edge_weights<N, E: Edge + Weighted>(g: &Graph<N, E>) -> (r: Vec<Option<u64>>)
    requires
        g.wf(),
    ensures
        r@ == lengths_of(*g),
{
    let m = g.edge_count();
    let mut r: Vec<Option<u64>> = Vec::new();
    let mut e: usize = 0;
    while e < m
        invariant
            g.wf(),
            m == g@.edges(),
            e <= m,
            r.len() == e,
            forall|x: int| 0 <= x < e ==> #[trigger] r[x] == lengths_of(*g)[x],
        decreases m - e,
    {
        r.push(Some(g.edge(e).weight()));
        e = e + 1;
    }
    assert(r@ =~= lengths_of(*g));
    r
}

impl<N: Positioned, E: Edge + Weighted> PlowSolver<N, E> {
    pub open(crate) spec fn wf(&self) -> bool {
        self.graph.wf()
    }

    /// The solver's graph.
    pub open(crate) spec fn graph_spec(&self) -> Graph<N, E> {
        self.graph
    }

    /// For each edge the places of its two ends.
    pub open(crate) spec fn ends_at(&self) -> Seq<((i32, i32), (i32, i32))> {
        Seq::new(
            self.graph@.edges(),
            |e: int|
                (
                    self.graph.payloads()[self.graph@.tail(e)].pos_spec(),
                    self.graph.payloads()[self.graph@.head(e)].pos_spec(),
                ),
        )
    }

    /// For each edge what it costs to traverse.
    pub open(crate) spec fn lengths(&self) -> Seq<Option<u64>> {
        lengths_of(self.graph)
    }

    /// A solver for a graph.
    pub fn new(graph: Graph<N, E>) -> (r: Self)
        requires
            graph.wf(),
        ensures
            r.wf(),
            r.graph_spec() == graph,
    {
        PlowSolver { graph }
    }

    /// The solver's graph.
    pub fn graph(&self) -> (r: &Graph<N, E>)
        ensures
            *r == self.graph_spec(),
    {
        &self.graph
    }

    /// What each edge costs to traverse, by edge number.
    pub fn weights(&self) -> (r: Vec<Option<u64>>)
        requires
            self.wf(),
        ensures
            r@ == self.lengths(),
    {
        edge_weights(&self.graph)
    }

    /// Shares the segments of `snowy` among the vehicles at `locs`: each
    /// segment in turn goes to the vehicle nearest to both its ends or,
    /// where two vehicles are nearest to one end each, to the one of them
    /// with the lighter share, the one nearest to the first end where the
    /// shares are as heavy.
    pub fn initial_allocation(&self, locs: &Vec<(i32, i32)>, snowy: &Vec<usize>) -> (r: Vec<
        HashSet<usize>,
    >)
        requires
            self.wf(),
            locs.len() > 0,
            forall|k: int| 0 <= k < snowy.len() ==> (#[trigger] snowy[k]) < self.graph_spec()@.edges(),
        ensures
            shares_of(r@) == allotment(self.ends_at(), locs@, snowy@),
    {
        broadcast use vstd::std_specs::hash::group_hash_axioms;

        let ghost ends = self.ends_at();
        let mut allocations: Vec<HashSet<usize>> = Vec::new();
        let mut i: usize = 0;
        while i < locs.len()
            invariant
                i <= locs.len(),
                allocations.len() == i,
                forall|j: int| 0 <= j < i ==> (#[trigger] allocations[j])@ == Set::<usize>::empty(),
            decreases locs.len() - i,
        {
            allocations.push(HashSet::new());
            i = i + 1;
        }
        assert(snowy@.take(0).len() == 0);
        assert(shares_of(allocations@) =~= allotment(ends, locs@, snowy@.take(0)));
        let mut k: usize = 0;
        while k < snowy.len()
            invariant
                self.wf(),
                ends == self.ends_at(),
                locs.len() > 0,
                forall|j: int|
                    0 <= j < snowy.len() ==> (#[trigger] snowy[j]) < self.graph_spec()@.edges(),
                k <= snowy.len(),
                allocations.len() == locs.len(),
                shares_of(allocations@) == allotment(ends, locs@, snowy@.take(k as int)),
            decreases snowy.len() - k,
        {
            let e = snowy[k];
            let ghost before = shares_of(allocations@);
            let (t, h) = self.graph.ends[e];
            assert(0 <= self.graph@.tail(e as int) < self.graph@.nodes());
            let c1 = self.graph.nodes[t].pos();
            let c2 = self.graph.nodes[h].pos();
            let lv1 = closest(locs, c1);
            let lv2 = closest(locs, c2);
            proof {
                assert(before[lv1 as int] == allocations[lv1 as int]@);
                assert(before[lv2 as int] == allocations[lv2 as int]@);
                assert(snowy@.take(k as int + 1).drop_last() == snowy@.take(k as int));
                assert(snowy@.take(k as int + 1).last() == e);
            }
            let lv = if lv1 == lv2 || allocations[lv1].len() <= allocations[lv2].len() {
                lv1
            } else {
                lv2
            };
            assert(lv == lighter(before, lv1 as int, lv2 as int));
            allocations[lv].insert(e);
            assert(shares_of(allocations@) =~= before.update(lv as int, before[lv as int].insert(e)));
            k = k + 1;
        }
        assert(snowy@.take(snowy.len() as int) == snowy@);
        allocations
    }

    /// Heeds the solutions: each snowy segment that a solution takes goes
    /// to the first vehicle in `order` whose solution takes it, and leaves
    /// the shares of the others.
    pub fn sol_to_alloc(
        order: &Vec<usize>,
        sols: &Vec<Vec<usize>>,
        allocs: &mut Vec<HashSet<usize>>,
        snowy: &HashSet<usize>,
    )
        requires
            sols.len() == old(allocs).len(),
            forall|k: int| 0 <= k < order.len() ==> (#[trigger] order[k]) < sols.len(),
        ensures
            final(allocs).len() == old(allocs).len(),
            shares_of(final(allocs)@) == reallot(
                order@,
                crate::cover::views(sols@),
                snowy@,
                shares_of(old(allocs)@),
            ),
    {
        broadcast use vstd::std_specs::hash::group_hash_axioms;

        let ghost start = shares_of(allocs@);
        let ghost plans = crate::cover::views(sols@);
        let count = allocs.len();
        let mut seen: HashSet<usize> = HashSet::new();
        let mut k: usize = 0;
        while k < order.len()
            invariant
                k <= order.len(),
                count == allocs.len(),
                count == sols.len(),
                start.len() == count,
                plans == crate::cover::views(sols@),
                forall|j: int| 0 <= j < order.len() ==> (#[trigger] order[j]) < sols.len(),
                forall|e: usize| #[trigger]
                    seen@.contains(e) <==> snowy@.contains(e) && exists|j: int|
                        0 <= j < k && #[trigger] claims(order@, plans, j, e),
                forall|j: int, e: usize|
                    0 <= j < count ==> #[trigger] allocs[j]@.contains(e) == if seen@.contains(e) {
                        j == order[first_claim(order@, plans, e)]
                    } else {
                        start[j].contains(e)
                    },
            decreases order.len() - k,
        {
            let i = order[k];
            let mut t: usize = 0;
            while t < sols[i].len()
                invariant
                    k < order.len(),
                    i == order[k as int],
                    i < sols.len(),
                    t <= sols[i as int].len(),
                    count == allocs.len(),
                    count == sols.len(),
                    start.len() == count,
                    plans == crate::cover::views(sols@),
                    forall|j: int| 0 <= j < order.len() ==> (#[trigger] order[j]) < sols.len(),
                    forall|e: usize| #[trigger]
                        seen@.contains(e) <==> snowy@.contains(e) && ((exists|j: int|
                            0 <= j < k && #[trigger] claims(order@, plans, j, e))
                            || sols[i as int]@.take(t as int).contains(e)),
                    forall|j: int, e: usize|
                        0 <= j < count ==> #[trigger] allocs[j]@.contains(e) == if seen@.contains(
                            e,
                        ) {
                            j == order[first_claim(order@, plans, e)]
                        } else {
                            start[j].contains(e)
                        },
                decreases sols[i as int].len() - t,
            {
                let e = sols[i][t];
                let ghost done = sols[i as int]@.take(t as int);
                let ghost next = sols[i as int]@.take(t as int + 1);
                proof {
                    assert(next == done.push(e));
                    assert(plans[i as int] == sols[i as int]@);
                    assert forall|x: usize| next.contains(x) <==> done.contains(x) || x == e by {
                        if next.contains(x) {
                            let p = choose|p: int| 0 <= p < next.len() && next[p] == x;
                            if p < done.len() {
                                assert(done[p] == x);
                            }
                        }
                        if done.contains(x) {
                            let p = choose|p: int| 0 <= p < done.len() && done[p] == x;
                            assert(next[p] == x);
                        }
                        assert(next[t as int] == e);
                    }
                }
                if snowy.contains(&e) && !seen.contains(&e) {
                    proof {
                        assert(sols[i as int]@[t as int] == e);
                        assert(claims(order@, plans, k as int, e));
                        assert forall|j: int| 0 <= j < k implies !#[trigger] claims(
                            order@,
                            plans,
                            j,
                            e,
                        ) by {}
                        lemma_first_claim(order@, plans, e, k as int);
                    }
                    seen.insert(e);
                    let mut a: usize = 0;
                    let ghost shares = shares_of(allocs@);
                    while a < count
                        invariant
                            a <= count,
                            count == allocs.len(),
                            i < count,
                            shares.len() == count,
                            forall|j: int, x: usize|
                                0 <= j < count ==> #[trigger] allocs[j]@.contains(x) == if x == e
                                    && j < a {
                                    j == i
                                } else {
                                    shares[j].contains(x)
                                },
                        decreases count - a,
                    {
                        if a == i {
                            allocs[a].insert(e);
                        } else {
                            allocs[a].remove(&e);
                        }
                        a = a + 1;
                    }
                }
                t = t + 1;
            }
            proof {
                assert(sols[i as int]@.take(sols[i as int].len() as int) == sols[i as int]@);
                assert(plans[i as int] == sols[i as int]@);
                assert forall|e: usize| #[trigger]
                    seen@.contains(e) <==> snowy@.contains(e) && exists|j: int|
                        0 <= j < k + 1 && #[trigger] claims(order@, plans, j, e) by {
                    if seen@.contains(e) {
                        if sols[i as int]@.contains(e) {
                            assert(claims(order@, plans, k as int, e));
                        } else {
                            let j = choose|j: int| 0 <= j < k && #[trigger] claims(order@, plans, j, e);
                            assert(claims(order@, plans, j, e));
                        }
                    }
                    if snowy@.contains(e) && exists|j: int|
                        0 <= j < k + 1 && #[trigger] claims(order@, plans, j, e) {
                        let j = choose|j: int| 0 <= j < k + 1 && #[trigger] claims(order@, plans, j, e);
                        if j < k {
                            assert(claims(order@, plans, j, e));
                        }
                    }
                }
            }
            k = k + 1;
        }
        proof {
            let now = shares_of(allocs@);
            let want = reallot(order@, plans, snowy@, start);
            assert forall|j: int| 0 <= j < count implies #[trigger] now[j] =~= want[j] by {
                assert forall|e: usize| now[j].contains(e) == want[j].contains(e) by {
                    assert(allocs[j]@.contains(e) == now[j].contains(e));
                    if snowy@.contains(e) && claimed(order@, plans, e) {
                        let c = choose|c: int| #[trigger] claims(order@, plans, c, e);
                        assert(seen@.contains(e));
                    } else if seen@.contains(e) {
                        let c = choose|c: int| 0 <= c < k && #[trigger] claims(order@, plans, c, e);
                        assert(claimed(order@, plans, e));
                    }
                }
            }
            assert(now =~= want);
        }
    }
}

} // verus!
