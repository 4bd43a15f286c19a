//! A closed walk from a given node that takes every edge of a given set.
//!
//! The walk is grown from nothing: by closed walks let in at nodes of the
//! walk that touch an edge still to be taken and, where no such node is
//! left, by a detour to such an edge and back.

use crate::cycle::is_circuit;
use crate::edge::Edge;
use crate::graph::Graph;
use crate::marks::{
    count_allowed, count_true, lemma_count_none, lemma_count_true_bound, lemma_count_true_clear,
    lemma_count_true_positive, lemma_count_true_some,
};
use crate::net::Net;
use crate::pathfind::is_trip;
use crate::tour::{
    forbid, is_tour, is_tour_from, lemma_splice, lemma_walk_without, splice, without,
};
use crate::walk::{
    is_walk, lemma_walk_concat, lemma_walk_edges, lemma_walk_end_is_slot, lemma_walk_first,
    lemma_walk_single, lemma_walk_split, walk_end, walk_weight, Weights,
};
use std::collections::HashSet;
use vstd::prelude::*;

verus! {

/// Clears the marks of the edges of `seg` and counts what is left.
pub(crate) fn unneed(need: &mut Vec<bool>, count: &mut usize, seg: &Vec<usize>)
    requires
        forall|i: int| 0 <= i < seg.len() ==> (#[trigger] seg[i]) < old(need).len(),
        *old(count) == count_true(old(need)@),
    ensures
        final(need).len() == old(need).len(),
        forall|e: int|
            0 <= e < old(need).len() ==> (#[trigger] final(need)[e]) == (old(need)[e]
                && !seg@.contains(e as usize)),
        *final(count) == count_true(final(need)@),
{
    let ghost start = need@;
    let mut i: usize = 0;
    while i < seg.len()
        invariant
            i <= seg.len(),
            need.len() == start.len(),
            forall|j: int| 0 <= j < seg.len() ==> (#[trigger] seg[j]) < start.len(),
            forall|e: int|
                0 <= e < start.len() ==> (#[trigger] need[e]) == (start[e] && !seg@.take(
                    i as int,
                ).contains(e as usize)),
            *count == count_true(need@),
        decreases seg.len() - i,
    {
        let e = seg[i];
        let ghost before = seg@.take(i as int);
        let ghost after = seg@.take(i as int + 1);
        let ghost was = need@;
        if need[e] {
            proof {
                lemma_count_true_clear(need@, e as int);
            }
            need[e] = false;
            *count = *count - 1;
        }
        proof {
            assert(after == before.push(e));
            assert forall|x: int| 0 <= x < start.len() implies (#[trigger] need[x]) == (start[x]
                && !after.contains(x as usize)) by {
                assert(was[x] == (start[x] && !before.contains(x as usize)));
                if after.contains(x as usize) {
                    let j = choose|j: int| 0 <= j < after.len() && after[j] == x as usize;
                    if j < before.len() {
                        assert(before[j] == x as usize);
                    }
                } else {
                    if before.contains(x as usize) {
                        let j = choose|j: int| 0 <= j < before.len() && before[j] == x as usize;
                        assert(after[j] == x as usize);
                    }
                    assert(after[i as int] == e);
                }
            }
        }
        i = i + 1;
    }
    assert(seg@.take(seg.len() as int) == seg@);
}

/// What is left of the weights once a closed walk has been let into the
/// walk taken so far.
pub proof fn lemma_without_splice(w: Weights, sol: Seq<usize>, y: int, seg: Seq<usize>)
    requires
        0 <= y <= sol.len(),
    ensures
        without(without(w, sol), seg) == without(w, sol.take(y) + seg + sol.skip(y)),
        forall|e: usize|
            (sol.take(y) + seg + sol.skip(y)).contains(e) <==> sol.contains(e) || seg.contains(e),
{
    let joined = sol.take(y) + seg + sol.skip(y);
    assert forall|e: usize| joined.contains(e) <==> sol.contains(e) || seg.contains(e) by {
        if joined.contains(e) {
            let j = choose|j: int| 0 <= j < joined.len() && joined[j] == e;
            if j < y {
                assert(sol[j] == e);
            } else if j < y + seg.len() {
                assert(seg[j - y] == e);
            } else {
                assert(sol[j - seg.len()] == e);
            }
        }
        if sol.contains(e) {
            let j = choose|j: int| 0 <= j < sol.len() && sol[j] == e;
            if j < y {
                assert(joined[j] == e);
            } else {
                assert(joined[j + seg.len()] == e);
            }
        }
        if seg.contains(e) {
            let j = choose|j: int| 0 <= j < seg.len() && seg[j] == e;
            assert(joined[y + j] == e);
        }
    }
    assert(without(without(w, sol), seg) =~= without(w, joined));
}

impl<N, E: Edge> Graph<N, E> {
    /// A closed walk over the edges that `masked` allows, from the first
    /// node of `nodes` that touches a marked edge, with the position of
    /// that node; `None` where no node touches a marked edge or there is
    /// no such walk from the first that does.
    pub(crate) fn grow(
        &self,
        direspect: bool,
        nodes: &Vec<usize>,
        need: &Vec<bool>,
        masked: &Vec<Option<u64>>,
    ) -> (r: Option<(Vec<usize>, usize)>)
        requires
            self.wf(),
            need.len() == self@.edges(),
            masked.len() == self@.edges(),
            forall|i: int| 0 <= i < nodes.len() ==> (#[trigger] nodes[i]) < self@.nodes(),
        ensures
            match r {
                Some((seg, y)) => {
                    &&& is_first_needy(self@, need@, nodes@, y as int)
                    &&& is_circuit(self@, direspect, masked@, nodes[y as int] as int, seg@)
                    &&& forall|q: Seq<usize>| #[trigger]
                        is_circuit(self@, direspect, masked@, nodes[y as int] as int, q)
                            ==> walk_weight(masked@, seg@) <= walk_weight(masked@, q)
                },
                None => forall|y: int, q: Seq<usize>|
                    is_first_needy(self@, need@, nodes@, y) ==> !#[trigger] is_circuit(
                        self@,
                        direspect,
                        masked@,
                        nodes[y] as int,
                        q,
                    ),
            },
    {
        let ghost net = self@;
        let mut i: usize = 0;
        while i < nodes.len()
            invariant
                self.wf(),
                net == self@,
                need.len() == net.edges(),
                masked.len() == net.edges(),
                forall|j: int| 0 <= j < nodes.len() ==> (#[trigger] nodes[j]) < net.nodes(),
                i <= nodes.len(),
                forall|j: int| 0 <= j < i ==> !is_needy(net, need@, #[trigger] nodes[j] as int),
            decreases nodes.len() - i,
        {
            let x = nodes[i];
            let deg = self.incidence[x].len();
            let mut k: usize = 0;
            let mut needy = false;
            while k < deg && !needy
                invariant
                    self.wf(),
                    net == self@,
                    need.len() == net.edges(),
                    x < net.nodes(),
                    deg == net.inc[x as int].len(),
                    k <= deg,
                    needy ==> is_needy(net, need@, x as int),
                    !needy ==> forall|j: int| 0 <= j < k ==> !need[#[trigger] net.inc[x as int][j] as int],
                decreases deg - k + if needy { 0int } else { 1int },
            {
                let e = self.incidence[x][k];
                assert(net.inc[x as int][k as int] == e);
                if need[e] {
                    needy = true;
                } else {
                    k = k + 1;
                }
            }
            if needy {
                proof {
                    assert(is_first_needy(net, need@, nodes@, i as int));
                    assert forall|y: int| is_first_needy(net, need@, nodes@, y) implies y == i by {
                        if y < i {
                            assert(!is_needy(net, need@, nodes[y] as int));
                        } else if y > i {
                            assert(!is_needy(net, need@, nodes@[i as int] as int));
                        }
                    }
                }
                return match self.circuit_at(direspect, x, masked) {
                    Some(seg) => Some((seg, i)),
                    None => None,
                };
            }
            i = i + 1;
        }
        proof {
            assert forall|y: int| !is_first_needy(net, need@, nodes@, y) by {
                if 0 <= y < nodes.len() {
                    assert(!is_needy(net, need@, nodes[y] as int));
                }
            }
        }
        None
    }

    /// Whether an edge that `masked` allows arrives at slot `x`, and
    /// another or the same leaves it.
    pub(crate) fn passable(&self, direspect: bool, x: usize, masked: &Vec<Option<u64>>) -> (r: bool)
        requires
            self.wf(),
            x < self@.nodes(),
            masked.len() == self@.edges(),
        ensures
            r == self@.passable(direspect, masked@, x as int),
    {
        let ghost net = self@;
        let ghost list = net.inc[x as int];
        let deg = self.incidence[x].len();
        let mut k: usize = 0;
        let mut enters = false;
        let mut leaves = false;
        while k < deg
            invariant
                self.wf(),
                net == self@,
                list == net.inc[x as int],
                x < net.nodes(),
                masked.len() == net.edges(),
                deg == list.len(),
                k <= deg,
                enters ==> net.has_way_in(direspect, masked@, x as int),
                leaves ==> net.has_way_out(direspect, masked@, x as int),
                !enters ==> forall|j: int|
                    0 <= j < k ==> !(masked[#[trigger] list[j] as int] is Some && net.arrivable(
                        direspect,
                        list[j] as int,
                        x as int,
                    )),
                !leaves ==> forall|j: int|
                    0 <= j < k ==> !(masked[#[trigger] list[j] as int] is Some && net.legal(
                        direspect,
                        list[j] as int,
                        x as int,
                    )),
            decreases deg - k,
        {
            let e = self.incidence[x][k];
            assert(list[k as int] == e);
            assert(e < net.edges() && net.touches(e as int, x as int));
            if masked[e].is_some() {
                let (t, h) = self.ends[e];
                let two_way = !direspect || !self.edges[e].directed();
                if h == x || two_way {
                    enters = true;
                }
                if t == x || two_way {
                    leaves = true;
                }
            }
            k = k + 1;
        }
        enters && leaves
    }

    /// A closed walk over the edges that `masked` allows that leaves the
    /// nodes of `nodes` for a marked edge, takes it, and returns to where
    /// it left, with the last position of the node where it leaves.
    ///
    /// The walk leaves by a cheapest walk from a node of `nodes` that can
    /// be entered and left to a node from which a marked edge can be
    /// taken, takes the first such edge on that node's incidence list, and
    /// returns by a cheapest walk that takes none of these edges again.
    /// `None` where there is no walk out, or none back from the walk out
    /// that was found.
    #[verifier::rlimit(40)]
    pub(crate) fn reach(
        &self,
        direspect: bool,
        nodes: &Vec<usize>,
        need: &Vec<bool>,
        masked: &Vec<Option<u64>>,
    ) -> (r: Option<(Vec<usize>, usize)>)
        requires
            self.wf(),
            need.len() == self@.edges(),
            masked.len() == self@.edges(),
            forall|i: int| 0 <= i < nodes.len() ==> (#[trigger] nodes[i]) < self@.nodes(),
        ensures
            match r {
                Some((seg, y)) => {
                    &&& y < nodes.len()
                    &&& seg.len() > 0
                    &&& is_tour(self@, direspect, masked@, nodes[y as int] as int, seg@)
                    &&& is_detour(self@, direspect, need@, masked@, nodes@, nodes[y as int] as int, seg@)
                    &&& forall|i: int| y < i < nodes.len() ==> #[trigger] nodes[i] != nodes[y as int]
                    &&& seg@.no_duplicates()
                },
                None => no_way_out(self@, direspect, need@, masked@, nodes@) || is_dead_end(
                    self@,
                    direspect,
                    need@,
                    masked@,
                    nodes@,
                ),
            },
    {
        let ghost net = self@;
        let n = self.nodes.len();
        let m = self.edges.len();
        // Where the walk may be left: the last position of each node of
        // the walk that can be entered and left.
        let mut pos: Vec<Option<usize>> = Vec::new();
        let mut src: Vec<bool> = Vec::new();
        let mut dst: Vec<bool> = Vec::new();
        let mut s: usize = 0;
        while s < n
            invariant
                s <= n,
                pos.len() == s,
                src.len() == s,
                dst.len() == s,
                forall|x: int| 0 <= x < s ==> (#[trigger] pos[x]) is None,
                forall|x: int| 0 <= x < s ==> !#[trigger] src[x],
                forall|x: int| 0 <= x < s ==> !#[trigger] dst[x],
            decreases n - s,
        {
            pos.push(None);
            src.push(false);
            dst.push(false);
            s = s + 1;
        }
        let mut i: usize = 0;
        while i < nodes.len()
            invariant
                self.wf(),
                net == self@,
                n == net.nodes(),
                masked.len() == net.edges(),
                forall|j: int| 0 <= j < nodes.len() ==> (#[trigger] nodes[j]) < net.nodes(),
                i <= nodes.len(),
                pos.len() == n,
                src.len() == n,
                forall|x: int|
                    0 <= x < n ==> match #[trigger] pos[x] {
                        Some(y) => {
                            &&& y < i
                            &&& nodes[y as int] == x
                            &&& src[x]
                            &&& forall|j: int| y < j < i ==> #[trigger] nodes[j] != x
                        },
                        None => !src[x],
                    },
                forall|x: int|
                    0 <= x < n && #[trigger] src[x] ==> net.passable(direspect, masked@, x),
                forall|j: int|
                    0 <= j < i && net.passable(direspect, masked@, #[trigger] nodes[j] as int)
                        ==> src[nodes[j] as int],
            decreases nodes.len() - i,
        {
            let x = nodes[i];
            if self.passable(direspect, x, masked) {
                pos[x] = Some(i);
                src[x] = true;
            }
            i = i + 1;
        }
        // Where a marked edge can be taken.
        let mut e: usize = 0;
        while e < m
            invariant
                self.wf(),
                net == self@,
                n == net.nodes(),
                m == net.edges(),
                need.len() == m,
                masked.len() == m,
                dst.len() == n,
                e <= m,
                forall|x: int|
                    0 <= x < n && #[trigger] dst[x] ==> is_served(net, direspect, need@, masked@, x),
                forall|e2: int, x: int|
                    0 <= e2 < e && 0 <= x < n && need[e2] && masked[e2] is Some && #[trigger] net.legal(
                        direspect,
                        e2,
                        x,
                    ) ==> dst[x],
            decreases m - e,
        {
            if need[e] && masked[e].is_some() {
                let (t, h) = self.ends[e];
                assert(0 <= net.tail(e as int) < n);
                assert(net.legal(direspect, e as int, t as int));
                dst[t] = true;
                if !direspect || !self.edges[e].directed() {
                    assert(net.legal(direspect, e as int, h as int));
                    dst[h] = true;
                }
            }
            e = e + 1;
        }
        proof {
            let leave = leave_marks(net, direspect, masked@, nodes@);
            assert forall|x: int| 0 <= x < n implies src[x] == #[trigger] leave[x] by {
                if src[x] {
                    assert(pos[x] is Some);
                    assert(nodes@[pos[x]->0 as int] == x as usize);
                }
                if nodes@.contains(x as usize) && net.passable(direspect, masked@, x) {
                    let j = choose|j: int| 0 <= j < nodes@.len() && nodes@[j] == x as usize;
                    assert(net.passable(direspect, masked@, nodes[j] as int));
                }
            }
            assert(src@ =~= leave);
            let goal = goal_marks(net, direspect, need@, masked@);
            assert forall|x: int| 0 <= x < n implies dst[x] == #[trigger] goal[x] by {
                if is_served(net, direspect, need@, masked@, x) {
                    let e2 = choose|e2: int|
                        0 <= e2 < net.edges() && need@[e2] && masked@[e2] is Some
                            && #[trigger] net.legal(direspect, e2, x);
                    assert(net.legal(direspect, e2, x));
                }
            }
            assert(dst@ =~= goal);
        }
        let (u, v, out) = match self.search(direspect, &src, &dst, masked) {
            Some(found) => found,
            None => { return None; },
        };
        let ghost way = out@;
        proof {
            lemma_walk_end_is_slot(net, direspect, masked@, out@, u as int);
        }
        let y = match pos[u] {
            Some(y) => y,
            None => { return None; },
        };
        // A marked edge to take from there.
        let deg = self.incidence[v].len();
        let mut k: usize = 0;
        let mut taken: Option<usize> = None;
        while k < deg && taken.is_none()
            invariant
                self.wf(),
                net == self@,
                v < net.nodes(),
                need.len() == net.edges(),
                masked.len() == net.edges(),
                deg == net.inc[v as int].len(),
                k <= deg,
                forall|j: int|
                    0 <= j < k ==> !is_wanted(
                        net,
                        direspect,
                        need@,
                        masked@,
                        v as int,
                        #[trigger] net.inc[v as int][j] as int,
                    ),
                match taken {
                    Some(e) => k < deg && e == net.inc[v as int][k as int] && is_wanted(
                        net,
                        direspect,
                        need@,
                        masked@,
                        v as int,
                        e as int,
                    ),
                    None => true,
                },
            decreases deg - k + if taken is None { 1int } else { 0int },
        {
            let e = self.incidence[v][k];
            assert(net.inc[v as int][k as int] == e);
            assert(e < net.edges() && net.touches(e as int, v as int));
            let (t, h) = self.ends[e];
            if need[e] && masked[e].is_some() && (!direspect || t == v || !self.edges[e].directed()) {
                taken = Some(e);
            } else {
                k = k + 1;
            }
        }
        proof {
            if taken is None {
                assert(is_served(net, direspect, need@, masked@, v as int));
                let e2 = choose|e2: int|
                    0 <= e2 < net.edges() && need@[e2] && masked@[e2] is Some && #[trigger] net.legal(
                        direspect,
                        e2,
                        v as int,
                    );
                assert(0 <= net.tail(e2) < net.nodes());
                assert(net.inc[v as int].contains(e2 as usize));
                let j = choose|j: int|
                    0 <= j < net.inc[v as int].len() && net.inc[v as int][j] == e2 as usize;
                assert(!is_wanted(
                    net,
                    direspect,
                    need@,
                    masked@,
                    v as int,
                    net.inc[v as int][j] as int,
                ));
            }
        }
        let e = match taken {
            Some(e) => e,
            None => { return None; },
        };
        assert(is_first_marked(net, direspect, need@, masked@, v as int, e));
        assert(is_way_out(net, direspect, need@, masked@, nodes@, u as int, way, e));
        let (t, h) = self.ends[e];
        assert(0 <= net.tail(e as int) < net.nodes());
        let far = if t == v {
            h
        } else {
            t
        };
        proof {
            assert forall|i: int| 0 <= i < way.len() implies way[i] != e by {
                if way[i] == e {
                    lemma_walk_split(net, direspect, masked@, way, i, u as int);
                    let x = walk_end(net, way.take(i), u as int);
                    lemma_walk_end_is_slot(net, direspect, masked@, way.take(i), u as int);
                    lemma_walk_first(net, direspect, masked@, way.skip(i), x);
                    assert(way.skip(i)[0] == way[i]);
                    assert(net.legal(direspect, e as int, x));
                    assert(is_served(net, direspect, need@, masked@, x));
                    assert(dst[x]);
                }
            }
        }
        let mut there = out;
        there.push(e);
        proof {
            lemma_walk_single(net, direspect, masked@, e, v as int);
            lemma_walk_concat(net, direspect, masked@, way, seq![e], u as int);
            assert(there@ =~= way + seq![e]);
            assert(there@ == way.push(e));
            lemma_walk_edges(net, direspect, masked@, there@, u as int);
        }
        let mut rest = masked.clone();
        assert(rest@ == masked@);
        forbid(&mut rest, &there);
        let mut from: Vec<bool> = Vec::new();
        let mut to: Vec<bool> = Vec::new();
        let mut s: usize = 0;
        while s < n
            invariant
                s <= n,
                from.len() == s,
                to.len() == s,
                forall|x: int| 0 <= x < s ==> #[trigger] from[x] == (x == far),
                forall|x: int| 0 <= x < s ==> #[trigger] to[x] == (x == u),
            decreases n - s,
        {
            from.push(s == far);
            to.push(s == u);
            s = s + 1;
        }
        let back = match self.search(direspect, &from, &to, &rest) {
            Some((_, _, back)) => back,
            None => {
                proof {
                    assert forall|q: Seq<usize>|
                        !(#[trigger] is_walk(net, direspect, rest@, q, far as int) && walk_end(
                            net,
                            q,
                            far as int,
                        ) == u) by {
                        if is_walk(net, direspect, rest@, q, far as int) && walk_end(
                            net,
                            q,
                            far as int,
                        ) == u {
                            assert(is_trip(net, direspect, rest@, from@, to@, far as int, q));
                        }
                    }
                    assert(no_way_back(net, direspect, masked@, way.push(e), far as int, u as int));
                    assert(is_dead_end(net, direspect, need@, masked@, nodes@));
                }
                return None;
            },
        };
        proof {
            lemma_walk_without(net, direspect, masked@, there@, back@, far as int);
            lemma_walk_concat(net, direspect, masked@, there@, back@, u as int);
            assert forall|q: Seq<usize>|
                #[trigger] is_walk(net, direspect, rest@, q, far as int) && walk_end(
                    net,
                    q,
                    far as int,
                ) == u implies walk_weight(rest@, back@) <= walk_weight(rest@, q) by {
                assert(is_trip(net, direspect, rest@, from@, to@, far as int, q));
            }
            assert(is_way_back(net, direspect, masked@, way.push(e), far as int, u as int, back@));
        }
        let mut seg = there;
        let mut back = back;
        let ghost first = seg@;
        let ghost second = back@;
        seg.append(&mut back);
        assert(seg@ == first + second);
        assert(is_detour(net, direspect, need@, masked@, nodes@, u as int, seg@));
        proof {
            assert(first.no_duplicates()) by {
                assert forall|i: int, j: int|
                    0 <= i < first.len() && 0 <= j < first.len() && i != j implies first[i]
                    != first[j] by {
                    if i < way.len() && j < way.len() {
                        assert(way[i] != way[j]);
                    }
                }
            }
            assert forall|i: int, j: int|
                0 <= i < seg@.len() && 0 <= j < seg@.len() && i != j implies seg@[i] != seg@[j] by {
                if i < first.len() && j < first.len() {
                } else if i >= first.len() && j >= first.len() {
                    assert(second[i - first.len()] != second[j - first.len()]);
                } else if i < first.len() {
                    assert(!first.contains(second[j - first.len()]));
                } else {
                    assert(!first.contains(second[i - first.len()]));
                }
            }
        }
        Some((seg, y))
    }

    /// A closed walk from slot `s0` over the edges that `weight` allows
    /// that takes every marked edge; or, where the walk cannot be brought
    /// to all of them, the marks of those it has not taken.
    #[verifier::rlimit(40)]
    pub(crate) fn tour_over(
        &self,
        direspect: bool,
        s0: usize,
        need: Vec<bool>,
        weight: &Vec<Option<u64>>,
    ) -> (r: Result<Vec<usize>, Vec<bool>>)
        requires
            self.wf(),
            s0 < self@.nodes(),
            need.len() == self@.edges(),
            weight.len() == self@.edges(),
        ensures
            r is Ok ==> is_tour(self@, direspect, weight@, s0 as int, r->Ok_0@),
            r is Ok ==> r->Ok_0@.no_duplicates(),
            r is Ok ==> forall|e: int|
                0 <= e < need.len() && #[trigger] need[e] ==> r->Ok_0@.contains(e as usize),
            r is Ok ==> is_grown_to(self@, direspect, weight@, s0 as int, need@, r->Ok_0@),
            r is Err ==> r->Err_0.len() == need.len(),
            r is Err ==> forall|e: int|
                0 <= e < need.len() && #[trigger] r->Err_0[e] ==> need[e],
            r is Err ==> count_true(r->Err_0@) > 0,
            r is Err ==> has_stranded(self@, direspect, weight@, s0 as int, need@, r->Err_0@),
            count_true(need@) == 0 ==> r is Ok && r->Ok_0@.len() == 0,
    {
        let ghost net = self@;
        let ghost w = weight@;
        let ghost need0 = need@;
        let m = self.edges.len();
        let mut left = need;
        let mut count: usize = 0;
        let mut e: usize = 0;
        while e < m
            invariant
                e <= m,
                left.len() == m,
                count == count_true(left@.take(e as int)),
            decreases m - e,
        {
            proof {
                assert(left@.take(e as int + 1).drop_last() == left@.take(e as int));
                lemma_count_true_bound(left@.take(e as int + 1));
            }
            if left[e] {
                count = count + 1;
            }
            e = e + 1;
        }
        assert(left@.take(m as int) == left@);
        let mut sol: Vec<usize> = Vec::new();
        let mut masked = weight.clone();
        assert(masked@ =~= without(w, sol@));
        let ghost trail: Seq<Seq<usize>> = seq![sol@];
        while count > 0
            invariant
                is_growing(net, direspect, w, s0 as int, need0, trail),
                trail.last() == sol@,
                self.wf(),
                net == self@,
                w == weight@,
                m == net.edges(),
                s0 < net.nodes(),
                weight.len() == m,
                left.len() == m,
                need0.len() == m,
                need0 == need@,
                masked.len() == m,
                count == count_true(left@),
                is_tour(net, direspect, w, s0 as int, sol@),
                masked@ == without(w, sol@),
                forall|e: int|
                    0 <= e < m && #[trigger] need0[e] ==> left[e] || sol@.contains(e as usize),
                forall|e: int| 0 <= e < m && #[trigger] left[e] ==> need0[e],
                forall|e: int| 0 <= e < m && #[trigger] left[e] ==> !sol@.contains(e as usize),
                sol@.no_duplicates(),
                count_true(need0) == 0 ==> sol@.len() == 0,
            decreases count_allowed(masked@),
        {
            proof {
                lemma_walk_edges(net, direspect, w, sol@, s0 as int);
            }
            let nodes = self.slots_along(&sol, s0);
            proof {
                assert forall|i: int| 0 <= i < nodes.len() implies (#[trigger] nodes[i])
                    < net.nodes() by {
                    lemma_walk_split(net, direspect, w, sol@, i, s0 as int);
                    lemma_walk_end_is_slot(net, direspect, w, sol@.take(i), s0 as int);
                }
                lemma_count_true_some(left@);
                if count_true(need0) == 0 {
                    let x = choose|x: int| 0 <= x < left@.len() && left@[x];
                    assert(left[x]);
                    lemma_count_true_positive(need0, x);
                }
            }
            let grown = self.grow(direspect, &nodes, &left, &masked);
            let found = match grown {
                Some(found) => Some(found),
                None => self.reach(direspect, &nodes, &left, &masked),
            };
            proof {
                if found is Some {
                    lemma_piece(
                        net,
                        direspect,
                        w,
                        s0 as int,
                        need0,
                        sol@,
                        left@,
                        nodes@,
                        masked@,
                        found->Some_0.0@,
                        found->Some_0.1 as int,
                    );
                }
            }
            let (seg, y) = match found {
                Some(found) => found,
                None => {
                    proof {
                        lemma_count_true_some(left@);
                        lemma_stranded(
                            net,
                            direspect,
                            w,
                            s0 as int,
                            need0,
                            sol@,
                            left@,
                            nodes@,
                            masked@,
                        );
                        assert(is_stranded(self@, direspect, weight@, s0 as int, need@, sol@, left@));
                        assert(is_grown_to(self@, direspect, weight@, s0 as int, need@, sol@));
                        assert(is_halt(self@, direspect, weight@, s0 as int, need@, sol@, left@));
                        assert(has_stranded(self@, direspect, weight@, s0 as int, need@, left@));
                    }
                    return Err(left);
                },
            };
            proof {
                let x = nodes[y as int] as int;
                lemma_walk_edges(net, direspect, masked@, seg@, x);
                lemma_walk_without(net, direspect, w, sol@, seg@, x);
                lemma_splice(net, direspect, w, sol@, y as int, seg@, s0 as int);
                lemma_without_splice(w, sol@, y as int, seg@);
                assert forall|a: int, b: int|
                    0 <= a < sol@.len() && 0 <= b < seg@.len() implies sol@[a] != seg@[b] by {
                    assert(!sol@.contains(seg@[b]));
                }
                crate::cover::lemma_splice_apart(sol@, y as int, seg@);
            }
            let ghost was = sol@;
            let ghost had = left@;
            let ghost piece = seg@;
            unneed(&mut left, &mut count, &seg);
            forbid(&mut masked, &seg);
            sol = splice(sol, y, seg);
            proof {
                assert(is_let_in(net, direspect, w, s0 as int, need0, was, sol@)) by {
                    assert(is_piece(net, direspect, w, s0 as int, need0, was, piece, y as int));
                }
                lemma_growing_more(net, direspect, w, s0 as int, need0, trail, sol@);
                trail = trail.push(sol@);
                assert forall|e: int| 0 <= e < m && #[trigger] need0[e] implies left[e]
                    || sol@.contains(e as usize) by {
                    if !left[e] {
                        if had[e] {
                            assert(seg@.contains(e as usize));
                        } else {
                            assert(was.contains(e as usize));
                        }
                    }
                }
                assert forall|e: int| 0 <= e < m && #[trigger] left[e] implies !sol@.contains(
                    e as usize,
                ) by {
                    assert(had[e] && !seg@.contains(e as usize));
                    assert(!was.contains(e as usize));
                }
            }
        }
        proof {
            assert forall|e: int| 0 <= e < need0.len() && #[trigger] need0[e] implies sol@.contains(
                e as usize,
            ) by {
                if left[e] {
                    lemma_count_true_positive(left@, e);
                }
            }
        }
        Ok(sol)
    }
}

/// A closed walk from node `sp` over the edges that `weight` allows that
/// takes every edge of `alloc`, and no edge twice; or, where the walk
/// cannot be brought to all of them, those it has not taken.
///
/// The walk is grown from nothing. As long as edges are left to take, a
/// cheapest closed walk is let in at the first node of the walk that
/// touches one of them; where there is no such node or no such closed
/// walk, a detour is let in that leads to one of them and back. The
/// search fails where neither can be done.
pub fn solve_pwrp<N, E: Edge, const DIRESPECT: bool>(
    g: &Graph<N, E>,
    sp: u64,
    alloc: HashSet<usize>,
    weight: &Vec<Option<u64>>,
) -> (r: Result<Vec<usize>, HashSet<usize>>)
    requires
        g.wf(),
        g@.has(sp),
        weight.len() == g@.edges(),
        forall|e: usize| #[trigger] alloc@.contains(e) ==> e < g@.edges(),
    ensures
        r is Ok ==> is_tour_from(g@, DIRESPECT, weight@, sp, r->Ok_0@),
        r is Ok ==> r->Ok_0@.no_duplicates(),
        r is Ok ==> forall|e: usize| #[trigger] alloc@.contains(e) ==> r->Ok_0@.contains(e),
        r is Ok ==> is_grown_to(
            g@,
            DIRESPECT,
            weight@,
            g@.slot(sp),
            marks_of(alloc@, g@.edges()),
            r->Ok_0@,
        ),
        r is Err ==> forall|e: usize| #[trigger] r->Err_0@.contains(e) ==> alloc@.contains(e),
        r is Err ==> exists|e: usize| #[trigger] r->Err_0@.contains(e),
        r is Err ==> has_stranded(
            g@,
            DIRESPECT,
            weight@,
            g@.slot(sp),
            marks_of(alloc@, g@.edges()),
            marks_of(r->Err_0@, g@.edges()),
        ),
        alloc@ =~= Set::<usize>::empty() ==> r is Ok && r->Ok_0@.len() == 0,
{
    broadcast use vstd::std_specs::hash::group_hash_axioms;

    let s0 = match g.slot_of(sp) {
        Some(s) => s,
        None => { return Ok(Vec::new()); },
    };
    let m = g.edge_count();
    let mut need: Vec<bool> = Vec::new();
    let mut e: usize = 0;
    while e < m
        invariant
            e <= m,
            need.len() == e,
            forall|x: int| 0 <= x < e ==> #[trigger] need[x] == alloc@.contains(x as usize),
        decreases m - e,
    {
        need.push(alloc.contains(&e));
        e = e + 1;
    }
    proof {
        if alloc@ =~= Set::<usize>::empty() {
            lemma_count_none(need@);
        }
    }
    let ghost wanted = need@;
    let ghost mut missed: usize = 0;
    let r = match g.tour_over(DIRESPECT, s0, need, weight) {
        Ok(sol) => {
            proof {
                assert forall|e: usize| #[trigger] alloc@.contains(e) implies sol@.contains(e) by {
                    assert(wanted[e as int]);
                }
                assert(wanted =~= marks_of(alloc@, g@.edges()));
            }
            Ok(sol)
        },
        Err(marks) => {
            let mut left: HashSet<usize> = HashSet::new();
            let mut e: usize = 0;
            while e < m
                invariant
                    e <= m,
                    marks.len() == m,
                    forall|x: usize| left@.contains(x) <==> x < e && marks[x as int],
                decreases m - e,
            {
                if marks[e] {
                    left.insert(e);
                }
                e = e + 1;
            }
            proof {
                lemma_count_true_some(marks@);
                let x = choose|x: int| 0 <= x < marks@.len() && marks@[x];
                assert(marks[x]);
                assert(left@.contains(x as usize));
                missed = x as usize;
                assert(wanted =~= marks_of(alloc@, g@.edges()));
                assert(marks@ =~= marks_of(left@, g@.edges()));
                assert forall|e: usize| #[trigger] left@.contains(e) implies alloc@.contains(e) by {
                    assert(marks[e as int]);
                    assert(wanted[e as int]);
                }
            }
            Err(left)
        },
    };
    assert(r is Err ==> r->Err_0@.contains(missed));
    r
}

/// Whether the node in slot `x` touches a marked edge.
pub open spec fn is_needy(net: Net, need: Seq<bool>, x: int) -> bool {
    exists|k: int| 0 <= k < net.inc[x].len() && need[#[trigger] net.inc[x][k] as int]
}

/// Whether `y` is the first position of `nodes` whose node touches a
/// marked edge.
pub open spec fn is_first_needy(net: Net, need: Seq<bool>, nodes: Seq<usize>, y: int) -> bool {
    &&& 0 <= y < nodes.len()
    &&& is_needy(net, need, nodes[y] as int)
    &&& forall|i: int| 0 <= i < y ==> !is_needy(net, need, #[trigger] nodes[i] as int)
}

/// For each slot whether the walk may be left there: the node is one of
/// `nodes` and can be entered and left over edges that `masked` allows.
pub open spec fn leave_marks(net: Net, direspect: bool, masked: Weights, nodes: Seq<usize>) -> Seq<
    bool,
> {
    Seq::new(
        net.nodes(),
        |x: int| nodes.contains(x as usize) && net.passable(direspect, masked, x),
    )
}

/// Whether edge `e` is marked, allowed by `masked`, and may be left from
/// the node in slot `v`.
pub open spec fn is_wanted(
    net: Net,
    direspect: bool,
    need: Seq<bool>,
    masked: Weights,
    v: int,
    e: int,
) -> bool {
    need[e] && masked[e] is Some && net.legal(direspect, e, v)
}

/// Whether a marked edge that `masked` allows may be left from the node in
/// slot `x`.
pub open spec fn is_served(net: Net, direspect: bool, need: Seq<bool>, masked: Weights, x: int) -> bool {
    exists|e: int|
        0 <= e < net.edges() && need[e] && masked[e] is Some && #[trigger] net.legal(
            direspect,
            e,
            x,
        )
}

/// For each slot whether a marked edge can be taken from there.
pub open spec fn goal_marks(net: Net, direspect: bool, need: Seq<bool>, masked: Weights) -> Seq<
    bool,
> {
    Seq::new(net.nodes(), |x: int| is_served(net, direspect, need, masked, x))
}

/// Whether `e` is the first edge on the incidence list of slot `v` that is
/// marked, allowed, and may be left from there.
pub open spec fn is_first_marked(
    net: Net,
    direspect: bool,
    need: Seq<bool>,
    masked: Weights,
    v: int,
    e: usize,
) -> bool {
    exists|k: int|
        0 <= k < net.inc[v].len() && #[trigger] net.inc[v][k] == e && is_wanted(
            net,
            direspect,
            need,
            masked,
            v,
            e as int,
        ) && forall|j: int|
            0 <= j < k ==> !is_wanted(net, direspect, need, masked, v, #[trigger] net.inc[v][j] as int)
}

/// Whether no walk leads from a node where the walk may be left to a node
/// where a marked edge can be taken.
pub open spec fn no_way_out(
    net: Net,
    direspect: bool,
    need: Seq<bool>,
    masked: Weights,
    nodes: Seq<usize>,
) -> bool {
    forall|a: int, q: Seq<usize>|
        !#[trigger] is_trip(
            net,
            direspect,
            masked,
            leave_marks(net, direspect, masked, nodes),
            goal_marks(net, direspect, need, masked),
            a,
            q,
        )
}

/// Whether `out` is a way out from slot `u` to the edge `e`: a cheapest
/// walk from a node where the walk may be left to a node where a marked
/// edge can be taken, and the first such edge there.
pub open spec fn is_way_out(
    net: Net,
    direspect: bool,
    need: Seq<bool>,
    masked: Weights,
    nodes: Seq<usize>,
    u: int,
    out: Seq<usize>,
    e: usize,
) -> bool {
    let leave = leave_marks(net, direspect, masked, nodes);
    let goal = goal_marks(net, direspect, need, masked);
    &&& is_trip(net, direspect, masked, leave, goal, u, out)
    &&& forall|a: int, q: Seq<usize>| #[trigger]
        is_trip(net, direspect, masked, leave, goal, a, q) ==> walk_weight(masked, out)
            <= walk_weight(masked, q)
    &&& is_first_marked(net, direspect, need, masked, walk_end(net, out, u), e)
}

/// Whether `back` is a cheapest walk from slot `from` to slot `u` over
/// the edges that `masked` allows, those of `there` left out.
pub open spec fn is_way_back(
    net: Net,
    direspect: bool,
    masked: Weights,
    there: Seq<usize>,
    from: int,
    u: int,
    back: Seq<usize>,
) -> bool {
    let rest = without(masked, there);
    &&& is_walk(net, direspect, rest, back, from)
    &&& walk_end(net, back, from) == u
    &&& forall|q: Seq<usize>| #[trigger]
        is_walk(net, direspect, rest, q, from) && walk_end(net, q, from) == u ==> walk_weight(
            rest,
            back,
        ) <= walk_weight(rest, q)
}

/// Whether no walk leads from slot `from` to slot `u` over the edges that
/// `masked` allows, those of `there` left out.
pub open spec fn no_way_back(
    net: Net,
    direspect: bool,
    masked: Weights,
    there: Seq<usize>,
    from: int,
    u: int,
) -> bool {
    forall|q: Seq<usize>|
        !(#[trigger] is_walk(net, direspect, without(masked, there), q, from) && walk_end(
            net,
            q,
            from,
        ) == u)
}

/// Whether `seg` is a detour from slot `u`: a way out to a marked edge,
/// that edge, and a way back from its other end that takes none of these
/// edges again.
pub open spec fn is_detour(
    net: Net,
    direspect: bool,
    need: Seq<bool>,
    masked: Weights,
    nodes: Seq<usize>,
    u: int,
    seg: Seq<usize>,
) -> bool {
    exists|out: Seq<usize>, e: usize, back: Seq<usize>|
        #[trigger] is_way_out(net, direspect, need, masked, nodes, u, out, e)
            && #[trigger] is_way_back(
            net,
            direspect,
            masked,
            out.push(e),
            net.far(e as int, walk_end(net, out, u)),
            u,
            back,
        ) && seg == out.push(e) + back
}

/// Whether there is a way out to a marked edge from which no walk leads
/// back.
pub open spec fn is_dead_end(
    net: Net,
    direspect: bool,
    need: Seq<bool>,
    masked: Weights,
    nodes: Seq<usize>,
) -> bool {
    exists|u: int, out: Seq<usize>, e: usize|
        #[trigger] is_way_out(net, direspect, need, masked, nodes, u, out, e) && no_way_back(
            net,
            direspect,
            masked,
            out.push(e),
            net.far(e as int, walk_end(net, out, u)),
            u,
        )
}

/// The slots at which the walk `sol` from slot `s` stands: before its
/// first edge and after each of its edges.
pub open spec fn stands(net: Net, sol: Seq<usize>, s: int) -> Seq<usize> {
    Seq::new(sol.len() + 1, |i: int| walk_end(net, sol.take(i), s) as usize)
}

/// Whether the closed walk `sol` from slot `s` can be brought to none of
/// the edges marked in `left`, over the edges that `w` allows and `sol`
/// has not taken: the first of its nodes that touches a marked edge, if
/// there is one, has no closed walk, and no detour leads from its nodes to
/// a marked edge and back.
pub open spec fn is_stalled(
    net: Net,
    direspect: bool,
    w: Weights,
    s: int,
    sol: Seq<usize>,
    left: Seq<bool>,
) -> bool {
    let nodes = stands(net, sol, s);
    let masked = without(w, sol);
    &&& forall|y: int, q: Seq<usize>|
        is_first_needy(net, left, nodes, y) ==> !#[trigger] is_circuit(
            net,
            direspect,
            masked,
            nodes[y] as int,
            q,
        )
    &&& (no_way_out(net, direspect, left, masked, nodes) || is_dead_end(
        net,
        direspect,
        left,
        masked,
        nodes,
    ))
}

/// Whether the search for a closed walk over the edges marked in `need`
/// has ended on the closed walk `sol` from slot `s` with the edges marked
/// in `left` not taken: `sol` takes no edge twice, `left` marks the
/// marked edges that `sol` does not take, and `sol` can be brought to
/// none of them.
pub open spec fn is_stranded(
    net: Net,
    direspect: bool,
    w: Weights,
    s: int,
    need: Seq<bool>,
    sol: Seq<usize>,
    left: Seq<bool>,
) -> bool {
    &&& is_tour(net, direspect, w, s, sol)
    &&& sol.no_duplicates()
    &&& left.len() == need.len()
    &&& forall|e: int|
        0 <= e < need.len() ==> #[trigger] left[e] == (need[e] && !sol.contains(e as usize))
    &&& is_stalled(net, direspect, w, s, sol, left)
}

/// Whether the search for a closed walk from slot `s` over the edges
/// marked in `need` has come to the closed walk `sol` and ended there
/// with the edges marked in `left` not taken.
pub open spec fn is_halt(
    net: Net,
    direspect: bool,
    w: Weights,
    s: int,
    need: Seq<bool>,
    sol: Seq<usize>,
    left: Seq<bool>,
) -> bool {
    is_stranded(net, direspect, w, s, need, sol, left) && is_grown_to(net, direspect, w, s, need, sol)
}

/// Whether the search for a closed walk from slot `s` over the edges
/// marked in `need` can have ended with the edges marked in `left` not
/// taken.
pub open spec fn has_stranded(
    net: Net,
    direspect: bool,
    w: Weights,
    s: int,
    need: Seq<bool>,
    left: Seq<bool>,
) -> bool {
    exists|sol: Seq<usize>| #[trigger] is_halt(net, direspect, w, s, need, sol, left)
}

/// The marks of the marked edges that the walk `sol` has not taken.
pub open spec fn left_of(need: Seq<bool>, sol: Seq<usize>) -> Seq<bool> {
    Seq::new(need.len(), |e: int| need[e] && !sol.contains(e as usize))
}

/// Whether `seg` is a cheapest closed walk, over the edges that `masked`
/// allows, at the first node of `nodes` that touches a marked edge, which
/// stands at place `y`.
pub open spec fn is_growth(
    net: Net,
    direspect: bool,
    left: Seq<bool>,
    masked: Weights,
    nodes: Seq<usize>,
    seg: Seq<usize>,
    y: int,
) -> bool {
    &&& is_first_needy(net, left, nodes, y)
    &&& is_circuit(net, direspect, masked, nodes[y] as int, seg)
    &&& forall|q: Seq<usize>| #[trigger]
        is_circuit(net, direspect, masked, nodes[y] as int, q) ==> walk_weight(masked, seg)
            <= walk_weight(masked, q)
}

/// Whether the first node of `nodes` that touches a marked edge, if there
/// is one, has no closed walk over the edges that `masked` allows.
pub open spec fn no_growth(
    net: Net,
    direspect: bool,
    left: Seq<bool>,
    masked: Weights,
    nodes: Seq<usize>,
) -> bool {
    forall|y: int, q: Seq<usize>|
        is_first_needy(net, left, nodes, y) ==> !#[trigger] is_circuit(
            net,
            direspect,
            masked,
            nodes[y] as int,
            q,
        )
}

/// Whether `seg` is a detour from the node at place `y` of `nodes`, the
/// last place at which that node stands, to a marked edge and back.
pub open spec fn is_reach(
    net: Net,
    direspect: bool,
    left: Seq<bool>,
    masked: Weights,
    nodes: Seq<usize>,
    seg: Seq<usize>,
    y: int,
) -> bool {
    &&& 0 <= y < nodes.len()
    &&& seg.len() > 0
    &&& is_tour(net, direspect, masked, nodes[y] as int, seg)
    &&& is_detour(net, direspect, left, masked, nodes, nodes[y] as int, seg)
    &&& forall|i: int| y < i < nodes.len() ==> #[trigger] nodes[i] != nodes[y]
    &&& seg.no_duplicates()
}

/// Whether `seg` is what the search lets into the closed walk `sol` from
/// slot `s` next, before place `y`: a cheapest closed walk at the first
/// node of `sol` that touches a marked edge not yet taken; or, where that
/// node has none or there is no such node, a detour to such an edge and
/// back. Both go over edges that `w` allows and `sol` has not taken.
pub open spec fn is_piece(
    net: Net,
    direspect: bool,
    w: Weights,
    s: int,
    need: Seq<bool>,
    sol: Seq<usize>,
    seg: Seq<usize>,
    y: int,
) -> bool {
    let nodes = stands(net, sol, s);
    let masked = without(w, sol);
    let left = left_of(need, sol);
    &&& 0 <= y <= sol.len()
    &&& {
        ||| is_growth(net, direspect, left, masked, nodes, seg, y)
        ||| no_growth(net, direspect, left, masked, nodes) && is_reach(
            net,
            direspect,
            left,
            masked,
            nodes,
            seg,
            y,
        )
    }
}

/// Whether the closed walk `next` is the closed walk `sol` with what the
/// search lets into it next.
pub open spec fn is_let_in(
    net: Net,
    direspect: bool,
    w: Weights,
    s: int,
    need: Seq<bool>,
    sol: Seq<usize>,
    next: Seq<usize>,
) -> bool {
    exists|seg: Seq<usize>, y: int| #[trigger]
        is_piece(net, direspect, w, s, need, sol, seg, y) && next == sol.take(y) + seg + sol.skip(y)
}

/// Whether the walk at place `k + 1` of `trail` is the walk at place `k`
/// with what the search lets into it next.
pub open spec fn is_inlet(
    net: Net,
    direspect: bool,
    w: Weights,
    s: int,
    need: Seq<bool>,
    trail: Seq<Seq<usize>>,
    k: int,
) -> bool {
    is_let_in(net, direspect, w, s, need, trail[k], trail[k + 1])
}

/// Whether `trail` holds the closed walks of the search in turn, from the
/// empty walk on.
pub open spec fn is_growing(
    net: Net,
    direspect: bool,
    w: Weights,
    s: int,
    need: Seq<bool>,
    trail: Seq<Seq<usize>>,
) -> bool {
    &&& trail.len() > 0
    &&& trail[0].len() == 0
    &&& forall|k: int|
        0 <= k < trail.len() - 1 ==> #[trigger] is_inlet(net, direspect, w, s, need, trail, k)
}

/// Whether the search for a closed walk from slot `s` over the edges
/// marked in `need` comes to the closed walk `sol`: from the empty walk,
/// by letting in one piece after another.
pub open spec fn is_grown_to(
    net: Net,
    direspect: bool,
    w: Weights,
    s: int,
    need: Seq<bool>,
    sol: Seq<usize>,
) -> bool {
    exists|trail: Seq<Seq<usize>>| #[trigger]
        is_growing(net, direspect, w, s, need, trail) && trail.last() == sol
}

/// A piece found over the nodes of a walk, the edges left to take and the
/// edges not yet taken is what the search lets into the walk next.
pub proof fn lemma_piece(
    net: Net,
    direspect: bool,
    w: Weights,
    s: int,
    need: Seq<bool>,
    sol: Seq<usize>,
    left: Seq<bool>,
    nodes: Seq<usize>,
    masked: Weights,
    seg: Seq<usize>,
    y: int,
)
    requires
        left.len() == need.len(),
        forall|e: int| 0 <= e < need.len() && #[trigger] need[e] ==> left[e] || sol.contains(e as usize),
        forall|e: int| 0 <= e < need.len() && #[trigger] left[e] ==> need[e],
        forall|e: int| 0 <= e < need.len() && #[trigger] left[e] ==> !sol.contains(e as usize),
        nodes.len() == sol.len() + 1,
        forall|i: int| 0 <= i <= sol.len() ==> (#[trigger] nodes[i]) == walk_end(net, sol.take(i), s),
        masked == without(w, sol),
        is_growth(net, direspect, left, masked, nodes, seg, y) || (no_growth(
            net,
            direspect,
            left,
            masked,
            nodes,
        ) && is_reach(net, direspect, left, masked, nodes, seg, y)),
    ensures
        is_piece(net, direspect, w, s, need, sol, seg, y),
{
    assert(nodes =~= stands(net, sol, s));
    assert(left =~= left_of(need, sol));
}

/// The walks of a search with what is let into the last are the walks of
/// a search.
pub proof fn lemma_growing_more(
    net: Net,
    direspect: bool,
    w: Weights,
    s: int,
    need: Seq<bool>,
    trail: Seq<Seq<usize>>,
    next: Seq<usize>,
)
    requires
        is_growing(net, direspect, w, s, need, trail),
        is_let_in(net, direspect, w, s, need, trail.last(), next),
    ensures
        is_growing(net, direspect, w, s, need, trail.push(next)),
{
    let more = trail.push(next);
    assert forall|k: int| 0 <= k < more.len() - 1 implies #[trigger] is_inlet(
        net,
        direspect,
        w,
        s,
        need,
        more,
        k,
    ) by {
        if k < trail.len() - 1 {
            assert(is_inlet(net, direspect, w, s, need, trail, k));
            assert(more[k] == trail[k]);
            assert(more[k + 1] == trail[k + 1]);
        } else {
            assert(more[k] == trail.last());
            assert(more[k + 1] == next);
        }
    }
}

/// A search that can neither grow its walk nor make a detour has ended.
pub proof fn lemma_stranded(
    net: Net,
    direspect: bool,
    w: Weights,
    s: int,
    need: Seq<bool>,
    sol: Seq<usize>,
    left: Seq<bool>,
    nodes: Seq<usize>,
    masked: Weights,
)
    requires
        is_tour(net, direspect, w, s, sol),
        sol.no_duplicates(),
        left.len() == need.len(),
        forall|e: int| 0 <= e < need.len() && #[trigger] need[e] ==> left[e] || sol.contains(e as usize),
        forall|e: int| 0 <= e < need.len() && #[trigger] left[e] ==> need[e],
        forall|e: int| 0 <= e < need.len() && #[trigger] left[e] ==> !sol.contains(e as usize),
        nodes.len() == sol.len() + 1,
        forall|i: int| 0 <= i <= sol.len() ==> (#[trigger] nodes[i]) == walk_end(net, sol.take(i), s),
        masked == without(w, sol),
        forall|y: int, q: Seq<usize>|
            is_first_needy(net, left, nodes, y) ==> !#[trigger] is_circuit(
                net,
                direspect,
                masked,
                nodes[y] as int,
                q,
            ),
        no_way_out(net, direspect, left, masked, nodes) || is_dead_end(
            net,
            direspect,
            left,
            masked,
            nodes,
        ),
    ensures
        is_stranded(net, direspect, w, s, need, sol, left),
{
    assert(nodes =~= stands(net, sol, s));
    assert forall|e: int| 0 <= e < need.len() implies #[trigger] left[e] == (need[e]
        && !sol.contains(e as usize)) by {
        if need[e] {
        }
    }
}

/// The marks of the edges of `set` among the first `m` edges.
pub open spec fn marks_of(set: Set<usize>, m: nat) -> Seq<bool> {
    Seq::new(m, |e: int| set.contains(e as usize))
}

} // verus!
