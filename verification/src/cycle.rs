//! Cheapest closed walks through a node.

use crate::edge::Edge;
use crate::graph::Graph;
use crate::net::Net;
use crate::pathfind::is_trip;
use crate::walk::{
    cost, is_walk, lemma_walk_concat, lemma_walk_edges, lemma_walk_first,
    lemma_walk_reweigh, lemma_walk_single, lemma_walk_weight_bounds, walk_end, walk_weight,
    Weights,
};
use vstd::prelude::*;

verus! {

/// Whether `q` is a closed walk from slot `v` that has at least one edge
/// and takes no edge twice.
pub open spec fn is_circuit(net: Net, direspect: bool, w: Weights, v: int, q: Seq<usize>) -> bool {
    &&& q.len() > 0
    &&& is_walk(net, direspect, w, q, v)
    &&& walk_end(net, q, v) == v
    &&& q.no_duplicates()
}

/// Whether `q` is a closed walk from node `n` that has at least one edge
/// and takes no edge twice.
pub open spec fn is_cycle_on(net: Net, direspect: bool, w: Weights, n: u64, q: Seq<usize>) -> bool {
    net.has(n) && is_circuit(net, direspect, w, net.slot(n), q)
}

/// Whether the first edge of `q` is among the first `k` edges of `list`.
pub open spec fn starts_among(list: Seq<usize>, k: int, q: Seq<usize>) -> bool {
    exists|j: int| 0 <= j < k && j < list.len() && #[trigger] list[j] == q[0]
}

/// The sum of the costs of the edges of `path`.
pub fn total_weight(weight: &Vec<Option<u64>>, path: &Vec<usize>) -> (r: u128)
    requires
        forall|i: int| 0 <= i < path.len() ==> (#[trigger] path[i]) < weight.len(),
    ensures
        r == walk_weight(weight@, path@),
{
    let mut r: u128 = 0;
    let mut i: usize = 0;
    while i < path.len()
        invariant
            forall|j: int| 0 <= j < path.len() ==> (#[trigger] path[j]) < weight.len(),
            i <= path.len(),
            r == walk_weight(weight@, path@.take(i as int)),
        decreases path.len() - i,
    {
        proof {
            assert(path@.take(i as int + 1).drop_last() == path@.take(i as int));
            lemma_walk_weight_bounds(weight@, path@.take(i as int));
            assert(i * u64::MAX + u64::MAX <= u128::MAX) by (nonlinear_arith)
                requires
                    i <= usize::MAX,
            ;
        }
        let c = match weight[path[i]] {
            Some(c) => c,
            None => 0,
        };
        r = r + c as u128;
        i = i + 1;
    }
    assert(path@.take(path.len() as int) == path@);
    r
}

/// A closed walk that starts with edge `e` is that edge and a walk back
/// that avoids it.
pub proof fn lemma_circuit_parts(
    net: Net,
    direspect: bool,
    w: Weights,
    v: int,
    q: Seq<usize>,
)
    requires
        net.wf(),
        w.len() == net.edges(),
        is_circuit(net, direspect, w, v, q),
    ensures
        ({
            let e = q[0] as int;
            let back = w.update(e, None);
            &&& net.legal(direspect, e, v)
            &&& w[e] is Some
            &&& is_walk(net, direspect, back, q.skip(1), net.far(e, v))
            &&& walk_end(net, q.skip(1), net.far(e, v)) == v
            &&& walk_weight(w, q) == cost(w, e) + walk_weight(back, q.skip(1))
        }),
{
    let e = q[0] as int;
    let back = w.update(e, None);
    let rest = q.skip(1);
    lemma_walk_first(net, direspect, w, q, v);
    lemma_walk_edges(net, direspect, w, rest, net.far(e, v));
    assert forall|i: int| 0 <= i < rest.len() implies back[#[trigger] rest[i] as int] == w[rest[i] as int] by {
        assert(rest[i] == q[i + 1]);
        assert(q[i + 1] != q[0]);
    }
    lemma_walk_reweigh(net, direspect, w, back, rest, net.far(e, v));
}

/// An edge left from a node, and a walk back to the node that avoids the
/// edge, make a closed walk that takes no edge twice.
pub proof fn lemma_circuit_build(
    net: Net,
    direspect: bool,
    w: Weights,
    v: int,
    e: usize,
    p: Seq<usize>,
)
    requires
        net.wf(),
        w.len() == net.edges(),
        net.is_slot(v),
        net.legal(direspect, e as int, v),
        w[e as int] is Some,
        is_walk(net, direspect, w.update(e as int, None), p, net.far(e as int, v)),
        walk_end(net, p, net.far(e as int, v)) == v,
        p.no_duplicates(),
    ensures
        is_circuit(net, direspect, w, v, seq![e] + p),
        walk_weight(w, seq![e] + p) == cost(w, e as int) + walk_weight(w.update(e as int, None), p),
{
    let back = w.update(e as int, None);
    let far = net.far(e as int, v);
    lemma_walk_edges(net, direspect, back, p, far);
    assert forall|i: int| 0 <= i < p.len() implies w[#[trigger] p[i] as int] == back[p[i] as int] by {
        assert(back[p[i] as int] is Some);
    }
    lemma_walk_reweigh(net, direspect, back, w, p, far);
    lemma_walk_single(net, direspect, w, e, v);
    lemma_walk_concat(net, direspect, w, seq![e], p, v);
    let q = seq![e] + p;
    assert forall|i: int, j: int| 0 <= i < q.len() && 0 <= j < q.len() && i != j implies q[i]
        != q[j] by {
        if i > 0 && j > 0 {
            assert(q[i] == p[i - 1] && q[j] == p[j - 1]);
        } else if i == 0 {
            assert(q[j] == p[j - 1]);
            assert(back[p[j - 1] as int] is Some);
        } else {
            assert(q[i] == p[i - 1]);
            assert(back[p[i - 1] as int] is Some);
        }
    }
}

impl<N, E: Edge> Graph<N, E> {
    /// A cheapest closed walk from the node in slot `v` that has at least
    /// one edge and takes no edge twice, or `None` where there is none.
    pub(crate) fn circuit_at(&self, direspect: bool, v: usize, weight: &Vec<Option<u64>>) -> (r:
        Option<Vec<usize>>)
        requires
            self.wf(),
            v < self@.nodes(),
            weight.len() == self@.edges(),
        ensures
            match r {
                Some(p) => {
                    &&& is_circuit(self@, direspect, weight@, v as int, p@)
                    &&& forall|q: Seq<usize>| #[trigger]
                        is_circuit(self@, direspect, weight@, v as int, q) ==> walk_weight(
                            weight@,
                            p@,
                        ) <= walk_weight(weight@, q)
                },
                None => forall|q: Seq<usize>| !#[trigger] is_circuit(self@, direspect, weight@, v as int, q),
            },
    {
        let ghost net = self@;
        let ghost w = weight@;
        let n = self.nodes.len();
        let mut dst: Vec<bool> = Vec::new();
        let mut s: usize = 0;
        while s < n
            invariant
                s <= n,
                dst.len() == s,
                forall|t: int| 0 <= t < s ==> #[trigger] dst[t] == (t == v),
            decreases n - s,
        {
            dst.push(s == v);
            s = s + 1;
        }
        let mut best: Option<Vec<usize>> = None;
        let mut best_cost: u128 = 0;
        let deg = self.incidence[v].len();
        let mut k: usize = 0;
        while k < deg
            invariant
                self.wf(),
                net == self@,
                w == weight@,
                n == net.nodes(),
                v < n,
                weight.len() == net.edges(),
                deg == net.inc[v as int].len(),
                k <= deg,
                dst.len() == n,
                forall|t: int| 0 <= t < n ==> #[trigger] dst[t] == (t == v),
                match best {
                    Some(p) => {
                        &&& is_circuit(net, direspect, w, v as int, p@)
                        &&& best_cost == walk_weight(w, p@)
                        &&& forall|q: Seq<usize>| #[trigger]
                            is_circuit(net, direspect, w, v as int, q) && starts_among(
                                net.inc[v as int],
                                k as int,
                                q,
                            ) ==> best_cost <= walk_weight(w, q)
                    },
                    None => forall|q: Seq<usize>| #[trigger]
                        is_circuit(net, direspect, w, v as int, q) ==> !starts_among(
                            net.inc[v as int],
                            k as int,
                            q,
                        ),
                },
            decreases deg - k,
        {
            let e = self.incidence[v][k];
            assert(net.inc[v as int][k as int] == e);
            assert(e < net.edges() && net.touches(e as int, v as int));
            assert(0 <= net.tail(e as int) < net.nodes());
            let (t, h) = self.ends[e];
            let far = if t == v {
                h
            } else {
                t
            };
            let usable = !direspect || t == v || !self.edges[e].directed();
            assert(usable == net.legal(direspect, e as int, v as int));
            let ghost back = w.update(e as int, None);
            // The cheapest closed walk that starts with this edge, if any.
            let mut found: Option<Vec<usize>> = None;
            let mut found_cost: u128 = 0;
            let allowed = if usable {
                weight[e]
            } else {
                None
            };
            match allowed {
                None => {
                    proof {
                        assert forall|q: Seq<usize>| #[trigger]
                            is_circuit(net, direspect, w, v as int, q) implies q[0] != e by {
                            lemma_circuit_parts(net, direspect, w, v as int, q);
                        }
                    }
                },
                Some(c) => {
                    if far == v {
                        let mut p: Vec<usize> = Vec::new();
                        p.push(e);
                        proof {
                            assert(p@ == seq![e]);
                            lemma_walk_single(net, direspect, w, e, v as int);
                            assert forall|q: Seq<usize>| #[trigger]
                                is_circuit(net, direspect, w, v as int, q) && q[0] == e implies c
                                <= walk_weight(w, q) by {
                                lemma_circuit_parts(net, direspect, w, v as int, q);
                                lemma_walk_weight_bounds(back, q.skip(1));
                            }
                        }
                        found = Some(p);
                        found_cost = c as u128;
                    } else {
                        let mut masked = weight.clone();
                        assert(masked@ == w);
                        masked[e] = None;
                        assert(masked@ == back);
                        let mut src: Vec<bool> = Vec::new();
                        let mut s: usize = 0;
                        while s < n
                            invariant
                                s <= n,
                                src.len() == s,
                                forall|t: int| 0 <= t < s ==> #[trigger] src[t] == (t == far),
                            decreases n - s,
                        {
                            src.push(s == far);
                            s = s + 1;
                        }
                        match self.search(direspect, &src, &dst, &masked) {
                            Some((_, _, p)) => {
                                proof {
                                    lemma_walk_edges(net, direspect, back, p@, far as int);
                                }
                                let d = total_weight(&masked, &p);
                                let mut whole: Vec<usize> = Vec::new();
                                whole.push(e);
                                let mut p = p;
                                let ghost tail = p@;
                                assert(tail.len() <= usize::MAX) by {
                                    assert(p.len() <= usize::MAX);
                                }
                                whole.append(&mut p);
                                proof {
                                    assert(whole@ == seq![e] + tail);
                                    lemma_circuit_build(net, direspect, w, v as int, e, tail);
                                    lemma_walk_weight_bounds(back, tail);
                                    assert(tail.len() * u64::MAX + u64::MAX <= u128::MAX) by (nonlinear_arith)
                                        requires
                                            tail.len() <= usize::MAX,
                                    ;
                                    assert forall|q: Seq<usize>| #[trigger]
                                        is_circuit(net, direspect, w, v as int, q) && q[0]
                                            == e implies c + d <= walk_weight(w, q) by {
                                        lemma_circuit_parts(net, direspect, w, v as int, q);
                                        assert(is_trip(
                                            net,
                                            direspect,
                                            back,
                                            src@,
                                            dst@,
                                            far as int,
                                            q.skip(1),
                                        ));
                                    }
                                }
                                found = Some(whole);
                                found_cost = c as u128 + d;
                            },
                            None => {
                                proof {
                                    assert forall|q: Seq<usize>| #[trigger]
                                        is_circuit(net, direspect, w, v as int, q) implies q[0]
                                        != e by {
                                        lemma_circuit_parts(net, direspect, w, v as int, q);
                                        if q[0] == e {
                                            assert(is_trip(
                                                net,
                                                direspect,
                                                back,
                                                src@,
                                                dst@,
                                                far as int,
                                                q.skip(1),
                                            ));
                                        }
                                    }
                                }
                            },
                        }
                    }
                },
            }
            assert(forall|q: Seq<usize>| #[trigger]
                is_circuit(net, direspect, w, v as int, q) && q[0] == e ==> found is Some
                    && found_cost <= walk_weight(w, q));
            assert(found is Some ==> is_circuit(net, direspect, w, v as int, found->0@)
                && found_cost == walk_weight(w, found->0@));
            let take = match (&found, &best) {
                (Some(_), Some(_)) => found_cost < best_cost,
                (Some(_), None) => true,
                _ => false,
            };
            if take {
                best = found;
                best_cost = found_cost;
            }
            proof {
                let list = net.inc[v as int];
                assert forall|q: Seq<usize>| #[trigger]
                    is_circuit(net, direspect, w, v as int, q) && starts_among(
                        list,
                        k as int + 1,
                        q,
                    ) implies best is Some && best_cost <= walk_weight(w, q) by {
                    let j = choose|j: int| 0 <= j < k + 1 && j < list.len() && #[trigger] list[j] == q[0];
                    if j < k {
                        assert(starts_among(list, k as int, q));
                    } else {
                        assert(q[0] == e);
                    }
                }
            }
            k = k + 1;
        }
        proof {
            let list = net.inc[v as int];
            assert forall|q: Seq<usize>| #[trigger]
                is_circuit(net, direspect, w, v as int, q) implies starts_among(list, deg as int, q) by {
                lemma_walk_first(net, direspect, w, q, v as int);
                assert(net.touches(q[0] as int, v as int));
                assert(net.inc[v as int].contains(q[0]));
                let j = choose|j: int| 0 <= j < list.len() && list[j] == q[0];
                assert(list[j] == q[0]);
            }
        }
        best
    }

    /// A cheapest closed walk from node `n` that has at least one edge and
    /// takes no edge twice, over the edges that `weight` allows; `None`
    /// where there is none.
    pub fn cycle_on<const DIRESPECT: bool>(&self, n: u64, weight: &Vec<Option<u64>>) -> (r: Option<
        Vec<usize>,
    >)
        requires
            self.wf(),
            weight.len() == self@.edges(),
        ensures
            match r {
                Some(p) => {
                    &&& is_cycle_on(self@, DIRESPECT, weight@, n, p@)
                    &&& forall|q: Seq<usize>| #[trigger]
                        is_cycle_on(self@, DIRESPECT, weight@, n, q) ==> walk_weight(weight@, p@)
                            <= walk_weight(weight@, q)
                },
                None => forall|q: Seq<usize>| !#[trigger] is_cycle_on(self@, DIRESPECT, weight@, n, q),
            },
    {
        match self.slot_of(n) {
            Some(v) => {
                let r = self.circuit_at(DIRESPECT, v, weight);
                proof {
                    assert forall|q: Seq<usize>| #[trigger]
                        is_cycle_on(self@, DIRESPECT, weight@, n, q) implies is_circuit(
                        self@,
                        DIRESPECT,
                        weight@,
                        v as int,
                        q,
                    ) by {}
                }
                r
            },
            None => None,
        }
    }
}

} // verus!
