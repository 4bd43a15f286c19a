//! What a shortest-path search knows at each of its steps, and why the
//! first target that it settles is a nearest one.

use crate::net::Net;
use crate::walk::{
    cost, is_walk, lemma_walk_end_is_slot, lemma_walk_push, lemma_walk_weight_bounds, walk_end,
    walk_weight, Weights,
};
use crate::marks::{count_true, lemma_count_none, lemma_count_true_bound, lemma_count_true_set};
use vstd::prelude::*;

verus! {

/// The state of a search, by slot.
pub struct Frontier {
    /// The cost of the cheapest walk found so far from a source.
    pub dist: Seq<Option<u128>>,
    /// The last edge of that walk; `None` at a source.
    pub pred: Seq<Option<usize>>,
    /// Whether the node has left the queue.
    pub done: Seq<bool>,
    /// That walk.
    pub paths: Seq<Seq<usize>>,
    /// The source from which it starts.
    pub roots: Seq<int>,
    /// The cost at which the last node left the queue.
    pub bound: int,
    /// How many nodes have left the queue.
    pub popped: nat,
}

/// Whether slot `z` has been reached at a cost of at most `limit`.
pub open spec fn reaches(dist: Seq<Option<u128>>, z: int, limit: int) -> bool {
    0 <= z < dist.len() && dist[z] is Some && dist[z]->0 <= limit
}

/// Whether edge `e`, left from slot `u`, has been followed.
pub open spec fn relaxed_edge(
    net: Net,
    direspect: bool,
    w: Weights,
    dist: Seq<Option<u128>>,
    u: int,
    e: int,
) -> bool {
    net.legal(direspect, e, u) && w[e] is Some ==> reaches(
        dist,
        net.far(e, u),
        dist[u]->0 + cost(w, e),
    )
}

/// Whether every edge that can be left from slot `u` has been followed.
pub open spec fn relaxed(net: Net, direspect: bool, w: Weights, dist: Seq<Option<u128>>, u: int) -> bool {
    forall|e: int| #[trigger] relaxed_edge(net, direspect, w, dist, u, e)
}

/// Whether the first `k` edges on the incidence list of slot `u` have been
/// followed.
pub open spec fn relaxed_upto(
    net: Net,
    direspect: bool,
    w: Weights,
    dist: Seq<Option<u128>>,
    u: int,
    k: int,
) -> bool {
    forall|j: int| 0 <= j < k ==> relaxed_edge(net, direspect, w, dist, u, #[trigger] net.inc[u][j] as int)
}

/// Whether both ends of edge `e` have left the queue.
pub open spec fn edge_done(net: Net, done: Seq<bool>, e: int) -> bool {
    &&& 0 <= net.tail(e) < done.len()
    &&& 0 <= net.head(e) < done.len()
    &&& done[net.tail(e)]
    &&& done[net.head(e)]
}

/// Whether every node at which the walk `path` from slot `root` stands
/// before its end has left the queue.
pub open spec fn stands_done(net: Net, done: Seq<bool>, path: Seq<usize>, root: int) -> bool {
    forall|i: int|
        0 <= i < path.len() ==> {
            let at = walk_end(net, #[trigger] path.take(i), root);
            0 <= at < done.len() && done[at]
        }
}

impl Frontier {
    /// There is an entry for each node, as many nodes are counted as have
    /// left the queue, and the bound is no cost below zero.
    pub open spec fn shape(self, net: Net) -> bool {
        &&& self.dist.len() == net.nodes()
        &&& self.pred.len() == net.nodes()
        &&& self.done.len() == net.nodes()
        &&& self.paths.len() == net.nodes()
        &&& self.roots.len() == net.nodes()
        &&& self.popped == count_true(self.done)
        &&& 0 <= self.bound
    }

    /// Every node reached has a walk to show for it.
    pub open spec fn witnessed(self, net: Net, direspect: bool, w: Weights, src: Seq<bool>) -> bool {
        forall|v: int|
            0 <= v < net.nodes() && (#[trigger] self.dist[v]) is Some ==> {
                &&& 0 <= self.roots[v] < net.nodes()
                &&& src[self.roots[v]]
                &&& is_walk(net, direspect, w, self.paths[v], self.roots[v])
                &&& walk_end(net, self.paths[v], self.roots[v]) == v
                &&& walk_weight(w, self.paths[v]) == self.dist[v]->0
                &&& self.paths[v].no_duplicates()
                &&& self.paths[v].len() + (if self.done[v] { 1nat } else { 0nat }) <= self.popped
            }
    }

    /// The nodes that have left the queue are no farther than `bound`, the
    /// others no nearer.
    pub open spec fn ordered(self) -> bool {
        forall|v: int|
            0 <= v < self.done.len() ==> if #[trigger] self.done[v] {
                self.dist[v] is Some && self.dist[v]->0 <= self.bound
            } else {
                self.dist[v] is Some ==> self.dist[v]->0 >= self.bound
            }
    }

    /// Every source is reached at no cost.
    pub open spec fn rooted(self, src: Seq<bool>) -> bool {
        forall|a: int| 0 <= a < src.len() && src[a] ==> #[trigger] self.dist[a] == Some(0u128)
    }

    /// No target has left the queue.
    pub open spec fn searching(self, dst: Seq<bool>) -> bool {
        forall|v: int| 0 <= v < self.done.len() && #[trigger] self.done[v] ==> !dst[v]
    }

    /// The walk of a node is the walk of its parent and one more edge, the
    /// parent has left the queue, and so have both ends of every edge
    /// before the last.
    pub open spec fn tree(self, net: Net, direspect: bool) -> bool {
        forall|v: int|
            0 <= v < net.nodes() && self.dist[v] is Some ==> match #[trigger] self.pred[v] {
                None => self.paths[v].len() == 0 && self.roots[v] == v,
                Some(e) => {
                    let y = net.far(e as int, v);
                    &&& net.is_edge(e as int)
                    &&& net.touches(e as int, v)
                    &&& 0 <= y < net.nodes()
                    &&& self.done[y]
                    &&& self.dist[y] is Some
                    &&& self.paths[v] == self.paths[y].push(e)
                    &&& self.roots[v] == self.roots[y]
                    &&& forall|i: int|
                        0 <= i < self.paths[y].len() ==> edge_done(
                            net,
                            self.done,
                            #[trigger] self.paths[y][i] as int,
                        )
                },
            }
    }

    /// Every node that has left the queue, but for `cur`, has had its edges
    /// followed.
    pub open spec fn closed(self, net: Net, direspect: bool, w: Weights, cur: int) -> bool {
        forall|u: int|
            0 <= u < net.nodes() && #[trigger] self.done[u] && u != cur ==> relaxed(
                net,
                direspect,
                w,
                self.dist,
                u,
            )
    }

    /// What holds of the search at each step, with the edges of node
    /// `cur` perhaps not all followed yet.
    pub open spec fn inv(
        self,
        net: Net,
        direspect: bool,
        w: Weights,
        src: Seq<bool>,
        dst: Seq<bool>,
        cur: int,
    ) -> bool {
        &&& self.shape(net)
        &&& self.witnessed(net, direspect, w, src)
        &&& self.ordered()
        &&& self.rooted(src)
        &&& self.searching(dst)
        &&& self.tree(net, direspect)
        &&& self.closed(net, direspect, w, cur)
        &&& self.grounded(src)
        &&& self.passed(net)
    }

    /// The walk of a source is empty.
    pub open spec fn grounded(self, src: Seq<bool>) -> bool {
        forall|a: int| 0 <= a < src.len() && src[a] ==> (#[trigger] self.pred[a]) is None
    }

    /// Every node at which the walk of a node stands before its end has
    /// left the queue.
    pub open spec fn passed(self, net: Net) -> bool {
        forall|v: int|
            0 <= v < net.nodes() && self.dist[v] is Some ==> #[trigger] stands_done(
                net,
                self.done,
                self.paths[v],
                self.roots[v],
            )
    }

    /// The state after slot `u` has left the queue at cost `du`.
    pub open spec fn settle(self, u: int, du: int) -> Frontier {
        Frontier { done: self.done.update(u, true), bound: du, popped: self.popped + 1, ..self }
    }

    /// The state after edge `e` has been found to lead from slot `u` to
    /// slot `v` at a total cost of `nd`.
    pub open spec fn improve(self, u: int, e: usize, v: int, nd: u128) -> Frontier {
        Frontier {
            dist: self.dist.update(v, Some(nd)),
            pred: self.pred.update(v, Some(e)),
            paths: self.paths.update(v, self.paths[u].push(e)),
            roots: self.roots.update(v, self.roots[u]),
            ..self
        }
    }
}

/// A walk from a source costs at least `bound`, or at least what its end
/// was reached at.
pub proof fn lemma_lower_bound(
    net: Net,
    direspect: bool,
    w: Weights,
    src: Seq<bool>,
    f: Frontier,
    a: int,
    q: Seq<usize>,
)
    requires
        net.wf(),
        f.shape(net),
        src.len() == net.nodes(),
        0 <= a < net.nodes(),
        src[a],
        is_walk(net, direspect, w, q, a),
        f.rooted(src),
        f.ordered(),
        f.closed(net, direspect, w, -1),
    ensures
        walk_weight(w, q) >= f.bound || reaches(f.dist, walk_end(net, q, a), walk_weight(w, q)),
    decreases q.len(),
{
    if q.len() > 0 {
        let q0 = q.drop_last();
        let e = q.last() as int;
        let y = walk_end(net, q0, a);
        lemma_lower_bound(net, direspect, w, src, f, a, q0);
        lemma_walk_end_is_slot(net, direspect, w, q0, a);
        lemma_walk_weight_bounds(w, q0);
        if walk_weight(w, q0) < f.bound {
            assert(reaches(f.dist, y, walk_weight(w, q0)));
            if f.done[y] {
                assert(relaxed(net, direspect, w, f.dist, y));
                assert(relaxed_edge(net, direspect, w, f.dist, y, e));
            }
        }
    }
}

/// Once every node reached has left the queue, a walk from a source ends
/// at one of them.
pub proof fn lemma_exhausted(
    net: Net,
    direspect: bool,
    w: Weights,
    src: Seq<bool>,
    f: Frontier,
    a: int,
    q: Seq<usize>,
)
    requires
        net.wf(),
        f.shape(net),
        src.len() == net.nodes(),
        0 <= a < net.nodes(),
        src[a],
        is_walk(net, direspect, w, q, a),
        f.rooted(src),
        f.closed(net, direspect, w, -1),
        forall|v: int| 0 <= v < net.nodes() && (#[trigger] f.dist[v]) is Some ==> f.done[v],
    ensures
        0 <= walk_end(net, q, a) < net.nodes(),
        f.done[walk_end(net, q, a)],
    decreases q.len(),
{
    if q.len() > 0 {
        let q0 = q.drop_last();
        let e = q.last() as int;
        let y = walk_end(net, q0, a);
        lemma_exhausted(net, direspect, w, src, f, a, q0);
        lemma_walk_end_is_slot(net, direspect, w, q, a);
        assert(relaxed(net, direspect, w, f.dist, y));
        assert(relaxed_edge(net, direspect, w, f.dist, y, e));
        let z = walk_end(net, q, a);
        assert(f.dist[z] is Some);
    } else {
        assert(f.dist[a] is Some);
    }
}

/// Before anything has left the queue, the sources are reached at no cost
/// and nothing else is reached.
pub proof fn lemma_start(
    net: Net,
    direspect: bool,
    w: Weights,
    src: Seq<bool>,
    dst: Seq<bool>,
    f: Frontier,
)
    requires
        net.wf(),
        src.len() == net.nodes(),
        f.dist.len() == net.nodes(),
        f.pred.len() == net.nodes(),
        f.done.len() == net.nodes(),
        f.paths.len() == net.nodes(),
        f.roots.len() == net.nodes(),
        f.bound == 0,
        f.popped == 0,
        forall|v: int|
            0 <= v < net.nodes() ==> {
                &&& (#[trigger] f.dist[v]) == if src[v] {
                    Some(0u128)
                } else {
                    None
                }
                &&& f.pred[v] is None
                &&& !f.done[v]
                &&& f.paths[v].len() == 0
                &&& f.roots[v] == v
            },
    ensures
        f.inv(net, direspect, w, src, dst, -1),
{
    assert forall|i: int| 0 <= i < f.done.len() implies !f.done[i] by {
        assert(f.dist[i] is Some || f.dist[i] is None);
    }
    lemma_count_none(f.done);
    assert(f.rooted(src));
    assert(f.ordered());
    assert(f.grounded(src)) by {
        assert forall|a: int| 0 <= a < src.len() && src[a] implies (#[trigger] f.pred[a]) is None by {
            assert(f.dist[a] is Some || f.dist[a] is None);
        }
    }
    assert(f.passed(net)) by {
        assert forall|v: int| 0 <= v < net.nodes() && f.dist[v] is Some implies #[trigger] stands_done(
            net,
            f.done,
            f.paths[v],
            f.roots[v],
        ) by {
            assert(f.paths[v].len() == 0);
        }
    }
}

proof fn lemma_settle_witnessed(
    net: Net,
    direspect: bool,
    w: Weights,
    src: Seq<bool>,
    f: Frontier,
    u: int,
)
    requires
        f.shape(net),
        f.witnessed(net, direspect, w, src),
        0 <= u < net.nodes(),
    ensures
        f.settle(u, f.dist[u]->0 as int).witnessed(net, direspect, w, src),
{
    let g = f.settle(u, f.dist[u]->0 as int);
    assert forall|v: int| 0 <= v < net.nodes() && (#[trigger] g.dist[v]) is Some implies {
        &&& 0 <= g.roots[v] < net.nodes()
        &&& src[g.roots[v]]
        &&& is_walk(net, direspect, w, g.paths[v], g.roots[v])
        &&& walk_end(net, g.paths[v], g.roots[v]) == v
        &&& walk_weight(w, g.paths[v]) == g.dist[v]->0
        &&& g.paths[v].no_duplicates()
        &&& g.paths[v].len() + (if g.done[v] { 1nat } else { 0nat }) <= g.popped
    } by {
        assert(f.dist[v] is Some);
    }
}

proof fn lemma_settle_tree(net: Net, direspect: bool, f: Frontier, u: int)
    requires
        f.shape(net),
        f.tree(net, direspect),
        0 <= u < net.nodes(),
    ensures
        f.settle(u, f.dist[u]->0 as int).tree(net, direspect),
{
    let g = f.settle(u, f.dist[u]->0 as int);
    assert forall|v: int| 0 <= v < net.nodes() && g.dist[v] is Some implies match #[trigger] g.pred[v] {
        None => g.paths[v].len() == 0 && g.roots[v] == v,
        Some(e) => {
            let y = net.far(e as int, v);
            &&& net.is_edge(e as int)
            &&& net.touches(e as int, v)
            &&& 0 <= y < net.nodes()
            &&& g.done[y]
            &&& g.dist[y] is Some
            &&& g.paths[v] == g.paths[y].push(e)
            &&& g.roots[v] == g.roots[y]
            &&& forall|i: int|
                0 <= i < g.paths[y].len() ==> edge_done(net, g.done, #[trigger] g.paths[y][i] as int)
        },
    } by {
        assert(f.dist[v] is Some);
        match f.pred[v] {
            None => {},
            Some(e) => {
                let y = net.far(e as int, v);
                assert forall|i: int| 0 <= i < g.paths[y].len() implies edge_done(
                    net,
                    g.done,
                    #[trigger] g.paths[y][i] as int,
                ) by {
                    assert(edge_done(net, f.done, f.paths[y][i] as int));
                }
            },
        }
    }
}

proof fn lemma_settle_ordered(f: Frontier, u: int)
    requires
        f.dist.len() == f.done.len(),
        f.ordered(),
        0 <= u < f.done.len(),
        f.dist[u] is Some,
        !f.done[u],
        forall|v: int|
            0 <= v < f.done.len() && !f.done[v] && (#[trigger] f.dist[v]) is Some ==> f.dist[v]->0
                >= f.dist[u]->0,
    ensures
        f.settle(u, f.dist[u]->0 as int).ordered(),
{
    let g = f.settle(u, f.dist[u]->0 as int);
    assert forall|v: int| 0 <= v < g.done.len() implies if #[trigger] g.done[v] {
        g.dist[v] is Some && g.dist[v]->0 <= g.bound
    } else {
        g.dist[v] is Some ==> g.dist[v]->0 >= g.bound
    } by {
        if v != u {
            assert(f.done[v] == g.done[v]);
            if f.done[v] {
                assert(f.dist[v]->0 <= f.bound);
            } else if f.dist[v] is Some {
            }
        }
    }
}

/// Settling the nearest node of the queue keeps the search's invariant,
/// with that node's edges still to be followed.
pub proof fn lemma_settle(
    net: Net,
    direspect: bool,
    w: Weights,
    src: Seq<bool>,
    dst: Seq<bool>,
    f: Frontier,
    u: int,
)
    requires
        net.wf(),
        src.len() == net.nodes(),
        f.inv(net, direspect, w, src, dst, -1),
        0 <= u < net.nodes(),
        f.dist[u] is Some,
        !f.done[u],
        !dst[u],
        forall|v: int|
            0 <= v < net.nodes() && !f.done[v] && (#[trigger] f.dist[v]) is Some ==> f.dist[v]->0
                >= f.dist[u]->0,
    ensures
        f.settle(u, f.dist[u]->0 as int).inv(net, direspect, w, src, dst, u),
        f.popped < net.nodes(),
        relaxed_upto(net, direspect, w, f.dist, u, 0),
{
    let g = f.settle(u, f.dist[u]->0 as int);
    lemma_count_true_set(f.done, u);
    lemma_count_true_bound(g.done);
    assert(f.bound <= f.dist[u]->0);
    assert(g.shape(net));
    lemma_settle_ordered(f, u);
    lemma_settle_witnessed(net, direspect, w, src, f, u);
    lemma_settle_tree(net, direspect, f, u);
    assert(g.searching(dst)) by {
        assert forall|v: int| 0 <= v < g.done.len() && #[trigger] g.done[v] implies !dst[v] by {
            if v != u {
                assert(f.done[v]);
            }
        }
    }
    assert(g.rooted(src));
    assert(g.grounded(src));
    assert(g.passed(net)) by {
        assert forall|v: int| 0 <= v < net.nodes() && g.dist[v] is Some implies #[trigger] stands_done(
            net,
            g.done,
            g.paths[v],
            g.roots[v],
        ) by {
            assert(f.dist[v] is Some);
            assert(stands_done(net, f.done, f.paths[v], f.roots[v]));
        }
    }
    assert(g.closed(net, direspect, w, u)) by {
        assert forall|x: int| 0 <= x < net.nodes() && #[trigger] g.done[x] && x != u implies relaxed(
            net,
            direspect,
            w,
            g.dist,
            x,
        ) by {
            assert(f.done[x]);
        }
    }
}

/// An edge that is not to be followed, or leads nowhere better, counts as
/// followed.
pub proof fn lemma_skip(
    net: Net,
    direspect: bool,
    w: Weights,
    f: Frontier,
    u: int,
    k: int,
)
    requires
        net.wf(),
        f.shape(net),
        f.ordered(),
        0 <= u < net.nodes(),
        f.done[u],
        f.dist[u]->0 == f.bound,
        0 <= k < net.inc[u].len(),
        relaxed_upto(net, direspect, w, f.dist, u, k),
        ({
            let e = net.inc[u][k] as int;
            let v = net.far(e, u);
            ||| !net.legal(direspect, e, u)
            ||| w[e] is None
            ||| f.done[v]
            ||| reaches(f.dist, v, f.dist[u]->0 + cost(w, e))
        }),
    ensures
        relaxed_upto(net, direspect, w, f.dist, u, k + 1),
{
    let e = net.inc[u][k] as int;
    let v = net.far(e, u);
    assert(net.touches(e, u));
    assert(0 <= net.tail(e) < net.nodes());
    if net.legal(direspect, e, u) && w[e] is Some {
        if f.done[v] {
            assert(f.dist[v] is Some && f.dist[v]->0 <= f.bound);
        }
        assert(relaxed_edge(net, direspect, w, f.dist, u, e));
    }
    assert forall|j: int| 0 <= j < k + 1 implies relaxed_edge(
        net,
        direspect,
        w,
        f.dist,
        u,
        #[trigger] net.inc[u][j] as int,
    ) by {}
}

/// Following an edge to a node that is then reached for the first time,
/// or more cheaply than before, keeps the search's invariant.
pub proof fn lemma_improve(
    net: Net,
    direspect: bool,
    w: Weights,
    src: Seq<bool>,
    dst: Seq<bool>,
    f: Frontier,
    u: int,
    k: int,
    nd: u128,
)
    requires
        net.wf(),
        src.len() == net.nodes(),
        f.inv(net, direspect, w, src, dst, u),
        0 <= u < net.nodes(),
        f.done[u],
        f.dist[u]->0 == f.bound,
        0 <= k < net.inc[u].len(),
        relaxed_upto(net, direspect, w, f.dist, u, k),
        ({
            let e = net.inc[u][k] as int;
            let v = net.far(e, u);
            &&& net.legal(direspect, e, u)
            &&& w[e] is Some
            &&& !f.done[v]
            &&& nd == f.dist[u]->0 + cost(w, e)
            &&& f.dist[v] is Some ==> f.dist[v]->0 > nd
        }),
    ensures
        ({
            let e = net.inc[u][k];
            let v = net.far(e as int, u);
            let g = f.improve(u, e, v, nd);
            &&& g.inv(net, direspect, w, src, dst, u)
            &&& relaxed_upto(net, direspect, w, g.dist, u, k + 1)
            &&& 0 <= v < net.nodes()
        }),
{
    let e = net.inc[u][k];
    let v = net.far(e as int, u);
    let g = f.improve(u, e, v, nd);
    assert(net.touches(e as int, u));
    assert(0 <= net.tail(e as int) < net.nodes());
    assert(0 <= v < net.nodes());
    assert(v != u);
    assert(f.dist[u] is Some);
    assert(g.shape(net));
    lemma_walk_push(net, direspect, w, f.paths[u], f.roots[u], e);
    assert(net.far(e as int, v) == u);
    assert(!edge_done(net, f.done, e as int));
    assert(g.witnessed(net, direspect, w, src)) by {
        assert forall|x: int| 0 <= x < net.nodes() && (#[trigger] g.dist[x]) is Some implies {
            &&& 0 <= g.roots[x] < net.nodes()
            &&& src[g.roots[x]]
            &&& is_walk(net, direspect, w, g.paths[x], g.roots[x])
            &&& walk_end(net, g.paths[x], g.roots[x]) == x
            &&& walk_weight(w, g.paths[x]) == g.dist[x]->0
            &&& g.paths[x].no_duplicates()
            &&& g.paths[x].len() + (if g.done[x] { 1nat } else { 0nat }) <= g.popped
        } by {
            if x == v {
                let pu = f.paths[u];
                match f.pred[u] {
                    None => {
                        assert(pu.len() == 0);
                    },
                    Some(eu) => {
                        let y = net.far(eu as int, u);
                        assert(pu == f.paths[y].push(eu));
                        assert forall|i: int| 0 <= i < pu.len() implies edge_done(
                            net,
                            f.done,
                            #[trigger] pu[i] as int,
                        ) by {
                            if i < f.paths[y].len() {
                                assert(pu[i] == f.paths[y][i]);
                            } else {
                                assert(pu[i] == eu);
                            }
                        }
                    },
                }
                assert forall|i: int| 0 <= i < pu.len() implies pu[i] != e by {
                    if pu[i] == e {
                        match f.pred[u] {
                            None => {},
                            Some(eu) => {
                                let y = net.far(eu as int, u);
                                if i < f.paths[y].len() {
                                    assert(pu[i] == f.paths[y][i]);
                                    assert(edge_done(net, f.done, f.paths[y][i] as int));
                                } else {
                                    assert(pu[i] == eu);
                                }
                            },
                        }
                    }
                }
            } else {
                assert(f.dist[x] is Some);
            }
        }
    }
    assert(g.ordered()) by {
        assert forall|x: int| 0 <= x < g.done.len() implies if #[trigger] g.done[x] {
            g.dist[x] is Some && g.dist[x]->0 <= g.bound
        } else {
            g.dist[x] is Some ==> g.dist[x]->0 >= g.bound
        } by {
            if x != v {
                assert(f.done[x] == g.done[x]);
                if f.dist[x] is Some {
                }
            }
        }
    }
    assert(g.rooted(src)) by {
        assert forall|a: int| 0 <= a < src.len() && src[a] implies #[trigger] g.dist[a] == Some(
            0u128,
        ) by {
            assert(f.dist[a] == Some(0u128));
        }
    }
    assert(g.searching(dst));
    assert(g.grounded(src)) by {
        assert forall|a: int| 0 <= a < src.len() && src[a] implies (#[trigger] g.pred[a]) is None by {
            assert(f.dist[a] == Some(0u128));
            assert(f.pred[a] is None);
        }
    }
    assert(g.passed(net)) by {
        assert forall|x: int| 0 <= x < net.nodes() && g.dist[x] is Some implies #[trigger] stands_done(
            net,
            g.done,
            g.paths[x],
            g.roots[x],
        ) by {
            if x == v {
                let pu = f.paths[u];
                assert(stands_done(net, f.done, pu, f.roots[u]));
                assert forall|i: int| 0 <= i < g.paths[v].len() implies ({
                    let at = walk_end(net, #[trigger] g.paths[v].take(i), g.roots[v]);
                    0 <= at < g.done.len() && g.done[at]
                }) by {
                    if i < pu.len() {
                        assert(g.paths[v].take(i) == pu.take(i));
                    } else {
                        assert(g.paths[v].take(i) == pu);
                    }
                }
            } else {
                assert(f.dist[x] is Some);
                assert(stands_done(net, f.done, f.paths[x], f.roots[x]));
            }
        }
    }
    assert(g.tree(net, direspect)) by {
        assert forall|x: int| 0 <= x < net.nodes() && g.dist[x] is Some implies match #[trigger] g.pred[x] {
            None => g.paths[x].len() == 0 && g.roots[x] == x,
            Some(ex) => {
                let y = net.far(ex as int, x);
                &&& net.is_edge(ex as int)
                &&& net.touches(ex as int, x)
                &&& 0 <= y < net.nodes()
                &&& g.done[y]
                &&& g.dist[y] is Some
                &&& g.paths[x] == g.paths[y].push(ex)
                &&& g.roots[x] == g.roots[y]
                &&& forall|i: int|
                    0 <= i < g.paths[y].len() ==> edge_done(
                        net,
                        g.done,
                        #[trigger] g.paths[y][i] as int,
                    )
            },
        } by {
            if x == v {
                let pu = f.paths[u];
                match f.pred[u] {
                    None => {},
                    Some(eu) => {
                        let y = net.far(eu as int, u);
                        assert forall|i: int| 0 <= i < pu.len() implies edge_done(
                            net,
                            f.done,
                            #[trigger] pu[i] as int,
                        ) by {
                            if i < f.paths[y].len() {
                                assert(pu[i] == f.paths[y][i]);
                            } else {
                                assert(pu[i] == eu);
                            }
                        }
                    },
                }
            } else {
                assert(f.dist[x] is Some);
                match f.pred[x] {
                    None => {},
                    Some(ex) => {
                        let y = net.far(ex as int, x);
                        assert(y != v);
                    },
                }
            }
        }
    }
    assert(g.closed(net, direspect, w, u)) by {
        assert forall|x: int| 0 <= x < net.nodes() && #[trigger] g.done[x] && x != u implies relaxed(
            net,
            direspect,
            w,
            g.dist,
            x,
        ) by {
            assert(relaxed(net, direspect, w, f.dist, x));
            assert forall|ex: int| #[trigger] relaxed_edge(net, direspect, w, g.dist, x, ex) by {
                assert(relaxed_edge(net, direspect, w, f.dist, x, ex));
            }
        }
    }
    assert forall|j: int| 0 <= j < k + 1 implies relaxed_edge(
        net,
        direspect,
        w,
        g.dist,
        u,
        #[trigger] net.inc[u][j] as int,
    ) by {
        if j < k {
            assert(relaxed_edge(net, direspect, w, f.dist, u, net.inc[u][j] as int));
        }
    }
}

} // verus!
