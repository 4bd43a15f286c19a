//! Walks over a graph's shape: sequences of edges, each left from the node
//! that the one before it arrived at.

use crate::net::Net;
use vstd::prelude::*;

verus! {

/// The cost of each edge, by edge number; `None` forbids the edge.
pub type Weights = Seq<Option<u64>>;

/// The slot at which the walk `p` from slot `s` arrives.
pub open spec fn walk_end(net: Net, p: Seq<usize>, s: int) -> int
    decreases p.len(),
{
    if p.len() == 0 {
        s
    } else {
        net.far(p.last() as int, walk_end(net, p.drop_last(), s))
    }
}

/// Whether `p` is a walk from slot `s`: every edge of it is allowed by `w`
/// and may be left from the node where the walk stands when it takes it.
pub open spec fn is_walk(net: Net, direspect: bool, w: Weights, p: Seq<usize>, s: int) -> bool
    decreases p.len(),
{
    if p.len() == 0 {
        net.is_slot(s)
    } else {
        &&& is_walk(net, direspect, w, p.drop_last(), s)
        &&& net.legal(direspect, p.last() as int, walk_end(net, p.drop_last(), s))
        &&& w[p.last() as int] is Some
    }
}

/// What edge `e` costs; nothing where it is forbidden.
pub open spec fn cost(w: Weights, e: int) -> int {
    match w[e] {
        Some(c) => c as int,
        None => 0,
    }
}

/// The sum of the costs of the edges of `p`.
pub open spec fn walk_weight(w: Weights, p: Seq<usize>) -> int
    decreases p.len(),
{
    if p.len() == 0 {
        0
    } else {
        walk_weight(w, p.drop_last()) + cost(w, p.last() as int)
    }
}

/// Whether `p` is a walk from the node `a` to the node `b`.
pub open spec fn is_route(
    net: Net,
    direspect: bool,
    w: Weights,
    p: Seq<usize>,
    a: u64,
    b: u64,
) -> bool {
    &&& net.has(a)
    &&& net.has(b)
    &&& is_walk(net, direspect, w, p, net.slot(a))
    &&& walk_end(net, p, net.slot(a)) == net.slot(b)
}

/// A walk costs at least nothing, and at most the greatest cost for
/// each of its edges.
pub proof fn lemma_walk_weight_bounds(w: Weights, p: Seq<usize>)
    ensures
        0 <= walk_weight(w, p) <= p.len() * u64::MAX,
    decreases p.len(),
{
    if p.len() > 0 {
        lemma_walk_weight_bounds(w, p.drop_last());
        assert(0 <= cost(w, p.last() as int) <= u64::MAX);
        assert(p.len() * u64::MAX == (p.len() - 1) * u64::MAX + u64::MAX) by (nonlinear_arith);
        assert(p.drop_last().len() == p.len() - 1);
    }
}

/// A walk stays among the nodes of the graph.
pub proof fn lemma_walk_end_is_slot(net: Net, direspect: bool, w: Weights, p: Seq<usize>, s: int)
    requires
        net.wf(),
        is_walk(net, direspect, w, p, s),
    ensures
        net.is_slot(s),
        net.is_slot(walk_end(net, p, s)),
    decreases p.len(),
{
    if p.len() > 0 {
        lemma_walk_end_is_slot(net, direspect, w, p.drop_last(), s);
        let e = p.last() as int;
        assert(0 <= net.tail(e) < net.ids.len());
    }
}

/// A walk can be extended by an edge that may be left from its end.
pub proof fn lemma_walk_push(
    net: Net,
    direspect: bool,
    w: Weights,
    p: Seq<usize>,
    s: int,
    e: usize,
)
    requires
        is_walk(net, direspect, w, p, s),
        net.legal(direspect, e as int, walk_end(net, p, s)),
        w[e as int] is Some,
    ensures
        is_walk(net, direspect, w, p.push(e), s),
        walk_end(net, p.push(e), s) == net.far(e as int, walk_end(net, p, s)),
        walk_weight(w, p.push(e)) == walk_weight(w, p) + cost(w, e as int),
{
    assert(p.push(e).drop_last() == p);
}

/// Two walks, the second from where the first arrives, make one walk.
pub proof fn lemma_walk_concat(
    net: Net,
    direspect: bool,
    w: Weights,
    p: Seq<usize>,
    q: Seq<usize>,
    s: int,
)
    requires
        is_walk(net, direspect, w, p, s),
        is_walk(net, direspect, w, q, walk_end(net, p, s)),
    ensures
        is_walk(net, direspect, w, p + q, s),
        walk_end(net, p + q, s) == walk_end(net, q, walk_end(net, p, s)),
        walk_weight(w, p + q) == walk_weight(w, p) + walk_weight(w, q),
    decreases q.len(),
{
    if q.len() == 0 {
        assert(p + q == p);
    } else {
        lemma_walk_concat(net, direspect, w, p, q.drop_last(), s);
        assert((p + q).drop_last() == p + q.drop_last());
        assert((p + q).last() == q.last());
    }
}

/// A walk cut in two gives two walks, the second from where the first
/// arrives.
pub proof fn lemma_walk_split(
    net: Net,
    direspect: bool,
    w: Weights,
    p: Seq<usize>,
    k: int,
    s: int,
)
    requires
        net.wf(),
        is_walk(net, direspect, w, p, s),
        0 <= k <= p.len(),
    ensures
        is_walk(net, direspect, w, p.take(k), s),
        is_walk(net, direspect, w, p.skip(k), walk_end(net, p.take(k), s)),
        walk_end(net, p.skip(k), walk_end(net, p.take(k), s)) == walk_end(net, p, s),
        walk_weight(w, p) == walk_weight(w, p.take(k)) + walk_weight(w, p.skip(k)),
    decreases p.len(),
{
    if k == p.len() {
        assert(p.take(k) == p);
        assert(p.skip(k).len() == 0);
        lemma_walk_end_is_slot(net, direspect, w, p, s);
    } else {
        lemma_walk_split(net, direspect, w, p.drop_last(), k, s);
        assert(p.drop_last().take(k) == p.take(k));
        assert(p.skip(k).drop_last() == p.drop_last().skip(k));
        assert(p.skip(k).last() == p.last());
    }
}

/// A walk is a walk under any weights that allow its edges, and costs the
/// same where the weights agree on them.
pub proof fn lemma_walk_reweigh(
    net: Net,
    direspect: bool,
    w: Weights,
    v: Weights,
    p: Seq<usize>,
    s: int,
)
    requires
        is_walk(net, direspect, w, p, s),
        forall|i: int| 0 <= i < p.len() ==> v[#[trigger] p[i] as int] == w[p[i] as int],
    ensures
        is_walk(net, direspect, v, p, s),
        walk_weight(v, p) == walk_weight(w, p),
    decreases p.len(),
{
    if p.len() > 0 {
        assert forall|i: int| 0 <= i < p.drop_last().len() implies v[#[trigger] p.drop_last()[i] as int]
            == w[p.drop_last()[i] as int] by {
            assert(p.drop_last()[i] == p[i]);
        }
        lemma_walk_reweigh(net, direspect, w, v, p.drop_last(), s);
        assert(p.last() == p[p.len() - 1]);
    }
}

/// Every edge of a walk is an edge of the graph that the weights allow.
pub proof fn lemma_walk_edges(net: Net, direspect: bool, w: Weights, p: Seq<usize>, s: int)
    requires
        is_walk(net, direspect, w, p, s),
    ensures
        forall|i: int| 0 <= i < p.len() ==> net.is_edge(#[trigger] p[i] as int) && w[p[i] as int] is Some,
    decreases p.len(),
{
    if p.len() > 0 {
        lemma_walk_edges(net, direspect, w, p.drop_last(), s);
        assert forall|i: int| 0 <= i < p.len() implies net.is_edge(#[trigger] p[i] as int)
            && w[p[i] as int] is Some by {
            if i < p.len() - 1 {
                assert(p.drop_last()[i] == p[i]);
            }
        }
    }
}

/// One edge that may be left from a node is a walk from that node.
pub proof fn lemma_walk_single(net: Net, direspect: bool, w: Weights, e: usize, s: int)
    requires
        net.is_slot(s),
        net.legal(direspect, e as int, s),
        w[e as int] is Some,
    ensures
        is_walk(net, direspect, w, seq![e], s),
        walk_end(net, seq![e], s) == net.far(e as int, s),
        walk_weight(w, seq![e]) == cost(w, e as int),
{
    let p = seq![e];
    assert(p.drop_last() == Seq::<usize>::empty());
    assert(is_walk(net, direspect, w, p.drop_last(), s));
    assert(walk_end(net, p.drop_last(), s) == s);
    assert(walk_weight(w, p.drop_last()) == 0);
}

/// The first edge of a walk may be left from the node where the walk
/// starts, and what follows is a walk from that edge's other end.
pub proof fn lemma_walk_first(net: Net, direspect: bool, w: Weights, p: Seq<usize>, s: int)
    requires
        net.wf(),
        is_walk(net, direspect, w, p, s),
        p.len() > 0,
    ensures
        net.legal(direspect, p[0] as int, s),
        w[p[0] as int] is Some,
        is_walk(net, direspect, w, p.skip(1), net.far(p[0] as int, s)),
        walk_end(net, p.skip(1), net.far(p[0] as int, s)) == walk_end(net, p, s),
        walk_weight(w, p) == cost(w, p[0] as int) + walk_weight(w, p.skip(1)),
{
    lemma_walk_split(net, direspect, w, p, 1, s);
    let head = p.take(1);
    assert(head.drop_last() == Seq::<usize>::empty());
    assert(head.last() == p[0]);
    assert(walk_end(net, head.drop_last(), s) == s);
    assert(walk_weight(w, head.drop_last()) == 0);
}

/// A walk under dearer weights is a walk under cheaper ones, and costs
/// no less.
pub proof fn lemma_walk_dearer(
    net: Net,
    direspect: bool,
    w: Weights,
    v: Weights,
    p: Seq<usize>,
    s: int,
)
    requires
        w.len() == net.edges(),
        v.len() == net.edges(),
        forall|e: int|
            0 <= e < v.len() && (#[trigger] v[e]) is Some ==> w[e] is Some && w[e]->0 <= v[e]->0,
        is_walk(net, direspect, v, p, s),
    ensures
        is_walk(net, direspect, w, p, s),
        walk_weight(w, p) <= walk_weight(v, p),
    decreases p.len(),
{
    if p.len() > 0 {
        lemma_walk_dearer(net, direspect, w, v, p.drop_last(), s);
        assert(v[p.last() as int] is Some);
    }
}

/// With the weights raised, or edges forbidden, the cheapest walk between
/// two nodes gets no cheaper.
pub proof fn lemma_route_monotone(
    net: Net,
    direspect: bool,
    w: Weights,
    v: Weights,
    p: Seq<usize>,
    q: Seq<usize>,
    a: u64,
    b: u64,
)
    requires
        w.len() == net.edges(),
        v.len() == net.edges(),
        forall|e: int|
            0 <= e < v.len() && (#[trigger] v[e]) is Some ==> w[e] is Some && w[e]->0 <= v[e]->0,
        is_route(net, direspect, w, p, a, b),
        forall|x: Seq<usize>| #[trigger]
            is_route(net, direspect, w, x, a, b) ==> walk_weight(w, p) <= walk_weight(w, x),
        is_route(net, direspect, v, q, a, b),
    ensures
        walk_weight(w, p) <= walk_weight(v, q),
{
    lemma_walk_dearer(net, direspect, w, v, q, net.slot(a));
    assert(is_route(net, direspect, w, q, a, b));
}

} // verus!
