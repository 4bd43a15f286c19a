//! Closed walks from a node, and how a closed walk is let into another.

use crate::edge::Edge;
use crate::graph::Graph;
use crate::marks::{count_allowed, lemma_count_allowed_forbid};
use crate::net::Net;
use crate::walk::{
    is_walk, lemma_walk_concat, lemma_walk_edges, lemma_walk_reweigh,
    lemma_walk_split, walk_end, walk_weight, Weights,
};
use vstd::prelude::*;

verus! {

/// Whether `p` is a walk from slot `s` that returns there.
pub open spec fn is_tour(net: Net, direspect: bool, w: Weights, s: int, p: Seq<usize>) -> bool {
    is_walk(net, direspect, w, p, s) && walk_end(net, p, s) == s
}

/// Whether `p` is a walk from node `n` that returns there.
pub open spec fn is_tour_from(net: Net, direspect: bool, w: Weights, n: u64, p: Seq<usize>) -> bool {
    net.has(n) && is_tour(net, direspect, w, net.slot(n), p)
}

/// The weights `w` without the edges of `used`.
pub open spec fn without(w: Weights, used: Seq<usize>) -> Weights {
    Seq::new(
        w.len(),
        |e: int|
            if used.contains(e as usize) {
                None
            } else {
                w[e]
            },
    )
}

/// A closed walk let into a walk, at a place where the walk stands at the
/// node of the closed walk, gives a walk with the same ends, and costs
/// what the two cost.
pub proof fn lemma_splice(
    net: Net,
    direspect: bool,
    w: Weights,
    p: Seq<usize>,
    y: int,
    c: Seq<usize>,
    s: int,
)
    requires
        net.wf(),
        is_walk(net, direspect, w, p, s),
        0 <= y <= p.len(),
        is_tour(net, direspect, w, walk_end(net, p.take(y), s), c),
    ensures
        is_walk(net, direspect, w, p.take(y) + c + p.skip(y), s),
        walk_end(net, p.take(y) + c + p.skip(y), s) == walk_end(net, p, s),
        walk_weight(w, p.take(y) + c + p.skip(y)) == walk_weight(w, p) + walk_weight(w, c),
{
    lemma_walk_split(net, direspect, w, p, y, s);
    lemma_walk_concat(net, direspect, w, p.take(y), c, s);
    lemma_walk_concat(net, direspect, w, p.take(y) + c, p.skip(y), s);
}

/// A walk over what is left of the weights is a walk over the weights.
pub proof fn lemma_walk_without(
    net: Net,
    direspect: bool,
    w: Weights,
    used: Seq<usize>,
    p: Seq<usize>,
    s: int,
)
    requires
        w.len() == net.edges(),
        is_walk(net, direspect, without(w, used), p, s),
    ensures
        is_walk(net, direspect, w, p, s),
        walk_weight(w, p) == walk_weight(without(w, used), p),
        forall|i: int| 0 <= i < p.len() ==> !used.contains(#[trigger] p[i]),
{
    let v = without(w, used);
    lemma_walk_edges(net, direspect, v, p, s);
    assert forall|i: int| 0 <= i < p.len() implies w[#[trigger] p[i] as int] == v[p[i] as int] by {
        assert(v[p[i] as int] is Some);
    }
    lemma_walk_reweigh(net, direspect, v, w, p, s);
    assert forall|i: int| 0 <= i < p.len() implies !used.contains(#[trigger] p[i]) by {
        assert(v[p[i] as int] is Some);
    }
}

/// `sol` with `seg` let in before position `y`.
pub fn splice(sol: Vec<usize>, y: usize, seg: Vec<usize>) -> (r: Vec<usize>)
    requires
        y <= sol.len(),
    ensures
        r@ == sol@.take(y as int) + seg@ + sol@.skip(y as int),
{
    let ghost whole = sol@;
    let ghost middle = seg@;
    let mut head = sol;
    let mut tail = head.split_off(y);
    let mut seg = seg;
    head.append(&mut seg);
    head.append(&mut tail);
    assert(head@ =~= whole.take(y as int) + middle + whole.skip(y as int));
    head
}

/// Forbids the edges of `seg`.
pub fn forbid(masked: &mut Vec<Option<u64>>, seg: &Vec<usize>)
    requires
        forall|i: int| 0 <= i < seg.len() ==> (#[trigger] seg[i]) < old(masked).len(),
    ensures
        final(masked)@ == without(old(masked)@, seg@),
        count_allowed(final(masked)@) <= count_allowed(old(masked)@),
        seg.len() > 0 && old(masked)[seg[0] as int] is Some ==> count_allowed(final(masked)@)
            < count_allowed(old(masked)@),
{
    let ghost start = masked@;
    let mut i: usize = 0;
    while i < seg.len()
        invariant
            i <= seg.len(),
            masked.len() == start.len(),
            forall|j: int| 0 <= j < seg.len() ==> (#[trigger] seg[j]) < start.len(),
            masked@ == without(start, seg@.take(i as int)),
            count_allowed(masked@) <= count_allowed(start),
            i > 0 && start[seg[0] as int] is Some ==> count_allowed(masked@) < count_allowed(start),
        decreases seg.len() - i,
    {
        let e = seg[i];
        proof {
            lemma_count_allowed_forbid(masked@, e as int);
            let before = seg@.take(i as int);
            let after = seg@.take(i as int + 1);
            assert(after == before.push(e));
            assert forall|x: int| 0 <= x < start.len() implies (#[trigger] masked@.update(e as int, None)[x])
                == without(start, after)[x] by {
                if after.contains(x as usize) {
                    let j = choose|j: int| 0 <= j < after.len() && after[j] == x as usize;
                    if j < before.len() {
                        assert(before[j] == x as usize);
                    }
                } else {
                    if before.contains(x as usize) {
                        let j = choose|j: int| 0 <= j < before.len() && before[j] == x as usize;
                        assert(after[j] == x as usize);
                    }
                    assert(after[i as int] == e);
                }
            }
            assert(masked@.update(e as int, None) =~= without(start, after));
            if i == 0 {
                assert(before.len() == 0);
                assert(masked@ =~= start);
            }
        }
        masked[e] = None;
        i = i + 1;
    }
    assert(seg@.take(seg.len() as int) == seg@);
}

impl<N, E: Edge> Graph<N, E> {
    /// The slots at which a path stands, from slot `s` on: before its
    /// first edge, and after each of its edges.
    pub(crate) fn slots_along(&self, path: &Vec<usize>, s: usize) -> (r: Vec<usize>)
        requires
            self.wf(),
            forall|i: int| 0 <= i < path.len() ==> (#[trigger] path[i]) < self@.edges(),
        ensures
            r.len() == path.len() + 1,
            forall|i: int|
                0 <= i <= path.len() ==> (#[trigger] r[i]) == walk_end(self@, path@.take(i), s as int),
    {
        let mut r: Vec<usize> = Vec::new();
        r.push(s);
        let mut at = s;
        let mut i: usize = 0;
        assert(path@.take(0).len() == 0);
        while i < path.len()
            invariant
                self.wf(),
                forall|j: int| 0 <= j < path.len() ==> (#[trigger] path[j]) < self@.edges(),
                i <= path.len(),
                r.len() == i + 1,
                at == walk_end(self@, path@.take(i as int), s as int),
                forall|j: int|
                    0 <= j <= i ==> (#[trigger] r[j]) == walk_end(self@, path@.take(j), s as int),
            decreases path.len() - i,
        {
            let e = path[i];
            let (t, h) = self.ends[e];
            proof {
                let next = path@.take(i as int + 1);
                assert(next.drop_last() == path@.take(i as int));
                assert(next.last() == e);
            }
            at = if at == t {
                h
            } else {
                t
            };
            r.push(at);
            i = i + 1;
        }
        r
    }
}

} // verus!
