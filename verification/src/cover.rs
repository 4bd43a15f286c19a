//! Covering the edges of a graph by closed walks, one from each of a list
//! of anchor nodes.
//!
//! The walks start empty. The shortest walk that can still grow is let a
//! cheapest closed walk over unused edges in, at the first of its nodes
//! that has one, until no walk can grow or no edge is left.

use crate::cycle::{is_circuit, total_weight};
use crate::edge::Edge;
use crate::graph::Graph;
use crate::marks::{count_allowed, count_true, lemma_count_true_bound, lemma_count_true_set};
use crate::net::Net;
use crate::tour::{
    forbid, is_tour, is_tour_from, lemma_splice, lemma_walk_without, splice, without,
};
use crate::walk::{
    lemma_walk_edges, lemma_walk_end_is_slot, lemma_walk_first, lemma_walk_reweigh,
    lemma_walk_split, walk_end, Weights, walk_weight,
};
use vstd::prelude::*;

verus! {

/// Closed walks, one for each anchor, and the edges that none of them
/// takes.
#[derive(Debug)]
pub struct Cover {
    pub tours: Vec<Vec<usize>>,
    pub residual: Vec<usize>,
}

/// The walks as sequences.
pub open spec fn views(tours: Seq<Vec<usize>>) -> Seq<Seq<usize>> {
    Seq::new(tours.len(), |i: int| tours[i]@)
}

/// Whether one of the walks takes edge `e`.
pub open spec fn taken(tours: Seq<Seq<usize>>, e: usize) -> bool {
    exists|i: int| 0 <= i < tours.len() && (#[trigger] tours[i]).contains(e)
}

/// Whether no edge is taken twice, by one walk or by two.
pub open spec fn apart(tours: Seq<Seq<usize>>) -> bool {
    &&& forall|i: int| 0 <= i < tours.len() ==> (#[trigger] tours[i]).no_duplicates()
    &&& forall|i: int, j: int, a: int, b: int|
        0 <= i < tours.len() && 0 <= j < tours.len() && i != j && 0 <= a < tours[i].len() && 0 <= b
            < tours[j].len() ==> #[trigger] tours[i][a] != #[trigger] tours[j][b]
}

/// The weights `w` without the edges that the walks take.
pub open spec fn spare(w: Weights, tours: Seq<Seq<usize>>) -> Weights {
    Seq::new(
        w.len(),
        |e: int|
            if taken(tours, e as usize) {
                None
            } else {
                w[e]
            },
    )
}

/// The weights `w` on the edges of `residual` alone.
pub open spec fn only(w: Weights, residual: Seq<usize>) -> Weights {
    Seq::new(
        w.len(),
        |e: int|
            if residual.contains(e as usize) {
                w[e]
            } else {
                None
            },
    )
}

/// Whether the walk `tour` from slot `s` cannot grow: at none of its nodes
/// do the edges that `left` allows hold a closed walk.
pub open spec fn closed_off(net: Net, direspect: bool, left: Weights, s: int, tour: Seq<usize>) -> bool {
    forall|y: int, q: Seq<usize>|
        0 <= y <= tour.len() ==> !#[trigger] is_circuit(
            net,
            direspect,
            left,
            walk_end(net, tour.take(y), s),
            q,
        )
}

/// What a cover is: for each anchor that is a node a closed walk from it,
/// and an empty walk for any other; no edge taken twice; `residual` the
/// edges that no walk takes, each once; and no walk able to grow by a
/// closed walk over edges of `residual`.
pub open spec fn is_cover(
    net: Net,
    direspect: bool,
    w: Weights,
    anchors: Seq<u64>,
    tours: Seq<Seq<usize>>,
    residual: Seq<usize>,
) -> bool {
    &&& tours.len() == anchors.len()
    &&& forall|i: int|
        0 <= i < tours.len() ==> if net.has(anchors[i]) {
            is_tour_from(net, direspect, w, anchors[i], #[trigger] tours[i])
        } else {
            tours[i].len() == 0
        }
    &&& apart(tours)
    &&& residual.no_duplicates()
    &&& forall|e: usize| #[trigger] residual.contains(e) <==> e < net.edges() && !taken(tours, e)
    &&& forall|i: int|
        0 <= i < tours.len() && net.has(anchors[i]) ==> closed_off(
            net,
            direspect,
            only(w, residual),
            net.slot(anchors[i]),
            #[trigger] tours[i],
        )
}

/// In a cover that leaves no edge over, every edge of the graph is taken
/// by one walk, once.
pub proof fn lemma_cover_complete(
    net: Net,
    direspect: bool,
    w: Weights,
    anchors: Seq<u64>,
    tours: Seq<Seq<usize>>,
    residual: Seq<usize>,
    e: usize,
)
    requires
        is_cover(net, direspect, w, anchors, tours, residual),
        residual.len() == 0,
        e < net.edges(),
    ensures
        exists|i: int, a: int|
            0 <= i < tours.len() && 0 <= a < tours[i].len() && #[trigger] tours[i][a] == e,
        forall|i: int, a: int, j: int, b: int|
            0 <= i < tours.len() && 0 <= a < tours[i].len() && 0 <= j < tours.len() && 0 <= b
                < tours[j].len() && #[trigger] tours[i][a] == e && #[trigger] tours[j][b] == e ==> i
                == j && a == b,
{
    assert(!residual.contains(e));
    assert(taken(tours, e));
    let i = choose|i: int| 0 <= i < tours.len() && (#[trigger] tours[i]).contains(e);
    let a = choose|a: int| 0 <= a < tours[i].len() && tours[i][a] == e;
    assert(tours[i][a] == e);
}

/// A closed walk over what the weights allow once more edges are
/// forbidden is a closed walk over what they allowed before.
pub proof fn lemma_circuit_without(
    net: Net,
    direspect: bool,
    w: Weights,
    seg: Seq<usize>,
    v: int,
    q: Seq<usize>,
)
    requires
        w.len() == net.edges(),
        is_circuit(net, direspect, without(w, seg), v, q),
    ensures
        is_circuit(net, direspect, w, v, q),
{
    lemma_walk_without(net, direspect, w, seg, q, v);
}

/// Two walks that take no edge twice and share no edge, one let into the
/// other, take no edge twice.
pub proof fn lemma_splice_apart(p: Seq<usize>, y: int, c: Seq<usize>)
    requires
        0 <= y <= p.len(),
        p.no_duplicates(),
        c.no_duplicates(),
        forall|a: int, b: int| 0 <= a < p.len() && 0 <= b < c.len() ==> p[a] != c[b],
    ensures
        (p.take(y) + c + p.skip(y)).no_duplicates(),
{
    let j = p.take(y) + c + p.skip(y);
    assert forall|a: int, b: int| 0 <= a < j.len() && 0 <= b < j.len() && a != b implies j[a]
        != j[b] by {
        let pa = if a < y {
            a
        } else {
            a - c.len()
        };
        let pb = if b < y {
            b
        } else {
            b - c.len()
        };
        if y <= a < y + c.len() {
            assert(j[a] == c[a - y]);
            if y <= b < y + c.len() {
                assert(j[b] == c[b - y]);
            } else {
                assert(j[b] == p[pb]);
            }
        } else {
            assert(j[a] == p[pa]);
            if y <= b < y + c.len() {
                assert(j[b] == c[b - y]);
            } else {
                assert(j[b] == p[pb]);
            }
        }
    }
}

impl<N, E: Edge> Graph<N, E> {
    /// Whether an edge that `masked` allows can be left from slot `x`.
    fn has_exit(&self, direspect: bool, x: usize, masked: &Vec<Option<u64>>) -> (r: bool)
        requires
            self.wf(),
            x < self@.nodes(),
            masked.len() == self@.edges(),
        ensures
            r == self@.has_way_out(direspect, masked@, x as int),
            !r ==> forall|q: Seq<usize>| !#[trigger] is_circuit(self@, direspect, masked@, x as int, q),
    {
        let ghost net = self@;
        let deg = self.incidence[x].len();
        let mut k: usize = 0;
        while k < deg
            invariant
                self.wf(),
                net == self@,
                x < net.nodes(),
                masked.len() == net.edges(),
                deg == net.inc[x as int].len(),
                k <= deg,
                forall|j: int|
                    0 <= j < k ==> !(net.legal(direspect, #[trigger] net.inc[x as int][j] as int, x as int)
                        && masked[net.inc[x as int][j] as int] is Some),
            decreases deg - k,
        {
            let e = self.incidence[x][k];
            assert(net.inc[x as int][k as int] == e);
            assert(e < net.edges() && net.touches(e as int, x as int));
            let (t, _) = self.ends[e];
            if masked[e].is_some() && (!direspect || t == x || !self.edges[e].directed()) {
                return true;
            }
            k = k + 1;
        }
        proof {
            assert forall|q: Seq<usize>| !#[trigger] is_circuit(net, direspect, masked@, x as int, q) by {
                if is_circuit(net, direspect, masked@, x as int, q) {
                    lemma_walk_first(net, direspect, masked@, q, x as int);
                    assert(net.inc[x as int].contains(q[0]));
                    let j = choose|j: int| 0 <= j < net.inc[x as int].len() && net.inc[x as int][j] == q[0];
                    assert(net.legal(direspect, net.inc[x as int][j] as int, x as int));
                }
            }
        }
        false
    }

    /// A cheapest closed walk over the edges that `masked` allows from the
    /// first node of `nodes` that has one, with the position of that node.
    fn extend(&self, direspect: bool, nodes: &Vec<usize>, masked: &Vec<Option<u64>>) -> (r: Option<
        (Vec<usize>, usize),
    >)
        requires
            self.wf(),
            masked.len() == self@.edges(),
            forall|i: int| 0 <= i < nodes.len() ==> (#[trigger] nodes[i]) < self@.nodes(),
        ensures
            match r {
                Some((seg, y)) => y < nodes.len() && is_circuit(
                    self@,
                    direspect,
                    masked@,
                    nodes[y as int] as int,
                    seg@,
                ) && is_extension(self@, direspect, masked@, nodes@, seg@, y as int),
                None => forall|y: int, q: Seq<usize>|
                    0 <= y < nodes.len() ==> !#[trigger] is_circuit(
                        self@,
                        direspect,
                        masked@,
                        nodes[y] as int,
                        q,
                    ),
            },
    {
        let mut i: usize = 0;
        while i < nodes.len()
            invariant
                self.wf(),
                masked.len() == self@.edges(),
                forall|j: int| 0 <= j < nodes.len() ==> (#[trigger] nodes[j]) < self@.nodes(),
                i <= nodes.len(),
                forall|y: int, q: Seq<usize>|
                    0 <= y < i ==> !#[trigger] is_circuit(
                        self@,
                        direspect,
                        masked@,
                        nodes[y] as int,
                        q,
                    ),
            decreases nodes.len() - i,
        {
            let x = nodes[i];
            if self.has_exit(direspect, x, masked) {
                match self.circuit_at(direspect, x, masked) {
                    Some(seg) => {
                        assert(is_extension(self@, direspect, masked@, nodes@, seg@, i as int));
                        return Some((seg, i));
                    },
                    None => {},
                }
            }
            i = i + 1;
        }
        None
    }
}

/// Letting a closed walk over spare edges into one of the walks keeps the
/// walks apart and a closed walk from its anchor, and spares what was
/// spare but for the edges let in.
pub proof fn lemma_cover_step(
    net: Net,
    direspect: bool,
    w: Weights,
    tours: Seq<Seq<usize>>,
    i: int,
    s: int,
    y: int,
    seg: Seq<usize>,
)
    requires
        net.wf(),
        w.len() == net.edges(),
        0 <= i < tours.len(),
        0 <= y <= tours[i].len(),
        apart(tours),
        is_tour(net, direspect, w, s, tours[i]),
        is_circuit(net, direspect, spare(w, tours), walk_end(net, tours[i].take(y), s), seg),
    ensures
        ({
            let joined = tours[i].take(y) + seg + tours[i].skip(y);
            let after = tours.update(i, joined);
            &&& is_tour(net, direspect, w, s, joined)
            &&& apart(after)
            &&& spare(w, after) == without(spare(w, tours), seg)
        }),
{
    let old = tours[i];
    let joined = old.take(y) + seg + old.skip(y);
    let after = tours.update(i, joined);
    let left = spare(w, tours);
    let x = walk_end(net, old.take(y), s);
    lemma_walk_edges(net, direspect, left, seg, x);
    assert forall|k: int| 0 <= k < seg.len() implies w[#[trigger] seg[k] as int] == left[seg[k] as int]
        && !taken(tours, seg[k]) by {
        assert(left[seg[k] as int] is Some);
    }
    lemma_walk_reweigh(net, direspect, left, w, seg, x);
    lemma_splice(net, direspect, w, old, y, seg, s);
    assert forall|a: int, b: int| 0 <= a < old.len() && 0 <= b < seg.len() implies old[a]
        != seg[b] by {
        assert(!taken(tours, seg[b]));
        if old[a] == seg[b] {
            assert(tours[i].contains(seg[b]));
        }
    }
    lemma_splice_apart(old, y, seg);
    assert forall|e: usize| joined.contains(e) <==> old.contains(e) || seg.contains(e) by {
        if joined.contains(e) {
            let k = choose|k: int| 0 <= k < joined.len() && joined[k] == e;
            if k < y {
                assert(old[k] == e);
            } else if k < y + seg.len() {
                assert(seg[k - y] == e);
            } else {
                assert(old[k - seg.len()] == e);
            }
        }
        if old.contains(e) {
            let k = choose|k: int| 0 <= k < old.len() && old[k] == e;
            if k < y {
                assert(joined[k] == e);
            } else {
                assert(joined[k + seg.len()] == e);
            }
        }
        if seg.contains(e) {
            let k = choose|k: int| 0 <= k < seg.len() && seg[k] == e;
            assert(joined[y + k] == e);
        }
    }
    assert(apart(after)) by {
        assert forall|j: int| 0 <= j < after.len() implies (#[trigger] after[j]).no_duplicates() by {
            if j != i {
                assert(after[j] == tours[j]);
            }
        }
        assert forall|j: int, k: int, a: int, b: int|
            0 <= j < after.len() && 0 <= k < after.len() && j != k && 0 <= a < after[j].len() && 0
                <= b < after[k].len() implies #[trigger] after[j][a] != #[trigger] after[k][b] by {
            if j == i {
                assert(after[k] == tours[k]);
                if after[j][a] == after[k][b] {
                    let e = after[j][a];
                    assert(joined.contains(e));
                    assert(tours[k].contains(e));
                    if old.contains(e) {
                        let c = choose|c: int| 0 <= c < old.len() && old[c] == e;
                        assert(tours[i][c] != tours[k][b]);
                    } else {
                        let c = choose|c: int| 0 <= c < seg.len() && seg[c] == e;
                        assert(!taken(tours, seg[c]));
                    }
                }
            } else if k == i {
                assert(after[j] == tours[j]);
                if after[j][a] == after[k][b] {
                    let e = after[k][b];
                    assert(joined.contains(e));
                    assert(tours[j].contains(e));
                    if old.contains(e) {
                        let c = choose|c: int| 0 <= c < old.len() && old[c] == e;
                        assert(tours[i][c] != tours[j][a]);
                    } else {
                        let c = choose|c: int| 0 <= c < seg.len() && seg[c] == e;
                        assert(!taken(tours, seg[c]));
                    }
                }
            } else {
                assert(after[j] == tours[j] && after[k] == tours[k]);
                assert(tours[j][a] != tours[k][b]);
            }
        }
    }
    assert forall|e: int| 0 <= e < w.len() implies #[trigger] spare(w, after)[e] == without(left, seg)[e] by {
        let x = e as usize;
        if taken(after, x) {
            let j = choose|j: int| 0 <= j < after.len() && (#[trigger] after[j]).contains(x);
            if j == i {
                if old.contains(x) {
                    assert(tours[i].contains(x));
                }
            } else {
                assert(tours[j].contains(x));
            }
        } else {
            if taken(tours, x) {
                let j = choose|j: int| 0 <= j < tours.len() && (#[trigger] tours[j]).contains(x);
                if j == i {
                    assert(after[i].contains(x));
                } else {
                    assert(after[j].contains(x));
                }
            }
            if seg.contains(x) {
                assert(after[i].contains(x));
            }
        }
    }
    assert(spare(w, after) =~= without(left, seg));
}

impl<N, E: Edge> Graph<N, E> {
    /// Covers the edges that `weight` allows by closed walks, one from each
    /// anchor, and lists the edges that no walk takes.
    ///
    /// The walks start empty. Turn by turn, the first of the walks of the
    /// least cost that may still grow has a cheapest closed walk let in,
    /// over edges that no walk has taken, at its first node that has one;
    /// a walk without such a node may grow no more.
    #[verifier::rlimit(40)]
    pub fn cycle_cover<const DIRESPECT: bool>(&self, anchors: &Vec<u64>, weight: &Vec<Option<u64>>) -> (r:
        Cover)
        requires
            self.wf(),
            weight.len() == self@.edges(),
        ensures
            is_cover(self@, DIRESPECT, weight@, anchors@, views(r.tours@), r.residual@),
            is_covered(self@, DIRESPECT, weight@, anchors@, views(r.tours@)),
    {
        let ghost net = self@;
        let ghost w = weight@;
        let count = anchors.len();
        let m = self.edges.len();
        let mut tours: Vec<Vec<usize>> = Vec::new();
        let mut totals: Vec<u128> = Vec::new();
        let mut complete: Vec<bool> = Vec::new();
        let mut slots: Vec<Option<usize>> = Vec::new();
        let mut i: usize = 0;
        while i < count
            invariant
                self.wf(),
                net == self@,
                count == anchors.len(),
                i <= count,
                tours.len() == i,
                totals.len() == i,
                complete.len() == i,
                slots.len() == i,
                forall|j: int| 0 <= j < i ==> (#[trigger] tours[j])@.len() == 0,
                forall|j: int| 0 <= j < i ==> #[trigger] totals[j] == 0,
                forall|j: int| 0 <= j < i ==> #[trigger] complete[j] == (slots[j] is None),
                forall|j: int|
                    0 <= j < i ==> match #[trigger] slots[j] {
                        Some(s) => s < net.nodes() && net.has(anchors[j]) && s == net.slot(
                            anchors[j],
                        ),
                        None => !net.has(anchors[j]) && complete[j],
                    },
            decreases count - i,
        {
            let s = self.slot_of(anchors[i]);
            tours.push(Vec::new());
            totals.push(0);
            complete.push(s.is_none());
            slots.push(s);
            i = i + 1;
        }
        let mut masked = weight.clone();
        proof {
            assert forall|x: usize| !#[trigger] taken(views(tours@), x) by {
                if taken(views(tours@), x) {
                    let j = choose|j: int|
                        0 <= j < views(tours@).len() && (#[trigger] views(tours@)[j]).contains(x);
                    assert(tours[j]@.len() == 0);
                }
            }
            assert(masked@ =~= spare(w, views(tours@)));
            lemma_count_true_bound(complete@);
            assert forall|j: int| 0 <= j < count implies #[trigger] totals[j] == walk_weight(
                w,
                tours[j]@,
            ) by {
                assert(tours[j]@.len() == 0);
            }
        }
        let ghost trail: Seq<Covering> = seq![Covering { tours: views(tours@), complete: complete@ }];
        proof {
            assert(is_cover_start(net, anchors@, trail[0])) by {
                assert forall|j: int| 0 <= j < count implies (#[trigger] trail[0].tours[j]).len() == 0
                    && trail[0].complete[j] == !net.has(anchors@[j]) by {
                    assert(tours[j]@.len() == 0);
                    assert(complete[j] == (slots[j] is None));
                }
            }
        }
        let mut going = true;
        while going
            invariant
                is_cover_trail(net, DIRESPECT, w, anchors@, trail),
                is_cover_start(net, anchors@, trail[0]),
                trail.last() == (Covering { tours: views(tours@), complete: complete@ }),
                forall|j: int| 0 <= j < count ==> #[trigger] totals[j] == walk_weight(w, tours[j]@),
                self.wf(),
                net == self@,
                w == weight@,
                m == net.edges(),
                weight.len() == m,
                masked.len() == m,
                count == anchors.len(),
                tours.len() == count,
                totals.len() == count,
                complete.len() == count,
                slots.len() == count,
                count_true(complete@) <= count,
                forall|j: int|
                    0 <= j < count ==> match #[trigger] slots[j] {
                        Some(s) => s < net.nodes() && net.has(anchors[j]) && s == net.slot(
                            anchors[j],
                        ) && is_tour(net, DIRESPECT, w, s as int, tours[j]@),
                        None => !net.has(anchors[j]) && complete[j] && tours[j]@.len() == 0,
                    },
                apart(views(tours@)),
                masked@ == spare(w, views(tours@)),
                forall|j: int|
                    0 <= j < count && #[trigger] complete[j] && slots[j] is Some ==> closed_off(
                        net,
                        DIRESPECT,
                        masked@,
                        slots[j]->0 as int,
                        tours[j]@,
                    ),
                !going ==> (forall|e: int| 0 <= e < m ==> (#[trigger] masked[e]) is None) || (forall|
                    j: int,
                | 0 <= j < count ==> #[trigger] complete[j]),
            decreases count_allowed(masked@) + count - count_true(complete@) + if going { 1int } else { 0int },
        {
            let next = if any_allowed(&masked) {
                pick(&complete, &totals)
            } else {
                None
            };
            match next {
                None => {
                    going = false;
                },
                Some(i) => {
                    match slots[i] {
                        None => {
                            going = false;
                        },
                        Some(s) => {
                            proof {
                                lemma_walk_edges(net, DIRESPECT, w, tours[i as int]@, s as int);
                            }
                            let nodes = self.slots_along(&tours[i], s);
                            proof {
                                assert forall|y: int| 0 <= y < nodes.len() implies (#[trigger] nodes[y])
                                    < net.nodes() by {
                                    lemma_walk_split(net, DIRESPECT, w, tours[i as int]@, y, s as int);
                                    lemma_walk_end_is_slot(
                                        net,
                                        DIRESPECT,
                                        w,
                                        tours[i as int]@.take(y),
                                        s as int,
                                    );
                                }
                            }
                            let ghost stage = trail.last();
                            proof {
                                assert(nodes@ =~= crate::pwrp::stands(net, tours[i as int]@, s as int));
                                assert(stage.tours[i as int] == tours[i as int]@);
                                assert(is_turn(w, stage, i as int)) by {
                                    assert forall|j: int|
                                        0 <= j < count implies #[trigger] stage.tours[j] == tours[j]@ by {}
                                }
                            }
                            match self.extend(DIRESPECT, &nodes, &masked) {
                                Some((seg, y)) => {
                                    let ghost was = views(tours@);
                                    let ghost left = masked@;
                                    proof {
                                        assert(was[i as int] == tours[i as int]@);
                                        lemma_cover_step(
                                            net,
                                            DIRESPECT,
                                            w,
                                            was,
                                            i as int,
                                            s as int,
                                            y as int,
                                            seg@,
                                        );
                                        lemma_walk_edges(
                                            net,
                                            DIRESPECT,
                                            left,
                                            seg@,
                                            nodes[y as int] as int,
                                        );
                                    }
                                    forbid(&mut masked, &seg);
                                    let old = tours[i].clone();
                                    assert(old@ == tours[i as int]@);
                                    let ghost cut = seg@;
                                    let joined = splice(old, y, seg);
                                    proof {
                                        lemma_walk_edges(net, DIRESPECT, w, joined@, s as int);
                                    }
                                    totals[i] = total_weight(weight, &joined);
                                    tours[i] = joined;
                                    proof {
                                        let now = views(tours@);
                                        assert(now =~= was.update(i as int, tours[i as int]@));
                                        let next = Covering { tours: now, complete: complete@ };
                                        assert(is_grown_at(
                                            net,
                                            DIRESPECT,
                                            w,
                                            anchors@,
                                            stage,
                                            next,
                                            i as int,
                                            cut,
                                            y as int,
                                        ));
                                        assert(is_cover_move(net, DIRESPECT, w, anchors@, stage, next));
                                        lemma_cover_trail_more(net, DIRESPECT, w, anchors@, trail, next);
                                        trail = trail.push(next);
                                        assert forall|j: int|
                                            0 <= j < count && #[trigger] complete[j]
                                                && slots[j] is Some implies closed_off(
                                            net,
                                            DIRESPECT,
                                            masked@,
                                            slots[j]->0 as int,
                                            tours[j]@,
                                        ) by {
                                            assert(j != i);
                                            assert(tours[j]@ == was[j]);
                                            assert(closed_off(
                                                net,
                                                DIRESPECT,
                                                left,
                                                slots[j]->0 as int,
                                                was[j],
                                            ));
                                            assert forall|z: int, q: Seq<usize>|
                                                0 <= z <= was[j].len() implies !#[trigger] is_circuit(
                                                net,
                                                DIRESPECT,
                                                masked@,
                                                walk_end(net, was[j].take(z), slots[j]->0 as int),
                                                q,
                                            ) by {
                                                let v = walk_end(
                                                    net,
                                                    was[j].take(z),
                                                    slots[j]->0 as int,
                                                );
                                                if is_circuit(net, DIRESPECT, masked@, v, q) {
                                                    lemma_circuit_without(
                                                        net,
                                                        DIRESPECT,
                                                        left,
                                                        cut,
                                                        v,
                                                        q,
                                                    );
                                                    assert(is_circuit(net, DIRESPECT, left, v, q));
                                                }
                                            }
                                        }
                                    }
                                },
                                None => {
                                    proof {
                                        lemma_count_true_set(complete@, i as int);
                                        lemma_count_true_bound(complete@.update(i as int, true));
                                        assert forall|z: int, q: Seq<usize>|
                                            0 <= z <= tours[i as int]@.len() implies !#[trigger] is_circuit(
                                            net,
                                            DIRESPECT,
                                            masked@,
                                            walk_end(net, tours[i as int]@.take(z), s as int),
                                            q,
                                        ) by {
                                            assert(nodes[z] == walk_end(
                                                net,
                                                tours[i as int]@.take(z),
                                                s as int,
                                            ));
                                        }
                                    }
                                    complete[i] = true;
                                    proof {
                                        let next = Covering {
                                            tours: views(tours@),
                                            complete: complete@,
                                        };
                                        assert(is_closed_at(
                                            net,
                                            DIRESPECT,
                                            w,
                                            anchors@,
                                            stage,
                                            next,
                                            i as int,
                                        ));
                                        assert(is_cover_move(net, DIRESPECT, w, anchors@, stage, next));
                                        lemma_cover_trail_more(net, DIRESPECT, w, anchors@, trail, next);
                                        trail = trail.push(next);
                                    }
                                },
                            }
                        },
                    }
                },
            }
        }
        let mut residual: Vec<usize> = Vec::new();
        let mut e: usize = 0;
        while e < m
            invariant
                e <= m,
                m == masked.len(),
                m == weight.len(),
                forall|x: usize| #[trigger]
                    residual@.contains(x) <==> x < e && (masked[x as int] is Some
                        || weight[x as int] is None),
                residual@.no_duplicates(),
            decreases m - e,
        {
            if masked[e].is_some() || weight[e].is_none() {
                let ghost before = residual@;
                residual.push(e);
                proof {
                    assert forall|x: usize| #[trigger]
                        residual@.contains(x) <==> x < e + 1 && (masked[x as int] is Some
                            || weight[x as int] is None) by {
                        if residual@.contains(x) {
                            let k = choose|k: int| 0 <= k < residual@.len() && residual@[k] == x;
                            if k < before.len() {
                                assert(before[k] == x);
                                assert(before.contains(x));
                            }
                        }
                        if x < e + 1 && (masked[x as int] is Some || weight[x as int] is None) {
                            if x < e {
                                assert(before.contains(x));
                                let k = choose|k: int| 0 <= k < before.len() && before[k] == x;
                                assert(residual@[k] == x);
                            } else {
                                assert(residual@[before.len() as int] == x);
                            }
                        }
                    }
                    assert forall|a: int, b: int|
                        0 <= a < residual@.len() && 0 <= b < residual@.len() && a != b implies residual@[a]
                        != residual@[b] by {
                        if a < before.len() && b < before.len() {
                        } else if a < before.len() {
                            assert(before.contains(before[a]));
                        } else {
                            assert(before.contains(before[b]));
                        }
                    }
                }
            }
            e = e + 1;
        }
        proof {
            let t = views(tours@);
            assert forall|j: int| 0 <= j < t.len() implies if net.has(anchors@[j]) {
                is_tour_from(net, DIRESPECT, w, anchors@[j], #[trigger] t[j])
            } else {
                t[j].len() == 0
            } by {
                assert(slots[j] is Some || slots[j] is None);
            }
            assert forall|x: usize| #[trigger] residual@.contains(x) <==> x < net.edges() && !taken(t, x) by {
                if x < m {
                    if taken(t, x) {
                        let j = choose|j: int| 0 <= j < t.len() && (#[trigger] t[j]).contains(x);
                        assert(slots[j] is Some || slots[j] is None);
                        let k = choose|k: int| 0 <= k < t[j].len() && t[j][k] == x;
                        lemma_walk_edges(net, DIRESPECT, w, t[j], slots[j]->0 as int);
                        assert(w[t[j][k] as int] is Some);
                    }
                }
            }
            assert(only(w, residual@) =~= masked@);
            assert(is_cover_end(w, trail.last()));
            assert(is_cover_run(net, DIRESPECT, w, anchors@, trail, t));
            assert forall|j: int| 0 <= j < t.len() && net.has(anchors@[j]) implies closed_off(
                net,
                DIRESPECT,
                only(w, residual@),
                net.slot(anchors@[j]),
                #[trigger] t[j],
            ) by {
                assert(slots[j] is Some);
                if !complete[j] {
                    assert forall|z: int, q: Seq<usize>|
                        0 <= z <= t[j].len() implies !#[trigger] is_circuit(
                        net,
                        DIRESPECT,
                        masked@,
                        walk_end(net, t[j].take(z), slots[j]->0 as int),
                        q,
                    ) by {
                        let v = walk_end(net, t[j].take(z), slots[j]->0 as int);
                        if is_circuit(net, DIRESPECT, masked@, v, q) {
                            lemma_walk_edges(net, DIRESPECT, masked@, q, v);
                            assert(masked[q[0] as int] is Some);
                        }
                    }
                }
            }
        }
        Cover { tours, residual }
    }
}

/// The first walk that can still grow among those of the least cost.
fn pick(complete: &Vec<bool>, totals: &Vec<u128>) -> (r: Option<usize>)
    requires
        complete.len() == totals.len(),
    ensures
        match r {
            Some(i) => {
                &&& i < complete.len()
                &&& !complete[i as int]
                &&& forall|j: int|
                    0 <= j < complete.len() && !#[trigger] complete[j] ==> totals[i as int]
                        <= totals[j]
                &&& forall|j: int|
                    0 <= j < i && !#[trigger] complete[j] ==> totals[i as int] < totals[j]
            },
            None => forall|j: int| 0 <= j < complete.len() ==> #[trigger] complete[j],
        },
{
    let mut best: Option<usize> = None;
    let mut i: usize = 0;
    while i < complete.len()
        invariant
            complete.len() == totals.len(),
            i <= complete.len(),
            match best {
                Some(b) => {
                    &&& b < i
                    &&& !complete[b as int]
                    &&& forall|j: int|
                        0 <= j < i && !#[trigger] complete[j] ==> totals[b as int] <= totals[j]
                    &&& forall|j: int|
                        0 <= j < b && !#[trigger] complete[j] ==> totals[b as int] < totals[j]
                },
                None => forall|j: int| 0 <= j < i ==> #[trigger] complete[j],
            },
        decreases complete.len() - i,
    {
        if !complete[i] {
            let better = match best {
                Some(b) => totals[i] < totals[b],
                None => true,
            };
            if better {
                best = Some(i);
            }
        }
        i = i + 1;
    }
    best
}

/// Whether the weights allow any edge.
fn any_allowed(masked: &Vec<Option<u64>>) -> (r: bool)
    ensures
        r == exists|e: int| 0 <= e < masked.len() && (#[trigger] masked[e]) is Some,
{
    let mut e: usize = 0;
    while e < masked.len()
        invariant
            e <= masked.len(),
            forall|x: int| 0 <= x < e ==> (#[trigger] masked[x]) is None,
        decreases masked.len() - e,
    {
        if masked[e].is_some() {
            return true;
        }
        e = e + 1;
    }
    false
}

/// How far the covering has come: the walks as they stand, and for each
/// whether it has been found unable to grow.
pub struct Covering {
    pub tours: Seq<Seq<usize>>,
    pub complete: Seq<bool>,
}

/// Whether the covering sets out from `start`: every walk is empty, and
/// those whose anchor is no node count as unable to grow.
pub open spec fn is_cover_start(net: Net, anchors: Seq<u64>, start: Covering) -> bool {
    &&& start.tours.len() == anchors.len()
    &&& start.complete.len() == anchors.len()
    &&& forall|j: int|
        0 <= j < anchors.len() ==> (#[trigger] start.tours[j]).len() == 0 && start.complete[j]
            == !net.has(anchors[j])
}

/// Whether it is the turn of walk `i`: of the walks that may still grow
/// it is the first of the least cost.
pub open spec fn is_turn(w: Weights, was: Covering, i: int) -> bool {
    &&& 0 <= i < was.tours.len()
    &&& was.complete.len() == was.tours.len()
    &&& !was.complete[i]
    &&& forall|j: int|
        0 <= j < was.tours.len() && !#[trigger] was.complete[j] ==> walk_weight(w, was.tours[i])
            <= walk_weight(w, was.tours[j])
    &&& forall|j: int|
        0 <= j < i && !#[trigger] was.complete[j] ==> walk_weight(w, was.tours[i]) < walk_weight(
            w,
            was.tours[j],
        )
}

/// Whether `seg` is a cheapest closed walk, over the edges that `masked`
/// allows, at the first node of `nodes` that has one, which stands at
/// place `y`.
pub open spec fn is_extension(
    net: Net,
    direspect: bool,
    masked: Weights,
    nodes: Seq<usize>,
    seg: Seq<usize>,
    y: int,
) -> bool {
    &&& 0 <= y < nodes.len()
    &&& is_circuit(net, direspect, masked, nodes[y] as int, seg)
    &&& forall|q: Seq<usize>| #[trigger]
        is_circuit(net, direspect, masked, nodes[y] as int, q) ==> walk_weight(masked, seg)
            <= walk_weight(masked, q)
    &&& forall|j: int, q: Seq<usize>|
        0 <= j < y ==> !#[trigger] is_circuit(net, direspect, masked, nodes[j] as int, q)
}

/// Whether the covering `now` is the covering `was` with the closed walk
/// `seg` let into walk `i`, whose turn it is, before place `y`.
pub open spec fn is_grown_at(
    net: Net,
    direspect: bool,
    w: Weights,
    anchors: Seq<u64>,
    was: Covering,
    now: Covering,
    i: int,
    seg: Seq<usize>,
    y: int,
) -> bool {
    let tour = was.tours[i];
    &&& is_turn(w, was, i)
    &&& net.has(anchors[i])
    &&& is_extension(
        net,
        direspect,
        spare(w, was.tours),
        crate::pwrp::stands(net, tour, net.slot(anchors[i])),
        seg,
        y,
    )
    &&& now.tours == was.tours.update(i, tour.take(y) + seg + tour.skip(y))
    &&& now.complete == was.complete
}

/// Whether the covering `now` is the covering `was` with walk `i`, whose
/// turn it is, found unable to grow: none of its nodes has a closed walk
/// over the edges that no walk has taken.
pub open spec fn is_closed_at(
    net: Net,
    direspect: bool,
    w: Weights,
    anchors: Seq<u64>,
    was: Covering,
    now: Covering,
    i: int,
) -> bool {
    &&& is_turn(w, was, i)
    &&& net.has(anchors[i])
    &&& closed_off(net, direspect, spare(w, was.tours), net.slot(anchors[i]), was.tours[i])
    &&& now.tours == was.tours
    &&& now.complete == was.complete.update(i, true)
}

/// Whether the covering `now` is the next after the covering `was`: some
/// edge is still allowed and taken by no walk, and the walk whose turn it
/// is has a cheapest closed walk let in at its first node that has one,
/// or is found unable to grow.
pub open spec fn is_cover_move(
    net: Net,
    direspect: bool,
    w: Weights,
    anchors: Seq<u64>,
    was: Covering,
    now: Covering,
) -> bool {
    &&& !is_spent(spare(w, was.tours))
    &&& {
        ||| exists|i: int, seg: Seq<usize>, y: int| #[trigger]
            is_grown_at(net, direspect, w, anchors, was, now, i, seg, y)
        ||| exists|i: int| #[trigger] is_closed_at(net, direspect, w, anchors, was, now, i)
    }
}

/// Whether the weights allow no edge.
pub open spec fn is_spent(masked: Weights) -> bool {
    forall|e: int| 0 <= e < masked.len() ==> (#[trigger] masked[e]) is None
}

/// Whether the covering at place `k + 1` of `trail` is the next after
/// the covering at place `k`.
pub open spec fn is_cover_hop(
    net: Net,
    direspect: bool,
    w: Weights,
    anchors: Seq<u64>,
    trail: Seq<Covering>,
    k: int,
) -> bool {
    is_cover_move(net, direspect, w, anchors, trail[k], trail[k + 1])
}

/// Whether `trail` holds the coverings of the work in turn.
pub open spec fn is_cover_trail(
    net: Net,
    direspect: bool,
    w: Weights,
    anchors: Seq<u64>,
    trail: Seq<Covering>,
) -> bool {
    &&& trail.len() > 0
    &&& forall|k: int|
        0 <= k < trail.len() - 1 ==> #[trigger] is_cover_hop(net, direspect, w, anchors, trail, k)
}

/// A trail with the covering next after its last is a trail.
pub proof fn lemma_cover_trail_more(
    net: Net,
    direspect: bool,
    w: Weights,
    anchors: Seq<u64>,
    trail: Seq<Covering>,
    next: Covering,
)
    requires
        is_cover_trail(net, direspect, w, anchors, trail),
        is_cover_move(net, direspect, w, anchors, trail.last(), next),
    ensures
        is_cover_trail(net, direspect, w, anchors, trail.push(next)),
{
    let more = trail.push(next);
    assert forall|k: int| 0 <= k < more.len() - 1 implies #[trigger] is_cover_hop(
        net,
        direspect,
        w,
        anchors,
        more,
        k,
    ) by {
        if k < trail.len() - 1 {
            assert(is_cover_hop(net, direspect, w, anchors, trail, k));
            assert(more[k] == trail[k]);
            assert(more[k + 1] == trail[k + 1]);
        } else {
            assert(more[k] == trail.last());
            assert(more[k + 1] == next);
        }
    }
}

/// Whether the work ends at the covering `last`: no edge is left that is
/// allowed and taken by no walk, or no walk may still grow.
pub open spec fn is_cover_end(w: Weights, last: Covering) -> bool {
    is_spent(spare(w, last.tours)) || forall|j: int|
        0 <= j < last.complete.len() ==> #[trigger] last.complete[j]
}

/// Whether `trail` holds the coverings of the work from its start to its
/// end, at which the walks are `tours`.
pub open spec fn is_cover_run(
    net: Net,
    direspect: bool,
    w: Weights,
    anchors: Seq<u64>,
    trail: Seq<Covering>,
    tours: Seq<Seq<usize>>,
) -> bool {
    &&& is_cover_trail(net, direspect, w, anchors, trail)
    &&& is_cover_start(net, anchors, trail[0])
    &&& is_cover_end(w, trail.last())
    &&& trail.last().tours == tours
}

/// Whether the walks `tours` are what the covering comes to: from empty
/// walks, turn by turn, the walk of the least cost that may still grow,
/// the first of these, has a cheapest closed walk let in at its first
/// node that has one over the edges that no walk has taken, or is found
/// unable to grow; until no such edge or no such walk is left.
pub open spec fn is_covered(
    net: Net,
    direspect: bool,
    w: Weights,
    anchors: Seq<u64>,
    tours: Seq<Seq<usize>>,
) -> bool {
    exists|trail: Seq<Covering>| #[trigger] is_cover_run(net, direspect, w, anchors, trail, tours)
}

} // verus!
