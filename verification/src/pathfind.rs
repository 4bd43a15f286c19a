//! Shortest walks between nodes and between sets of nodes.

use crate::edge::Edge;
use crate::frontier::{
    lemma_exhausted, lemma_improve, lemma_lower_bound, lemma_settle, lemma_skip, lemma_start,
    reaches, relaxed, relaxed_edge, relaxed_upto, stands_done, Frontier,
};
use crate::graph::Graph;
use crate::net::Net;
use crate::queue::{queue_entries, queue_new, queue_pop, queue_push};
use crate::walk::{
    is_route, is_walk, lemma_walk_end_is_slot, lemma_walk_weight_bounds, walk_end,
    walk_weight, Weights,
};
use std::collections::HashSet;
use vstd::prelude::*;

verus! {

/// Whether `q` is a walk from a node marked in `src` to a node marked in
/// `dst`, starting at slot `a`.
pub open spec fn is_trip(
    net: Net,
    direspect: bool,
    w: Weights,
    src: Seq<bool>,
    dst: Seq<bool>,
    a: int,
    q: Seq<usize>,
) -> bool {
    &&& 0 <= a < net.nodes()
    &&& src[a]
    &&& is_walk(net, direspect, w, q, a)
    &&& dst[walk_end(net, q, a)]
}

/// What the queue holds: the nodes reached that have not left it, each
/// with a priority that is the greater the nearer the node is.
pub open spec fn queued(entries: Map<usize, u128>, f: Frontier) -> bool {
    &&& forall|v: usize| #[trigger]
        entries.contains_key(v) ==> v < f.dist.len() && f.dist[v as int] is Some && !f.done[v as int]
            && entries[v] == u128::MAX - f.dist[v as int]->0
    &&& forall|v: int|
        0 <= v < f.dist.len() && (#[trigger] f.dist[v]) is Some && !f.done[v]
            ==> entries.contains_key(v as usize)
}

impl<N, E: Edge> Graph<N, E> {
    /// For each slot whether `set` holds the node's identifier.
    pub(crate) fn mark(&self, set: &HashSet<u64>) -> (r: Vec<bool>)
        requires
            self.wf(),
        ensures
            r.len() == self@.nodes(),
            forall|s: int| 0 <= s < r.len() ==> #[trigger] r[s] == set@.contains(self@.ids[s]),
    {
        broadcast use vstd::std_specs::hash::group_hash_axioms;

        let n = self.nodes.len();
        let mut r: Vec<bool> = Vec::new();
        let mut s: usize = 0;
        while s < n
            invariant
                self.wf(),
                n == self@.nodes(),
                s <= n,
                r.len() == s,
                forall|t: int| 0 <= t < s ==> #[trigger] r[t] == set@.contains(self@.ids[t]),
            decreases n - s,
        {
            let id = self.id_of(s);
            r.push(set.contains(&id));
            s = s + 1;
        }
        r
    }

    /// A cheapest walk from `n1` to `n2` over the edges that `weight`
    /// allows, or `None` where there is no walk. The walk takes no edge
    /// twice.
    pub fn pathfind<const DIRESPECT: bool>(
        &self,
        n1: u64,
        n2: u64,
        weight: &Vec<Option<u64>>,
    ) -> (r: Option<Vec<usize>>)
        requires
            self.wf(),
            weight.len() == self@.edges(),
        ensures
            match r {
                Some(p) => {
                    &&& is_route(self@, DIRESPECT, weight@, p@, n1, n2)
                    &&& p@.no_duplicates()
                    &&& n1 == n2 ==> p@.len() == 0
                    &&& forall|q: Seq<usize>| #[trigger]
                        is_route(self@, DIRESPECT, weight@, q, n1, n2) ==> walk_weight(weight@, p@)
                            <= walk_weight(weight@, q)
                },
                None => forall|q: Seq<usize>| !#[trigger] is_route(self@, DIRESPECT, weight@, q, n1, n2),
            },
    {
        let a = match self.slot_of(n1) {
            Some(s) => s,
            None => { return None; },
        };
        let b = match self.slot_of(n2) {
            Some(s) => s,
            None => { return None; },
        };
        let n = self.nodes.len();
        let mut src: Vec<bool> = Vec::new();
        let mut dst: Vec<bool> = Vec::new();
        let mut s: usize = 0;
        while s < n
            invariant
                s <= n,
                src.len() == s,
                dst.len() == s,
                forall|t: int| 0 <= t < s ==> #[trigger] src[t] == (t == a),
                forall|t: int| 0 <= t < s ==> #[trigger] dst[t] == (t == b),
            decreases n - s,
        {
            src.push(s == a);
            dst.push(s == b);
            s = s + 1;
        }
        match self.search(DIRESPECT, &src, &dst, weight) {
            Some((_, _, p)) => {
                proof {
                    assert forall|q: Seq<usize>| #[trigger]
                        is_route(self@, DIRESPECT, weight@, q, n1, n2) implies walk_weight(
                        weight@,
                        p@,
                    ) <= walk_weight(weight@, q) by {
                        assert(is_trip(self@, DIRESPECT, weight@, src@, dst@, a as int, q));
                    }
                }
                Some(p)
            },
            None => {
                proof {
                    assert forall|q: Seq<usize>|
                        !#[trigger] is_route(self@, DIRESPECT, weight@, q, n1, n2) by {
                        assert(!is_trip(self@, DIRESPECT, weight@, src@, dst@, a as int, q));
                    }
                }
                None
            },
        }
    }

    /// A cheapest walk from a node of `n1` to a node of `n2` over the edges
    /// that `weight` allows, with the nodes at which it starts and ends;
    /// `None` where no walk leads from the one set to the other, as when
    /// either is empty. The walk takes no edge twice.
    pub fn pathfind_regions<const DIRESPECT: bool>(
        &self,
        n1: &HashSet<u64>,
        n2: &HashSet<u64>,
        weight: &Vec<Option<u64>>,
    ) -> (r: Option<(u64, u64, Vec<usize>)>)
        requires
            self.wf(),
            weight.len() == self@.edges(),
        ensures
            match r {
                Some((a, b, p)) => {
                    &&& n1@.contains(a)
                    &&& n2@.contains(b)
                    &&& is_route(self@, DIRESPECT, weight@, p@, a, b)
                    &&& p@.no_duplicates()
                    &&& n1@.contains(b) ==> p@.len() == 0
                    &&& forall|i: int|
                        0 <= i < p@.len() ==> !n2@.contains(
                            self@.ids[walk_end(self@, #[trigger] p@.take(i), self@.slot(a))],
                        )
                    &&& forall|a2: u64, b2: u64, q: Seq<usize>|
                        n1@.contains(a2) && n2@.contains(b2) && #[trigger] is_route(
                            self@,
                            DIRESPECT,
                            weight@,
                            q,
                            a2,
                            b2,
                        ) ==> walk_weight(weight@, p@) <= walk_weight(weight@, q)
                },
                None => forall|a2: u64, b2: u64, q: Seq<usize>|
                    n1@.contains(a2) && n2@.contains(b2) ==> !#[trigger] is_route(
                        self@,
                        DIRESPECT,
                        weight@,
                        q,
                        a2,
                        b2,
                    ),
            },
    {
        let src = self.mark(n1);
        let dst = self.mark(n2);
        match self.search(DIRESPECT, &src, &dst, weight) {
            Some((a, b, p)) => {
                let ia = self.id_of(a);
                let ib = self.id_of(b);
                proof {
                    assert forall|i: int| 0 <= i < p@.len() implies !n2@.contains(
                        self@.ids[walk_end(self@, #[trigger] p@.take(i), self@.slot(ia))],
                    ) by {
                        crate::walk::lemma_walk_split(self@, DIRESPECT, weight@, p@, i, a as int);
                        lemma_walk_end_is_slot(self@, DIRESPECT, weight@, p@.take(i), a as int);
                        let at = walk_end(self@, p@.take(i), a as int);
                        assert(dst[at] == n2@.contains(self@.ids[at]));
                    }
                    assert forall|a2: u64, b2: u64, q: Seq<usize>|
                        n1@.contains(a2) && n2@.contains(b2) && #[trigger] is_route(
                            self@,
                            DIRESPECT,
                            weight@,
                            q,
                            a2,
                            b2,
                        ) implies walk_weight(weight@, p@) <= walk_weight(weight@, q) by {
                        assert(is_trip(self@, DIRESPECT, weight@, src@, dst@, self@.slot(a2), q));
                    }
                }
                Some((ia, ib, p))
            },
            None => {
                proof {
                    assert forall|a2: u64, b2: u64, q: Seq<usize>|
                        n1@.contains(a2) && n2@.contains(b2) implies !#[trigger] is_route(
                        self@,
                        DIRESPECT,
                        weight@,
                        q,
                        a2,
                        b2,
                    ) by {
                        assert(!is_trip(self@, DIRESPECT, weight@, src@, dst@, self@.slot(a2), q));
                    }
                }
                None
            },
        }
    }

    /// A cheapest walk from a node marked in `src` to a node marked in
    /// `dst`, with the slots at which it starts and ends; `None` where no
    /// walk leads from the one set to the other.
    pub(crate) fn search(
        &self,
        direspect: bool,
        src: &Vec<bool>,
        dst: &Vec<bool>,
        weight: &Vec<Option<u64>>,
    ) -> (r: Option<(usize, usize, Vec<usize>)>)
        requires
            self.wf(),
            src.len() == self@.nodes(),
            dst.len() == self@.nodes(),
            weight.len() == self@.edges(),
        ensures
            match r {
                Some((a, b, p)) => {
                    &&& is_trip(self@, direspect, weight@, src@, dst@, a as int, p@)
                    &&& walk_end(self@, p@, a as int) == b
                    &&& p@.no_duplicates()
                    &&& src@[b as int] ==> p@.len() == 0
                    &&& forall|i: int|
                        0 <= i < p@.len() ==> !dst@[walk_end(self@, #[trigger] p@.take(i), a as int)]
                    &&& forall|a2: int, q: Seq<usize>| #[trigger]
                        is_trip(self@, direspect, weight@, src@, dst@, a2, q) ==> walk_weight(
                            weight@,
                            p@,
                        ) <= walk_weight(weight@, q)
                },
                None => forall|a2: int, q: Seq<usize>|
                    !#[trigger] is_trip(self@, direspect, weight@, src@, dst@, a2, q),
            },
    {
        let n = self.nodes.len();
        let ghost net = self@;
        let ghost w = weight@;
        let mut dist: Vec<Option<u128>> = Vec::new();
        let mut pred: Vec<Option<usize>> = Vec::new();
        let mut done: Vec<bool> = Vec::new();
        let mut queue = queue_new();
        let mut s: usize = 0;
        while s < n
            invariant
                s <= n,
                n == net.nodes(),
                src.len() == n,
                dist.len() == s,
                pred.len() == s,
                done.len() == s,
                forall|v: int|
                    0 <= v < s ==> (#[trigger] dist[v]) == if src[v] {
                        Some(0u128)
                    } else {
                        None
                    },
                forall|v: int| 0 <= v < s ==> (#[trigger] pred[v]) is None,
                forall|v: int| 0 <= v < s ==> !#[trigger] done[v],
                forall|v: usize| #[trigger]
                    queue_entries(queue).contains_key(v) ==> v < s && src[v as int]
                        && queue_entries(queue)[v] == u128::MAX,
                forall|v: int|
                    0 <= v < s && #[trigger] src[v] ==> queue_entries(queue).contains_key(
                        v as usize,
                    ),
            decreases n - s,
        {
            if src[s] {
                dist.push(Some(0u128));
                queue_push(&mut queue, s, u128::MAX);
            } else {
                dist.push(None);
            }
            pred.push(None);
            done.push(false);
            s = s + 1;
        }
        let ghost mut paths: Seq<Seq<usize>> = Seq::new(n as nat, |v: int| Seq::<usize>::empty());
        let ghost mut roots: Seq<int> = Seq::new(n as nat, |v: int| v);
        let ghost mut bound: int = 0;
        let ghost mut popped: nat = 0;
        proof {
            let f = Frontier { dist: dist@, pred: pred@, done: done@, paths, roots, bound, popped };
            lemma_start(net, direspect, w, src@, dst@, f);
            assert(queued(queue_entries(queue), f));
        }
        loop
            invariant
                self.wf(),
                net == self@,
                w == weight@,
                n == net.nodes(),
                src.len() == n,
                dst.len() == n,
                weight.len() == net.edges(),
                dist.len() == n,
                pred.len() == n,
                done.len() == n,
                (Frontier { dist: dist@, pred: pred@, done: done@, paths, roots, bound, popped }).inv(
                    net,
                    direspect,
                    w,
                    src@,
                    dst@,
                    -1,
                ),
                queued(
                    queue_entries(queue),
                    (Frontier { dist: dist@, pred: pred@, done: done@, paths, roots, bound, popped }),
                ),
            decreases n - popped,
        {
            let ghost f = Frontier { dist: dist@, pred: pred@, done: done@, paths, roots, bound, popped };
            let ghost entries = queue_entries(queue);
            let u = match queue_pop(&mut queue) {
                None => {
                    proof {
                        assert forall|v: int|
                            0 <= v < net.nodes() && (#[trigger] f.dist[v]) is Some implies f.done[v] by {
                            if !f.done[v] {
                                assert(entries.contains_key(v as usize));
                                assert(entries.dom().contains(v as usize));
                            }
                        }
                        assert forall|a2: int, q: Seq<usize>|
                            !#[trigger] is_trip(net, direspect, w, src@, dst@, a2, q) by {
                            if is_trip(net, direspect, w, src@, dst@, a2, q) {
                                lemma_exhausted(net, direspect, w, src@, f, a2, q);
                            }
                        }
                    }
                    return None;
                },
                Some((u, _)) => u,
            };
            assert(entries.contains_key(u));
            let du = match dist[u] {
                Some(d) => d,
                None => 0,
            };
            proof {
                assert forall|v: int|
                    0 <= v < net.nodes() && !f.done[v] && (#[trigger] f.dist[v]) is Some implies f.dist[v]->0
                    >= du by {
                    assert(entries.contains_key(v as usize));
                    assert(entries[v as usize] <= entries[u]);
                }
            }
            if dst[u] {
                proof {
                    let h = Frontier { bound: du as int, ..f };
                    assert(h.ordered()) by {
                        assert forall|v: int| 0 <= v < h.done.len() implies if #[trigger] h.done[v] {
                            h.dist[v] is Some && h.dist[v]->0 <= h.bound
                        } else {
                            h.dist[v] is Some ==> h.dist[v]->0 >= h.bound
                        } by {
                            if f.done[v] {
                                assert(f.dist[v]->0 <= f.bound);
                            } else if f.dist[v] is Some {
                            }
                        }
                    }
                    assert forall|a2: int, q: Seq<usize>| #[trigger]
                        is_trip(net, direspect, w, src@, dst@, a2, q) implies du <= walk_weight(
                        w,
                        q,
                    ) by {
                        lemma_lower_bound(net, direspect, w, src@, h, a2, q);
                        lemma_walk_end_is_slot(net, direspect, w, q, a2);
                        let z = walk_end(net, q, a2);
                        if walk_weight(w, q) < du {
                            assert(reaches(h.dist, z, walk_weight(w, q)));
                            assert(!f.done[z]);
                        }
                    }
                }
                let (a, p) = self.trace(Ghost(direspect), Ghost(w), Ghost(src@), Ghost(f), &pred, u);
                proof {
                    assert(f.pred[u as int] is None ==> p@.len() == 0);
                    assert(stands_done(net, f.done, f.paths[u as int], f.roots[u as int]));
                    assert forall|i: int| 0 <= i < p@.len() implies !dst@[walk_end(
                        net,
                        #[trigger] p@.take(i),
                        a as int,
                    )] by {
                        let at = walk_end(net, p@.take(i), a as int);
                        assert(f.done[at]);
                    }
                }
                return Some((a, u, p));
            }
            done[u] = true;
            proof {
                lemma_settle(net, direspect, w, src@, dst@, f, u as int);
                bound = du as int;
                popped = popped + 1;
            }
            let ghost f1 = f.settle(u as int, du as int);
            assert(f1 == (Frontier { dist: dist@, pred: pred@, done: done@, paths, roots, bound, popped }));
            proof {
                assert(queued(queue_entries(queue), f1)) by {
                    let now = queue_entries(queue);
                    assert forall|v: usize| #[trigger] now.contains_key(v) implies v < f1.dist.len()
                        && f1.dist[v as int] is Some && !f1.done[v as int] && now[v] == u128::MAX
                        - f1.dist[v as int]->0 by {
                        assert(entries.contains_key(v));
                    }
                    assert forall|v: int|
                        0 <= v < f1.dist.len() && (#[trigger] f1.dist[v]) is Some
                            && !f1.done[v] implies now.contains_key(v as usize) by {
                        assert(entries.contains_key(v as usize));
                    }
                }
                lemma_walk_weight_bounds(w, f.paths[u as int]);
                assert(f.paths[u as int].len() <= n);
                assert(f.paths[u as int].len() * u64::MAX <= usize::MAX * u64::MAX) by (nonlinear_arith)
                    requires
                        f.paths[u as int].len() <= usize::MAX,
                ;
            }
            let deg = self.incidence[u].len();
            let mut k: usize = 0;
            while k < deg
                invariant
                    self.wf(),
                    net == self@,
                    w == weight@,
                    n == net.nodes(),
                    u < n,
                    src.len() == n,
                    dst.len() == n,
                    weight.len() == net.edges(),
                    dist.len() == n,
                    pred.len() == n,
                    done.len() == n,
                    deg == net.inc[u as int].len(),
                    k <= deg,
                    done[u as int],
                    dist[u as int] == Some(du),
                    bound == du,
                    du <= usize::MAX * u64::MAX,
                    popped <= n,
                    (Frontier { dist: dist@, pred: pred@, done: done@, paths, roots, bound, popped }).inv(
                        net,
                        direspect,
                        w,
                        src@,
                        dst@,
                        u as int,
                    ),
                    queued(
                        queue_entries(queue),
                        (Frontier {
                            dist: dist@,
                            pred: pred@,
                            done: done@,
                            paths,
                            roots,
                            bound,
                            popped,
                        }),
                    ),
                    relaxed_upto(net, direspect, w, dist@, u as int, k as int),
                decreases deg - k,
            {
                let ghost f2 = Frontier { dist: dist@, pred: pred@, done: done@, paths, roots, bound, popped };
                let e = self.incidence[u][k];
                assert(net.inc[u as int][k as int] == e);
                assert(e < net.edges() && net.touches(e as int, u as int));
                let (t, h) = self.ends[e];
                let v = if t == u {
                    h
                } else {
                    t
                };
                assert(v == net.far(e as int, u as int));
                assert(0 <= net.tail(e as int) < net.nodes());
                let usable = !direspect || t == u || !self.edges[e].directed();
                assert(usable == net.legal(direspect, e as int, u as int));
                let mut better: Option<u128> = None;
                if usable && !done[v] {
                    if let Some(c) = weight[e] {
                        assert(du + c <= u128::MAX) by {
                            assert(usize::MAX * u64::MAX + u64::MAX <= u128::MAX) by (nonlinear_arith);
                        }
                        let nd = du + c as u128;
                        match dist[v] {
                            Some(dv) => {
                                if dv > nd {
                                    better = Some(nd);
                                }
                            },
                            None => {
                                better = Some(nd);
                            },
                        }
                    }
                }
                match better {
                    Some(nd) => {
                        dist[v] = Some(nd);
                        pred[v] = Some(e);
                        queue_push(&mut queue, v, u128::MAX - nd);
                        proof {
                            lemma_improve(net, direspect, w, src@, dst@, f2, u as int, k as int, nd);
                            paths = paths.update(v as int, paths[u as int].push(e));
                            roots = roots.update(v as int, roots[u as int]);
                            let f3 = f2.improve(u as int, e, v as int, nd);
                            assert(f3 == (Frontier {
                                dist: dist@,
                                pred: pred@,
                                done: done@,
                                paths,
                                roots,
                                bound,
                                popped,
                            }));
                            let now = queue_entries(queue);
                            assert forall|x: usize| #[trigger] now.contains_key(x) implies x
                                < f3.dist.len() && f3.dist[x as int] is Some && !f3.done[x as int]
                                && now[x] == u128::MAX - f3.dist[x as int]->0 by {
                                if x != v {
                                    assert(f2.dist[x as int] == f3.dist[x as int]);
                                }
                            }
                            assert forall|x: int|
                                0 <= x < f3.dist.len() && (#[trigger] f3.dist[x]) is Some
                                    && !f3.done[x] implies now.contains_key(x as usize) by {
                                if x != v {
                                    assert(f2.dist[x] is Some);
                                }
                            }
                        }
                    },
                    None => {
                        proof {
                            lemma_skip(net, direspect, w, f2, u as int, k as int);
                        }
                    },
                }
                k = k + 1;
            }
            proof {
                let f4 = Frontier { dist: dist@, pred: pred@, done: done@, paths, roots, bound, popped };
                assert(f4.closed(net, direspect, w, -1)) by {
                    assert forall|x: int|
                        0 <= x < net.nodes() && #[trigger] f4.done[x] && x != -1 implies relaxed(
                        net,
                        direspect,
                        w,
                        f4.dist,
                        x,
                    ) by {
                        if x == u {
                            assert forall|ex: int| #[trigger]
                                relaxed_edge(net, direspect, w, f4.dist, x, ex) by {
                                if net.legal(direspect, ex, x) {
                                    assert(net.inc[x].contains(ex as usize));
                                    let j = choose|j: int|
                                        0 <= j < net.inc[x].len() && net.inc[x][j] == ex as usize;
                                    assert(relaxed_edge(
                                        net,
                                        direspect,
                                        w,
                                        f4.dist,
                                        x,
                                        net.inc[x][j] as int,
                                    ));
                                }
                            }
                        } else {
                            assert(f4.closed(net, direspect, w, u as int));
                        }
                    }
                }
            }
        }
    }

    /// The walk by which the search reached slot `u`, and the slot at which
    /// that walk starts.
    fn trace(
        &self,
        Ghost(direspect): Ghost<bool>,
        Ghost(w): Ghost<Weights>,
        Ghost(src): Ghost<Seq<bool>>,
        Ghost(f): Ghost<Frontier>,
        pred: &Vec<Option<usize>>,
        u: usize,
    ) -> (r: (usize, Vec<usize>))
        requires
            self.wf(),
            f.shape(self@),
            f.witnessed(self@, direspect, w, src),
            f.tree(self@, direspect),
            pred@ == f.pred,
            u < self@.nodes(),
            f.dist[u as int] is Some,
        ensures
            r.0 == f.roots[u as int],
            r.1@ == f.paths[u as int],
    {
        let ghost net = self@;
        let ghost whole = f.paths[u as int];
        let mut back: Vec<usize> = Vec::new();
        let mut cur = u;
        loop
            invariant
                self.wf(),
                net == self@,
                f.shape(net),
                f.witnessed(net, direspect, w, src),
                f.tree(net, direspect),
                pred@ == f.pred,
                cur < net.nodes(),
                f.dist[cur as int] is Some,
                whole == f.paths[u as int],
                f.roots[cur as int] == f.roots[u as int],
                back.len() + f.paths[cur as int].len() == whole.len(),
                f.paths[cur as int] == whole.take(f.paths[cur as int].len() as int),
                forall|i: int|
                    0 <= i < back.len() ==> #[trigger] back[i] == whole[whole.len() - 1 - i],
            ensures
                f.paths[cur as int].len() == 0,
                f.roots[cur as int] == cur,
            decreases f.paths[cur as int].len(),
        {
            match pred[cur] {
                None => {
                    break ;
                },
                Some(e) => {
                    let ghost y = net.far(e as int, cur as int);
                    proof {
                        assert(f.paths[cur as int] == f.paths[y].push(e));
                        assert(f.paths[y] == f.paths[cur as int].drop_last());
                        assert(f.paths[y] =~= whole.take(f.paths[y].len() as int));
                        assert(whole[f.paths[cur as int].len() - 1] == e);
                    }
                    back.push(e);
                    let (t, h) = self.ends[e];
                    cur = if t == cur {
                        h
                    } else {
                        t
                    };
                },
            }
        }
        let mut path: Vec<usize> = Vec::new();
        let mut i = back.len();
        while i > 0
            invariant
                i <= back.len(),
                back.len() == whole.len(),
                path.len() == back.len() - i,
                forall|j: int| 0 <= j < back.len() ==> #[trigger] back[j] == whole[whole.len() - 1 - j],
                forall|j: int| 0 <= j < path.len() ==> #[trigger] path[j] == whole[j],
            decreases i,
        {
            i = i - 1;
            path.push(back[i]);
        }
        assert(path@ =~= whole);
        (cur, path)
    }
}

} // verus!
