//! Making a graph fit for a closed walk over all its edges, by copying
//! edges until every node has an even combined degree.

use crate::edge::Edge;
use crate::graph::Graph;
use crate::marks::{count_true, lemma_count_none, lemma_count_true_bound, lemma_count_true_set};
use crate::net::{count_of, lemma_count_of_bound, lemma_slot_unique, Net};
use vstd::prelude::*;

verus! {

/// Why a graph could not be made fit.
#[derive(Clone, Copy, Debug, PartialEq, Eq, Structural)]
pub enum Obstacle {
    /// The edge with this number is one-way and is the only edge of the
    /// node at which it arrives: whatever enters there cannot leave.
    DeadEnd(usize),
    /// The node with this identifier has an unfit combined degree and no
    /// edge left that may be copied.
    Stuck(u64),
}

/// Whether edge `to` of `edges` is what `dupe` makes of edge `from`.
pub open spec fn is_copy<E, FD: Fn(&E) -> E>(dupe: FD, edges: Seq<E>, from: int, to: int) -> bool {
    call_ensures(dupe, (&edges[from],), edges[to])
}

/// Whether edge `e` has a copy among the edges from number `m0` on.
pub open spec fn copied<E, FD: Fn(&E) -> E>(dupe: FD, edges: Seq<E>, m0: int, e: int) -> bool {
    exists|j: int| m0 <= j < edges.len() && #[trigger] is_copy(dupe, edges, e, j)
}

/// Whether edge `j` is a copy of an edge below number `m0`.
pub open spec fn made<E, FD: Fn(&E) -> E>(dupe: FD, edges: Seq<E>, m0: int, j: int) -> bool {
    exists|i: int| 0 <= i < m0 && #[trigger] is_copy(dupe, edges, i, j)
}

/// Whether edge `e` has, on the incidence list of slot `s`, an edge that
/// `duped` calls a duplicate of it.
pub open spec fn has_partner<E, FS: Fn(&E, &E) -> bool>(
    net: Net,
    edges: Seq<E>,
    duped: FS,
    s: int,
    e: int,
) -> bool {
    exists|k: int|
        0 <= k < net.inc[s].len() && #[trigger] call_ensures(
            duped,
            (&edges[e], &edges[net.inc[s][k] as int]),
            true,
        )
}

/// Whether a one-way edge at slot `s` points the wrong way to even out
/// the one-way edges that leave the node and those that arrive.
pub open spec fn misdirected(net: Net, s: int, e: int) -> bool {
    net.one_way[e] && !((net.out_count(s) > net.in_count(s) && net.head(e) == s) || (net.in_count(
        s,
    ) > net.out_count(s) && net.tail(e) == s))
}

/// Whether edge `e` at slot `s` may not be copied, whatever has been
/// copied before: it is a self-loop, it has no priority, it has a
/// duplicate at the node already, or directions count and it points the
/// wrong way.
pub open spec fn blocked<E, FS: Fn(&E, &E) -> bool>(
    net: Net,
    edges: Seq<E>,
    direspect: bool,
    duped: FS,
    priority: Seq<Option<u128>>,
    s: int,
    e: int,
) -> bool {
    ||| net.is_loop(e)
    ||| priority[e] is None
    ||| has_partner(net, edges, duped, s, e)
    ||| direspect && misdirected(net, s, e)
}

/// Whether the shape `now` is the shape `then` with more edges: the same
/// nodes, the edges of `then` under their numbers, and each incidence list
/// of `then` at the head of the node's list.
pub open spec fn grown(now: Net, then: Net) -> bool {
    &&& now.ids == then.ids
    &&& then.links.len() <= now.links.len()
    &&& then.one_way.len() <= now.one_way.len()
    &&& forall|e: int| 0 <= e < then.links.len() ==> #[trigger] now.links[e] == then.links[e]
    &&& forall|e: int| 0 <= e < then.one_way.len() ==> #[trigger] now.one_way[e] == then.one_way[e]
    &&& forall|s: int|
        0 <= s < then.ids.len() ==> then.inc[s].len() <= (#[trigger] now.inc[s]).len()
    &&& forall|s: int, k: int|
        0 <= s < then.ids.len() && 0 <= k < then.inc[s].len() ==> #[trigger] now.inc[s][k]
            == then.inc[s][k]
}

impl<N, E: Edge> Graph<N, E> {
    /// Adds what `dupe` makes of edge `e`.
    fn copy_edge<FD: Fn(&E) -> E>(&mut self, e: usize, dupe: &FD)
        requires
            old(self).wf(),
            e < old(self)@.edges(),
            call_requires(*dupe, (&old(self).edge_seq()[e as int],)),
            forall|a: &E, r: E| #[trigger]
                call_ensures(*dupe, (a,), r) ==> r.p1_spec() == a.p1_spec() && r.p2_spec()
                    == a.p2_spec() && r.directed_spec() == a.directed_spec(),
        ensures
            final(self).wf(),
            final(self).payloads() == old(self).payloads(),
            final(self).edge_seq().len() == old(self).edge_seq().len() + 1,
            final(self).edge_seq().drop_last() == old(self).edge_seq(),
            is_copy(*dupe, final(self).edge_seq(), e as int, old(self).edge_seq().len() as int),
            final(self)@ == old(self)@.with_edge(
                old(self)@.tail(e as int),
                old(self)@.head(e as int),
                old(self)@.one_way[e as int],
            ),
            grown(final(self)@, old(self)@),
    {
        let ghost before = *self;
        let copy = dupe(&self.edges[e]);
        proof {
            assert(0 <= before@.tail(e as int) < before@.nodes());
            lemma_slot_unique(before@, before@.tail(e as int));
            lemma_slot_unique(before@, before@.head(e as int));
            assert(before.edges@[e as int].p1_spec() == before@.ids[before@.tail(e as int)]);
        }
        let ok = self.append_edge(copy);
        assert(ok);
        proof {
            assert(self.edge_seq().drop_last() =~= before.edge_seq());
        }
    }

    /// Adds what `dupe` makes of edge `e`, which has not been copied
    /// before, and marks the edge as copied.
    #[verifier::rlimit(40)]
    fn copy_marked<FD: Fn(&E) -> E>(
        &mut self,
        e: usize,
        dupe: &FD,
        spent: &mut Vec<bool>,
        Ghost(before): Ghost<Self>,
        Ghost(origin): Ghost<Seq<int>>,
    )
        requires
            copying(*old(self), before, *dupe, old(spent)@, origin),
            e < old(spent).len(),
            !old(spent)[e as int],
            forall|i: int|
                0 <= i < before.edge_seq().len() ==> call_requires(
                    *dupe,
                    (&#[trigger] before.edge_seq()[i],),
                ),
            forall|a: &E, c: E| #[trigger]
                call_ensures(*dupe, (a,), c) ==> c.p1_spec() == a.p1_spec() && c.p2_spec()
                    == a.p2_spec() && c.directed_spec() == a.directed_spec(),
        ensures
            copying(*final(self), before, *dupe, final(spent)@, origin.push(e as int)),
            is_added(*old(self), *final(self), *dupe, e as int),
            final(spent)@ == old(spent)@.update(e as int, true),
    {
        let ghost was = *self;
        let ghost m0 = before.edge_seq().len() as int;
        assert(self.edge_seq()[e as int] == before.edge_seq()[e as int]) by {
            assert(self.edge_seq().take(m0)[e as int] == self.edge_seq()[e as int]);
        }
        self.copy_edge(e, dupe);
        proof {
            lemma_count_true_set(spent@, e as int);
            lemma_count_true_bound(spent@.update(e as int, true));
        }
        spent[e] = true;
        proof {
            assert forall|k: int| 0 <= k < origin.len() implies is_copy(
                *dupe,
                self.edge_seq(),
                #[trigger] origin[k],
                m0 + k,
            ) by {
                assert(is_copy(*dupe, was.edge_seq(), origin[k], m0 + k));
                assert(self.edge_seq().drop_last()[origin[k]] == self.edge_seq()[origin[k]]);
                assert(self.edge_seq().drop_last()[m0 + k] == self.edge_seq()[m0 + k]);
            }
            lemma_grown_twice(self@, was@, before@);
            lemma_copied_more(*dupe, was.edge_seq(), self.edge_seq(), m0);
            assert(self.edge_seq().take(m0) =~= before.edge_seq()) by {
                assert(was.edge_seq().take(m0) == before.edge_seq());
                assert(self.edge_seq().drop_last() == was.edge_seq());
            }
            assert(is_copy(*dupe, self.edge_seq(), e as int, was.edge_seq().len() as int));
            let next = origin.push(e as int);
            assert(next.no_duplicates());
            assert forall|k: int| 0 <= k < next.len() implies 0 <= #[trigger] next[k] < m0
                && spent@[next[k]] && is_copy(*dupe, self.edge_seq(), next[k], m0 + k) by {
                if k < origin.len() {
                    assert(next[k] == origin[k]);
                }
            }
        }
    }

    /// The first slot whose node has an unfit combined degree.
    pub(crate) fn first_unfit(&self, direspect: bool) -> (r: Option<usize>)
        requires
            self.wf(),
        ensures
            match r {
                Some(s) => s < self@.nodes() && !self@.compatible(direspect, s as int)
                    && forall|t: int| 0 <= t < s ==> #[trigger] self@.compatible(direspect, t),
                None => forall|t: int|
                    0 <= t < self@.nodes() ==> #[trigger] self@.compatible(direspect, t),
            },
    {
        let n = self.nodes.len();
        let mut s: usize = 0;
        while s < n
            invariant
                self.wf(),
                n == self@.nodes(),
                s <= n,
                forall|t: int| 0 <= t < s ==> #[trigger] self@.compatible(direspect, t),
            decreases n - s,
        {
            let d = self.degree_at(direspect, s);
            let even = if d >= 0 {
                d % 2 == 0
            } else {
                (-d) % 2 == 0
            };
            if !(even && (!direspect || d >= 0)) {
                return Some(s);
            }
            s = s + 1;
        }
        None
    }

    /// The numbers of one-way edges that leave and that arrive at slot `s`.
    fn flows(&self, s: usize) -> (r: (usize, usize))
        requires
            self.wf(),
            s < self@.nodes(),
        ensures
            r.0 == self@.out_count(s as int),
            r.1 == self@.in_count(s as int),
    {
        let ghost net = self@;
        let ghost list = net.inc[s as int];
        let ghost leaves = |e: usize| net.one_way[e as int] && net.tail(e as int) == s;
        let ghost arrives = |e: usize| net.one_way[e as int] && net.head(e as int) == s;
        let deg = self.incidence[s].len();
        let mut o: usize = 0;
        let mut i: usize = 0;
        let mut k: usize = 0;
        while k < deg
            invariant
                self.wf(),
                net == self@,
                s < net.nodes(),
                list == net.inc[s as int],
                deg == list.len(),
                k <= deg,
                leaves == |e: usize| net.one_way[e as int] && net.tail(e as int) == s,
                arrives == |e: usize| net.one_way[e as int] && net.head(e as int) == s,
                o == count_of(list.take(k as int), leaves),
                i == count_of(list.take(k as int), arrives),
            decreases deg - k,
        {
            let e = self.incidence[s][k];
            assert(list[k as int] == e);
            assert(e < net.edges());
            proof {
                assert(list.take(k as int + 1).drop_last() == list.take(k as int));
                crate::net::lemma_count_of_bound(list.take(k as int + 1), leaves);
                crate::net::lemma_count_of_bound(list.take(k as int + 1), arrives);
            }
            let (t, h) = self.ends[e];
            if self.edges[e].directed() {
                if t == s {
                    o = o + 1;
                }
                if h == s {
                    i = i + 1;
                }
            }
            k = k + 1;
        }
        assert(list.take(deg as int) == list);
        (o, i)
    }

    /// Whether `duped` calls an edge at slot `s` a duplicate of edge `e`.
    fn partnered<FS: Fn(&E, &E) -> bool>(&self, s: usize, e: usize, duped: &FS) -> (r: bool)
        requires
            self.wf(),
            s < self@.nodes(),
            e < self@.edges(),
            forall|a: &E, b: &E| call_requires(*duped, (a, b)),
        ensures
            r ==> has_partner(self@, self.edge_seq(), *duped, s as int, e as int),
            !r ==> is_refused(self@, self.edge_seq(), *duped, s as int, e as int),
    {
        let deg = self.incidence[s].len();
        let mut k: usize = 0;
        while k < deg
            invariant
                self.wf(),
                s < self@.nodes(),
                e < self@.edges(),
                deg == self@.inc[s as int].len(),
                k <= deg,
                forall|a: &E, b: &E| call_requires(*duped, (a, b)),
                forall|j: int|
                    0 <= j < k ==> #[trigger] call_ensures(
                        *duped,
                        (&self.edge_seq()[e as int], &self.edge_seq()[self@.inc[s as int][j] as int]),
                        false,
                    ),
            decreases deg - k,
        {
            let other = self.incidence[s][k];
            assert(self@.inc[s as int][k as int] == other);
            assert(other < self@.edges());
            if duped(&self.edges[e], &self.edges[other]) {
                assert(call_ensures(
                    *duped,
                    (&self.edge_seq()[e as int], &self.edge_seq()[self@.inc[s as int][k as int] as int]),
                    true,
                ));
                return true;
            }
            k = k + 1;
        }
        false
    }

    /// The edge at slot `s` to copy next: among those below number `m0`
    /// that are neither spent nor blocked, the first of the lowest
    /// priority.
    fn candidate<FS: Fn(&E, &E) -> bool>(
        &self,
        direspect: bool,
        s: usize,
        spent: &Vec<bool>,
        duped: &FS,
        priority: &Vec<Option<u128>>,
    ) -> (r: Option<usize>)
        requires
            self.wf(),
            s < self@.nodes(),
            spent.len() <= self@.edges(),
            priority.len() == spent.len(),
            forall|a: &E, b: &E| call_requires(*duped, (a, b)),
        ensures
            match r {
                Some(e) => e < spent.len() && !spent[e as int] && self@.touches(e as int, s as int),
                None => forall|k: int|
                    0 <= k < self@.inc[s as int].len() ==> {
                        let e = #[trigger] self@.inc[s as int][k];
                        ||| e >= spent.len()
                        ||| spent[e as int]
                        ||| blocked(
                            self@,
                            self.edge_seq(),
                            direspect,
                            *duped,
                            priority@,
                            s as int,
                            e as int,
                        )
                    },
            },
            r is Some ==> is_chosen(
                self@,
                self.edge_seq(),
                direspect,
                *duped,
                priority@,
                spent@,
                s as int,
                r->Some_0 as int,
            ),
    {
        let ghost net = self@;
        let ghost edges = self.edge_seq();
        let ghost at: int = 0;
        let (outd, ind) = self.flows(s);
        let deg = self.incidence[s].len();
        let mut best: Option<usize> = None;
        let mut best_rank: u128 = 0;
        let mut k: usize = 0;
        while k < deg
            invariant
                self.wf(),
                net == self@,
                s < net.nodes(),
                spent.len() <= net.edges(),
                deg == net.inc[s as int].len(),
                k <= deg,
                outd == net.out_count(s as int),
                ind == net.in_count(s as int),
                priority.len() == spent.len(),
                edges == self.edge_seq(),
                forall|a: &E, b: &E| call_requires(*duped, (a, b)),
                best is Some ==> 0 <= at < k && net.inc[s as int][at] == best->Some_0
                    && priority[best->Some_0 as int] == Some(best_rank) && is_choice(
                    net,
                    edges,
                    direspect,
                    *duped,
                    priority@,
                    spent@,
                    s as int,
                    at,
                    k as int,
                ),
                match best {
                    Some(e) => e < spent.len() && !spent[e as int] && net.touches(
                        e as int,
                        s as int,
                    ),
                    None => forall|j: int|
                        0 <= j < k ==> {
                            let e = #[trigger] net.inc[s as int][j];
                            ||| e >= spent.len()
                            ||| spent[e as int]
                            ||| blocked(
                                net,
                                self.edge_seq(),
                                direspect,
                                *duped,
                                priority@,
                                s as int,
                                e as int,
                            )
                        },
                },
            decreases deg - k,
        {
            let e = self.incidence[s][k];
            assert(net.inc[s as int][k as int] == e);
            assert(e < net.edges() && net.touches(e as int, s as int));
            let mut rank: Option<u128> = None;
            if e < spent.len() && !spent[e] {
                let (t, h) = self.ends[e];
                let one_way = self.edges[e].directed();
                let turned = one_way && !((outd > ind && h == s) || (ind > outd && t == s));
                if t != h && !(direspect && turned) && !self.partnered(s, e, duped) {
                    rank = priority[e];
                }
            }
            assert(rank is Some ==> rank == priority[e as int] && may_copy(
                net,
                edges,
                direspect,
                *duped,
                priority@,
                spent@,
                s as int,
                e as int,
            ));
            assert(rank is None ==> may_not_copy(
                net,
                edges,
                direspect,
                *duped,
                priority@,
                spent@,
                s as int,
                e as int,
            ));
            match rank {
                Some(p) => {
                    let better = match best {
                        Some(_) => p < best_rank,
                        None => true,
                    };
                    if better {
                        best = Some(e);
                        best_rank = p;
                        proof {
                            at = k as int;
                        }
                    }
                },
                None => {},
            }
            k = k + 1;
        }
        proof {
            if best is Some {
                assert(is_chosen(
                    net,
                    edges,
                    direspect,
                    *duped,
                    priority@,
                    spent@,
                    s as int,
                    best->Some_0 as int,
                )) by {
                    assert(is_choice(
                        net,
                        edges,
                        direspect,
                        *duped,
                        priority@,
                        spent@,
                        s as int,
                        at,
                        net.inc[s as int].len() as int,
                    ));
                }
            }
        }
        best
    }

    /// Makes the graph fit for a closed walk over all its edges by adding
    /// copies of edges, and changes nothing else.
    ///
    /// First every node with a single edge has that edge copied; where
    /// directions count and the edge is one-way into the node, nothing can
    /// help and the edge is reported. Then, as long as a node has an unfit
    /// combined degree, the first such node has one of its edges copied: one
    /// that is no self-loop, has no duplicate at the node, has a priority
    /// in the table `priority`,
    /// and, where directions count, is two-way or evens out the node's
    /// one-way edges; of these the first with the lowest priority. No edge
    /// is copied twice, and no copy is copied. A node for which no such
    /// edge is left is reported. Where directions do not count, there is
    /// no such node in a graph without self-loops whose edges all have a
    /// priority and are no duplicates of one another.
    #[verifier::rlimit(40)]
    pub fn eulirianize<FS, FD, const DIRESPECT: bool>(
        &mut self,
        duped: FS,
        priority: &Vec<Option<u128>>,
        dupe: FD,
    ) -> (r: Result<(), Obstacle>) where FS: Fn(&E, &E) -> bool, FD: Fn(&E) -> E
        requires
            old(self).wf(),
            priority.len() == old(self)@.edges(),
            forall|a: &E, b: &E| call_requires(duped, (a, b)),
            forall|i: int|
                0 <= i < old(self).edge_seq().len() ==> call_requires(
                    dupe,
                    (&#[trigger] old(self).edge_seq()[i],),
                ),
            forall|a: &E, c: E| #[trigger]
                call_ensures(dupe, (a,), c) ==> c.p1_spec() == a.p1_spec() && c.p2_spec()
                    == a.p2_spec() && c.directed_spec() == a.directed_spec(),
        ensures
            final(self).wf(),
            final(self).payloads() == old(self).payloads(),
            grown(final(self)@, old(self)@),
            final(self).edge_seq().take(old(self).edge_seq().len() as int) == old(self).edge_seq(),
            final(self).edge_seq().len() <= 2 * old(self).edge_seq().len(),
            forall|j: int|
                old(self).edge_seq().len() <= j < final(self).edge_seq().len() ==> #[trigger] made(
                    dupe,
                    final(self).edge_seq(),
                    old(self).edge_seq().len() as int,
                    j,
                ),
            has_origins(dupe, final(self).edge_seq(), old(self).edge_seq().len() as int),
            is_fit(*old(self), *final(self), DIRESPECT, duped, priority@, dupe, r),
            !DIRESPECT && is_plain(*old(self), duped, priority@, dupe) ==> r is Ok,
            is_quiet(old(self)@, DIRESPECT) ==> r is Ok && *final(self) == *old(self),
            forall|s: int| #[trigger]
                is_first_dead_end(old(self)@, DIRESPECT, s) ==> r == Err::<(), Obstacle>(
                    Obstacle::DeadEnd(old(self)@.inc[s][0]),
                ) && *final(self) == *old(self),
            match r {
                Ok(()) => forall|s: int|
                    0 <= s < final(self)@.nodes() ==> #[trigger] final(self)@.compatible(DIRESPECT, s),
                Err(Obstacle::DeadEnd(e)) => {
                    &&& DIRESPECT
                    &&& e < final(self)@.edges()
                    &&& final(self)@.one_way[e as int]
                    &&& final(self)@.inc[final(self)@.head(e as int)] == seq![e]
                },
                Err(Obstacle::Stuck(n)) => {
                    &&& final(self)@.has(n)
                    &&& !final(self)@.compatible(DIRESPECT, final(self)@.slot(n))
                    &&& forall|k: int|
                        0 <= k < final(self)@.inc[final(self)@.slot(n)].len() ==> {
                            let e = #[trigger] final(self)@.inc[final(self)@.slot(n)][k];
                            ||| e >= old(self).edge_seq().len()
                            ||| copied(
                                dupe,
                                final(self).edge_seq(),
                                old(self).edge_seq().len() as int,
                                e as int,
                            )
                            ||| blocked(
                                final(self)@,
                                final(self).edge_seq(),
                                DIRESPECT,
                                duped,
                                priority@,
                                final(self)@.slot(n),
                                e as int,
                            )
                        }
                },
            },
    {
        let ghost before = *self;
        let ghost mut origin: Seq<int> = Seq::empty();
        let n = self.nodes.len();
        let m0 = self.edges.len();
        let mut spent: Vec<bool> = Vec::new();
        let mut e: usize = 0;
        while e < m0
            invariant
                e <= m0,
                spent.len() == e,
                forall|x: int| 0 <= x < e ==> !#[trigger] spent[x],
            decreases m0 - e,
        {
            spent.push(false);
            e = e + 1;
        }
        proof {
            lemma_count_none(spent@);
            assert(self.edge_seq().take(m0 as int) =~= before.edge_seq());
            assert(spent@ =~= Seq::new(m0 as nat, |x: int| false));
        }
        let ghost mut trail: Seq<Stage<N, E>> = seq![Stage { graph: before, spent: spent@, at: 0 }];
        let mut s: usize = 0;
        while s < n
            invariant
                copying(*self, before, dupe, spent@, origin),
                n == self@.nodes(),
                s <= n,
                m0 == before.edge_seq().len(),
                priority.len() == m0,
                before == *old(self),
                self.edge_seq().len() == m0 ==> *self == before,
                self.edge_seq().len() > m0 ==> exists|t: int|
                    0 <= t < s && (#[trigger] before@.inc[t]).len() == 1,
                forall|t: int| 0 <= t < s ==> !#[trigger] is_first_dead_end(before@, DIRESPECT, t),
                forall|i: int|
                    0 <= i < before.edge_seq().len() ==> call_requires(
                        dupe,
                        (&#[trigger] before.edge_seq()[i],),
                    ),
                forall|a: &E, c: E| #[trigger]
                    call_ensures(dupe, (a,), c) ==> c.p1_spec() == a.p1_spec() && c.p2_spec()
                        == a.p2_spec() && c.directed_spec() == a.directed_spec(),
                is_trail(trail, DIRESPECT, duped, priority@, dupe),
                trail[0] == (Stage { graph: before, spent: Seq::new(m0 as nat, |x: int| false), at: 0 }),
                trail.last() == (Stage { graph: *self, spent: spent@, at: s as int }),
            decreases n - s,
        {
            let ghost at_start = *self;
            let ghost early = trail;
            if self.incidence[s].len() == 1 {
                let e = self.incidence[s][0];
                assert(self@.inc[s as int][0] == e);
                assert(e < self@.edges() && self@.touches(e as int, s as int));
                let (_, h) = self.ends[e];
                if DIRESPECT && h == s && self.edges[e].directed() {
                    assert(self@.inc[s as int] =~= seq![e]);
                    proof {
                        assert(are_origins(dupe, self.edge_seq(), m0 as int, origin));
                        assert forall|t: int| #[trigger]
                            is_first_dead_end(before@, DIRESPECT, t) implies t == s && *self
                            == before by {
                            assert(forall|x: int| 0 <= x < t ==> (#[trigger] before@.inc[x]).len() != 1);
                            if t > s {
                                assert(before@.inc[s as int].len() != 1);
                            }
                        }
                        if is_quiet(before@, DIRESPECT) {
                            assert(forall|x: int| 0 <= x < n ==> (#[trigger] before@.inc[x]).len() != 1);
                        }
                        assert(is_dead_end_at(self@, DIRESPECT, s as int));
                        assert(is_fit_run(
                            trail,
                            before,
                            *self,
                            DIRESPECT,
                            duped,
                            priority@,
                            dupe,
                            Err(Obstacle::DeadEnd(e)),
                        ));
                    }
                    return Err(Obstacle::DeadEnd(e));
                }
                assert(!is_dead_end_at(self@, DIRESPECT, s as int));
                if e < m0 && !spent[e] {
                    self.copy_marked(e, &dupe, &mut spent, Ghost(before), Ghost(origin));
                    proof {
                        assert(at_start.edge_seq().len() == m0 ==> (before@.inc[s as int]).len() == 1);
                        origin = origin.push(e as int);
                    }
                }
            }
            proof {
                if is_first_dead_end(before@, DIRESPECT, s as int) {
                    assert(forall|x: int| 0 <= x < s ==> (#[trigger] before@.inc[x]).len() != 1);
                    assert(at_start.edge_seq().len() == m0);
                    assert(at_start == before);
                }
                let next = Stage { graph: *self, spent: spent@, at: s as int + 1 };
                assert(is_move(early.last(), next, DIRESPECT, duped, priority@, dupe));
                trail = early.push(next);
                lemma_trail_more(early, next, DIRESPECT, duped, priority@, dupe);
            }
            s = s + 1;
        }
        assert forall|t: int| !#[trigger] is_first_dead_end(before@, DIRESPECT, t) by {}
        loop
            invariant
                copying(*self, before, dupe, spent@, origin),
                n == self@.nodes(),
                m0 == before.edge_seq().len(),
                before == *old(self),
                self.edge_seq().len() == m0 ==> *self == before,
                self.edge_seq().len() > m0 ==> !is_quiet(before@, DIRESPECT),
                forall|t: int| !#[trigger] is_first_dead_end(before@, DIRESPECT, t),
                priority.len() == m0,
                forall|a: &E, b: &E| call_requires(duped, (a, b)),
                forall|i: int|
                    0 <= i < before.edge_seq().len() ==> call_requires(
                        dupe,
                        (&#[trigger] before.edge_seq()[i],),
                    ),
                forall|a: &E, c: E| #[trigger]
                    call_ensures(dupe, (a,), c) ==> c.p1_spec() == a.p1_spec() && c.p2_spec()
                        == a.p2_spec() && c.directed_spec() == a.directed_spec(),
                is_trail(trail, DIRESPECT, duped, priority@, dupe),
                trail[0] == (Stage { graph: before, spent: Seq::new(m0 as nat, |x: int| false), at: 0 }),
                trail.last() == (Stage { graph: *self, spent: spent@, at: n as int }),
            decreases m0 - count_true(spent@),
        {
            let s = match self.first_unfit(DIRESPECT) {
                Some(s) => s,
                None => {
                    proof {
                        assert(are_origins(dupe, self.edge_seq(), m0 as int, origin));
                        assert(is_fit_run(
                            trail,
                            before,
                            *self,
                            DIRESPECT,
                            duped,
                            priority@,
                            dupe,
                            Ok(()),
                        ));
                    }
                    return Ok(());
                },
            };
            assert(is_first_unfit(self@, DIRESPECT, s as int));
            let e = match self.candidate(DIRESPECT, s, &spent, &duped, priority) {
                Some(e) => e,
                None => {
                    let id = self.id_of(s);
                    proof {
                        assert(are_origins(dupe, self.edge_seq(), m0 as int, origin));
                        if self.edge_seq().len() == m0 {
                            assert(!before@.compatible(DIRESPECT, s as int));
                        }
                        assert(is_stuck(
                            self@,
                            self.edge_seq(),
                            DIRESPECT,
                            duped,
                            priority@,
                            spent@,
                            s as int,
                        ));
                        assert(is_fit_run(
                            trail,
                            before,
                            *self,
                            DIRESPECT,
                            duped,
                            priority@,
                            dupe,
                            Err(Obstacle::Stuck(id)),
                        ));
                        if !DIRESPECT && is_plain(before, duped, priority@, dupe) {
                            lemma_fit_succeeds(
                                before,
                                *self,
                                duped,
                                priority@,
                                dupe,
                                Err(Obstacle::Stuck(id)),
                            );
                        }
                    }
                    return Err(Obstacle::Stuck(id));
                },
            };
            let ghost was = *self;
            let ghost marks = spent@;
            let ghost early = trail;
            self.copy_marked(e, &dupe, &mut spent, Ghost(before), Ghost(origin));
            proof {
                if was.edge_seq().len() == m0 {
                    assert(!before@.compatible(DIRESPECT, s as int));
                }
                origin = origin.push(e as int);
                let next = Stage { graph: *self, spent: spent@, at: n as int };
                let k = choose|k: int| #[trigger]
                    is_choice(
                        was@,
                        was.edge_seq(),
                        DIRESPECT,
                        duped,
                        priority@,
                        marks,
                        s as int,
                        k,
                        was@.inc[s as int].len() as int,
                    ) && was@.inc[s as int][k] == e;
                assert(is_pick(early.last(), DIRESPECT, duped, priority@, s as int, k));
                assert(is_move(early.last(), next, DIRESPECT, duped, priority@, dupe));
                trail = early.push(next);
                lemma_trail_more(early, next, DIRESPECT, duped, priority@, dupe);
            }
        }
    }
}

/// A shape that has grown from a shape that has grown has grown.
pub proof fn lemma_grown_twice(now: Net, mid: Net, then: Net)
    requires
        grown(now, mid),
        grown(mid, then),
    ensures
        grown(now, then),
{
    assert forall|e: int| 0 <= e < then.links.len() implies #[trigger] now.links[e]
        == then.links[e] by {
        assert(mid.links[e] == then.links[e]);
    }
    assert forall|e: int| 0 <= e < then.one_way.len() implies #[trigger] now.one_way[e]
        == then.one_way[e] by {
        assert(mid.one_way[e] == then.one_way[e]);
    }
    assert forall|s: int| 0 <= s < then.ids.len() implies then.inc[s].len() <= (
    #[trigger] now.inc[s]).len() by {
        assert(then.inc[s].len() <= mid.inc[s].len());
    }
    assert forall|s: int, k: int|
        0 <= s < then.ids.len() && 0 <= k < then.inc[s].len() implies #[trigger] now.inc[s][k]
        == then.inc[s][k] by {
        assert(then.inc[s].len() <= mid.inc[s].len());
        assert(mid.inc[s][k] == then.inc[s][k]);
    }
}

/// What was a copy stays one when more edges are added.
pub proof fn lemma_copied_more<E, FD: Fn(&E) -> E>(dupe: FD, was: Seq<E>, now: Seq<E>, m0: int)
    requires
        now.len() == was.len() + 1,
        now.drop_last() == was,
        0 <= m0 <= was.len(),
    ensures
        forall|x: int| 0 <= x < m0 && copied(dupe, was, m0, x) ==> #[trigger] copied(dupe, now, m0, x),
        forall|j: int| m0 <= j < was.len() && made(dupe, was, m0, j) ==> #[trigger] made(dupe, now, m0, j),
{
    assert forall|x: int| 0 <= x < m0 && copied(dupe, was, m0, x) implies #[trigger] copied(
        dupe,
        now,
        m0,
        x,
    ) by {
        let j = choose|j: int| m0 <= j < was.len() && #[trigger] is_copy(dupe, was, x, j);
        assert(now.drop_last()[x] == now[x]);
        assert(now.drop_last()[j] == now[j]);
        assert(is_copy(dupe, now, x, j));
    }
    assert forall|j: int| m0 <= j < was.len() && made(dupe, was, m0, j) implies #[trigger] made(
        dupe,
        now,
        m0,
        j,
    ) by {
        let i = choose|i: int| 0 <= i < m0 && #[trigger] is_copy(dupe, was, i, j);
        assert(now.drop_last()[i] == now[i]);
        assert(now.drop_last()[j] == now[j]);
        assert(is_copy(dupe, now, i, j));
    }
}

/// Whether `duped` has called no edge on the incidence list of slot `s` a
/// duplicate of edge `e`: asked of each in turn, it has said no.
pub open spec fn is_refused<E, FS: Fn(&E, &E) -> bool>(
    net: Net,
    edges: Seq<E>,
    duped: FS,
    s: int,
    e: int,
) -> bool {
    forall|k: int|
        0 <= k < net.inc[s].len() ==> #[trigger] call_ensures(
            duped,
            (&edges[e], &edges[net.inc[s][k] as int]),
            false,
        )
}

/// Whether `origin` names, for each edge from number `m0` on, the edge below
/// `m0` that it is a copy of, and names no edge twice.
pub open spec fn are_origins<E, FD: Fn(&E) -> E>(
    dupe: FD,
    edges: Seq<E>,
    m0: int,
    origin: Seq<int>,
) -> bool {
    &&& origin.len() + m0 == edges.len()
    &&& origin.no_duplicates()
    &&& forall|k: int|
        0 <= k < origin.len() ==> 0 <= #[trigger] origin[k] < m0 && is_copy(
            dupe,
            edges,
            origin[k],
            m0 + k,
        )
}

/// Whether the edges from number `m0` on are copies of edges below `m0`,
/// no two of the same edge.
pub open spec fn has_origins<E, FD: Fn(&E) -> E>(dupe: FD, edges: Seq<E>, m0: int) -> bool {
    exists|origin: Seq<int>| #[trigger] are_origins(dupe, edges, m0, origin)
}

/// Whether nothing is to be done: no node has a single edge, and every node
/// is fit.
pub open spec fn is_quiet(net: Net, direspect: bool) -> bool {
    forall|s: int|
        0 <= s < net.nodes() ==> (#[trigger] net.inc[s]).len() != 1 && net.compatible(direspect, s)
}

/// Whether `s` is the first slot whose node has a single edge.
pub open spec fn is_first_single(net: Net, s: int) -> bool {
    &&& 0 <= s < net.nodes()
    &&& net.inc[s].len() == 1
    &&& forall|t: int| 0 <= t < s ==> (#[trigger] net.inc[t]).len() != 1
}

/// Whether, with directions counting, the first node with a single edge
/// is in slot `s` and that edge is one-way into it: a dead end before
/// anything has been copied.
pub open spec fn is_first_dead_end(net: Net, direspect: bool, s: int) -> bool {
    &&& direspect
    &&& is_first_single(net, s)
    &&& net.one_way[net.inc[s][0] as int]
    &&& net.head(net.inc[s][0] as int) == s
}

/// Whether edge `e` at slot `s` may be copied: it has not been copied, it
/// is no self-loop, it has a priority, `duped` has called no edge at the
/// node a duplicate of it, and, where directions count, it is two-way or
/// evens out the node's one-way edges.
pub open spec fn may_copy<E, FS: Fn(&E, &E) -> bool>(
    net: Net,
    edges: Seq<E>,
    direspect: bool,
    duped: FS,
    priority: Seq<Option<u128>>,
    spent: Seq<bool>,
    s: int,
    e: int,
) -> bool {
    &&& 0 <= e < spent.len()
    &&& !spent[e]
    &&& !net.is_loop(e)
    &&& priority[e] is Some
    &&& is_refused(net, edges, duped, s, e)
    &&& !(direspect && misdirected(net, s, e))
}

/// Whether edge `e` at slot `s` may not be copied: it is a copy, it has
/// been copied, or it is blocked.
pub open spec fn may_not_copy<E, FS: Fn(&E, &E) -> bool>(
    net: Net,
    edges: Seq<E>,
    direspect: bool,
    duped: FS,
    priority: Seq<Option<u128>>,
    spent: Seq<bool>,
    s: int,
    e: int,
) -> bool {
    ||| e >= spent.len()
    ||| spent[e]
    ||| blocked(net, edges, direspect, duped, priority, s, e)
}

/// Whether the edge at place `k` of the incidence list of slot `s` is
/// the one to copy among those at the first `seen` places: it may be
/// copied, and each of the others may not, or has a higher priority, or
/// has the same priority and stands behind it.
pub open spec fn is_choice<E, FS: Fn(&E, &E) -> bool>(
    net: Net,
    edges: Seq<E>,
    direspect: bool,
    duped: FS,
    priority: Seq<Option<u128>>,
    spent: Seq<bool>,
    s: int,
    k: int,
    seen: int,
) -> bool {
    let e = net.inc[s][k] as int;
    &&& 0 <= k < seen <= net.inc[s].len()
    &&& may_copy(net, edges, direspect, duped, priority, spent, s, e)
    &&& forall|j: int|
        0 <= j < seen && j != k ==> {
            let o = #[trigger] net.inc[s][j] as int;
            ||| may_not_copy(net, edges, direspect, duped, priority, spent, s, o)
            ||| 0 <= o < priority.len() && priority[o] is Some && (priority[o]->Some_0
                > priority[e]->Some_0 || (j > k && priority[o]->Some_0 == priority[e]->Some_0))
        }
}

/// Whether edge `e` is the one to copy at slot `s`: of the edges at the
/// node that may be copied, the first with the lowest priority.
pub open spec fn is_chosen<E, FS: Fn(&E, &E) -> bool>(
    net: Net,
    edges: Seq<E>,
    direspect: bool,
    duped: FS,
    priority: Seq<Option<u128>>,
    spent: Seq<bool>,
    s: int,
    e: int,
) -> bool {
    exists|k: int| #[trigger]
        is_choice(
            net,
            edges,
            direspect,
            duped,
            priority,
            spent,
            s,
            k,
            net.inc[s].len() as int,
        ) && net.inc[s][k] == e
}

/// What holds while edges are copied: `now` is the graph `before` with
/// the copies made so far, `spent` marks the edges that have been copied,
/// and `origin` names, for each copy in turn, the edge it was made of.
pub open spec fn copying<N, E: Edge, FD: Fn(&E) -> E>(
    now: Graph<N, E>,
    before: Graph<N, E>,
    dupe: FD,
    spent: Seq<bool>,
    origin: Seq<int>,
) -> bool {
    let m0 = before.edge_seq().len() as int;
    &&& now.wf()
    &&& before.wf()
    &&& spent.len() == m0
    &&& origin.len() + m0 == now.edge_seq().len()
    &&& origin.no_duplicates()
    &&& forall|k: int|
        0 <= k < origin.len() ==> 0 <= #[trigger] origin[k] < m0 && spent[origin[k]] && is_copy(
            dupe,
            now.edge_seq(),
            origin[k],
            m0 + k,
        )
    &&& now.edge_seq().len() == m0 + count_true(spent)
    &&& count_true(spent) <= m0
    &&& now.payloads() == before.payloads()
    &&& grown(now@, before@)
    &&& now.edge_seq().take(m0) == before.edge_seq()
    &&& forall|j: int| m0 <= j < now.edge_seq().len() ==> #[trigger] made(dupe, now.edge_seq(), m0, j)
    &&& forall|x: int| 0 <= x < m0 && #[trigger] spent[x] ==> copied(dupe, now.edge_seq(), m0, x)
}

/// Whether the graph `now` is the graph `was` with what `dupe` makes of
/// its edge `e` added as its last edge.
pub open spec fn is_added<N, E: Edge, FD: Fn(&E) -> E>(
    was: Graph<N, E>,
    now: Graph<N, E>,
    dupe: FD,
    e: int,
) -> bool {
    &&& now.payloads() == was.payloads()
    &&& now.edge_seq().len() == was.edge_seq().len() + 1
    &&& now.edge_seq().drop_last() == was.edge_seq()
    &&& is_copy(dupe, now.edge_seq(), e, was.edge_seq().len() as int)
    &&& now@ == was@.with_edge(was@.tail(e), was@.head(e), was@.one_way[e])
}

/// How far the work has come: the graph as it stands, the edges that have
/// been copied, and the slot of the node to look at next for a single
/// edge; once every node has been looked at, the number of nodes.
pub struct Stage<N, E: Edge> {
    pub graph: Graph<N, E>,
    pub spent: Seq<bool>,
    pub at: int,
}

/// Whether, with directions counting, the node in slot `s` has a single
/// edge and that edge is one-way into it.
pub open spec fn is_dead_end_at(net: Net, direspect: bool, s: int) -> bool {
    &&& direspect
    &&& net.inc[s].len() == 1
    &&& net.one_way[net.inc[s][0] as int]
    &&& net.head(net.inc[s][0] as int) == s
}

/// Whether the node in slot `s` has a single edge that has not been
/// copied.
pub open spec fn has_single_to_copy(net: Net, spent: Seq<bool>, s: int) -> bool {
    &&& net.inc[s].len() == 1
    &&& net.inc[s][0] < spent.len()
    &&& !spent[net.inc[s][0] as int]
}

/// Whether `s` is the first slot whose node has an unfit combined degree.
pub open spec fn is_first_unfit(net: Net, direspect: bool, s: int) -> bool {
    &&& 0 <= s < net.nodes()
    &&& !net.compatible(direspect, s)
    &&& forall|t: int| 0 <= t < s ==> #[trigger] net.compatible(direspect, t)
}

/// Whether, at the stage `was`, the first node with an unfit combined
/// degree is in slot `s`, and the edge to copy there is at place `k` of
/// its incidence list.
pub open spec fn is_pick<N, E: Edge, FS: Fn(&E, &E) -> bool>(
    was: Stage<N, E>,
    direspect: bool,
    duped: FS,
    priority: Seq<Option<u128>>,
    s: int,
    k: int,
) -> bool {
    &&& is_first_unfit(was.graph@, direspect, s)
    &&& is_choice(
        was.graph@,
        was.graph.edge_seq(),
        direspect,
        duped,
        priority,
        was.spent,
        s,
        k,
        was.graph@.inc[s].len() as int,
    )
}

/// Whether the stage `now` is the next after the stage `was`.
///
/// While nodes are looked at for single edges: the node is no dead end;
/// where it has a single edge that has not been copied, that edge is
/// copied, else nothing changes; the next node comes. After that: the
/// first node with an unfit combined degree has the edge copied that is
/// to copy there.
pub open spec fn is_move<N, E: Edge, FS: Fn(&E, &E) -> bool, FD: Fn(&E) -> E>(
    was: Stage<N, E>,
    now: Stage<N, E>,
    direspect: bool,
    duped: FS,
    priority: Seq<Option<u128>>,
    dupe: FD,
) -> bool {
    let net = was.graph@;
    if 0 <= was.at < net.nodes() {
        &&& !is_dead_end_at(net, direspect, was.at)
        &&& now.at == was.at + 1
        &&& if has_single_to_copy(net, was.spent, was.at) {
            let e = net.inc[was.at][0] as int;
            is_added(was.graph, now.graph, dupe, e) && now.spent == was.spent.update(e, true)
        } else {
            now.graph == was.graph && now.spent == was.spent
        }
    } else {
        &&& now.at == was.at
        &&& exists|s: int, k: int| #[trigger]
            is_pick(was, direspect, duped, priority, s, k) && is_added(
                was.graph,
                now.graph,
                dupe,
                net.inc[s][k] as int,
            ) && now.spent == was.spent.update(net.inc[s][k] as int, true)
    }
}

/// Whether the stage at place `k + 1` of `trail` is the next after the
/// stage at place `k`.
pub open spec fn is_hop<N, E: Edge, FS: Fn(&E, &E) -> bool, FD: Fn(&E) -> E>(
    trail: Seq<Stage<N, E>>,
    direspect: bool,
    duped: FS,
    priority: Seq<Option<u128>>,
    dupe: FD,
    k: int,
) -> bool {
    is_move(trail[k], trail[k + 1], direspect, duped, priority, dupe)
}

/// Whether `trail` holds the stages of the work in turn.
pub open spec fn is_trail<N, E: Edge, FS: Fn(&E, &E) -> bool, FD: Fn(&E) -> E>(
    trail: Seq<Stage<N, E>>,
    direspect: bool,
    duped: FS,
    priority: Seq<Option<u128>>,
    dupe: FD,
) -> bool {
    &&& trail.len() > 0
    &&& forall|k: int|
        0 <= k < trail.len() - 1 ==> #[trigger] is_hop(trail, direspect, duped, priority, dupe, k)
}

/// A trail with the stage next after its last is a trail.
pub proof fn lemma_trail_more<N, E: Edge, FS: Fn(&E, &E) -> bool, FD: Fn(&E) -> E>(
    trail: Seq<Stage<N, E>>,
    next: Stage<N, E>,
    direspect: bool,
    duped: FS,
    priority: Seq<Option<u128>>,
    dupe: FD,
)
    requires
        is_trail(trail, direspect, duped, priority, dupe),
        is_move(trail.last(), next, direspect, duped, priority, dupe),
    ensures
        is_trail(trail.push(next), direspect, duped, priority, dupe),
{
    let more = trail.push(next);
    assert forall|k: int| 0 <= k < more.len() - 1 implies #[trigger] is_hop(
        more,
        direspect,
        duped,
        priority,
        dupe,
        k,
    ) by {
        if k < trail.len() - 1 {
            assert(is_hop(trail, direspect, duped, priority, dupe, k));
            assert(more[k] == trail[k]);
            assert(more[k + 1] == trail[k + 1]);
        } else {
            assert(more[k] == trail.last());
            assert(more[k + 1] == next);
        }
    }
}

/// Whether no edge at slot `s` may be copied.
pub open spec fn is_stuck<E, FS: Fn(&E, &E) -> bool>(
    net: Net,
    edges: Seq<E>,
    direspect: bool,
    duped: FS,
    priority: Seq<Option<u128>>,
    spent: Seq<bool>,
    s: int,
) -> bool {
    forall|k: int|
        0 <= k < net.inc[s].len() ==> may_not_copy(
            net,
            edges,
            direspect,
            duped,
            priority,
            spent,
            s,
            #[trigger] net.inc[s][k] as int,
        )
}

/// Whether the work ends at the stage `last` on `r`: on a dead end at the
/// node looked at; once every node has been looked at, on a node with an
/// unfit combined degree, the first such, at which no edge may be copied;
/// or well, with no such node left.
pub open spec fn is_ending<N, E: Edge, FS: Fn(&E, &E) -> bool>(
    last: Stage<N, E>,
    direspect: bool,
    duped: FS,
    priority: Seq<Option<u128>>,
    r: Result<(), Obstacle>,
) -> bool {
    let net = last.graph@;
    match r {
        Ok(()) => last.at == net.nodes() && forall|s: int|
            0 <= s < net.nodes() ==> #[trigger] net.compatible(direspect, s),
        Err(Obstacle::DeadEnd(e)) => 0 <= last.at < net.nodes() && is_dead_end_at(
            net,
            direspect,
            last.at,
        ) && e == net.inc[last.at][0],
        Err(Obstacle::Stuck(id)) => last.at == net.nodes() && net.has(id) && is_first_unfit(
            net,
            direspect,
            net.slot(id),
        ) && is_stuck(
            net,
            last.graph.edge_seq(),
            direspect,
            duped,
            priority,
            last.spent,
            net.slot(id),
        ),
    }
}

/// Whether `trail` holds the stages of the work from the graph `before`,
/// of which nothing has been copied, to the graph `after`, where it ends
/// on `r`.
pub open spec fn is_fit_run<N, E: Edge, FS: Fn(&E, &E) -> bool, FD: Fn(&E) -> E>(
    trail: Seq<Stage<N, E>>,
    before: Graph<N, E>,
    after: Graph<N, E>,
    direspect: bool,
    duped: FS,
    priority: Seq<Option<u128>>,
    dupe: FD,
    r: Result<(), Obstacle>,
) -> bool {
    &&& is_trail(trail, direspect, duped, priority, dupe)
    &&& trail[0] == (Stage {
        graph: before,
        spent: Seq::new(before.edge_seq().len(), |x: int| false),
        at: 0,
    })
    &&& trail.last().graph == after
    &&& is_ending(trail.last(), direspect, duped, priority, r)
}

/// Whether the graph `after` and the result `r` are what the graph
/// `before` is brought to, stage by stage: each node in turn is looked at
/// for a single edge, which is copied; then, as long as a node has an
/// unfit combined degree, the first such node has copied, of its edges
/// that may be copied, the first with the lowest priority.
pub open spec fn is_fit<N, E: Edge, FS: Fn(&E, &E) -> bool, FD: Fn(&E) -> E>(
    before: Graph<N, E>,
    after: Graph<N, E>,
    direspect: bool,
    duped: FS,
    priority: Seq<Option<u128>>,
    dupe: FD,
    r: Result<(), Obstacle>,
) -> bool {
    exists|trail: Seq<Stage<N, E>>| #[trigger]
        is_fit_run(trail, before, after, direspect, duped, priority, dupe, r)
}

/// The edges that `spent` marks.
pub open spec fn marked(spent: Seq<bool>) -> spec_fn(usize) -> bool {
    |e: usize| e < spent.len() && spent[e as int]
}

/// Two ways of counting that agree on every item of a list count the same
/// number of its items.
pub proof fn lemma_count_agree(list: Seq<usize>, f: spec_fn(usize) -> bool, g: spec_fn(usize) -> bool)
    requires
        forall|k: int| 0 <= k < list.len() ==> f(#[trigger] list[k]) == g(list[k]),
    ensures
        count_of(list, f) == count_of(list, g),
    decreases list.len(),
{
    if list.len() > 0 {
        assert forall|k: int| 0 <= k < list.drop_last().len() implies f(
            #[trigger] list.drop_last()[k],
        ) == g(list.drop_last()[k]) by {
            assert(list.drop_last()[k] == list[k]);
        }
        lemma_count_agree(list.drop_last(), f, g);
        assert(f(list[list.len() - 1]) == g(list[list.len() - 1]));
    }
}

/// A way of counting that takes one item more than another, an item that
/// the list holds once, counts one more.
pub proof fn lemma_count_one_more(
    list: Seq<usize>,
    f: spec_fn(usize) -> bool,
    g: spec_fn(usize) -> bool,
    x: usize,
)
    requires
        list.no_duplicates(),
        list.contains(x),
        !f(x),
        g(x),
        forall|k: int| 0 <= k < list.len() && list[k] != x ==> f(#[trigger] list[k]) == g(list[k]),
    ensures
        count_of(list, g) == count_of(list, f) + 1,
    decreases list.len(),
{
    let k = choose|k: int| 0 <= k < list.len() && list[k] == x;
    let front = list.drop_last();
    if list.last() == x {
        assert forall|j: int| 0 <= j < front.len() implies f(#[trigger] front[j]) == g(front[j]) by {
            assert(front[j] == list[j]);
            assert(list[j] != list[list.len() - 1]);
        }
        lemma_count_agree(front, f, g);
    } else {
        assert(front[k] == x);
        assert forall|j: int| 0 <= j < front.len() && front[j] != x implies f(#[trigger] front[j])
            == g(front[j]) by {
            assert(front[j] == list[j]);
        }
        assert(f(list[list.len() - 1]) == g(list[list.len() - 1]));
        assert(front.no_duplicates()) by {
            assert forall|i: int, j: int| 0 <= i < front.len() && 0 <= j < front.len() && i
                != j implies front[i] != front[j] by {
                assert(front[i] == list[i] && front[j] == list[j]);
            }
        }
        lemma_count_one_more(front, f, g, x);
    }
}

/// Where fewer items are counted than the list holds, one of them is not
/// counted.
pub proof fn lemma_count_short(list: Seq<usize>, f: spec_fn(usize) -> bool) -> (k: int)
    requires
        count_of(list, f) < list.len(),
    ensures
        0 <= k < list.len(),
        !f(list[k]),
    decreases list.len(),
{
    if f(list.last()) {
        let k = lemma_count_short(list.drop_last(), f);
        assert(list.drop_last()[k] == list[k]);
        k
    } else {
        list.len() - 1
    }
}

/// Whether `duped` calls no edge of `edges` a duplicate of an edge of
/// `edges`, nor of what `dupe` makes of another edge of `edges`.
pub open spec fn are_apart<E, FS: Fn(&E, &E) -> bool, FD: Fn(&E) -> E>(
    edges: Seq<E>,
    duped: FS,
    dupe: FD,
) -> bool {
    &&& forall|i: int, j: int|
        0 <= i < edges.len() && 0 <= j < edges.len() ==> !#[trigger] call_ensures(
            duped,
            (&edges[i], &edges[j]),
            true,
        )
    &&& forall|i: int, j: int, c: E|
        0 <= i < edges.len() && 0 <= j < edges.len() && i != j && #[trigger] call_ensures(
            dupe,
            (&edges[j],),
            c,
        ) ==> !#[trigger] call_ensures(duped, (&edges[i], &c), true)
}

/// Whether the graph has no self-loop, each of its edges has a priority,
/// and `duped` calls none of them a duplicate of another, nor of what
/// `dupe` makes of another.
pub open spec fn is_plain<N, E: Edge, FS: Fn(&E, &E) -> bool, FD: Fn(&E) -> E>(
    g: Graph<N, E>,
    duped: FS,
    priority: Seq<Option<u128>>,
    dupe: FD,
) -> bool {
    &&& forall|e: int| 0 <= e < g.edge_seq().len() ==> !#[trigger] g@.is_loop(e)
    &&& forall|e: int| 0 <= e < priority.len() ==> (#[trigger] priority[e]) is Some
    &&& are_apart(g.edge_seq(), duped, dupe)
}

/// Whether edge `j` is a copy of an edge below number `spent.len()` that
/// is marked as copied.
pub open spec fn has_spent_origin<E, FD: Fn(&E) -> E>(
    dupe: FD,
    edges: Seq<E>,
    spent: Seq<bool>,
    j: int,
) -> bool {
    exists|o: int| 0 <= o < spent.len() && spent[o] && #[trigger] is_copy(dupe, edges, o, j)
}

/// Whether the incidence list of slot `s` is its list in the shape `then`
/// with one copy behind it for each of its edges marked as copied.
pub open spec fn is_tallied_at(then: Net, now: Net, spent: Seq<bool>, s: int) -> bool {
    &&& then.inc[s].len() <= now.inc[s].len()
    &&& forall|k: int| 0 <= k < then.inc[s].len() ==> #[trigger] now.inc[s][k] == then.inc[s][k]
    &&& forall|k: int|
        then.inc[s].len() <= k < now.inc[s].len() ==> then.links.len() <= (#[trigger] now.inc[s][k])
            < now.links.len()
    &&& now.inc[s].len() - then.inc[s].len() == count_of(then.inc[s], marked(spent))
}

/// Whether the stage `stage` holds the graph `before` with one copy for
/// each edge marked as copied.
pub open spec fn is_tallied<N, E: Edge, FD: Fn(&E) -> E>(
    before: Graph<N, E>,
    stage: Stage<N, E>,
    dupe: FD,
) -> bool {
    let m0 = before.edge_seq().len() as int;
    let then = before@;
    let now = stage.graph@;
    let edges = stage.graph.edge_seq();
    &&& stage.spent.len() == m0
    &&& now.ids == then.ids
    &&& now.inc.len() == then.inc.len()
    &&& now.links.len() == edges.len()
    &&& m0 <= edges.len()
    &&& edges.take(m0) == before.edge_seq()
    &&& forall|e: int| 0 <= e < m0 ==> #[trigger] now.links[e] == then.links[e]
    &&& forall|j: int| m0 <= j < edges.len() ==> #[trigger] has_spent_origin(dupe, edges, stage.spent, j)
    &&& forall|s: int| 0 <= s < then.inc.len() ==> #[trigger] is_tallied_at(then, now, stage.spent, s)
}

/// A stage that holds one copy for each edge copied still does so once
/// an edge without a copy, no self-loop, has been copied.
pub proof fn lemma_tally_step<N, E: Edge, FD: Fn(&E) -> E>(
    before: Graph<N, E>,
    was: Stage<N, E>,
    now: Stage<N, E>,
    dupe: FD,
    e: int,
)
    requires
        before.wf(),
        is_tallied(before, was, dupe),
        0 <= e < before.edge_seq().len(),
        !before@.is_loop(e),
        !was.spent[e],
        is_added(was.graph, now.graph, dupe, e),
        now.spent == was.spent.update(e, true),
    ensures
        is_tallied(before, now, dupe),
{
    let m0 = before.edge_seq().len() as int;
    let then = before@;
    let mid = was.graph@;
    let net = now.graph@;
    let edges = now.graph.edge_seq();
    let u = then.tail(e);
    let v = then.head(e);
    assert(mid.links[e] == then.links[e]);
    assert(edges.drop_last() == was.graph.edge_seq());
    assert(edges.take(m0) =~= before.edge_seq()) by {
        assert(was.graph.edge_seq().take(m0) == before.edge_seq());
        assert forall|i: int| 0 <= i < m0 implies edges.take(m0)[i] == before.edge_seq()[i] by {
            assert(edges.drop_last()[i] == edges[i]);
            assert(was.graph.edge_seq().take(m0)[i] == was.graph.edge_seq()[i]);
        }
    }
    assert forall|j: int| m0 <= j < edges.len() implies #[trigger] has_spent_origin(
        dupe,
        edges,
        now.spent,
        j,
    ) by {
        if j < edges.len() - 1 {
            assert(has_spent_origin(dupe, was.graph.edge_seq(), was.spent, j));
            let o = choose|o: int|
                0 <= o < was.spent.len() && was.spent[o] && #[trigger] is_copy(
                    dupe,
                    was.graph.edge_seq(),
                    o,
                    j,
                );
            assert(edges.drop_last()[o] == edges[o]);
            assert(edges.drop_last()[j] == edges[j]);
            assert(is_copy(dupe, edges, o, j));
        } else {
            assert(is_copy(dupe, edges, e, j));
        }
    }
    before.lemma_edges_counted();
    was.graph.lemma_edges_counted();
    assert(then.links.len() == m0);
    assert forall|s: int| 0 <= s < then.inc.len() implies #[trigger] is_tallied_at(
        then,
        net,
        now.spent,
        s,
    ) by {
        assert(is_tallied_at(then, mid, was.spent, s));
        lemma_tally_at(then, mid, was.spent, e, mid.one_way[e], s);
    }
}

/// The incidence list of a slot that holds one copy for each of its
/// edges copied still does so once an edge without a copy, no self-loop,
/// has been copied.
pub proof fn lemma_tally_at(then: Net, mid: Net, spent: Seq<bool>, e: int, one_way: bool, s: int)
    requires
        then.wf(),
        0 <= s < then.inc.len(),
        0 <= e < then.links.len(),
        then.links.len() <= mid.links.len() <= usize::MAX,
        mid.inc.len() == then.inc.len(),
        !then.is_loop(e),
        spent.len() == then.links.len(),
        !spent[e],
        is_tallied_at(then, mid, spent, s),
    ensures
        is_tallied_at(
            then,
            mid.with_edge(then.tail(e), then.head(e), one_way),
            spent.update(e, true),
            s,
        ),
{
    let net = mid.with_edge(then.tail(e), then.head(e), one_way);
    let marks = spent.update(e, true);
    let list = then.inc[s];
    let x = e as usize;
    assert(then.tail(e) == then.tail(x as int));
    assert(!marked(spent)(x));
    assert(marked(marks)(x));
    if s == then.tail(e) || s == then.head(e) {
        assert(net.inc[s] == mid.inc[s].push(mid.links.len() as usize));
        assert(list.contains(x));
        assert(list.no_duplicates());
        assert forall|k: int| 0 <= k < list.len() && list[k] != x implies marked(spent)(
            #[trigger] list[k],
        ) == marked(marks)(list[k]) by {}
        lemma_count_one_more(list, marked(spent), marked(marks), x);
        assert forall|k: int| 0 <= k < list.len() implies #[trigger] net.inc[s][k] == list[k] by {
            assert(mid.inc[s][k] == list[k]);
        }
    } else {
        assert(net.inc[s] == mid.inc[s]);
        assert forall|k: int| 0 <= k < list.len() implies marked(spent)(#[trigger] list[k])
            == marked(marks)(list[k]) by {
            assert(then.touches(list[k] as int, s));
        }
        lemma_count_agree(list, marked(spent), marked(marks));
    }
}

/// Every stage of the work on a graph without self-loops holds the graph
/// with one copy for each edge copied.
pub proof fn lemma_tallied<N, E: Edge, FS: Fn(&E, &E) -> bool, FD: Fn(&E) -> E>(
    before: Graph<N, E>,
    trail: Seq<Stage<N, E>>,
    direspect: bool,
    duped: FS,
    priority: Seq<Option<u128>>,
    dupe: FD,
    k: int,
)
    requires
        before.wf(),
        is_trail(trail, direspect, duped, priority, dupe),
        trail[0] == (Stage {
            graph: before,
            spent: Seq::new(before.edge_seq().len(), |x: int| false),
            at: 0,
        }),
        forall|e: int| 0 <= e < before.edge_seq().len() ==> !#[trigger] before@.is_loop(e),
        0 <= k < trail.len(),
    ensures
        is_tallied(before, trail[k], dupe),
    decreases k,
{
    let m0 = before.edge_seq().len() as int;
    if k == 0 {
        let none = Seq::new(before.edge_seq().len(), |x: int| false);
        assert(before.edge_seq().take(m0) =~= before.edge_seq());
        assert forall|s: int| 0 <= s < before@.inc.len() implies #[trigger] is_tallied_at(
            before@,
            before@,
            none,
            s,
        ) by {
            lemma_count_agree(before@.inc[s], marked(none), |e: usize| false);
            lemma_count_nothing(before@.inc[s]);
        }
    } else {
        lemma_tallied(before, trail, direspect, duped, priority, dupe, k - 1);
        let was = trail[k - 1];
        let now = trail[k];
        assert(is_hop(trail, direspect, duped, priority, dupe, k - 1));
        let net = was.graph@;
        if 0 <= was.at < net.nodes() {
            if has_single_to_copy(net, was.spent, was.at) {
                let e = net.inc[was.at][0] as int;
                lemma_tally_step(before, was, now, dupe, e);
            }
        } else {
            let (s, j) = choose|s: int, j: int| #[trigger]
                is_pick(was, direspect, duped, priority, s, j) && is_added(
                    was.graph,
                    now.graph,
                    dupe,
                    net.inc[s][j] as int,
                ) && now.spent == was.spent.update(net.inc[s][j] as int, true);
            lemma_tally_step(before, was, now, dupe, net.inc[s][j] as int);
        }
    }
}

/// Nothing is counted where nothing counts.
pub proof fn lemma_count_nothing(list: Seq<usize>)
    ensures
        count_of(list, |e: usize| false) == 0,
    decreases list.len(),
{
    if list.len() > 0 {
        lemma_count_nothing(list.drop_last());
    }
}

/// Where directions do not count, the work ends well on a graph without
/// self-loops whose edges all have a priority and in which `duped` calls
/// no edge a duplicate of another, nor of a copy of another: every node
/// with an odd number of edges then has an edge that may be copied.
pub proof fn lemma_fit_succeeds<N, E: Edge, FS: Fn(&E, &E) -> bool, FD: Fn(&E) -> E>(
    before: Graph<N, E>,
    after: Graph<N, E>,
    duped: FS,
    priority: Seq<Option<u128>>,
    dupe: FD,
    r: Result<(), Obstacle>,
)
    requires
        before.wf(),
        priority.len() == before.edge_seq().len(),
        is_fit(before, after, false, duped, priority, dupe, r),
        is_plain(before, duped, priority, dupe),
    ensures
        r is Ok,
{
    let trail = choose|trail: Seq<Stage<N, E>>| #[trigger]
        is_fit_run(trail, before, after, false, duped, priority, dupe, r);
    let last = trail.last();
    lemma_tallied(before, trail, false, duped, priority, dupe, trail.len() - 1);
    let m0 = before.edge_seq().len() as int;
    let then = before@;
    let net = last.graph@;
    let edges = last.graph.edge_seq();
    match r {
        Ok(()) => {},
        Err(Obstacle::DeadEnd(_)) => {},
        Err(Obstacle::Stuck(id)) => {
            let s = net.slot(id);
            assert(is_tallied_at(then, net, last.spent, s));
            let list = then.inc[s];
            lemma_count_of_bound(list, marked(last.spent));
            let k = lemma_count_short(list, marked(last.spent));
            let e = list[k] as int;
            assert(net.inc[s][k] == list[k]);
            assert(0 <= e < m0);
            assert(then.touches(e, s));
            assert(net.links[e] == then.links[e]);
            assert(!then.is_loop(e));
            assert(priority[e] is Some);
            assert(edges[e] == before.edge_seq()[e]) by {
                assert(edges.take(m0)[e] == edges[e]);
            }
            assert(may_not_copy(net, edges, false, duped, priority, last.spent, s, net.inc[s][k] as int));
            assert(has_partner(net, edges, duped, s, e));
            let j = choose|j: int|
                0 <= j < net.inc[s].len() && #[trigger] call_ensures(
                    duped,
                    (&edges[e], &edges[net.inc[s][j] as int]),
                    true,
                );
            let x = net.inc[s][j] as int;
            if j < list.len() {
                assert(net.inc[s][j] == list[j]);
                assert(0 <= x < m0);
                assert(edges[x] == before.edge_seq()[x]) by {
                    assert(edges.take(m0)[x] == edges[x]);
                }
                assert(!call_ensures(duped, (&before.edge_seq()[e], &before.edge_seq()[x]), true));
            } else {
                assert(m0 <= x < edges.len());
                assert(has_spent_origin(dupe, edges, last.spent, x));
                let o = choose|o: int|
                    0 <= o < last.spent.len() && last.spent[o] && #[trigger] is_copy(dupe, edges, o, x);
                assert(edges[o] == before.edge_seq()[o]) by {
                    assert(edges.take(m0)[o] == edges[o]);
                }
                assert(o != e);
                assert(call_ensures(dupe, (&before.edge_seq()[o],), edges[x]));
                assert(!call_ensures(duped, (&before.edge_seq()[e], &edges[x]), true));
            }
        },
    }
}

} // verus!
