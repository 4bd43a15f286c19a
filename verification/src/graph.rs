//! A mixed multigraph with parallel edges.
//!
//! Nodes are named by `u64` identifiers and kept in insertion order; the
//! position of a node in that order is its slot. Edges live in an arena and
//! are named by their position in it, so that two parallel edges are two
//! different edges whatever they hold.

use crate::edge::Edge;
use crate::edge::other_end;
use crate::net::{count_of, lemma_count_of_bound, Net};
use crate::node_index::{table_entries, table_get, table_get_index, table_insert, table_new};
use indexmap::IndexMap;
use vstd::prelude::*;

verus! {

/// A mixed multigraph with payloads on its nodes.
#[derive(Debug)]
pub struct Graph<N, E: Edge> {
    pub(crate) index: IndexMap<u64, usize>,
    pub(crate) nodes: Vec<N>,
    pub(crate) incidence: Vec<Vec<usize>>,
    pub(crate) edges: Vec<E>,
    pub(crate) ends: Vec<(usize, usize)>,
}

impl<N, E: Edge> View for Graph<N, E> {
    type V = Net;

    open(crate) spec fn view(&self) -> Net {
        Net {
            ids: Seq::new(table_entries(self.index).len(), |i: int| table_entries(self.index)[i].0),
            inc: Seq::new(self.incidence@.len(), |s: int| self.incidence@[s]@),
            links: self.ends@,
            one_way: Seq::new(self.edges@.len(), |e: int| self.edges@[e].directed_spec()),
        }
    }
}

impl<N, E: Edge> Graph<N, E> {
    /// The node payloads, by slot.
    pub open(crate) spec fn payloads(&self) -> Seq<N> {
        self.nodes@
    }

    /// The edges, by edge number.
    pub open(crate) spec fn edge_seq(&self) -> Seq<E> {
        self.edges@
    }

    /// The edges of a graph can be counted.
    pub proof fn lemma_edges_counted(&self)
        ensures
            self.edge_seq().len() <= usize::MAX,
    {
        assert(self.edges@.len() == self.edges.len());
    }

    /// The graph's invariant: its shape is well formed, every node has a
    /// payload, and the endpoints that the shape gives an edge are the
    /// nodes that the edge names.
    pub open(crate) spec fn wf(&self) -> bool {
        let entries = table_entries(self.index);
        &&& self@.wf()
        &&& entries.len() == self.nodes@.len()
        &&& entries.len() == self.incidence@.len()
        &&& self.ends@.len() == self.edges@.len()
        &&& forall|i: int| 0 <= i < entries.len() ==> (#[trigger] entries[i]).1 == i
        &&& forall|e: int|
            0 <= e < self.edges@.len() ==> {
                &&& self@.ids[self@.tail(e)] == (#[trigger] self.edges@[e]).p1_spec()
                &&& self@.ids[self@.head(e)] == self.edges@[e].p2_spec()
            }
    }

    /// An empty graph.
    pub fn new() -> (g: Self)
        ensures
            g.wf(),
            g@.nodes() == 0,
            g@.edges() == 0,
    {
        Graph {
            index: table_new(),
            nodes: Vec::new(),
            incidence: Vec::new(),
            edges: Vec::new(),
            ends: Vec::new(),
        }
    }

    /// The slot of node `id`, if the graph has that node.
    pub fn slot_of(&self, id: u64) -> (r: Option<usize>)
        requires
            self.wf(),
        ensures
            r is Some <==> self@.has(id),
            r is Some ==> r->0 == self@.slot(id) && r->0 < self@.nodes(),
    {
        let r = table_get(&self.index, id);
        proof {
            let entries = table_entries(self.index);
            match r {
                Some(v) => {
                    let i = choose|i: int| 0 <= i < entries.len() && #[trigger] entries[i] == (id, v);
                    assert(self@.ids[i] == id);
                    assert(v == i);
                    let s = self@.slot(id);
                    assert(self@.ids[s] == id);
                },
                None => {
                    if self@.has(id) {
                        let s = self@.slot(id);
                        assert(entries[s].0 == id);
                    }
                },
            }
        }
        r
    }

    /// The identifier of the node in slot `s`.
    pub fn id_of(&self, s: usize) -> (r: u64)
        requires
            self.wf(),
            s < self@.nodes(),
        ensures
            r == self@.ids[s as int],
            self@.has(r),
            self@.slot(r) == s,
    {
        let r = table_get_index(&self.index, s);
        proof {
            crate::net::lemma_slot_unique(self@, s as int);
        }
        match r {
            Some((id, _)) => id,
            None => 0,
        }
    }

    /// The payload of node `n`.
    pub fn get_node(&self, n: u64) -> (r: Option<&N>)
        requires
            self.wf(),
        ensures
            r is Some <==> self@.has(n),
            r is Some ==> *r->0 == self.payloads()[self@.slot(n)],
    {
        match self.slot_of(n) {
            Some(s) => Some(&self.nodes[s]),
            None => None,
        }
    }

    /// The numbers of the edges incident on node `n`.
    pub fn get_edges(&self, n: u64) -> (r: Option<&Vec<usize>>)
        requires
            self.wf(),
        ensures
            r is Some <==> self@.has(n),
            r is Some ==> r->0@ == self@.inc[self@.slot(n)],
    {
        match self.slot_of(n) {
            Some(s) => Some(&self.incidence[s]),
            None => None,
        }
    }

    /// The edge with number `e`.
    pub fn edge(&self, e: usize) -> (r: &E)
        requires
            self.wf(),
            e < self@.edges(),
        ensures
            *r == self.edge_seq()[e as int],
    {
        &self.edges[e]
    }

    /// The number of nodes.
    pub fn node_count(&self) -> (r: usize)
        requires
            self.wf(),
        ensures
            r == self@.nodes(),
    {
        self.nodes.len()
    }

    /// The number of edges; a self-loop is one edge.
    pub fn edge_count(&self) -> (r: usize)
        requires
            self.wf(),
        ensures
            r == self@.edges(),
    {
        self.edges.len()
    }

    /// Whether the graph has no node.
    pub fn is_empty(&self) -> (r: bool)
        requires
            self.wf(),
        ensures
            r == (self@.nodes() == 0),
    {
        self.nodes.len() == 0
    }

    /// Whether the graph has no edge.
    pub fn is_edge_empty(&self) -> (r: bool)
        requires
            self.wf(),
        ensures
            r == (self@.edges() == 0),
    {
        self.edges.len() == 0
    }

    /// The numbers of the edges at `n1` whose other end is `n2`, in the
    /// order of the incidence list of `n1`.
    pub fn get_edges_between(&self, n1: u64, n2: u64) -> (r: Vec<usize>)
        requires
            self.wf(),
        ensures
            !self@.has(n1) ==> r@.len() == 0,
            self@.has(n1) ==> r@ == self@.inc[self@.slot(n1)].filter(
                |e: usize|
                    other_end(
                        self.edge_seq()[e as int].p1_spec(),
                        self.edge_seq()[e as int].p2_spec(),
                        n1,
                    ) == n2,
            ),
    {
        let mut r: Vec<usize> = Vec::new();
        let s = match self.slot_of(n1) {
            Some(s) => s,
            None => { return r; },
        };
        let ghost wanted = |e: usize|
            other_end(
                self.edge_seq()[e as int].p1_spec(),
                self.edge_seq()[e as int].p2_spec(),
                n1,
            ) == n2;
        let ghost list = self@.inc[s as int];
        let deg = self.incidence[s].len();
        let mut k: usize = 0;
        while k < deg
            invariant
                self.wf(),
                s < self@.nodes(),
                list == self@.inc[s as int],
                deg == list.len(),
                k <= deg,
                wanted == |e: usize|
                    other_end(
                        self.edge_seq()[e as int].p1_spec(),
                        self.edge_seq()[e as int].p2_spec(),
                        n1,
                    ) == n2,
                r@ == list.take(k as int).filter(wanted),
            decreases deg - k,
        {
            let e = self.incidence[s][k];
            assert(list[k as int] == e);
            assert(e < self@.edges());
            proof {
                assert(list.take(k as int + 1) == list.take(k as int).push(e));
                list.take(k as int).lemma_filter_push(e, wanted);
            }
            if self.edges[e].other(n1) == n2 {
                r.push(e);
            }
            k = k + 1;
        }
        assert(list.take(deg as int) == list);
        r
    }

    /// The combined degree of node `n`; 0 for a node that the graph lacks.
    pub fn degree<const DIRESPECT: bool>(&self, n: u64) -> (r: i128)
        requires
            self.wf(),
        ensures
            r == if self@.has(n) {
                self@.degree(DIRESPECT, self@.slot(n))
            } else {
                0
            },
            -usize::MAX <= r <= usize::MAX,
    {
        match self.slot_of(n) {
            Some(s) => self.degree_at(DIRESPECT, s),
            None => 0,
        }
    }

    /// The combined degree of the node in slot `s`.
    pub(crate) fn degree_at(&self, direspect: bool, s: usize) -> (r: i128)
        requires
            self.wf(),
            s < self@.nodes(),
        ensures
            r == self@.degree(direspect, s as int),
            -usize::MAX <= r <= usize::MAX,
    {
        let deg = self.incidence[s].len();
        if !direspect {
            return deg as i128;
        }
        let ghost net = self@;
        let ghost list = net.inc[s as int];
        let ghost leaves = |e: usize| net.one_way[e as int] && net.tail(e as int) == s;
        let ghost arrives = |e: usize| net.one_way[e as int] && net.head(e as int) == s;
        let ghost free = |e: usize| !net.one_way[e as int] && !net.is_loop(e as int);
        let mut o: usize = 0;
        let mut i: usize = 0;
        let mut u: usize = 0;
        let mut k: usize = 0;
        while k < deg
            invariant
                self.wf(),
                net == self@,
                s < net.nodes(),
                list == net.inc[s as int],
                deg == list.len(),
                k <= deg,
                leaves == |e: usize| net.one_way[e as int] && net.tail(e as int) == s,
                arrives == |e: usize| net.one_way[e as int] && net.head(e as int) == s,
                free == |e: usize| !net.one_way[e as int] && !net.is_loop(e as int),
                o == count_of(list.take(k as int), leaves),
                i == count_of(list.take(k as int), arrives),
                u == count_of(list.take(k as int), free),
            decreases deg - k,
        {
            let e = self.incidence[s][k];
            assert(list[k as int] == e);
            assert(e < net.edges());
            proof {
                assert(list.take(k as int + 1).drop_last() == list.take(k as int));
                lemma_count_of_bound(list.take(k as int + 1), leaves);
                lemma_count_of_bound(list.take(k as int + 1), arrives);
                lemma_count_of_bound(list.take(k as int + 1), free);
            }
            let (t, h) = self.ends[e];
            if self.edges[e].directed() {
                if t == s {
                    o = o + 1;
                }
                if h == s {
                    i = i + 1;
                }
            } else if t != h {
                u = u + 1;
            }
            k = k + 1;
        }
        assert(list.take(deg as int) == list);
        let gap = if o >= i {
            o - i
        } else {
            i - o
        };
        u as i128 - gap as i128
    }

    /// Whether node `n` does not keep the graph from having a closed walk
    /// over all its edges.
    pub fn eulirian_compatible<const DIRESPECT: bool>(&self, n: u64) -> (r: bool)
        requires
            self.wf(),
        ensures
            r == if self@.has(n) {
                self@.compatible(DIRESPECT, self@.slot(n))
            } else {
                true
            },
    {
        let d = self.degree::<DIRESPECT>(n);
        let even = if d >= 0 {
            d % 2 == 0
        } else {
            (-d) % 2 == 0
        };
        even && (!DIRESPECT || d >= 0)
    }

    /// The nodes that a path visits from `n` on, each but the first with
    /// the edge that led to it.
    pub fn path_to_nodes(&self, path: &Vec<usize>, n: u64) -> (r: Vec<(u64, Option<usize>)>)
        requires
            self.wf(),
            forall|i: int| 0 <= i < path.len() ==> (#[trigger] path[i]) < self@.edges(),
        ensures
            r.len() == path.len() + 1,
            r[0] == (n, None::<usize>),
            forall|i: int|
                0 <= i < path.len() ==> (#[trigger] r[i + 1]) == (
                    other_end(
                        self.edge_seq()[path[i] as int].p1_spec(),
                        self.edge_seq()[path[i] as int].p2_spec(),
                        r[i].0,
                    ),
                    Some(path[i]),
                ),
    {
        let mut r: Vec<(u64, Option<usize>)> = Vec::new();
        r.push((n, None));
        let mut at = n;
        let mut i: usize = 0;
        while i < path.len()
            invariant
                self.wf(),
                forall|j: int| 0 <= j < path.len() ==> (#[trigger] path[j]) < self@.edges(),
                i <= path.len(),
                r.len() == i + 1,
                r[0] == (n, None::<usize>),
                at == r[i as int].0,
                forall|j: int|
                    0 <= j < i ==> (#[trigger] r[j + 1]) == (
                        other_end(
                            self.edge_seq()[path[j] as int].p1_spec(),
                            self.edge_seq()[path[j] as int].p2_spec(),
                            r[j].0,
                        ),
                        Some(path[j]),
                    ),
            decreases path.len() - i,
        {
            let e = path[i];
            at = self.edges[e].other(at);
            r.push((at, Some(e)));
            i = i + 1;
        }
        r
    }

    /// Adds a node, or replaces the payload of the node that has the
    /// identifier already; the payload that was replaced comes back.
    pub fn add_node(&mut self, id: u64, n: N) -> (r: Option<N>)
        requires
            old(self).wf(),
        ensures
            final(self).wf(),
            final(self).edge_seq() == old(self).edge_seq(),
            match r {
                Some(p) => {
                    &&& old(self)@.has(id)
                    &&& p == old(self).payloads()[old(self)@.slot(id)]
                    &&& final(self)@ == old(self)@
                    &&& final(self).payloads() == old(self).payloads().update(
                        old(self)@.slot(id),
                        n,
                    )
                },
                None => {
                    &&& !old(self)@.has(id)
                    &&& final(self)@ == (Net {
                        ids: old(self)@.ids.push(id),
                        inc: old(self)@.inc.push(Seq::empty()),
                        ..old(self)@
                    })
                    &&& final(self).payloads() == old(self).payloads().push(n)
                },
            },
    {
        let ghost before = *self;
        match self.slot_of(id) {
            Some(s) => {
                self.nodes.push(n);
                let p = self.nodes.swap_remove(s);
                proof {
                    assert(self.nodes@ =~= before.nodes@.update(s as int, n));
                    assert(self@.ids =~= before@.ids);
                    assert(self@.inc =~= before@.inc);
                    assert(self@.one_way =~= before@.one_way);
                }
                Some(p)
            },
            None => {
                let s = self.nodes.len();
                let shown = table_insert(&mut self.index, id, s);
                proof {
                    let entries = table_entries(before.index);
                    if shown is Some {
                        let i = choose|i: int|
                            0 <= i < entries.len() && #[trigger] entries[i] == (id, shown->0);
                        assert(before@.ids[i] == id);
                    }
                }
                self.nodes.push(n);
                self.incidence.push(Vec::new());
                proof {
                    let net = Net {
                        ids: before@.ids.push(id),
                        inc: before@.inc.push(Seq::empty()),
                        ..before@
                    };
                    assert(self@.ids =~= net.ids);
                    assert(self@.inc =~= net.inc);
                    assert(self@.one_way =~= net.one_way);
                    assert(self@ == net);
                    let entries = table_entries(self.index);
                    assert forall|i: int| 0 <= i < entries.len() implies (#[trigger] entries[i]).1
                        == i by {
                        if i < s {
                            assert(table_entries(before.index)[i].1 == i);
                        }
                    }
                    assert forall|i: int, j: int|
                        0 <= i < net.ids.len() && 0 <= j < net.ids.len() && i != j implies net.ids[i]
                        != net.ids[j] by {
                        if i == s {
                            assert(before@.ids[j] == net.ids[j]);
                        } else if j == s {
                            assert(before@.ids[i] == net.ids[i]);
                        }
                    }
                    assert forall|e: int| 0 <= e < net.links.len() implies {
                        &&& 0 <= #[trigger] net.tail(e) < net.ids.len()
                        &&& 0 <= net.head(e) < net.ids.len()
                        &&& net.inc[net.tail(e)].contains(e as usize)
                        &&& net.inc[net.head(e)].contains(e as usize)
                    } by {
                        assert(before@.tail(e) == net.tail(e));
                    }
                    assert forall|t: int, k: int|
                        0 <= t < net.ids.len() && 0 <= k < net.inc[t].len() implies {
                        &&& (#[trigger] net.inc[t][k]) < net.links.len()
                        &&& net.touches(net.inc[t][k] as int, t)
                    } by {
                        assert(t < s);
                        assert(before@.touches(before@.inc[t][k] as int, t));
                    }
                    assert forall|e: int| 0 <= e < self.edges@.len() implies {
                        &&& net.ids[net.tail(e)] == (#[trigger] self.edges@[e]).p1_spec()
                        &&& net.ids[net.head(e)] == self.edges@[e].p2_spec()
                    } by {
                        assert(before@.tail(e) == net.tail(e));
                        assert(before.edges@[e] == self.edges@[e]);
                    }
                }
                None
            },
        }
    }

    /// Whether an edge that is the same edge as `e` is at the second node of
    /// `e`.
    pub open spec fn is_present(&self, e: E) -> bool {
        self@.has(e.p2_spec()) && exists|k: int| #[trigger] self.is_same_at(e, self@.slot(e.p2_spec()), k)
    }

    /// Whether the edge at place `k` of the incidence list of slot `s` is
    /// the same edge as `e`.
    pub open spec fn is_same_at(&self, e: E, s: int, k: int) -> bool {
        0 <= k < self@.inc[s].len() && self.edge_seq()[self@.inc[s][k] as int].same_spec(&e)
    }

    /// Adds an edge between two nodes of the graph and gives it the next
    /// edge number. An edge with an endpoint that the graph lacks is
    /// refused. An edge that is the same edge as one at its second node
    /// already is taken for that edge, and the graph is left as it is.
    pub fn add_edge(&mut self, e: E) -> (ok: bool)
        requires
            old(self).wf(),
        ensures
            final(self).wf(),
            final(self).payloads() == old(self).payloads(),
            ok == (old(self)@.has(e.p1_spec()) && old(self)@.has(e.p2_spec())),
            !ok || old(self).is_present(e) ==> *final(self) == *old(self),
            ok && !old(self).is_present(e) ==> final(self).edge_seq() == old(self).edge_seq().push(e),
            ok && !old(self).is_present(e) ==> final(self)@ == old(self)@.with_edge(
                old(self)@.slot(e.p1_spec()),
                old(self)@.slot(e.p2_spec()),
                e.directed_spec(),
            ),
    {
        if self.slot_of(e.p1()).is_none() {
            return false;
        }
        let s2 = match self.slot_of(e.p2()) {
            Some(s) => s,
            None => { return false; },
        };
        let deg = self.incidence[s2].len();
        let mut k: usize = 0;
        while k < deg
            invariant
                self.wf(),
                *self == *old(self),
                self@.has(e.p1_spec()),
                self@.has(e.p2_spec()),
                s2 == self@.slot(e.p2_spec()),
                s2 < self@.nodes(),
                deg == self@.inc[s2 as int].len(),
                k <= deg,
                forall|j: int| 0 <= j < k ==> !#[trigger] self.is_same_at(e, s2 as int, j),
            decreases deg - k,
        {
            let x = self.incidence[s2][k];
            assert(self@.inc[s2 as int][k as int] == x);
            assert(x < self@.edges());
            if self.edges[x].same(&e) {
                assert(self.is_same_at(e, s2 as int, k as int));
                return true;
            }
            k = k + 1;
        }
        assert(!self.is_present(e)) by {
            if self.is_present(e) {
                let j = choose|j: int| #[trigger] self.is_same_at(e, s2 as int, j);
                assert(!self.is_same_at(e, s2 as int, j));
            }
        }
        self.append_edge(e)
    }

    /// Adds an edge between two nodes of the graph and gives it the next
    /// edge number, whatever edges are there. An edge with an endpoint that
    /// the graph lacks is refused.
    pub fn append_edge(&mut self, e: E) -> (ok: bool)
        requires
            old(self).wf(),
        ensures
            final(self).wf(),
            final(self).payloads() == old(self).payloads(),
            ok == (old(self)@.has(e.p1_spec()) && old(self)@.has(e.p2_spec())),
            !ok ==> *final(self) == *old(self),
            ok ==> final(self).edge_seq() == old(self).edge_seq().push(e),
            ok ==> final(self)@ == old(self)@.with_edge(
                old(self)@.slot(e.p1_spec()),
                old(self)@.slot(e.p2_spec()),
                e.directed_spec(),
            ),
    {
        let ghost before = *self;
        let s1 = match self.slot_of(e.p1()) {
            Some(s) => s,
            None => { return false; },
        };
        let s2 = match self.slot_of(e.p2()) {
            Some(s) => s,
            None => { return false; },
        };
        let number = self.edges.len();
        self.edges.push(e);
        self.ends.push((s1, s2));
        assert(self.edges.len() <= usize::MAX);
        if s1 != s2 {
            self.incidence[s1].push(number);
        }
        self.incidence[s2].push(number);
        proof {
            let net = before@.with_edge(s1 as int, s2 as int, e.directed_spec());
            assert(self@.ids =~= net.ids);
            assert(self@.inc =~= net.inc);
            assert(self@.one_way =~= net.one_way);
            assert(self@.links =~= net.links);
            assert(self@ == net);
            crate::net::lemma_with_edge_wf(before@, s1 as int, s2 as int, e.directed_spec());
            assert forall|x: int| 0 <= x < self.edges@.len() implies {
                &&& net.ids[net.tail(x)] == (#[trigger] self.edges@[x]).p1_spec()
                &&& net.ids[net.head(x)] == self.edges@[x].p2_spec()
            } by {
                if x < number {
                    assert(before@.tail(x) == net.tail(x));
                    assert(before.edges@[x] == self.edges@[x]);
                }
            }
        }
        true
    }
}

/// The nodes that `path_to_nodes` lists for a walk are the nodes at which
/// the walk stands: from the node it starts at, each edge leads to its
/// other end.
pub proof fn lemma_nodes_of_walk<N, E: Edge>(
    g: Graph<N, E>,
    direspect: bool,
    w: Seq<Option<u64>>,
    p: Seq<usize>,
    n: u64,
    nodes: Seq<u64>,
    i: int,
)
    requires
        g.wf(),
        g@.has(n),
        crate::walk::is_walk(g@, direspect, w, p, g@.slot(n)),
        nodes.len() == p.len() + 1,
        nodes[0] == n,
        forall|k: int|
            0 <= k < p.len() ==> (#[trigger] nodes[k + 1]) == other_end(
                g.edge_seq()[p[k] as int].p1_spec(),
                g.edge_seq()[p[k] as int].p2_spec(),
                nodes[k],
            ),
        0 <= i <= p.len(),
    ensures
        nodes[i] == g@.ids[crate::walk::walk_end(g@, p.take(i), g@.slot(n))],
    decreases i,
{
    let net = g@;
    let s = net.slot(n);
    if i == 0 {
        assert(p.take(0).len() == 0);
    } else {
        lemma_nodes_of_walk(g, direspect, w, p, n, nodes, i - 1);
        crate::walk::lemma_walk_split(net, direspect, w, p, i, s);
        let step = p.take(i);
        assert(step.drop_last() == p.take(i - 1));
        assert(step.last() == p[i - 1]);
        let e = p[i - 1] as int;
        let at = crate::walk::walk_end(net, p.take(i - 1), s);
        assert(net.legal(direspect, e, at));
        assert(0 <= net.tail(e) < net.ids.len());
        assert(net.ids[net.tail(e)] == g.edge_seq()[e].p1_spec());
        assert(nodes[i - 1 + 1] == other_end(
            g.edge_seq()[e].p1_spec(),
            g.edge_seq()[e].p2_spec(),
            nodes[i - 1],
        ));
    }
}

} // verus!
