//! The shape of a graph as a mathematical value: which nodes there are,
//! which edges join them, and which edges are one-way.

use vstd::prelude::*;

verus! {

/// The number of items of `s` that satisfy `f`.
pub open spec fn count_of(s: Seq<usize>, f: spec_fn(usize) -> bool) -> nat
    decreases s.len(),
{
    if s.len() == 0 {
        0
    } else {
        count_of(s.drop_last(), f) + if f(s.last()) {
            1nat
        } else {
            0nat
        }
    }
}

/// No more items are counted than there are.
pub proof fn lemma_count_of_bound(s: Seq<usize>, f: spec_fn(usize) -> bool)
    ensures
        count_of(s, f) <= s.len(),
    decreases s.len(),
{
    if s.len() > 0 {
        lemma_count_of_bound(s.drop_last(), f);
    }
}

/// The shape of a mixed multigraph. A node is named by its slot, the
/// position of its identifier in `ids`; an edge by its number, a position in
/// `links`.
pub struct Net {
    /// The node identifiers, by slot.
    pub ids: Seq<u64>,
    /// For each slot the numbers of the edges that touch the node.
    pub inc: Seq<Seq<usize>>,
    /// For each edge the slots of its first and second endpoint.
    pub links: Seq<(usize, usize)>,
    /// For each edge whether it may only be traversed from its first
    /// endpoint to its second.
    pub one_way: Seq<bool>,
}

impl Net {
    /// The number of nodes.
    pub open spec fn nodes(self) -> nat {
        self.ids.len()
    }

    /// The number of edges.
    pub open spec fn edges(self) -> nat {
        self.links.len()
    }

    /// Whether `s` is the slot of a node.
    pub open spec fn is_slot(self, s: int) -> bool {
        0 <= s < self.ids.len()
    }

    /// Whether `e` is the number of an edge.
    pub open spec fn is_edge(self, e: int) -> bool {
        0 <= e < self.links.len()
    }

    /// Whether `id` names a node.
    pub open spec fn has(self, id: u64) -> bool {
        exists|s: int| 0 <= s < self.ids.len() && self.ids[s] == id
    }

    /// The slot of the node `id`.
    pub open spec fn slot(self, id: u64) -> int {
        choose|s: int| 0 <= s < self.ids.len() && self.ids[s] == id
    }

    /// The slot of the first endpoint of edge `e`.
    pub open spec fn tail(self, e: int) -> int {
        self.links[e].0 as int
    }

    /// The slot of the second endpoint of edge `e`.
    pub open spec fn head(self, e: int) -> int {
        self.links[e].1 as int
    }

    /// Whether the node in slot `s` is an end of edge `e`.
    pub open spec fn touches(self, e: int, s: int) -> bool {
        self.tail(e) == s || self.head(e) == s
    }

    /// Whether both ends of edge `e` are the same node.
    pub open spec fn is_loop(self, e: int) -> bool {
        self.tail(e) == self.head(e)
    }

    /// No two slots hold the same identifier, every edge joins two nodes,
    /// and the incidence list of a node holds, once each, exactly the edges
    /// that touch it.
    pub open spec fn wf(self) -> bool {
        &&& self.inc.len() == self.ids.len()
        &&& self.one_way.len() == self.links.len()
        &&& forall|i: int, j: int|
            0 <= i < self.ids.len() && 0 <= j < self.ids.len() && i != j ==> self.ids[i]
                != self.ids[j]
        &&& forall|e: int|
            0 <= e < self.links.len() ==> {
                &&& 0 <= #[trigger] self.tail(e) < self.ids.len()
                &&& 0 <= self.head(e) < self.ids.len()
                &&& self.inc[self.tail(e)].contains(e as usize)
                &&& self.inc[self.head(e)].contains(e as usize)
            }
        &&& forall|s: int, k: int|
            0 <= s < self.ids.len() && 0 <= k < self.inc[s].len() ==> {
                &&& (#[trigger] self.inc[s][k]) < self.links.len()
                &&& self.touches(self.inc[s][k] as int, s)
            }
        &&& forall|s: int| 0 <= s < self.ids.len() ==> (#[trigger] self.inc[s]).no_duplicates()
    }

    /// Whether edge `e` may be left from the node in slot `s`: it touches
    /// the node and, where directions count, is not a one-way edge that
    /// arrives there.
    pub open spec fn legal(self, direspect: bool, e: int, s: int) -> bool {
        &&& self.is_edge(e)
        &&& self.touches(e, s)
        &&& (!direspect || !self.one_way[e] || self.tail(e) == s)
    }

    /// The one-way edges that leave slot `s`.
    pub open spec fn out_count(self, s: int) -> nat {
        count_of(self.inc[s], |e: usize| self.one_way[e as int] && self.tail(e as int) == s)
    }

    /// The one-way edges that arrive at slot `s`.
    pub open spec fn in_count(self, s: int) -> nat {
        count_of(self.inc[s], |e: usize| self.one_way[e as int] && self.head(e as int) == s)
    }

    /// The two-way edges at slot `s` that are no self-loops.
    pub open spec fn free_count(self, s: int) -> nat {
        count_of(self.inc[s], |e: usize| !self.one_way[e as int] && !self.is_loop(e as int))
    }

    /// The combined degree of the node in slot `s`. Where directions count,
    /// it is the number of two-way edges that are no self-loops, less the
    /// imbalance between the one-way edges that leave and those that
    /// arrive; else it is the number of edges on the node's incidence list,
    /// where a self-loop stands once.
    pub open spec fn degree(self, direspect: bool, s: int) -> int {
        if direspect {
            let o = self.out_count(s) as int;
            let i = self.in_count(s) as int;
            self.free_count(s) - if o >= i {
                o - i
            } else {
                i - o
            }
        } else {
            self.inc[s].len() as int
        }
    }

    /// Whether the node in slot `s` does not keep the graph from having a
    /// closed walk over all its edges: its combined degree is even and,
    /// where directions count, not negative.
    pub open spec fn compatible(self, direspect: bool, s: int) -> bool {
        self.degree(direspect, s) % 2 == 0 && (!direspect || self.degree(direspect, s) >= 0)
    }

    /// The shape with one more edge, from slot `a` to slot `b`.
    pub open spec fn with_edge(self, a: int, b: int, one_way: bool) -> Net {
        Net {
            ids: self.ids,
            inc: Seq::new(
                self.inc.len(),
                |s: int|
                    if s == a || s == b {
                        self.inc[s].push(self.links.len() as usize)
                    } else {
                        self.inc[s]
                    },
            ),
            links: self.links.push((a as usize, b as usize)),
            one_way: self.one_way.push(one_way),
        }
    }

    /// Whether edge `e` may be taken to the node in slot `s`: it touches the
    /// node and, where directions count, is not a one-way edge that leaves
    /// there.
    pub open spec fn arrivable(self, direspect: bool, e: int, s: int) -> bool {
        &&& self.is_edge(e)
        &&& self.touches(e, s)
        &&& (!direspect || !self.one_way[e] || self.head(e) == s)
    }

    /// Whether an edge that `w` allows may be left from the node in slot
    /// `s`.
    pub open spec fn has_way_out(self, direspect: bool, w: Seq<Option<u64>>, s: int) -> bool {
        exists|k: int|
            0 <= k < self.inc[s].len() && w[#[trigger] self.inc[s][k] as int] is Some && self.legal(
                direspect,
                self.inc[s][k] as int,
                s,
            )
    }

    /// Whether an edge that `w` allows may be taken to the node in slot
    /// `s`.
    pub open spec fn has_way_in(self, direspect: bool, w: Seq<Option<u64>>, s: int) -> bool {
        exists|k: int|
            0 <= k < self.inc[s].len() && w[#[trigger] self.inc[s][k] as int] is Some
                && self.arrivable(direspect, self.inc[s][k] as int, s)
    }

    /// Whether the node in slot `s` can be entered and left over edges that
    /// `w` allows.
    pub open spec fn passable(self, direspect: bool, w: Seq<Option<u64>>, s: int) -> bool {
        self.has_way_in(direspect, w, s) && self.has_way_out(direspect, w, s)
    }

    /// The slot reached when edge `e` is left from slot `s`.
    pub open spec fn far(self, e: int, s: int) -> int {
        if s == self.tail(e) {
            self.head(e)
        } else {
            self.tail(e)
        }
    }
}

/// Slots that hold the same identifier are the same slot.
pub proof fn lemma_slot_unique(net: Net, s: int)
    requires
        net.wf(),
        net.is_slot(s),
    ensures
        net.has(net.ids[s]),
        net.slot(net.ids[s]) == s,
{
}

/// Adding an edge between two nodes keeps a shape well formed.
pub proof fn lemma_with_edge_wf(net: Net, a: int, b: int, one_way: bool)
    requires
        net.wf(),
        net.is_slot(a),
        net.is_slot(b),
        net.links.len() < usize::MAX,
        a <= usize::MAX,
        b <= usize::MAX,
    ensures
        net.with_edge(a, b, one_way).wf(),
{
    let after = net.with_edge(a, b, one_way);
    let number = net.links.len() as int;
    assert forall|e: int| 0 <= e < after.links.len() implies {
        &&& 0 <= #[trigger] after.tail(e) < after.ids.len()
        &&& 0 <= after.head(e) < after.ids.len()
        &&& after.inc[after.tail(e)].contains(e as usize)
        &&& after.inc[after.head(e)].contains(e as usize)
    } by {
        if e < number {
            assert(net.tail(e) == after.tail(e));
            assert(net.head(e) == after.head(e));
            let s = net.tail(e);
            let t = net.head(e);
            let i = choose|i: int| 0 <= i < net.inc[s].len() && net.inc[s][i] == e as usize;
            assert(after.inc[s][i] == e as usize);
            let j = choose|j: int| 0 <= j < net.inc[t].len() && net.inc[t][j] == e as usize;
            assert(after.inc[t][j] == e as usize);
        } else {
            assert(after.inc[a].last() == number as usize);
            assert(after.inc[b].last() == number as usize);
        }
    }
    assert forall|s: int, k: int| 0 <= s < after.ids.len() && 0 <= k < after.inc[s].len() implies {
        &&& (#[trigger] after.inc[s][k]) < after.links.len()
        &&& after.touches(after.inc[s][k] as int, s)
    } by {
        if k < net.inc[s].len() {
            assert(after.inc[s][k] == net.inc[s][k]);
            assert(net.touches(net.inc[s][k] as int, s));
        }
    }
    assert forall|s: int| 0 <= s < after.ids.len() implies (#[trigger] after.inc[s]).no_duplicates() by {
        assert(net.inc[s].no_duplicates());
        assert forall|k: int| 0 <= k < net.inc[s].len() implies net.inc[s][k] != number by {
            assert((#[trigger] net.inc[s][k]) < net.links.len());
        }
    }
}

} // verus!
