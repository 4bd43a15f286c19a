//! Edges of a mixed multigraph, as seen by the graph algorithms.

use vstd::prelude::*;

verus! {

/// The endpoint of an edge with endpoints `p1` and `p2` that is reached
/// when the edge is left at `id`.
pub open spec fn other_end(p1: u64, p2: u64, id: u64) -> u64 {
    if id == p1 {
        p2
    } else {
        p1
    }
}

/// Whether an edge from `p1` to `p2`, held to its direction or not, can be
/// traversed towards `id`.
pub open spec fn arrives_at(p1: u64, p2: u64, held: bool, id: u64) -> bool {
    id == p2 || (id == p1 && !held)
}

/// Whether an edge from `p1` to `p2`, held to its direction or not, can be
/// traversed from `id`.
pub open spec fn leaves_from(p1: u64, p2: u64, held: bool, id: u64) -> bool {
    id == p1 || (id == p2 && !held)
}

/// An edge between two nodes, possibly one-way from `p1` to `p2`.
pub trait Edge: Sized {
    spec fn p1_spec(&self) -> u64;

    spec fn p2_spec(&self) -> u64;

    spec fn directed_spec(&self) -> bool;

    fn p1(&self) -> (r: u64)
        ensures
            r == self.p1_spec(),
    ;

    fn p2(&self) -> (r: u64)
        ensures
            r == self.p2_spec(),
    ;

    fn directed(&self) -> (r: bool)
        ensures
            r == self.directed_spec(),
    ;

    /// What makes two edges the same edge.
    spec fn same_spec(&self, other: &Self) -> bool;

    /// Whether the two are the same edge.
    fn same(&self, other: &Self) -> (r: bool)
        ensures
            r == self.same_spec(other),
    ;

    /// Whether the edge is a self-loop.
    fn is_cyclic(&self) -> (r: bool)
        ensures
            r == (self.p1_spec() == self.p2_spec()),
    {
        self.p1() == self.p2()
    }

    /// The endpoint opposite to `id`.
    fn other(&self, id: u64) -> (r: u64)
        ensures
            r == other_end(self.p1_spec(), self.p2_spec(), id),
    {
        if id == self.p1() {
            self.p2()
        } else {
            self.p1()
        }
    }

    /// Whether the edge can be traversed towards `id`: it ends there, or
    /// starts there and may be taken against its direction.
    fn is_incoming<const DIRESPECT: bool>(&self, id: u64) -> (r: bool)
        ensures
            r == arrives_at(
                self.p1_spec(),
                self.p2_spec(),
                DIRESPECT && self.directed_spec(),
                id,
            ),
    {
        id == self.p2() || (id == self.p1() && (!DIRESPECT || !self.directed()))
    }

    /// Whether the edge can be traversed from `id`: it starts there, or
    /// ends there and may be taken against its direction.
    fn is_outgoing<const DIRESPECT: bool>(&self, id: u64) -> (r: bool)
        ensures
            r == leaves_from(
                self.p1_spec(),
                self.p2_spec(),
                DIRESPECT && self.directed_spec(),
                id,
            ),
    {
        id == self.p1() || (id == self.p2() && (!DIRESPECT || !self.directed()))
    }
}

} // verus!
