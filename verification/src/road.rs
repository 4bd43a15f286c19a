//! Road segments as graph edges, and road junctions as graph nodes.

use crate::data::Node;
use crate::edge::Edge;
use vstd::prelude::*;
use vstd::std_specs::cmp::PartialEqSpecImpl;
use vstd::std_specs::convert::FromSpecImpl;

verus! {

/// Something with a cost of traversal.
pub trait Weighted {
    spec fn weight_spec(&self) -> u64;

    fn weight(&self) -> (r: u64)
        ensures
            r == self.weight_spec(),
    ;
}

/// Something with a place on the map, in whole units of the coordinate grid.
pub trait Positioned {
    spec fn pos_spec(&self) -> (i32, i32);

    fn pos(&self) -> (r: (i32, i32))
        ensures
            r == self.pos_spec(),
    ;
}

/// A junction of the road network.
#[derive(Clone, Copy, Debug)]
pub struct RoadNode {
    pub id: u64,
    pub coordinates: (i32, i32),
}

impl RoadNode {
    /// The node's identifier.
    pub fn id(&self) -> (r: u64)
        ensures
            r == self.id,
    {
        self.id
    }
}

impl From<Node> for RoadNode {
    fn from(n: Node) -> (r: RoadNode) {
        RoadNode { id: n.id, coordinates: n.coordinates }
    }
}

impl FromSpecImpl<Node> for RoadNode {
    open spec fn obeys_from_spec() -> bool {
        true
    }

    open spec fn from_spec(n: Node) -> RoadNode {
        RoadNode { id: n.id, coordinates: n.coordinates }
    }
}

impl Positioned for RoadNode {
    open spec fn pos_spec(&self) -> (i32, i32) {
        self.coordinates
    }

    fn pos(&self) -> (i32, i32) {
        self.coordinates
    }
}

/// A road segment between two junctions.
///
/// Two segments are the same edge when they agree on the endpoints, the
/// discriminator and the duplication index; direction and length play no
/// part in that.
#[derive(Clone, Copy, Debug)]
pub struct RoadEdge {
    pub p1: u64,
    pub p2: u64,
    /// Tells apart parallel roads between the same two junctions.
    pub discriminator: Option<u64>,
    pub directed: bool,
    pub length: u64,
    /// 0 for a road of the network, one more for each copy made of it.
    pub iidx: u64,
}

impl PartialEq for RoadEdge {
    fn eq(&self, other: &Self) -> (r: bool) {
        self.p1 == other.p1 && self.p2 == other.p2 && self.discriminator == other.discriminator
            && self.iidx == other.iidx
    }
}

impl PartialEqSpecImpl for RoadEdge {
    open spec fn obeys_eq_spec() -> bool {
        true
    }

    open spec fn eq_spec(&self, other: &Self) -> bool {
        self.same_edge(other)
    }
}

impl Eq for RoadEdge {

}

impl Weighted for RoadEdge {
    open spec fn weight_spec(&self) -> u64 {
        self.length
    }

    fn weight(&self) -> u64 {
        self.length
    }
}

impl Edge for RoadEdge {
    open spec fn p1_spec(&self) -> u64 {
        self.p1
    }

    open spec fn p2_spec(&self) -> u64 {
        self.p2
    }

    open spec fn directed_spec(&self) -> bool {
        self.directed
    }

    fn p1(&self) -> u64 {
        self.p1
    }

    fn p2(&self) -> u64 {
        self.p2
    }

    fn directed(&self) -> bool {
        self.directed
    }

    open spec fn same_spec(&self, other: &Self) -> bool {
        self.same_edge(other)
    }

    fn same(&self, other: &Self) -> bool {
        self.p1 == other.p1 && self.p2 == other.p2 && self.discriminator == other.discriminator
            && self.iidx == other.iidx
    }
}

impl RoadEdge {
    /// What `==` means on segments: the same endpoints in the same order,
    /// the same discriminator and the same duplication index.
    pub open spec fn same_edge(&self, other: &Self) -> bool {
        self.p1 == other.p1 && self.p2 == other.p2 && self.discriminator == other.discriminator
            && self.iidx == other.iidx
    }

    /// Whether two segments are the same road but for the duplication
    /// index: the same discriminator and the same endpoints, in either
    /// order where neither segment is one-way.
    pub open spec fn similar_spec(&self, other: &Self) -> bool {
        &&& self.discriminator == other.discriminator
        &&& {
            ||| self.p1 == other.p1 && self.p2 == other.p2
            ||| !self.directed && !other.directed && self.p1 == other.p2 && self.p2 == other.p1
        }
    }

    /// Whether one segment is a copy of the other, or both are copies of a
    /// third: similar, with different duplication indices.
    pub open spec fn duped_spec(&self, other: &Self) -> bool {
        self.similar_spec(other) && self.iidx != other.iidx
    }

    /// Whether two segments are the same road but for the duplication
    /// index.
    pub fn similar(&self, other: &Self) -> (r: bool)
        ensures
            r == self.similar_spec(other),
    {
        self.discriminator == other.discriminator && ((self.p1 == other.p1 && self.p2 == other.p2)
            || (!self.directed && !other.directed && self.p1 == other.p2 && self.p2 == other.p1))
    }

    /// Whether one segment is a copy of the other, or both are copies of
    /// a third.
    pub fn duped(&self, other: &Self) -> (r: bool)
        ensures
            r == self.duped_spec(other),
    {
        self.similar(other) && self.iidx != other.iidx
    }

    /// A copy of the segment with the next duplication index.
    pub fn dupe(&self) -> (r: Self)
        requires
            self.iidx < u64::MAX,
        ensures
            r == (RoadEdge { iidx: (self.iidx + 1) as u64, ..*self }),
    {
        RoadEdge {
            p1: self.p1,
            p2: self.p2,
            discriminator: self.discriminator,
            directed: self.directed,
            length: self.length,
            iidx: self.iidx + 1,
        }
    }
}

/// A copy has the next duplication index, is similar to the segment it was
/// made of, is a duplicate of it, and is not the same edge.
pub proof fn lemma_dupe_is_new(e: RoadEdge, copy: RoadEdge)
    requires
        e.iidx < u64::MAX,
        copy == (RoadEdge { iidx: (e.iidx + 1) as u64, ..e }),
    ensures
        copy.iidx == e.iidx + 1,
        e.similar_spec(&copy),
        copy.similar_spec(&e),
        e.duped_spec(&copy),
        copy.duped_spec(&e),
        !e.same_edge(&copy),
        copy.p1 == e.p1 && copy.p2 == e.p2 && copy.directed == e.directed && copy.length
            == e.length,
{
}

} // verus!
