//! The records that a caller hands to the planner and gets back from it.
//!
//! Nodes are named by `u64` identifiers. Coordinates are whole numbers of
//! grid units (longitude first), lengths whole numbers of length units
//! and snow depths whole numbers of depth units.

use vstd::prelude::*;

verus! {

/// A measure of how far two things are apart.
pub trait Distance {
    type Measure;

    spec fn distance_spec(&self, other: &Self) -> Self::Measure;

    fn distance(&self, other: &Self) -> (r: Self::Measure)
        ensures
            r == self.distance_spec(other),
    ;
}

/// The square of the difference of two coordinates.
pub open spec fn square_gap(a: i32, b: i32) -> int {
    (a - b) * (a - b)
}

/// The square of the straight-line distance between two points.
pub open spec fn dist2(a: (i32, i32), b: (i32, i32)) -> int {
    square_gap(a.0, b.0) + square_gap(a.1, b.1)
}

fn gap2(a: i32, b: i32) -> (r: u128)
    ensures
        r == square_gap(a, b),
        r <= 0xffff_ffff_0000_0000u128,
{
    let d: u64 = if a >= b {
        (a as i64 - b as i64) as u64
    } else {
        (b as i64 - a as i64) as u64
    };
    assert(d <= 0xffff_ffff);
    assert((a - b) * (a - b) == d * d) by (nonlinear_arith)
        requires
            d == a - b || d == b - a,
    ;
    assert(d * d <= 0xffff_ffff_0000_0000u128) by (nonlinear_arith)
        requires
            0 <= d <= 0xffff_ffff,
    ;
    (d as u128) * (d as u128)
}

/// The square of the straight-line distance between two points.
pub fn squared_distance(a: (i32, i32), b: (i32, i32)) -> (r: u128)
    ensures
        r == dist2(a, b),
{
    gap2(a.0, b.0) + gap2(a.1, b.1)
}

impl Distance for (i32, i32) {
    type Measure = u128;

    open spec fn distance_spec(&self, other: &Self) -> u128 {
        dist2(*self, *other) as u128
    }

    /// The square of the straight-line distance.
    fn distance(&self, other: &Self) -> (r: u128) {
        squared_distance(*self, *other)
    }
}

/// Whether `k` is the first position in `points` of a point nearest to
/// `c`.
pub open spec fn is_closest(points: Seq<(i32, i32)>, c: (i32, i32), k: int) -> bool {
    &&& 0 <= k < points.len()
    &&& forall|j: int| 0 <= j < points.len() ==> dist2(c, points[k]) <= dist2(c, #[trigger] points[j])
    &&& forall|j: int| 0 <= j < k ==> dist2(c, points[k]) < dist2(c, #[trigger] points[j])
}

/// The first position in `points` of a point nearest to `c`.
pub open spec fn nearest(points: Seq<(i32, i32)>, c: (i32, i32)) -> int {
    choose|k: int| #[trigger] is_closest(points, c, k)
}

/// There is one first nearest point.
pub proof fn lemma_nearest(points: Seq<(i32, i32)>, c: (i32, i32), k: int)
    requires
        is_closest(points, c, k),
    ensures
        nearest(points, c) == k,
{
    let n = nearest(points, c);
    assert(is_closest(points, c, n));
    if n < k {
        assert(dist2(c, points[k]) < dist2(c, points[n]));
        assert(dist2(c, points[n]) <= dist2(c, points[k]));
    } else if k < n {
        assert(dist2(c, points[n]) < dist2(c, points[k]));
        assert(dist2(c, points[k]) <= dist2(c, points[n]));
    }
}

/// Among points, one is the first nearest.
pub proof fn lemma_nearest_exists(points: Seq<(i32, i32)>, c: (i32, i32))
    requires
        points.len() > 0,
    ensures
        is_closest(points, c, nearest(points, c)),
{
    lemma_closest_upto(points, c, points.len() as int);
    let k = choose|k: int| #[trigger] closest_upto(points, c, points.len() as int, k);
    assert(is_closest(points, c, k));
}

/// Whether `k` is the first position of a point nearest to `c` among the
/// first `n` points.
pub open spec fn closest_upto(points: Seq<(i32, i32)>, c: (i32, i32), n: int, k: int) -> bool {
    &&& 0 <= k < n
    &&& forall|j: int| 0 <= j < n ==> dist2(c, points[k]) <= dist2(c, #[trigger] points[j])
    &&& forall|j: int| 0 <= j < k ==> dist2(c, points[k]) < dist2(c, #[trigger] points[j])
}

/// Among the first `n` points, one is the first nearest.
pub proof fn lemma_closest_upto(points: Seq<(i32, i32)>, c: (i32, i32), n: int)
    requires
        0 < n <= points.len(),
    ensures
        exists|k: int| #[trigger] closest_upto(points, c, n, k),
    decreases n,
{
    if n == 1 {
        assert(closest_upto(points, c, 1, 0));
    } else {
        lemma_closest_upto(points, c, n - 1);
        let k = choose|k: int| #[trigger] closest_upto(points, c, n - 1, k);
        if dist2(c, points[n - 1]) < dist2(c, points[k]) {
            assert(closest_upto(points, c, n, n - 1));
        } else {
            assert(closest_upto(points, c, n, k));
        }
    }
}

/// The first position in `points` of a point nearest to `c`.
pub fn closest(points: &Vec<(i32, i32)>, c: (i32, i32)) -> (k: usize)
    requires
        points.len() > 0,
    ensures
        is_closest(points@, c, k as int),
        k == nearest(points@, c),
{
    let mut k: usize = 0;
    let mut least = squared_distance(c, points[0]);
    let mut j: usize = 1;
    while j < points.len()
        invariant
            1 <= j <= points.len(),
            k < j,
            least == dist2(c, points[k as int]),
            forall|i: int| 0 <= i < j ==> dist2(c, points[k as int]) <= dist2(c, #[trigger] points[i]),
            forall|i: int| 0 <= i < k ==> dist2(c, points[k as int]) < dist2(c, #[trigger] points[i]),
        decreases points.len() - j,
    {
        let d = squared_distance(c, points[j]);
        if d < least {
            k = j;
            least = d;
        }
        j = j + 1;
    }
    proof {
        lemma_nearest(points@, c, k as int);
    }
    k
}

/// A road between two nodes of the network.
#[derive(Clone, Copy, Debug, PartialEq, Eq)]
pub struct RoadSegment {
    pub p1: u64,
    pub p2: u64,
    pub discriminator: Option<u64>,
    pub directed: bool,
    pub distance: u64,
    pub sidewalks: (bool, bool),
}

/// A side of a road, as seen from its first node to its second.
#[derive(Clone, Copy, Debug, PartialEq, Eq)]
pub enum SidewalkSide {
    Left,
    Right,
}

/// A node of the network, with its place.
#[derive(Clone, Copy, Debug, PartialEq, Eq)]
pub struct Node {
    pub id: u64,
    pub coordinates: (i32, i32),
}

/// The nodes of a road network.
#[derive(Clone, Debug, PartialEq, Eq)]
pub struct RoadGraphNodes {
    pub nodes: Vec<Node>,
}

/// A road network: its roads and its nodes.
#[derive(Clone, Debug, PartialEq, Eq)]
pub struct RoadGraph {
    pub roads: Vec<RoadSegment>,
    pub nodes: RoadGraphNodes,
}

/// A place given by its coordinates or as a node.
#[derive(Clone, Copy, Debug, PartialEq, Eq)]
pub enum Location {
    Coordinates(i32, i32),
    Node(u64),
}

/// Where the vehicles stand: those for the roads and those for the
/// sidewalks.
#[derive(Clone, Debug, PartialEq, Eq)]
pub struct VehiclesConfiguration {
    pub road: Vec<Location>,
    pub sidewalk: Vec<Location>,
}

/// A step of a path: the node arrived at and, but for the first step, the
/// discriminator of the road taken to it.
#[derive(Clone, Copy, Debug, PartialEq, Eq)]
pub struct PathSegment {
    pub node: u64,
    pub discriminator: Option<u64>,
}

/// A step of a path along sidewalks: the node arrived at, the
/// discriminator of the road followed, and the side taken.
#[derive(Clone, Copy, Debug, PartialEq, Eq)]
pub struct SidewalkPathSegment {
    pub node: u64,
    pub discriminator: Option<u64>,
    pub side: Option<SidewalkSide>,
}

/// One observation of the snow on a road segment.
#[derive(Clone, Copy, Debug, PartialEq, Eq)]
pub struct SnowStatusElement {
    pub p1: u64,
    pub p2: u64,
    pub discriminator: Option<u64>,
    pub depth: i64,
}

/// The coordinates of the nodes, in order.
pub open spec fn places(nodes: Seq<Node>) -> Seq<(i32, i32)> {
    Seq::new(nodes.len(), |i: int| nodes[i].coordinates)
}

/// The node that a location stands for: the node itself where the
/// location names one, else the first of the nodes nearest to the
/// coordinates; `None` where coordinates are given and there is no node.
pub open spec fn located(nodes: Seq<Node>, l: Location) -> Option<u64> {
    match l {
        Location::Node(n) => Some(n),
        Location::Coordinates(lon, lat) => if nodes.len() == 0 {
            None
        } else {
            Some(nodes[nearest(places(nodes), (lon, lat))].id)
        },
    }
}

impl RoadGraphNodes {
    /// The node that a location stands for.
    pub fn locate(&self, l: &Location) -> (r: Option<u64>)
        ensures
            r == located(self.nodes@, *l),
    {
        match l {
            Location::Node(n) => Some(*n),
            Location::Coordinates(lon, lat) => {
                if self.nodes.len() == 0 {
                    return None;
                }
                let mut points: Vec<(i32, i32)> = Vec::new();
                let mut i: usize = 0;
                while i < self.nodes.len()
                    invariant
                        i <= self.nodes.len(),
                        points@ == places(self.nodes@).take(i as int),
                    decreases self.nodes.len() - i,
                {
                    points.push(self.nodes[i].coordinates);
                    assert(points@ =~= places(self.nodes@).take(i as int + 1));
                    i = i + 1;
                }
                assert(points@ =~= places(self.nodes@));
                let k = closest(&points, (*lon, *lat));
                Some(self.nodes[k].id)
            },
        }
    }
}

} // verus!
