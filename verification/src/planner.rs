//! From the records of a road network to paths for drones and plows.

use crate::anneal::{is_searched, Parameters, Progress, Stranded};
use crate::cover::{is_cover, is_covered, views};
use crate::data::{located, Location, Node, PathSegment, RoadGraph, RoadSegment, SnowStatusElement, VehiclesConfiguration};
use crate::edge::{other_end, Edge};
use crate::euler::{
    are_apart, are_origins, blocked, copied, grown, has_partner, is_copy, is_first_dead_end, is_fit, is_plain, is_quiet,
    made, misdirected, Obstacle,
};
use crate::net::{lemma_slot_unique, Net};
use crate::walk::lemma_walk_edges;
use crate::graph::Graph;
use crate::plow::{edge_weights, lengths_of, shares_of, PlowSolver};
use crate::road::{RoadEdge, RoadNode};
use std::collections::HashSet;
use vstd::prelude::*;

verus! {

/// Why no plan could be made.
#[derive(Debug)]
pub enum PlanError {
    /// The location at this position stands for no node of the network.
    Unlocated(usize),
    /// The road at this position names a node that the network lacks.
    UnknownNode(usize),
    /// The network cannot be made fit for closed walks.
    Unfit(Obstacle),
    /// The observation at this position is of snow on no road of the
    /// network.
    UnknownSnow(usize),
    /// There is snow and no vehicle to clear it.
    NoVehicle,
    /// A vehicle cannot be brought to some segments of its share.
    Stranded(Stranded),
}

impl PlanError {
    /// The failure in words.
    pub fn message(&self) -> (r: String)
        ensures
            r@ == match *self {
                PlanError::Unlocated(_) => "Failed to locate positions to the road graph"@,
                PlanError::UnknownNode(_) => "A road names a node that the road graph lacks"@,
                PlanError::Unfit(Obstacle::DeadEnd(_)) => "A one-way road leads to a dead end"@,
                PlanError::Unfit(Obstacle::Stuck(_)) => "A junction is left with no road to double"@,
                PlanError::UnknownSnow(_) => "Snow status edge not found"@,
                PlanError::NoVehicle => "No vehicle is given"@,
                PlanError::Stranded(_) => "Can't reach everywhere"@,
            },
    {
        broadcast use vstd::string::group_string_axioms;

        match self {
            PlanError::Unlocated(_) => "Failed to locate positions to the road graph".to_string(),
            PlanError::UnknownNode(_) => "A road names a node that the road graph lacks".to_string(),
            PlanError::Unfit(Obstacle::DeadEnd(_)) => "A one-way road leads to a dead end".to_string(),
            PlanError::Unfit(Obstacle::Stuck(_)) => "A junction is left with no road to double".to_string(),
            PlanError::UnknownSnow(_) => "Snow status edge not found".to_string(),
            PlanError::NoVehicle => "No vehicle is given".to_string(),
            PlanError::Stranded(_) => "Can't reach everywhere".to_string(),
        }
    }
}

/// The graph edge that a road of the network becomes.
pub open spec fn road_edge(seg: RoadSegment) -> RoadEdge {
    RoadEdge {
        p1: seg.p1,
        p2: seg.p2,
        discriminator: seg.discriminator,
        directed: seg.directed,
        length: seg.distance,
        iidx: 0,
    }
}

/// Whether `id` names one of the nodes.
pub open spec fn known(nodes: Seq<Node>, id: u64) -> bool {
    exists|i: int| 0 <= i < nodes.len() && (#[trigger] nodes[i]).id == id
}

/// Whether both ends of the road at position `k` are nodes of the network.
pub open spec fn road_known(roads: RoadGraph, k: int) -> bool {
    known(roads.nodes.nodes@, roads.roads@[k].p1) && known(roads.nodes.nodes@, roads.roads@[k].p2)
}

/// Whether the location at position `i` stands for a node of the network.
pub open spec fn placed(nodes: Seq<Node>, locations: Seq<Location>, i: int) -> bool {
    located(nodes, locations[i]) is Some && known(nodes, located(nodes, locations[i])->0)
}

/// The graph node that a node of the network becomes.
pub open spec fn road_node(n: Node) -> RoadNode {
    RoadNode { id: n.id, coordinates: n.coordinates }
}

/// Whether no node behind position `i` has the identifier of the node
/// there.
pub open spec fn is_last_of(nodes: Seq<Node>, i: int, upto: int) -> bool {
    forall|j: int| i < j < upto ==> (#[trigger] nodes[j]).id != nodes[i].id
}

/// Whether `graph` is the graph of the network `roads`, with or without
/// copies of edges behind them: its nodes are the nodes of the network,
/// each as the last record of it says, and its first edges are the
/// roads, in order.
pub open spec fn is_graph_of(graph: Graph<RoadNode, RoadEdge>, roads: RoadGraph) -> bool {
    &&& graph.wf()
    &&& forall|id: u64| #[trigger] graph@.has(id) <==> known(roads.nodes.nodes@, id)
    &&& forall|i: int|
        0 <= i < roads.nodes.nodes@.len() && #[trigger] is_last_of(
            roads.nodes.nodes@,
            i,
            roads.nodes.nodes@.len() as int,
        ) ==> graph.payloads()[graph@.slot(roads.nodes.nodes@[i].id)] == road_node(
            roads.nodes.nodes@[i],
        )
    &&& kept_roads(roads.roads@).len() <= graph.edge_seq().len()
    &&& forall|k: int|
        0 <= k < kept_roads(roads.roads@).len() ==> #[trigger] graph.edge_seq()[k] == road_edge(
            kept_roads(roads.roads@)[k],
        )
}

/// Whether two roads are the same road: they name the same nodes in the
/// same order and have the same discriminator.
pub open spec fn same_road(a: RoadSegment, b: RoadSegment) -> bool {
    a.p1 == b.p1 && a.p2 == b.p2 && a.discriminator == b.discriminator
}

/// Whether the road at position `k` is the same road as one before it.
pub open spec fn is_repeat(roads: Seq<RoadSegment>, k: int) -> bool {
    exists|j: int| 0 <= j < k && same_road(#[trigger] roads[j], roads[k])
}

/// The roads without those that are the same road as one before them.
pub open spec fn kept_roads(roads: Seq<RoadSegment>) -> Seq<RoadSegment>
    decreases roads.len(),
{
    if roads.len() == 0 {
        Seq::empty()
    } else {
        let before = kept_roads(roads.drop_last());
        if is_repeat(roads, roads.len() - 1) {
            before
        } else {
            before.push(roads.last())
        }
    }
}

/// Whether `x` is one of the roads.
pub open spec fn is_road_in(roads: Seq<RoadSegment>, x: RoadSegment) -> bool {
    exists|j: int| 0 <= j < roads.len() && #[trigger] roads[j] == x
}

/// Whether one of the roads is the same road as `x`.
pub open spec fn has_road_like(roads: Seq<RoadSegment>, x: RoadSegment) -> bool {
    exists|i: int| 0 <= i < roads.len() && same_road(#[trigger] roads[i], x)
}

/// The roads that are kept are roads, and every road is the same road as
/// one that is kept.
pub proof fn lemma_kept_roads(roads: Seq<RoadSegment>)
    ensures
        kept_roads(roads).len() <= roads.len(),
        forall|i: int|
            0 <= i < kept_roads(roads).len() ==> #[trigger] is_road_in(roads, kept_roads(roads)[i]),
        forall|j: int|
            0 <= j < roads.len() ==> #[trigger] has_road_like(kept_roads(roads), roads[j]),
    decreases roads.len(),
{
    if roads.len() > 0 {
        let rest = roads.drop_last();
        let before = kept_roads(rest);
        let now = kept_roads(roads);
        let x = roads.last();
        lemma_kept_roads(rest);
        assert forall|i: int| 0 <= i < now.len() implies #[trigger] is_road_in(roads, now[i]) by {
            if i < before.len() {
                assert(is_road_in(rest, before[i]));
                let j = choose|j: int| 0 <= j < rest.len() && #[trigger] rest[j] == before[i];
                assert(roads[j] == now[i]);
            } else {
                assert(roads[roads.len() - 1] == now[i]);
            }
        }
        assert forall|j: int| 0 <= j < roads.len() implies #[trigger] has_road_like(now, roads[j]) by {
            if j < rest.len() {
                assert(has_road_like(before, rest[j]));
                let i = choose|i: int| 0 <= i < before.len() && same_road(#[trigger] before[i], rest[j]);
                assert(same_road(now[i], roads[j]));
            } else if is_repeat(roads, roads.len() - 1) {
                let p = choose|p: int| 0 <= p < roads.len() - 1 && same_road(#[trigger] roads[p], x);
                assert(has_road_like(before, rest[p]));
                let i = choose|i: int| 0 <= i < before.len() && same_road(#[trigger] before[i], rest[p]);
                assert(same_road(now[i], roads[j]));
            } else {
                assert(same_road(now[now.len() - 1], roads[j]));
            }
        }
    }
}

/// Whether `path` lists the nodes at which `tour` stands from `start` on,
/// each but the first with the discriminator of the road that led to it.
pub open spec fn is_path_of(
    edges: Seq<RoadEdge>,
    tour: Seq<usize>,
    start: u64,
    path: Seq<PathSegment>,
) -> bool {
    &&& path.len() == tour.len() + 1
    &&& path[0] == (PathSegment { node: start, discriminator: None })
    &&& forall|i: int|
        0 <= i < tour.len() ==> (#[trigger] path[i + 1]) == (PathSegment {
            node: other_end(edges[tour[i] as int].p1, edges[tour[i] as int].p2, path[i].node),
            discriminator: edges[tour[i] as int].discriminator,
        })
}

/// Whether `paths` lists the nodes of each tour, from its start on.
pub open spec fn are_paths_of(
    edges: Seq<RoadEdge>,
    tours: Seq<Seq<usize>>,
    starts: Seq<u64>,
    paths: Seq<Vec<PathSegment>>,
) -> bool {
    &&& paths.len() == tours.len()
    &&& forall|i: int|
        0 <= i < tours.len() ==> is_path_of(edges, tours[i], starts[i], (#[trigger] paths[i])@)
}

/// A road is the same edge as one in the graph of the roads before it
/// exactly if it is the same road as one of them.
pub proof fn lemma_repeat_present(before: Graph<RoadNode, RoadEdge>, roads: Seq<RoadSegment>, k: int)
    requires
        before.wf(),
        0 <= k < roads.len(),
        before.edge_seq().len() == kept_roads(roads.take(k)).len(),
        forall|j: int|
            0 <= j < before.edge_seq().len() ==> #[trigger] before.edge_seq()[j] == road_edge(
                kept_roads(roads.take(k))[j],
            ),
        before@.has(roads[k].p2),
        before.edge_seq().len() <= usize::MAX,
    ensures
        before.is_present(road_edge(roads[k])) <==> is_repeat(roads.take(k + 1), k),
        kept_roads(roads.take(k + 1)) == if is_repeat(roads.take(k + 1), k) {
            kept_roads(roads.take(k))
        } else {
            kept_roads(roads.take(k)).push(roads[k])
        },
{
    let seg = roads[k];
    let e = road_edge(seg);
    let t = roads.take(k);
    let t1 = roads.take(k + 1);
    assert(t1.drop_last() == t);
    assert(t1.last() == seg);
    lemma_kept_roads(t);
    let kept = kept_roads(t);
    let slot = before@.slot(seg.p2);
    if before.is_present(e) {
        let kk = choose|kk: int| #[trigger] before.is_same_at(e, slot, kk);
        let x = before@.inc[slot][kk] as int;
        assert(before.edge_seq()[x] == road_edge(kept[x]));
        assert(is_road_in(t, kept[x]));
        let j = choose|j: int| 0 <= j < t.len() && #[trigger] t[j] == kept[x];
        assert(same_road(t1[j], t1[k]));
        assert(is_repeat(t1, k));
    }
    if is_repeat(t1, k) {
        let j = choose|j: int| 0 <= j < k && same_road(#[trigger] t1[j], t1[k]);
        assert(has_road_like(kept, t[j]));
        let i = choose|i: int| 0 <= i < kept.len() && same_road(#[trigger] kept[i], t[j]);
        assert(before.edge_seq()[i] == road_edge(kept[i]));
        assert(0 <= before@.tail(i) < before@.nodes());
        assert(before@.ids[before@.head(i)] == before.edge_seq()[i].p2_spec());
        lemma_slot_unique(before@, before@.head(i));
        assert(before@.inc[slot].contains(i as usize));
        let kk = choose|kk: int| 0 <= kk < before@.inc[slot].len() && before@.inc[slot][kk] == i as usize;
        assert(t[j] == t1[j]);
        assert(same_road(kept[i], seg));
        assert(road_edge(kept[i]).same_edge(&e));
        assert(before.edge_seq()[before@.inc[slot][kk] as int].same_spec(&e));
        assert(before.is_same_at(e, slot, kk));
        assert(before.is_present(e));
    }
}

/// The graph of a road network: a node for each node of the network and
/// an edge for each road, in order; a road that is the same road as one
/// before it is left out. A road that names a node which the network
/// lacks is refused, the first such road.
#[verifier::rlimit(40)]
pub fn build_graph(roads: &RoadGraph) -> (r: Result<Graph<RoadNode, RoadEdge>, PlanError>)
    ensures
        match r {
            Ok(g) => {
                &&& is_graph_of(g, *roads)
                &&& g.edge_seq().len() == kept_roads(roads.roads@).len()
                &&& forall|k: int| 0 <= k < roads.roads@.len() ==> road_known(*roads, k)
            },
            Err(PlanError::UnknownNode(k)) => {
                &&& k < roads.roads@.len()
                &&& !road_known(*roads, k as int)
                &&& forall|j: int| 0 <= j < k ==> road_known(*roads, j)
            },
            Err(_) => false,
        },
{
    let mut g: Graph<RoadNode, RoadEdge> = Graph::new();
    let ghost nodes = roads.nodes.nodes@;
    let mut i: usize = 0;
    while i < roads.nodes.nodes.len()
        invariant
            nodes == roads.nodes.nodes@,
            i <= nodes.len(),
            g.wf(),
            g.edge_seq().len() == 0,
            forall|id: u64| #[trigger] g@.has(id) <==> known(nodes.take(i as int), id),
            forall|j: int|
                0 <= j < i && #[trigger] is_last_of(nodes, j, i as int) ==> g.payloads()[g@.slot(
                    nodes[j].id,
                )] == road_node(nodes[j]),
        decreases roads.nodes.nodes.len() - i,
    {
        let n = roads.nodes.nodes[i];
        let ghost before = g@;
        let ghost seen = nodes.take(i as int);
        let ghost next = nodes.take(i as int + 1);
        g.add_node(n.id, RoadNode::from(n));
        proof {
            assert forall|id: u64| #[trigger] g@.has(id) <==> known(next, id) by {
                if g@.has(id) {
                    let s = choose|s: int| 0 <= s < g@.ids.len() && g@.ids[s] == id;
                    if s < before.ids.len() && before.ids[s] == id {
                        assert(before.has(id));
                        let j = choose|j: int| 0 <= j < seen.len() && (#[trigger] seen[j]).id == id;
                        assert(next[j].id == id);
                    } else {
                        assert(id == n.id);
                        assert(next[i as int].id == id);
                    }
                }
                if known(next, id) {
                    let j = choose|j: int| 0 <= j < next.len() && (#[trigger] next[j]).id == id;
                    if j < i {
                        assert(seen[j].id == id);
                        assert(before.has(id));
                        let s = choose|s: int| 0 <= s < before.ids.len() && before.ids[s] == id;
                        assert(g@.ids[s] == id);
                    } else {
                        assert(id == n.id);
                        if before.has(id) {
                            let s = choose|s: int| 0 <= s < before.ids.len() && before.ids[s] == id;
                            assert(g@.ids[s] == id);
                        } else {
                            assert(g@.ids[g@.ids.len() - 1] == id);
                        }
                    }
                }
            }
        }
        proof {
            assert forall|j: int|
                0 <= j < i + 1 && #[trigger] is_last_of(nodes, j, i as int + 1) implies g.payloads()[g@.slot(
                nodes[j].id,
            )] == road_node(nodes[j]) by {
                let id = nodes[j].id;
                if j == i {
                    if before.has(id) {
                    } else {
                        lemma_slot_unique(g@, before.ids.len() as int);
                    }
                } else {
                    assert(is_last_of(nodes, j, i as int));
                    assert(nodes[i as int].id != id);
                    assert(seen[j].id == id);
                    assert(before.has(id));
                    let s = before.slot(id);
                    lemma_slot_unique(g@, s);
                    if before.has(n.id) {
                        lemma_slot_unique(before, before.slot(n.id));
                    }
                }
            }
        }
        i = i + 1;
    }
    assert(nodes.take(nodes.len() as int) == nodes);
    let mut k: usize = 0;
    while k < roads.roads.len()
        invariant
            nodes == roads.nodes.nodes@,
            k <= roads.roads@.len(),
            g.wf(),
            forall|id: u64| #[trigger] g@.has(id) <==> known(nodes, id),
            forall|j: int|
                0 <= j < nodes.len() && #[trigger] is_last_of(nodes, j, nodes.len() as int)
                    ==> g.payloads()[g@.slot(nodes[j].id)] == road_node(nodes[j]),
            g.edge_seq().len() == kept_roads(roads.roads@.take(k as int)).len(),
            forall|j: int|
                0 <= j < g.edge_seq().len() ==> #[trigger] g.edge_seq()[j] == road_edge(
                    kept_roads(roads.roads@.take(k as int))[j],
                ),
            forall|j: int| 0 <= j < k ==> road_known(*roads, j),
        decreases roads.roads.len() - k,
    {
        let seg = roads.roads[k];
        let e = RoadEdge {
            p1: seg.p1,
            p2: seg.p2,
            discriminator: seg.discriminator,
            directed: seg.directed,
            length: seg.distance,
            iidx: 0,
        };
        let ghost before = g;
        if !g.add_edge(e) {
            assert(!(known(nodes, seg.p1) && known(nodes, seg.p2))) by {
                assert(before@.has(seg.p1) <==> known(nodes, seg.p1));
                assert(before@.has(seg.p2) <==> known(nodes, seg.p2));
            }
            return Err(PlanError::UnknownNode(k));
        }
        proof {
            assert(before@.has(seg.p1) <==> known(nodes, seg.p1));
            assert(before@.has(seg.p2) <==> known(nodes, seg.p2));
            before.lemma_edges_counted();
            lemma_repeat_present(before, roads.roads@, k as int);
            assert(g@.ids == before@.ids);
            assert forall|id: u64| #[trigger] g@.has(id) <==> known(nodes, id) by {
                assert(g@.has(id) <==> before@.has(id));
            }
            assert forall|j: int|
                0 <= j < nodes.len() && #[trigger] is_last_of(
                    nodes,
                    j,
                    nodes.len() as int,
                ) implies g.payloads()[g@.slot(nodes[j].id)] == road_node(nodes[j]) by {
                assert(known(nodes, nodes[j].id));
                assert(before@.has(nodes[j].id));
                lemma_slot_unique(g@, before@.slot(nodes[j].id));
            }
        }
        k = k + 1;
    }
    assert(roads.roads@.take(roads.roads@.len() as int) == roads.roads@);
    Ok(g)
}

/// The nodes at which a tour stands from `start` on, each but the first
/// with the discriminator of the road that led to it.
pub fn path_segments(g: &Graph<RoadNode, RoadEdge>, tour: &Vec<usize>, start: u64) -> (r: Vec<
    PathSegment,
>)
    requires
        g.wf(),
        forall|i: int| 0 <= i < tour.len() ==> (#[trigger] tour[i]) < g@.edges(),
    ensures
        is_path_of(g.edge_seq(), tour@, start, r@),
{
    let mut r: Vec<PathSegment> = Vec::new();
    r.push(PathSegment { node: start, discriminator: None });
    let mut at = start;
    let mut i: usize = 0;
    while i < tour.len()
        invariant
            g.wf(),
            forall|j: int| 0 <= j < tour.len() ==> (#[trigger] tour[j]) < g@.edges(),
            i <= tour.len(),
            r.len() == i + 1,
            r[0] == (PathSegment { node: start, discriminator: None }),
            at == r[i as int].node,
            forall|j: int|
                0 <= j < i ==> (#[trigger] r[j + 1]) == (PathSegment {
                    node: other_end(
                        g.edge_seq()[tour[j] as int].p1,
                        g.edge_seq()[tour[j] as int].p2,
                        r[j].node,
                    ),
                    discriminator: g.edge_seq()[tour[j] as int].discriminator,
                }),
        decreases tour.len() - i,
    {
        let e = g.edge(tour[i]);
        at = e.other(at);
        r.push(PathSegment { node: at, discriminator: e.discriminator });
        i = i + 1;
    }
    r
}

/// The nodes that the locations stand for, or the position of the first
/// location that stands for no node of the network.
pub fn locate_all(roads: &RoadGraph, locations: &Vec<Location>) -> (r: Result<Vec<u64>, usize>)
    ensures
        match r {
            Ok(found) => {
                &&& found.len() == locations.len()
                &&& forall|i: int|
                    0 <= i < locations.len() ==> #[trigger] placed(
                        roads.nodes.nodes@,
                        locations@,
                        i,
                    )
                &&& forall|i: int|
                    0 <= i < locations.len() ==> located(roads.nodes.nodes@, locations@[i])
                        == Some(#[trigger] found[i])
            },
            Err(i) => {
                &&& i < locations.len()
                &&& !placed(roads.nodes.nodes@, locations@, i as int)
                &&& forall|j: int|
                    0 <= j < i ==> #[trigger] placed(roads.nodes.nodes@, locations@, j)
            },
        },
{
    let mut found: Vec<u64> = Vec::new();
    let mut i: usize = 0;
    while i < locations.len()
        invariant
            i <= locations.len(),
            found.len() == i,
            forall|j: int| 0 <= j < i ==> #[trigger] placed(roads.nodes.nodes@, locations@, j),
            forall|j: int|
                0 <= j < i ==> located(roads.nodes.nodes@, locations@[j]) == Some(
                    #[trigger] found[j],
                ),
        decreases locations.len() - i,
    {
        match roads.nodes.locate(&locations[i]) {
            Some(id) => {
                if !is_known(&roads.nodes.nodes, id) {
                    return Err(i);
                }
                found.push(id);
            },
            None => {
                return Err(i);
            },
        }
        i = i + 1;
    }
    Ok(found)
}

/// Whether `id` names one of the nodes.
pub fn is_known(nodes: &Vec<Node>, id: u64) -> (r: bool)
    ensures
        r == known(nodes@, id),
{
    let mut i: usize = 0;
    while i < nodes.len()
        invariant
            i <= nodes.len(),
            forall|j: int| 0 <= j < i ==> (#[trigger] nodes[j]).id != id,
        decreases nodes.len() - i,
    {
        if nodes[i].id == id {
            return true;
        }
        i = i + 1;
    }
    false
}

/// Whether edge `j` is a copy of an edge below number `m0`: the same
/// road with the next duplication index.
pub open spec fn is_road_copy(edges: Seq<RoadEdge>, m0: int, j: int) -> bool {
    exists|i: int|
        0 <= i < m0 && edges[i].iidx < u64::MAX && edges[j] == (RoadEdge {
            iidx: (edges[i].iidx + 1) as u64,
            ..#[trigger] edges[i]
        })
}

/// Whether edge `e` has a copy among the edges from number `m0` on.
pub open spec fn is_road_copied(edges: Seq<RoadEdge>, m0: int, e: int) -> bool {
    exists|j: int|
        m0 <= j < edges.len() && edges[e].iidx < u64::MAX && #[trigger] edges[j] == (RoadEdge {
            iidx: (edges[e].iidx + 1) as u64,
            ..edges[e]
        })
}

/// Whether edge `e` is a duplicate of an edge on the incidence list of
/// slot `s`.
pub open spec fn has_road_partner(net: Net, edges: Seq<RoadEdge>, s: int, e: int) -> bool {
    exists|k: int|
        0 <= k < net.inc[s].len() && edges[e].duped_spec(&edges[#[trigger] net.inc[s][k] as int])
}

/// Whether road `e` at slot `s` may not be doubled, whatever has been
/// doubled before: it is a self-loop, it has no priority, it has a
/// duplicate at the node already, or directions count and it points the
/// wrong way.
pub open spec fn is_road_blocked(
    net: Net,
    edges: Seq<RoadEdge>,
    direspect: bool,
    priority: Seq<Option<u128>>,
    s: int,
    e: int,
) -> bool {
    ||| net.is_loop(e)
    ||| priority[e] is None
    ||| has_road_partner(net, edges, s, e)
    ||| direspect && misdirected(net, s, e)
}

/// Whether `origin` names, for each edge from number `m0` on, the road
/// below `m0` that it is a copy of, and names no road twice.
pub open spec fn are_road_origins(edges: Seq<RoadEdge>, m0: int, origin: Seq<int>) -> bool {
    &&& origin.len() + m0 == edges.len()
    &&& origin.no_duplicates()
    &&& forall|k: int|
        0 <= k < origin.len() ==> 0 <= #[trigger] origin[k] < m0 && edges[origin[k]].iidx < u64::MAX
            && edges[m0 + k] == (RoadEdge {
            iidx: (edges[origin[k]].iidx + 1) as u64,
            ..edges[origin[k]]
        })
}

/// Whether the graph `after` is what the doubling of roads makes of the
/// graph `before`, with the outcome `r`.
///
/// Nothing but copies of roads is added, no road is copied twice and no
/// copy is copied. A graph in which no node has a single road and every
/// node is fit is left as it is. Where directions count and the first node
/// with a single road has a one-way road into it, that road is reported
/// and nothing is added. On success every node is fit. A node is reported
/// as stuck only where it is unfit and each of its roads is a copy, has
/// been copied, or may not be doubled.
pub open spec fn is_fitted(
    before: Graph<RoadNode, RoadEdge>,
    after: Graph<RoadNode, RoadEdge>,
    direspect: bool,
    priority: Seq<Option<u128>>,
    r: Result<(), Obstacle>,
) -> bool {
    let m0 = before.edge_seq().len() as int;
    &&& after.wf()
    &&& after.payloads() == before.payloads()
    &&& grown(after@, before@)
    &&& after.edge_seq().take(m0) == before.edge_seq()
    &&& exists|origin: Seq<int>| #[trigger] are_road_origins(after.edge_seq(), m0, origin)
    &&& forall|j: int|
        m0 <= j < after.edge_seq().len() ==> #[trigger] is_road_copy(after.edge_seq(), m0, j)
    &&& is_fit(before, after, direspect, RoadEdge::duped, priority, RoadEdge::dupe, r)
    &&& !direspect && is_plain(before, RoadEdge::duped, priority, RoadEdge::dupe) ==> r is Ok
    &&& is_quiet(before@, direspect) ==> r is Ok && after == before
    &&& forall|s: int| #[trigger]
        is_first_dead_end(before@, direspect, s) ==> r == Err::<(), Obstacle>(
            Obstacle::DeadEnd(before@.inc[s][0]),
        ) && after == before
    &&& match r {
        Ok(()) => forall|s: int|
            0 <= s < after@.nodes() ==> #[trigger] after@.compatible(direspect, s),
        Err(Obstacle::DeadEnd(e)) => {
            &&& direspect
            &&& e < after@.edges()
            &&& after@.one_way[e as int]
            &&& after@.inc[after@.head(e as int)] == seq![e]
        },
        Err(Obstacle::Stuck(n)) => {
            &&& after@.has(n)
            &&& !after@.compatible(direspect, after@.slot(n))
            &&& forall|k: int|
                0 <= k < after@.inc[after@.slot(n)].len() ==> {
                    let e = #[trigger] after@.inc[after@.slot(n)][k];
                    ||| e >= m0
                    ||| is_road_copied(after.edge_seq(), m0, e as int)
                    ||| is_road_blocked(
                        after@,
                        after.edge_seq(),
                        direspect,
                        priority,
                        after@.slot(n),
                        e as int,
                    )
                }
        },
    }
}

/// Whether the roads `i` and `j` are the same road but for the
/// duplication index.
pub open spec fn are_alike(edges: Seq<RoadEdge>, i: int, j: int) -> bool {
    edges[i].similar_spec(&edges[j])
}

/// Roads with one duplication index, no two of them the same road but for
/// that, are no duplicates of one another, nor of copies of one another.
pub proof fn lemma_roads_apart(edges: Seq<RoadEdge>)
    requires
        forall|i: int, j: int|
            0 <= i < edges.len() && 0 <= j < edges.len() ==> (#[trigger] edges[i]).iidx
                == (#[trigger] edges[j]).iidx,
        forall|i: int, j: int|
            0 <= i < edges.len() && 0 <= j < edges.len() && i != j ==> !#[trigger] are_alike(
                edges,
                i,
                j,
            ),
    ensures
        are_apart(edges, RoadEdge::duped, RoadEdge::dupe),
{
    assert forall|i: int, j: int| 0 <= i < edges.len() && 0 <= j < edges.len() implies !#[trigger] call_ensures(
        RoadEdge::duped,
        (&edges[i], &edges[j]),
        true,
    ) by {
        assert(edges[i].iidx == edges[j].iidx);
    }
    assert forall|i: int, j: int, c: RoadEdge|
        0 <= i < edges.len() && 0 <= j < edges.len() && i != j && #[trigger] call_ensures(
            RoadEdge::dupe,
            (&edges[j],),
            c,
        ) implies !#[trigger] call_ensures(RoadEdge::duped, (&edges[i], &c), true) by {
        assert(!are_alike(edges, i, j));
    }
}

/// Makes a road graph fit for closed walks over all its edges by adding
/// copies of roads, those of the lowest priority in `priority` first.
/// Where directions do not count, this ends well for roads that are no
/// self-loops, have each a priority and are no duplicates of one another.
#[verifier::rlimit(40)]
pub fn fit<const DIRESPECT: bool>(g: &mut Graph<RoadNode, RoadEdge>, priority: &Vec<Option<u128>>) -> (r:
    Result<(), Obstacle>)
    requires
        old(g).wf(),
        priority.len() == old(g)@.edges(),
        forall|i: int| 0 <= i < old(g).edge_seq().len() ==> (#[trigger] old(g).edge_seq()[i]).iidx < u64::MAX,
    ensures
        is_fitted(*old(g), *final(g), DIRESPECT, priority@, r),
{
    let ghost start = *g;
    let ghost before = g.edge_seq();
    let duped = RoadEdge::duped;
    let dupe = RoadEdge::dupe;
    let r = g.eulirianize::<_, _, DIRESPECT>(duped, priority, dupe);
    proof {
        let m0 = before.len() as int;
        let edges = g.edge_seq();
        assert forall|j: int| m0 <= j < edges.len() implies #[trigger] is_road_copy(edges, m0, j) by {
            assert(made(dupe, edges, m0, j));
            let i = choose|i: int| 0 <= i < m0 && #[trigger] is_copy(dupe, edges, i, j);
            assert(edges.take(m0)[i] == edges[i]);
            assert(before[i].iidx < u64::MAX);
        }
        let origin = choose|origin: Seq<int>| #[trigger] are_origins(dupe, edges, m0, origin);
        assert(are_road_origins(edges, m0, origin)) by {
            assert forall|k: int| 0 <= k < origin.len() implies 0 <= #[trigger] origin[k] < m0
                && edges[origin[k]].iidx < u64::MAX && edges[m0 + k] == (RoadEdge {
                iidx: (edges[origin[k]].iidx + 1) as u64,
                ..edges[origin[k]]
            }) by {
                assert(is_copy(dupe, edges, origin[k], m0 + k));
                assert(edges.take(m0)[origin[k]] == edges[origin[k]]);
                assert(before[origin[k]].iidx < u64::MAX);
            }
        }
        match r {
            Err(Obstacle::Stuck(n)) => {
                let s = g@.slot(n);
                assert forall|k: int| 0 <= k < g@.inc[s].len() implies ({
                    let e = #[trigger] g@.inc[s][k];
                    ||| e >= m0
                    ||| is_road_copied(edges, m0, e as int)
                    ||| is_road_blocked(g@, edges, DIRESPECT, priority@, s, e as int)
                }) by {
                    let e = g@.inc[s][k] as int;
                    if e < m0 {
                        assert(edges.take(m0)[e] == edges[e]);
                        assert(before[e].iidx < u64::MAX);
                        if copied(dupe, edges, m0, e) {
                            let j = choose|j: int|
                                m0 <= j < edges.len() && #[trigger] is_copy(dupe, edges, e, j);
                            assert(edges[j] == (RoadEdge {
                                iidx: (edges[e].iidx + 1) as u64,
                                ..edges[e]
                            }));
                        } else {
                            assert(blocked(g@, edges, DIRESPECT, duped, priority@, s, e));
                            if has_partner(g@, edges, duped, s, e) {
                                let k2 = choose|k2: int|
                                    0 <= k2 < g@.inc[s].len() && #[trigger] call_ensures(
                                        duped,
                                        (&edges[e], &edges[g@.inc[s][k2] as int]),
                                        true,
                                    );
                                assert(edges[e].duped_spec(&edges[g@.inc[s][k2] as int]));
                            }
                        }
                    }
                }
            },
            _ => {},
        }
    }
    r
}

/// The priority of the edge numbered `e` in the doubling of roads for
/// drones: edges between two nodes of odd degree come first, those with
/// one such end next, and among equals the shorter.
pub open spec fn flight_rank(net: Net, length: u64, e: int) -> u128 {
    let odd = (net.inc[net.tail(e)].len() % 2 + net.inc[net.head(e)].len() % 2) as int;
    ((2 - odd) * 0x1_0000_0000_0000_0000 + length) as u128
}

/// The priorities for the doubling of roads for drones.
pub fn flight_ranks(g: &Graph<RoadNode, RoadEdge>) -> (r: Vec<Option<u128>>)
    requires
        g.wf(),
    ensures
        r.len() == g@.edges(),
        forall|e: int|
            0 <= e < r.len() ==> #[trigger] r[e] == Some(
                flight_rank(g@, g.edge_seq()[e].length, e),
            ),
{
    let m = g.edge_count();
    let mut r: Vec<Option<u128>> = Vec::new();
    let mut e: usize = 0;
    while e < m
        invariant
            g.wf(),
            m == g@.edges(),
            e <= m,
            r.len() == e,
            forall|x: int|
                0 <= x < e ==> #[trigger] r[x] == Some(flight_rank(g@, g.edge_seq()[x].length, x)),
        decreases m - e,
    {
        let (t, h) = g.ends[e];
        assert(0 <= g@.tail(e as int) < g@.nodes());
        let odd: u128 = (g.incidence[t].len() % 2) as u128 + (g.incidence[h].len() % 2) as u128;
        let length: u128 = g.edges[e].length as u128;
        r.push(Some((2 - odd) * 0x1_0000_0000_0000_0000 + length));
        e = e + 1;
    }
    r
}

/// Paths for drones, with the graph they run on.
#[derive(Debug)]
pub struct FlightPlan {
    /// The graph of the network, with the roads doubled that had to be.
    pub graph: Graph<RoadNode, RoadEdge>,
    /// The node from which each drone starts.
    pub anchors: Vec<u64>,
    /// The closed walk of each drone, as numbers of edges of the graph.
    pub tours: Vec<Vec<usize>>,
    /// The edges that no drone takes.
    pub residual: Vec<usize>,
    /// The closed walk of each drone, as nodes.
    pub paths: Vec<Vec<PathSegment>>,
}

/// Whether every location stands for a node of the network.
pub open spec fn all_placed(nodes: Seq<Node>, locations: Seq<Location>) -> bool {
    forall|i: int| 0 <= i < locations.len() ==> #[trigger] placed(nodes, locations, i)
}

/// Whether the location at position `i` is the first that stands for no
/// node of the network.
pub open spec fn is_first_unplaced(nodes: Seq<Node>, locations: Seq<Location>, i: int) -> bool {
    &&& 0 <= i < locations.len()
    &&& !placed(nodes, locations, i)
    &&& forall|j: int| 0 <= j < i ==> #[trigger] placed(nodes, locations, j)
}

/// Whether every road joins nodes of the network.
pub open spec fn all_known(roads: RoadGraph) -> bool {
    forall|k: int| 0 <= k < roads.roads@.len() ==> #[trigger] road_known(roads, k)
}

/// Whether the road at position `k` is the first that names a node which
/// the network lacks.
pub open spec fn is_first_unknown(roads: RoadGraph, k: int) -> bool {
    &&& 0 <= k < roads.roads@.len()
    &&& !road_known(roads, k)
    &&& forall|j: int| 0 <= j < k ==> #[trigger] road_known(roads, j)
}

/// Whether `graph` is the graph of the network `roads` as it is built:
/// its nodes and roads, and no edge more.
pub open spec fn is_built(graph: Graph<RoadNode, RoadEdge>, roads: RoadGraph) -> bool {
    is_graph_of(graph, roads) && graph.edge_seq().len() == kept_roads(roads.roads@).len()
}

/// The priorities for the doubling of roads for drones.
pub open spec fn flight_ranks_of(g: Graph<RoadNode, RoadEdge>) -> Seq<Option<u128>> {
    Seq::new(g@.edges(), |e: int| Some(flight_rank(g@, g.edge_seq()[e].length, e)))
}

/// The priorities for the doubling of roads for plows: all the same.
pub open spec fn flat_ranks(m: nat) -> Seq<Option<u128>> {
    Seq::new(m, |e: int| Some(0u128))
}

/// Whether `graph` is what the doubling of roads for drones makes of the
/// graph of the network, with the outcome `r`.
pub open spec fn is_flight_fitted(
    roads: RoadGraph,
    graph: Graph<RoadNode, RoadEdge>,
    r: Result<(), Obstacle>,
) -> bool {
    exists|built: Graph<RoadNode, RoadEdge>|
        #[trigger] is_built(built, roads) && is_fitted(
            built,
            graph,
            false,
            flight_ranks_of(built),
            r,
        )
}

/// Whether `graph` is what the doubling of roads for plows makes of the
/// graph of the network, with the outcome `r`.
pub open spec fn is_plow_fitted(
    roads: RoadGraph,
    graph: Graph<RoadNode, RoadEdge>,
    r: Result<(), Obstacle>,
) -> bool {
    exists|built: Graph<RoadNode, RoadEdge>|
        #[trigger] is_built(built, roads) && is_fitted(
            built,
            graph,
            false,
            flat_ranks(built@.edges()),
            r,
        )
}

/// The graph of a network with roads doubled is still the graph of the
/// network, with copies behind the roads.
pub proof fn lemma_fitted_graph(
    built: Graph<RoadNode, RoadEdge>,
    graph: Graph<RoadNode, RoadEdge>,
    roads: RoadGraph,
    priority: Seq<Option<u128>>,
    r: Result<(), Obstacle>,
)
    requires
        is_built(built, roads),
        is_fitted(built, graph, false, priority, r),
    ensures
        is_graph_of(graph, roads),
{
    assert forall|id: u64| #[trigger] graph@.has(id) <==> known(roads.nodes.nodes@, id) by {
        assert(graph@.ids == built@.ids);
        assert(graph@.has(id) <==> built@.has(id));
    }
    assert forall|k: int| 0 <= k < kept_roads(roads.roads@).len() implies #[trigger] graph.edge_seq()[k]
        == road_edge(kept_roads(roads.roads@)[k]) by {
        assert(graph.edge_seq().take(built.edge_seq().len() as int)[k] == graph.edge_seq()[k]);
    }
    assert forall|i: int|
        0 <= i < roads.nodes.nodes@.len() && #[trigger] is_last_of(
            roads.nodes.nodes@,
            i,
            roads.nodes.nodes@.len() as int,
        ) implies graph.payloads()[graph@.slot(roads.nodes.nodes@[i].id)] == road_node(
        roads.nodes.nodes@[i],
    ) by {
        assert(known(roads.nodes.nodes@, roads.nodes.nodes@[i].id));
        assert(built@.has(roads.nodes.nodes@[i].id));
        lemma_slot_unique(graph@, built@.slot(roads.nodes.nodes@[i].id));
    }
}

/// The node that each location stands for.
pub open spec fn starts_of(nodes: Seq<Node>, locations: Seq<Location>) -> Seq<u64> {
    Seq::new(locations.len(), |i: int| located(nodes, locations[i])->0)
}

/// Whether `plan` is a plan for drones at `drones` over the network
/// `roads`: its graph is the graph of the network with the roads doubled
/// that had to be, and fit for closed walks; each drone starts at the
/// node its location stands for; the walks are a cover of the graph from
/// those nodes; and the paths list the nodes of the walks.
pub open spec fn is_flight_plan(plan: FlightPlan, roads: RoadGraph, drones: Seq<Location>) -> bool {
    &&& is_flight_fitted(roads, plan.graph, Ok(()))
    &&& is_graph_of(plan.graph, roads)
    &&& plan.anchors@ == starts_of(roads.nodes.nodes@, drones)
    &&& is_cover(
        plan.graph@,
        false,
        lengths_of(plan.graph),
        plan.anchors@,
        views(plan.tours@),
        plan.residual@,
    )
    &&& is_covered(plan.graph@, false, lengths_of(plan.graph), plan.anchors@, views(plan.tours@))
    &&& are_paths_of(plan.graph.edge_seq(), views(plan.tours@), plan.anchors@, plan.paths@)
}

/// Whether the doubling of roads for drones fails on the network with the
/// obstacle `o`.
pub open spec fn is_flight_unfit(roads: RoadGraph, o: Obstacle) -> bool {
    exists|graph: Graph<RoadNode, RoadEdge>| #[trigger]
        is_flight_fitted(roads, graph, Err::<(), Obstacle>(o))
}

/// Whether `e` is why no paths for drones can be made: the first drone
/// that stands for no node; else the first road that names a node which
/// the network lacks; else the obstacle on which the doubling of roads
/// fails.
pub open spec fn is_flight_failure(roads: RoadGraph, drones: Seq<Location>, e: PlanError) -> bool {
    match e {
        PlanError::Unlocated(i) => is_first_unplaced(roads.nodes.nodes@, drones, i as int),
        PlanError::UnknownNode(k) => all_placed(roads.nodes.nodes@, drones) && is_first_unknown(
            roads,
            k as int,
        ),
        PlanError::Unfit(o) => all_placed(roads.nodes.nodes@, drones) && all_known(roads)
            && is_flight_unfit(roads, o),
        _ => false,
    }
}

/// The path of each tour.
pub fn paths_of(g: &Graph<RoadNode, RoadEdge>, tours: &Vec<Vec<usize>>, starts: &Vec<u64>) -> (r:
    Vec<Vec<PathSegment>>)
    requires
        g.wf(),
        tours.len() == starts.len(),
        forall|i: int, k: int|
            0 <= i < tours.len() && 0 <= k < tours[i]@.len() ==> (#[trigger] tours[i]@[k]) < g@.edges(),
    ensures
        are_paths_of(g.edge_seq(), views(tours@), starts@, r@),
{
    let mut r: Vec<Vec<PathSegment>> = Vec::new();
    let mut i: usize = 0;
    while i < tours.len()
        invariant
            g.wf(),
            tours.len() == starts.len(),
            forall|j: int, k: int|
                0 <= j < tours.len() && 0 <= k < tours[j]@.len() ==> (#[trigger] tours[j]@[k])
                    < g@.edges(),
            i <= tours.len(),
            r.len() == i,
            forall|j: int|
                0 <= j < i ==> is_path_of(
                    g.edge_seq(),
                    views(tours@)[j],
                    starts@[j],
                    (#[trigger] r[j])@,
                ),
        decreases tours.len() - i,
    {
        assert forall|k: int| 0 <= k < tours[i as int]@.len() implies (#[trigger] tours[i as int][k])
            < g@.edges() by {
            assert(tours[i as int]@[k] < g@.edges());
        }
        let p = path_segments(g, &tours[i], starts[i]);
        assert(views(tours@)[i as int] == tours[i as int]@);
        r.push(p);
        i = i + 1;
    }
    r
}

/// Paths for drones over a road network: the network is made fit for
/// closed walks over all its roads by doubling roads, and the roads are
/// covered by closed walks, one from the node of each drone.
///
/// The first drone whose location stands for no node of the network is an
/// error; else the first road between nodes that the network lacks; else
/// the obstacle on which the doubling of roads fails.
#[verifier::rlimit(40)]
pub fn construct_flight_paths(roads: RoadGraph, drones: &Vec<Location>) -> (r: Result<
    FlightPlan,
    PlanError,
>)
    ensures
        forall|i: int| #[trigger]
            is_first_unplaced(roads.nodes.nodes@, drones@, i) ==> r is Err && r->Err_0
                == PlanError::Unlocated(i as usize),
        all_placed(roads.nodes.nodes@, drones@) ==> forall|k: int| #[trigger]
            is_first_unknown(roads, k) ==> r is Err && r->Err_0 == PlanError::UnknownNode(
                k as usize,
            ),
        r is Ok ==> all_placed(roads.nodes.nodes@, drones@) && all_known(roads) && is_flight_plan(
            r->Ok_0,
            roads,
            drones@,
        ),
        r is Err ==> is_flight_failure(roads, drones@, r->Err_0),
{
    let ghost nodes = roads.nodes.nodes@;
    let anchors = match locate_all(&roads, drones) {
        Ok(found) => found,
        Err(i) => {
            proof {
                assert(is_first_unplaced(nodes, drones@, i as int));
                assert forall|j: int| #[trigger] is_first_unplaced(nodes, drones@, j) implies j
                    == i by {
                    if j < i {
                        assert(placed(nodes, drones@, j));
                    } else if i < j {
                        assert(placed(nodes, drones@, i as int));
                    }
                }
            }
            return Err(PlanError::Unlocated(i));
        },
    };
    proof {
        assert(all_placed(nodes, drones@));
        assert forall|j: int| !#[trigger] is_first_unplaced(nodes, drones@, j) by {
            if 0 <= j < drones@.len() {
                assert(placed(nodes, drones@, j));
            }
        }
        assert(anchors@ =~= starts_of(nodes, drones@));
    }
    let mut graph = match build_graph(&roads) {
        Ok(g) => g,
        Err(e) => {
            proof {
                match e {
                    PlanError::UnknownNode(k) => {
                        assert(is_first_unknown(roads, k as int));
                        assert forall|j: int| #[trigger] is_first_unknown(roads, j) implies j
                            == k by {
                            if j < k {
                                assert(road_known(roads, j));
                            } else if k < j {
                                assert(road_known(roads, k as int));
                            }
                        }
                    },
                    _ => {},
                }
            }
            return Err(e);
        },
    };
    proof {
        assert(all_known(roads));
        assert forall|j: int| !#[trigger] is_first_unknown(roads, j) by {
            if 0 <= j < roads.roads@.len() {
                assert(road_known(roads, j));
            }
        }
    }
    let ghost built = graph;
    let ranks = flight_ranks(&graph);
    assert(ranks@ =~= flight_ranks_of(built));
    let fitted = fit::<false>(&mut graph, &ranks);
    proof {
        assert(is_built(built, roads));
        assert(is_flight_fitted(roads, graph, fitted));
        lemma_fitted_graph(built, graph, roads, ranks@, fitted);
    }
    match fitted {
        Ok(u) => {
            assert(u == ());
            assert(fitted == Ok::<(), Obstacle>(u));
        },
        Err(o) => {
            assert(is_flight_unfit(roads, o));
            return Err(PlanError::Unfit(o));
        },
    }
    let weights = edge_weights(&graph);
    let cover = graph.cycle_cover::<false>(&anchors, &weights);
    let tours = cover.tours;
    let residual = cover.residual;
    proof {
        assert forall|i: int, k: int|
            0 <= i < tours.len() && 0 <= k < tours[i]@.len() implies (#[trigger] tours[i]@[k])
            < graph@.edges() by {
            assert(placed(nodes, drones@, i));
            assert(graph@.has(anchors@[i]));
            assert(views(tours@)[i] == tours[i]@);
            lemma_walk_edges(
                graph@,
                false,
                lengths_of(graph),
                tours[i]@,
                graph@.slot(anchors@[i]),
            );
        }
    }
    let paths = paths_of(&graph, &tours, &anchors);
    Ok(FlightPlan { graph, anchors, tours, residual, paths })
}

/// Tours for plows, with what the search for them ended on.
#[derive(Debug)]
pub struct PlowPlan {
    /// The solver, with the graph of the network, the roads doubled that
    /// had to be.
    pub solver: PlowSolver<RoadNode, RoadEdge>,
    /// The node from which each vehicle starts.
    pub starts: Vec<u64>,
    /// The edges to clear.
    pub snowy: HashSet<usize>,
    /// What the search ended on: the tours as numbers of edges, and the
    /// shares of the vehicles.
    pub state: Progress,
    /// The tour of each vehicle, as nodes.
    pub paths: Vec<Vec<PathSegment>>,
}

/// Whether `edge` is the road that the observation `s` is of: a road of
/// the network itself, with the observation's discriminator, between
/// the observation's nodes.
pub open spec fn is_road_of(edge: RoadEdge, s: SnowStatusElement) -> bool {
    &&& edge.iidx == 0
    &&& edge.discriminator == s.discriminator
    &&& (edge.p1 == s.p1 || edge.p2 == s.p1)
    &&& other_end(edge.p1, edge.p2, s.p1) == s.p2
}

/// Whether every edge counts as snowy, whatever has been observed.
pub open spec fn snow_everywhere(snow_d: Option<i64>) -> bool {
    snow_d is Some && snow_d->0 > 0
}

/// Whether the first edge at the first node of the observation `s` that
/// is its road stands at place `k` of that node's incidence list.
pub open spec fn is_road_at(g: Graph<RoadNode, RoadEdge>, s: SnowStatusElement, k: int) -> bool {
    let list = g@.inc[g@.slot(s.p1)];
    &&& g@.has(s.p1)
    &&& 0 <= k < list.len()
    &&& is_road_of(g.edge_seq()[list[k] as int], s)
    &&& forall|j: int| 0 <= j < k ==> !is_road_of(g.edge_seq()[#[trigger] list[j] as int], s)
}

/// Whether edge `e` is the edge to clear for the observation `s`: the
/// first edge at its first node that is its road.
pub open spec fn is_cleared_for(g: Graph<RoadNode, RoadEdge>, s: SnowStatusElement, e: usize) -> bool {
    exists|k: int| #[trigger] is_road_at(g, s, k) && g@.inc[g@.slot(s.p1)][k] == e
}

/// Whether edge `e` is the edge to clear for one of the first `k`
/// observations, one of snow.
pub open spec fn is_observed(
    g: Graph<RoadNode, RoadEdge>,
    snow: Seq<SnowStatusElement>,
    k: int,
    e: usize,
) -> bool {
    exists|j: int|
        0 <= j < k && j < snow.len() && snow[j].depth > 0 && #[trigger] is_cleared_for(g, snow[j], e)
}

/// Whether the edge to clear for observation `j` is among `snowy`.
pub open spec fn is_heeded(
    g: Graph<RoadNode, RoadEdge>,
    snow: Seq<SnowStatusElement>,
    j: int,
    snowy: Set<usize>,
) -> bool {
    exists|e: usize| snowy.contains(e) && #[trigger] is_cleared_for(g, snow[j], e)
}

/// Whether `snowy` holds the edges to clear: every edge where snow is
/// taken to lie everywhere, else for each observation of snow the first
/// edge at its first node that is its road, and no other.
pub open spec fn is_snowy(
    g: Graph<RoadNode, RoadEdge>,
    snow: Seq<SnowStatusElement>,
    snow_d: Option<i64>,
    snowy: Set<usize>,
) -> bool {
    &&& forall|e: usize| #[trigger] snowy.contains(e) ==> e < g.edge_seq().len()
    &&& if snow_everywhere(snow_d) {
        forall|e: usize| e < g.edge_seq().len() ==> #[trigger] snowy.contains(e)
    } else {
        &&& forall|e: usize| snowy.contains(e) ==> #[trigger] is_observed(g, snow, snow.len() as int, e)
        &&& forall|k: int|
            0 <= k < snow.len() && snow[k].depth > 0 ==> #[trigger] is_heeded(g, snow, k, snowy)
    }
}

/// The edge to clear for an observation: the first edge at its first node
/// that is its road.
pub fn find_road(g: &Graph<RoadNode, RoadEdge>, s: &SnowStatusElement) -> (r: Option<usize>)
    requires
        g.wf(),
    ensures
        match r {
            Some(e) => e < g@.edges() && is_road_of(g.edge_seq()[e as int], *s),
            None => forall|e: int| 0 <= e < g@.edges() ==> !is_road_of(#[trigger] g.edge_seq()[e], *s),
        },
        r is Some ==> is_cleared_for(*g, *s, r->Some_0),
{
    let list = match g.get_edges(s.p1) {
        Some(list) => list,
        None => {
            proof {
                assert forall|e: int| 0 <= e < g@.edges() implies !is_road_of(
                    #[trigger] g.edge_seq()[e],
                    *s,
                ) by {
                    assert(0 <= g@.tail(e) < g@.nodes());
                    assert(g@.ids[g@.tail(e)] == g.edge_seq()[e].p1_spec());
                    assert(g@.ids[g@.head(e)] == g.edge_seq()[e].p2_spec());
                }
            }
            return None;
        },
    };
    let ghost slot = g@.slot(s.p1);
    let m = g.edge_count();
    let mut k: usize = 0;
    while k < list.len()
        invariant
            g.wf(),
            m == g@.edges(),
            g@.has(s.p1),
            slot == g@.slot(s.p1),
            list@ == g@.inc[slot],
            k <= list.len(),
            forall|j: int| 0 <= j < k ==> !is_road_of(g.edge_seq()[#[trigger] list[j] as int], *s),
        decreases list.len() - k,
    {
        let e = list[k];
        assert(g@.inc[slot][k as int] == e);
        assert(e < g@.edges());
        let edge = g.edge(e);
        if edge.iidx == 0 && edge.discriminator == s.discriminator && edge.other(s.p1) == s.p2 {
            assert(g@.touches(e as int, slot));
            assert(g@.ids[g@.tail(e as int)] == edge.p1_spec());
            assert(g@.ids[g@.head(e as int)] == edge.p2_spec());
            assert(is_road_at(*g, *s, k as int));
            return Some(e);
        }
        k = k + 1;
    }
    proof {
        assert forall|e: int| 0 <= e < g@.edges() implies !is_road_of(#[trigger] g.edge_seq()[e], *s) by {
            if is_road_of(g.edge_seq()[e], *s) {
                assert(0 <= g@.tail(e) < g@.nodes());
                assert(g@.ids[g@.tail(e)] == g.edge_seq()[e].p1_spec());
                assert(g@.ids[g@.head(e)] == g.edge_seq()[e].p2_spec());
                assert(g@.ids[slot] == s.p1);
                lemma_slot_unique(g@, g@.tail(e));
                lemma_slot_unique(g@, g@.head(e));
                assert(g@.tail(e) == slot || g@.head(e) == slot);
                assert(g@.inc[slot].contains(e as usize));
                let j = choose|j: int| 0 <= j < list@.len() && list@[j] == e as usize;
                assert(!is_road_of(g.edge_seq()[list[j] as int], *s));
            }
        }
    }
    None
}

/// The places of the nodes `starts` in the graph.
pub open spec fn places_of(graph: Graph<RoadNode, RoadEdge>, starts: Seq<u64>) -> Seq<(i32, i32)> {
    Seq::new(starts.len(), |i: int| graph.payloads()[graph@.slot(starts[i])].coordinates)
}

/// Whether `graph` and `snowy` are what the planning for plows sets out
/// from: the graph of the network with the roads doubled that had to be,
/// fit for closed walks, and the edges to clear.
pub open spec fn is_plow_setting(
    roads: RoadGraph,
    snow: Seq<SnowStatusElement>,
    snow_d: Option<i64>,
    graph: Graph<RoadNode, RoadEdge>,
    snowy: Set<usize>,
) -> bool {
    is_plow_fitted(roads, graph, Ok(())) && is_snowy(graph, snow, snow_d, snowy)
}

/// Whether there is an edge to clear.
pub open spec fn has_snow(snowy: Set<usize>) -> bool {
    exists|e: usize| #[trigger] snowy.contains(e)
}

/// Whether one of the edges is the road that the observation `s` is of.
pub open spec fn has_road_of(edges: Seq<RoadEdge>, s: SnowStatusElement) -> bool {
    exists|e: int| 0 <= e < edges.len() && is_road_of(#[trigger] edges[e], s)
}

/// Whether the observation at position `k` is the first of snow on no
/// road.
pub open spec fn is_first_lost(edges: Seq<RoadEdge>, snow: Seq<SnowStatusElement>, k: int) -> bool {
    &&& 0 <= k < snow.len()
    &&& snow[k].depth > 0
    &&& !has_road_of(edges, snow[k])
    &&& forall|j: int| 0 <= j < k && snow[j].depth > 0 ==> #[trigger] has_road_of(edges, snow[j])
}

/// Whether `plan` is a plan for the vehicles of `vehicles` over the
/// network `roads`: its graph is the graph of the network with the roads
/// doubled that had to be, and fit for closed walks; each vehicle starts
/// at the node its location stands for; the edges to clear are those that
/// the observations call for; the state is what the search for tours from
/// those nodes ended on, or, without vehicles, the state from which no
/// search sets out; and the paths list the nodes of the tours.
pub open spec fn is_plow_plan(
    plan: PlowPlan,
    roads: RoadGraph,
    snow: Seq<SnowStatusElement>,
    snow_d: Option<i64>,
    vehicles: Seq<Location>,
    params: Parameters,
) -> bool {
    let graph = plan.solver.graph_spec();
    &&& is_plow_setting(roads, snow, snow_d, graph, plan.snowy@)
    &&& is_graph_of(graph, roads)
    &&& plan.starts@ == starts_of(roads.nodes.nodes@, vehicles)
    &&& if vehicles.len() == 0 {
        &&& !has_snow(plan.snowy@)
        &&& plan.state.alloc@.len() == 0
        &&& plan.state.solution@.len() == 0
        &&& plan.state.order@.len() == 0
        &&& !plan.state.accepted
    } else {
        is_searched(
            graph,
            false,
            plan.starts@,
            places_of(graph, plan.starts@),
            plan.snowy@,
            params,
            Ok::<Progress, Stranded>(plan.state),
        )
    }
    &&& plan.state.sound(graph@, false, lengths_of(graph), plan.starts@, plan.snowy@)
    &&& are_paths_of(graph.edge_seq(), views(plan.state.solution@), plan.starts@, plan.paths@)
}

/// Whether the doubling of roads for plows fails on the network with the
/// obstacle `o`.
pub open spec fn is_plow_unfit(roads: RoadGraph, o: Obstacle) -> bool {
    exists|graph: Graph<RoadNode, RoadEdge>| #[trigger]
        is_plow_fitted(roads, graph, Err::<(), Obstacle>(o))
}

/// Whether the observation at position `k` is the first of snow on no
/// road of the network, with the roads doubled that had to be.
pub open spec fn is_snow_lost(roads: RoadGraph, snow: Seq<SnowStatusElement>, k: int) -> bool {
    exists|graph: Graph<RoadNode, RoadEdge>|
        #[trigger] is_plow_fitted(roads, graph, Ok(())) && is_first_lost(graph.edge_seq(), snow, k)
}

/// Whether there is snow to clear on the network.
pub open spec fn is_snowed(roads: RoadGraph, snow: Seq<SnowStatusElement>, snow_d: Option<i64>) -> bool {
    exists|graph: Graph<RoadNode, RoadEdge>, snowy: Set<usize>|
        #[trigger] is_plow_setting(roads, snow, snow_d, graph, snowy) && has_snow(snowy)
}

/// Whether the search for tours over the network ends with the vehicle
/// and the edges of `stranded` out of reach.
pub open spec fn is_plow_stranded(
    roads: RoadGraph,
    snow: Seq<SnowStatusElement>,
    snow_d: Option<i64>,
    vehicles: Seq<Location>,
    params: Parameters,
    stranded: Stranded,
) -> bool {
    exists|graph: Graph<RoadNode, RoadEdge>, snowy: Set<usize>|
        #[trigger] is_plow_setting(roads, snow, snow_d, graph, snowy) && is_searched(
            graph,
            false,
            starts_of(roads.nodes.nodes@, vehicles),
            places_of(graph, starts_of(roads.nodes.nodes@, vehicles)),
            snowy,
            params,
            Err::<Progress, Stranded>(stranded),
        )
}

/// Whether `e` is why no tours for plows can be made: the first vehicle
/// that stands for no node; else the first road that names a node which
/// the network lacks; else the obstacle on which the doubling of roads
/// fails; else the first observation of snow on no road, unless snow is
/// taken to lie everywhere; else that there is snow and no vehicle; else
/// the vehicle on which the search strands.
pub open spec fn is_plow_failure(
    roads: RoadGraph,
    snow: Seq<SnowStatusElement>,
    snow_d: Option<i64>,
    vehicles: Seq<Location>,
    params: Parameters,
    e: PlanError,
) -> bool {
    let nodes = roads.nodes.nodes@;
    match e {
        PlanError::Unlocated(i) => is_first_unplaced(nodes, vehicles, i as int),
        PlanError::UnknownNode(k) => all_placed(nodes, vehicles) && is_first_unknown(
            roads,
            k as int,
        ),
        PlanError::Unfit(o) => all_placed(nodes, vehicles) && all_known(roads) && is_plow_unfit(
            roads,
            o,
        ),
        PlanError::UnknownSnow(k) => all_placed(nodes, vehicles) && all_known(roads)
            && !snow_everywhere(snow_d) && is_snow_lost(roads, snow, k as int),
        PlanError::NoVehicle => vehicles.len() == 0 && all_known(roads) && is_snowed(
            roads,
            snow,
            snow_d,
        ),
        PlanError::Stranded(stranded) => vehicles.len() > 0 && all_placed(nodes, vehicles)
            && all_known(roads) && is_plow_stranded(roads, snow, snow_d, vehicles, params, stranded),
    }
}

/// Tours for plows over a road network: the network is made fit for
/// closed walks by doubling roads, the snowy roads are shared among the
/// vehicles, and tours that clear them are searched for.
///
/// Where `snow_d` is a positive depth, every edge counts as snowy; else
/// the roads observed with a positive depth do.
///
/// The first vehicle whose location stands for no node of the network is
/// an error; else the first road between nodes that the network lacks;
/// else the obstacle on which the doubling of roads fails; else the first
/// observation of snow on no road; else that there is snow and no
/// vehicle; else the vehicle on which the search strands.
#[verifier::rlimit(40)]
pub fn solve(
    roads: RoadGraph,
    snow: Vec<SnowStatusElement>,
    snow_d: Option<i64>,
    vehicles: VehiclesConfiguration,
    params: &Parameters,
) -> (r: Result<PlowPlan, PlanError>)
    ensures
        forall|i: int| #[trigger]
            is_first_unplaced(roads.nodes.nodes@, vehicles.road@, i) ==> r is Err && r->Err_0
                == PlanError::Unlocated(i as usize),
        all_placed(roads.nodes.nodes@, vehicles.road@) ==> forall|k: int| #[trigger]
            is_first_unknown(roads, k) ==> r is Err && r->Err_0 == PlanError::UnknownNode(
                k as usize,
            ),
        r is Ok ==> all_placed(roads.nodes.nodes@, vehicles.road@) && all_known(roads)
            && is_plow_plan(r->Ok_0, roads, snow@, snow_d, vehicles.road@, *params),
        r is Err ==> is_plow_failure(roads, snow@, snow_d, vehicles.road@, *params, r->Err_0),
{
    broadcast use vstd::std_specs::hash::group_hash_axioms;

    let ghost nodes = roads.nodes.nodes@;
    let starts = match locate_all(&roads, &vehicles.road) {
        Ok(found) => found,
        Err(i) => {
            proof {
                assert(is_first_unplaced(nodes, vehicles.road@, i as int));
                assert forall|j: int| #[trigger] is_first_unplaced(nodes, vehicles.road@, j) implies j
                    == i by {
                    if j < i {
                        assert(placed(nodes, vehicles.road@, j));
                    } else if i < j {
                        assert(placed(nodes, vehicles.road@, i as int));
                    }
                }
            }
            return Err(PlanError::Unlocated(i));
        },
    };
    proof {
        assert(all_placed(nodes, vehicles.road@));
        assert forall|j: int| !#[trigger] is_first_unplaced(nodes, vehicles.road@, j) by {
            if 0 <= j < vehicles.road@.len() {
                assert(placed(nodes, vehicles.road@, j));
            }
        }
        assert(starts@ =~= starts_of(nodes, vehicles.road@));
    }
    let mut graph = match build_graph(&roads) {
        Ok(g) => g,
        Err(e) => {
            proof {
                match e {
                    PlanError::UnknownNode(k) => {
                        assert(is_first_unknown(roads, k as int));
                        assert forall|j: int| #[trigger] is_first_unknown(roads, j) implies j
                            == k by {
                            if j < k {
                                assert(road_known(roads, j));
                            } else if k < j {
                                assert(road_known(roads, k as int));
                            }
                        }
                    },
                    _ => {},
                }
            }
            return Err(e);
        },
    };
    proof {
        assert(all_known(roads));
        assert forall|j: int| !#[trigger] is_first_unknown(roads, j) by {
            if 0 <= j < roads.roads@.len() {
                assert(road_known(roads, j));
            }
        }
    }
    let ghost built = graph;
    let mut ranks: Vec<Option<u128>> = Vec::new();
    let mut e: usize = 0;
    while e < graph.edge_count()
        invariant
            graph.wf(),
            e <= graph@.edges(),
            ranks.len() == e,
            forall|x: int| 0 <= x < e ==> #[trigger] ranks[x] == Some(0u128),
        decreases graph@.edges() - e,
    {
        ranks.push(Some(0));
        e = e + 1;
    }
    assert(ranks@ =~= flat_ranks(built@.edges()));
    let fitted = fit::<false>(&mut graph, &ranks);
    proof {
        assert(is_built(built, roads));
        assert(is_plow_fitted(roads, graph, fitted));
        lemma_fitted_graph(built, graph, roads, ranks@, fitted);
    }
    match fitted {
        Ok(u) => {
            assert(u == ());
            assert(fitted == Ok::<(), Obstacle>(u));
        },
        Err(o) => {
            assert(is_plow_unfit(roads, o));
            return Err(PlanError::Unfit(o));
        },
    }
    proof {
        assert forall|j: int| 0 <= j < starts.len() implies graph@.has(#[trigger] starts[j]) by {
            assert(placed(nodes, vehicles.road@, j));
        }
    }
    let mut locs: Vec<(i32, i32)> = Vec::new();
    let mut i: usize = 0;
    while i < starts.len()
        invariant
            graph.wf(),
            i <= starts.len(),
            locs.len() == i,
            forall|j: int| 0 <= j < starts.len() ==> graph@.has(#[trigger] starts[j]),
            forall|j: int| 0 <= j < i ==> #[trigger] locs[j] == places_of(graph, starts@)[j],
        decreases starts.len() - i,
    {
        let c = match graph.get_node(starts[i]) {
            Some(n) => n.coordinates,
            None => (0, 0),
        };
        locs.push(c);
        i = i + 1;
    }
    assert(locs@ =~= places_of(graph, starts@));
    let m = graph.edge_count();
    let mut snowy: HashSet<usize> = HashSet::new();
    let mut any_snow = false;
    let everywhere = match snow_d {
        Some(d) => d > 0,
        None => false,
    };
    if everywhere {
        let mut e: usize = 0;
        while e < m
            invariant
                e <= m,
                forall|x: usize| #[trigger] snowy@.contains(x) <==> x < e,
                any_snow == (e > 0),
            decreases m - e,
        {
            snowy.insert(e);
            any_snow = true;
            e = e + 1;
        }
    } else {
        let mut k: usize = 0;
        while k < snow.len()
            invariant
                graph.wf(),
                m == graph@.edges(),
                !snow_everywhere(snow_d),
                is_plow_fitted(roads, graph, Ok(())),
                all_placed(roads.nodes.nodes@, vehicles.road@),
                all_known(roads),
                forall|j: int| !#[trigger] is_first_unplaced(roads.nodes.nodes@, vehicles.road@, j),
                forall|j: int| !#[trigger] is_first_unknown(roads, j),
                k <= snow.len(),
                forall|x: usize| #[trigger] snowy@.contains(x) ==> x < m,
                forall|x: usize|
                    snowy@.contains(x) ==> #[trigger] is_observed(graph, snow@, k as int, x),
                forall|j: int|
                    0 <= j < k && snow[j].depth > 0 ==> #[trigger] is_heeded(
                        graph,
                        snow@,
                        j,
                        snowy@,
                    ),
                forall|j: int|
                    0 <= j < k && snow[j].depth > 0 ==> #[trigger] has_road_of(
                        graph.edge_seq(),
                        snow@[j],
                    ),
                any_snow ==> has_snow(snowy@),
                !any_snow ==> forall|x: usize| !snowy@.contains(x),
            decreases snow.len() - k,
        {
            let s = snow[k];
            let ghost had = snowy@;
            if s.depth > 0 {
                match find_road(&graph, &s) {
                    Some(e) => {
                        snowy.insert(e);
                        any_snow = true;
                        assert(is_road_of(graph.edge_seq()[e as int], snow@[k as int]));
                        assert(has_road_of(graph.edge_seq(), snow@[k as int]));
                        assert(is_cleared_for(graph, snow@[k as int], e));
                        assert(snowy@.contains(e));
                    },
                    None => {
                        proof {
                            assert(!has_road_of(graph.edge_seq(), snow@[k as int]));
                            assert(is_first_lost(graph.edge_seq(), snow@, k as int));
                            assert(is_snow_lost(roads, snow@, k as int));
                        }
                        return Err(PlanError::UnknownSnow(k));
                    },
                }
            }
            proof {
                assert forall|x: usize| snowy@.contains(x) implies #[trigger] is_observed(
                    graph,
                    snow@,
                    k as int + 1,
                    x,
                ) by {
                    if had.contains(x) {
                        assert(is_observed(graph, snow@, k as int, x));
                        let j = choose|j: int|
                            0 <= j < k && j < snow@.len() && snow@[j].depth > 0
                                && #[trigger] is_cleared_for(graph, snow@[j], x);
                        assert(is_cleared_for(graph, snow@[j], x));
                    } else {
                        assert(is_cleared_for(graph, snow@[k as int], x));
                    }
                }
                assert forall|j: int| 0 <= j < k + 1 && snow[j].depth > 0 implies #[trigger] is_heeded(
                    graph,
                    snow@,
                    j,
                    snowy@,
                ) by {
                    if j < k {
                        assert(is_heeded(graph, snow@, j, had));
                        let x = choose|x: usize|
                            had.contains(x) && #[trigger] is_cleared_for(graph, snow@[j], x);
                        assert(snowy@.contains(x));
                        assert(is_cleared_for(graph, snow@[j], x));
                    }
                }
                if any_snow {
                    if had.contains(choose|x: usize| had.contains(x)) {
                        assert(snowy@.contains(choose|x: usize| had.contains(x)));
                    }
                }
            }
            k = k + 1;
        }
    }
    proof {
        assert(is_snowy(graph, snow@, snow_d, snowy@));
        assert(is_plow_setting(roads, snow@, snow_d, graph, snowy@));
        if any_snow && everywhere {
            assert(snowy@.contains(0usize));
        }
    }
    if starts.len() == 0 {
        if any_snow {
            proof {
                assert(has_snow(snowy@));
                assert(is_snowed(roads, snow@, snow_d));
            }
            return Err(PlanError::NoVehicle);
        }
        let solver = PlowSolver::new(graph);
        let state = Progress {
            alloc: Vec::new(),
            solution: Vec::new(),
            value_best: u128::MAX,
            cost_max_best: u128::MAX,
            order: Vec::new(),
            accepted: false,
        };
        let paths: Vec<Vec<PathSegment>> = Vec::new();
        proof {
            assert(!has_snow(snowy@));
            assert(shares_of(state.alloc@).len() == 0);
        }
        return Ok(PlowPlan { solver, starts, snowy, state, paths });
    }
    let solver = PlowSolver::new(graph);
    let searched = solver.solve::<false>(&starts, &locs, &snowy, params);
    let state = match searched {
        Ok(state) => state,
        Err(stranded) => {
            proof {
                assert(is_plow_stranded(roads, snow@, snow_d, vehicles.road@, *params, stranded));
            }
            return Err(PlanError::Stranded(stranded));
        },
    };
    proof {
        assert forall|i: int, k: int|
            0 <= i < state.solution.len() && 0 <= k < state.solution[i]@.len() implies (
        #[trigger] state.solution[i]@[k]) < graph@.edges() by {
            assert(views(state.solution@)[i] == state.solution[i]@);
            assert(crate::tour::is_tour_from(
                graph@,
                false,
                lengths_of(graph),
                starts@[i],
                views(state.solution@)[i],
            ));
            lemma_walk_edges(
                graph@,
                false,
                lengths_of(graph),
                state.solution[i]@,
                graph@.slot(starts@[i]),
            );
        }
    }
    let paths = paths_of(solver.graph(), &state.solution, &starts);
    Ok(PlowPlan { solver, starts, snowy, state, paths })
}

} // verus!
