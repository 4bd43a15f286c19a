use snow_routes::edge::Edge;
use snow_routes::graph::Graph;
use snow_routes::road::{RoadEdge, Weighted};
use std::collections::HashSet;

fn edge(p1: u64, p2: u64, length: u64) -> RoadEdge {
    RoadEdge { p1, p2, discriminator: None, directed: false, length, iidx: 0 }
}

fn one_way(p1: u64, p2: u64, length: u64) -> RoadEdge {
    RoadEdge { p1, p2, discriminator: None, directed: true, length, iidx: 0 }
}

fn graph_of(nodes: &[u64], edges: &[RoadEdge]) -> Graph<u8, RoadEdge> {
    let mut g = Graph::new();
    for n in nodes {
        assert_eq!(g.add_node(*n, 0), None);
    }
    for (i, e) in edges.iter().enumerate() {
        let tagged = RoadEdge { discriminator: e.discriminator.or(Some(100 + i as u64)), ..*e };
        assert!(g.add_edge(tagged));
    }
    g
}

fn lengths(g: &Graph<u8, RoadEdge>) -> Vec<Option<u64>> {
    (0..g.edge_count()).map(|e| Some(g.edge(e).weight())).collect()
}

fn total(w: &Vec<Option<u64>>, path: &Vec<usize>) -> u64 {
    path.iter().map(|e| w[*e].unwrap()).sum()
}

fn set(ids: &[u64]) -> HashSet<u64> {
    ids.iter().cloned().collect()
}

#[test]
fn new_graph_is_empty() {
    let g: Graph<u8, RoadEdge> = Graph::new();
    assert!(g.is_empty());
    assert!(g.is_edge_empty());
    assert_eq!(g.node_count(), 0);
    assert_eq!(g.edge_count(), 0);
    assert_eq!(g.get_node(1), None);
    assert!(g.get_edges(1).is_none());
}

#[test]
fn add_node_replaces_payload_and_keeps_slot() {
    let mut g: Graph<u8, RoadEdge> = Graph::new();
    assert_eq!(g.add_node(10, 1), None);
    assert_eq!(g.add_node(20, 2), None);
    assert_eq!(g.add_node(10, 3), Some(1));
    assert_eq!(g.node_count(), 2);
    assert_eq!(g.get_node(10), Some(&3));
    assert_eq!(g.get_node(20), Some(&2));
    assert_eq!(g.slot_of(10), Some(0));
    assert_eq!(g.slot_of(20), Some(1));
    assert_eq!(g.slot_of(30), None);
    assert_eq!(g.id_of(0), 10);
    assert_eq!(g.id_of(1), 20);
    assert!(!g.is_empty());
}

#[test]
fn add_edge_refuses_unknown_endpoint() {
    let mut g: Graph<u8, RoadEdge> = Graph::new();
    g.add_node(1, 0);
    g.add_node(2, 0);
    assert!(!g.add_edge(edge(1, 3, 5)));
    assert!(!g.add_edge(edge(3, 1, 5)));
    assert_eq!(g.edge_count(), 0);
    assert!(g.is_edge_empty());
    assert!(g.add_edge(edge(1, 2, 5)));
    assert_eq!(g.edge_count(), 1);
    assert!(!g.is_edge_empty());
    assert_eq!(g.get_edges(1).unwrap(), &vec![0]);
    assert_eq!(g.get_edges(2).unwrap(), &vec![0]);
    assert_eq!(*g.edge(0), edge(1, 2, 5));
}

#[test]
fn adding_an_equal_edge_again_changes_nothing() {
    let mut g: Graph<u8, RoadEdge> = Graph::new();
    g.add_node(1, 0);
    g.add_node(2, 0);
    assert!(g.add_edge(edge(1, 2, 5)));
    // The same ends, discriminator and duplication index: the same edge,
    // whatever its length and direction.
    assert!(g.add_edge(edge(1, 2, 9)));
    assert!(g.add_edge(one_way(1, 2, 5)));
    assert_eq!(g.edge_count(), 1);
    assert_eq!(g.edge(0).length, 5);
    assert_eq!(g.get_edges(1).unwrap(), &vec![0]);
    assert_eq!(g.get_edges(2).unwrap(), &vec![0]);
    assert_eq!(g.degree::<false>(1), 1);
    // Another discriminator, duplication index or order of the ends makes
    // another edge.
    assert!(g.add_edge(RoadEdge { discriminator: Some(1), ..edge(1, 2, 5) }));
    assert!(g.add_edge(RoadEdge { iidx: 1, ..edge(1, 2, 5) }));
    assert!(g.add_edge(edge(2, 1, 5)));
    assert_eq!(g.edge_count(), 4);
    assert!(g.add_edge(edge(1, 1, 5)));
    assert!(g.add_edge(edge(1, 1, 7)));
    assert_eq!(g.edge_count(), 5);
    assert_eq!(g.get_edges(1).unwrap(), &vec![0, 1, 2, 3, 4]);
    // The edge is added whatever is there where it is appended.
    assert!(g.append_edge(edge(1, 2, 5)));
    assert_eq!(g.edge_count(), 6);
}

#[test]
fn self_loop_is_incident_once() {
    let g = graph_of(&[1, 2], &[edge(1, 1, 4), edge(1, 2, 1)]);
    assert_eq!(g.get_edges(1).unwrap(), &vec![0, 1]);
    assert_eq!(g.get_edges(2).unwrap(), &vec![1]);
    assert_eq!(g.edge_count(), 2);
}

#[test]
fn parallel_edges_are_distinct() {
    let a = RoadEdge { discriminator: Some(7), ..edge(1, 2, 1) };
    let b = RoadEdge { discriminator: Some(8), ..edge(1, 2, 3) };
    let g = graph_of(&[1, 2], &[a, b, a]);
    assert_eq!(g.edge_count(), 2);
    assert_eq!(g.get_edges_between(1, 2), vec![0, 1]);
    assert_eq!(g.get_edges_between(2, 1), vec![0, 1]);
    assert_eq!(g.get_edges_between(1, 1), Vec::<usize>::new());
    assert_eq!(g.get_edges_between(9, 1), Vec::<usize>::new());
}

#[test]
fn edges_between_filters_by_other_end() {
    let g = graph_of(&[1, 2, 3], &[edge(1, 2, 1), edge(3, 1, 1), edge(2, 3, 1), edge(1, 1, 1)]);
    assert_eq!(g.get_edges_between(1, 2), vec![0]);
    assert_eq!(g.get_edges_between(1, 3), vec![1]);
    assert_eq!(g.get_edges_between(1, 1), vec![3]);
    assert_eq!(g.get_edges_between(3, 2), vec![2]);
}

#[test]
fn degree_without_directions_counts_incident_edges() {
    let g = graph_of(&[1, 2, 3], &[edge(1, 2, 1), one_way(1, 3, 1), edge(1, 1, 1)]);
    assert_eq!(g.degree::<false>(1), 3);
    assert_eq!(g.degree::<false>(2), 1);
    assert_eq!(g.degree::<false>(3), 1);
    assert_eq!(g.degree::<false>(9), 0);
    assert!(!g.eulirian_compatible::<false>(1));
    assert!(!g.eulirian_compatible::<false>(2));
    assert!(g.eulirian_compatible::<false>(9));
}

#[test]
fn degree_with_directions_balances_one_way_edges() {
    // Node 1: two one-way edges out, one in, two two-way edges, one loop.
    let g = graph_of(
        &[1, 2, 3],
        &[
            one_way(1, 2, 1),
            one_way(1, 3, 1),
            one_way(2, 1, 1),
            edge(1, 2, 1),
            edge(3, 1, 1),
            edge(1, 1, 1),
        ],
    );
    assert_eq!(g.degree::<true>(1), 2 - 1);
    assert!(!g.eulirian_compatible::<true>(1));
    // Node 3: one one-way edge in, one two-way edge.
    assert_eq!(g.degree::<true>(3), 1 - 1);
    assert!(g.eulirian_compatible::<true>(3));
    // Node 2: one in, one out, one two-way.
    assert_eq!(g.degree::<true>(2), 1);
}

#[test]
fn degree_with_directions_can_be_negative() {
    let g = graph_of(&[1, 2, 3], &[one_way(1, 2, 1), one_way(3, 2, 1)]);
    assert_eq!(g.degree::<true>(2), -2);
    assert!(!g.eulirian_compatible::<true>(2));
    assert_eq!(g.degree::<true>(1), -1);
    assert_eq!(g.degree::<false>(2), 2);
    assert!(g.eulirian_compatible::<false>(2));
}

#[test]
fn edge_trait_defaults() {
    let e = one_way(1, 2, 5);
    assert_eq!(e.p1(), 1);
    assert_eq!(e.p2(), 2);
    assert!(e.directed());
    assert!(!e.is_cyclic());
    assert!(edge(3, 3, 1).is_cyclic());
    assert_eq!(e.other(1), 2);
    assert_eq!(e.other(2), 1);
    assert_eq!(e.other(9), 1);
    assert!(e.is_incoming::<true>(2));
    assert!(!e.is_incoming::<true>(1));
    assert!(e.is_incoming::<false>(1));
    assert!(e.is_outgoing::<true>(1));
    assert!(!e.is_outgoing::<true>(2));
    assert!(e.is_outgoing::<false>(2));
    assert!(!e.is_outgoing::<false>(3));
    let f = edge(1, 2, 5);
    assert!(f.is_incoming::<true>(1));
    assert!(f.is_outgoing::<true>(2));
}

#[test]
fn path_to_nodes_has_one_more_node_than_edges() {
    let g = graph_of(&[1, 2, 3], &[edge(1, 2, 1), edge(2, 3, 1), edge(3, 1, 1)]);
    let nodes = g.path_to_nodes(&vec![0, 1, 2], 1);
    assert_eq!(nodes, vec![(1, None), (2, Some(0)), (3, Some(1)), (1, Some(2))]);
    let back = g.path_to_nodes(&vec![2, 1, 0], 1);
    assert_eq!(back, vec![(1, None), (3, Some(2)), (2, Some(1)), (1, Some(0))]);
    assert_eq!(g.path_to_nodes(&vec![], 7), vec![(7, None)]);
}

#[test]
fn pathfind_takes_the_cheapest_walk() {
    // 1 -2- 2 -2- 3, and a direct edge 1 -5- 3.
    let g = graph_of(&[1, 2, 3], &[edge(1, 2, 2), edge(2, 3, 2), edge(1, 3, 5)]);
    let w = lengths(&g);
    let p = g.pathfind::<false>(1, 3, &w).unwrap();
    assert_eq!(p, vec![0, 1]);
    assert_eq!(total(&w, &p), 4);
    let q = g.pathfind::<false>(3, 1, &w).unwrap();
    assert_eq!(q, vec![1, 0]);
    assert_eq!(g.pathfind::<false>(2, 2, &w), Some(vec![]));
}

#[test]
fn pathfind_avoids_forbidden_edges() {
    let g = graph_of(&[1, 2, 3], &[edge(1, 2, 2), edge(2, 3, 2), edge(1, 3, 5)]);
    let w = vec![Some(2), None, Some(5)];
    assert_eq!(g.pathfind::<false>(1, 3, &w), Some(vec![2]));
    let none = vec![None, None, None];
    assert_eq!(g.pathfind::<false>(1, 3, &none), None);
    assert_eq!(g.pathfind::<false>(1, 1, &none), Some(vec![]));
}

#[test]
fn pathfind_respects_directions_when_asked() {
    let g = graph_of(&[1, 2, 3], &[one_way(2, 1, 1), edge(1, 3, 4), edge(3, 2, 4)]);
    let w = lengths(&g);
    assert_eq!(g.pathfind::<false>(1, 2, &w), Some(vec![0]));
    assert_eq!(g.pathfind::<true>(1, 2, &w), Some(vec![1, 2]));
    assert_eq!(g.pathfind::<true>(2, 1, &w), Some(vec![0]));
}

#[test]
fn pathfind_of_unknown_nodes_is_absent() {
    let g = graph_of(&[1, 2], &[edge(1, 2, 1)]);
    let w = lengths(&g);
    assert_eq!(g.pathfind::<false>(1, 9, &w), None);
    assert_eq!(g.pathfind::<false>(9, 1, &w), None);
    assert_eq!(g.pathfind::<false>(9, 9, &w), None);
}

#[test]
fn pathfind_with_zero_weights() {
    let g = graph_of(&[1, 2, 3, 4], &[edge(1, 2, 0), edge(2, 3, 0), edge(3, 4, 0), edge(1, 4, 1)]);
    let w = lengths(&g);
    let p = g.pathfind::<false>(1, 4, &w).unwrap();
    assert_eq!(total(&w, &p), 0);
    assert_eq!(p, vec![0, 1, 2]);
}

#[test]
fn pathfind_with_large_weights_does_not_overflow() {
    let big = u64::MAX;
    let g = graph_of(&[1, 2, 3], &[edge(1, 2, big), edge(2, 3, big), edge(1, 3, big)]);
    let w = lengths(&g);
    assert_eq!(g.pathfind::<false>(1, 3, &w), Some(vec![2]));
}

#[test]
fn pathfind_cost_is_monotone_in_the_weights() {
    let g = graph_of(
        &[1, 2, 3, 4],
        &[edge(1, 2, 1), edge(2, 4, 1), edge(1, 3, 2), edge(3, 4, 2), edge(1, 4, 9)],
    );
    let low = vec![Some(1), Some(1), Some(2), Some(2), Some(9)];
    let high = vec![Some(3), None, Some(2), Some(4), Some(9)];
    let p = g.pathfind::<false>(1, 4, &low).unwrap();
    let q = g.pathfind::<false>(1, 4, &high).unwrap();
    assert_eq!(total(&low, &p), 2);
    assert_eq!(total(&high, &q), 6);
    assert!(total(&low, &p) <= total(&high, &q));
}

#[test]
fn pathfind_regions_finds_the_nearest_pair() {
    // A chain 1 - 2 - 3 - 4 - 5 with unit weights.
    let g = graph_of(
        &[1, 2, 3, 4, 5],
        &[edge(1, 2, 1), edge(2, 3, 1), edge(3, 4, 1), edge(4, 5, 1)],
    );
    let w = lengths(&g);
    let (a, b, p) = g.pathfind_regions::<false>(&set(&[1, 2]), &set(&[4, 5]), &w).unwrap();
    assert_eq!((a, b), (2, 4));
    assert_eq!(p, vec![1, 2]);
    let (a, b, p) = g.pathfind_regions::<false>(&set(&[1, 3]), &set(&[3, 5]), &w).unwrap();
    assert_eq!((a, b), (3, 3));
    assert!(p.is_empty());
}

#[test]
fn pathfind_regions_with_an_empty_set_is_absent() {
    let g = graph_of(&[1, 2], &[edge(1, 2, 1)]);
    let w = lengths(&g);
    assert_eq!(g.pathfind_regions::<false>(&set(&[]), &set(&[2]), &w), None);
    assert_eq!(g.pathfind_regions::<false>(&set(&[1]), &set(&[]), &w), None);
    assert_eq!(g.pathfind_regions::<false>(&set(&[8]), &set(&[9]), &w), None);
}

#[test]
fn pathfind_regions_without_a_connection_is_absent() {
    let g = graph_of(&[1, 2, 3, 4], &[edge(1, 2, 1), edge(3, 4, 1)]);
    let w = lengths(&g);
    assert_eq!(g.pathfind_regions::<false>(&set(&[1, 2]), &set(&[3, 4]), &w), None);
}

#[test]
fn cycle_on_triangle() {
    let g = graph_of(&[1, 2, 3], &[edge(1, 2, 1), edge(2, 3, 1), edge(3, 1, 1)]);
    let w = lengths(&g);
    let c = g.cycle_on::<false>(1, &w).unwrap();
    assert_eq!(c.len(), 3);
    assert_eq!(total(&w, &c), 3);
    let nodes = g.path_to_nodes(&c, 1);
    assert_eq!(nodes[0].0, 1);
    assert_eq!(nodes[3].0, 1);
}

#[test]
fn cycle_on_takes_the_cheapest_cycle() {
    // Two triangles at node 1: a cheap one and a dear one, and a loop.
    let g = graph_of(
        &[1, 2, 3, 4, 5],
        &[
            edge(1, 2, 5),
            edge(2, 3, 5),
            edge(3, 1, 5),
            edge(1, 4, 1),
            edge(4, 5, 1),
            edge(5, 1, 1),
        ],
    );
    let w = lengths(&g);
    let c = g.cycle_on::<false>(1, &w).unwrap();
    assert_eq!(total(&w, &c), 3);
    let mut sorted = c.clone();
    sorted.sort();
    assert_eq!(sorted, vec![3, 4, 5]);
    // With the cheap triangle forbidden, the dear one is found.
    let w2 = vec![Some(5), Some(5), Some(5), None, Some(1), Some(1)];
    let c2 = g.cycle_on::<false>(1, &w2).unwrap();
    assert_eq!(total(&w2, &c2), 15);
}

#[test]
fn cycle_on_self_loop_and_parallel_edges() {
    let g = graph_of(&[1, 2], &[edge(1, 1, 7), edge(1, 2, 2), edge(1, 2, 3)]);
    let w = lengths(&g);
    let c = g.cycle_on::<false>(1, &w).unwrap();
    assert_eq!(total(&w, &c), 5);
    let mut sorted = c.clone();
    sorted.sort();
    assert_eq!(sorted, vec![1, 2]);
    let only_loop = vec![Some(7), Some(2), None];
    assert_eq!(g.cycle_on::<false>(1, &only_loop), Some(vec![0]));
}

#[test]
fn cycle_on_never_takes_an_edge_twice() {
    // A single edge is no cycle: it cannot be taken there and back.
    let g = graph_of(&[1, 2], &[edge(1, 2, 1)]);
    let w = lengths(&g);
    assert_eq!(g.cycle_on::<false>(1, &w), None);
    assert_eq!(g.cycle_on::<false>(9, &w), None);
}

#[test]
fn cycle_on_respects_directions_when_asked() {
    let g = graph_of(
        &[1, 2, 3],
        &[one_way(1, 2, 1), one_way(2, 3, 1), one_way(1, 3, 1)],
    );
    let w = lengths(&g);
    assert_eq!(g.cycle_on::<true>(1, &w), None);
    let c = g.cycle_on::<false>(1, &w).unwrap();
    assert_eq!(c.len(), 3);
    let h = graph_of(
        &[1, 2, 3],
        &[one_way(1, 2, 1), one_way(2, 3, 1), one_way(3, 1, 1)],
    );
    assert_eq!(h.cycle_on::<true>(1, &w), Some(vec![0, 1, 2]));
    assert_eq!(h.cycle_on::<true>(2, &w), Some(vec![1, 2, 0]));
}

#[test]
fn pathfind_from_a_node_to_itself_is_empty() {
    let g = graph_of(&[1, 2, 3], &[edge(1, 2, 0), edge(2, 3, 0), edge(3, 1, 0)]);
    let w = lengths(&g);
    assert_eq!(g.pathfind::<false>(1, 1, &w), Some(vec![]));
    assert_eq!(g.pathfind::<true>(2, 2, &w), Some(vec![]));
}
