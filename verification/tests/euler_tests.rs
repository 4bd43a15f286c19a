use snow_routes::euler::Obstacle;
use snow_routes::graph::Graph;
use snow_routes::planner::{fit, flight_ranks};
use snow_routes::road::{RoadEdge, RoadNode};

fn edge(p1: u64, p2: u64, length: u64) -> RoadEdge {
    RoadEdge { p1, p2, discriminator: None, directed: false, length, iidx: 0 }
}

fn one_way(p1: u64, p2: u64, length: u64) -> RoadEdge {
    RoadEdge { p1, p2, discriminator: None, directed: true, length, iidx: 0 }
}

fn graph_of(nodes: &[u64], edges: &[RoadEdge]) -> Graph<RoadNode, RoadEdge> {
    let mut g = Graph::new();
    for n in nodes {
        g.add_node(*n, RoadNode { id: *n, coordinates: (0, 0) });
    }
    for (i, e) in edges.iter().enumerate() {
        let tagged = RoadEdge { discriminator: e.discriminator.or(Some(100 + i as u64)), ..*e };
        assert!(g.add_edge(tagged));
    }
    g
}

fn edges_of(g: &Graph<RoadNode, RoadEdge>) -> Vec<RoadEdge> {
    (0..g.edge_count()).map(|e| *g.edge(e)).collect()
}

fn same_fields(a: &RoadEdge, b: &RoadEdge) -> bool {
    let tag = |e: &RoadEdge| e.discriminator.filter(|d| *d < 100);
    a.p1 == b.p1
        && a.p2 == b.p2
        && a.iidx == b.iidx
        && tag(a) == tag(b)
        && a.directed == b.directed
        && a.length == b.length
}

fn flat(count: usize) -> Vec<Option<u128>> {
    vec![Some(0); count]
}

fn euler<const D: bool>(
    g: &mut Graph<RoadNode, RoadEdge>,
    priority: &Vec<Option<u128>>,
) -> Result<(), Obstacle> {
    g.eulirianize::<_, _, D>(
        |a: &RoadEdge, b: &RoadEdge| a.duped(b),
        priority,
        |e: &RoadEdge| e.dupe(),
    )
}

fn assert_fit<const D: bool>(g: &Graph<RoadNode, RoadEdge>) {
    for s in 0..g.node_count() {
        let id = g.id_of(s);
        assert!(g.eulirian_compatible::<D>(id));
        assert_eq!(g.degree::<D>(id) % 2, 0);
        if D {
            assert!(g.degree::<D>(id) >= 0);
        }
    }
}

fn assert_grown(before: &Vec<RoadEdge>, g: &Graph<RoadNode, RoadEdge>) {
    let after = edges_of(g);
    assert!(after.len() >= before.len());
    assert!(after.len() <= 2 * before.len());
    for (a, b) in before.iter().zip(after.iter()) {
        assert!(same_fields(a, b));
    }
    for copy in &after[before.len()..] {
        assert!(before.iter().any(|e| same_fields(&e.dupe(), copy)));
    }
}

#[test]
fn square_with_diagonal_doubles_the_diagonal() {
    let mut g = graph_of(
        &[1, 2, 3, 4],
        &[edge(1, 2, 10), edge(2, 3, 10), edge(3, 4, 10), edge(4, 1, 10), edge(1, 3, 14)],
    );
    let before = edges_of(&g);
    let ranks = flight_ranks(&g);
    assert_eq!(fit::<false>(&mut g, &ranks), Ok(()));
    assert_eq!(g.edge_count(), 6);
    assert!(same_fields(g.edge(5), &RoadEdge { iidx: 1, ..edge(1, 3, 14) }));
    let total: u64 = edges_of(&g).iter().map(|e| e.length).sum();
    assert_eq!(total, 68);
    assert_fit::<false>(&g);
    assert_grown(&before, &g);
}

#[test]
fn flight_ranks_put_edges_between_odd_nodes_first() {
    let g = graph_of(
        &[1, 2, 3, 4, 5],
        &[
            edge(1, 2, 10),
            edge(2, 3, 10),
            edge(3, 4, 10),
            edge(4, 1, 10),
            edge(1, 3, 14),
            edge(2, 5, 3),
            edge(5, 4, 3),
        ],
    );
    let high = 1u128 << 64;
    assert_eq!(
        flight_ranks(&g),
        vec![
            Some(10),
            Some(10),
            Some(10),
            Some(10),
            Some(14),
            Some(high + 3),
            Some(high + 3)
        ]
    );
    let g = graph_of(&[1, 2, 3], &[edge(1, 2, 7), edge(2, 3, 7), edge(3, 1, 7)]);
    assert_eq!(flight_ranks(&g), vec![Some(2 * high + 7); 3]);
    let g = graph_of(
        &[1, 2, 3, 4],
        &[edge(1, 2, 10), edge(2, 3, 10), edge(3, 4, 10), edge(4, 1, 10), edge(1, 3, 14)],
    );
    let ranks = flight_ranks(&g);
    let high = 1u128 << 64;
    assert_eq!(
        ranks,
        vec![Some(high + 10), Some(high + 10), Some(high + 10), Some(high + 10), Some(14)]
    );
}

#[test]
fn an_even_graph_is_left_alone() {
    let mut g = graph_of(&[1, 2, 3], &[edge(1, 2, 1), edge(2, 3, 1), edge(3, 1, 1)]);
    let before = edges_of(&g);
    assert_eq!(euler::<false>(&mut g, &flat(3)), Ok(()));
    assert_eq!(g.edge_count(), 3);
    assert_grown(&before, &g);
    assert_fit::<false>(&g);
}

#[test]
fn dead_ends_are_doubled() {
    let mut g = graph_of(&[1, 2, 3], &[edge(1, 2, 3), edge(2, 3, 4)]);
    let before = edges_of(&g);
    assert_eq!(euler::<false>(&mut g, &flat(2)), Ok(()));
    assert_eq!(g.edge_count(), 4);
    assert!(same_fields(g.edge(2), &RoadEdge { iidx: 1, ..edge(1, 2, 3) }));
    assert!(same_fields(g.edge(3), &RoadEdge { iidx: 1, ..edge(2, 3, 4) }));
    assert_fit::<false>(&g);
    assert_grown(&before, &g);
    assert_eq!(g.node_count(), 3);
}

#[test]
fn odd_nodes_are_mended_by_the_lowest_priority() {
    // A square with both diagonals: every node has three edges.
    let mut g = graph_of(
        &[1, 2, 3, 4],
        &[
            edge(1, 2, 1),
            edge(2, 3, 1),
            edge(3, 4, 1),
            edge(4, 1, 1),
            edge(1, 3, 1),
            edge(2, 4, 1),
        ],
    );
    let before = edges_of(&g);
    let priority = vec![Some(5), Some(5), Some(1), Some(3), Some(4), None];
    assert_eq!(euler::<false>(&mut g, &priority), Ok(()));
    assert_fit::<false>(&g);
    assert_grown(&before, &g);
    // Node 1 doubles its edge of priority 3, which mends node 4 too; node
    // 2 doubles the first of its edges of priority 5, which sets node 1
    // back; node 1 then doubles its edge of priority 4, which mends node
    // 3. The edge without priority is never doubled.
    assert_eq!(g.edge_count(), 9);
    assert!(same_fields(g.edge(6), &RoadEdge { iidx: 1, ..edge(4, 1, 1) }));
    assert!(same_fields(g.edge(7), &RoadEdge { iidx: 1, ..edge(1, 2, 1) }));
    assert!(same_fields(g.edge(8), &RoadEdge { iidx: 1, ..edge(1, 3, 1) }));
}

#[test]
fn one_way_dead_end_is_reported() {
    let mut g = graph_of(&[2, 1], &[one_way(1, 2, 1)]);
    assert_eq!(euler::<true>(&mut g, &flat(1)), Err(Obstacle::DeadEnd(0)));
    assert_eq!(g.edge_count(), 1);
    // Without regard to directions the edge is doubled.
    let mut h = graph_of(&[2, 1], &[one_way(1, 2, 1)]);
    assert_eq!(euler::<false>(&mut h, &flat(1)), Ok(()));
    assert_eq!(h.edge_count(), 2);
    assert_fit::<false>(&h);
}

#[test]
fn a_node_without_an_edge_to_double_is_reported() {
    // Node 1 has a self-loop and one more edge; node 2 is a dead end.
    let mut g = graph_of(&[1, 2], &[edge(1, 1, 1), edge(1, 2, 1)]);
    let before = edges_of(&g);
    assert_eq!(euler::<false>(&mut g, &flat(2)), Err(Obstacle::Stuck(1)));
    assert_grown(&before, &g);
    assert_eq!(g.edge_count(), 3);
    assert!(!g.eulirian_compatible::<false>(1));
}

#[test]
fn a_one_way_source_is_stuck() {
    let mut g = graph_of(&[1, 2], &[one_way(1, 2, 1)]);
    assert_eq!(euler::<true>(&mut g, &flat(1)), Err(Obstacle::Stuck(1)));
    assert!(!g.eulirian_compatible::<true>(1));
}

#[test]
fn directed_imbalance_is_evened_out() {
    // Node 2 has two one-way edges in and one two-way edge.
    let mut g = graph_of(
        &[1, 2, 3, 4],
        &[
            one_way(1, 2, 1),
            one_way(3, 2, 1),
            one_way(2, 1, 1),
            one_way(2, 3, 1),
            edge(2, 4, 1),
            edge(4, 1, 1),
            edge(1, 3, 1),
            edge(3, 4, 1),
        ],
    );
    let before = edges_of(&g);
    let r = euler::<true>(&mut g, &flat(8));
    assert_grown(&before, &g);
    if r == Ok(()) {
        assert_fit::<true>(&g);
    }
}

#[test]
fn copies_are_not_copied_again() {
    // A star: the centre has three dead ends.
    let mut g = graph_of(&[1, 2, 3, 4], &[edge(1, 2, 1), edge(1, 3, 1), edge(1, 4, 1)]);
    assert_eq!(euler::<false>(&mut g, &flat(3)), Ok(()));
    assert_eq!(g.edge_count(), 6);
    for e in 3..6 {
        assert_eq!(g.edge(e).iidx, 1);
    }
    assert_fit::<false>(&g);
}

#[test]
fn a_fit_graph_is_left_as_it_is() {
    let mut g = graph_of(
        &[1, 2, 3, 4],
        &[edge(1, 2, 10), edge(2, 3, 10), edge(3, 4, 10), edge(4, 1, 10), edge(1, 3, 14)],
    );
    let ranks = flight_ranks(&g);
    assert_eq!(fit::<false>(&mut g, &ranks), Ok(()));
    let once = edges_of(&g);
    assert_eq!(once.len(), 6);
    assert_eq!(euler::<false>(&mut g, &flat(6)), Ok(()));
    assert_eq!(g.edge_count(), 6);
    assert_eq!(euler::<true>(&mut g, &flat(6)), Ok(()));
    assert_eq!(g.edge_count(), 6);
    for (a, b) in once.iter().zip(edges_of(&g).iter()) {
        assert!(same_fields(a, b));
        assert_eq!(a.discriminator, b.discriminator);
    }
    for id in 1..=4u64 {
        assert_eq!(g.degree::<false>(id) % 2, 0);
    }
}

#[test]
fn among_equal_priorities_the_first_edge_is_doubled() {
    // Nodes 1 and 3 have three edges each; all priorities are the same.
    let mut g = graph_of(
        &[1, 2, 3, 4],
        &[edge(1, 2, 10), edge(2, 3, 10), edge(3, 4, 10), edge(4, 1, 10), edge(1, 3, 14)],
    );
    assert_eq!(euler::<false>(&mut g, &flat(5)), Ok(()));
    // Node 1 doubles its first edge, which sets node 2 back; node 2
    // doubles its other edge, to node 3, which mends node 3 too.
    assert_eq!(g.edge_count(), 7);
    assert!(same_fields(g.edge(5), &RoadEdge { iidx: 1, ..edge(1, 2, 10) }));
    assert!(same_fields(g.edge(6), &RoadEdge { iidx: 1, ..edge(2, 3, 10) }));
    assert_fit::<false>(&g);
}

#[test]
fn the_greatest_priority_comes_last() {
    let mut g = graph_of(
        &[1, 2, 3, 4],
        &[edge(1, 2, 10), edge(2, 3, 10), edge(3, 4, 10), edge(4, 1, 10), edge(1, 3, 14)],
    );
    let priority = vec![Some(9), Some(9), Some(9), Some(9), Some(2)];
    assert_eq!(euler::<false>(&mut g, &priority), Ok(()));
    assert_eq!(g.edge_count(), 6);
    assert!(same_fields(g.edge(5), &RoadEdge { iidx: 1, ..edge(1, 3, 14) }));
}

#[test]
fn a_road_listed_both_ways_can_leave_a_node_stuck() {
    // The roads between 1 and 2 are the same road but for the order of
    // their ends: once one is doubled, the other has a duplicate at both.
    let there = RoadEdge { discriminator: Some(7), ..edge(1, 2, 1) };
    let back = RoadEdge { discriminator: Some(7), ..edge(2, 1, 1) };
    let mut g = graph_of(
        &[2, 1, 3, 4],
        &[there, back, edge(2, 3, 1), edge(3, 4, 1), edge(3, 4, 2)],
    );
    let priority = vec![Some(0), Some(1), Some(1), Some(1), Some(1)];
    assert_eq!(euler::<false>(&mut g, &priority), Err(Obstacle::Stuck(1)));
    assert_eq!(g.edge_count(), 6);
    assert!(same_fields(g.edge(5), &RoadEdge { iidx: 1, ..there }));
}
