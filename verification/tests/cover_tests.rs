use snow_routes::cover::Cover;
use snow_routes::data::{Location, Node, PathSegment, RoadGraph, RoadGraphNodes, RoadSegment};
use snow_routes::graph::Graph;
use snow_routes::planner::{build_graph, construct_flight_paths, path_segments, FlightPlan, PlanError};
use snow_routes::road::{RoadEdge, RoadNode};

fn road(p1: u64, p2: u64, distance: u64) -> RoadSegment {
    RoadSegment { p1, p2, discriminator: None, directed: false, distance, sidewalks: (false, false) }
}

fn network(ids: &[u64], roads: Vec<RoadSegment>) -> RoadGraph {
    RoadGraph {
        roads,
        nodes: RoadGraphNodes {
            nodes: ids
                .iter()
                .map(|id| Node { id: *id, coordinates: (*id as i32 * 10, 0) })
                .collect(),
        },
    }
}

fn nodes_of(path: &Vec<PathSegment>) -> Vec<u64> {
    path.iter().map(|s| s.node).collect()
}

fn length_of(g: &Graph<RoadNode, RoadEdge>, tour: &Vec<usize>) -> u64 {
    tour.iter().map(|e| g.edge(*e).length).sum()
}

fn assert_closed(g: &Graph<RoadNode, RoadEdge>, tour: &Vec<usize>, start: u64) {
    let nodes = g.path_to_nodes(tour, start);
    assert_eq!(nodes.len(), tour.len() + 1);
    assert_eq!(nodes[0], (start, None));
    assert_eq!(nodes[nodes.len() - 1].0, start);
    for (i, e) in tour.iter().enumerate() {
        let edge = g.edge(*e);
        let (from, to) = (nodes[i].0, nodes[i + 1].0);
        assert!((edge.p1 == from && edge.p2 == to) || (edge.p2 == from && edge.p1 == to));
        assert_eq!(nodes[i + 1].1, Some(*e));
    }
}

fn assert_each_edge_once(plan: &FlightPlan) {
    let mut seen = vec![0; plan.graph.edge_count()];
    for tour in &plan.tours {
        for e in tour {
            seen[*e] += 1;
        }
    }
    for e in &plan.residual {
        seen[*e] += 1;
    }
    assert!(seen.iter().all(|n| *n == 1));
}

#[test]
fn triangle_one_drone() {
    let roads = network(&[1, 2, 3], vec![road(1, 2, 1), road(2, 3, 1), road(3, 1, 1)]);
    let plan = construct_flight_paths(roads, &vec![Location::Node(1)]).unwrap();
    assert_eq!(plan.paths.len(), 1);
    let nodes = nodes_of(&plan.paths[0]);
    assert!(nodes == vec![1, 2, 3, 1] || nodes == vec![1, 3, 2, 1]);
    assert_eq!(plan.paths[0][0].discriminator, None);
    assert_eq!(length_of(&plan.graph, &plan.tours[0]), 3);
    assert_eq!(plan.graph.edge_count(), 3);
    assert!(plan.residual.is_empty());
    assert_eq!(plan.anchors, vec![1]);
    assert_closed(&plan.graph, &plan.tours[0], 1);
    assert_each_edge_once(&plan);
}

#[test]
fn square_with_diagonal_one_drone() {
    let roads = network(
        &[1, 2, 3, 4],
        vec![road(1, 2, 10), road(2, 3, 10), road(3, 4, 10), road(4, 1, 10), road(1, 3, 14)],
    );
    let plan = construct_flight_paths(roads, &vec![Location::Node(1)]).unwrap();
    assert_eq!(plan.graph.edge_count(), 6);
    assert_eq!(plan.tours[0].len(), 6);
    assert_eq!(plan.paths[0].len(), 7);
    assert_eq!(length_of(&plan.graph, &plan.tours[0]), 68);
    assert!(plan.tours[0].contains(&4));
    assert!(plan.tours[0].contains(&5));
    assert!(plan.residual.is_empty());
    assert_closed(&plan.graph, &plan.tours[0], 1);
    assert_each_edge_once(&plan);
    let nodes = nodes_of(&plan.paths[0]);
    assert_eq!(nodes[0], 1);
    assert_eq!(nodes[6], 1);
}

#[test]
fn two_disjoint_triangles_one_drone() {
    let roads = network(
        &[1, 2, 3, 4, 5, 6],
        vec![
            road(1, 2, 1),
            road(2, 3, 1),
            road(3, 1, 1),
            road(4, 5, 1),
            road(5, 6, 1),
            road(6, 4, 1),
        ],
    );
    let plan = construct_flight_paths(roads, &vec![Location::Node(1)]).unwrap();
    assert_eq!(plan.paths.len(), 1);
    let mut covered = plan.tours[0].clone();
    covered.sort();
    assert_eq!(covered, vec![0, 1, 2]);
    assert_eq!(plan.residual, vec![3, 4, 5]);
    assert_closed(&plan.graph, &plan.tours[0], 1);
    assert_each_edge_once(&plan);
}

#[test]
fn parallel_edges_with_discriminator() {
    let roads = network(
        &[1, 2],
        vec![
            RoadSegment { discriminator: Some(1), ..road(1, 2, 1) },
            RoadSegment { discriminator: Some(2), ..road(1, 2, 3) },
        ],
    );
    let plan = construct_flight_paths(roads, &vec![Location::Node(1)]).unwrap();
    assert_eq!(plan.graph.edge_count(), 2);
    let path = &plan.paths[0];
    assert_eq!(nodes_of(path), vec![1, 2, 1]);
    assert_eq!(path[0].discriminator, None);
    let mut taken = vec![path[1].discriminator.unwrap(), path[2].discriminator.unwrap()];
    taken.sort();
    assert_eq!(taken, vec![1, 2]);
    assert_eq!(length_of(&plan.graph, &plan.tours[0]), 4);
    assert!(plan.residual.is_empty());
}

#[test]
fn two_drones_share_the_edges() {
    // Two triangles that share node 1: a drone at node 2 and one at node 4.
    let roads = network(
        &[1, 2, 3, 4, 5],
        vec![
            road(1, 2, 1),
            road(2, 3, 1),
            road(3, 1, 1),
            road(1, 4, 2),
            road(4, 5, 2),
            road(5, 1, 2),
        ],
    );
    let plan =
        construct_flight_paths(roads, &vec![Location::Node(2), Location::Node(4)]).unwrap();
    assert_eq!(plan.tours.len(), 2);
    assert_closed(&plan.graph, &plan.tours[0], 2);
    assert_closed(&plan.graph, &plan.tours[1], 4);
    assert!(plan.residual.is_empty());
    assert_each_edge_once(&plan);
    // The shorter walk grows first: each drone ends with its own triangle.
    let mut first = plan.tours[0].clone();
    first.sort();
    assert_eq!(first, vec![0, 1, 2]);
    let mut second = plan.tours[1].clone();
    second.sort();
    assert_eq!(second, vec![3, 4, 5]);
}

#[test]
fn drone_located_by_coordinates() {
    let roads = network(&[1, 2, 3], vec![road(1, 2, 1), road(2, 3, 1), road(3, 1, 1)]);
    let plan = construct_flight_paths(roads, &vec![Location::Coordinates(21, 3)]).unwrap();
    assert_eq!(plan.anchors, vec![2]);
    assert_eq!(plan.paths[0][0], PathSegment { node: 2, discriminator: None });
    assert_closed(&plan.graph, &plan.tours[0], 2);
}

#[test]
fn no_drones_leave_everything_over() {
    let roads = network(&[1, 2, 3], vec![road(1, 2, 1), road(2, 3, 1), road(3, 1, 1)]);
    let plan = construct_flight_paths(roads, &vec![]).unwrap();
    assert!(plan.paths.is_empty());
    assert_eq!(plan.residual, vec![0, 1, 2]);
}

#[test]
fn unlocated_drone_is_an_error() {
    let roads = network(&[1, 2], vec![road(1, 2, 1)]);
    let r = construct_flight_paths(roads, &vec![Location::Node(1), Location::Node(9)]);
    match r {
        Err(PlanError::Unlocated(i)) => assert_eq!(i, 1),
        _ => panic!("the second drone is at no node"),
    }
    let empty = network(&[], vec![]);
    let r = construct_flight_paths(empty, &vec![Location::Coordinates(0, 0)]);
    match r {
        Err(e) => {
            assert!(matches!(e, PlanError::Unlocated(0)));
            assert_eq!(e.message(), "Failed to locate positions to the road graph");
        }
        Ok(_) => panic!("there is no node to be at"),
    }
}

#[test]
fn road_to_an_unknown_node_is_an_error() {
    let roads = network(&[1, 2], vec![road(1, 2, 1), road(2, 7, 1), road(8, 9, 1)]);
    match build_graph(&roads) {
        Err(PlanError::UnknownNode(k)) => assert_eq!(k, 1),
        _ => panic!("the second road leads nowhere"),
    }
    assert!(matches!(
        construct_flight_paths(roads, &vec![Location::Node(1)]),
        Err(PlanError::UnknownNode(1))
    ));
}

#[test]
fn build_graph_keeps_the_order_of_nodes_and_roads() {
    let roads = network(&[5, 3, 9], vec![road(9, 5, 4), road(3, 9, 2)]);
    let g = build_graph(&roads).unwrap();
    assert_eq!(g.node_count(), 3);
    assert_eq!((g.id_of(0), g.id_of(1), g.id_of(2)), (5, 3, 9));
    assert_eq!(g.get_node(3).unwrap().coordinates, (30, 0));
    assert_eq!(g.edge_count(), 2);
    assert_eq!(g.edge(0).length, 4);
    assert_eq!((g.edge(1).p1, g.edge(1).p2, g.edge(1).iidx), (3, 9, 0));
}

#[test]
fn path_segments_carry_the_discriminators() {
    let roads = network(
        &[1, 2, 3],
        vec![
            RoadSegment { discriminator: Some(7), ..road(1, 2, 1) },
            road(2, 3, 1),
            RoadSegment { discriminator: Some(8), ..road(1, 3, 1) },
        ],
    );
    let g = build_graph(&roads).unwrap();
    assert_eq!(
        path_segments(&g, &vec![0, 1, 2], 1),
        vec![
            PathSegment { node: 1, discriminator: None },
            PathSegment { node: 2, discriminator: Some(7) },
            PathSegment { node: 3, discriminator: None },
            PathSegment { node: 1, discriminator: Some(8) },
        ]
    );
    assert_eq!(path_segments(&g, &vec![], 3), vec![PathSegment { node: 3, discriminator: None }]);
}

#[test]
fn cover_leaves_forbidden_edges_over() {
    let roads = network(
        &[1, 2, 3],
        vec![
            road(1, 2, 1),
            road(2, 3, 1),
            road(3, 1, 1),
            RoadSegment { discriminator: Some(5), ..road(1, 2, 5) },
            RoadSegment { discriminator: Some(6), ..road(1, 2, 6) },
            RoadSegment { discriminator: Some(7), ..road(1, 2, 7) },
        ],
    );
    let g = build_graph(&roads).unwrap();
    let weights = vec![Some(1), Some(1), Some(1), None, Some(6), Some(7)];
    let Cover { tours, residual } = g.cycle_cover::<false>(&vec![1], &weights);
    assert_eq!(tours.len(), 1);
    assert_closed(&g, &tours[0], 1);
    assert_eq!(residual, vec![3]);
    for e in [0usize, 1, 2, 4, 5] {
        assert_eq!(tours[0].iter().filter(|x| **x == e).count(), 1);
    }
    // An allowed edge that lies on no closed walk is left over too.
    let weights = vec![Some(1), Some(1), Some(1), None, Some(6), None];
    let cover = g.cycle_cover::<false>(&vec![1], &weights);
    assert_eq!(cover.residual, vec![3, 4, 5]);
    let mut taken = cover.tours[0].clone();
    taken.sort();
    assert_eq!(taken, vec![0, 1, 2]);
}

#[test]
fn cover_from_an_unknown_anchor_is_empty() {
    let roads = network(&[1, 2, 3], vec![road(1, 2, 1), road(2, 3, 1), road(3, 1, 1)]);
    let g = build_graph(&roads).unwrap();
    let weights = vec![Some(1), Some(1), Some(1)];
    let cover = g.cycle_cover::<false>(&vec![9, 2], &weights);
    assert!(cover.tours[0].is_empty());
    assert_eq!(cover.tours[1].len(), 3);
    assert_closed(&g, &cover.tours[1], 2);
    assert!(cover.residual.is_empty());
}

#[test]
fn a_road_listed_twice_is_one_edge() {
    let roads = network(
        &[1, 2, 3],
        vec![road(1, 2, 1), road(2, 3, 1), road(1, 2, 7), road(3, 1, 1), road(2, 3, 1)],
    );
    let g = build_graph(&roads).unwrap();
    assert_eq!(g.edge_count(), 3);
    assert_eq!((g.edge(0).p1, g.edge(0).p2, g.edge(0).length), (1, 2, 1));
    assert_eq!((g.edge(1).p1, g.edge(1).p2), (2, 3));
    assert_eq!((g.edge(2).p1, g.edge(2).p2), (3, 1));
    assert_eq!(g.degree::<false>(1), 2);
    let plan = construct_flight_paths(roads, &vec![Location::Node(1)]).unwrap();
    assert_eq!(plan.graph.edge_count(), 3);
    assert_eq!(plan.tours[0].len(), 3);
}
