use snow_routes::anneal::{Clearing, Parameters, Realloc, Recycle, Reorder};
use snow_routes::data::{
    Location, Node, RoadGraph, RoadGraphNodes, RoadSegment, SnowStatusElement,
    VehiclesConfiguration,
};
use snow_routes::euler::Obstacle;
use snow_routes::planner::{find_road, is_known, locate_all, solve, build_graph, PlanError};
use std::collections::HashSet;

fn road(p1: u64, p2: u64, distance: u64) -> RoadSegment {
    RoadSegment { p1, p2, discriminator: None, directed: false, distance, sidewalks: (true, false) }
}

fn square() -> RoadGraph {
    RoadGraph {
        roads: vec![road(1, 2, 10), road(2, 3, 10), road(3, 4, 10), road(4, 1, 10)],
        nodes: RoadGraphNodes {
            nodes: vec![
                Node { id: 1, coordinates: (0, 0) },
                Node { id: 2, coordinates: (10, 0) },
                Node { id: 3, coordinates: (10, 10) },
                Node { id: 4, coordinates: (0, 10) },
            ],
        },
    }
}

fn vehicles(road: Vec<Location>) -> VehiclesConfiguration {
    VehiclesConfiguration { road, sidewalk: vec![Location::Node(1)] }
}

fn snow(p1: u64, p2: u64, depth: i64) -> SnowStatusElement {
    SnowStatusElement { p1, p2, discriminator: None, depth }
}

fn params() -> Parameters {
    Parameters {
        main_iterations: 10,
        weight_total: 1,
        weight_max: 0,
        slowdown: 2000,
        recycle: Recycle::ExpensiveToCheap,
        clearing: Clearing::OnlyAllocated,
        reorder: Reorder::No,
        realloc: Realloc::No,
    }
}

fn set(edges: &[usize]) -> HashSet<usize> {
    edges.iter().cloned().collect()
}

#[test]
fn plow_plan_for_a_square() {
    let fleet = vehicles(vec![Location::Node(1), Location::Coordinates(9, 9)]);
    let plan = solve(square(), vec![], Some(5), fleet, &params()).unwrap();
    assert_eq!(plan.starts, vec![1, 3]);
    assert_eq!(plan.snowy, set(&[0, 1, 2, 3]));
    assert_eq!(plan.paths.len(), 2);
    assert!(plan.state.accepted);
    assert_eq!(plan.state.value_best, 120_000);
    for (path, start) in plan.paths.iter().zip(plan.starts.iter()) {
        assert_eq!(path[0].node, *start);
        assert_eq!(path[0].discriminator, None);
        assert_eq!(path[path.len() - 1].node, *start);
        assert_eq!(path.len(), 5);
    }
    let held: usize = plan.state.alloc.iter().map(|share| share.len()).sum();
    assert_eq!(held, 4);
    assert_eq!(plan.solver.graph().edge_count(), 4);
}

#[test]
fn plow_plan_from_observations() {
    let fleet = vehicles(vec![Location::Node(1)]);
    let seen = vec![snow(2, 3, 4), snow(1, 2, 0), snow(1, 4, 2), snow(3, 4, -1)];
    let plan = solve(square(), seen, None, fleet, &params()).unwrap();
    assert_eq!(plan.snowy, set(&[1, 3]));
    assert_eq!(plan.state.alloc, vec![set(&[1, 3])]);
    assert_eq!(plan.state.solution[0].len(), 4);
    // Twice 10 for the snowy segments, 10 for each of the others.
    assert_eq!(plan.state.value_best, 60_000);
    let same = solve(
        square(),
        vec![snow(2, 3, 4), snow(1, 4, 2)],
        Some(0),
        vehicles(vec![Location::Node(1)]),
        &params(),
    )
    .unwrap();
    assert_eq!(same.snowy, set(&[1, 3]));
}

#[test]
fn plow_plan_without_snow() {
    let fleet = vehicles(vec![Location::Node(1), Location::Node(2)]);
    let plan = solve(square(), vec![snow(1, 2, 0)], None, fleet, &params()).unwrap();
    assert!(plan.snowy.is_empty());
    assert_eq!(plan.state.solution, vec![Vec::<usize>::new(), vec![]]);
    assert_eq!(plan.state.value_best, 0);
    assert_eq!(plan.paths[0].len(), 1);
    assert_eq!(plan.paths[1][0].node, 2);
}

#[test]
fn plow_plan_doubles_dead_ends() {
    let mut roads = square();
    roads.nodes.nodes.push(Node { id: 5, coordinates: (20, 0) });
    roads.roads.push(road(2, 5, 7));
    let fleet = vehicles(vec![Location::Node(1)]);
    let plan = solve(roads, vec![snow(5, 2, 1)], None, fleet, &params()).unwrap();
    let g = plan.solver.graph();
    assert_eq!(g.edge_count(), 6);
    assert_eq!((g.edge(5).p1, g.edge(5).p2, g.edge(5).iidx, g.edge(5).length), (2, 5, 1, 7));
    assert_eq!(plan.snowy, set(&[4]));
    let tour = &plan.state.solution[0];
    assert!(tour.contains(&4));
    assert!(tour.contains(&5));
    assert_eq!(plan.paths[0][0].node, 1);
    assert_eq!(plan.paths[0][tour.len()].node, 1);
}

#[test]
fn no_vehicle_and_no_snow_is_a_plan_without_paths() {
    let plan = solve(square(), vec![snow(1, 2, 0)], None, vehicles(vec![]), &params()).unwrap();
    assert!(plan.paths.is_empty());
    assert!(plan.starts.is_empty());
    assert!(plan.snowy.is_empty());
    assert!(plan.state.solution.is_empty());
    assert!(!plan.state.accepted);
    // The other errors come first.
    let seen = vec![snow(1, 3, 2)];
    let r = solve(square(), seen, None, vehicles(vec![]), &params());
    assert!(matches!(r, Err(PlanError::UnknownSnow(0))));
    let r = solve(square(), vec![snow(1, 2, 2)], None, vehicles(vec![]), &params());
    assert!(matches!(r, Err(PlanError::NoVehicle)));
}

#[test]
fn no_vehicle_is_an_error() {
    let r = solve(square(), vec![], Some(1), vehicles(vec![]), &params());
    match r {
        Err(e) => {
            assert!(matches!(e, PlanError::NoVehicle));
            assert_eq!(e.message(), "No vehicle is given");
        }
        Ok(_) => panic!("there is no vehicle"),
    }
}

#[test]
fn unlocated_vehicle_is_an_error() {
    let fleet = vehicles(vec![Location::Node(1), Location::Node(1), Location::Node(8)]);
    let r = solve(square(), vec![], Some(1), fleet, &params());
    match r {
        Err(e) => {
            assert!(matches!(e, PlanError::Unlocated(2)));
            assert_eq!(e.message(), "Failed to locate positions to the road graph");
        }
        Ok(_) => panic!("the third vehicle is at no node"),
    }
}

#[test]
fn unknown_road_end_is_an_error() {
    let mut roads = square();
    roads.roads.insert(2, road(3, 9, 1));
    let r = solve(roads, vec![], Some(1), vehicles(vec![Location::Node(1)]), &params());
    match r {
        Err(e) => {
            assert!(matches!(e, PlanError::UnknownNode(2)));
            assert_eq!(e.message(), "A road names a node that the road graph lacks");
        }
        Ok(_) => panic!("the third road leads nowhere"),
    }
}

#[test]
fn snow_on_no_road_is_an_error() {
    let fleet = vehicles(vec![Location::Node(1)]);
    let seen = vec![snow(1, 2, 1), snow(1, 3, 0), snow(1, 3, 2)];
    let r = solve(square(), seen, None, fleet, &params());
    match r {
        Err(e) => {
            assert!(matches!(e, PlanError::UnknownSnow(2)));
            assert_eq!(e.message(), "Snow status edge not found");
        }
        Ok(_) => panic!("there is no road between 1 and 3"),
    }
    let seen = vec![SnowStatusElement { discriminator: Some(1), ..snow(1, 2, 1) }];
    let r = solve(square(), seen, None, vehicles(vec![Location::Node(1)]), &params());
    assert!(matches!(r, Err(PlanError::UnknownSnow(0))));
    let seen = vec![snow(7, 2, 1)];
    let r = solve(square(), seen, None, vehicles(vec![Location::Node(1)]), &params());
    assert!(matches!(r, Err(PlanError::UnknownSnow(0))));
}

#[test]
fn stranded_vehicle_is_an_error() {
    let mut roads = square();
    for id in 5..8u64 {
        roads.nodes.nodes.push(Node { id, coordinates: (100, id as i32) });
    }
    roads.roads.extend(vec![road(5, 6, 1), road(6, 7, 1), road(7, 5, 1)]);
    let r = solve(roads, vec![snow(5, 6, 3)], None, vehicles(vec![Location::Node(1)]), &params());
    match r {
        Err(PlanError::Stranded(stranded)) => {
            assert_eq!(stranded.vehicle, 0);
            assert_eq!(stranded.edges, vec![4]);
        }
        _ => panic!("the snow is out of reach"),
    }
    assert_eq!(
        PlanError::Stranded(snow_routes::anneal::Stranded { vehicle: 0, edges: vec![4] }).message(),
        "Can't reach everywhere"
    );
}

#[test]
fn unfit_messages() {
    assert_eq!(
        PlanError::Unfit(Obstacle::DeadEnd(3)).message(),
        "A one-way road leads to a dead end"
    );
    assert_eq!(
        PlanError::Unfit(Obstacle::Stuck(3)).message(),
        "A junction is left with no road to double"
    );
}

#[test]
fn a_junction_with_a_loop_and_a_dead_end_is_unfit() {
    let roads = RoadGraph {
        roads: vec![road(1, 1, 5), road(1, 2, 5)],
        nodes: RoadGraphNodes {
            nodes: vec![Node { id: 1, coordinates: (0, 0) }, Node { id: 2, coordinates: (1, 1) }],
        },
    };
    let r = solve(roads, vec![], Some(1), vehicles(vec![Location::Node(1)]), &params());
    assert!(matches!(r, Err(PlanError::Unfit(Obstacle::Stuck(1)))));
}

#[test]
fn locate_all_reports_the_first_failure() {
    let roads = square();
    assert_eq!(
        locate_all(&roads, &vec![Location::Node(4), Location::Coordinates(11, 1)]),
        Ok(vec![4, 2])
    );
    assert_eq!(
        locate_all(&roads, &vec![Location::Node(4), Location::Node(0), Location::Node(9)]),
        Err(1)
    );
    assert_eq!(locate_all(&roads, &vec![]), Ok(vec![]));
    assert!(is_known(&roads.nodes.nodes, 3));
    assert!(!is_known(&roads.nodes.nodes, 0));
}

#[test]
fn find_road_matches_ends_discriminator_and_index() {
    let mut roads = square();
    roads.roads.push(RoadSegment { discriminator: Some(6), ..road(2, 1, 3) });
    let g = build_graph(&roads).unwrap();
    assert_eq!(find_road(&g, &snow(1, 2, 1)), Some(0));
    assert_eq!(find_road(&g, &snow(2, 1, 1)), Some(0));
    assert_eq!(find_road(&g, &SnowStatusElement { discriminator: Some(6), ..snow(1, 2, 1) }), Some(4));
    assert_eq!(find_road(&g, &SnowStatusElement { discriminator: Some(5), ..snow(1, 2, 1) }), None);
    assert_eq!(find_road(&g, &snow(1, 3, 1)), None);
    assert_eq!(find_road(&g, &snow(9, 1, 1)), None);
}
