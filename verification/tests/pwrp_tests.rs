use snow_routes::graph::Graph;
use snow_routes::pwrp::solve_pwrp;
use snow_routes::road::RoadEdge;
use std::collections::HashSet;

fn edge(p1: u64, p2: u64, length: u64) -> RoadEdge {
    RoadEdge { p1, p2, discriminator: None, directed: false, length, iidx: 0 }
}

fn one_way(p1: u64, p2: u64, length: u64) -> RoadEdge {
    RoadEdge { p1, p2, discriminator: None, directed: true, length, iidx: 0 }
}

fn graph_of(nodes: &[u64], edges: &[RoadEdge]) -> Graph<u8, RoadEdge> {
    let mut g = Graph::new();
    for n in nodes {
        g.add_node(*n, 0);
    }
    for (i, e) in edges.iter().enumerate() {
        let tagged = RoadEdge { discriminator: e.discriminator.or(Some(100 + i as u64)), ..*e };
        assert!(g.add_edge(tagged));
    }
    g
}

fn lengths(g: &Graph<u8, RoadEdge>) -> Vec<Option<u64>> {
    (0..g.edge_count()).map(|e| Some(g.edge(e).length)).collect()
}

fn set(edges: &[usize]) -> HashSet<usize> {
    edges.iter().cloned().collect()
}

fn assert_closed<const D: bool>(g: &Graph<u8, RoadEdge>, tour: &Vec<usize>, start: u64) {
    let nodes = g.path_to_nodes(tour, start);
    assert_eq!(nodes[0].0, start);
    assert_eq!(nodes[nodes.len() - 1].0, start);
    for (i, e) in tour.iter().enumerate() {
        let edge = g.edge(*e);
        let (from, to) = (nodes[i].0, nodes[i + 1].0);
        assert!((edge.p1 == from && edge.p2 == to) || (edge.p2 == from && edge.p1 == to));
        if D && edge.directed {
            assert_eq!(edge.p1, from);
        }
    }
}

/// Two squares side by side: nodes 1 2 3 on top, 4 5 6 below.
fn ladder() -> Graph<u8, RoadEdge> {
    graph_of(
        &[1, 2, 3, 4, 5, 6],
        &[
            edge(1, 2, 1),
            edge(2, 3, 1),
            edge(4, 5, 1),
            edge(5, 6, 1),
            edge(1, 4, 1),
            edge(2, 5, 1),
            edge(3, 6, 1),
        ],
    )
}

#[test]
fn pwrp_of_nothing_is_the_empty_tour() {
    let g = ladder();
    let w = lengths(&g);
    assert_eq!(solve_pwrp::<_, _, false>(&g, 1, set(&[]), &w), Ok(vec![]));
}

#[test]
fn pwrp_covers_edges_at_the_start() {
    let g = ladder();
    let w = lengths(&g);
    let sol = solve_pwrp::<_, _, false>(&g, 1, set(&[0, 4]), &w).unwrap();
    assert!(sol.contains(&0));
    assert!(sol.contains(&4));
    assert_closed::<false>(&g, &sol, 1);
    // The cheapest closed walk at node 1 is the left square.
    let mut taken = sol.clone();
    taken.sort();
    assert_eq!(taken, vec![0, 2, 4, 5]);
}

#[test]
fn pwrp_reaches_distant_edges() {
    let g = ladder();
    let w = lengths(&g);
    let sol = solve_pwrp::<_, _, false>(&g, 1, set(&[6]), &w).unwrap();
    assert!(sol.contains(&6));
    assert_closed::<false>(&g, &sol, 1);
    let mut taken = sol.clone();
    taken.sort();
    taken.dedup();
    assert_eq!(taken.len(), sol.len());
}

#[test]
fn pwrp_covers_every_required_edge() {
    let g = ladder();
    let w = lengths(&g);
    for start in 1..=6u64 {
        let all: Vec<usize> = (0..7).collect();
        let sol = solve_pwrp::<_, _, false>(&g, start, set(&all), &w);
        match sol {
            Ok(sol) => {
                for e in 0..7 {
                    assert!(sol.contains(&e));
                }
                assert_closed::<false>(&g, &sol, start);
            }
            Err(left) => {
                assert!(!left.is_empty());
                assert!(left.iter().all(|e| *e < 7));
            }
        }
    }
}

#[test]
fn pwrp_cannot_reach_another_component() {
    let g = graph_of(
        &[1, 2, 3, 4, 5, 6],
        &[
            edge(1, 2, 1),
            edge(2, 3, 1),
            edge(3, 1, 1),
            edge(4, 5, 1),
            edge(5, 6, 1),
            edge(6, 4, 1),
        ],
    );
    let w = lengths(&g);
    let left = solve_pwrp::<_, _, false>(&g, 1, set(&[1, 4]), &w).unwrap_err();
    assert_eq!(left, set(&[4]));
    let sol = solve_pwrp::<_, _, false>(&g, 4, set(&[4]), &w).unwrap();
    assert_closed::<false>(&g, &sol, 4);
    assert!(sol.contains(&4));
}

#[test]
fn pwrp_cannot_return_over_a_bridge() {
    // A bridge can be taken only once: there is no closed walk over it.
    let g = graph_of(&[1, 2, 3, 4], &[edge(1, 2, 1), edge(2, 3, 1), edge(3, 4, 1), edge(4, 2, 1)]);
    let w = lengths(&g);
    let left = solve_pwrp::<_, _, false>(&g, 1, set(&[2]), &w).unwrap_err();
    assert_eq!(left, set(&[2]));
}

#[test]
fn pwrp_avoids_forbidden_edges() {
    let g = ladder();
    let mut w = lengths(&g);
    w[0] = None;
    let left = solve_pwrp::<_, _, false>(&g, 1, set(&[1]), &w).unwrap_err();
    assert_eq!(left, set(&[1]));
    let sol = solve_pwrp::<_, _, false>(&g, 2, set(&[1]), &w).unwrap();
    assert!(!sol.contains(&0));
    assert!(sol.contains(&1));
    assert_closed::<false>(&g, &sol, 2);
}

#[test]
fn pwrp_respects_directions_when_asked() {
    let g = graph_of(
        &[1, 2, 3],
        &[one_way(1, 2, 1), one_way(2, 3, 1), one_way(3, 1, 1), one_way(3, 2, 1)],
    );
    let w = lengths(&g);
    let sol = solve_pwrp::<_, _, true>(&g, 1, set(&[1]), &w).unwrap();
    assert_eq!(sol, vec![0, 1, 2]);
    assert_closed::<true>(&g, &sol, 1);
    let left = solve_pwrp::<_, _, true>(&g, 1, set(&[3]), &w).unwrap_err();
    assert_eq!(left, set(&[3]));
    let free = solve_pwrp::<_, _, false>(&g, 1, set(&[3]), &w).unwrap();
    assert!(free.contains(&3));
    assert_closed::<false>(&g, &free, 1);
}

#[test]
fn pwrp_takes_no_edge_twice() {
    let g = ladder();
    let w = lengths(&g);
    for start in 1..=6u64 {
        for e in 0..7usize {
            if let Ok(sol) = solve_pwrp::<_, _, false>(&g, start, set(&[e]), &w) {
                let mut taken = sol.clone();
                taken.sort();
                taken.dedup();
                assert_eq!(taken.len(), sol.len());
                assert!(sol.contains(&e));
            }
        }
    }
}

#[test]
fn pwrp_goes_round_a_triangle() {
    let g = graph_of(&[1, 2, 3], &[edge(1, 2, 1), edge(2, 3, 1), edge(3, 1, 1)]);
    let w = lengths(&g);
    let sol = solve_pwrp::<_, _, false>(&g, 1, set(&[0, 1, 2]), &w).unwrap();
    assert_eq!(sol.len(), 3);
    let mut taken = sol.clone();
    taken.sort();
    assert_eq!(taken, vec![0, 1, 2]);
    assert_closed::<false>(&g, &sol, 1);
}
