use snow_routes::anneal::{
    add_costs, cost_of, exchange_places, is_better, reorder, scale_cost, value_of, Clearing, Parameters, Progress,
    Realloc, Recycle, Reorder,
};
use snow_routes::graph::Graph;
use snow_routes::plow::{edge_weights, PlowSolver};
use snow_routes::road::{RoadEdge, RoadNode};
use std::collections::HashSet;

fn edge(p1: u64, p2: u64, length: u64) -> RoadEdge {
    RoadEdge { p1, p2, discriminator: None, directed: false, length, iidx: 0 }
}

fn graph_of(nodes: &[(u64, (i32, i32))], edges: &[RoadEdge]) -> Graph<RoadNode, RoadEdge> {
    let mut g = Graph::new();
    for (id, coordinates) in nodes {
        g.add_node(*id, RoadNode { id: *id, coordinates: *coordinates });
    }
    for (i, e) in edges.iter().enumerate() {
        let tagged = RoadEdge { discriminator: e.discriminator.or(Some(100 + i as u64)), ..*e };
        assert!(g.add_edge(tagged));
    }
    g
}

fn square() -> PlowSolver<RoadNode, RoadEdge> {
    PlowSolver::new(graph_of(
        &[(1, (0, 0)), (2, (10, 0)), (3, (10, 10)), (4, (0, 10))],
        &[edge(1, 2, 10), edge(2, 3, 10), edge(3, 4, 10), edge(4, 1, 10)],
    ))
}

/// Two triangles that share node 1.
fn bow_tie() -> PlowSolver<RoadNode, RoadEdge> {
    PlowSolver::new(graph_of(
        &[(1, (0, 0)), (2, (-5, 5)), (3, (-5, -5)), (4, (5, 5)), (5, (5, -5))],
        &[
            edge(1, 2, 1),
            edge(2, 3, 1),
            edge(3, 1, 1),
            edge(1, 4, 1),
            edge(4, 5, 1),
            edge(5, 1, 1),
        ],
    ))
}

fn set(edges: &[usize]) -> HashSet<usize> {
    edges.iter().cloned().collect()
}

fn params(recycle: Recycle, clearing: Clearing, reorder: Reorder) -> Parameters {
    Parameters {
        main_iterations: 10,
        weight_total: 1,
        weight_max: 0,
        slowdown: 2000,
        recycle,
        clearing,
        reorder,
        realloc: Realloc::No,
    }
}

fn assert_closed(g: &Graph<RoadNode, RoadEdge>, tour: &Vec<usize>, start: u64) {
    let nodes = g.path_to_nodes(tour, start);
    assert_eq!(nodes[0].0, start);
    assert_eq!(nodes[nodes.len() - 1].0, start);
    for (i, e) in tour.iter().enumerate() {
        let edge = g.edge(*e);
        let (from, to) = (nodes[i].0, nodes[i + 1].0);
        assert!((edge.p1 == from && edge.p2 == to) || (edge.p2 == from && edge.p1 == to));
    }
}

fn assert_sound(
    solver: &PlowSolver<RoadNode, RoadEdge>,
    state: &Progress,
    sps: &Vec<u64>,
    snowy: &HashSet<usize>,
) {
    assert_eq!(state.solution.len(), sps.len());
    assert_eq!(state.alloc.len(), sps.len());
    for (tour, start) in state.solution.iter().zip(sps.iter()) {
        assert_closed(solver.graph(), tour, *start);
    }
    let held: usize = state.alloc.iter().map(|share| share.len()).sum();
    assert_eq!(held, snowy.len());
    for e in snowy {
        assert_eq!(state.alloc.iter().filter(|share| share.contains(e)).count(), 1);
        if state.accepted {
            assert!(state.solution.iter().any(|tour| tour.contains(e)));
        }
    }
    let mut order = state.order.clone();
    order.sort();
    assert_eq!(order, (0..sps.len()).collect::<Vec<_>>());
}

#[test]
fn weights_are_the_lengths() {
    let solver = square();
    assert_eq!(solver.weights(), vec![Some(10); 4]);
    assert_eq!(edge_weights(solver.graph()), vec![Some(10); 4]);
}

#[test]
fn initial_allocation_by_nearest_vehicle_and_load() {
    let solver = square();
    let locs = vec![(0, 0), (10, 10)];
    let shares = solver.initial_allocation(&locs, &vec![0, 1, 2, 3]);
    assert_eq!(shares, vec![set(&[0, 3]), set(&[1, 2])]);
}

#[test]
fn initial_allocation_goes_by_the_order_of_the_segments() {
    let solver = square();
    let locs = vec![(0, 0), (10, 10)];
    // Segment 1 lies between a node nearest to the first vehicle and one
    // nearest to the second: with both shares empty it goes to the first.
    let shares = solver.initial_allocation(&locs, &vec![1, 2, 0, 3]);
    assert_eq!(shares, vec![set(&[1, 0, 3]), set(&[2])]);
}

#[test]
fn initial_allocation_to_one_vehicle() {
    let solver = square();
    let shares = solver.initial_allocation(&vec![(3, 3)], &vec![2, 0]);
    assert_eq!(shares, vec![set(&[0, 2])]);
    let none = solver.initial_allocation(&vec![(3, 3), (4, 4)], &vec![]);
    assert_eq!(none, vec![set(&[]), set(&[])]);
}

#[test]
fn sol_to_alloc_gives_to_the_first_in_order() {
    let snowy = set(&[0, 1, 2, 3]);
    let sols = vec![vec![0, 1, 5], vec![1, 2], vec![2, 0, 3]];
    let mut allocs = vec![set(&[2, 4]), set(&[0, 3]), set(&[1, 7])];
    PlowSolver::<RoadNode, RoadEdge>::sol_to_alloc(&vec![2, 0, 1], &sols, &mut allocs, &snowy);
    assert_eq!(allocs, vec![set(&[1, 4]), set(&[]), set(&[0, 2, 3, 7])]);
}

#[test]
fn sol_to_alloc_leaves_untaken_segments_where_they_are() {
    let snowy = set(&[0, 1, 2]);
    let sols = vec![vec![], vec![1]];
    let mut allocs = vec![set(&[0, 1]), set(&[2])];
    PlowSolver::<RoadNode, RoadEdge>::sol_to_alloc(&vec![0, 1], &sols, &mut allocs, &snowy);
    assert_eq!(allocs, vec![set(&[0]), set(&[1, 2])]);
    // Only the vehicles in the order are heeded.
    let mut allocs = vec![set(&[0, 1]), set(&[2])];
    PlowSolver::<RoadNode, RoadEdge>::sol_to_alloc(&vec![0], &sols, &mut allocs, &snowy);
    assert_eq!(allocs, vec![set(&[0, 1]), set(&[2])]);
}

#[test]
fn costs_are_capped() {
    assert_eq!(add_costs(3, 4), 7);
    assert_eq!(add_costs(u128::MAX, 1), u128::MAX);
    assert_eq!(add_costs(u128::MAX - 1, 1), u128::MAX);
    assert_eq!(scale_cost(6, 7), 42);
    assert_eq!(scale_cost(u128::MAX, 0), 0);
    assert_eq!(scale_cost(u128::MAX / 2 + 1, 2), u128::MAX);
    assert_eq!(value_of(2, 3, 10, 4), 32);
    assert_eq!(value_of(1, 0, 120, 60), 120);
    assert_eq!(value_of(1, 1, u128::MAX, 5), u128::MAX);
}

#[test]
fn tour_cost_slows_down_on_snow() {
    let weight = vec![Some(10), Some(20), Some(30), None];
    let snowy = set(&[0, 1]);
    let share = set(&[1, 2]);
    let done = vec![true, false, false, false];
    let sol = vec![0, 1, 2, 3, 1];
    // Own snowy segments are slow: segment 1, twice.
    assert_eq!(
        cost_of(&weight, 3000, &snowy, &share, &done, false, &sol),
        10_000 + 60_000 + 30_000 + 60_000
    );
    // Snowy segments that nobody has cleared are slow: segment 1, twice.
    assert_eq!(
        cost_of(&weight, 3000, &snowy, &share, &done, true, &sol),
        10_000 + 60_000 + 30_000 + 60_000
    );
    let nobody = vec![false; 4];
    assert_eq!(
        cost_of(&weight, 3000, &snowy, &share, &nobody, true, &sol),
        30_000 + 60_000 + 30_000 + 60_000
    );
    assert_eq!(cost_of(&weight, 3000, &snowy, &share, &done, false, &vec![]), 0);
    // Two and a half times, and no slowdown at all.
    assert_eq!(cost_of(&weight, 2500, &snowy, &share, &done, false, &vec![1, 2]), 50_000 + 30_000);
    assert_eq!(cost_of(&weight, 1000, &snowy, &share, &done, false, &sol), 80_000);
    let dear = vec![Some(u64::MAX); 4];
    assert_eq!(
        cost_of(&dear, u64::MAX, &snowy, &share, &done, false, &vec![1]),
        (u64::MAX as u128) * (u64::MAX as u128)
    );
}

#[test]
fn reorder_not_at_all() {
    let solution = vec![vec![1, 2, 3], vec![], vec![1]];
    let mut order = vec![2, 0, 1];
    reorder(&mut order, &solution, Reorder::No);
    assert_eq!(order, vec![2, 0, 1]);
}

#[test]
fn reorder_by_shortest_and_longest() {
    let solution = vec![vec![1, 2, 3, 4, 5], vec![1], vec![1, 2, 3]];
    let mut order = vec![0, 1, 2];
    reorder(&mut order, &solution, Reorder::Swap2MostLeast);
    assert_eq!(order, vec![1, 0, 2]);
    // The places exchanged are those numbered as the two vehicles.
    let mut order = vec![2, 0, 1];
    reorder(&mut order, &solution, Reorder::Swap2MostLeast);
    assert_eq!(order, vec![0, 2, 1]);
    // Of equals the first is the shortest and the last the longest.
    let even = vec![vec![1], vec![2], vec![3]];
    let mut order = vec![1, 2, 0];
    reorder(&mut order, &even, Reorder::Swap2MostLeast);
    assert_eq!(order, vec![2, 1, 0]);
    let mut single = vec![0];
    reorder(&mut single, &vec![vec![]], Reorder::Swap2MostLeast);
    assert_eq!(single, vec![0]);
}

#[test]
fn reorder_at_random_keeps_the_vehicles() {
    let solution = vec![vec![]; 6];
    for how in [Reorder::Swap2Random, Reorder::RandomReorder] {
        let mut order: Vec<usize> = (0..6).collect();
        let mut moved = false;
        for _ in 0..50 {
            let before = order.clone();
            reorder(&mut order, &solution, how);
            moved = moved || order != before;
            let mut sorted = order.clone();
            sorted.sort();
            assert_eq!(sorted, (0..6).collect::<Vec<_>>());
            if how == Reorder::Swap2Random {
                assert!(order.iter().zip(before.iter()).filter(|(a, b)| a != b).count() <= 2);
            }
        }
        assert!(moved);
    }
    let mut none: Vec<usize> = vec![];
    reorder(&mut none, &vec![], Reorder::Swap2Random);
    assert!(none.is_empty());
}

#[test]
fn start_shares_the_snow_and_keeps_nothing() {
    let solver = square();
    let sps = vec![1, 3];
    let snowy = set(&[0, 1, 2, 3]);
    let state = solver.start(&sps, &vec![(0, 0), (10, 10)], &snowy);
    assert_eq!(state.alloc, vec![set(&[0, 3]), set(&[1, 2])]);
    assert_eq!(state.solution, vec![Vec::<usize>::new(), vec![]]);
    assert_eq!(state.order, vec![0, 1]);
    assert_eq!(state.value_best, u128::MAX);
    assert_eq!(state.cost_max_best, u128::MAX);
    assert!(!state.accepted);
    assert_sound(&solver, &state, &sps, &snowy);
}

#[test]
fn plow_annealing_on_a_square() {
    let solver = square();
    let sps = vec![1, 3];
    let snowy = set(&[0, 1, 2, 3]);
    let p = params(Recycle::ExpensiveToCheap, Clearing::OnlyAllocated, Reorder::No);
    let mut state = solver.start(&sps, &vec![(0, 0), (10, 10)], &snowy);
    let mut best = state.value_best;
    for _ in 0..p.main_iterations {
        solver.step::<false>(&sps, &snowy, &p, &mut state).unwrap();
        assert!(state.value_best <= best);
        best = state.value_best;
        assert_sound(&solver, &state, &sps, &snowy);
        assert!(state.accepted);
        let held: usize = state.alloc.iter().map(|share| share.len()).sum();
        assert_eq!(held, 4);
        assert_closed(solver.graph(), &state.solution[0], 1);
        assert_closed(solver.graph(), &state.solution[1], 3);
    }
    // Each vehicle goes round the square, slow on its own two segments.
    assert_eq!(state.value_best, 120_000);
    assert_eq!(state.cost_max_best, 60_000);
    assert_eq!(state.order, vec![0, 1]);
}

#[test]
fn solve_runs_all_rounds() {
    let solver = square();
    let sps = vec![1, 3];
    let snowy = set(&[0, 1, 2, 3]);
    for clearing in [Clearing::OnlyAllocated, Clearing::All] {
        for how in
            [Reorder::No, Reorder::Swap2Random, Reorder::Swap2MostLeast, Reorder::RandomReorder]
        {
            for recycle in [Recycle::No, Recycle::ExpensiveToCheap] {
                let p = params(recycle, clearing, how);
                let state =
                    solver.solve::<false>(&sps, &vec![(0, 0), (10, 10)], &snowy, &p).unwrap();
                assert!(state.accepted);
                assert_sound(&solver, &state, &sps, &snowy);
                assert!(state.value_best <= 120_000);
            }
        }
    }
}

#[test]
fn solve_without_rounds_keeps_nothing() {
    let solver = square();
    let sps = vec![1, 3];
    let snowy = set(&[0, 1, 2, 3]);
    let mut p = params(Recycle::No, Clearing::All, Reorder::No);
    p.main_iterations = 0;
    let state = solver.solve::<false>(&sps, &vec![(0, 0), (10, 10)], &snowy, &p).unwrap();
    assert!(!state.accepted);
    assert_eq!(state.value_best, u128::MAX);
    assert_eq!(state.solution, vec![Vec::<usize>::new(), vec![]]);
    assert_sound(&solver, &state, &sps, &snowy);
}

#[test]
fn clearing_all_counts_snow_once() {
    let solver = square();
    let sps = vec![1, 3];
    let snowy = set(&[0, 1, 2, 3]);
    let p = params(Recycle::No, Clearing::All, Reorder::No);
    let mut state = solver.start(&sps, &vec![(0, 0), (10, 10)], &snowy);
    solver.step::<false>(&sps, &snowy, &p, &mut state).unwrap();
    // The first vehicle goes round the square and clears it all: it is
    // slow on every segment, and nothing is left for the second.
    assert_eq!(state.solution[0].len(), 4);
    assert_eq!(state.solution[1], Vec::<usize>::new());
    assert_eq!(state.value_best, 80_000);
    assert_eq!(state.cost_max_best, 80_000);
    assert_eq!(state.alloc, vec![set(&[0, 1, 2, 3]), set(&[])]);
    assert_sound(&solver, &state, &sps, &snowy);
    let before = state.value_best;
    solver.step::<false>(&sps, &snowy, &p, &mut state).unwrap();
    assert_eq!(state.value_best, before);
    assert_sound(&solver, &state, &sps, &snowy);
}

#[test]
fn a_round_takes_the_order_as_it_stands() {
    let solver = square();
    let sps = vec![1, 3];
    let snowy = set(&[0, 1, 2, 3]);
    let p = params(Recycle::No, Clearing::All, Reorder::RandomReorder);
    let mut state = solver.start(&sps, &vec![(0, 0), (10, 10)], &snowy);
    state.order = vec![1, 0];
    solver.round::<false>(&sps, &snowy, &p, &mut state).unwrap();
    // The second vehicle comes first and clears it all.
    assert_eq!(state.order, vec![1, 0]);
    assert_eq!(state.solution[0], Vec::<usize>::new());
    assert_eq!(state.solution[1].len(), 4);
    assert_eq!(state.alloc, vec![set(&[]), set(&[0, 1, 2, 3])]);
    assert_eq!(state.value_best, 80_000);
    assert_eq!(state.cost_max_best, 80_000);
    assert!(state.accepted);
    assert_sound(&solver, &state, &sps, &snowy);
    // A round that is no better changes nothing.
    let before = state.solution.clone();
    solver.round::<false>(&sps, &snowy, &p, &mut state).unwrap();
    assert_eq!(state.solution, before);
    assert_eq!(state.value_best, 80_000);
}

#[test]
fn recycling_hands_a_closed_part_to_the_cheaper_tour() {
    let solver = bow_tie();
    let sps = vec![1, 1];
    let snowy = set(&[0, 1, 2, 3, 4, 5]);
    let locs = vec![(0, 0), (0, 0)];
    let mut p = params(Recycle::No, Clearing::OnlyAllocated, Reorder::No);
    let mut plain = solver.start(&sps, &locs, &snowy);
    assert_eq!(plain.alloc, vec![set(&[0, 1, 2, 3, 4, 5]), set(&[])]);
    solver.step::<false>(&sps, &snowy, &p, &mut plain).unwrap();
    assert_eq!(plain.solution[0].len(), 6);
    assert_eq!(plain.solution[1], Vec::<usize>::new());
    assert_eq!(plain.value_best, 12_000);
    assert_eq!(plain.cost_max_best, 12_000);
    assert_sound(&solver, &plain, &sps, &snowy);

    p.recycle = Recycle::ExpensiveToCheap;
    let mut state = solver.start(&sps, &locs, &snowy);
    solver.step::<false>(&sps, &snowy, &p, &mut state).unwrap();
    assert_eq!(state.solution[0].len(), 3);
    assert_eq!(state.solution[1].len(), 3);
    assert_eq!(state.alloc[0].len(), 3);
    assert_eq!(state.alloc[1].len(), 3);
    for e in &state.solution[0] {
        assert!(state.alloc[0].contains(e));
    }
    for e in &state.solution[1] {
        assert!(state.alloc[1].contains(e));
    }
    // The mended plan counts for the value of the plan it was made from.
    assert_eq!(state.value_best, 12_000);
    assert_eq!(state.cost_max_best, 6_000);
    assert_sound(&solver, &state, &sps, &snowy);
}

#[test]
fn a_stranded_vehicle_ends_the_search() {
    // Two triangles apart, and both vehicles in the first.
    let solver = PlowSolver::new(graph_of(
        &[(1, (0, 0)), (2, (1, 0)), (3, (0, 1)), (4, (9, 9)), (5, (9, 8)), (6, (8, 9))],
        &[
            edge(1, 2, 1),
            edge(2, 3, 1),
            edge(3, 1, 1),
            edge(4, 5, 1),
            edge(5, 6, 1),
            edge(6, 4, 1),
        ],
    ));
    let sps = vec![1, 2];
    let snowy = set(&[0, 4]);
    let p = params(Recycle::No, Clearing::OnlyAllocated, Reorder::No);
    let stranded = solver.solve::<false>(&sps, &vec![(0, 0), (1, 0)], &snowy, &p).unwrap_err();
    assert_eq!(stranded.edges, vec![4]);
    assert!(stranded.vehicle < 2);
    let mut state = solver.start(&sps, &vec![(0, 0), (1, 0)], &snowy);
    let before = state.alloc.clone();
    assert!(solver.step::<false>(&sps, &snowy, &p, &mut state).is_err());
    assert_eq!(state.alloc, before);
    assert!(!state.accepted);
    assert_eq!(state.value_best, u128::MAX);
}

#[test]
fn better_is_lower_value_or_lower_greatest_cost() {
    assert!(is_better(5, 9, 6, 1));
    assert!(is_better(5, 2, 5, 3));
    assert!(!is_better(5, 3, 5, 3));
    assert!(!is_better(5, 4, 5, 3));
    assert!(!is_better(6, 0, 5, 3));
    assert!(is_better(0, 0, u128::MAX, u128::MAX));
    assert!(!is_better(u128::MAX, u128::MAX, u128::MAX, u128::MAX));
    assert!(is_better(u128::MAX, 7, u128::MAX, u128::MAX));
}

#[test]
fn a_plan_without_bound_is_kept_for_its_greatest_cost() {
    // With a weight that takes the value beyond every bound, the first
    // plan is still kept: its greatest cost is below the bound.
    let solver = square();
    let sps = vec![1, 3];
    let snowy = set(&[0, 1, 2, 3]);
    let mut p = params(Recycle::No, Clearing::OnlyAllocated, Reorder::No);
    p.weight_total = u64::MAX;
    p.weight_max = u64::MAX;
    p.slowdown = u64::MAX;
    let mut state = solver.start(&sps, &vec![(0, 0), (10, 10)], &snowy);
    solver.step::<false>(&sps, &snowy, &p, &mut state).unwrap();
    assert!(state.accepted);
    assert_eq!(state.value_best, u128::MAX);
    assert_eq!(state.cost_max_best, 20 * (u64::MAX as u128) + 20_000);
    assert_sound(&solver, &state, &sps, &snowy);
}

#[test]
fn exchange_places_swaps_two_places() {
    let mut order = vec![3, 0, 2, 1];
    exchange_places(&mut order, 0, 3);
    assert_eq!(order, vec![1, 0, 2, 3]);
    exchange_places(&mut order, 2, 2);
    assert_eq!(order, vec![1, 0, 2, 3]);
    exchange_places(&mut order, 2, 1);
    assert_eq!(order, vec![1, 2, 0, 3]);
}

#[test]
fn the_first_plan_is_kept_whatever_it_costs() {
    // Lengths and a slowdown that take the cost of each tour to the cap.
    let big = u64::MAX;
    let solver = PlowSolver::new(graph_of(
        &[(1, (0, 0)), (2, (10, 0)), (3, (10, 10)), (4, (0, 10))],
        &[edge(1, 2, big), edge(2, 3, big), edge(3, 4, big), edge(4, 1, big)],
    ));
    let sps = vec![1, 3];
    let snowy = set(&[0, 1, 2, 3]);
    let mut p = params(Recycle::No, Clearing::OnlyAllocated, Reorder::No);
    p.slowdown = u64::MAX;
    p.main_iterations = 1;
    let state = solver.solve::<false>(&sps, &vec![(0, 0), (10, 10)], &snowy, &p).unwrap();
    assert!(state.accepted);
    assert_eq!(state.value_best, u128::MAX);
    assert_eq!(state.cost_max_best, u128::MAX);
    assert_eq!(state.solution[0].len(), 4);
    assert_eq!(state.solution[1].len(), 4);
    assert_sound(&solver, &state, &sps, &snowy);
}
