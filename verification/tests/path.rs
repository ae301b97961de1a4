use evedatacore_route_planner::astar::{astar, timed_out, PathFindResult};
use evedatacore_route_planner::data::{
    ConnType, Connection, PathResult, PathResultStatus, SmartGatesMap, Star, StarMap,
};
use evedatacore_route_planner::path::{
    calc_path, heuristic, step_cost, successors, DistanceMap, PathOptimize,
};
use std::collections::HashMap;

const A: u16 = 1;
const B: u16 = 2;
const C: u16 = 3;
const D: u16 = 4;
const E: u16 = 5;

fn edge(id: u32, conn_type: ConnType, distance: u16, target: u16) -> Connection {
    Connection { id, conn_type, distance, target }
}

/// Four joined systems and one, `E`, that nothing leads to.
fn graph() -> StarMap {
    let mut map: StarMap = HashMap::new();
    map.insert(
        A,
        Star {
            id: A,
            connections: vec![
                edge(1, ConnType::Gate, 10, B),
                edge(2, ConnType::Jump, 30, C),
                edge(3, ConnType::Jump, 80, D),
            ],
        },
    );
    map.insert(
        B,
        Star { id: B, connections: vec![edge(4, ConnType::Gate, 10, A), edge(5, ConnType::Jump, 50, D)] },
    );
    map.insert(
        C,
        Star { id: C, connections: vec![edge(6, ConnType::Jump, 20, D), edge(7, ConnType::Jump, 30, A)] },
    );
    map.insert(D, Star { id: D, connections: vec![edge(8, ConnType::Jump, 20, C)] });
    map.insert(E, Star { id: E, connections: vec![edge(9, ConnType::Jump, 5, A)] });
    map
}

fn to_d() -> DistanceMap {
    let mut distances: DistanceMap = HashMap::new();
    distances.insert(A, 40);
    distances.insert(B, 45);
    distances.insert(C, 20);
    distances.insert(D, 0);
    distances.insert(E, 44);
    distances
}

fn no_gates() -> SmartGatesMap {
    HashMap::new()
}

fn run(from: u16, to: u16, jump_distance: u16, optimize: PathOptimize, timeout: Option<u64>) -> PathResult {
    let map = graph();
    let distances = if to == D { to_d() } else { HashMap::new() };
    calc_path(&map, &no_gates(), &distances, &map[&from], &map[&to], jump_distance, optimize, timeout)
}

fn ids(result: &PathResult) -> Vec<u32> {
    result.path.iter().map(|c| c.id).collect()
}

#[test]
fn step_cost_follows_the_table() {
    let gate = edge(1, ConnType::Gate, 17, 1);
    let smart = edge(2, ConnType::SmartGate, 23, 1);
    let jump = edge(3, ConnType::Jump, 41, 1);
    assert_eq!(step_cost(PathOptimize::Distance, &gate), 17);
    assert_eq!(step_cost(PathOptimize::Distance, &smart), 23);
    assert_eq!(step_cost(PathOptimize::Distance, &jump), 41);
    assert_eq!(step_cost(PathOptimize::Fuel, &gate), 1);
    assert_eq!(step_cost(PathOptimize::Fuel, &smart), 1);
    assert_eq!(step_cost(PathOptimize::Fuel, &jump), 41);
    assert_eq!(step_cost(PathOptimize::Hops, &gate), 100);
    assert_eq!(step_cost(PathOptimize::Hops, &smart), 100);
    assert_eq!(step_cost(PathOptimize::Hops, &jump), 100);
}

#[test]
fn step_cost_of_the_longest_edge() {
    let jump = edge(3, ConnType::Jump, u16::MAX, 1);
    assert_eq!(step_cost(PathOptimize::Distance, &jump), 65_535);
    assert_eq!(step_cost(PathOptimize::Fuel, &jump), 65_535);
}

#[test]
fn heuristic_follows_the_table() {
    let distances = to_d();
    let gate = edge(1, ConnType::Gate, 17, A);
    let smart = edge(2, ConnType::SmartGate, 23, A);
    let jump = edge(3, ConnType::Jump, 41, A);
    assert_eq!(heuristic(&distances, &gate, PathOptimize::Distance), 40);
    assert_eq!(heuristic(&distances, &smart, PathOptimize::Distance), 40);
    assert_eq!(heuristic(&distances, &jump, PathOptimize::Distance), 40);
    assert_eq!(heuristic(&distances, &gate, PathOptimize::Fuel), 0);
    assert_eq!(heuristic(&distances, &smart, PathOptimize::Fuel), 0);
    assert_eq!(heuristic(&distances, &jump, PathOptimize::Fuel), 40);
    assert_eq!(heuristic(&distances, &gate, PathOptimize::Hops), 0);
    assert_eq!(heuristic(&distances, &jump, PathOptimize::Hops), 0);
}

#[test]
fn heuristic_is_zero_for_a_system_without_a_distance() {
    let distances = to_d();
    let jump = edge(3, ConnType::Jump, 41, 999);
    assert_eq!(heuristic(&distances, &jump, PathOptimize::Distance), 0);
    let far: DistanceMap = [(7u16, u32::MAX)].into_iter().collect();
    assert_eq!(heuristic(&far, &edge(1, ConnType::Jump, 0, 7), PathOptimize::Fuel), 4_294_967_295);
}

#[test]
fn successors_list_extra_edges_first_and_stop_at_a_long_jump() {
    let map = graph();
    let mut gates: SmartGatesMap = HashMap::new();
    gates.insert(A, vec![edge(100, ConnType::SmartGate, 7, D), edge(101, ConnType::SmartGate, 9, C)]);
    let arrival = edge(0, ConnType::Jump, 0, A);
    let out = successors(&map, &gates, &arrival, 30, PathOptimize::Fuel);
    let seen: Vec<(u32, i64)> = out.iter().map(|(c, cost)| (c.id, *cost)).collect();
    assert_eq!(seen, vec![(100, 1), (101, 1), (1, 1), (2, 30)]);
    let all = successors(&map, &gates, &arrival, 80, PathOptimize::Distance);
    let seen: Vec<(u32, i64)> = all.iter().map(|(c, cost)| (c.id, *cost)).collect();
    assert_eq!(seen, vec![(100, 7), (101, 9), (1, 10), (2, 30), (3, 80)]);
}

#[test]
fn successors_of_an_unknown_system_are_its_extra_edges() {
    let map = graph();
    let mut gates: SmartGatesMap = HashMap::new();
    gates.insert(77, vec![edge(100, ConnType::SmartGate, 7, D)]);
    let out = successors(&map, &gates, &edge(0, ConnType::Jump, 0, 77), 30, PathOptimize::Hops);
    assert_eq!(out.len(), 1);
    assert_eq!(out[0].0.id, 100);
    assert_eq!(out[0].1, 100);
    assert!(successors(&map, &gates, &edge(0, ConnType::Jump, 0, 78), 30, PathOptimize::Hops).is_empty());
}

#[test]
fn successors_keep_gates_whatever_their_length() {
    let mut map: StarMap = HashMap::new();
    map.insert(
        A,
        Star {
            id: A,
            connections: vec![edge(1, ConnType::Gate, 5000, B), edge(2, ConnType::Jump, 10, C)],
        },
    );
    let out = successors(&map, &no_gates(), &edge(0, ConnType::Jump, 0, A), 10, PathOptimize::Distance);
    assert_eq!(out.len(), 2);
    assert_eq!(out[0].1, 5000);
}

#[test]
fn the_shortest_path_by_distance_goes_over_c() {
    let result = run(A, D, 100, PathOptimize::Distance, None);
    assert_eq!(result.status, PathResultStatus::Found);
    assert_eq!(ids(&result), vec![2, 6]);
    assert_eq!(result.stats.cost, 50);
    let sum: i64 = result.path.iter().map(|c| c.distance as i64).sum();
    assert_eq!(result.stats.cost, sum);
    assert_eq!(result.path[1].target, 30_000_004);
}

#[test]
fn the_cheapest_path_by_fuel_counts_gates_as_one() {
    let result = run(B, D, 40, PathOptimize::Fuel, None);
    assert_eq!(result.status, PathResultStatus::Found);
    assert_eq!(ids(&result), vec![4, 2, 6]);
    assert_eq!(result.stats.cost, 51);
}

#[test]
fn the_path_with_fewest_hops_is_the_direct_jump() {
    let result = run(A, D, 100, PathOptimize::Hops, None);
    assert_eq!(result.status, PathResultStatus::Found);
    assert_eq!(ids(&result), vec![3]);
    assert_eq!(result.stats.cost, 100);
}

#[test]
fn no_jump_of_a_path_exceeds_the_jump_distance() {
    for budget in [0u16, 19, 20, 29, 30, 49, 50, 79, 80, 200] {
        for mode in [PathOptimize::Fuel, PathOptimize::Distance, PathOptimize::Hops] {
            let result = run(A, D, budget, mode, None);
            for c in result.path.iter() {
                assert!(c.conn_type != ConnType::Jump || c.distance <= budget);
            }
            if budget >= 30 {
                assert_eq!(result.status, PathResultStatus::Found);
            } else {
                assert_eq!(result.status, PathResultStatus::NotFound);
            }
        }
    }
}

#[test]
fn a_short_jump_range_leaves_no_path() {
    let result = run(A, D, 25, PathOptimize::Distance, None);
    assert_eq!(result.status, PathResultStatus::NotFound);
    assert!(result.path.is_empty());
    assert_eq!(result.stats.cost, 0);
}

#[test]
fn a_system_that_nothing_leads_to_is_not_found() {
    let result = run(A, E, 500, PathOptimize::Hops, None);
    assert_eq!(result.status, PathResultStatus::NotFound);
    assert!(result.path.is_empty());
}

#[test]
fn a_path_from_a_system_to_itself_is_empty() {
    for mode in [PathOptimize::Fuel, PathOptimize::Distance, PathOptimize::Hops] {
        let result = run(C, C, 100, mode, None);
        assert_eq!(result.status, PathResultStatus::Found);
        assert!(result.path.is_empty());
        assert_eq!(result.stats.cost, 0);
        assert_eq!(result.stats.visited, 1);
    }
}

#[test]
fn a_timeout_of_zero_ends_the_search_at_once() {
    let result = run(A, D, 100, PathOptimize::Distance, Some(0));
    assert_eq!(result.status, PathResultStatus::Timeout);
    assert!(result.path.is_empty());
    assert_eq!(result.stats.cost, 0);
    assert_eq!(result.stats.visited, 0);
    let same = run(C, C, 100, PathOptimize::Distance, Some(0));
    assert_eq!(same.status, PathResultStatus::Timeout);
}

#[test]
fn a_generous_timeout_does_not_change_the_answer() {
    let result = run(A, D, 100, PathOptimize::Distance, Some(3600));
    assert_eq!(result.status, PathResultStatus::Found);
    assert_eq!(result.stats.cost, 50);
}

#[test]
fn extra_edges_are_taken_where_they_are_cheaper() {
    let map = graph();
    let mut gates: SmartGatesMap = HashMap::new();
    gates.insert(A, vec![edge(1000, ConnType::SmartGate, 40, D)]);
    let fuel = calc_path(&map, &gates, &to_d(), &map[&A], &map[&D], 100, PathOptimize::Fuel, None);
    assert_eq!(fuel.status, PathResultStatus::Found);
    assert_eq!(ids(&fuel), vec![1000]);
    assert_eq!(fuel.path[0].conn_type, ConnType::SmartGate);
    assert_eq!(fuel.stats.cost, 1);
    let distance = calc_path(&map, &gates, &to_d(), &map[&A], &map[&D], 100, PathOptimize::Distance, None);
    assert_eq!(distance.stats.cost, 40);
    assert_eq!(ids(&distance), vec![1000]);
    let untouched = graph();
    for key in [A, B, C, D, E] {
        let before: Vec<u32> = untouched[&key].connections.iter().map(|c| c.id).collect();
        let after: Vec<u32> = map[&key].connections.iter().map(|c| c.id).collect();
        assert_eq!(before, after);
    }
}

#[test]
fn a_cheaper_way_to_a_reached_edge_replaces_the_first() {
    // B is reached over the jump first, then more cheaply over X; the path must follow the latter.
    let mut map: StarMap = HashMap::new();
    map.insert(1, Star { id: 1, connections: vec![edge(1, ConnType::Jump, 1, 2), edge(2, ConnType::Jump, 9, 3)] });
    map.insert(2, Star { id: 2, connections: vec![edge(3, ConnType::Jump, 1, 3)] });
    map.insert(3, Star { id: 3, connections: vec![edge(4, ConnType::Jump, 10, 4)] });
    map.insert(4, Star { id: 4, connections: vec![] });
    let result = calc_path(&map, &no_gates(), &HashMap::new(), &map[&1], &map[&4], 50, PathOptimize::Distance, None);
    assert_eq!(result.status, PathResultStatus::Found);
    assert_eq!(result.stats.cost, 12);
    assert_eq!(ids(&result), vec![1, 3, 4]);
}

#[test]
fn the_cost_of_every_found_path_is_the_sum_of_its_steps_and_is_least() {
    let map = graph();
    let keys = [A, B, C, D, E];
    for budget in [20u16, 30, 50, 80] {
        for mode in [PathOptimize::Fuel, PathOptimize::Distance, PathOptimize::Hops] {
            // least costs by repeated relaxation over the edges in reach
            for from in keys {
                let mut best: HashMap<u16, i64> = HashMap::new();
                best.insert(from, 0);
                for _ in 0..keys.len() {
                    for key in keys {
                        if let Some(so_far) = best.get(&key).copied() {
                            for c in map[&key].connections.iter() {
                                if c.conn_type == ConnType::Jump && c.distance > budget {
                                    break;
                                }
                                let next = so_far + step_cost(mode, c);
                                if best.get(&c.target).map_or(true, |known| next < *known) {
                                    best.insert(c.target, next);
                                }
                            }
                        }
                    }
                }
                for to in keys {
                    let distances: DistanceMap = HashMap::new();
                    let result = calc_path(&map, &no_gates(), &distances, &map[&from], &map[&to], budget, mode, None);
                    match best.get(&to) {
                        Some(least) => {
                            assert_eq!(result.status, PathResultStatus::Found);
                            assert_eq!(result.stats.cost, *least);
                            let mut sum = 0i64;
                            let mut at = from;
                            for c in result.path.iter() {
                                let held = map[&at].connections.iter().find(|x| x.id == c.id).unwrap();
                                sum += step_cost(mode, held);
                                at = held.target;
                            }
                            assert_eq!(at, to);
                            assert_eq!(sum, result.stats.cost);
                        }
                        None => assert_eq!(result.status, PathResultStatus::NotFound),
                    }
                }
            }
        }
    }
}

#[test]
fn an_edge_with_the_identifier_of_the_start_edge_is_never_taken() {
    let mut map: StarMap = HashMap::new();
    map.insert(1, Star { id: 1, connections: vec![edge(0, ConnType::Gate, 1, 2)] });
    map.insert(2, Star { id: 2, connections: vec![] });
    let result = calc_path(&map, &no_gates(), &HashMap::new(), &map[&1], &map[&2], 50, PathOptimize::Hops, None);
    assert_eq!(result.status, PathResultStatus::NotFound);
}

#[test]
fn astar_returns_the_start_edge_first() {
    let map = graph();
    let start = edge(0, ConnType::Jump, 0, A);
    match astar(&start, &map, &no_gates(), &to_d(), D, 100, PathOptimize::Distance, None) {
        PathFindResult::Found((path, cost, stats)) => {
            assert_eq!(cost, 50);
            assert_eq!(path.len(), 3);
            assert_eq!(path[0].id, 0);
            assert_eq!(path[0].target, A);
            assert_eq!(path[1].id, 2);
            assert_eq!(path[2].id, 6);
            assert!(stats.visited >= 3);
        }
        _ => panic!("a path exists"),
    }
}

#[test]
fn astar_finds_nothing_and_times_out() {
    let map = graph();
    let start = edge(0, ConnType::Jump, 0, A);
    assert!(matches!(
        astar(&start, &map, &no_gates(), &to_d(), E, 100, PathOptimize::Distance, None),
        PathFindResult::NotFound(_)
    ));
    assert!(matches!(
        astar(&start, &map, &no_gates(), &to_d(), D, 100, PathOptimize::Distance, Some(0)),
        PathFindResult::Timeout(_)
    ));
}

#[test]
fn astar_on_a_start_that_arrives_at_the_end() {
    let map = graph();
    let start = edge(0, ConnType::Jump, 0, D);
    match astar(&start, &map, &no_gates(), &to_d(), D, 100, PathOptimize::Fuel, None) {
        PathFindResult::Found((path, cost, _)) => {
            assert_eq!(cost, 0);
            assert_eq!(path.len(), 1);
            assert_eq!(path[0].target, D);
        }
        _ => panic!("the start arrives at the end"),
    }
}

#[test]
fn timed_out_compares_whole_seconds_with_the_limit() {
    assert!(!timed_out(None, 0));
    assert!(!timed_out(None, u64::MAX));
    assert!(timed_out(Some(0), 0));
    assert!(timed_out(Some(25), 25));
    assert!(timed_out(Some(25), 26));
    assert!(!timed_out(Some(25), 24));
}

#[test]
fn a_search_over_a_long_chain_ends() {
    let mut map: StarMap = HashMap::new();
    let n: u16 = 3000;
    for i in 0..n {
        let mut connections = vec![];
        if i + 1 < n {
            connections.push(edge(2 * i as u32 + 1, ConnType::Gate, 1, i + 1));
        }
        if i > 0 {
            connections.push(edge(2 * i as u32 + 2, ConnType::Gate, 1, i - 1));
        }
        map.insert(i, Star { id: i, connections });
    }
    let result = calc_path(&map, &no_gates(), &HashMap::new(), &map[&0], &map[&(n - 1)], 0, PathOptimize::Hops, None);
    assert_eq!(result.status, PathResultStatus::Found);
    assert_eq!(result.path.len(), (n - 1) as usize);
    assert_eq!(result.stats.cost, 100 * (n as i64 - 1));
}

/// A small generator of numbers, for graphs that differ from run to run of the loop but not of the test.
fn next(state: &mut u64) -> u64 {
    *state = state.wrapping_mul(6364136223846793005).wrapping_add(1442695040888963407);
    *state >> 33
}

fn random_graph(state: &mut u64, systems: u16) -> StarMap {
    let mut map: StarMap = HashMap::new();
    let mut id = 1u32;
    for from in 0..systems {
        let mut gates = vec![];
        let mut jumps = vec![];
        for to in 0..systems {
            if to != from && next(state) % 3 == 0 {
                let distance = (next(state) % 7) as u16;
                match next(state) % 3 {
                    0 => gates.push(edge(id, ConnType::Gate, distance, to)),
                    _ => jumps.push(edge(id, ConnType::Jump, distance, to)),
                }
                id += 1;
            }
        }
        jumps.sort_by_key(|c| c.distance);
        gates.extend(jumps);
        map.insert(from, Star { id: from, connections: gates });
    }
    map
}

fn least_costs(map: &StarMap, from: u16, budget: u16, mode: PathOptimize) -> HashMap<u16, i64> {
    let mut best: HashMap<u16, i64> = HashMap::new();
    best.insert(from, 0);
    for _ in 0..map.len() {
        for (key, star) in map.iter() {
            if let Some(so_far) = best.get(key).copied() {
                for c in star.connections.iter() {
                    if c.conn_type == ConnType::Jump && c.distance > budget {
                        break;
                    }
                    let through = so_far + step_cost(mode, c);
                    if best.get(&c.target).map_or(true, |known| through < *known) {
                        best.insert(c.target, through);
                    }
                }
            }
        }
    }
    best
}

fn cost_along(map: &StarMap, from: u16, result: &PathResult, mode: PathOptimize) -> (u16, i64) {
    let mut at = from;
    let mut sum = 0i64;
    for c in result.path.iter() {
        let held = map[&at].connections.iter().find(|x| x.id == c.id).expect("an edge of the system");
        assert_eq!(held.distance, c.distance);
        assert_eq!(held.conn_type, c.conn_type);
        sum += step_cost(mode, held);
        at = held.target;
    }
    (at, sum)
}

#[test]
fn with_any_estimate_the_cost_is_that_of_the_path() {
    let mut state = 2024u64;
    for round in 0..300 {
        let systems = 3 + (next(&mut state) % 6) as u16;
        let map = random_graph(&mut state, systems);
        let budget = (next(&mut state) % 8) as u16;
        let mode = [PathOptimize::Fuel, PathOptimize::Distance, PathOptimize::Hops][round % 3];
        let mut distances: DistanceMap = HashMap::new();
        for key in 0..systems {
            distances.insert(key, (next(&mut state) % 40) as u32);
        }
        let to = systems - 1;
        let result = calc_path(&map, &no_gates(), &distances, &map[&0], &map[&to], budget, mode, None);
        let best = least_costs(&map, 0, budget, mode);
        match best.get(&to) {
            Some(least) => {
                assert_eq!(result.status, PathResultStatus::Found);
                let (at, sum) = cost_along(&map, 0, &result, mode);
                assert_eq!(at, to);
                assert_eq!(sum, result.stats.cost);
                assert!(result.stats.cost >= *least);
                if mode == PathOptimize::Hops {
                    assert_eq!(result.stats.cost, *least);
                }
            }
            None => assert_eq!(result.status, PathResultStatus::NotFound),
        }
    }
}

#[test]
fn with_no_estimate_the_cost_is_least() {
    let mut state = 7u64;
    for round in 0..300 {
        let systems = 3 + (next(&mut state) % 6) as u16;
        let map = random_graph(&mut state, systems);
        let budget = (next(&mut state) % 8) as u16;
        let mode = [PathOptimize::Fuel, PathOptimize::Distance, PathOptimize::Hops][round % 3];
        let to = systems - 1;
        let result = calc_path(&map, &no_gates(), &HashMap::new(), &map[&0], &map[&to], budget, mode, None);
        let best = least_costs(&map, 0, budget, mode);
        match best.get(&to) {
            Some(least) => {
                assert_eq!(result.status, PathResultStatus::Found);
                assert_eq!(result.stats.cost, *least);
                let (at, sum) = cost_along(&map, 0, &result, mode);
                assert_eq!((at, sum), (to, *least));
            }
            None => assert_eq!(result.status, PathResultStatus::NotFound),
        }
    }
}
