use evedatacore_route_planner::api::{
    build_smart_gates, calc_near, calc_path, inject_smart_gate, NearPayload, PathPayload, RouteError,
    SmartGateLink,
};
use evedatacore_route_planner::data::{ConnType, Connection, PathResultStatus, SmartGatesMap, Star, StarMap};
use evedatacore_route_planner::path::{DistanceMap, PathOptimize};
use std::collections::HashMap;

const X: u32 = 30_001_573;
const Y: u32 = 30_013_956;
const Z: u32 = 32_000_007;

fn edge(id: u32, conn_type: ConnType, distance: u16, target: u16) -> Connection {
    Connection { id, conn_type, distance, target }
}

fn graph() -> StarMap {
    let mut map: StarMap = HashMap::new();
    map.insert(
        1573,
        Star {
            id: 1573,
            connections: vec![
                edge(5, ConnType::Gate, 60, 30_007),
                edge(6, ConnType::Jump, 8, 30_007),
                edge(7, ConnType::Jump, 120, 13_956),
                edge(8, ConnType::Jump, 300, 13_956),
            ],
        },
    );
    map.insert(30_007, Star { id: 30_007, connections: vec![edge(9, ConnType::Jump, 100, 13_956)] });
    map.insert(13_956, Star { id: 13_956, connections: vec![] });
    map
}

fn payload(from: u32, to: u32, jump_distance: u16, optimize: Option<PathOptimize>) -> PathPayload {
    PathPayload { from, to, jump_distance, optimize, smart_gates: vec![] }
}

fn none() -> DistanceMap {
    HashMap::new()
}

#[test]
fn a_path_query_by_external_identifiers() {
    let result = calc_path(&graph(), &none(), &payload(X, Y, 150, Some(PathOptimize::Fuel)), Some(25)).unwrap();
    assert_eq!(result.status, PathResultStatus::Found);
    assert!(!result.path.is_empty());
    for c in result.path.iter() {
        assert!(c.conn_type != ConnType::Jump || c.distance <= 150);
    }
    assert_eq!(result.stats.cost, 101);
    assert_eq!(result.path.last().unwrap().target, Y);
    assert_eq!(result.path[0].target, Z);
}

#[test]
fn a_path_query_by_distance_costs_the_sum_of_its_edges() {
    let result = calc_path(&graph(), &none(), &payload(X, Y, 50, Some(PathOptimize::Distance)), None).unwrap();
    assert_eq!(result.status, PathResultStatus::NotFound);
    let result = calc_path(&graph(), &none(), &payload(X, Y, 100, Some(PathOptimize::Distance)), None).unwrap();
    assert_eq!(result.status, PathResultStatus::Found);
    let sum: i64 = result.path.iter().map(|c| c.distance as i64).sum();
    assert_eq!(result.stats.cost, sum);
    assert_eq!(sum, 108);
}

#[test]
fn a_smart_gate_of_the_query_comes_first() {
    let mut query = payload(X, Y, 100, Some(PathOptimize::Fuel));
    query.smart_gates.push(SmartGateLink { from: X, to: Y, distance: 40, id: 7 });
    let map = graph();
    let result = calc_path(&map, &none(), &query, None).unwrap();
    assert_eq!(result.status, PathResultStatus::Found);
    assert_eq!(result.path.len(), 1);
    assert_eq!(result.path[0].conn_type, ConnType::SmartGate);
    assert_eq!(result.path[0].id, 7);
    assert_eq!(result.path[0].distance, 40);
    assert_eq!(result.path[0].target, Y);
    assert_eq!(result.stats.cost, 1);
    assert_eq!(map[&1573].connections.len(), 4);
    assert!(map[&1573].connections.iter().all(|c| c.conn_type != ConnType::SmartGate));
}

#[test]
fn a_path_query_from_a_system_to_itself() {
    let result = calc_path(&graph(), &none(), &payload(X, X, 100, Some(PathOptimize::Distance)), None).unwrap();
    assert_eq!(result.status, PathResultStatus::Found);
    assert!(result.path.is_empty());
    assert_eq!(result.stats.cost, 0);
}

#[test]
fn a_path_query_with_no_time() {
    let result = calc_path(&graph(), &none(), &payload(X, Y, 150, Some(PathOptimize::Fuel)), Some(0)).unwrap();
    assert_eq!(result.status, PathResultStatus::Timeout);
    assert!(result.path.is_empty());
}

#[test]
fn a_path_query_without_a_mode_is_malformed() {
    let result = calc_path(&graph(), &none(), &payload(X, Y, 150, None), None);
    assert_eq!(result.err(), Some(RouteError::MalformedInput));
    let result = calc_path(&graph(), &none(), &payload(1, 2, 150, None), None);
    assert_eq!(result.err(), Some(RouteError::MalformedInput));
}

#[test]
fn a_path_query_with_an_identifier_outside_the_blocks_is_invalid() {
    let mode = Some(PathOptimize::Hops);
    assert_eq!(calc_path(&graph(), &none(), &payload(1573, Y, 150, mode), None).err(), Some(RouteError::InvalidId));
    assert_eq!(
        calc_path(&graph(), &none(), &payload(X, 30_100_000, 150, mode), None).err(),
        Some(RouteError::InvalidId)
    );
    let mut query = payload(X, Y, 150, mode);
    query.smart_gates.push(SmartGateLink { from: X, to: Y, distance: 1, id: 1 });
    query.smart_gates.push(SmartGateLink { from: X, to: 31_000_000, distance: 1, id: 2 });
    assert_eq!(calc_path(&graph(), &none(), &query, None).err(), Some(RouteError::InvalidId));
    let mut query = payload(30_999_999, Y, 150, mode);
    query.from = 30_099_999;
    assert_eq!(calc_path(&graph(), &none(), &query, None).err(), Some(RouteError::UnknownSystem));
}

#[test]
fn a_path_query_for_a_system_that_the_graph_lacks_is_unknown() {
    let mode = Some(PathOptimize::Hops);
    assert_eq!(
        calc_path(&graph(), &none(), &payload(30_000_001, Y, 150, mode), None).err(),
        Some(RouteError::UnknownSystem)
    );
    assert_eq!(
        calc_path(&graph(), &none(), &payload(X, 34_000_001, 150, mode), None).err(),
        Some(RouteError::UnknownSystem)
    );
}

#[test]
fn smart_gates_between_unknown_systems_are_dead_ends() {
    let mut query = payload(X, Y, 10, Some(PathOptimize::Hops));
    query.smart_gates.push(SmartGateLink { from: X, to: 34_000_001, distance: 1, id: 900 });
    query.smart_gates.push(SmartGateLink { from: 34_000_002, to: Y, distance: 1, id: 901 });
    let result = calc_path(&graph(), &none(), &query, None).unwrap();
    assert_eq!(result.status, PathResultStatus::NotFound);
}

#[test]
fn smart_gates_are_collected_under_the_system_they_leave() {
    let links = vec![
        SmartGateLink { from: X, to: Y, distance: 319, id: u32::MAX },
        SmartGateLink { from: Z, to: X, distance: 440, id: u32::MAX - 1 },
        SmartGateLink { from: X, to: Z, distance: 229, id: u32::MAX - 2 },
    ];
    let gates = build_smart_gates(&links);
    assert_eq!(gates.len(), 2);
    let at_x: Vec<(u32, u16, u16)> = gates[&1573].iter().map(|c| (c.id, c.distance, c.target)).collect();
    assert_eq!(at_x, vec![(u32::MAX, 319, 13_956), (u32::MAX - 2, 229, 30_007)]);
    assert_eq!(gates[&30_007].len(), 1);
    assert_eq!(gates[&30_007][0].target, 1573);
    assert!(gates.values().flatten().all(|c| c.conn_type == ConnType::SmartGate));
    assert!(build_smart_gates(&vec![]).is_empty());
}

#[test]
fn injecting_a_smart_gate_appends_to_the_extra_edges() {
    let mut gates: SmartGatesMap = HashMap::new();
    inject_smart_gate(&mut gates, 30_013_484, 30_013_460, 319, 11);
    inject_smart_gate(&mut gates, 30_013_484, 30_013_933, 440, 12);
    inject_smart_gate(&mut gates, 30_013_460, 30_013_484, 319, 13);
    assert_eq!(gates[&13_484].len(), 2);
    assert_eq!(gates[&13_484][0].id, 11);
    assert_eq!(gates[&13_484][1].id, 12);
    assert_eq!(gates[&13_484][1].target, 13_933);
    assert_eq!(gates[&13_460][0].distance, 319);
}

#[test]
fn a_near_query_by_external_identifier() {
    let result = calc_near(&graph(), &NearPayload { from: X, distance: 10 }).unwrap();
    assert_eq!(result.connections.len(), 1);
    assert_eq!(result.connections[0].id, 6);
    assert_eq!(result.connections[0].target, Z);
    let wide = calc_near(&graph(), &NearPayload { from: X, distance: 120 }).unwrap();
    let lengths: Vec<u16> = wide.connections.iter().map(|c| c.distance).collect();
    assert_eq!(lengths, vec![8, 120]);
}

#[test]
fn a_near_query_is_turned_down_for_bad_identifiers() {
    assert_eq!(calc_near(&graph(), &NearPayload { from: 5, distance: 10 }).err(), Some(RouteError::InvalidId));
    assert_eq!(
        calc_near(&graph(), &NearPayload { from: 30_000_002, distance: 10 }).err(),
        Some(RouteError::UnknownSystem)
    );
}
