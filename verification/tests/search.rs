use evedatacore_route_planner::data::{ConnType, Connection, Star, StarMap};
use evedatacore_route_planner::search::near;
use std::collections::HashMap;

fn edge(id: u32, conn_type: ConnType, distance: u16, target: u16) -> Connection {
    Connection { id, conn_type, distance, target }
}

fn sample() -> Star {
    Star {
        id: 1573,
        connections: vec![
            edge(1, ConnType::Gate, 400, 10),
            edge(2, ConnType::Gate, 2, 11),
            edge(3, ConnType::SmartGate, 5, 12),
            edge(4, ConnType::Jump, 3, 13),
            edge(5, ConnType::Jump, 10, 14),
            edge(6, ConnType::Jump, 10, 15),
            edge(7, ConnType::Jump, 11, 16),
            edge(8, ConnType::Jump, 250, 17),
        ],
    }
}

#[test]
fn near_lists_the_jumps_within_the_radius_in_order() {
    let map: StarMap = HashMap::new();
    let result = near(&map, &sample(), 10);
    let ids: Vec<u32> = result.connections.iter().map(|c| c.id).collect();
    assert_eq!(ids, vec![4, 5, 6]);
    let targets: Vec<u32> = result.connections.iter().map(|c| c.target).collect();
    assert_eq!(targets, vec![30_000_013, 30_000_014, 30_000_015]);
}

#[test]
fn near_answers_only_jumps_in_non_decreasing_length() {
    let map: StarMap = HashMap::new();
    for radius in [0u16, 3, 9, 10, 11, 249, 250, u16::MAX] {
        let result = near(&map, &sample(), radius);
        let mut last = 0u16;
        for c in result.connections.iter() {
            assert_eq!(c.conn_type, ConnType::Jump);
            assert!(c.distance <= radius);
            assert!(c.distance >= last);
            last = c.distance;
        }
    }
}

#[test]
fn near_passes_over_long_gates_and_smart_gates() {
    let map: StarMap = HashMap::new();
    let result = near(&map, &sample(), 3);
    assert_eq!(result.connections.len(), 1);
    assert_eq!(result.connections[0].id, 4);
}

#[test]
fn near_with_radius_zero_is_empty_here() {
    let map: StarMap = HashMap::new();
    assert!(near(&map, &sample(), 0).connections.is_empty());
}

#[test]
fn near_with_the_largest_radius_lists_every_jump() {
    let map: StarMap = HashMap::new();
    assert_eq!(near(&map, &sample(), u16::MAX).connections.len(), 5);
}

#[test]
fn near_stops_at_the_first_jump_that_is_too_long() {
    let star = Star {
        id: 1,
        connections: vec![
            edge(1, ConnType::Jump, 5, 2),
            edge(2, ConnType::Jump, 50, 3),
            edge(3, ConnType::Jump, 6, 4),
        ],
    };
    let map: StarMap = HashMap::new();
    let result = near(&map, &star, 10);
    assert_eq!(result.connections.len(), 1);
    assert_eq!(result.connections[0].id, 1);
}

#[test]
fn near_of_a_system_without_edges_is_empty() {
    let map: StarMap = HashMap::new();
    let star = Star { id: 5, connections: vec![] };
    assert!(near(&map, &star, 100).connections.is_empty());
}
