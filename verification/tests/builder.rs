use evedatacore_route_planner::api::RouteError;
use evedatacore_route_planner::builder::{sort_key, StarMapBuilder};
use evedatacore_route_planner::data::{ConnType, Connection};
use evedatacore_route_planner::raw::{RawJump, RawStar};

fn gate(from: u32, to: u32, jump_type: u8) -> RawJump {
    RawJump { from_system_id: from, jump_type, to_system_id: to }
}

fn three_systems() -> StarMapBuilder {
    let mut builder = StarMapBuilder::new();
    builder.add_system(1);
    builder.add_system(2);
    builder.add_system(30_000);
    builder
}

#[test]
fn a_gate_adds_an_edge_in_each_direction_with_equal_length() {
    let mut builder = three_systems();
    assert_eq!(builder.add_gate(&gate(30_000_001, 32_000_000, 0), 17), Ok(true));
    assert_eq!(builder.add_gate(&gate(30_000_002, 30_000_001, 1), 4), Ok(true));
    let map = builder.finish();
    let there = map[&1].connections.iter().find(|c| c.target == 30_000).unwrap();
    let back = map[&30_000].connections.iter().find(|c| c.target == 1).unwrap();
    assert_eq!(there.conn_type, ConnType::Gate);
    assert_eq!(back.conn_type, ConnType::Gate);
    assert_eq!(there.distance, 17);
    assert_eq!(back.distance, 17);
    assert_eq!(there.id, 0);
    assert_eq!(back.id, 1);
    let second = map[&2].connections.iter().find(|c| c.target == 1).unwrap();
    let second_back = map[&1].connections.iter().find(|c| c.target == 2).unwrap();
    assert_eq!((second.id, second_back.id), (2, 3));
    assert_eq!((second.distance, second_back.distance), (4, 4));
}

#[test]
fn a_gate_of_an_unknown_type_is_passed_over() {
    let mut builder = three_systems();
    assert_eq!(builder.add_gate(&gate(30_000_001, 30_000_002, 2), 17), Ok(false));
    assert_eq!(builder.add_gate(&gate(30_000_001, 30_000_002, 255), 17), Ok(false));
    assert_eq!(builder.add_jump(1, 2, 9), Ok(true));
    let map = builder.finish();
    assert_eq!(map[&1].connections.len(), 1);
    assert_eq!(map[&1].connections[0].id, 0);
    assert!(map[&2].connections.is_empty());
}

#[test]
fn gates_are_turned_down_for_bad_identifiers_and_unknown_systems() {
    let mut builder = three_systems();
    assert_eq!(builder.add_gate(&gate(1, 30_000_002, 0), 1), Err(RouteError::InvalidId));
    assert_eq!(builder.add_gate(&gate(30_000_001, 31_000_000, 0), 1), Err(RouteError::InvalidId));
    assert_eq!(builder.add_gate(&gate(30_000_001, 30_000_003, 0), 1), Err(RouteError::UnknownSystem));
    assert_eq!(builder.add_gate(&gate(30_000_003, 30_000_001, 9), 1), Err(RouteError::UnknownSystem));
    let map = builder.finish();
    assert!(map.values().all(|star| star.connections.is_empty()));
}

#[test]
fn jumps_are_added_one_way_and_not_from_a_system_to_itself() {
    let mut builder = three_systems();
    assert_eq!(builder.add_jump(1, 2, 40), Ok(true));
    assert_eq!(builder.add_jump(1, 1, 0), Ok(false));
    assert_eq!(builder.add_jump(1, 7, 40), Err(RouteError::UnknownSystem));
    assert_eq!(builder.add_jump(7, 1, 40), Err(RouteError::UnknownSystem));
    assert_eq!(builder.add_jump(2, 1, 41), Ok(true));
    let map = builder.finish();
    assert_eq!(map[&1].connections.len(), 1);
    assert_eq!(map[&1].connections[0].conn_type, ConnType::Jump);
    assert_eq!(map[&1].connections[0].target, 2);
    assert_eq!(map[&2].connections[0].id, 1);
    assert_eq!(map[&2].connections[0].distance, 41);
}

#[test]
fn every_adjacency_list_of_a_built_graph_is_in_order() {
    let mut builder = StarMapBuilder::new();
    for key in 0..40u16 {
        builder.add_system(key);
    }
    let mut state: u64 = 99;
    let mut added = 0u32;
    for _ in 0..600 {
        state = state.wrapping_mul(6364136223846793005).wrapping_add(1442695040888963407);
        let from = ((state >> 33) % 40) as u16;
        let to = ((state >> 41) % 40) as u16;
        let distance = ((state >> 17) % 300) as u16;
        if state % 5 == 0 {
            let jump = gate(30_000_000 + from as u32, 30_000_000 + to as u32, (state % 3) as u8);
            if builder.add_gate(&jump, distance) == Ok(true) {
                added += 2;
            }
        } else if builder.add_jump(from, to, distance) == Ok(true) {
            added += 1;
        }
    }
    let map = builder.finish();
    assert_eq!(map.len(), 40);
    let mut ids: Vec<u32> = Vec::new();
    for (key, star) in map.iter() {
        assert_eq!(star.id, *key);
        for pair in star.connections.windows(2) {
            assert!(pair[0].conn_type <= pair[1].conn_type);
            if pair[0].conn_type == pair[1].conn_type {
                assert!(pair[0].distance <= pair[1].distance);
            }
            assert!(pair[0].sorts_before(&pair[1]));
        }
        ids.extend(star.connections.iter().map(|c| c.id));
    }
    ids.sort();
    assert_eq!(ids, (0..added).collect::<Vec<u32>>());
}

#[test]
fn adding_a_system_again_clears_its_edges() {
    let mut builder = three_systems();
    assert_eq!(builder.add_jump(1, 2, 40), Ok(true));
    builder.add_system(1);
    assert_eq!(builder.add_jump(1, 2, 7), Ok(true));
    let map = builder.finish();
    assert_eq!(map.len(), 3);
    assert_eq!(map[&1].connections.len(), 1);
    assert_eq!(map[&1].connections[0].id, 1);
    assert_eq!(map[&1].connections[0].distance, 7);
}

#[test]
fn an_empty_builder_builds_an_empty_graph() {
    assert!(StarMapBuilder::new().finish().is_empty());
}

#[test]
fn the_sort_key_is_kind_then_length() {
    let c = Connection { id: 1, conn_type: ConnType::SmartGate, distance: 77, target: 3 };
    assert_eq!(sort_key(&c), (1, 77));
    let j = Connection { id: 1, conn_type: ConnType::Jump, distance: 0, target: 3 };
    assert!(sort_key(&c) < sort_key(&j));
}

#[test]
fn raw_records_hold_what_they_are_given() {
    let star = RawStar { solar_system_id: 30_001_573, solar_system_name: String::from("A 2560") };
    assert_eq!(star.solar_system_id, 30_001_573);
    assert_eq!(star.solar_system_name, "A 2560");
    let jump = gate(30_000_001, 30_000_002, 1);
    assert_eq!(jump.jump_type, 1);
}
