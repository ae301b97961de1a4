use evedatacore_route_planner::data::{ConnType, Connection, Star};

fn edge(id: u32, conn_type: ConnType, distance: u16, target: u16) -> Connection {
    Connection { id, conn_type, distance, target }
}

#[test]
fn kinds_rank_gate_smart_gate_jump() {
    assert_eq!(ConnType::Gate.rank(), 0);
    assert_eq!(ConnType::SmartGate.rank(), 1);
    assert_eq!(ConnType::Jump.rank(), 2);
    assert!(ConnType::Gate < ConnType::SmartGate);
    assert!(ConnType::SmartGate < ConnType::Jump);
}

#[test]
fn edges_sort_by_kind_then_length() {
    let long_gate = edge(1, ConnType::Gate, 900, 1);
    let short_jump = edge(2, ConnType::Jump, 3, 1);
    let longer_jump = edge(3, ConnType::Jump, 4, 1);
    let smart = edge(4, ConnType::SmartGate, 500, 1);
    assert!(long_gate.sorts_before(&short_jump));
    assert!(!short_jump.sorts_before(&long_gate));
    assert!(long_gate.sorts_before(&smart));
    assert!(smart.sorts_before(&short_jump));
    assert!(short_jump.sorts_before(&longer_jump));
    assert!(!longer_jump.sorts_before(&short_jump));
    assert!(short_jump.sorts_before(&short_jump));
}

#[test]
fn edges_are_told_apart_by_identifier_alone() {
    let a = edge(9, ConnType::Gate, 1, 1);
    let b = edge(9, ConnType::Jump, 200, 7);
    let c = edge(10, ConnType::Gate, 1, 1);
    assert!(a.same_edge(&b));
    assert!(!a.same_edge(&c));
}

#[test]
fn the_external_form_carries_the_external_target() {
    let c = edge(77, ConnType::Jump, 12, 31_234);
    let out = c.to_external();
    assert_eq!(out.id, 77);
    assert_eq!(out.conn_type, ConnType::Jump);
    assert_eq!(out.distance, 12);
    assert_eq!(out.target, 32_001_234);
}

#[test]
fn the_default_system_has_key_zero_and_no_edges() {
    let star = Star::default();
    assert_eq!(star.id, 0);
    assert!(star.connections.is_empty());
}

#[test]
fn equality_of_edges_is_by_identifier() {
    let a = edge(9, ConnType::Gate, 1, 1);
    let b = edge(9, ConnType::Jump, 200, 7);
    let c = edge(10, ConnType::Gate, 1, 1);
    assert!(a == b);
    assert!(a != c);
    let mut seen = std::collections::HashSet::new();
    assert!(seen.insert(a));
    assert!(!seen.insert(b));
    assert!(seen.insert(c));
}

#[test]
fn ordering_of_edges_is_by_kind_then_length() {
    let long_gate = edge(1, ConnType::Gate, 900, 1);
    let short_jump = edge(2, ConnType::Jump, 3, 1);
    let longer_jump = edge(3, ConnType::Jump, 4, 1);
    let smart = edge(4, ConnType::SmartGate, 500, 1);
    assert!(long_gate < smart);
    assert!(smart < short_jump);
    assert!(short_jump < longer_jump);
    assert!(longer_jump > long_gate);
    assert_eq!(short_jump.partial_cmp(&edge(99, ConnType::Jump, 3, 5)), Some(std::cmp::Ordering::Equal));
}
