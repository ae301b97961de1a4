//! Records of the raw topology that the graph is built from.

use vstd::prelude::*;

verus! {

/// A gate of the raw topology, between two systems named by their external
/// identifiers.
#[derive(Debug, Clone, Copy)]
pub struct RawJump {
    pub from_system_id: u32,
    pub jump_type: u8,
    pub to_system_id: u32,
}

/// A system of the raw topology, by external identifier and name.
#[derive(Debug, Clone)]
pub struct RawStar {
    pub solar_system_id: u64,
    pub solar_system_name: String,
}

} // verus!
