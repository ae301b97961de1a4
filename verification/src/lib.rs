//! Route planning over a static graph of solar systems: identifier codec,
//! graph model, cost model, best-first search and the query services built
//! on top of them.

pub mod api;
pub mod astar;
pub mod builder;
mod clock;
pub mod data;
mod exact;
mod frontier;
pub mod open;
pub mod parents;
pub mod path;
pub mod raw;
pub mod search;
pub mod tools;
