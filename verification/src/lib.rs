//! A verified core for a grid-world colony simulation: a base coordinator
//! that owns the fog-of-war world model, a resource ledger with a reservation
//! set, arbitration and spawn-control policies, and the agent control loops
//! (explorers that reveal terrain, collectors that fetch resources), together
//! with a pathfinding interface backed by an external A* engine.

pub mod base;
pub mod cell;
pub mod config;
pub mod grid;
pub mod pathfinding;
pub mod robot;
