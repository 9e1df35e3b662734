//! Core of a grid-bound agent simulation: a genome codec that packs neural
//! connections into fixed-width genes, a layered feed-forward brain
//! representation, and a tick-conflict resolver that turns per-agent movement
//! intents into a collision-free next occupancy of a shared grid.

pub mod codec;
pub mod gene;
pub mod neural;
pub mod organism;
pub mod systems;
pub mod utils;
