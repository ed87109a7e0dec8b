//! Tile-grid pathfinding and cooperative movement for a colony simulation.
//!
//! Agents plan cheapest, reproducible paths over a flat or layered grid of
//! cells ([`pathfind`]), then walk them a bounded distance per tick
//! ([`movement`]) while keeping a shared set of held cells ([`obstacles`]) in
//! step with where everyone stands. The remaining modules hold the small
//! per-tick rules of the simulation around them.

pub mod components;
pub mod obstacles;
pub mod grid;
pub mod walk;
pub mod pathfind;
pub mod movement;
pub mod timer;
pub mod growth;
pub mod dispatch;
pub mod storage;
pub mod combat;
