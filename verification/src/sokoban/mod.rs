//! Sokoban: board rules, campaign validation and tiered progression.

pub mod campaign;
pub mod engine;
pub mod session;
pub mod api;
