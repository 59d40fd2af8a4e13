//! Verified rules engines for the benchmark games: the Sokoban campaign,
//! the Stephen's Sausage Roll compatibility engine, and the small byte-level
//! helpers shared by their clients and observers.

pub mod observer;
pub mod swarm;
pub mod text;
pub mod server;
pub mod sokoban;
pub mod sausage;
