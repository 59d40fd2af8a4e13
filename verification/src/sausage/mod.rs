//! Stephen's Sausage Roll: the three-dimensional compatibility engine's
//! state model, its discrete-time physics primitives, and the campaign and
//! replay formats.

pub mod model;
pub mod physics;
pub mod replay;
pub mod campaign;
pub mod world;
pub mod game3d;
pub mod entries;
pub mod oracle;
pub mod api;
pub mod session;
pub mod archive;
