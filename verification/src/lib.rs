//! A verified differential-growth simulation: an ordered curve of nodes
//! reshapes itself under local repulsion (separation) and cohesion forces,
//! and grows by inserting midpoint nodes on overstretched edges.
//!
//! All geometry is fixed-point: a coordinate, speed or radius is a real
//! quantity times [`config::SCALE`], stored in an `i64`. Every operation is
//! specified exactly over mathematical integers, so a simulation is
//! deterministic by construction and no coordinate can ever become undefined.

pub mod config;
pub mod engine;
pub mod forces;
pub mod growth;
pub mod laws;
pub mod math;
pub mod neighbor;
pub mod node;
pub mod vec2;
