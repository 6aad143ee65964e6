//! Fixed-point scale and the machine limits the engine works under.

use vstd::prelude::*;

verus! {

/// Fixed-point scale: a stored `i64` equal to `SCALE` stands for the real
/// quantity `1.0`. All positions, speeds, forces, radii and lengths handed
/// to the engine are real values times `SCALE`.
pub const SCALE: i64 = 1000;

/// `SCALE * SCALE`, the weight of a separation contribution at distance 1.
pub const SCALE_SQ: i64 = 1_000_000;

/// Largest coordinate magnitude the engine stores. Integration clamps each
/// coordinate into `[-COORD_LIMIT, COORD_LIMIT]`, so positions stay
/// representable however long a simulation runs.
pub const COORD_LIMIT: i64 = 1_000_000_000_000;

/// Largest value accepted for any scalar parameter (`max_force`, `max_speed`,
/// `desired_separation`, `separation_cohesion_ratio`, `max_edge_length`).
/// Keeps every intermediate product inside `i128`.
pub const PARAM_LIMIT: i64 = 1_000_000_000;

/// Largest node count the engine holds; growth stops inserting at this size.
/// Keeps the separation sum over all neighbors inside `i64`.
pub const MAX_NODES: usize = 0x8000_0000;

/// Whether the curve is a loop (its last and first nodes are topological
/// neighbors) or an open chain. Fixed for the lifetime of a simulation.
#[derive(Clone, Copy, PartialEq, Eq, Structural, Debug)]
pub enum Topology {
    Open,
    Closed,
}

/// How radius queries are answered during the force pass. Both strategies
/// return the same neighbor sets, so they produce identical simulations;
/// the index exists purely as a performance choice.
#[derive(Clone, Copy, PartialEq, Eq, Structural, Debug)]
pub enum SearchStrategy {
    BruteForce,
    SpatialIndex,
}

/// Why a construction request was rejected.
#[derive(Clone, Copy, PartialEq, Eq, Structural, Debug)]
pub enum CurveError {
    /// Fewer than 2 starting nodes: topological neighbors would be undefined.
    TooFewNodes,
    /// More starting nodes than `MAX_NODES`.
    TooManyNodes,
    /// A scalar parameter is negative or exceeds `PARAM_LIMIT`.
    ParameterOutOfRange,
    /// A starting coordinate lies outside `[-COORD_LIMIT, COORD_LIMIT]`.
    CoordinateOutOfRange,
}

} // verus!
