//! The engine's global guarantees, stated and proved once over the model.
//! `tick` pins the executable state to `spec_tick` of the previous state, so
//! each law here holds of every running simulation.

use vstd::prelude::*;
use crate::config::{COORD_LIMIT, MAX_NODES};
use crate::engine::{sim_wf, spec_run, spec_tick, lemma_spec_tick_wf, SimModel};
use crate::forces::{integrate_all, sep_contribution, sep_force, sep_raw_upto};
use crate::growth::{count_long, lemma_count_long_upto_bounds, lemma_grow_spec_len};
use crate::neighbor::{lemma_ascending_unique, strictly_ascending, within_radius};
use crate::node::{node_wf, NodeV};
use crate::vec2::V2;

verus! {

/// After any tick, every node's speed is within its cap: the integrator
/// clamps each velocity to `max_speed`, and a node born from growth is at
/// rest.
pub proof fn lemma_velocity_capped(m: SimModel)
    requires
        sim_wf(m),
    ensures
        forall|i: int|
            0 <= i < spec_tick(m).nodes.len() ==> (#[trigger] spec_tick(m).nodes[i]).velocity.mag_sq()
                <= spec_tick(m).nodes[i].max_speed * spec_tick(m).nodes[i].max_speed,
{
    lemma_spec_tick_wf(m);
    assert forall|i: int| 0 <= i < spec_tick(m).nodes.len() implies (#[trigger] spec_tick(
        m,
    ).nodes[i]).velocity.mag_sq() <= spec_tick(m).nodes[i].max_speed * spec_tick(
        m,
    ).nodes[i].max_speed by {
        assert(node_wf(spec_tick(m).nodes[i]));
    }
}

/// A tick never removes a node, and — while the node-count budget lasts —
/// adds exactly one node per edge of the tick's pre-growth snapshot (the
/// curve as moved by the force pass) that is longer than `max_edge_length`.
pub proof fn lemma_growth_count(m: SimModel)
    requires
        sim_wf(m),
    ensures
        spec_tick(m).nodes.len() >= m.nodes.len(),
        m.nodes.len() + count_long(
            integrate_all(m.nodes, m.desired_separation, m.separation_cohesion_ratio),
            m.max_edge_length,
            m.topology,
        ) <= MAX_NODES ==> spec_tick(m).nodes.len() == m.nodes.len() + count_long(
            integrate_all(m.nodes, m.desired_separation, m.separation_cohesion_ratio),
            m.max_edge_length,
            m.topology,
        ),
{
    let moved = integrate_all(m.nodes, m.desired_separation, m.separation_cohesion_ratio);
    let budget = MAX_NODES - m.nodes.len();
    lemma_grow_spec_len(moved, m.max_edge_length, m.topology, budget);
    lemma_count_long_upto_bounds(moved, m.max_edge_length, moved.len() - 1);
}

/// The invariant survives any number of ticks: a simulation never reaches a
/// state from which a tick is undefined.
pub proof fn lemma_run_wf(m: SimModel, n: nat)
    requires
        sim_wf(m),
    ensures
        sim_wf(spec_run(m, n)),
    decreases n,
{
    if n > 0 {
        lemma_run_wf(m, (n - 1) as nat);
        lemma_spec_tick_wf(spec_run(m, (n - 1) as nat));
    }
}

/// Determinism: a tick is a mathematical function of the state, and the
/// state excludes the search strategy, so two simulations built from
/// identical parameters and identical starting points hold identical
/// positions after the same number of ticks — exactly, whichever strategy
/// either one uses. `tick`'s contract pins the executable state to
/// `spec_run` of the initial state.
pub proof fn lemma_run_deterministic(a: SimModel, b: SimModel, n: nat)
    requires
        a == b,
    ensures
        spec_run(a, n) == spec_run(b, n),
{
}

/// No undefined or out-of-range coordinate, ever: after any number of ticks
/// from a well-formed start, every position lies inside the world box.
pub proof fn lemma_coordinates_bounded(m: SimModel, n: nat)
    requires
        sim_wf(m),
    ensures
        forall|i: int|
            0 <= i < spec_run(m, n).nodes.len() ==> (#[trigger] spec_run(
                m,
                n,
            ).nodes[i]).position.in_box(COORD_LIMIT as int),
{
    lemma_run_wf(m, n);
    assert forall|i: int| 0 <= i < spec_run(m, n).nodes.len() implies (#[trigger] spec_run(
        m,
        n,
    ).nodes[i]).position.in_box(COORD_LIMIT as int) by {
        assert(node_wf(spec_run(m, n).nodes[i]));
    }
}

/// Both neighbor-search strategies agree: a strictly ascending list of
/// exactly the nodes within the radius is unique, and both `query` and
/// `brute_force_neighbors` promise one, so on one snapshot and one radius
/// they return the same list.
pub proof fn lemma_search_strategies_agree(
    m: Seq<NodeV>,
    i: int,
    radius: int,
    a: Seq<usize>,
    b: Seq<usize>,
)
    requires
        strictly_ascending(a),
        strictly_ascending(b),
        forall|j: usize| #[trigger] a.contains(j) <==> within_radius(m, i, radius, j as int),
        forall|j: usize| #[trigger] b.contains(j) <==> within_radius(m, i, radius, j as int),
    ensures
        a == b,
{
    assert forall|j: usize| a.contains(j) <==> #[trigger] b.contains(j) by {
        assert(a.contains(j) <==> within_radius(m, i, radius, j as int));
        assert(b.contains(j) <==> within_radius(m, i, radius, j as int));
    }
    lemma_ascending_unique(a, b);
}

/// With `desired_separation` zero no neighbor ever qualifies, so the raw
/// separation sum of every node is empty.
pub proof fn lemma_zero_separation_raw(nodes: Seq<NodeV>, i: int, k: int)
    ensures
        sep_raw_upto(nodes, i, 0, k) == V2::zero(),
    decreases k,
{
    if k > 0 {
        lemma_zero_separation_raw(nodes, i, k - 1);
        assert(sep_contribution(nodes[i].position, nodes[k - 1].position, 0).is_zero());
    }
}

/// With `desired_separation` zero the separation force of every node is
/// exactly the zero vector.
pub proof fn lemma_zero_separation(nodes: Seq<NodeV>, i: int)
    ensures
        sep_force(nodes, i, 0) == V2::zero(),
{
    lemma_zero_separation_raw(nodes, i, nodes.len() as int);
}

} // verus!
