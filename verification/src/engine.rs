//! The simulation itself: construction, one `tick` (force pass, then growth
//! pass), and the exports a renderer consumes.
//!
//! `tick`'s contract pins the whole post-state as a mathematical function of
//! the pre-state (`spec_tick`), so two simulations built from the same
//! parameters and points stay equal forever, whatever search strategy either
//! uses.

use vstd::prelude::*;
use crate::config::{
    CurveError, SearchStrategy, Topology, COORD_LIMIT, MAX_NODES, PARAM_LIMIT,
};
use crate::forces::{
    integrate_all, integrated_node, lemma_integrated_node_wf, integrate_node, separation_raw,
    separation_raw_from_list, separation_steer,
};
use crate::neighbor::NeighborIndex;
use crate::growth::{
    grow_pass, grow_spec, lemma_count_long_upto_bounds, lemma_grow_spec_len, lemma_grow_spec_wf,
};
use crate::node::{model_of, node_wf, nodes_wf, Node, NodeV};
use crate::vec2::{Vec2, V2};

verus! {

/// Mathematical model of a simulation: the node sequence and the parameters
/// that shape each tick. The search strategy is deliberately absent — it
/// cannot affect a tick's outcome.
pub struct SimModel {
    pub nodes: Seq<NodeV>,
    pub desired_separation: int,
    pub separation_cohesion_ratio: int,
    pub max_edge_length: int,
    pub topology: Topology,
}

/// Every scalar parameter lies in `[0, PARAM_LIMIT]`.
pub open spec fn params_ok(
    max_force: int,
    max_speed: int,
    desired_separation: int,
    separation_cohesion_ratio: int,
    max_edge_length: int,
) -> bool {
    &&& 0 <= max_force <= PARAM_LIMIT as int
    &&& 0 <= max_speed <= PARAM_LIMIT as int
    &&& 0 <= desired_separation <= PARAM_LIMIT as int
    &&& 0 <= separation_cohesion_ratio <= PARAM_LIMIT as int
    &&& 0 <= max_edge_length <= PARAM_LIMIT as int
}

/// Every starting coordinate lies in the world box.
pub open spec fn points_ok(points: Seq<V2>) -> bool {
    forall|i: int| 0 <= i < points.len() ==> (#[trigger] points[i]).in_box(COORD_LIMIT as int)
}

/// The models of a vector of executable points.
pub open spec fn points_model(points: Seq<Vec2>) -> Seq<V2> {
    points.map_values(|p: Vec2| p@)
}

/// Why construction fails, or `None` when it succeeds: fewer than 2 nodes
/// would leave topological neighbors undefined, and the machine limits on
/// node count, parameters and coordinates guard every later tick's
/// arithmetic. Checks are made in this order.
pub open spec fn construction_error(
    points: Seq<V2>,
    max_force: int,
    max_speed: int,
    desired_separation: int,
    separation_cohesion_ratio: int,
    max_edge_length: int,
) -> Option<CurveError> {
    if points.len() < 2 {
        Some(CurveError::TooFewNodes)
    } else if points.len() > MAX_NODES {
        Some(CurveError::TooManyNodes)
    } else if !params_ok(
        max_force,
        max_speed,
        desired_separation,
        separation_cohesion_ratio,
        max_edge_length,
    ) {
        Some(CurveError::ParameterOutOfRange)
    } else if !points_ok(points) {
        Some(CurveError::CoordinateOutOfRange)
    } else {
        None
    }
}

/// The state a fresh simulation starts in: one node per point, at rest.
pub open spec fn initial_model(
    points: Seq<V2>,
    max_force: int,
    max_speed: int,
    desired_separation: int,
    separation_cohesion_ratio: int,
    max_edge_length: int,
    topology: Topology,
) -> SimModel {
    SimModel {
        nodes: points.map_values(
            |p: V2|
                NodeV {
                    position: p,
                    velocity: V2::zero(),
                    acceleration: V2::zero(),
                    max_force: max_force,
                    max_speed: max_speed,
                },
        ),
        desired_separation: desired_separation,
        separation_cohesion_ratio: separation_cohesion_ratio,
        max_edge_length: max_edge_length,
        topology: topology,
    }
}

/// The invariant every simulation satisfies between ticks.
pub open spec fn sim_wf(m: SimModel) -> bool {
    &&& 2 <= m.nodes.len() <= MAX_NODES
    &&& nodes_wf(m.nodes)
    &&& 0 <= m.desired_separation <= PARAM_LIMIT as int
    &&& 0 <= m.separation_cohesion_ratio <= PARAM_LIMIT as int
    &&& 0 <= m.max_edge_length <= PARAM_LIMIT as int
}

/// One tick of the model: every node is integrated against the frozen
/// pre-tick snapshot, then each overstretched edge of the moved curve gains
/// its midpoint, up to the node-count budget.
pub open spec fn spec_tick(m: SimModel) -> SimModel {
    let moved = integrate_all(m.nodes, m.desired_separation, m.separation_cohesion_ratio);
    SimModel {
        nodes: grow_spec(moved, m.max_edge_length, m.topology, MAX_NODES - m.nodes.len()),
        desired_separation: m.desired_separation,
        separation_cohesion_ratio: m.separation_cohesion_ratio,
        max_edge_length: m.max_edge_length,
        topology: m.topology,
    }
}

/// The model after `n` ticks.
pub open spec fn spec_run(m: SimModel, n: nat) -> SimModel
    decreases n,
{
    if n == 0 {
        m
    } else {
        spec_tick(spec_run(m, (n - 1) as nat))
    }
}

/// A tick preserves the invariant and never loses a node.
pub proof fn lemma_spec_tick_wf(m: SimModel)
    requires
        sim_wf(m),
    ensures
        sim_wf(spec_tick(m)),
        spec_tick(m).nodes.len() >= m.nodes.len(),
        spec_tick(m).nodes.len() <= MAX_NODES,
{
    let moved = integrate_all(m.nodes, m.desired_separation, m.separation_cohesion_ratio);
    assert forall|i: int| 0 <= i < moved.len() implies node_wf(#[trigger] moved[i]) by {
        lemma_integrated_node_wf(
            m.nodes,
            i,
            m.desired_separation,
            m.separation_cohesion_ratio,
        );
    }
    let budget = MAX_NODES - m.nodes.len();
    lemma_grow_spec_wf(moved, m.max_edge_length, m.topology, budget);
    lemma_grow_spec_len(moved, m.max_edge_length, m.topology, budget);
    lemma_count_long_upto_bounds(moved, m.max_edge_length, moved.len() - 1);
}

/// One force-and-integration pass over a frozen snapshot, executable. The
/// strategy picks how each node's neighbors are found; both strategies see
/// the same neighbor sets, so the result is exactly `integrate_all` of the
/// snapshot either way.
fn force_pass(nodes: &Vec<Node>, ds: i64, ratio: i64, strategy: SearchStrategy) -> (r: Vec<Node>)
    requires
        nodes_wf(model_of(nodes@)),
        nodes@.len() <= MAX_NODES,
        0 <= ds <= PARAM_LIMIT,
        0 <= ratio <= PARAM_LIMIT,
    ensures
        model_of(r@) == integrate_all(model_of(nodes@), ds as int, ratio as int),
        r@.len() == nodes@.len(),
{
    let m = Ghost(model_of(nodes@));
    let index_opt: Option<NeighborIndex> = match strategy {
        SearchStrategy::BruteForce => None,
        SearchStrategy::SpatialIndex => Some(NeighborIndex::build(nodes)),
    };
    let mut out: Vec<Node> = Vec::new();
    let mut i: usize = 0;
    while i < nodes.len()
        invariant
            m@ == model_of(nodes@),
            nodes_wf(m@),
            m@.len() == nodes@.len(),
            nodes@.len() <= MAX_NODES,
            0 <= ds <= PARAM_LIMIT,
            0 <= ratio <= PARAM_LIMIT,
            i <= nodes@.len(),
            out@.len() == i,
            index_opt matches Some(idx) ==> idx.valid_for(m@),
            forall|k: int|
                0 <= k < i ==> #[trigger] out@[k]@ == integrated_node(
                    m@,
                    k,
                    ds as int,
                    ratio as int,
                ),
        decreases nodes@.len() - i,
    {
        let raw = match &index_opt {
            Option::None => separation_raw(nodes, i, ds),
            Option::Some(idx) => {
                let list = idx.query(nodes, i, ds);
                separation_raw_from_list(nodes, i, ds, &list)
            },
        };
        proof {
            assert(node_wf(m@[i as int]));
        }
        let sep = separation_steer(&nodes[i], raw);
        let nn = integrate_node(nodes, i, sep, ds, ratio);
        out.push(nn);
        i += 1;
    }
    proof {
        assert(model_of(out@) =~= integrate_all(m@, ds as int, ratio as int));
    }
    out
}

/// A verified differential-growth simulation over fixed-point coordinates.
pub struct DifferentialGrowth {
    pub nodes: Vec<Node>,
    pub desired_separation: i64,
    pub separation_cohesion_ratio: i64,
    pub max_edge_length: i64,
    pub topology: Topology,
    pub strategy: SearchStrategy,
}

impl View for DifferentialGrowth {
    type V = SimModel;

    open spec fn view(&self) -> SimModel {
        SimModel {
            nodes: model_of(self.nodes@),
            desired_separation: self.desired_separation as int,
            separation_cohesion_ratio: self.separation_cohesion_ratio as int,
            max_edge_length: self.max_edge_length as int,
            topology: self.topology,
        }
    }
}

impl DifferentialGrowth {
    /// The invariant the constructor establishes and every method keeps.
    pub open spec fn wf(self) -> bool {
        sim_wf(self@)
    }

    /// Builds a simulation from starting points and parameters, or says
    /// exactly why it cannot.
    pub fn new(
        starting_points: Vec<Vec2>,
        max_force: i64,
        max_speed: i64,
        desired_separation: i64,
        separation_cohesion_ratio: i64,
        max_edge_length: i64,
        topology: Topology,
        strategy: SearchStrategy,
    ) -> (r: Result<DifferentialGrowth, CurveError>)
        ensures
            match r {
                Ok(sim) => {
                    &&& construction_error(
                        points_model(starting_points@),
                        max_force as int,
                        max_speed as int,
                        desired_separation as int,
                        separation_cohesion_ratio as int,
                        max_edge_length as int,
                    ) is None
                    &&& sim@ == initial_model(
                        points_model(starting_points@),
                        max_force as int,
                        max_speed as int,
                        desired_separation as int,
                        separation_cohesion_ratio as int,
                        max_edge_length as int,
                        topology,
                    )
                    &&& sim.strategy == strategy
                    &&& sim.wf()
                },
                Err(e) => construction_error(
                    points_model(starting_points@),
                    max_force as int,
                    max_speed as int,
                    desired_separation as int,
                    separation_cohesion_ratio as int,
                    max_edge_length as int,
                ) == Some(e),
            },
    {
        let ghost ps = points_model(starting_points@);
        if starting_points.len() < 2 {
            return Err(CurveError::TooFewNodes);
        }
        if starting_points.len() > MAX_NODES {
            return Err(CurveError::TooManyNodes);
        }
        if !(0 <= max_force && max_force <= PARAM_LIMIT && 0 <= max_speed && max_speed
            <= PARAM_LIMIT && 0 <= desired_separation && desired_separation <= PARAM_LIMIT && 0
            <= separation_cohesion_ratio && separation_cohesion_ratio <= PARAM_LIMIT && 0
            <= max_edge_length && max_edge_length <= PARAM_LIMIT) {
            return Err(CurveError::ParameterOutOfRange);
        }
        let mut nodes: Vec<Node> = Vec::new();
        let mut i: usize = 0;
        while i < starting_points.len()
            invariant
                ps == points_model(starting_points@),
                i <= starting_points@.len(),
                nodes@.len() == i,
                forall|k: int|
                    0 <= k < i ==> (#[trigger] ps[k]).in_box(COORD_LIMIT as int),
                forall|k: int|
                    0 <= k < i ==> #[trigger] nodes@[k]@ == (NodeV {
                        position: ps[k],
                        velocity: V2::zero(),
                        acceleration: V2::zero(),
                        max_force: max_force as int,
                        max_speed: max_speed as int,
                    }),
                2 <= starting_points@.len() <= MAX_NODES,
                0 <= max_force <= PARAM_LIMIT,
                0 <= max_speed <= PARAM_LIMIT,
                0 <= desired_separation <= PARAM_LIMIT,
                0 <= separation_cohesion_ratio <= PARAM_LIMIT,
                0 <= max_edge_length <= PARAM_LIMIT,
            decreases starting_points@.len() - i,
        {
            let p = starting_points[i];
            if p.x > COORD_LIMIT || p.x < -COORD_LIMIT || p.y > COORD_LIMIT || p.y
                < -COORD_LIMIT {
                proof {
                    assert(!ps[i as int].in_box(COORD_LIMIT as int));
                }
                return Err(CurveError::CoordinateOutOfRange);
            }
            nodes.push(
                Node {
                    position: p,
                    velocity: Vec2 { x: 0, y: 0 },
                    acceleration: Vec2 { x: 0, y: 0 },
                    max_force,
                    max_speed,
                },
            );
            i += 1;
        }
        let sim = DifferentialGrowth {
            nodes,
            desired_separation,
            separation_cohesion_ratio,
            max_edge_length,
            topology,
            strategy,
        };
        proof {
            let want = initial_model(
                ps,
                max_force as int,
                max_speed as int,
                desired_separation as int,
                separation_cohesion_ratio as int,
                max_edge_length as int,
                topology,
            );
            assert(sim@.nodes =~= want.nodes);
        }
        Ok(sim)
    }

    /// One simulation step: the force pass moves every node against the
    /// frozen pre-tick snapshot, then the growth pass subdivides the moved
    /// curve's overstretched edges. The post-state is exactly
    /// `spec_tick(old(self)@)` — a function of the pre-state alone, so equal
    /// simulations stay equal tick after tick, whatever their strategies.
    pub fn tick(&mut self)
        requires
            old(self).wf(),
        ensures
            final(self).wf(),
            final(self)@ == spec_tick(old(self)@),
            final(self).strategy == old(self).strategy,
            final(self)@.nodes.len() >= old(self)@.nodes.len(),
    {
        let moved = force_pass(
            &self.nodes,
            self.desired_separation,
            self.separation_cohesion_ratio,
            self.strategy,
        );
        proof {
            let mm = integrate_all(
                self@.nodes,
                self@.desired_separation,
                self@.separation_cohesion_ratio,
            );
            assert forall|k: int| 0 <= k < mm.len() implies node_wf(#[trigger] mm[k]) by {
                lemma_integrated_node_wf(
                    self@.nodes,
                    k,
                    self@.desired_separation,
                    self@.separation_cohesion_ratio,
                );
            }
        }
        let grown = grow_pass(moved, self.max_edge_length, self.topology);
        self.nodes = grown;
        proof {
            lemma_spec_tick_wf(old(self)@);
        }
    }

    /// Current node count.
    pub fn node_count(&self) -> (r: usize)
        ensures
            r == self@.nodes.len(),
    {
        self.nodes.len()
    }

    /// The node positions, one coordinate pair per node, in curve order: what
    /// a renderer draws as a polyline (closing it only on a closed topology).
    /// On a well-formed simulation every coordinate is inside the world box —
    /// no undefined or out-of-range value can appear.
    pub fn export_positions(&self) -> (r: Vec<Vec2>)
        ensures
            r@.len() == self@.nodes.len(),
            forall|i: int| 0 <= i < r@.len() ==> #[trigger] r@[i]@ == self@.nodes[i].position,
            self.wf() ==> forall|i: int|
                0 <= i < r@.len() ==> (#[trigger] r@[i]@).in_box(COORD_LIMIT as int),
    {
        let mut out: Vec<Vec2> = Vec::new();
        let mut i: usize = 0;
        while i < self.nodes.len()
            invariant
                i <= self.nodes@.len(),
                out@.len() == i,
                forall|k: int|
                    0 <= k < i ==> #[trigger] out@[k]@ == model_of(self.nodes@)[k].position,
            decreases self.nodes@.len() - i,
        {
            out.push(self.nodes[i].position);
            i += 1;
        }
        proof {
            if self.wf() {
                assert forall|k: int| 0 <= k < out@.len() implies (#[trigger] out@[k]@).in_box(
                    COORD_LIMIT as int,
                ) by {
                    assert(node_wf(self@.nodes[k]));
                }
            }
        }
        out
    }
}

} // verus!
