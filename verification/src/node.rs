//! A curve node: position, velocity, per-tick acceleration accumulator, and
//! the node's own force and speed caps.

use vstd::prelude::*;
use crate::config::{COORD_LIMIT, PARAM_LIMIT};
use crate::vec2::{V2, Vec2};

verus! {

/// Mathematical model of a node.
pub struct NodeV {
    pub position: V2,
    pub velocity: V2,
    pub acceleration: V2,
    pub max_force: int,
    pub max_speed: int,
}

/// Executable node. `max_force` and `max_speed` are fixed at creation and
/// copied to children inserted by growth.
#[derive(Clone, Copy, PartialEq, Eq, Structural, Debug)]
pub struct Node {
    pub position: Vec2,
    pub velocity: Vec2,
    pub acceleration: Vec2,
    pub max_force: i64,
    pub max_speed: i64,
}

impl View for Node {
    type V = NodeV;

    open spec fn view(&self) -> NodeV {
        NodeV {
            position: self.position@,
            velocity: self.velocity@,
            acceleration: self.acceleration@,
            max_force: self.max_force as int,
            max_speed: self.max_speed as int,
        }
    }
}

impl Node {
    /// A fresh node: caller-supplied position, zero velocity and
    /// acceleration.
    pub fn new(position: Vec2, max_force: i64, max_speed: i64) -> (r: Node)
        ensures
            r@ == (NodeV {
                position: position@,
                velocity: V2::zero(),
                acceleration: V2::zero(),
                max_force: max_force as int,
                max_speed: max_speed as int,
            }),
    {
        Node {
            position,
            velocity: Vec2 { x: 0, y: 0 },
            acceleration: Vec2 { x: 0, y: 0 },
            max_force,
            max_speed,
        }
    }
}

/// The invariant each node satisfies between ticks: caps in range, position
/// inside the world box, speed within the node's cap, and the acceleration
/// accumulator drained.
pub open spec fn node_wf(n: NodeV) -> bool {
    &&& 0 <= n.max_force <= PARAM_LIMIT as int
    &&& 0 <= n.max_speed <= PARAM_LIMIT as int
    &&& n.position.in_box(COORD_LIMIT as int)
    &&& n.velocity.mag_sq() <= n.max_speed * n.max_speed
    &&& n.acceleration.is_zero()
}

/// The model a vector of executable nodes stands for.
pub open spec fn model_of(nodes: Seq<Node>) -> Seq<NodeV> {
    nodes.map_values(|n: Node| n@)
}

/// Every node of the sequence is well-formed.
pub open spec fn nodes_wf(m: Seq<NodeV>) -> bool {
    forall|i: int| 0 <= i < m.len() ==> node_wf(#[trigger] m[i])
}

} // verus!
