//! Adaptive edge subdivision: after the force pass, every edge of the
//! pre-growth snapshot whose endpoints lie farther apart than
//! `max_edge_length` receives a new midpoint node. Insertions are decided
//! against the frozen snapshot and applied in one pass; growth never removes
//! or merges nodes and never revisits edges created in the same tick.
//!
//! A budget caps insertions so the node count never passes
//! [`MAX_NODES`]: the midpoints of the first `budget` long edges, in curve
//! order, are inserted and the rest wait for a later tick.

use vstd::prelude::*;
use crate::config::{COORD_LIMIT, MAX_NODES, PARAM_LIMIT, Topology};
use crate::math::lemma_trunc_div_le;
use crate::node::{model_of, node_wf, nodes_wf, Node, NodeV};
use crate::vec2::{midpoint, Vec2, V2};

verus! {

/// The edge from `a` to `b` is longer than `max_len` (exact, on squares).
pub open spec fn edge_long(a: NodeV, b: NodeV, max_len: int) -> bool {
    b.position.minus(a.position).mag_sq() > max_len * max_len
}

/// The node a long edge spawns: the edge's midpoint, at rest, with the caps
/// of the edge's first endpoint.
pub open spec fn child_of(a: NodeV, b: NodeV) -> NodeV {
    NodeV {
        position: a.position.midpoint_with(b.position),
        velocity: V2::zero(),
        acceleration: V2::zero(),
        max_force: a.max_force,
        max_speed: a.max_speed,
    }
}

/// How many of the interior edges `0..k` (edge `e` joins nodes `e` and
/// `e + 1`) are long.
pub open spec fn count_long_upto(nodes: Seq<NodeV>, max_len: int, k: int) -> int
    decreases k,
{
    if k <= 0 {
        0
    } else {
        count_long_upto(nodes, max_len, k - 1) + if edge_long(
            nodes[k - 1],
            nodes[k],
            max_len,
        ) {
            1int
        } else {
            0int
        }
    }
}

/// How many edges are long in all, the wraparound edge included for a closed
/// curve.
pub open spec fn count_long(nodes: Seq<NodeV>, max_len: int, topology: Topology) -> int {
    count_long_upto(nodes, max_len, nodes.len() - 1) + if topology == Topology::Closed
        && edge_long(nodes[nodes.len() - 1], nodes[0], max_len) {
        1int
    } else {
        0int
    }
}

/// Interior edge `e` receives a midpoint: it is long, and the long edges
/// before it have not used up the budget.
pub open spec fn inserted_at(nodes: Seq<NodeV>, max_len: int, e: int, budget: int) -> bool {
    edge_long(nodes[e], nodes[e + 1], max_len) && count_long_upto(nodes, max_len, e) < budget
}

/// The first `j` nodes of the grown curve: each original node, followed by
/// its edge's midpoint where one is inserted.
pub open spec fn grown_prefix(nodes: Seq<NodeV>, max_len: int, j: int, budget: int) -> Seq<NodeV>
    decreases j,
{
    if j <= 0 {
        Seq::empty()
    } else {
        grown_prefix(nodes, max_len, j - 1, budget) + seq![nodes[j - 1]] + if j - 1
            < nodes.len() - 1 && inserted_at(nodes, max_len, j - 1, budget) {
            seq![child_of(nodes[j - 1], nodes[j])]
        } else {
            Seq::empty()
        }
    }
}

/// The whole grown curve: every node with its inserted midpoints, and, for a
/// closed curve whose wraparound edge is long and within budget, that edge's
/// midpoint appended at the end (which keeps curve order).
pub open spec fn grow_spec(nodes: Seq<NodeV>, max_len: int, topology: Topology, budget: int) -> Seq<
    NodeV,
> {
    grown_prefix(nodes, max_len, nodes.len() as int, budget) + if topology == Topology::Closed
        && edge_long(nodes[nodes.len() - 1], nodes[0], max_len) && count_long_upto(
        nodes,
        max_len,
        nodes.len() - 1,
    ) < budget {
        seq![child_of(nodes[nodes.len() - 1], nodes[0])]
    } else {
        Seq::empty()
    }
}

/// Long-edge counts are nonnegative and grow by at most one per edge.
pub proof fn lemma_count_long_upto_bounds(nodes: Seq<NodeV>, max_len: int, k: int)
    ensures
        0 <= count_long_upto(nodes, max_len, k),
        count_long_upto(nodes, max_len, k) <= if k >= 0 {
            k
        } else {
            0
        },
    decreases k,
{
    if k > 0 {
        lemma_count_long_upto_bounds(nodes, max_len, k - 1);
    }
}

/// Length of the grown prefix: each of the first `j` nodes, plus one
/// midpoint per long interior edge before `j`, the budget permitting.
pub proof fn lemma_grown_prefix_len(nodes: Seq<NodeV>, max_len: int, j: int, budget: int)
    requires
        0 <= j <= nodes.len(),
        budget >= 0,
    ensures
        grown_prefix(nodes, max_len, j, budget).len() == j + vstd::math::min(
            count_long_upto(nodes, max_len, if j < nodes.len() { j } else { nodes.len() - 1 }),
            budget,
        ),
    decreases j,
{
    lemma_count_long_upto_bounds(nodes, max_len, j);
    if j > 0 {
        lemma_grown_prefix_len(nodes, max_len, j - 1, budget);
        lemma_count_long_upto_bounds(nodes, max_len, j - 1);
    }
}

/// Length of the whole grown curve: the old count plus one midpoint per long
/// edge, the budget permitting.
pub proof fn lemma_grow_spec_len(nodes: Seq<NodeV>, max_len: int, topology: Topology, budget: int)
    requires
        nodes.len() >= 2,
        budget >= 0,
    ensures
        grow_spec(nodes, max_len, topology, budget).len() == nodes.len() + vstd::math::min(
            count_long(nodes, max_len, topology),
            budget,
        ),
{
    lemma_grown_prefix_len(nodes, max_len, nodes.len() as int, budget);
    lemma_count_long_upto_bounds(nodes, max_len, nodes.len() - 1);
}

/// A midpoint node of two well-formed nodes is well-formed.
pub proof fn lemma_child_wf(a: NodeV, b: NodeV)
    requires
        node_wf(a),
        node_wf(b),
    ensures
        node_wf(child_of(a, b)),
{
    lemma_trunc_div_le(a.position.x + b.position.x, 2, COORD_LIMIT as int);
    lemma_trunc_div_le(a.position.y + b.position.y, 2, COORD_LIMIT as int);
    assert(a.max_speed * a.max_speed >= 0) by (nonlinear_arith)
        requires
            a.max_speed >= 0,
    ;
}

/// Growth preserves well-formedness of every node.
pub proof fn lemma_grown_prefix_wf(nodes: Seq<NodeV>, max_len: int, j: int, budget: int)
    requires
        nodes_wf(nodes),
        0 <= j <= nodes.len(),
    ensures
        nodes_wf(grown_prefix(nodes, max_len, j, budget)),
    decreases j,
{
    if j > 0 {
        lemma_grown_prefix_wf(nodes, max_len, j - 1, budget);
        if j - 1 < nodes.len() - 1 && inserted_at(nodes, max_len, j - 1, budget) {
            lemma_child_wf(nodes[j - 1], nodes[j]);
        }
        let g = grown_prefix(nodes, max_len, j, budget);
        assert forall|i: int| 0 <= i < g.len() implies node_wf(#[trigger] g[i]) by {
            let prev = grown_prefix(nodes, max_len, j - 1, budget);
            if i < prev.len() {
                assert(node_wf(prev[i]));
            }
        }
    }
}

/// Growth preserves well-formedness, wraparound midpoint included.
pub proof fn lemma_grow_spec_wf(nodes: Seq<NodeV>, max_len: int, topology: Topology, budget: int)
    requires
        nodes_wf(nodes),
        nodes.len() >= 2,
    ensures
        nodes_wf(grow_spec(nodes, max_len, topology, budget)),
{
    lemma_grown_prefix_wf(nodes, max_len, nodes.len() as int, budget);
    if topology == Topology::Closed && edge_long(nodes[nodes.len() - 1], nodes[0], max_len)
        && count_long_upto(nodes, max_len, nodes.len() - 1) < budget {
        lemma_child_wf(nodes[nodes.len() - 1], nodes[0]);
    }
    let g = grow_spec(nodes, max_len, topology, budget);
    let p = grown_prefix(nodes, max_len, nodes.len() as int, budget);
    assert forall|i: int| 0 <= i < g.len() implies node_wf(#[trigger] g[i]) by {
        if i < p.len() {
            assert(node_wf(p[i]));
        }
    }
}

/// Squared length of the edge from `a` to `b`, executable.
fn edge_mag_sq(a: &Node, b: &Node) -> (q: i128)
    requires
        node_wf(a@),
        node_wf(b@),
    ensures
        q == b@.position.minus(a@.position).mag_sq(),
{
    let dx = b.position.x as i128 - a.position.x as i128;
    let dy = b.position.y as i128 - a.position.y as i128;
    proof {
        assert(dx * dx <= 0x1000_0000_0000_0000_0000_0000_0000i128 && dy * dy
            <= 0x1000_0000_0000_0000_0000_0000_0000i128 && dx * dx >= 0 && dy * dy >= 0)
            by (nonlinear_arith)
            requires
                -0x2_0000_0000_0000i128 <= dx <= 0x2_0000_0000_0000i128,
                -0x2_0000_0000_0000i128 <= dy <= 0x2_0000_0000_0000i128,
        ;
    }
    dx * dx + dy * dy
}

/// The midpoint node of a long edge, executable.
fn make_child(a: &Node, b: &Node) -> (r: Node)
    requires
        node_wf(a@),
        node_wf(b@),
    ensures
        r@ == child_of(a@, b@),
{
    let position = midpoint(a.position, b.position);
    Node {
        position,
        velocity: Vec2 { x: 0, y: 0 },
        acceleration: Vec2 { x: 0, y: 0 },
        max_force: a.max_force,
        max_speed: a.max_speed,
    }
}

/// One growth pass over a frozen snapshot, executable: walks every edge in
/// curve order and inserts the scheduled midpoints in the same pass.
pub fn grow_pass(nodes: Vec<Node>, max_edge_length: i64, topology: Topology) -> (r: Vec<Node>)
    requires
        nodes_wf(model_of(nodes@)),
        2 <= nodes@.len() <= MAX_NODES,
        0 <= max_edge_length <= PARAM_LIMIT,
    ensures
        model_of(r@) == grow_spec(
            model_of(nodes@),
            max_edge_length as int,
            topology,
            MAX_NODES - nodes@.len(),
        ),
{
    let m = Ghost(model_of(nodes@));
    let len = nodes.len();
    let budget = MAX_NODES - len;
    proof {
        assert((max_edge_length as int) * (max_edge_length as int)
            <= 1_000_000_000_000_000_000) by (nonlinear_arith)
            requires
                0 <= (max_edge_length as int) <= 1_000_000_000,
        ;
    }
    let lsq = (max_edge_length as i128) * (max_edge_length as i128);
    let mut out: Vec<Node> = Vec::new();
    let mut long_count: usize = 0;
    let mut e: usize = 0;
    while e < len
        invariant
            m@ == model_of(nodes@),
            nodes_wf(m@),
            m@.len() == nodes@.len(),
            len == nodes@.len(),
            2 <= len <= MAX_NODES,
            budget == MAX_NODES - len,
            0 <= max_edge_length <= PARAM_LIMIT,
            lsq == (max_edge_length as int) * (max_edge_length as int),
            e <= len,
            model_of(out@) == grown_prefix(m@, max_edge_length as int, e as int, budget as int),
            long_count == count_long_upto(
                m@,
                max_edge_length as int,
                if e < len {
                    e as int
                } else {
                    len - 1
                },
            ),
            long_count <= e,
        decreases len - e,
    {
        proof {
            assert(node_wf(m@[e as int]));
        }
        out.push(nodes[e]);
        if e + 1 < len {
            proof {
                assert(node_wf(m@[e as int + 1]));
            }
            let q = edge_mag_sq(&nodes[e], &nodes[e + 1]);
            if q > lsq {
                if long_count < budget {
                    let child = make_child(&nodes[e], &nodes[e + 1]);
                    out.push(child);
                }
                long_count += 1;
            }
        }
        proof {
            assert(model_of(out@) =~= grown_prefix(
                m@,
                max_edge_length as int,
                e as int + 1,
                budget as int,
            ));
        }
        e += 1;
    }
    if topology == Topology::Closed {
        proof {
            assert(node_wf(m@[len - 1]) && node_wf(m@[0]));
        }
        let q = edge_mag_sq(&nodes[len - 1], &nodes[0]);
        if q > lsq && long_count < budget {
            let child = make_child(&nodes[len - 1], &nodes[0]);
            out.push(child);
            proof {
                assert(model_of(out@) =~= grow_spec(
                    m@,
                    max_edge_length as int,
                    topology,
                    budget as int,
                ));
            }
        } else {
            proof {
                assert(model_of(out@) =~= grow_spec(
                    m@,
                    max_edge_length as int,
                    topology,
                    budget as int,
                ));
            }
        }
    } else {
        proof {
            assert(model_of(out@) =~= grow_spec(
                m@,
                max_edge_length as int,
                topology,
                budget as int,
            ));
        }
    }
    out
}

} // verus!
