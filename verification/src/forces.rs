//! The force model and integrator: per-node separation (weighted repulsion
//! from nearby nodes) and cohesion (steering toward the midpoint of the two
//! topological neighbors), blended and integrated by explicit Euler with unit
//! mass and unit time step.
//!
//! Every executable function returns exactly the value of its spec
//! counterpart, so a whole force pass is a mathematical function of the
//! pre-tick snapshot: forces for all nodes are computed against the same
//! frozen positions, and only then is any node moved.

use vstd::prelude::*;
use crate::config::{COORD_LIMIT, MAX_NODES, PARAM_LIMIT, SCALE, SCALE_SQ};
use crate::math::{div_trunc, lemma_trunc_div_le, trunc_div};
use crate::neighbor::{strictly_ascending, within_radius};
use crate::node::{model_of, node_wf, nodes_wf, Node, NodeV};
use crate::vec2::{
    lemma_components_within, lemma_limited_bound, lemma_mag_sq_basics, lemma_mag_sq_opposite,
    limit, midpoint, set_magnitude, Vec2, V2, VEC_LIMIT,
};

verus! {

/// What node `j`'s position adds to node `i`'s raw separation sum: the unit
/// vector from `j` toward `i`, further divided by the distance, so closer
/// neighbors repel disproportionately more. In fixed point that is
/// `d * SCALE^2 / |d|^2` componentwise, which is exact in the squared
/// distance; a neighbor qualifies when its true distance is strictly
/// positive and strictly below `ds` (`0 < |d|^2 < ds^2`).
pub open spec fn sep_contribution(pi: V2, pj: V2, ds: int) -> V2 {
    let d = pi.minus(pj);
    let q = d.mag_sq();
    if 0 < q && q < ds * ds {
        V2 { x: trunc_div(d.x * SCALE_SQ, q), y: trunc_div(d.y * SCALE_SQ, q) }
    } else {
        V2::zero()
    }
}

/// Raw separation sum for node `i` over neighbors `j < k` (raw sum, not
/// averaged by neighbor count).
pub open spec fn sep_raw_upto(nodes: Seq<NodeV>, i: int, ds: int, k: int) -> V2
    decreases k,
{
    if k <= 0 {
        V2::zero()
    } else if k - 1 == i {
        sep_raw_upto(nodes, i, ds, k - 1)
    } else {
        sep_raw_upto(nodes, i, ds, k - 1).plus(
            sep_contribution(nodes[i].position, nodes[k - 1].position, ds),
        )
    }
}

/// Raw separation sum for node `i` over all other nodes.
pub open spec fn sep_raw(nodes: Seq<NodeV>, i: int, ds: int) -> V2 {
    sep_raw_upto(nodes, i, ds, nodes.len() as int)
}

/// Steering force out of a raw separation sum: a zero sum yields a zero
/// force; otherwise the sum is rescaled to magnitude `max_speed` (the desired
/// velocity), the current velocity is subtracted, and the result is clamped
/// to `max_force`.
pub open spec fn sep_steer_of(n: NodeV, raw: V2) -> V2 {
    if raw.is_zero() {
        V2::zero()
    } else {
        raw.with_magnitude(n.max_speed).minus(n.velocity).limited(n.max_force)
    }
}

/// Separation force for node `i`.
pub open spec fn sep_force(nodes: Seq<NodeV>, i: int, ds: int) -> V2 {
    sep_steer_of(nodes[i], sep_raw(nodes, i, ds))
}

/// Midpoint of the positions of `i`'s topological neighbors. Indices wrap
/// around at both ends whatever the topology; whether an open curve's
/// endpoints ought to steer by their single neighbor instead is a known open
/// question of this design, left unresolved on purpose.
pub open spec fn coh_target(nodes: Seq<NodeV>, i: int) -> V2 {
    let len = nodes.len() as int;
    let prev = nodes[if i == 0 {
        len - 1
    } else {
        i - 1
    }].position;
    let next = nodes[if i == len - 1 {
        0
    } else {
        i + 1
    }].position;
    prev.midpoint_with(next)
}

/// Cohesion force for node `i`: desired velocity toward the neighbor
/// midpoint, rescaled to `max_speed` unless exactly zero, minus the current
/// velocity, clamped to `max_force`.
pub open spec fn coh_force(nodes: Seq<NodeV>, i: int) -> V2 {
    let n = nodes[i];
    let toward = coh_target(nodes, i).minus(n.position);
    let desired = if toward.is_zero() {
        toward
    } else {
        toward.with_magnitude(n.max_speed)
    };
    desired.minus(n.velocity).limited(n.max_force)
}

/// The blended force: separation times the separation/cohesion ratio (a
/// fixed-point scalar), plus cohesion. Deliberately not re-clamped to
/// `max_force`: each part is capped on its own, so the blend may exceed the
/// cap — an unusual but intended trait of this force model.
pub open spec fn combined_force(nodes: Seq<NodeV>, i: int, ds: int, ratio: int) -> V2 {
    let s = sep_force(nodes, i, ds);
    let scaled = V2 { x: trunc_div(s.x * ratio, SCALE as int), y: trunc_div(s.y * ratio, SCALE as int) };
    scaled.plus(coh_force(nodes, i))
}

/// A coordinate clamped into the world box. The engine's contracts make the
/// clamp explicit; it only acts on simulations already driven near the edge
/// of the representable range.
pub open spec fn clamp_coord(c: int) -> int {
    if c > COORD_LIMIT as int {
        COORD_LIMIT as int
    } else if c < -(COORD_LIMIT as int) {
        -(COORD_LIMIT as int)
    } else {
        c
    }
}

/// Node `i` after one integration step: the blended force accumulates into
/// the acceleration, the acceleration into the velocity; the velocity is
/// clamped to `max_speed`, moves the position, and the acceleration is
/// drained for the next tick.
pub open spec fn integrated_node(nodes: Seq<NodeV>, i: int, ds: int, ratio: int) -> NodeV {
    let n = nodes[i];
    let acc = n.acceleration.plus(combined_force(nodes, i, ds, ratio));
    let vel = n.velocity.plus(acc).limited(n.max_speed);
    let pos = V2 { x: clamp_coord(n.position.x + vel.x), y: clamp_coord(n.position.y + vel.y) };
    NodeV {
        position: pos,
        velocity: vel,
        acceleration: V2::zero(),
        max_force: n.max_force,
        max_speed: n.max_speed,
    }
}

/// One whole force-and-integration pass: every node is integrated against
/// the same pre-update snapshot.
pub open spec fn integrate_all(nodes: Seq<NodeV>, ds: int, ratio: int) -> Seq<NodeV> {
    Seq::new(nodes.len(), |i: int| integrated_node(nodes, i, ds, ratio))
}

/// Integration keeps a node well-formed: caps unchanged, position clamped
/// into the world box, speed within the node's cap, acceleration drained.
pub proof fn lemma_integrated_node_wf(nodes: Seq<NodeV>, i: int, ds: int, ratio: int)
    requires
        nodes_wf(nodes),
        0 <= i < nodes.len(),
    ensures
        node_wf(integrated_node(nodes, i, ds, ratio)),
{
    let n = nodes[i];
    let acc = n.acceleration.plus(combined_force(nodes, i, ds, ratio));
    lemma_limited_bound(n.velocity.plus(acc), n.max_speed);
}

/// Raw separation sum for node `i`, brute force: every other node is
/// examined directly.
pub fn separation_raw(nodes: &Vec<Node>, i: usize, ds: i64) -> (r: Vec2)
    requires
        nodes_wf(model_of(nodes@)),
        nodes@.len() <= MAX_NODES,
        i < nodes@.len(),
        0 <= ds <= PARAM_LIMIT,
    ensures
        r@ == sep_raw(model_of(nodes@), i as int, ds as int),
        r@.in_box(VEC_LIMIT as int),
{
    let m = Ghost(model_of(nodes@));
    let pi = nodes[i].position;
    proof {
        assert(node_wf(m@[i as int]));
        assert((ds as int) * (ds as int) <= 1_000_000_000_000_000_000) by (nonlinear_arith)
            requires
                0 <= (ds as int) <= 1_000_000_000,
        ;
    }
    let dsq = (ds as i128) * (ds as i128);
    let mut sum = Vec2 { x: 0i64, y: 0i64 };
    let mut j: usize = 0;
    while j < nodes.len()
        invariant
            nodes_wf(m@),
            m@ == model_of(nodes@),
            m@.len() == nodes@.len(),
            nodes@.len() <= MAX_NODES,
            i < nodes@.len(),
            0 <= ds <= PARAM_LIMIT,
            j <= nodes@.len(),
            pi@ == m@[i as int].position,
            dsq == (ds as int) * (ds as int),
            sum@ == sep_raw_upto(m@, i as int, ds as int, j as int),
            sum@.in_box(j * 1_000_000),
        decreases nodes@.len() - j,
    {
        if j != i {
            let pj = nodes[j].position;
            proof {
                assert(node_wf(m@[i as int]) && node_wf(m@[j as int]));
            }
            let dx = pi.x as i128 - pj.x as i128;
            let dy = pi.y as i128 - pj.y as i128;
            proof {
                assert(dx * dx <= 0x1000_0000_0000_0000_0000_0000_0000i128 && dy * dy
                    <= 0x1000_0000_0000_0000_0000_0000_0000i128 && dx * dx >= 0 && dy * dy >= 0)
                    by (nonlinear_arith)
                    requires
                        -0x2_0000_0000_0000i128 <= dx <= 0x2_0000_0000_0000i128,
                        -0x2_0000_0000_0000i128 <= dy <= 0x2_0000_0000_0000i128,
                ;
            }
            let q = dx * dx + dy * dy;
            if q > 0 && q < dsq {
                proof {
                    let d = m@[i as int].position.minus(m@[j as int].position);
                    lemma_mag_sq_basics(d);
                    assert(-(q as int) <= d.x <= q as int && -(q as int) <= d.y <= q as int)
                        by (nonlinear_arith)
                        requires
                            d.x * d.x <= q as int,
                            d.y * d.y <= q as int,
                            q as int > 0,
                    ;
                    assert(-((q as int) * (SCALE_SQ as int)) <= d.x * SCALE_SQ <= (q as int) * (
                    SCALE_SQ as int) && -((q as int) * (SCALE_SQ as int)) <= d.y * SCALE_SQ <= (
                    q as int) * (SCALE_SQ as int)) by (nonlinear_arith)
                        requires
                            -(q as int) <= d.x <= q as int,
                            -(q as int) <= d.y <= q as int,
                            q as int > 0,
                            SCALE_SQ as int > 0,
                    ;
                    lemma_trunc_div_le(d.x * SCALE_SQ, q as int, SCALE_SQ as int);
                    lemma_trunc_div_le(d.y * SCALE_SQ, q as int, SCALE_SQ as int);
                }
                let cx = div_trunc(dx * (SCALE_SQ as i128), q);
                let cy = div_trunc(dy * (SCALE_SQ as i128), q);
                sum = Vec2 { x: sum.x + cx as i64, y: sum.y + cy as i64 };
            }
        }
        j += 1;
    }
    sum
}

/// Nodes that are no neighbors of `i` add nothing to its separation sum.
pub proof fn lemma_sep_gap(m: Seq<NodeV>, i: int, ds: int, a: int, b: int)
    requires
        0 <= a <= b <= m.len(),
        0 <= i < m.len(),
        forall|j: int| a <= j < b ==> !within_radius(m, i, ds, j),
    ensures
        sep_raw_upto(m, i, ds, b) == sep_raw_upto(m, i, ds, a),
    decreases b - a,
{
    if a < b {
        lemma_sep_gap(m, i, ds, a, b - 1);
        let j = b - 1;
        if j != i {
            assert(!within_radius(m, i, ds, j));
            lemma_mag_sq_opposite(m[i].position, m[j].position);
            assert(sep_contribution(m[i].position, m[j].position, ds).is_zero());
        }
    }
}

/// Where the processed prefix of a neighbor list ends: one past its last
/// entry.
pub open spec fn prefix_end(list: Seq<usize>, t: int) -> int {
    if t <= 0 {
        0
    } else {
        list[t - 1] + 1
    }
}

/// Raw separation sum for node `i` out of a neighbor list — the ascending
/// list of exactly the nodes within `desired_separation`, as either search
/// strategy returns it. Equal to the brute-force sum: nodes outside the list
/// contribute nothing.
pub fn separation_raw_from_list(nodes: &Vec<Node>, i: usize, ds: i64, list: &Vec<usize>) -> (r:
    Vec2)
    requires
        nodes_wf(model_of(nodes@)),
        nodes@.len() <= MAX_NODES,
        i < nodes@.len(),
        0 <= ds <= PARAM_LIMIT,
        strictly_ascending(list@),
        forall|j: usize|
            #[trigger] list@.contains(j) <==> within_radius(
                model_of(nodes@),
                i as int,
                ds as int,
                j as int,
            ),
    ensures
        r@ == sep_raw(model_of(nodes@), i as int, ds as int),
        r@.in_box(VEC_LIMIT as int),
{
    let m = Ghost(model_of(nodes@));
    proof {
        assert forall|k: int| 0 <= k < list@.len() implies (list@[k] as int) < m@.len()
            && list@[k] != i by {
            assert(list@.contains(list@[k]));
        }
        assert(node_wf(m@[i as int]));
        assert((ds as int) * (ds as int) <= 1_000_000_000_000_000_000) by (nonlinear_arith)
            requires
                0 <= (ds as int) <= 1_000_000_000,
        ;
    }
    let pi = nodes[i].position;
    let dsq = (ds as i128) * (ds as i128);
    let mut sum = Vec2 { x: 0i64, y: 0i64 };
    let mut t: usize = 0;
    while t < list.len()
        invariant
            m@ == model_of(nodes@),
            nodes_wf(m@),
            m@.len() == nodes@.len(),
            nodes@.len() <= MAX_NODES,
            i < nodes@.len(),
            0 <= ds <= PARAM_LIMIT,
            t <= list@.len(),
            pi@ == m@[i as int].position,
            dsq == (ds as int) * (ds as int),
            strictly_ascending(list@),
            forall|j: usize|
                #[trigger] list@.contains(j) <==> within_radius(
                    m@,
                    i as int,
                    ds as int,
                    j as int,
                ),
            forall|k: int|
                0 <= k < list@.len() ==> (#[trigger] list@[k] as int) < m@.len() && list@[k]
                    != i,
            0 <= prefix_end(list@, t as int) <= m@.len(),
            sum@ == sep_raw_upto(m@, i as int, ds as int, prefix_end(list@, t as int)),
            sum@.in_box(prefix_end(list@, t as int) * 1_000_000),
        decreases list@.len() - t,
    {
        let j = list[t];
        proof {
            let pe = prefix_end(list@, t as int);
            if t > 0 {
                assert(list@[t as int - 1] < list@[t as int]);
            }
            assert(pe <= j as int);
            assert forall|jj: int| pe <= jj < j as int implies !within_radius(
                m@,
                i as int,
                ds as int,
                jj,
            ) by {
                if within_radius(m@, i as int, ds as int, jj) {
                    assert(list@.contains(jj as usize));
                    let kk = choose|kk: int| 0 <= kk < list@.len() && list@[kk] == jj as usize;
                    if kk < t {
                        if t > 0 && kk < t - 1 {
                            assert(list@[kk] < list@[t as int - 1]);
                        }
                        assert(false);
                    } else {
                        if kk > t {
                            assert(list@[t as int] < list@[kk]);
                        }
                        assert(false);
                    }
                }
            }
            lemma_sep_gap(m@, i as int, ds as int, pe, j as int);
            assert(node_wf(m@[j as int]));
        }
        let pj = nodes[j].position;
        let dx = pi.x as i128 - pj.x as i128;
        let dy = pi.y as i128 - pj.y as i128;
        proof {
            assert(dx * dx <= 0x1000_0000_0000_0000_0000_0000_0000i128 && dy * dy
                <= 0x1000_0000_0000_0000_0000_0000_0000i128 && dx * dx >= 0 && dy * dy >= 0)
                by (nonlinear_arith)
                requires
                    -0x2_0000_0000_0000i128 <= dx <= 0x2_0000_0000_0000i128,
                    -0x2_0000_0000_0000i128 <= dy <= 0x2_0000_0000_0000i128,
            ;
        }
        let q = dx * dx + dy * dy;
        if q > 0 && q < dsq {
            proof {
                let d = m@[i as int].position.minus(m@[j as int].position);
                lemma_mag_sq_basics(d);
                assert(-(q as int) <= d.x <= q as int && -(q as int) <= d.y <= q as int)
                    by (nonlinear_arith)
                    requires
                        d.x * d.x <= q as int,
                        d.y * d.y <= q as int,
                        q as int > 0,
                ;
                assert(-((q as int) * (SCALE_SQ as int)) <= d.x * SCALE_SQ <= (q as int) * (
                SCALE_SQ as int) && -((q as int) * (SCALE_SQ as int)) <= d.y * SCALE_SQ <= (
                q as int) * (SCALE_SQ as int)) by (nonlinear_arith)
                    requires
                        -(q as int) <= d.x <= q as int,
                        -(q as int) <= d.y <= q as int,
                        q as int > 0,
                        SCALE_SQ as int > 0,
                ;
                lemma_trunc_div_le(d.x * SCALE_SQ, q as int, SCALE_SQ as int);
                lemma_trunc_div_le(d.y * SCALE_SQ, q as int, SCALE_SQ as int);
            }
            let cx = div_trunc(dx * (SCALE_SQ as i128), q);
            let cy = div_trunc(dy * (SCALE_SQ as i128), q);
            sum = Vec2 { x: sum.x + cx as i64, y: sum.y + cy as i64 };
        }
        t += 1;
        proof {
            assert(prefix_end(list@, t as int) == j + 1);
        }
    }
    proof {
        let pe = prefix_end(list@, t as int);
        assert forall|jj: int| pe <= jj < m@.len() implies !within_radius(
            m@,
            i as int,
            ds as int,
            jj,
        ) by {
            if within_radius(m@, i as int, ds as int, jj) {
                assert(list@.contains(jj as usize));
                let kk = choose|kk: int| 0 <= kk < list@.len() && list@[kk] == jj as usize;
                if t > 0 && kk < t - 1 {
                    assert(list@[kk] < list@[t as int - 1]);
                }
                assert(false);
            }
        }
        lemma_sep_gap(m@, i as int, ds as int, pe, m@.len() as int);
    }
    sum
}

/// Steering force from a raw separation sum, executable.
pub fn separation_steer(n: &Node, raw: Vec2) -> (r: Vec2)
    requires
        node_wf(n@),
        raw@.in_box(VEC_LIMIT as int),
    ensures
        r@ == sep_steer_of(n@, raw@),
        r@.in_box(n@.max_force),
{
    if raw.x == 0 && raw.y == 0 {
        Vec2 { x: 0, y: 0 }
    } else {
        let desired = set_magnitude(raw, n.max_speed);
        proof {
            lemma_components_within(n@.velocity, n@.max_speed);
        }
        let steer = Vec2 { x: desired.x - n.velocity.x, y: desired.y - n.velocity.y };
        limit(steer, n.max_force)
    }
}

/// Cohesion force for node `i`, executable.
pub fn cohesion_force(nodes: &Vec<Node>, i: usize) -> (r: Vec2)
    requires
        nodes_wf(model_of(nodes@)),
        i < nodes@.len(),
    ensures
        r@ == coh_force(model_of(nodes@), i as int),
        r@.in_box(nodes@[i as int]@.max_force),
{
    let m = Ghost(model_of(nodes@));
    let len = nodes.len();
    let prev_idx = if i == 0 {
        len - 1
    } else {
        i - 1
    };
    let next_idx = if i == len - 1 {
        0
    } else {
        i + 1
    };
    proof {
        assert(node_wf(m@[i as int]) && node_wf(m@[prev_idx as int]) && node_wf(
            m@[next_idx as int],
        ));
    }
    let target = midpoint(nodes[prev_idx].position, nodes[next_idx].position);
    proof {
        crate::math::lemma_trunc_div_le(
            m@[prev_idx as int].position.x + m@[next_idx as int].position.x,
            2,
            COORD_LIMIT as int,
        );
        crate::math::lemma_trunc_div_le(
            m@[prev_idx as int].position.y + m@[next_idx as int].position.y,
            2,
            COORD_LIMIT as int,
        );
    }
    let n = &nodes[i];
    let toward = Vec2 { x: target.x - n.position.x, y: target.y - n.position.y };
    let desired = if toward.x == 0 && toward.y == 0 {
        toward
    } else {
        set_magnitude(toward, n.max_speed)
    };
    proof {
        lemma_components_within(n@.velocity, n@.max_speed);
    }
    let steer = Vec2 { x: desired.x - n.velocity.x, y: desired.y - n.velocity.y };
    limit(steer, n.max_force)
}

/// Node `i` after one integration step, executable. `sep` must be the
/// steered separation force of the snapshot.
pub fn integrate_node(nodes: &Vec<Node>, i: usize, sep: Vec2, ds: i64, ratio: i64) -> (r: Node)
    requires
        nodes_wf(model_of(nodes@)),
        i < nodes@.len(),
        0 <= ds <= PARAM_LIMIT,
        0 <= ratio <= PARAM_LIMIT,
        sep@ == sep_force(model_of(nodes@), i as int, ds as int),
        sep@.in_box(PARAM_LIMIT as int),
    ensures
        r@ == integrated_node(model_of(nodes@), i as int, ds as int, ratio as int),
{
    let m = Ghost(model_of(nodes@));
    let c = cohesion_force(nodes, i);
    proof {
        assert(-1_000_000_000_000_000_000 <= (sep.x as int) * (ratio as int)
            <= 1_000_000_000_000_000_000 && -1_000_000_000_000_000_000 <= (sep.y as int) * (
        ratio as int) <= 1_000_000_000_000_000_000) by (nonlinear_arith)
            requires
                -(PARAM_LIMIT as int) <= (sep.x as int) <= PARAM_LIMIT as int,
                -(PARAM_LIMIT as int) <= (sep.y as int) <= PARAM_LIMIT as int,
                0 <= (ratio as int) <= PARAM_LIMIT as int,
                PARAM_LIMIT == 1_000_000_000i64,
        ;
        lemma_trunc_div_le((sep.x as int) * (ratio as int), SCALE as int, 1_000_000_000_000_000);
        lemma_trunc_div_le((sep.y as int) * (ratio as int), SCALE as int, 1_000_000_000_000_000);
    }
    let sx = div_trunc((sep.x as i128) * (ratio as i128), SCALE as i128) as i64;
    let sy = div_trunc((sep.y as i128) * (ratio as i128), SCALE as i128) as i64;
    let fx = sx + c.x;
    let fy = sy + c.y;
    let n = &nodes[i];
    let ax = n.acceleration.x + fx;
    let ay = n.acceleration.y + fy;
    proof {
        lemma_components_within(n@.velocity, n@.max_speed);
    }
    let vel1 = Vec2 { x: n.velocity.x + ax, y: n.velocity.y + ay };
    let vel = limit(vel1, n.max_speed);
    let px0 = n.position.x + vel.x;
    let py0 = n.position.y + vel.y;
    let px = if px0 > COORD_LIMIT {
        COORD_LIMIT
    } else if px0 < -COORD_LIMIT {
        -COORD_LIMIT
    } else {
        px0
    };
    let py = if py0 > COORD_LIMIT {
        COORD_LIMIT
    } else if py0 < -COORD_LIMIT {
        -COORD_LIMIT
    } else {
        py0
    };
    Node {
        position: Vec2 { x: px, y: py },
        velocity: vel,
        acceleration: Vec2 { x: 0, y: 0 },
        max_force: n.max_force,
        max_speed: n.max_speed,
    }
}

} // verus!
