//! The force formulas on concrete values. Coordinates are fixed point
//! (SCALE = 1000), so a stored 1000 is 1.0 real.

use differential_growth::forces::{cohesion_force, separation_raw, separation_steer};
use differential_growth::node::Node;
use differential_growth::vec2::Vec2;

fn node(x: i64, y: i64, max_force: i64, max_speed: i64) -> Node {
    Node {
        position: Vec2 { x, y },
        velocity: Vec2 { x: 0, y: 0 },
        acceleration: Vec2 { x: 0, y: 0 },
        max_force,
        max_speed,
    }
}

#[test]
fn separation_raw_weighs_by_inverse_square_distance() {
    // neighbor at distance 0.1 (100): contribution = d * SCALE^2 / |d|^2
    //   = (-100 * 1_000_000 / 10_000, 0) = (-10_000, 0)
    let nodes = vec![node(0, 0, 1000, 1000), node(100, 0, 1000, 1000)];
    assert_eq!(separation_raw(&nodes, 0, 1000), Vec2 { x: -10_000, y: 0 });
    assert_eq!(separation_raw(&nodes, 1, 1000), Vec2 { x: 10_000, y: 0 });
}

#[test]
fn separation_raw_sums_contributions() {
    let nodes = vec![
        node(0, 0, 1000, 1000),
        node(100, 0, 1000, 1000),
        node(0, 200, 1000, 1000),
    ];
    // (-100 * 10^6 / 10^4, 0) + (0, -200 * 10^6 / 4 * 10^4) = (-10000, -5000)
    assert_eq!(separation_raw(&nodes, 0, 1000), Vec2 { x: -10_000, y: -5000 });
}

#[test]
fn separation_raw_skips_far_and_coincident_nodes() {
    let nodes = vec![
        node(0, 0, 1000, 1000),
        node(0, 0, 1000, 1000),  // coincident: distance not strictly positive
        node(5000, 0, 1000, 1000),  // outside the radius
    ];
    assert_eq!(separation_raw(&nodes, 0, 1000), Vec2 { x: 0, y: 0 });
}

#[test]
fn separation_steer_rescales_and_caps() {
    let n = node(0, 0, 10_000, 1000);
    // raw (3000, 4000) has magnitude 5000; desired velocity = (600, 800) at
    // magnitude 1000; velocity is zero so the steering is (600, 800), well
    // under the force cap
    assert_eq!(separation_steer(&n, Vec2 { x: 3000, y: 4000 }), Vec2 { x: 600, y: 800 });
    // a zero sum gives exactly the zero force
    assert_eq!(separation_steer(&n, Vec2 { x: 0, y: 0 }), Vec2 { x: 0, y: 0 });
}

#[test]
fn cohesion_steers_toward_neighbor_midpoint() {
    let nodes = vec![
        node(0, 0, 200, 500),
        node(1000, 0, 200, 500),
        node(4000, 0, 200, 500),
    ];
    // node 1: target = midpoint of 0 and 2 = (2000, 0); toward = (1000, 0);
    // desired = (500, 0) at max_speed; steering capped at max_force 200
    assert_eq!(cohesion_force(&nodes, 1), Vec2 { x: 200, y: 0 });
}

#[test]
fn cohesion_of_a_node_already_at_the_target_resists_drift() {
    // node 1 sits exactly at its neighbors' midpoint: desired velocity is
    // zero, so the steering is minus the (zero) velocity: exactly zero
    let nodes = vec![
        node(0, 0, 200, 500),
        node(2000, 0, 200, 500),
        node(4000, 0, 200, 500),
    ];
    assert_eq!(cohesion_force(&nodes, 1), Vec2 { x: 0, y: 0 });
}
