//! Both neighbor-search strategies on the same snapshots.

use differential_growth::neighbor::{brute_force_neighbors, NeighborIndex};
use differential_growth::node::Node;
use differential_growth::vec2::Vec2;

fn node_at(x: i64, y: i64) -> Node {
    Node {
        position: Vec2 { x, y },
        velocity: Vec2 { x: 0, y: 0 },
        acceleration: Vec2 { x: 0, y: 0 },
        max_force: 1000,
        max_speed: 1000,
    }
}

#[test]
fn brute_force_finds_the_close_ones() {
    let nodes = vec![
        node_at(0, 0),
        node_at(1000, 0),
        node_at(0, 2500),
        node_at(-1500, 0),
        node_at(40_000, 40_000),
    ];
    let r = brute_force_neighbors(&nodes, 0, 3000);
    assert_eq!(r, vec![1, 2, 3]);
}

#[test]
fn radius_boundary_is_exclusive() {
    // distance exactly the radius does not qualify; one less does
    let nodes = vec![node_at(0, 0), node_at(5000, 0), node_at(0, -4999)];
    let r = brute_force_neighbors(&nodes, 0, 5000);
    assert_eq!(r, vec![2]);
}

#[test]
fn coincident_nodes_are_neighbors_at_positive_radius() {
    let nodes = vec![node_at(7, 7), node_at(7, 7)];
    assert_eq!(brute_force_neighbors(&nodes, 0, 1), vec![1]);
    assert_eq!(brute_force_neighbors(&nodes, 1, 1), vec![0]);
    // and nothing qualifies at radius zero
    assert_eq!(brute_force_neighbors(&nodes, 0, 0), Vec::<usize>::new());
}

#[test]
fn strategies_return_the_same_neighbors() {
    let nodes = vec![
        node_at(0, 0),
        node_at(200, 100),
        node_at(-300, 50),
        node_at(900, -900),
        node_at(5000, 5000),
        node_at(-40, -60),
        node_at(1200, 0),
        node_at(0, 1199),
    ];
    let index = NeighborIndex::build(&nodes);
    for i in 0..nodes.len() {
        for radius in [0i64, 100, 500, 1200, 10_000] {
            let brute = brute_force_neighbors(&nodes, i, radius);
            let indexed = index.query(&nodes, i, radius);
            assert_eq!(brute, indexed, "node {} radius {}", i, radius);
        }
    }
}

#[test]
fn query_handles_duplicate_x_coordinates() {
    let nodes = vec![
        node_at(100, 0),
        node_at(100, 50),
        node_at(100, -50),
        node_at(100, 2000),
    ];
    let index = NeighborIndex::build(&nodes);
    let r = index.query(&nodes, 0, 100);
    assert_eq!(r, vec![1, 2]);
}
