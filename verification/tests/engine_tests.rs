//! Whole-simulation scenarios. Coordinates are fixed point: a stored value
//! of `SCALE` (1000) stands for 1.0 real.

use differential_growth::config::{
    CurveError, SearchStrategy, Topology, COORD_LIMIT, PARAM_LIMIT,
};
use differential_growth::engine::DifferentialGrowth;
use differential_growth::forces::separation_raw;
use differential_growth::vec2::Vec2;

fn square_on_circle_radius_10() -> Vec<Vec2> {
    // 4 nodes on a circle of radius 10 (fixed point 10000) centered at origin
    vec![
        Vec2 { x: 10_000, y: 0 },
        Vec2 { x: 0, y: 10_000 },
        Vec2 { x: -10_000, y: 0 },
        Vec2 { x: 0, y: -10_000 },
    ]
}

#[test]
fn construction_rejects_single_point() {
    let r = DifferentialGrowth::new(
        vec![Vec2 { x: 0, y: 0 }],
        1000,
        1000,
        1000,
        1000,
        1000,
        Topology::Open,
        SearchStrategy::BruteForce,
    );
    assert_eq!(r.err(), Some(CurveError::TooFewNodes));
}

#[test]
fn construction_rejects_negative_parameter() {
    let r = DifferentialGrowth::new(
        square_on_circle_radius_10(),
        -1,
        1000,
        1000,
        1000,
        1000,
        Topology::Closed,
        SearchStrategy::BruteForce,
    );
    assert_eq!(r.err(), Some(CurveError::ParameterOutOfRange));
}

#[test]
fn construction_rejects_oversized_parameter() {
    let r = DifferentialGrowth::new(
        square_on_circle_radius_10(),
        1000,
        1000,
        PARAM_LIMIT + 1,
        1000,
        1000,
        Topology::Closed,
        SearchStrategy::BruteForce,
    );
    assert_eq!(r.err(), Some(CurveError::ParameterOutOfRange));
}

#[test]
fn construction_rejects_far_coordinate() {
    let r = DifferentialGrowth::new(
        vec![Vec2 { x: 0, y: 0 }, Vec2 { x: COORD_LIMIT + 1, y: 0 }],
        1000,
        1000,
        1000,
        1000,
        1000,
        Topology::Open,
        SearchStrategy::BruteForce,
    );
    assert_eq!(r.err(), Some(CurveError::CoordinateOutOfRange));
}

#[test]
fn construction_starts_at_rest() {
    let sim = DifferentialGrowth::new(
        square_on_circle_radius_10(),
        1000,
        2000,
        2000,
        1000,
        100_000,
        Topology::Closed,
        SearchStrategy::BruteForce,
    )
    .unwrap();
    assert_eq!(sim.node_count(), 4);
    let positions = sim.export_positions();
    assert_eq!(positions, square_on_circle_radius_10());
    for n in &sim.nodes {
        assert_eq!(n.velocity, Vec2 { x: 0, y: 0 });
        assert_eq!(n.acceleration, Vec2 { x: 0, y: 0 });
        assert_eq!(n.max_force, 1000);
        assert_eq!(n.max_speed, 2000);
    }
}

#[test]
fn square_tick_moves_inward_without_growth() {
    // desired_separation 2 (2000): no pair is that close, so only cohesion
    // acts; max_edge_length 100 (100000): no edge is that long, no growth.
    let mut sim = DifferentialGrowth::new(
        square_on_circle_radius_10(),
        1000,
        2000,
        2000,
        1000,
        100_000,
        Topology::Closed,
        SearchStrategy::BruteForce,
    )
    .unwrap();
    let before = sim.export_positions();
    sim.tick();
    assert_eq!(sim.node_count(), 4);
    let after = sim.export_positions();
    // each node steers toward the midpoint of its two neighbors (the
    // center), force-capped at 1.0 and so displaced by exactly 1.0
    assert_eq!(
        after,
        vec![
            Vec2 { x: 9000, y: 0 },
            Vec2 { x: 0, y: 9000 },
            Vec2 { x: -9000, y: 0 },
            Vec2 { x: 0, y: -9000 },
        ]
    );
    for (b, a) in before.iter().zip(after.iter()) {
        let dx = (a.x - b.x) as i128;
        let dy = (a.y - b.y) as i128;
        let dsq = dx * dx + dy * dy;
        assert!(dsq > 0, "every position changes");
        assert!(dsq <= 2000 * 2000, "displacement within max_speed");
    }
}

#[test]
fn two_node_open_curve_grows_one_midpoint() {
    // nodes 50 apart, max_edge_length 5; max_force 0 keeps the force pass
    // from moving anything, so the midpoint lands on the pre-tick average
    let mut sim = DifferentialGrowth::new(
        vec![Vec2 { x: 0, y: 0 }, Vec2 { x: 50_000, y: 0 }],
        0,
        1000,
        1000,
        1000,
        5000,
        Topology::Open,
        SearchStrategy::BruteForce,
    )
    .unwrap();
    sim.tick();
    assert_eq!(sim.node_count(), 3);
    let positions = sim.export_positions();
    assert_eq!(
        positions,
        vec![Vec2 { x: 0, y: 0 }, Vec2 { x: 25_000, y: 0 }, Vec2 { x: 50_000, y: 0 }]
    );
    let child = &sim.nodes[1];
    assert_eq!(child.velocity, Vec2 { x: 0, y: 0 });
    assert_eq!(child.acceleration, Vec2 { x: 0, y: 0 });
    assert_eq!(child.max_force, 0);
    assert_eq!(child.max_speed, 1000);
}

#[test]
fn growth_counts_long_edges_exactly() {
    // three collinear nodes, both interior edges long; max_force 0 freezes
    // the force pass
    let points = vec![
        Vec2 { x: 0, y: 0 },
        Vec2 { x: 20_000, y: 0 },
        Vec2 { x: 40_000, y: 0 },
    ];
    let mut open_sim = DifferentialGrowth::new(
        points.clone(),
        0,
        1000,
        1000,
        1000,
        5000,
        Topology::Open,
        SearchStrategy::BruteForce,
    )
    .unwrap();
    open_sim.tick();
    assert_eq!(open_sim.node_count(), 5, "2 interior edges subdivided");

    let mut closed_sim = DifferentialGrowth::new(
        points,
        0,
        1000,
        1000,
        1000,
        5000,
        Topology::Closed,
        SearchStrategy::BruteForce,
    )
    .unwrap();
    closed_sim.tick();
    assert_eq!(closed_sim.node_count(), 6, "wraparound edge subdivided too");
}

#[test]
fn node_count_never_decreases() {
    let mut sim = DifferentialGrowth::new(
        square_on_circle_radius_10(),
        1000,
        2000,
        20_000,
        1500,
        9000,
        Topology::Closed,
        SearchStrategy::BruteForce,
    )
    .unwrap();
    let mut last = sim.node_count();
    for _ in 0..20 {
        sim.tick();
        assert!(sim.node_count() >= last);
        last = sim.node_count();
    }
}

#[test]
fn velocity_stays_within_max_speed() {
    // strong separation in a tight cluster: velocities get clamped
    let mut sim = DifferentialGrowth::new(
        vec![
            Vec2 { x: 0, y: 0 },
            Vec2 { x: 10, y: 0 },
            Vec2 { x: 0, y: 10 },
            Vec2 { x: -10, y: -10 },
        ],
        1_000_000,
        5000,
        100_000,
        1000,
        1_000_000,
        Topology::Closed,
        SearchStrategy::BruteForce,
    )
    .unwrap();
    for _ in 0..10 {
        sim.tick();
        for n in &sim.nodes {
            let vx = n.velocity.x as i128;
            let vy = n.velocity.y as i128;
            assert!(vx * vx + vy * vy <= 5000i128 * 5000);
        }
    }
}

#[test]
fn identical_simulations_stay_identical_across_strategies() {
    let make = |strategy| {
        DifferentialGrowth::new(
            vec![
                Vec2 { x: 10_000, y: 0 },
                Vec2 { x: 0, y: 10_000 },
                Vec2 { x: -10_000, y: 0 },
                Vec2 { x: 0, y: -10_000 },
                Vec2 { x: 7000, y: 7000 },
            ],
            1000,
            2000,
            20_000,
            1500,
            8000,
            Topology::Closed,
            strategy,
        )
        .unwrap()
    };
    let mut a = make(SearchStrategy::BruteForce);
    let mut b = make(SearchStrategy::SpatialIndex);
    for t in 0..8 {
        a.tick();
        b.tick();
        assert_eq!(a.node_count(), b.node_count(), "tick {}", t);
        assert_eq!(a.export_positions(), b.export_positions(), "tick {}", t);
    }
}

#[test]
fn zero_desired_separation_gives_zero_separation_force() {
    // every node, even coincident ones: no neighbor qualifies within radius 0
    let sim = DifferentialGrowth::new(
        vec![
            Vec2 { x: 0, y: 0 },
            Vec2 { x: 0, y: 0 },
            Vec2 { x: 5, y: 5 },
        ],
        1000,
        1000,
        0,
        1000,
        1_000_000,
        Topology::Closed,
        SearchStrategy::BruteForce,
    )
    .unwrap();
    for i in 0..3 {
        assert_eq!(separation_raw(&sim.nodes, i, 0), Vec2 { x: 0, y: 0 });
    }
}

#[test]
fn coordinates_stay_bounded_while_growing() {
    let mut sim = DifferentialGrowth::new(
        square_on_circle_radius_10(),
        2000,
        3000,
        15_000,
        2000,
        6000,
        Topology::Closed,
        SearchStrategy::SpatialIndex,
    )
    .unwrap();
    for _ in 0..50 {
        sim.tick();
        for p in sim.export_positions() {
            assert!(p.x.abs() <= COORD_LIMIT && p.y.abs() <= COORD_LIMIT);
        }
    }
}

#[test]
fn coordinates_stay_bounded_over_a_thousand_ticks() {
    // a long-lived session: edges never pass max_edge_length here, so the
    // node count stays put while the forces keep acting
    let mut sim = DifferentialGrowth::new(
        square_on_circle_radius_10(),
        1000,
        2000,
        12_000,
        1500,
        900_000,
        Topology::Closed,
        SearchStrategy::BruteForce,
    )
    .unwrap();
    for _ in 0..1000 {
        sim.tick();
    }
    assert_eq!(sim.node_count(), 4);
    for p in sim.export_positions() {
        assert!(p.x.abs() <= COORD_LIMIT && p.y.abs() <= COORD_LIMIT);
    }
}
