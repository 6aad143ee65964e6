//! Scalar and vector building blocks on concrete values.

use differential_growth::math::{div_trunc, isqrt, sqrt_ceil};
use differential_growth::vec2::{limit, mag_sq_exec, midpoint, set_magnitude, Vec2};

#[test]
fn div_trunc_rounds_toward_zero() {
    assert_eq!(div_trunc(7, 2), 3);
    assert_eq!(div_trunc(-7, 2), -3);
    assert_eq!(div_trunc(0, 5), 0);
    assert_eq!(div_trunc(9, 3), 3);
    assert_eq!(div_trunc(-9, 3), -3);
    assert_eq!(div_trunc(1, 1_000_000), 0);
    assert_eq!(div_trunc(-1, 1_000_000), 0);
}

#[test]
fn isqrt_exact_values() {
    assert_eq!(isqrt(0), 0);
    assert_eq!(isqrt(1), 1);
    assert_eq!(isqrt(2), 1);
    assert_eq!(isqrt(3), 1);
    assert_eq!(isqrt(4), 2);
    assert_eq!(isqrt(99), 9);
    assert_eq!(isqrt(100), 10);
    assert_eq!(isqrt(101), 10);
    assert_eq!(isqrt(25_000_000), 5000);
    assert_eq!(isqrt(1_000_000_000_000_000_000), 1_000_000_000);
}

#[test]
fn sqrt_ceil_exact_values() {
    assert_eq!(sqrt_ceil(0), 0);
    assert_eq!(sqrt_ceil(1), 1);
    assert_eq!(sqrt_ceil(2), 2);
    assert_eq!(sqrt_ceil(4), 2);
    assert_eq!(sqrt_ceil(99), 10);
    assert_eq!(sqrt_ceil(100), 10);
    assert_eq!(sqrt_ceil(101), 11);
}

#[test]
fn mag_sq_of_vector() {
    let v = Vec2 { x: 3, y: -4 };
    assert_eq!(mag_sq_exec(v), 25);
    assert_eq!(mag_sq_exec(Vec2 { x: 0, y: 0 }), 0);
}

#[test]
fn set_magnitude_on_three_four_five() {
    // |(3000, 4000)| = 5000 exactly, so rescaling to 1000 gives (600, 800).
    let v = Vec2 { x: 3000, y: 4000 };
    let r = set_magnitude(v, 1000);
    assert_eq!(r, Vec2 { x: 600, y: 800 });
    assert_eq!(mag_sq_exec(r), 1_000_000);
}

#[test]
fn set_magnitude_never_exceeds_target() {
    // |(1, 1)|^2 = 2: the ceiling square root (2) divides, so the result's
    // magnitude stays at or below the target.
    let r = set_magnitude(Vec2 { x: 1, y: 1 }, 5);
    assert_eq!(r, Vec2 { x: 2, y: 2 });
    assert!(mag_sq_exec(r) <= 25);
}

#[test]
fn limit_leaves_short_vectors_alone() {
    let v = Vec2 { x: 30, y: 40 };
    assert_eq!(limit(v, 50), v);
    assert_eq!(limit(v, 51), v);
}

#[test]
fn limit_clamps_long_vectors() {
    let v = Vec2 { x: 3000, y: 4000 };
    let r = limit(v, 1000);
    assert_eq!(r, Vec2 { x: 600, y: 800 });
    assert!(mag_sq_exec(r) <= 1_000_000);
}

#[test]
fn midpoint_averages_componentwise() {
    let a = Vec2 { x: 1000, y: 3000 };
    let b = Vec2 { x: 3000, y: 5000 };
    assert_eq!(midpoint(a, b), Vec2 { x: 2000, y: 4000 });
    // odd sums truncate toward zero
    assert_eq!(midpoint(Vec2 { x: 0, y: 0 }, Vec2 { x: 3, y: -3 }), Vec2 { x: 1, y: -1 });
}
