//! Fixed-point 2D vectors: an exact integer model (`V2`), its executable
//! counterpart (`Vec2`), and the magnitude operations of the force model.

use vstd::prelude::*;
use crate::math::{
    div_trunc, lemma_sqrt_ceil_bounds, lemma_trunc_div_range, lemma_trunc_div_times_divisor,
    sqrt_ceil, sqrt_ceil_spec, trunc_div,
};

verus! {

/// Largest component magnitude the vector helpers accept; every intermediate
/// the engine produces stays far below it, and it keeps all products within
/// `i128`.
pub const VEC_LIMIT: i64 = 0x10_0000_0000_0000;

/// Mathematical model of a 2D vector: unbounded integer components.
pub struct V2 {
    pub x: int,
    pub y: int,
}

impl V2 {
    pub open spec fn zero() -> V2 {
        V2 { x: 0, y: 0 }
    }

    pub open spec fn is_zero(self) -> bool {
        self.x == 0 && self.y == 0
    }

    pub open spec fn plus(self, o: V2) -> V2 {
        V2 { x: self.x + o.x, y: self.y + o.y }
    }

    pub open spec fn minus(self, o: V2) -> V2 {
        V2 { x: self.x - o.x, y: self.y - o.y }
    }

    /// Squared Euclidean magnitude. Comparisons against a radius `r` are made
    /// as `mag_sq < r * r`, which is exact: no square root is rounded.
    pub open spec fn mag_sq(self) -> int {
        self.x * self.x + self.y * self.y
    }

    /// The vector rescaled to magnitude (at most) `m`: each component is
    /// multiplied by `m` and divided, truncating, by the ceiling square root
    /// of `mag_sq`. Dividing by the ceiling guarantees the result's magnitude
    /// never exceeds `m` (`lemma_with_magnitude_bound`).
    pub open spec fn with_magnitude(self, m: int) -> V2
        recommends
            !self.is_zero(),
            m >= 0,
    {
        let sc = sqrt_ceil_spec(self.mag_sq() as nat) as int;
        V2 { x: trunc_div(self.x * m, sc), y: trunc_div(self.y * m, sc) }
    }

    /// Magnitude-clamping: rescale to `m` only when the true magnitude
    /// exceeds `m` (checked exactly on squares).
    pub open spec fn limited(self, m: int) -> V2
        recommends
            m >= 0,
    {
        if self.mag_sq() > m * m {
            self.with_magnitude(m)
        } else {
            self
        }
    }

    /// Componentwise midpoint, truncating toward zero on odd sums.
    pub open spec fn midpoint_with(self, o: V2) -> V2 {
        V2 { x: trunc_div(self.x + o.x, 2), y: trunc_div(self.y + o.y, 2) }
    }

    /// Both components lie in `[-limit, limit]`.
    pub open spec fn in_box(self, limit: int) -> bool {
        -limit <= self.x <= limit && -limit <= self.y <= limit
    }
}

/// `mag_sq` is nonnegative, zero exactly on the zero vector, and bounds each
/// component's square.
pub proof fn lemma_mag_sq_basics(v: V2)
    ensures
        v.mag_sq() >= 0,
        v.is_zero() <==> v.mag_sq() == 0,
        !v.is_zero() ==> v.mag_sq() >= 1,
        0 <= v.x * v.x <= v.mag_sq(),
        0 <= v.y * v.y <= v.mag_sq(),
{
    assert(v.x * v.x >= 0 && v.y * v.y >= 0 && (v.x != 0 ==> v.x * v.x >= 1) && (v.y != 0
        ==> v.y * v.y >= 1)) by (nonlinear_arith);
}

/// Distance is symmetric: the two differences of a pair have one squared
/// magnitude.
pub proof fn lemma_mag_sq_opposite(a: V2, b: V2)
    ensures
        a.minus(b).mag_sq() == b.minus(a).mag_sq(),
{
    let d = a.minus(b);
    let e = b.minus(a);
    assert(d.x * d.x == e.x * e.x && d.y * d.y == e.y * e.y) by (nonlinear_arith)
        requires
            d.x == -e.x,
            d.y == -e.y,
    ;
}

/// A vector whose squared magnitude is at most `m * m` has both components
/// in `[-m, m]`.
pub proof fn lemma_components_within(v: V2, m: int)
    requires
        v.mag_sq() <= m * m,
        m >= 0,
    ensures
        v.in_box(m),
{
    assert(-m <= v.x <= m && -m <= v.y <= m) by (nonlinear_arith)
        requires
            v.x * v.x + v.y * v.y <= m * m,
            m >= 0,
    ;
}

/// Rescaling to magnitude `m` really caps the magnitude at `m`.
pub proof fn lemma_with_magnitude_bound(v: V2, m: int)
    requires
        !v.is_zero(),
        m >= 0,
    ensures
        v.with_magnitude(m).mag_sq() <= m * m,
        v.with_magnitude(m).in_box(m),
{
    lemma_mag_sq_basics(v);
    let q = v.mag_sq() as nat;
    lemma_sqrt_ceil_bounds(q);
    let sc = sqrt_ceil_spec(q) as int;
    let ax = v.x * m;
    let ay = v.y * m;
    let xr = trunc_div(ax, sc);
    let yr = trunc_div(ay, sc);
    lemma_trunc_div_times_divisor(ax, sc);
    lemma_trunc_div_times_divisor(ay, sc);
    assert(xr * xr * (sc * sc) <= (v.x * v.x) * (m * m)) by (nonlinear_arith)
        requires
            ax == v.x * m,
            (ax >= 0 ==> 0 <= xr * sc <= ax) && (ax < 0 ==> ax <= xr * sc <= 0),
    ;
    assert(yr * yr * (sc * sc) <= (v.y * v.y) * (m * m)) by (nonlinear_arith)
        requires
            ay == v.y * m,
            (ay >= 0 ==> 0 <= yr * sc <= ay) && (ay < 0 ==> ay <= yr * sc <= 0),
    ;
    assert((xr * xr + yr * yr) * (sc * sc) <= (sc * sc) * (m * m)) by (nonlinear_arith)
        requires
            xr * xr * (sc * sc) <= (v.x * v.x) * (m * m),
            yr * yr * (sc * sc) <= (v.y * v.y) * (m * m),
            v.x * v.x + v.y * v.y <= sc * sc,
            m >= 0,
            0 <= v.x * v.x,
            0 <= v.y * v.y,
    ;
    assert(xr * xr + yr * yr <= m * m) by (nonlinear_arith)
        requires
            (xr * xr + yr * yr) * (sc * sc) <= (sc * sc) * (m * m),
            sc >= 1,
    ;
    lemma_components_within(v.with_magnitude(m), m);
}

/// Clamping to magnitude `m` leaves the magnitude at most `m`, so both
/// components land in `[-m, m]`.
pub proof fn lemma_limited_bound(v: V2, m: int)
    requires
        m >= 0,
    ensures
        v.limited(m).mag_sq() <= m * m,
        v.limited(m).in_box(m),
{
    if v.mag_sq() > m * m {
        lemma_mag_sq_basics(v);
        lemma_with_magnitude_bound(v, m);
    } else {
        lemma_components_within(v, m);
    }
}

/// Executable fixed-point 2D vector.
#[derive(Clone, Copy, PartialEq, Eq, Structural, Debug)]
pub struct Vec2 {
    pub x: i64,
    pub y: i64,
}

impl View for Vec2 {
    type V = V2;

    open spec fn view(&self) -> V2 {
        V2 { x: self.x as int, y: self.y as int }
    }
}

impl Vec2 {
    pub fn new(x: i64, y: i64) -> (r: Vec2)
        ensures
            r@ == (V2 { x: x as int, y: y as int }),
    {
        Vec2 { x, y }
    }

    pub fn zero() -> (r: Vec2)
        ensures
            r@ == V2::zero(),
    {
        Vec2 { x: 0, y: 0 }
    }
}

/// Squared magnitude, exact in `i128`.
pub fn mag_sq_exec(v: Vec2) -> (q: i128)
    requires
        v@.in_box(VEC_LIMIT as int),
    ensures
        q == v@.mag_sq(),
        0 <= q < 0x4000_0000_0000_0000_0000_0000_0000_0000i128,
{
    proof {
        lemma_mag_sq_basics(v@);
        assert(v@.mag_sq() < 0x4000_0000_0000_0000_0000_0000_0000_0000int) by (nonlinear_arith)
            requires
                v@.in_box(VEC_LIMIT as int),
                v@.mag_sq() == (v.x as int) * (v.x as int) + (v.y as int) * (v.y as int),
                VEC_LIMIT == 0x10_0000_0000_0000i64,
        ;
    }
    let x = v.x as i128;
    let y = v.y as i128;
    x * x + y * y
}

/// The vector rescaled to magnitude (at most) `m`.
pub fn set_magnitude(v: Vec2, m: i64) -> (r: Vec2)
    requires
        v@.in_box(VEC_LIMIT as int),
        !v@.is_zero(),
        m >= 0,
    ensures
        r@ == v@.with_magnitude(m as int),
        r@.in_box(m as int),
        r@.mag_sq() <= m * m,
{
    proof {
        lemma_mag_sq_basics(v@);
        lemma_with_magnitude_bound(v@, m as int);
    }
    let q = mag_sq_exec(v);
    let sc128 = sqrt_ceil(q as u128) as i128;
    let xi = v.x as i128;
    let yi = v.y as i128;
    let mi = m as i128;
    proof {
        lemma_sqrt_ceil_bounds(v@.mag_sq() as nat);
        assert(-0x8000_0000_0000_0000_0000_0000_0000_0000int <= (xi as int) * (mi as int)
            < 0x8000_0000_0000_0000_0000_0000_0000_0000int && -0x8000_0000_0000_0000_0000_0000_0000_0000int
            <= (yi as int) * (mi as int)
            < 0x8000_0000_0000_0000_0000_0000_0000_0000int) by (nonlinear_arith)
            requires
                -0x10_0000_0000_0000 <= (xi as int) <= 0x10_0000_0000_0000,
                -0x10_0000_0000_0000 <= (yi as int) <= 0x10_0000_0000_0000,
                0 <= (mi as int) < 0x8000_0000_0000_0000,
        ;
    }
    let xr = div_trunc(xi * mi, sc128);
    let yr = div_trunc(yi * mi, sc128);
    Vec2 { x: xr as i64, y: yr as i64 }
}

/// Magnitude clamp: `v` unchanged when its magnitude is at most `m`, else
/// rescaled to `m`.
pub fn limit(v: Vec2, m: i64) -> (r: Vec2)
    requires
        v@.in_box(VEC_LIMIT as int),
        m >= 0,
    ensures
        r@ == v@.limited(m as int),
        r@.mag_sq() <= m * m,
        r@.in_box(m as int),
{
    let mi = m as i128;
    proof {
        lemma_limited_bound(v@, m as int);
        assert((mi as int) * (mi as int) < 0x8000_0000_0000_0000_0000_0000_0000_0000int)
            by (nonlinear_arith)
            requires
                0 <= (mi as int) < 0x8000_0000_0000_0000,
        ;
    }
    let q = mag_sq_exec(v);
    if q > mi * mi {
        proof {
            lemma_mag_sq_basics(v@);
        }
        set_magnitude(v, m)
    } else {
        v
    }
}

/// Componentwise midpoint, truncating toward zero.
pub fn midpoint(a: Vec2, b: Vec2) -> (r: Vec2)
    requires
        a@.in_box(VEC_LIMIT as int),
        b@.in_box(VEC_LIMIT as int),
    ensures
        r@ == a@.midpoint_with(b@),
{
    proof {
        lemma_trunc_div_range(a.x as int + b.x as int, 2);
        lemma_trunc_div_range(a.y as int + b.y as int, 2);
    }
    let xr = div_trunc(a.x as i128 + b.x as i128, 2);
    let yr = div_trunc(a.y as i128 + b.y as i128, 2);
    Vec2 { x: xr as i64, y: yr as i64 }
}

} // verus!
