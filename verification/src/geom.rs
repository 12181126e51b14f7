//! Exact integer plane geometry: positions, squared distances, an integer
//! square root, and sign-aware scaled division. Everything the growth engine
//! measures is derived from these primitives.

use vstd::prelude::*;

verus! {

/// Largest coordinate magnitude a position may have. Growth proposals that
/// would leave the box `[-POS_LIMIT, POS_LIMIT]^2` are rejected, which keeps
/// every distance computation inside machine ranges.
pub const POS_LIMIT: i64 = 0x2000_0000;

/// Largest magnitude a configured distance or displacement parameter may have.
pub const DIST_LIMIT: u64 = 0x4000_0000;

/// A position or displacement in the plane, in caller-chosen integer units.
#[derive(Clone, Copy, Debug, PartialEq, Eq, Structural)]
pub struct Vec2 {
    pub x: i64,
    pub y: i64,
}

pub open spec fn abs_i(a: int) -> int {
    if a >= 0 {
        a
    } else {
        -a
    }
}

pub open spec fn in_box(v: Vec2, b: int) -> bool {
    -b <= v.x <= b && -b <= v.y <= b
}

/// Squared Euclidean distance between two positions, as unbounded math.
pub open spec fn dist_sq(a: Vec2, b: Vec2) -> int {
    (a.x - b.x) * (a.x - b.x) + (a.y - b.y) * (a.y - b.y)
}

pub proof fn lemma_square_bound(a: int, b: int)
    requires
        -b <= a <= b,
    ensures
        0 <= a * a <= b * b,
{
    assert(0 <= a * a <= b * b) by (nonlinear_arith)
        requires
            -b <= a <= b,
    ;
}

/// Squared distance, computed exactly for positions inside the box.
pub fn dist_sq_u64(a: Vec2, b: Vec2) -> (r: u64)
    requires
        in_box(a, POS_LIMIT as int),
        in_box(b, POS_LIMIT as int),
    ensures
        r as int == dist_sq(a, b),
{
    let dx: i64 = a.x - b.x;
    let dy: i64 = a.y - b.y;
    proof {
        lemma_square_bound(dx as int, 2 * POS_LIMIT as int);
        lemma_square_bound(dy as int, 2 * POS_LIMIT as int);
    }
    let s: i128 = (dx as i128) * (dx as i128) + (dy as i128) * (dy as i128);
    s as u64
}

pub open spec fn is_sqrt_floor(n: int, r: int) -> bool {
    0 <= r && r * r <= n && n < (r + 1) * (r + 1)
}

/// The integer square root (rounded down) of a non-negative value.
pub open spec fn sqrt_floor(n: int) -> int {
    choose|r: int| is_sqrt_floor(n, r)
}

pub proof fn lemma_sqrt_floor_unique(n: int, r: int)
    requires
        is_sqrt_floor(n, r),
    ensures
        sqrt_floor(n) == r,
{
    assert(is_sqrt_floor(n, sqrt_floor(n))) by {
        assert(exists|q: int| is_sqrt_floor(n, q));
    }
    let r2 = sqrt_floor(n);
    assert(r == r2) by (nonlinear_arith)
        requires
            is_sqrt_floor(n, r),
            is_sqrt_floor(n, r2),
    ;
}

/// Integer square root by bisection.
pub fn isqrt(n: u128) -> (r: u64)
    ensures
        is_sqrt_floor(n as int, r as int),
        r as int == sqrt_floor(n as int),
{
    let mut lo: u128 = 0;
    let mut hi: u128 = 0x1_0000_0000_0000_0000;
    assert((n as int) < (hi as int) * (hi as int)) by (nonlinear_arith)
        requires
            n < 0x1_0000_0000_0000_0000_0000_0000_0000_0000,
            hi == 0x1_0000_0000_0000_0000int,
    ;
    while hi - lo > 1
        invariant
            lo < hi <= 0x1_0000_0000_0000_0000,
            (lo as int) * (lo as int) <= n as int,
            (n as int) < (hi as int) * (hi as int),
        decreases hi - lo,
    {
        let mid: u128 = lo + (hi - lo) / 2;
        assert((mid as int) * (mid as int) < 0x1_0000_0000_0000_0000_0000_0000_0000_0000int)
            by (nonlinear_arith)
            requires
                mid < 0x1_0000_0000_0000_0000,
        ;
        if mid * mid <= n {
            lo = mid;
        } else {
            hi = mid;
        }
    }
    proof {
        lemma_sqrt_floor_unique(n as int, lo as int);
    }
    lo as u64
}

/// `a * m / d` with the division rounded toward zero, for `m, d >= 0`.
pub open spec fn mul_div(a: int, m: int, d: int) -> int {
    if a >= 0 {
        (a * m) / d
    } else {
        -(((-a) * m) / d)
    }
}

pub proof fn lemma_div_shrinks(a: int, d: int)
    requires
        0 <= a,
        1 <= d,
    ensures
        0 <= a / d <= a,
{
    assert(0 <= a / d <= a) by (nonlinear_arith)
        requires
            0 <= a,
            1 <= d,
    ;
}

/// If `|a| <= d`, then `|a * m / d| <= m`: scaling a component of a vector by
/// `m / d` where `d` bounds the component cannot exceed `m`.
pub proof fn lemma_mul_div_le(a: int, m: int, d: int)
    requires
        1 <= d,
        0 <= m,
        abs_i(a) <= d,
    ensures
        abs_i(mul_div(a, m, d)) <= m,
{
    let au = abs_i(a);
    assert(au * m <= d * m) by (nonlinear_arith)
        requires
            0 <= au <= d,
            0 <= m,
    ;
    assert((au * m) / d <= (d * m) / d) by (nonlinear_arith)
        requires
            0 <= au * m <= d * m,
            1 <= d,
    ;
    assert((d * m) / d == m) by (nonlinear_arith)
        requires
            1 <= d,
    ;
    lemma_div_shrinks(au * m, d);
}

/// If `m <= d`, scaling by `m / d` cannot grow a value.
pub proof fn lemma_mul_div_damps(a: int, m: int, d: int)
    requires
        1 <= d,
        0 <= m <= d,
    ensures
        abs_i(mul_div(a, m, d)) <= abs_i(a),
{
    let au = abs_i(a);
    assert(au * m <= au * d) by (nonlinear_arith)
        requires
            0 <= au,
            0 <= m <= d,
    ;
    assert((au * m) / d <= (au * d) / d) by (nonlinear_arith)
        requires
            0 <= au * m <= au * d,
            1 <= d,
    ;
    assert((au * d) / d == au) by (nonlinear_arith)
        requires
            1 <= d,
            0 <= au,
    ;
    lemma_div_shrinks(au * m, d);
}

/// Each coordinate difference is bounded by the distance.
pub proof fn lemma_component_bound(a: Vec2, b: Vec2, r: int)
    requires
        0 <= r,
        dist_sq(a, b) < r * r,
    ensures
        -r < a.x - b.x < r,
        -r < a.y - b.y < r,
{
    assert(-r < a.x - b.x < r && -r < a.y - b.y < r) by (nonlinear_arith)
        requires
            0 <= r,
            (a.x - b.x) * (a.x - b.x) + (a.y - b.y) * (a.y - b.y) < r * r,
    ;
}

/// `a * m / d` computed exactly, rounding toward zero.
pub fn scale_div(a: i64, m: u64, d: u64) -> (r: i64)
    requires
        1 <= d,
        abs_i(mul_div(a as int, m as int, d as int)) <= i64::MAX as int,
    ensures
        r as int == mul_div(a as int, m as int, d as int),
{
    let au: u64 = if a >= 0 {
        a as u64
    } else {
        (-(a as i128)) as u64
    };
    assert(au as int == abs_i(a as int));
    assert((au as int) * (m as int) < 0x1_0000_0000_0000_0000_0000_0000_0000_0000int)
        by (nonlinear_arith)
        requires
            au <= 0x8000_0000_0000_0000u128,
            m < 0x1_0000_0000_0000_0000u128,
    ;
    let q: u128 = (au as u128) * (m as u128) / (d as u128);
    proof {
        lemma_div_shrinks((au as int) * (m as int), d as int);
        assert(q as int == ((au as int) * (m as int)) / (d as int));
        assert(abs_i(mul_div(a as int, m as int, d as int)) == q as int);
    }
    let qi: i64 = q as i64;
    if a < 0 {
        -qi
    } else {
        qi
    }
}

} // verus!
