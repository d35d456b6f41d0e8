//! Fixed-point vectors and the integer arithmetic the simulation is built on.

use vstd::prelude::*;

verus! {

/// Number of fixed-point steps in one length unit of the simulation.
pub const UNIT: i64 = 1_000_000;

/// Largest magnitude a position coordinate may take (2^40 steps).
pub const COORD_LIMIT: i64 = 1_099_511_627_776;

/// A two-dimensional fixed-point vector.
#[derive(Clone, Copy, Debug, PartialEq, Eq, Structural)]
pub struct Vec2 {
    pub x: i64,
    pub y: i64,
}

impl Vec2 {
    pub fn new(x: i64, y: i64) -> (r: Vec2)
        ensures
            r.x == x,
            r.y == y,
    {
        Vec2 { x, y }
    }

    pub fn zero() -> (r: Vec2)
        ensures
            r.x == 0,
            r.y == 0,
    {
        Vec2 { x: 0, y: 0 }
    }
}

/// Integer division rounding toward zero, as Rust's `/` does.
pub open spec fn trunc_div(a: int, b: int) -> int {
    if a >= 0 {
        a / b
    } else {
        -((-a) / b)
    }
}

/// Integer division rounding to the nearest integer, halves away from zero.
pub open spec fn round_div(a: int, b: int) -> int {
    if a >= 0 {
        (2 * a + b) / (2 * b)
    } else {
        -((-2 * a + b) / (2 * b))
    }
}

pub open spec fn abs(a: int) -> int {
    if a >= 0 {
        a
    } else {
        -a
    }
}

/// `r` is the integer square root of `n`, rounded down.
pub open spec fn is_sqrt_floor(n: int, r: int) -> bool {
    0 <= r && r * r <= n < (r + 1) * (r + 1)
}

/// The integer square root of `n`, rounded down.
pub open spec fn sqrt_floor(n: int) -> int {
    choose|r: int| is_sqrt_floor(n, r)
}

pub proof fn lemma_square_monotone(a: int, b: int)
    requires
        0 <= a <= b,
    ensures
        a * a <= b * b,
{
    assert(a * a <= a * b) by (nonlinear_arith)
        requires
            0 <= a <= b,
    ;
    assert(a * b <= b * b) by (nonlinear_arith)
        requires
            0 <= a <= b,
    ;
}

/// Every non-negative integer has a rounded-down square root.
pub proof fn lemma_sqrt_floor_exists(n: int)
    requires
        n >= 0,
    ensures
        is_sqrt_floor(n, sqrt_floor(n)),
    decreases n,
{
    if n == 0 {
        assert(is_sqrt_floor(0, 0));
    } else {
        lemma_sqrt_floor_exists(n - 1);
        let r = sqrt_floor(n - 1);
        if (r + 1) * (r + 1) <= n {
            assert((r + 2) * (r + 2) == (r + 1) * (r + 1) + 2 * r + 3) by (nonlinear_arith);
            assert(r * r >= 0) by (nonlinear_arith);
            assert(is_sqrt_floor(n, r + 1));
        } else {
            assert(is_sqrt_floor(n, r));
        }
    }
}

/// The rounded-down square root is unique, so `sqrt_floor` names it.
pub proof fn lemma_sqrt_floor_unique(n: int, r: int)
    requires
        is_sqrt_floor(n, r),
    ensures
        sqrt_floor(n) == r,
{
    let s = sqrt_floor(n);
    assert(is_sqrt_floor(n, s));
    if s < r {
        lemma_square_monotone(s + 1, r);
    } else if r < s {
        lemma_square_monotone(r + 1, s);
    }
}

/// Scaling by `t / w` with `|t| <= w` and rounding toward zero never grows a
/// magnitude.
pub proof fn lemma_trunc_div_scaled(m: int, t: int, w: int)
    requires
        w > 0,
        abs(t) <= w,
    ensures
        abs(trunc_div(m * t, w)) <= abs(m),
        abs(trunc_div(m * t, w)) == abs(m * t) / w,
{
    let a = m * t;
    assert(abs(a) == abs(m) * abs(t)) by (nonlinear_arith)
        requires
            a == m * t,
    ;
    assert(abs(m) * abs(t) <= abs(m) * w) by (nonlinear_arith)
        requires
            abs(t) <= w,
    ;
    vstd::arithmetic::div_mod::lemma_div_is_ordered(abs(a), abs(m) * w, w);
    vstd::arithmetic::div_mod::lemma_div_by_multiple(abs(m), w);
    vstd::arithmetic::div_mod::lemma_div_is_ordered(0, abs(a), w);
}

/// Division rounding toward zero; the divisor is positive.
pub fn trunc_div_i128(a: i128, b: i128) -> (r: i128)
    requires
        b > 0,
        a > i128::MIN,
    ensures
        r == trunc_div(a as int, b as int),
        abs(r as int) <= abs(a as int),
{
    if a >= 0 {
        assert(a / b <= a) by (nonlinear_arith)
            requires
                a >= 0,
                b > 0,
        ;
        a / b
    } else {
        let n = -a;
        assert(n / b <= n) by (nonlinear_arith)
            requires
                n >= 0,
                b > 0,
        ;
        -(n / b)
    }
}

/// Division rounding to the nearest integer, halves away from zero; the
/// divisor is positive.
pub fn round_div_i64(a: i64, b: i64) -> (r: i64)
    requires
        b > 0,
        -0x4000_0000_0000_0000 < a < 0x4000_0000_0000_0000,
        b < 0x4000_0000_0000_0000,
    ensures
        r == round_div(a as int, b as int),
        abs(r as int) <= abs(a as int) + 1,
{
    let a2 = a as i128;
    let b2 = b as i128;
    if a >= 0 {
        let n = 2 * a2 + b2;
        let d = 2 * b2;
        let q = n / d;
        assert(q <= a2 + 1) by (nonlinear_arith)
            requires
                q == n / d,
                d == 2 * b2,
                n == 2 * a2 + b2,
                a2 >= 0,
                b2 > 0,
        ;
        q as i64
    } else {
        let n = -2 * a2 + b2;
        let d = 2 * b2;
        let q = n / d;
        assert(q <= -a2 + 1) by (nonlinear_arith)
            requires
                q == n / d,
                d == 2 * b2,
                n == -2 * a2 + b2,
                a2 < 0,
                b2 > 0,
        ;
        -(q as i64)
    }
}

/// The integer square root of `n`, rounded down.
pub fn isqrt(n: u128) -> (r: u64)
    requires
        n < 0x100_0000_0000_0000_0000_0000_0000_0000,
    ensures
        is_sqrt_floor(n as int, r as int),
        r == sqrt_floor(n as int),
{
    let mut lo: u128 = 0;
    let mut hi: u128 = 0x1000_0000_0000_0000;
    assert(0x1000_0000_0000_0000u128 * 0x1000_0000_0000_0000u128
        == 0x100_0000_0000_0000_0000_0000_0000_0000u128);
    while lo + 1 < hi
        invariant
            lo < hi <= 0x1000_0000_0000_0000,
            lo * lo <= n,
            n < hi * hi,
        decreases hi - lo,
    {
        let mid = lo + (hi - lo) / 2;
        assert(mid * mid <= 0x100_0000_0000_0000_0000_0000_0000_0000) by {
            lemma_square_monotone(mid as int, 0x1000_0000_0000_0000);
        }
        if mid * mid <= n {
            lo = mid;
        } else {
            hi = mid;
        }
    }
    proof {
        lemma_sqrt_floor_unique(n as int, lo as int);
    }
    lo as u64
}

} // verus!
