//! Bounded fixed-point arithmetic: the coordinate range, saturating addition,
//! truncating halving and division, and an integer square root. Every position
//! the simulation stores lies in `[-COORD_LIMIT, COORD_LIMIT]`, which keeps
//! all the arithmetic below free of overflow.

use vstd::prelude::*;

verus! {

/// Positions and previous positions stay within this range.
pub const COORD_LIMIT: i64 = 1073741824;

/// Simulation rectangles (left, bottom, left + width, bottom + height) stay
/// within this tighter range, so a wall clamp to `boundary + radius` is still
/// a valid coordinate.
pub const BOUNDS_LIMIT: i64 = 536870912;

/// Particle and pointer radii stay within (0, RADIUS_LIMIT].
pub const RADIUS_LIMIT: i64 = 1048576;

/// Acceleration components stay within this range.
pub const ACCEL_LIMIT: i64 = 4398046511104;

pub open spec fn coord_ok(c: int) -> bool {
    -(COORD_LIMIT as int) <= c <= COORD_LIMIT as int
}

pub open spec fn bound_ok(c: int) -> bool {
    -(BOUNDS_LIMIT as int) <= c <= BOUNDS_LIMIT as int
}

pub open spec fn radius_ok(r: int) -> bool {
    0 < r <= RADIUS_LIMIT as int
}

pub open spec fn accel_ok(a: int) -> bool {
    -(ACCEL_LIMIT as int) <= a <= ACCEL_LIMIT as int
}

/// The value `v` brought back into the coordinate range.
pub open spec fn clamp_coord(v: int) -> int {
    if v > COORD_LIMIT as int {
        COORD_LIMIT as int
    } else if v < -(COORD_LIMIT as int) {
        -(COORD_LIMIT as int)
    } else {
        v
    }
}

/// `a + b`, saturating at the coordinate range.
pub fn add_clamped(a: i64, b: i64) -> (r: i64)
    requires
        -0x2000000000000000 <= a <= 0x2000000000000000,
        -0x2000000000000000 <= b <= 0x2000000000000000,
    ensures
        r as int == clamp_coord(a + b),
{
    let s: i64 = a + b;
    if s > COORD_LIMIT {
        COORD_LIMIT
    } else if s < -COORD_LIMIT {
        -COORD_LIMIT
    } else {
        s
    }
}

/// `v` brought back into the coordinate range.
pub fn clamp_fixed(v: i64) -> (r: i64)
    ensures
        r as int == clamp_coord(v as int),
{
    if v > COORD_LIMIT {
        COORD_LIMIT
    } else if v < -COORD_LIMIT {
        -COORD_LIMIT
    } else {
        v
    }
}

/// Division truncating toward zero, for a positive divisor.
pub open spec fn div_z(a: int, d: int) -> int
    recommends
        d > 0,
{
    if a >= 0 {
        a / d
    } else {
        -((-a) / d)
    }
}

/// `a / d` truncating toward zero.
pub fn div_trunc(a: i64, d: i64) -> (r: i64)
    requires
        d > 0,
        a > i64::MIN,
    ensures
        r as int == div_z(a as int, d as int),
        a >= 0 ==> 0 <= r <= a,
        a < 0 ==> a <= r <= 0,
{
    if a >= 0 {
        let q: u64 = (a as u64) / (d as u64);
        assert(q == (a as int) / (d as int));
        assert(q <= a as int) by (nonlinear_arith)
            requires
                q == (a as int) / (d as int),
                a >= 0,
                d >= 1,
        ;
        q as i64
    } else {
        let m: u64 = (-a) as u64;
        let q: u64 = m / (d as u64);
        assert(q == (-(a as int)) / (d as int));
        assert(q <= -(a as int)) by (nonlinear_arith)
            requires
                q == (-(a as int)) / (d as int),
                a < 0,
                d >= 1,
        ;
        -(q as i64)
    }
}

/// `v / 2` truncating toward zero.
pub fn half_trunc(v: i64) -> (r: i64)
    requires
        v > i64::MIN,
    ensures
        r as int == div_z(v as int, 2),
{
    div_trunc(v, 2)
}

/// The floor of the square root of `n` (zero when `n` is negative).
pub open spec fn sqrt_floor(n: int) -> int
    decreases n,
{
    if n < 1 {
        0
    } else {
        let s = sqrt_floor(n - 1);
        if (s + 1) * (s + 1) <= n {
            s + 1
        } else {
            s
        }
    }
}

/// `sqrt_floor(n)` is the unique non-negative `s` with `s * s <= n < (s + 1) * (s + 1)`.
pub proof fn lemma_sqrt_floor_props(n: int)
    requires
        n >= 0,
    ensures
        0 <= sqrt_floor(n),
        sqrt_floor(n) * sqrt_floor(n) <= n,
        n < (sqrt_floor(n) + 1) * (sqrt_floor(n) + 1),
    decreases n,
{
    if n < 1 {
        assert(sqrt_floor(n) == 0);
    } else {
        lemma_sqrt_floor_props(n - 1);
        let s = sqrt_floor(n - 1);
        if (s + 1) * (s + 1) <= n {
            assert(n - 1 < (s + 1) * (s + 1));
            assert((s + 1) * (s + 1) < (s + 2) * (s + 2)) by (nonlinear_arith)
                requires
                    s >= 0,
            ;
        }
    }
}

/// Any non-negative `a` with `a * a <= n < (a + 1) * (a + 1)` equals `sqrt_floor(n)`.
pub proof fn lemma_sqrt_floor_unique(n: int, a: int)
    requires
        n >= 0,
        a >= 0,
        a * a <= n,
        n < (a + 1) * (a + 1),
    ensures
        a == sqrt_floor(n),
{
    lemma_sqrt_floor_props(n);
    let s = sqrt_floor(n);
    assert(a == s) by (nonlinear_arith)
        requires
            a >= 0,
            s >= 0,
            a * a <= n,
            n < (a + 1) * (a + 1),
            s * s <= n,
            n < (s + 1) * (s + 1),
    ;
}

/// The integer square root, by bisection.
pub fn isqrt(n: u64) -> (r: u64)
    ensures
        r as int == sqrt_floor(n as int),
        r * r <= n,
{
    if n == 0 {
        proof {
            lemma_sqrt_floor_unique(n as int, 0);
        }
        return 0;
    }
    let mut lo: u64 = 0;
    let mut hi: u64 = 4294967296;
    proof {
        assert((hi as int) * (hi as int) > n as int) by (nonlinear_arith)
            requires
                hi == 4294967296,
                n <= 0xffffffffffffffffu64,
        ;
    }
    while lo + 1 < hi
        invariant
            0 <= lo < hi <= 4294967296,
            (lo as int) * (lo as int) <= n as int,
            (n as int) < (hi as int) * (hi as int),
        decreases hi - lo,
    {
        let mid: u64 = lo + (hi - lo) / 2;
        proof {
            assert((mid as int) * (mid as int) <= 4294967296 * 4294967296) by (nonlinear_arith)
                requires
                    0 <= mid <= 4294967296,
            ;
        }
        let sq: u128 = (mid as u128) * (mid as u128);
        if sq <= n as u128 {
            lo = mid;
        } else {
            hi = mid;
        }
    }
    proof {
        lemma_sqrt_floor_unique(n as int, lo as int);
    }
    lo
}

} // verus!
