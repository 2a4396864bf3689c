//! Integer plane geometry: points and vectors in fixed units, saturation and the
//! integer square root that distances are measured with.
use vstd::prelude::*;

verus! {

/// Coordinates of every position lie in `[-COORD_LIMIT, COORD_LIMIT]`.
pub const COORD_LIMIT: i64 = 1073741824;

/// Force components saturate at `FORCE_LIMIT` in either direction.
pub const FORCE_LIMIT: i64 = 1099511627776;

/// A point or a vector of the plane, in simulation units.
#[derive(Clone, Copy, Debug, PartialEq, Eq, Structural)]
pub struct Vec2 {
    pub x: i64,
    pub y: i64,
}

impl Vec2 {
    pub fn new(x: i64, y: i64) -> (r: Vec2)
        ensures
            r.x == x && r.y == y,
    {
        Vec2 { x, y }
    }

    pub fn zero() -> (r: Vec2)
        ensures
            r.x == 0 && r.y == 0,
    {
        Vec2 { x: 0, y: 0 }
    }
}

/// The point lies in the simulation box.
pub open spec fn in_box(p: Vec2) -> bool {
    -COORD_LIMIT <= p.x <= COORD_LIMIT && -COORD_LIMIT <= p.y <= COORD_LIMIT
}

/// The vector's components lie within the force bound.
pub open spec fn force_bounded(f: Vec2) -> bool {
    -FORCE_LIMIT <= f.x <= FORCE_LIMIT && -FORCE_LIMIT <= f.y <= FORCE_LIMIT
}

/// `v` limited to `[lo, hi]`.
pub open spec fn clamp_to(v: int, lo: int, hi: int) -> int {
    if v < lo {
        lo
    } else if v > hi {
        hi
    } else {
        v
    }
}

/// `v` saturated at the force bound.
pub open spec fn sat(v: int) -> int {
    clamp_to(v, -FORCE_LIMIT as int, FORCE_LIMIT as int)
}

/// Division rounding toward zero, for a positive divisor.
pub open spec fn div_trunc(a: int, b: int) -> int {
    if a >= 0 {
        a / b
    } else {
        -((-a) / b)
    }
}

/// The largest `r` with `r * r <= n`.
pub open spec fn isqrt(n: nat) -> nat
    decreases n,
{
    if n == 0 {
        0
    } else {
        let r = isqrt((n - 1) as nat);
        if (r + 1) * (r + 1) <= n {
            r + 1
        } else {
            r
        }
    }
}

/// `isqrt(n)` is the integer square root of `n`.
pub proof fn lemma_isqrt_bounds(n: nat)
    ensures
        isqrt(n) * isqrt(n) <= n < (isqrt(n) + 1) * (isqrt(n) + 1),
    decreases n,
{
    if n == 0 {
        let s = isqrt(n);
        assert(s == 0);
        assert(s * s <= n && n < (s + 1) * (s + 1)) by (nonlinear_arith)
            requires
                s == 0,
                n == 0,
        ;
    } else {
        lemma_isqrt_bounds((n - 1) as nat);
        let r = isqrt((n - 1) as nat);
        let s = isqrt(n);
        if (r + 1) * (r + 1) <= n {
            assert(s == r + 1);
            assert(s * s <= n);
            assert(n < (s + 1) * (s + 1)) by (nonlinear_arith)
                requires
                    n - 1 < (r + 1) * (r + 1),
                    s == r + 1,
            ;
        } else {
            assert(s == r);
            assert(s * s <= n);
            assert(n < (s + 1) * (s + 1));
        }
    }
}

/// The integer square root is the only `r` with `r * r <= n < (r + 1) * (r + 1)`.
pub proof fn lemma_isqrt_unique(n: nat, r: nat)
    requires
        r * r <= n < (r + 1) * (r + 1),
    ensures
        isqrt(n) == r,
{
    lemma_isqrt_bounds(n);
    let s = isqrt(n);
    if s < r {
        assert((s + 1) * (s + 1) <= r * r) by (nonlinear_arith)
            requires
                s + 1 <= r,
        ;
    } else if s > r {
        assert((r + 1) * (r + 1) <= s * s) by (nonlinear_arith)
            requires
                r + 1 <= s,
        ;
    }
}

/// The integer square root, rounded down.
pub fn integer_sqrt(n: u128) -> (r: u64)
    ensures
        r == isqrt(n as nat),
        (r as int) * (r as int) <= n < (r as int + 1) * (r as int + 1),
{
    let mut lo: u128 = 0;
    let mut hi: u128 = 18446744073709551616;
    assert((hi as int) * (hi as int) > n) by (nonlinear_arith)
        requires
            hi == 18446744073709551616,
            n <= u128::MAX,
    ;
    while hi - lo > 1
        invariant
            lo < hi <= 18446744073709551616,
            (lo as int) * (lo as int) <= n,
            (hi as int) * (hi as int) > n,
        decreases hi - lo,
    {
        let mid = lo + (hi - lo) / 2;
        assert((mid as int) * (mid as int) < 18446744073709551616 * 18446744073709551616) by (nonlinear_arith)
            requires
                mid < 18446744073709551616,
        ;
        let sq = mid * mid;
        if sq <= n {
            lo = mid;
        } else {
            hi = mid;
        }
    }
    proof {
        assert(hi == lo + 1);
        lemma_isqrt_unique(n as nat, lo as nat);
    }
    lo as u64
}

/// `|a| <= isqrt(a * a + b * b)`.
pub proof fn lemma_component_le_length(a: int, b: int)
    ensures
        -(isqrt((a * a + b * b) as nat) as int) <= a <= isqrt((a * a + b * b) as nat),
{
    assert(0 <= b * b) by (nonlinear_arith);
    assert(0 <= a * a) by (nonlinear_arith);
    let n = (a * a + b * b) as nat;
    lemma_isqrt_bounds(n);
    let r = isqrt(n) as int;
    assert(-r <= a <= r) by (nonlinear_arith)
        requires
            a * a <= n,
            n < (r + 1) * (r + 1),
            r >= 0,
    ;
}

/// The length of `(dx, dy)`, rounded down.
pub fn vector_length(dx: i64, dy: i64) -> (r: u64)
    requires
        -2 * COORD_LIMIT <= dx <= 2 * COORD_LIMIT,
        -2 * COORD_LIMIT <= dy <= 2 * COORD_LIMIT,
    ensures
        r == isqrt((dx * dx + dy * dy) as nat),
        r <= 4 * COORD_LIMIT,
{
    proof {
        assert(dx * dx <= 4 * COORD_LIMIT * COORD_LIMIT) by (nonlinear_arith)
            requires
                -2 * COORD_LIMIT <= dx <= 2 * COORD_LIMIT,
        ;
        assert(dy * dy <= 4 * COORD_LIMIT * COORD_LIMIT) by (nonlinear_arith)
            requires
                -2 * COORD_LIMIT <= dy <= 2 * COORD_LIMIT,
        ;
        assert(0 <= dx * dx) by (nonlinear_arith);
        assert(0 <= dy * dy) by (nonlinear_arith);
    }
    let sq = ((dx as i128) * (dx as i128) + (dy as i128) * (dy as i128)) as u128;
    let r = integer_sqrt(sq);
    proof {
        assert(r <= 4 * COORD_LIMIT) by (nonlinear_arith)
            requires
                r * r <= sq,
                sq <= 8 * COORD_LIMIT * COORD_LIMIT,
                COORD_LIMIT == 1073741824,
        ;
    }
    r
}

} // verus!
