//! Fixed-point plane geometry.
//!
//! Continuous positions are stored as integers in units of
//! `1 / SCALE` of a grid cell, so every comparison the visibility
//! engine makes (crossing order, squared distances, angular order) is
//! computed exactly in integer arithmetic; grid lines lie exactly at
//! multiples of `SCALE`.

use vstd::prelude::*;

verus! {

/// Fixed-point units per grid cell.
pub const SCALE: i64 = 65536;

/// Positions and offsets stay inside this window (the grid coordinate
/// window times `SCALE`), which keeps all products inside `i128`.
pub const FIXED_LIMIT: i64 = 0x4000_0000;

/// A position in the plane, in fixed-point units.
#[derive(Clone, Copy, PartialEq, Eq, Structural, Debug)]
pub struct FixedPoint {
    pub x: i64,
    pub y: i64,
}

/// An offset between positions, in fixed-point units.
#[derive(Clone, Copy, PartialEq, Eq, Structural, Debug)]
pub struct FixedVec {
    pub x: i64,
    pub y: i64,
}

pub open spec fn in_window_point(p: FixedPoint) -> bool {
    &&& -FIXED_LIMIT <= p.x <= FIXED_LIMIT
    &&& -FIXED_LIMIT <= p.y <= FIXED_LIMIT
}

pub open spec fn in_window_vec(v: FixedVec) -> bool {
    &&& -2 * FIXED_LIMIT <= v.x <= 2 * FIXED_LIMIT
    &&& -2 * FIXED_LIMIT <= v.y <= 2 * FIXED_LIMIT
}

impl FixedPoint {
    pub fn sub(self, other: FixedPoint) -> (r: FixedVec)
        requires
            in_window_point(self),
            in_window_point(other),
        ensures
            r.x == self.x - other.x,
            r.y == self.y - other.y,
    {
        FixedVec { x: self.x - other.x, y: self.y - other.y }
    }

    pub fn add(self, v: FixedVec) -> (r: FixedPoint)
        requires
            in_window_point(self),
            in_window_vec(v),
        ensures
            r.x == self.x + v.x,
            r.y == self.y + v.y,
    {
        FixedPoint { x: self.x + v.x, y: self.y + v.y }
    }
}

impl FixedVec {
    pub fn neg(self) -> (r: FixedVec)
        requires
            in_window_vec(self),
        ensures
            r.x == -self.x,
            r.y == -self.y,
    {
        FixedVec { x: -self.x, y: -self.y }
    }
}

/// Squared Euclidean length, exactly.
pub open spec fn spec_mag2(v: FixedVec) -> int {
    v.x * v.x + v.y * v.y
}

pub fn mag2(v: FixedVec) -> (r: i128)
    requires
        in_window_vec(v),
    ensures
        r == spec_mag2(v),
        0 <= r <= 0x8000_0000_0000_0000,
{
    proof {
        assert(0 <= spec_mag2(v) <= 0x8000_0000_0000_0000) by (nonlinear_arith)
            requires
                spec_mag2(v) == v.x * v.x + v.y * v.y,
                -2 * FIXED_LIMIT <= v.x <= 2 * FIXED_LIMIT,
                -2 * FIXED_LIMIT <= v.y <= 2 * FIXED_LIMIT,
                FIXED_LIMIT == 0x4000_0000,
        ;
    }
    proof {
        lemma_product_bound(v.x as int, v.x as int);
        lemma_product_bound(v.y as int, v.y as int);
    }
    (v.x as i128) * (v.x as i128) + (v.y as i128) * (v.y as i128)
}

/// Dot product, exactly.
pub open spec fn spec_dot(a: FixedVec, b: FixedVec) -> int {
    a.x * b.x + a.y * b.y
}

pub fn dot(a: FixedVec, b: FixedVec) -> (r: i128)
    requires
        in_window_vec(a),
        in_window_vec(b),
    ensures
        r == spec_dot(a, b),
        -0x8000_0000_0000_0000 <= r <= 0x8000_0000_0000_0000,
{
    proof {
        assert(-0x8000_0000_0000_0000 <= spec_dot(a, b) <= 0x8000_0000_0000_0000)
            by (nonlinear_arith)
            requires
                spec_dot(a, b) == a.x * b.x + a.y * b.y,
                -2 * FIXED_LIMIT <= a.x <= 2 * FIXED_LIMIT,
                -2 * FIXED_LIMIT <= a.y <= 2 * FIXED_LIMIT,
                -2 * FIXED_LIMIT <= b.x <= 2 * FIXED_LIMIT,
                -2 * FIXED_LIMIT <= b.y <= 2 * FIXED_LIMIT,
                FIXED_LIMIT == 0x4000_0000,
        ;
    }
    proof {
        lemma_product_bound(a.x as int, b.x as int);
        lemma_product_bound(a.y as int, b.y as int);
    }
    (a.x as i128) * (b.x as i128) + (a.y as i128) * (b.y as i128)
}

/// Perpendicular (2D cross) product: positive when `b` lies counter-
/// clockwise of `a`.
pub open spec fn spec_perp(a: FixedVec, b: FixedVec) -> int {
    a.x * b.y - a.y * b.x
}

pub fn perp(a: FixedVec, b: FixedVec) -> (r: i128)
    requires
        in_window_vec(a),
        in_window_vec(b),
    ensures
        r == spec_perp(a, b),
{
    proof {
        lemma_product_bound(a.x as int, b.y as int);
        lemma_product_bound(a.y as int, b.x as int);
    }
    (a.x as i128) * (b.y as i128) - (a.y as i128) * (b.x as i128)
}

/// Products of window-bounded coordinates stay far inside `i128`.
pub proof fn lemma_product_bound(a: int, b: int)
    requires
        -4 * FIXED_LIMIT <= a <= 4 * FIXED_LIMIT,
        -4 * FIXED_LIMIT <= b <= 4 * FIXED_LIMIT,
    ensures
        -0x100_0000_0000_0000_0000 <= a * b <= 0x100_0000_0000_0000_0000,
{
    assert(-0x100_0000_0000_0000_0000 <= a * b <= 0x100_0000_0000_0000_0000) by (nonlinear_arith)
        requires
            -4 * FIXED_LIMIT <= a <= 4 * FIXED_LIMIT,
            -4 * FIXED_LIMIT <= b <= 4 * FIXED_LIMIT,
            FIXED_LIMIT == 0x4000_0000,
    ;
}

/// `r` is the floor of the square root of `n`.
pub open spec fn is_sqrt(n: int, r: int) -> bool {
    &&& 0 <= r
    &&& r * r <= n
    &&& n < (r + 1) * (r + 1)
}

/// The floor square root, as a function usable in specifications.
pub open spec fn sqrt_floor(n: int) -> int
    decreases n,
{
    if n <= 0 {
        0
    } else {
        let r = sqrt_floor(n - 1);
        if (r + 1) * (r + 1) <= n {
            r + 1
        } else {
            r
        }
    }
}

pub proof fn lemma_sqrt_floor_is_sqrt(n: int)
    requires
        n >= 0,
    ensures
        is_sqrt(n, sqrt_floor(n)),
    decreases n,
{
    if n > 0 {
        lemma_sqrt_floor_is_sqrt(n - 1);
        let r = sqrt_floor(n - 1);
        if (r + 1) * (r + 1) <= n {
            assert((r + 2) * (r + 2) > n) by (nonlinear_arith)
                requires
                    r >= 0,
                    n - 1 < (r + 1) * (r + 1),
                    (r + 1) * (r + 1) <= n,
            ;
        }
    }
}

/// The floor square root is unique.
pub proof fn lemma_sqrt_unique(n: int, r1: int, r2: int)
    requires
        is_sqrt(n, r1),
        is_sqrt(n, r2),
    ensures
        r1 == r2,
{
    assert(r1 == r2) by (nonlinear_arith)
        requires
            0 <= r1 && r1 * r1 <= n < (r1 + 1) * (r1 + 1),
            0 <= r2 && r2 * r2 <= n < (r2 + 1) * (r2 + 1),
    ;
}

/// Integer square root by binary search.
pub fn isqrt(n: u128) -> (r: u64)
    requires
        n < 0x4000_0000_0000_0000_0000_0000_0000_0000,
    ensures
        is_sqrt(n as int, r as int),
        r as int == sqrt_floor(n as int),
{
    proof {
        lemma_sqrt_floor_is_sqrt(n as int);
    }
    if n == 0 {
        return 0;
    }
    // Invariant: lo * lo <= n < hi * hi.
    let mut lo: u64 = 0;
    let mut hi: u64 = 0x8000_0000_0000_0000;
    proof {
        assert((0x8000_0000_0000_0000 as int) * (0x8000_0000_0000_0000 as int)
            == 0x4000_0000_0000_0000_0000_0000_0000_0000) by (nonlinear_arith);
    }
    while lo + 1 < hi
        invariant
            lo < hi,
            hi <= 0x8000_0000_0000_0000,
            (lo as int) * (lo as int) <= n,
            n < (hi as int) * (hi as int),
        decreases hi - lo,
    {
        let mid = lo + (hi - lo) / 2;
        proof {
            assert((mid as int) * (mid as int) <= (0x8000_0000_0000_0000 as int) * (
            0x8000_0000_0000_0000 as int)) by (nonlinear_arith)
                requires
                    0 <= mid <= 0x8000_0000_0000_0000,
            ;
        }
        let sq = (mid as u128) * (mid as u128);
        if sq <= n {
            lo = mid;
        } else {
            hi = mid;
        }
    }
    proof {
        lemma_sqrt_unique(n as int, lo as int, sqrt_floor(n as int));
    }
    lo
}

} // verus!
