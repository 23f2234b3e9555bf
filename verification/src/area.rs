//! Visibility areas and exact angular order.
//!
//! The tracer sorts rays by counter-clockwise angle from a reference
//! direction.  The order is decided exactly: a vector is classified
//! into the half-turn at or after the reference or the half-turn
//! before it, and within one half-turn the perpendicular product of
//! two vectors decides which comes first.  Ties are exact
//! collinearity, not an epsilon.

use vstd::prelude::*;
use crate::corner::RayCollisionNormal;
use crate::geometry::FixedPoint;
use crate::geometry::FixedVec;
use crate::geometry::in_window_vec;
use crate::geometry::perp;
use crate::geometry::dot;
use crate::geometry::spec_dot;
use crate::geometry::spec_mag2;
use crate::geometry::spec_perp;

verus! {

/// Tie-break class of a ray: where it stands among rays at exactly
/// the same angle.  `Left` rays sort after (counter-clockwise of)
/// `LeftEdge`, `Middle` and the rest; `Right` rays sort before.
#[derive(Clone, Copy, PartialEq, Eq, Structural, Debug)]
pub enum RayPartition {
    Left,
    LeftEdge,
    Middle,
    RightEdge,
    Right,
}

impl RayPartition {
    /// Position in the tie-break order.
    pub open spec fn spec_rank(self) -> int {
        match self {
            RayPartition::Left => 0,
            RayPartition::LeftEdge => 1,
            RayPartition::Middle => 2,
            RayPartition::RightEdge => 3,
            RayPartition::Right => 4,
        }
    }

    pub fn rank(self) -> (r: u8)
        ensures
            r as int == self.spec_rank(),
    {
        match self {
            RayPartition::Left => 0,
            RayPartition::LeftEdge => 1,
            RayPartition::Middle => 2,
            RayPartition::RightEdge => 3,
            RayPartition::Right => 4,
        }
    }
}

/// A ray collected during one trace, before sorting.
#[derive(Clone, Copy, PartialEq, Eq, Structural, Debug)]
pub struct Ray {
    pub offset: FixedVec,
    pub partition: RayPartition,
    pub collision: Option<RayCollisionNormal>,
}

/// A ray of the finished fan.
#[derive(Clone, Copy, PartialEq, Eq, Structural, Debug)]
pub struct StoredRay {
    pub offset: FixedVec,
    pub collision: Option<RayCollisionNormal>,
}

/// A field-of-view cone: the area sweeps counter-clockwise from the
/// `left` boundary direction to the `right` one.
#[derive(Clone, Copy, PartialEq, Eq, Structural, Debug)]
pub struct AngleRange {
    pub left: FixedVec,
    pub right: FixedVec,
}

impl AngleRange {
    /// Whether an offset from the view origin falls inside the cone.
    pub open spec fn spec_contains_offset(self, off: FixedVec) -> bool {
        if spec_perp(self.left, self.right) < 0 {
            spec_perp(self.left, off) >= 0 || spec_perp(self.right, off) <= 0
        } else if spec_perp(self.left, self.right) == 0 {
            spec_perp(self.left, off) >= 0
        } else {
            spec_perp(self.left, off) >= 0 && spec_perp(self.right, off) <= 0
        }
    }

    pub fn contains_offset(&self, off: FixedVec) -> (r: bool)
        requires
            in_window_vec(self.left),
            in_window_vec(self.right),
            in_window_vec(off),
        ensures
            r == self.spec_contains_offset(off),
    {
        let lr = perp(self.left, self.right);
        let lo = perp(self.left, off);
        let ro = perp(self.right, off);
        if lr < 0 {
            lo >= 0 || ro <= 0
        } else if lr == 0 {
            lo >= 0
        } else {
            lo >= 0 && ro <= 0
        }
    }
}

/// Whether `u` lies in the half-turn at or counter-clockwise of the
/// reference direction (angle in `[0, pi)`).
pub open spec fn in_first_half(reference: FixedVec, u: FixedVec) -> bool {
    spec_perp(reference, u) > 0 || (spec_perp(reference, u) == 0 && spec_dot(reference, u) > 0)
}

/// Counter-clockwise angular order from `reference`: `u` comes no
/// later than `v`.
pub open spec fn angle_le(reference: FixedVec, u: FixedVec, v: FixedVec) -> bool {
    if in_first_half(reference, u) != in_first_half(reference, v) {
        in_first_half(reference, u)
    } else {
        spec_perp(u, v) >= 0
    }
}

/// Exact angular tie: same direction exactly.
pub open spec fn angle_eq(reference: FixedVec, u: FixedVec, v: FixedVec) -> bool {
    angle_le(reference, u, v) && angle_le(reference, v, u)
}

// The small algebraic steps behind the order's transitivity: products
// expand distributively, and four-factor monomials regroup.
proof fn lemma_expand_ss(a: int, b: int, c: int, d: int)
    ensures
        (a - b) * (c - d) == a * c - a * d - b * c + b * d,
{
    assert((a - b) * (c - d) == a * c - a * d - b * c + b * d) by (nonlinear_arith);
}

proof fn lemma_expand_sp(a: int, b: int, c: int, d: int)
    ensures
        (a - b) * (c + d) == a * c + a * d - b * c - b * d,
{
    assert((a - b) * (c + d) == a * c + a * d - b * c - b * d) by (nonlinear_arith);
}

proof fn lemma_expand_pp(a: int, b: int, c: int, d: int)
    ensures
        (a + b) * (c + d) == a * c + a * d + b * c + b * d,
{
    assert((a + b) * (c + d) == a * c + a * d + b * c + b * d) by (nonlinear_arith);
}

proof fn lemma_regroup_bd(a: int, b: int, c: int, d: int)
    ensures
        (a * b) * (c * d) == (a * d) * (c * b),
{
    assert((a * b) * (c * d) == (a * d) * (c * b)) by (nonlinear_arith);
}

proof fn lemma_regroup_da(a: int, b: int, c: int, d: int)
    ensures
        (a * b) * (c * d) == (d * b) * (c * a),
{
    assert((a * b) * (c * d) == (d * b) * (c * a)) by (nonlinear_arith);
}

proof fn lemma_regroup_ba(a: int, b: int, c: int, d: int)
    ensures
        (a * b) * (c * d) == (b * d) * (c * a),
{
    assert((a * b) * (c * d) == (b * d) * (c * a)) by (nonlinear_arith);
}

proof fn lemma_regroup_cb(a: int, b: int, c: int, d: int)
    ensures
        (a * b) * (c * d) == (a * c) * (b * d),
{
    assert((a * b) * (c * d) == (a * c) * (b * d)) by (nonlinear_arith);
}

/// The 2D decomposition identity:
/// `(u x w)(r x v) == (u x v)(r x w) + (v x w)(r x u)`.
proof fn lemma_cross_decompose(r: FixedVec, u: FixedVec, v: FixedVec, w: FixedVec)
    ensures
        spec_perp(u, w) * spec_perp(r, v) == spec_perp(u, v) * spec_perp(r, w) + spec_perp(v, w)
            * spec_perp(r, u),
{
    let rx = r.x as int;
    let ry = r.y as int;
    let ux = u.x as int;
    let uy = u.y as int;
    let vx = v.x as int;
    let vy = v.y as int;
    let wx = w.x as int;
    let wy = w.y as int;
    lemma_expand_ss(ux * wy, uy * wx, rx * vy, ry * vx);
    lemma_expand_ss(ux * vy, uy * vx, rx * wy, ry * wx);
    lemma_expand_ss(vx * wy, vy * wx, rx * uy, ry * ux);
    // Match each left monomial with its right counterpart, and cancel
    // the two leftover pairs.
    lemma_regroup_bd(ux, wy, rx, vy);
    lemma_regroup_da(ux, wy, ry, vx);
    lemma_regroup_da(uy, wx, rx, vy);
    lemma_regroup_bd(uy, wx, ry, vx);
    lemma_regroup_ba(ux, vy, ry, wx);
    lemma_regroup_ba(uy, vx, rx, wy);
}

/// Lagrange's identity for the plane:
/// `(r . u)^2 + (r x u)^2 == |r|^2 |u|^2`.
proof fn lemma_lagrange(r: FixedVec, u: FixedVec)
    ensures
        spec_dot(r, u) * spec_dot(r, u) + spec_perp(r, u) * spec_perp(r, u) == spec_mag2(r)
            * spec_mag2(u),
{
    let rx = r.x as int;
    let ry = r.y as int;
    let ux = u.x as int;
    let uy = u.y as int;
    lemma_expand_pp(rx * ux, ry * uy, rx * ux, ry * uy);
    lemma_expand_ss(rx * uy, ry * ux, rx * uy, ry * ux);
    lemma_expand_pp(rx * rx, ry * ry, ux * ux, uy * uy);
    lemma_regroup_cb(rx, ux, rx, ux);
    lemma_regroup_cb(rx, uy, rx, uy);
    lemma_regroup_cb(ry, ux, ry, ux);
    lemma_regroup_cb(ry, uy, ry, uy);
    lemma_regroup_bd(rx, ux, ry, uy);
}

/// When `v` is collinear with the reference:
/// `(u x v) |r|^2 == -(r x u)(r . v) + (r x v)(r . u)`.
proof fn lemma_collinear_side(r: FixedVec, v: FixedVec, u: FixedVec)
    ensures
        spec_perp(u, v) * spec_mag2(r) == -(spec_perp(r, u) * spec_dot(r, v)) + spec_perp(r, v)
            * spec_dot(r, u),
{
    let rx = r.x as int;
    let ry = r.y as int;
    let ux = u.x as int;
    let uy = u.y as int;
    let vx = v.x as int;
    let vy = v.y as int;
    lemma_expand_sp(ux * vy, uy * vx, rx * rx, ry * ry);
    lemma_expand_sp(rx * uy, ry * ux, rx * vx, ry * vy);
    lemma_expand_sp(rx * vy, ry * vx, rx * ux, ry * uy);
    lemma_regroup_da(ux, vy, rx, rx);
    lemma_regroup_da(ux, vy, ry, ry);
    lemma_regroup_da(uy, vx, rx, rx);
    lemma_regroup_da(uy, vx, ry, ry);
    lemma_regroup_bd(rx, uy, ry, vy);
    lemma_regroup_bd(ry, ux, rx, vx);
}

/// A nonzero vector with zero cross against a nonzero reference has
/// a nonzero dot with it.
proof fn lemma_collinear_dot_nonzero(r: FixedVec, u: FixedVec)
    requires
        spec_perp(r, u) == 0,
        spec_mag2(r) > 0,
        spec_mag2(u) > 0,
    ensures
        spec_dot(r, u) != 0,
{
    lemma_lagrange(r, u);
    if spec_dot(r, u) == 0 {
        assert(spec_mag2(r) * spec_mag2(u) > 0) by (nonlinear_arith)
            requires
                spec_mag2(r) > 0,
                spec_mag2(u) > 0,
        ;
    }
}

/// The angular order is total: of any two directions, one comes no
/// later than the other.
pub proof fn lemma_angle_le_total(reference: FixedVec, u: FixedVec, v: FixedVec)
    ensures
        angle_le(reference, u, v) || angle_le(reference, v, u),
{
    assert(spec_perp(u, v) + spec_perp(v, u) == 0) by (nonlinear_arith)
        requires
            spec_perp(u, v) == u.x * v.y - u.y * v.x,
            spec_perp(v, u) == v.x * u.y - v.y * u.x,
    ;
}

/// The angular order is transitive on nonzero directions, so sorting
/// a fan by it is meaningful.
pub proof fn lemma_angle_le_trans(reference: FixedVec, u: FixedVec, v: FixedVec, w: FixedVec)
    requires
        spec_mag2(reference) > 0,
        spec_mag2(u) > 0,
        spec_mag2(v) > 0,
        spec_mag2(w) > 0,
        angle_le(reference, u, v),
        angle_le(reference, v, w),
    ensures
        angle_le(reference, u, w),
{
    let r = reference;
    let hu = in_first_half(r, u);
    let hv = in_first_half(r, v);
    let hw = in_first_half(r, w);
    if hu == hv && hv == hw {
        lemma_cross_decompose(r, u, v, w);
        if hu {
            if spec_perp(r, v) > 0 {
                assert(spec_perp(u, w) >= 0) by (nonlinear_arith)
                    requires
                        spec_perp(u, w) * spec_perp(r, v) == spec_perp(u, v) * spec_perp(r, w)
                            + spec_perp(v, w) * spec_perp(r, u),
                        spec_perp(u, v) >= 0,
                        spec_perp(v, w) >= 0,
                        spec_perp(r, w) >= 0,
                        spec_perp(r, u) >= 0,
                        spec_perp(r, v) > 0,
                ;
            } else {
                // v is forward-collinear with the reference, so u
                // (weakly before it in the same half-turn) is too,
                // and then u sits no later than anything in the
                // half-turn.
                assert(spec_dot(r, v) > 0);
                lemma_collinear_side(r, v, u);
                assert(spec_perp(r, u) <= 0) by (nonlinear_arith)
                    requires
                        spec_perp(u, v) * spec_mag2(r) == -(spec_perp(r, u) * spec_dot(r, v))
                            + spec_perp(r, v) * spec_dot(r, u),
                        spec_perp(r, v) == 0,
                        spec_perp(u, v) >= 0,
                        spec_dot(r, v) > 0,
                        spec_mag2(r) > 0,
                ;
                assert(spec_perp(r, u) == 0 && spec_dot(r, u) > 0);
                lemma_collinear_side(r, u, w);
                assert(spec_perp(u, w) >= 0) by (nonlinear_arith)
                    requires
                        spec_perp(w, u) * spec_mag2(r) == -(spec_perp(r, w) * spec_dot(r, u))
                            + spec_perp(r, u) * spec_dot(r, w),
                        spec_perp(r, u) == 0,
                        spec_dot(r, u) > 0,
                        spec_perp(r, w) >= 0,
                        spec_mag2(r) > 0,
                        spec_perp(u, w) + spec_perp(w, u) == 0,
                ;
            }
        } else {
            if spec_perp(r, v) < 0 {
                assert(spec_perp(u, w) >= 0) by (nonlinear_arith)
                    requires
                        spec_perp(u, w) * spec_perp(r, v) == spec_perp(u, v) * spec_perp(r, w)
                            + spec_perp(v, w) * spec_perp(r, u),
                        spec_perp(u, v) >= 0,
                        spec_perp(v, w) >= 0,
                        spec_perp(r, w) <= 0,
                        spec_perp(r, u) <= 0,
                        spec_perp(r, v) < 0,
                ;
            } else {
                // v is backward-collinear with the reference; so is
                // u, and a backward-collinear u sits no later than
                // anything in the second half-turn.
                assert(spec_perp(r, v) == 0);
                lemma_collinear_dot_nonzero(r, v);
                assert(spec_dot(r, v) < 0);
                lemma_collinear_side(r, v, u);
                assert(spec_perp(r, u) >= 0) by (nonlinear_arith)
                    requires
                        spec_perp(u, v) * spec_mag2(r) == -(spec_perp(r, u) * spec_dot(r, v))
                            + spec_perp(r, v) * spec_dot(r, u),
                        spec_perp(r, v) == 0,
                        spec_perp(u, v) >= 0,
                        spec_dot(r, v) < 0,
                        spec_mag2(r) > 0,
                ;
                assert(spec_perp(r, u) == 0);
                lemma_collinear_dot_nonzero(r, u);
                assert(spec_dot(r, u) < 0);
                lemma_collinear_side(r, u, w);
                assert(spec_perp(u, w) >= 0) by (nonlinear_arith)
                    requires
                        spec_perp(w, u) * spec_mag2(r) == -(spec_perp(r, w) * spec_dot(r, u))
                            + spec_perp(r, u) * spec_dot(r, w),
                        spec_perp(r, u) == 0,
                        spec_dot(r, u) < 0,
                        spec_perp(r, w) <= 0,
                        spec_mag2(r) > 0,
                        spec_perp(u, w) + spec_perp(w, u) == 0,
                ;
            }
        }
    }
}

/// Decide the angular order at run time, exactly.
pub fn angle_le_exec(reference: FixedVec, u: FixedVec, v: FixedVec) -> (r: bool)
    requires
        in_window_vec(reference),
        in_window_vec(u),
        in_window_vec(v),
    ensures
        r == angle_le(reference, u, v),
{
    let pu = perp(reference, u);
    let pv = perp(reference, v);
    let hu = pu > 0 || (pu == 0 && dot(reference, u) > 0);
    let hv = pv > 0 || (pv == 0 && dot(reference, v) > 0);
    if hu != hv {
        hu
    } else {
        perp(u, v) >= 0
    }
}

/// Adjacent and non-adjacent rays of the fan alike appear in
/// counter-clockwise order from the reference direction.
pub open spec fn fan_sorted(reference: FixedVec, rays: Seq<StoredRay>) -> bool {
    forall|a: int, b: int|
        #![trigger rays[a], rays[b]]
        0 <= a < b < rays.len() ==> angle_le(reference, rays[a].offset, rays[b].offset)
}

/// A visibility area: an origin and a fan of rays ordered
/// counter-clockwise, optionally restricted to a cone.  Consecutive
/// rays plus the origin bound the star-shaped region of space visible
/// from the origin.
#[derive(Clone, Debug)]
pub struct LightArea {
    pub origin: FixedPoint,
    pub rays: Vec<StoredRay>,
    pub range: Option<AngleRange>,
}

/// Orientation of `c` relative to the directed line `a -> b`: the
/// sign of the cross product.
pub open spec fn spec_orient(a: FixedPoint, b: FixedPoint, c: FixedPoint) -> int {
    (b.x - a.x) * (c.y - a.y) - (b.y - a.y) * (c.x - a.x)
}

/// Whether `c` lies within the bounding box of the segment `a - b`
/// (used for the collinear cases of segment intersection).
pub open spec fn spec_in_box(a: FixedPoint, b: FixedPoint, c: FixedPoint) -> bool {
    &&& (if a.x <= b.x {
        a.x <= c.x <= b.x
    } else {
        b.x <= c.x <= a.x
    })
    &&& (if a.y <= b.y {
        a.y <= c.y <= b.y
    } else {
        b.y <= c.y <= a.y
    })
}

/// Exact closed-segment intersection: the segments properly cross,
/// or an endpoint of one lies on the other.
pub open spec fn spec_segments_intersect(
    p1: FixedPoint,
    p2: FixedPoint,
    q1: FixedPoint,
    q2: FixedPoint,
) -> bool {
    let o1 = spec_orient(p1, p2, q1);
    let o2 = spec_orient(p1, p2, q2);
    let o3 = spec_orient(q1, q2, p1);
    let o4 = spec_orient(q1, q2, p2);
    ||| ((o1 > 0 && o2 < 0) || (o1 < 0 && o2 > 0)) && ((o3 > 0 && o4 < 0) || (o3 < 0 && o4 > 0))
    ||| o1 == 0 && spec_in_box(p1, p2, q1)
    ||| o2 == 0 && spec_in_box(p1, p2, q2)
    ||| o3 == 0 && spec_in_box(q1, q2, p1)
    ||| o4 == 0 && spec_in_box(q1, q2, p2)
}

/// Points a fan's rays can reach stay inside this window, which keeps
/// all orientation products exact in 128 bits.
pub open spec fn in_reach_window(p: FixedPoint) -> bool {
    &&& -2 * crate::geometry::FIXED_LIMIT <= p.x <= 2 * crate::geometry::FIXED_LIMIT
    &&& -2 * crate::geometry::FIXED_LIMIT <= p.y <= 2 * crate::geometry::FIXED_LIMIT
}

fn orient(a: FixedPoint, b: FixedPoint, c: FixedPoint) -> (r: i128)
    requires
        in_reach_window(a),
        in_reach_window(b),
        in_reach_window(c),
    ensures
        r == spec_orient(a, b, c),
{
    proof {
        crate::geometry::lemma_product_bound(b.x - a.x, c.y - a.y);
        crate::geometry::lemma_product_bound(b.y - a.y, c.x - a.x);
    }
    ((b.x - a.x) as i128) * ((c.y - a.y) as i128) - ((b.y - a.y) as i128) * ((c.x - a.x) as i128)
}

fn in_box(a: FixedPoint, b: FixedPoint, c: FixedPoint) -> (r: bool)
    ensures
        r == spec_in_box(a, b, c),
{
    let x_ok = if a.x <= b.x {
        a.x <= c.x && c.x <= b.x
    } else {
        b.x <= c.x && c.x <= a.x
    };
    let y_ok = if a.y <= b.y {
        a.y <= c.y && c.y <= b.y
    } else {
        b.y <= c.y && c.y <= a.y
    };
    x_ok && y_ok
}

fn segments_intersect(p1: FixedPoint, p2: FixedPoint, q1: FixedPoint, q2: FixedPoint) -> (r: bool)
    requires
        in_reach_window(p1),
        in_reach_window(p2),
        in_reach_window(q1),
        in_reach_window(q2),
    ensures
        r == spec_segments_intersect(p1, p2, q1, q2),
{
    let o1 = orient(p1, p2, q1);
    let o2 = orient(p1, p2, q2);
    let o3 = orient(q1, q2, p1);
    let o4 = orient(q1, q2, p2);
    if ((o1 > 0 && o2 < 0) || (o1 < 0 && o2 > 0)) && ((o3 > 0 && o4 < 0) || (o3 < 0 && o4 > 0)) {
        return true;
    }
    if o1 == 0 && in_box(p1, p2, q1) {
        return true;
    }
    if o2 == 0 && in_box(p1, p2, q2) {
        return true;
    }
    if o3 == 0 && in_box(q1, q2, p1) {
        return true;
    }
    if o4 == 0 && in_box(q1, q2, p2) {
        return true;
    }
    false
}

impl LightArea {
    /// The world-space endpoint of the fan's `i`-th ray.
    pub open spec fn spec_ray_point(self, i: int) -> FixedPoint {
        FixedPoint {
            x: (self.origin.x + self.rays@[i].offset.x) as i64,
            y: (self.origin.y + self.rays@[i].offset.y) as i64,
        }
    }

    /// Whether the segment `a - b` crosses the fan's outer boundary:
    /// the chord between some pair of consecutive ray endpoints.
    /// Entities with extent test each edge of their outline with
    /// this, rather than only their center point.
    pub fn edge_intersects_line(&self, a: FixedPoint, b: FixedPoint) -> (r: bool)
        requires
            crate::geometry::in_window_point(self.origin),
            crate::geometry::in_window_point(a),
            crate::geometry::in_window_point(b),
            forall|i: int|
                0 <= i < self.rays@.len() ==> crate::geometry::in_window_vec(
                    (#[trigger] self.rays@[i]).offset,
                ) && -crate::geometry::FIXED_LIMIT <= self.origin.x + self.rays@[i].offset.x
                    <= crate::geometry::FIXED_LIMIT && -crate::geometry::FIXED_LIMIT
                    <= self.origin.y + self.rays@[i].offset.y <= crate::geometry::FIXED_LIMIT,
        ensures
            r == exists|i: int|
                0 <= i && i + 1 < self.rays@.len() && #[trigger] spec_segments_intersect(
                    self.spec_ray_point(i),
                    self.spec_ray_point(i + 1),
                    a,
                    b,
                ),
    {
        let mut i: usize = 0;
        let mut found = false;
        if self.rays.len() == 0 {
            return false;
        }
        while i < self.rays.len() - 1
            invariant
                self.rays@.len() >= 1,
                crate::geometry::in_window_point(self.origin),
                crate::geometry::in_window_point(a),
                crate::geometry::in_window_point(b),
                forall|k: int|
                    0 <= k < self.rays@.len() ==> crate::geometry::in_window_vec(
                        (#[trigger] self.rays@[k]).offset,
                    ) && -crate::geometry::FIXED_LIMIT <= self.origin.x + self.rays@[k].offset.x
                        <= crate::geometry::FIXED_LIMIT && -crate::geometry::FIXED_LIMIT
                        <= self.origin.y + self.rays@[k].offset.y <= crate::geometry::FIXED_LIMIT,
                i <= self.rays@.len(),
                found == exists|k: int|
                    0 <= k && k + 1 < self.rays@.len() && k < i && #[trigger] spec_segments_intersect(
                        self.spec_ray_point(k),
                        self.spec_ray_point(k + 1),
                        a,
                        b,
                    ),
            decreases self.rays@.len() - i,
        {
            let p1 = FixedPoint {
                x: self.origin.x + self.rays[i].offset.x,
                y: self.origin.y + self.rays[i].offset.y,
            };
            let p2 = FixedPoint {
                x: self.origin.x + self.rays[i + 1].offset.x,
                y: self.origin.y + self.rays[i + 1].offset.y,
            };
            if segments_intersect(p1, p2, a, b) {
                proof {
                    assert(p1 == self.spec_ray_point(i as int));
                    assert(p2 == self.spec_ray_point(i as int + 1));
                }
                found = true;
            }
            i = i + 1;
        }
        found
    }
}

} // verus!
