//! The light grid: occluder cells, the corner cache, and the
//! visibility tracer.

use vstd::prelude::*;
use crate::area::AngleRange;
use crate::area::LightArea;
use crate::area::Ray;
use crate::area::RayPartition;
use crate::area::StoredRay;
use crate::area::angle_eq;
use crate::area::angle_le;
use crate::area::angle_le_exec;
use crate::area::fan_sorted;
use crate::area::lemma_angle_le_total;
use crate::area::lemma_angle_le_trans;
use crate::corner::Corner;
use crate::corner::CornerDirection;
use crate::corner::Pixel;
use crate::corner::RayCollisionNormal;
use crate::geometry::FIXED_LIMIT;
use crate::geometry::FixedPoint;
use crate::geometry::FixedVec;
use crate::geometry::SCALE;
use crate::geometry::in_window_point;
use crate::geometry::in_window_vec;
use crate::geometry::mag2;
use crate::geometry::spec_mag2;
use crate::grid::COORD_LIMIT;
use crate::grid::TileGrid;
use crate::grid::TileIndex;
use crate::grid::TileRect;
use crate::grid::Empty;
use crate::raycast::blocked;
use crate::raycast::raycast;

verus! {

/// Farthest a single ray travels, in fixed-point units (2048 cells).
pub const MAXIMUM_RAY_RANGE: i64 = 0x800_0000;

/// Squared-distance slack when judging whether a ray reached a
/// corner, covering the rounding of hit points to fixed-point.
pub const CORNER_TOLERANCE: i128 = 0x1_0000_0000;

/// Whether the lattice vertex `(x, y)` carries a corner with the
/// given direction, by the 2x2 neighborhood table.
pub open spec fn spec_is_corner(g: TileGrid<Pixel>, c: Corner) -> bool {
    CornerDirection::spec_from_neighborhood(
        blocked(g, c.location.x - 1, c.location.y - 1),
        blocked(g, c.location.x as int, c.location.y - 1),
        blocked(g, c.location.x - 1, c.location.y as int),
        blocked(g, c.location.x as int, c.location.y as int),
    ).contains(c.direction)
}

/// The fixed sentinel directions of a full-circle trace, chosen with
/// an irrational-like slope so they rarely pass exactly through a
/// lattice corner.
pub open spec fn sentinel_direction(d: FixedVec) -> bool {
    ||| d == (FixedVec { x: 65536i64, y: 205887i64 })
    ||| d == (FixedVec { x: -205887i64, y: 65536i64 })
    ||| d == (FixedVec { x: -65536i64, y: -205887i64 })
    ||| d == (FixedVec { x: 205887i64, y: -65536i64 })
}

/// The four sentinels, by index.
pub open spec fn sentinel_at(i: int) -> FixedVec {
    if i == 0 {
        FixedVec { x: 65536i64, y: 205887i64 }
    } else if i == 1 {
        FixedVec { x: -205887i64, y: 65536i64 }
    } else if i == 2 {
        FixedVec { x: -65536i64, y: -205887i64 }
    } else {
        FixedVec { x: 205887i64, y: -65536i64 }
    }
}

/// The directions a trace fires its boundary rays along: the two cone
/// edges, or the four sentinels for a full circle.
pub open spec fn trace_direction(angle_range: Option<AngleRange>, d: FixedVec) -> bool {
    match angle_range {
        Some(ar) => d == ar.left || d == ar.right,
        None => sentinel_direction(d),
    }
}

/// The offset of a raycast stopping point from the trace origin.
pub open spec fn result_offset(origin: FixedPoint, p: FixedPoint) -> FixedVec {
    FixedVec { x: (p.x - origin.x) as i64, y: (p.y - origin.y) as i64 }
}

/// The exact offset from the trace origin to a corner's lattice
/// vertex.
pub open spec fn corner_offset(origin: FixedPoint, c: Corner) -> FixedVec {
    FixedVec {
        x: (c.location.x * SCALE - origin.x) as i64,
        y: (c.location.y * SCALE - origin.y) as i64,
    }
}

/// How a ray of a traced fan arose; every ray of the fan satisfies
/// this, so the fan is pinned to the grid.  A boundary ray carries
/// the stopping point and collision of a raycast along one of the
/// trace's directions; a corner ray stops exactly at a lattice corner
/// of the grid inside the angular range (marked as a direct corner
/// hit when light continues around it, else carrying the raycast's
/// own collision); a continuation ray carries the raycast result
/// fired toward such a corner.
pub open spec fn candidate_ray(
    g: TileGrid<Pixel>,
    origin: FixedPoint,
    angle_range: Option<AngleRange>,
    ray: StoredRay,
) -> bool {
    ||| exists|d: FixedVec, res: (FixedPoint, Option<RayCollisionNormal>)|
        {
            &&& #[trigger] crate::raycast::raycast_post(g, origin, d, MAXIMUM_RAY_RANGE, res)
            &&& trace_direction(angle_range, d)
            &&& ray.offset == result_offset(origin, res.0)
            &&& ray.collision == res.1
        }
    ||| exists|c: Corner, res: (FixedPoint, Option<RayCollisionNormal>)|
        #![trigger spec_is_corner(g, c), crate::raycast::raycast_post(
            g,
            origin,
            ray.offset,
            MAXIMUM_RAY_RANGE,
            res,
        )]
        {
            &&& spec_is_corner(g, c)
            &&& ray.offset == corner_offset(origin, c)
            &&& corner_passes(origin, angle_range, c, res.0)
            &&& crate::raycast::raycast_post(g, origin, ray.offset, MAXIMUM_RAY_RANGE, res)
            &&& (ray.collision == Some(RayCollisionNormal::Corner(c.direction, true))
                || ray.collision == res.1)
        }
    ||| exists|c: Corner, res: (FixedPoint, Option<RayCollisionNormal>)|
        {
            &&& spec_is_corner(g, c)
            &&& #[trigger] crate::raycast::raycast_post(
                g,
                origin,
                corner_offset(origin, c),
                MAXIMUM_RAY_RANGE,
                res,
            )
            &&& corner_passes(origin, angle_range, c, res.0)
            &&& ray.offset == result_offset(origin, res.0)
            &&& ray.collision == res.1
        }
}

/// The filters a corner must pass before it contributes rays: its
/// solid quadrant faces back toward the origin, it lies inside the
/// angular range, it is not exactly at the origin, and the occlusion
/// raycast toward it (stopping at `hit`) reached at least the
/// corner's distance.
pub open spec fn corner_passes(
    origin: FixedPoint,
    angle_range: Option<AngleRange>,
    c: Corner,
    hit: FixedPoint,
) -> bool {
    let off = corner_offset(origin, c);
    &&& c.direction.spec_contains_offset(
        (FixedVec { x: (-off.x) as i64, y: (-off.y) as i64 }),
    )
    &&& match angle_range {
        Some(ar) => ar.spec_contains_offset(off),
        None => true,
    }
    &&& !(off.x == 0 && off.y == 0)
    &&& spec_mag2(result_offset(origin, hit)) + CORNER_TOLERANCE >= spec_mag2(off)
}

/// Every ray of a traced fan stays within the ray range (up to the
/// crossing rounding and the corner-occlusion slack).
pub open spec fn within_ray_cap(off: FixedVec) -> bool {
    spec_mag2(off) <= 2 * (MAXIMUM_RAY_RANGE + SCALE) * (MAXIMUM_RAY_RANGE + SCALE)
        + CORNER_TOLERANCE
}

/// An offset whose coordinates are within the per-axis raycast bound
/// is within the Euclidean cap (with room for the occlusion slack).
proof fn lemma_cap_from_coords(off: FixedVec)
    requires
        -(MAXIMUM_RAY_RANGE + SCALE as int) <= off.x <= MAXIMUM_RAY_RANGE + SCALE,
        -(MAXIMUM_RAY_RANGE + SCALE as int) <= off.y <= MAXIMUM_RAY_RANGE + SCALE,
    ensures
        spec_mag2(off) <= 2 * (MAXIMUM_RAY_RANGE + SCALE) * (MAXIMUM_RAY_RANGE + SCALE),
        within_ray_cap(off),
{
    assert(spec_mag2(off) <= 2 * (MAXIMUM_RAY_RANGE + SCALE) * (MAXIMUM_RAY_RANGE + SCALE))
        by (nonlinear_arith)
        requires
            spec_mag2(off) == off.x * off.x + off.y * off.y,
            -(MAXIMUM_RAY_RANGE + SCALE as int) <= off.x <= MAXIMUM_RAY_RANGE + SCALE,
            -(MAXIMUM_RAY_RANGE + SCALE as int) <= off.y <= MAXIMUM_RAY_RANGE + SCALE,
    ;
}

/// The ray a collected `Ray` contributes to the finished fan.
pub open spec fn stored(ray: Ray) -> StoredRay {
    StoredRay { offset: ray.offset, collision: ray.collision }
}

/// Some collected ray points exactly along `off`.
pub open spec fn has_offset(s: Seq<Ray>, off: FixedVec) -> bool {
    exists|k: int| 0 <= k < s.len() && (#[trigger] s[k]).offset == off
}

/// The statically checkable part of the corner filters: the corner's
/// solid quadrant faces back toward the origin, it lies in the
/// angular range, it is not at the origin, and the origin does not
/// look straight along one of its walls.
pub open spec fn corner_eligible(
    origin: FixedPoint,
    angle_range: Option<AngleRange>,
    c: Corner,
) -> bool {
    let off = corner_offset(origin, c);
    let neg = FixedVec { x: (-off.x) as i64, y: (-off.y) as i64 };
    &&& c.direction.spec_contains_offset(neg)
    &&& match angle_range {
        Some(ar) => ar.spec_contains_offset(off),
        None => true,
    }
    &&& !(off.x == 0 && off.y == 0)
    &&& !c.direction.spec_should_skip(neg)
}

/// The occlusion test of a corner: the raycast toward it was not
/// stopped short of it.
pub open spec fn corner_reached(origin: FixedPoint, c: Corner, hit: FixedPoint) -> bool {
    spec_mag2(result_offset(origin, hit)) + CORNER_TOLERANCE >= spec_mag2(corner_offset(origin, c))
}

/// Corner completeness of a traced fan: every corner of the grid
/// that passes the eligibility filters either had its occlusion
/// raycast stop short of it, or contributes: some ray of the fan
/// points at exactly the corner's angle.
pub open spec fn trace_complete(
    g: TileGrid<Pixel>,
    origin: FixedPoint,
    angle_range: Option<AngleRange>,
    reference: FixedVec,
    rays: Seq<StoredRay>,
) -> bool {
    forall|c: Corner|
        (#[trigger] spec_is_corner(g, c)) && corner_eligible(origin, angle_range, c)
            ==> exists|res: (FixedPoint, Option<RayCollisionNormal>)|
            {
                &&& #[trigger] crate::raycast::raycast_post(
                    g,
                    origin,
                    corner_offset(origin, c),
                    MAXIMUM_RAY_RANGE,
                    res,
                )
                &&& corner_reached(origin, c, res.0) ==> exists|j: int|
                    0 <= j < rays.len() && angle_eq(
                        reference,
                        (#[trigger] rays[j]).offset,
                        corner_offset(origin, c),
                    )
            }
}

/// Boundary completeness of a traced fan: for each of the trace's
/// fixed directions (the two cone edges, or the four sentinels), the
/// fan holds a ray at exactly the angle where the raycast along that
/// direction stopped.
pub open spec fn trace_boundaries(
    g: TileGrid<Pixel>,
    origin: FixedPoint,
    angle_range: Option<AngleRange>,
    reference: FixedVec,
    rays: Seq<StoredRay>,
) -> bool {
    forall|d: FixedVec|
        #[trigger] trace_direction(angle_range, d) ==> exists|res: (
            FixedPoint,
            Option<RayCollisionNormal>,
        )|
            {
                &&& #[trigger] crate::raycast::raycast_post(g, origin, d, MAXIMUM_RAY_RANGE, res)
                &&& exists|j: int|
                    0 <= j < rays.len() && angle_eq(
                        reference,
                        (#[trigger] rays[j]).offset,
                        result_offset(origin, res.0),
                    )
            }
}

pub(crate) proof fn lemma_mag2_nonneg(v: FixedVec)
    ensures
        spec_mag2(v) >= 0,
{
    assert(v.x * v.x + v.y * v.y >= 0) by (nonlinear_arith);
}

pub(crate) proof fn lemma_mag2_pos(v: FixedVec)
    requires
        !(v.x == 0 && v.y == 0),
    ensures
        spec_mag2(v) > 0,
{
    assert(v.x * v.x + v.y * v.y > 0) by (nonlinear_arith)
        requires
            !(v.x == 0 && v.y == 0),
    ;
}

/// Emitting one member of the current angular tie group keeps the
/// output fan sorted and still no later than everything left to
/// process.
#[verifier::spinoff_prover]
proof fn lemma_emit(
    g: TileGrid<Pixel>,
    origin: FixedPoint,
    angle_range: Option<AngleRange>,
    reference: FixedVec,
    inter: Seq<Ray>,
    prev: Seq<StoredRay>,
    cur: Seq<StoredRay>,
    idx: int,
    endp: int,
    p: int,
    nz: bool,
)
    requires
        cur == prev.push(stored(inter[p])),
        0 <= idx <= p < endp <= inter.len(),
        forall|k: int|
            0 <= k < inter.len() ==> candidate_ray(g, origin, angle_range, stored(
                #[trigger] inter[k],
            )),
        forall|k: int| 0 <= k < inter.len() ==> within_ray_cap((#[trigger] inter[k]).offset),
        forall|i: int| 0 <= i < prev.len() ==> candidate_ray(g, origin, angle_range, #[trigger] prev[i]),
        forall|i: int| 0 <= i < prev.len() ==> within_ray_cap((#[trigger] prev[i]).offset),
        nz ==> forall|a: int, b: int|
            #![trigger inter[a], inter[b]]
            0 <= a < b < inter.len() ==> angle_le(reference, inter[a].offset, inter[b].offset),
        nz ==> forall|p2: int, q: int|
            #![trigger inter[p2], inter[q]]
            idx <= p2 < q < endp ==> angle_eq(reference, inter[p2].offset, inter[q].offset),
        nz ==> fan_sorted(reference, prev),
        nz ==> forall|j: int, q: int|
            #![trigger prev[j], inter[q]]
            0 <= j < prev.len() && idx <= q < inter.len() ==> angle_le(
                reference,
                prev[j].offset,
                inter[q].offset,
            ),
    ensures
        cur.len() == prev.len() + 1,
        forall|j: int| 0 <= j < prev.len() ==> #[trigger] cur[j] == prev[j],
        cur[prev.len() as int] == stored(inter[p]),
        forall|i: int| 0 <= i < cur.len() ==> candidate_ray(g, origin, angle_range, #[trigger] cur[i]),
        forall|i: int| 0 <= i < cur.len() ==> within_ray_cap((#[trigger] cur[i]).offset),
        nz ==> fan_sorted(reference, cur),
        nz ==> forall|j: int, q: int|
            #![trigger cur[j], inter[q]]
            0 <= j < cur.len() && idx <= q < inter.len() ==> angle_le(
                reference,
                cur[j].offset,
                inter[q].offset,
            ),
{
    assert forall|i: int| 0 <= i < cur.len() implies candidate_ray(g, origin, angle_range, #[trigger] cur[i]) by {
        if i < prev.len() {
            assert(cur[i] == prev[i]);
        } else {
            assert(cur[i] == stored(inter[p]));
        }
    }
    assert forall|i: int| 0 <= i < cur.len() implies within_ray_cap((#[trigger] cur[i]).offset) by {
        if i < prev.len() {
            assert(cur[i] == prev[i]);
        } else {
            assert(cur[i] == stored(inter[p]));
        }
    }
    if nz {
        assert forall|a: int, b: int|
            #![trigger cur[a], cur[b]]
            0 <= a < b < cur.len() implies angle_le(reference, cur[a].offset, cur[b].offset) by {
            if b < prev.len() {
                assert(cur[a] == prev[a] && cur[b] == prev[b]);
                assert(angle_le(reference, prev[a].offset, prev[b].offset));
            } else {
                assert(cur[a] == prev[a] && cur[b] == stored(inter[p]));
                assert(angle_le(reference, prev[a].offset, inter[p].offset));
            }
        }
        assert forall|j: int, q: int|
            #![trigger cur[j], inter[q]]
            0 <= j < cur.len() && idx <= q < inter.len() implies angle_le(
            reference,
            cur[j].offset,
            inter[q].offset,
        ) by {
            if j < prev.len() {
                assert(cur[j] == prev[j]);
                assert(angle_le(reference, prev[j].offset, inter[q].offset));
            } else {
                assert(cur[j] == stored(inter[p]));
                if q < p {
                    // Both in the tie group: exactly the same angle.
                    assert(angle_eq(reference, inter[q].offset, inter[p].offset));
                } else if q == p {
                    assert(angle_le(reference, inter[p].offset, inter[p].offset)) by {
                        assert(crate::geometry::spec_perp(inter[p].offset, inter[p].offset) == 0)
                            by (nonlinear_arith);
                    }
                } else if q < endp {
                    assert(angle_eq(reference, inter[p].offset, inter[q].offset));
                } else {
                    assert(angle_le(reference, inter[p].offset, inter[q].offset));
                }
            }
        }
    }
}

/// An occluder grid together with its (lazily rebuilt) corner cache.
pub struct LightGrid {
    grid: TileGrid<Pixel>,
    updated: bool,
    corners: Vec<Corner>,
}

impl LightGrid {
    pub closed spec fn spec_grid(self) -> TileGrid<Pixel> {
        self.grid
    }

    /// The cell at a world index (solid outside the bounds).
    pub open spec fn cell(self, x: int, y: int) -> Pixel {
        self.spec_grid().cell(x, y)
    }


    pub closed spec fn spec_corners(self) -> Seq<Corner> {
        self.corners@
    }

    /// The cache holds exactly the corners of the grid: every cached
    /// entry is a corner of its vertex's 2x2 neighborhood table, at a
    /// lattice vertex inside the coordinate window, and every corner
    /// the table assigns to any lattice vertex is cached.
    pub open spec fn corners_complete(self) -> bool {
        &&& forall|i: int|
            0 <= i < self.spec_corners().len() ==> {
                &&& #[trigger] spec_is_corner(self.spec_grid(), self.spec_corners()[i])
                &&& -COORD_LIMIT <= self.spec_corners()[i].location.x <= COORD_LIMIT
                &&& -COORD_LIMIT <= self.spec_corners()[i].location.y <= COORD_LIMIT
            }
        &&& forall|c: Corner|
            #[trigger] spec_is_corner(self.spec_grid(), c) ==> self.spec_corners().contains(c)
    }

    pub closed spec fn wf(self) -> bool {
        &&& self.grid.wf()
        &&& !self.updated ==> self.corners_complete()
    }

    pub fn default() -> (r: LightGrid)
        ensures
            r.wf(),
            forall|x: int, y: int| #[trigger] r.cell(x, y) == Pixel::Solid,
    {
        let r = LightGrid { grid: TileGrid::default(), updated: true, corners: Vec::new() };
        r
    }

    pub fn get(&self, index: TileIndex) -> (r: Pixel)
        requires
            self.wf(),
        ensures
            r == self.cell(index.x as int, index.y as int),
    {
        self.grid.get(index)
    }

    /// Write one cell; the corner cache becomes stale.
    pub fn set(&mut self, index: TileIndex, pixel: Pixel)
        requires
            old(self).wf(),
            -COORD_LIMIT <= index.x < COORD_LIMIT,
            -COORD_LIMIT <= index.y < COORD_LIMIT,
        ensures
            final(self).wf(),
            final(self).cell(index.x as int, index.y as int) == pixel,
            forall|x: int, y: int|
                !(x == index.x as int && y == index.y as int) ==> #[trigger] final(self).cell(x, y)
                    == old(self).cell(x, y),
    {
        self.grid.set(index, pixel);
        self.updated = true;
    }

    /// Fill a square tile of `count` by `count` cells whose corner
    /// cell is `index`.
    pub fn fill_tile(&mut self, index: TileIndex, count: usize, pixel: Pixel)
        requires
            old(self).wf(),
            0 < count <= 64,
            -COORD_LIMIT <= index.x,
            index.x + count < COORD_LIMIT,
            -COORD_LIMIT <= index.y,
            index.y + count < COORD_LIMIT,
        ensures
            final(self).wf(),
            forall|x: int, y: int|
                index.x <= x < index.x + count && index.y <= y < index.y + count
                    ==> #[trigger] final(self).cell(x, y) == pixel,
            forall|x: int, y: int|
                !(index.x <= x < index.x + count && index.y <= y < index.y + count)
                    ==> #[trigger] final(self).cell(x, y) == old(self).cell(x, y),
    {
        let ghost orig = *self;
        let mut i: usize = 0;
        while i < count
            invariant
                self.wf(),
                0 < count <= 64,
                -COORD_LIMIT <= index.x,
                index.x + count < COORD_LIMIT,
                -COORD_LIMIT <= index.y,
                index.y + count < COORD_LIMIT,
                i <= count,
                forall|x: int, y: int|
                    index.x <= x < index.x + i && index.y <= y < index.y + count
                        ==> #[trigger] self.cell(x, y) == pixel,
                forall|x: int, y: int|
                    !(index.x <= x < index.x + i && index.y <= y < index.y + count)
                        ==> #[trigger] self.cell(x, y) == orig.cell(x, y),
            decreases count - i,
        {
            let mut j: usize = 0;
            while j < count
                invariant
                    self.wf(),
                    0 < count <= 64,
                    -COORD_LIMIT <= index.x,
                    index.x + count < COORD_LIMIT,
                    -COORD_LIMIT <= index.y,
                    index.y + count < COORD_LIMIT,
                    i < count,
                    j <= count,
                    forall|x: int, y: int|
                        index.x <= x < index.x + i && index.y <= y < index.y + count
                            ==> #[trigger] self.cell(x, y) == pixel,
                    forall|y: int|
                        index.y <= y < index.y + j ==> #[trigger] self.cell(index.x + i, y)
                            == pixel,
                    forall|x: int, y: int|
                        !(index.x <= x < index.x + i + 1 && index.y <= y < index.y + count)
                            ==> #[trigger] self.cell(x, y) == orig.cell(x, y),
                decreases count - j,
            {
                self.set(TileIndex { x: index.x + i as i64, y: index.y + j as i64 }, pixel);
                j = j + 1;
            }
            i = i + 1;
        }
    }

    /// Rebuild the corner cache if the grid changed, and hand the
    /// corners out.
    pub fn corners(&mut self) -> (r: &Vec<Corner>)
        requires
            old(self).wf(),
        ensures
            final(self).wf(),
            final(self).spec_grid() == old(self).spec_grid(),
            final(self).corners_complete(),
            r@ == final(self).spec_corners(),
    {
        if self.updated {
            self.regenerate_corners();
            self.updated = false;
        }
        &self.corners
    }

    /// Any lattice vertex strictly outside the grid bounds expanded
    /// by one is surrounded by solid cells and carries no corner.
    proof fn lemma_outside_no_corner(self, c: Corner)
        requires
            self.grid.wf(),
            !(self.grid.spec_bounds().origin.x <= c.location.x <= self.grid.spec_bounds().origin.x
                + self.grid.spec_bounds().size.x && self.grid.spec_bounds().origin.y <= c.location.y
                <= self.grid.spec_bounds().origin.y + self.grid.spec_bounds().size.y),
        ensures
            !spec_is_corner(self.grid, c),
    {
        self.grid.lemma_cell_out_of_bounds(c.location.x - 1, c.location.y - 1);
        self.grid.lemma_cell_out_of_bounds(c.location.x as int, c.location.y - 1);
        self.grid.lemma_cell_out_of_bounds(c.location.x - 1, c.location.y as int);
        self.grid.lemma_cell_out_of_bounds(c.location.x as int, c.location.y as int);
        assert(blocked(self.grid, c.location.x - 1, c.location.y - 1));
        assert(blocked(self.grid, c.location.x as int, c.location.y - 1));
        assert(blocked(self.grid, c.location.x - 1, c.location.y as int));
        assert(blocked(self.grid, c.location.x as int, c.location.y as int));
    }

    #[verifier::spinoff_prover]
    fn regenerate_corners(&mut self)
        requires
            old(self).grid.wf(),
        ensures
            final(self).grid == old(self).grid,
            final(self).updated == old(self).updated,
            forall|i: int|
                0 <= i < final(self).corners@.len() ==> {
                    &&& #[trigger] spec_is_corner(final(self).grid, final(self).corners@[i])
                    &&& -COORD_LIMIT <= final(self).corners@[i].location.x <= COORD_LIMIT
                    &&& -COORD_LIMIT <= final(self).corners@[i].location.y <= COORD_LIMIT
                },
            forall|c: Corner|
                #[trigger] spec_is_corner(final(self).grid, c) ==> final(self).corners@.contains(c),
    {
        let ghost g = self.grid;
        proof {
            self.grid.lemma_wf_bounds();
        }
        let bounds = self.grid.bounds();
        let x_lo = bounds.left();
        let x_hi = bounds.left() + bounds.size.x as i64 + 1;
        let y_lo = bounds.top();
        let y_hi = bounds.top() + bounds.size.y as i64 + 1;
        let mut corners: Vec<Corner> = Vec::new();
        let mut x = x_lo;
        while x < x_hi
            invariant
                self.grid == g,
                g.wf(),
                bounds == g.spec_bounds(),
                bounds.wf(),
                x_lo == bounds.origin.x,
                x_hi == bounds.origin.x + bounds.size.x + 1,
                y_lo == bounds.origin.y,
                y_hi == bounds.origin.y + bounds.size.y + 1,
                x_lo <= x <= x_hi,
                forall|i: int|
                    0 <= i < corners@.len() ==> {
                        &&& #[trigger] spec_is_corner(g, corners@[i])
                        &&& -COORD_LIMIT <= corners@[i].location.x <= COORD_LIMIT
                        &&& -COORD_LIMIT <= corners@[i].location.y <= COORD_LIMIT
                    },
                forall|c: Corner|
                    #[trigger] spec_is_corner(g, c) && x_lo <= c.location.x < x
                        ==> corners@.contains(c),
            decreases x_hi - x,
        {
            let mut y = y_lo;
            while y < y_hi
                invariant
                    self.grid == g,
                    g.wf(),
                    bounds == g.spec_bounds(),
                    bounds.wf(),
                    x_lo == bounds.origin.x,
                    x_hi == bounds.origin.x + bounds.size.x + 1,
                    y_lo == bounds.origin.y,
                    y_hi == bounds.origin.y + bounds.size.y + 1,
                    x_lo <= x < x_hi,
                    y_lo <= y <= y_hi,
                    forall|i: int|
                        0 <= i < corners@.len() ==> {
                            &&& #[trigger] spec_is_corner(g, corners@[i])
                            &&& -COORD_LIMIT <= corners@[i].location.x <= COORD_LIMIT
                            &&& -COORD_LIMIT <= corners@[i].location.y <= COORD_LIMIT
                        },
                    forall|c: Corner|
                        #[trigger] spec_is_corner(g, c) && (x_lo <= c.location.x < x || (
                        c.location.x == x && y_lo <= c.location.y < y)) ==> corners@.contains(c),
                decreases y_hi - y,
            {
                let nw = self.grid.get(TileIndex { x: x - 1, y: y - 1 }).blocks_light();
                let ne = self.grid.get(TileIndex { x, y: y - 1 }).blocks_light();
                let sw = self.grid.get(TileIndex { x: x - 1, y }).blocks_light();
                let se = self.grid.get(TileIndex { x, y }).blocks_light();
                let dirs = CornerDirection::from_neighborhood(nw, ne, sw, se);
                let ghost dseq = dirs@;
                let mut k: usize = 0;
                while k < dirs.len()
                    invariant
                        self.grid == g,
                        dseq == dirs@,
                        dseq == CornerDirection::spec_from_neighborhood(
                            blocked(g, x - 1, y - 1),
                            blocked(g, x as int, y - 1),
                            blocked(g, x - 1, y as int),
                            blocked(g, x as int, y as int),
                        ),
                        -COORD_LIMIT <= x <= COORD_LIMIT,
                        -COORD_LIMIT <= y <= COORD_LIMIT,
                        x_lo <= x,
                        y_lo <= y,
                        k <= dseq.len(),
                        forall|i: int|
                            0 <= i < corners@.len() ==> {
                                &&& #[trigger] spec_is_corner(g, corners@[i])
                                &&& -COORD_LIMIT <= corners@[i].location.x <= COORD_LIMIT
                                &&& -COORD_LIMIT <= corners@[i].location.y <= COORD_LIMIT
                            },
                        forall|c: Corner|
                            #[trigger] spec_is_corner(g, c) && (x_lo <= c.location.x < x || (
                            c.location.x == x && y_lo <= c.location.y < y))
                                ==> corners@.contains(c),
                        forall|j: int|
                            0 <= j < k ==> corners@.contains(
                                (Corner { location: TileIndex { x, y }, direction: #[trigger] dseq[j] }),
                            ),
                    decreases dirs@.len() - k,
                {
                    let c = Corner { location: TileIndex { x, y }, direction: dirs[k] };
                    proof {
                        assert(dseq.contains(dseq[k as int]));
                        assert(spec_is_corner(g, c));
                    }
                    let ghost prev = corners@;
                    corners.push(c);
                    proof {
                        // Everything present before is still present,
                        // and the pushed corner is at the last slot.
                        assert(corners@ == prev.push(c));
                        assert(corners@[prev.len() as int] == c);
                        assert forall|cc: Corner| prev.contains(cc) implies corners@.contains(
                            cc,
                        ) by {
                            let i = choose|i: int| 0 <= i < prev.len() && prev[i] == cc;
                            assert(corners@[i] == cc);
                        }
                        assert(corners@.contains(c));
                    }
                    k = k + 1;
                }
                proof {
                    // The vertex (x, y) is now fully covered: every
                    // corner the table assigns to it was pushed.
                    assert forall|c: Corner|
                        #[trigger] spec_is_corner(g, c) && (x_lo <= c.location.x < x || (
                        c.location.x == x && y_lo <= c.location.y < y + 1)) implies corners@.contains(
                        c,
                    ) by {
                        if c.location.x == x && c.location.y == y {
                            let j = choose|j: int| 0 <= j < dseq.len() && dseq[j] == c.direction;
                            assert(corners@.contains(
                                Corner { location: TileIndex { x, y }, direction: dseq[j] },
                            ));
                        }
                    }
                }
                y = y + 1;
            }
            proof {
                // Rows outside the scanned band of this column hold no
                // corners, so the whole column is covered.
                assert forall|c: Corner|
                    #[trigger] spec_is_corner(g, c) && x_lo <= c.location.x < x + 1 implies corners@.contains(
                    c,
                ) by {
                    if c.location.x == x && !(y_lo <= c.location.y < y_hi) {
                        self.lemma_outside_no_corner(c);
                    }
                }
            }
            x = x + 1;
        }
        proof {
            // Columns outside the scanned band hold no corners.
            assert forall|c: Corner| #[trigger] spec_is_corner(g, c) implies corners@.contains(
                c,
            ) by {
                if !(x_lo <= c.location.x < x_hi) {
                    self.lemma_outside_no_corner(c);
                }
            }
        }
        self.corners = corners;
    }
}


/// Whether the stopping point `p` of a ray from `from` lies at least
/// as far out as `to` (up to the rounding slack of hit points): the
/// ray toward `to` was not stopped short of it.
pub open spec fn reaches(from: FixedPoint, to: FixedPoint, p: FixedPoint) -> bool {
    (p.x - from.x) * (p.x - from.x) + (p.y - from.y) * (p.y - from.y) + CORNER_TOLERANCE >= (to.x
        - from.x) * (to.x - from.x) + (to.y - from.y) * (to.y - from.y)
}

impl LightGrid {
    /// Whether a straight path between two points crosses no
    /// occluder: the ray toward the target reaches (at least) the
    /// target's distance.
    pub fn contains_path(&self, from: FixedPoint, to: FixedPoint) -> (r: bool)
        requires
            self.wf(),
            in_window_point(from),
            in_window_point(to),
        ensures
            to == from ==> r,
            to != from ==> {
                let d = FixedVec { x: (to.x - from.x) as i64, y: (to.y - from.y) as i64 };
                &&& r ==> exists|res: (FixedPoint, Option<RayCollisionNormal>)|
                    #[trigger] crate::raycast::raycast_post(
                        self.spec_grid(),
                        from,
                        d,
                        MAXIMUM_RAY_RANGE,
                        res,
                    ) && reaches(from, to, res.0)
                &&& !r ==> exists|res: (FixedPoint, Option<RayCollisionNormal>)|
                    #[trigger] crate::raycast::raycast_post(
                        self.spec_grid(),
                        from,
                        d,
                        MAXIMUM_RAY_RANGE,
                        res,
                    ) && !reaches(from, to, res.0)
            },
    {
        let off = FixedVec { x: to.x - from.x, y: to.y - from.y };
        if off.x == 0 && off.y == 0 {
            return true;
        }
        let rc = self.raycast_from(from, off, MAXIMUM_RAY_RANGE);
        let foff = FixedVec { x: rc.0.x - from.x, y: rc.0.y - from.y };
        let r = mag2(foff) + CORNER_TOLERANCE >= mag2(off);
        proof {
            assert(crate::raycast::raycast_post(
                self.spec_grid(),
                from,
                off,
                MAXIMUM_RAY_RANGE,
                rc,
            ));
            assert(r == reaches(from, to, rc.0));
        }
        r
    }

    /// Cast a single ray against this grid's cells.
    pub fn raycast_from(&self, start: FixedPoint, direction: FixedVec, max_distance: i64) -> (r: (
        FixedPoint,
        Option<RayCollisionNormal>,
    ))
        requires
            self.wf(),
            in_window_point(start),
            in_window_vec(direction),
            !(direction.x == 0 && direction.y == 0),
            0 < max_distance <= FIXED_LIMIT,
        ensures
            crate::raycast::raycast_post(self.spec_grid(), start, direction, max_distance, r),
            -(max_distance + SCALE as int) <= r.0.x - start.x <= max_distance + SCALE,
            -(max_distance + SCALE as int) <= r.0.y - start.y <= max_distance + SCALE,
    {
        raycast(&self.grid, start, direction, max_distance)
    }

    /// Compute the visibility area seen from `origin`, optionally
    /// restricted to a cone: the ordered fan of rays that exactly
    /// bounds all unoccluded space around the origin.
    ///
    /// Two edge rays bound a cone (or four sentinel diagonal rays a
    /// full circle); every corner of the grid that faces the origin
    /// and survives an occlusion raycast contributes a ray stopping at
    /// it, and, where light wraps around a convex corner, a second
    /// ray continuing to the next hit.  The collected rays are sorted
    /// by exact counter-clockwise angle and angularly tied rays are
    /// merged to the nearest and farthest of each tie.
    #[verifier::spinoff_prover]
    #[verifier::rlimit(100)]
    pub fn trace_light_from(&mut self, origin: FixedPoint, angle_range: Option<AngleRange>) -> (r:
        LightArea)
        requires
            old(self).wf(),
            in_window_point(origin),
            match angle_range {
                Some(ar) => in_window_vec(ar.left) && in_window_vec(ar.right) && !(ar.left.x == 0
                    && ar.left.y == 0) && !(ar.right.x == 0 && ar.right.y == 0),
                None => true,
            },
        ensures
            final(self).wf(),
            final(self).spec_grid() == old(self).spec_grid(),
            r.origin == origin,
            r.range == angle_range,
            r.rays@.len() >= 1,
            forall|i: int|
                0 <= i < r.rays@.len() ==> candidate_ray(
                    old(self).spec_grid(),
                    origin,
                    angle_range,
                    #[trigger] r.rays@[i],
                ),
            forall|i: int|
                0 <= i < r.rays@.len() ==> within_ray_cap((#[trigger] r.rays@[i]).offset),
            // When no ray of the fan is degenerate (degenerate rays
            // only arise with the origin buried in solid cells), the
            // fan is sorted by exact counter-clockwise angle — from
            // the cone's left bound, or, for a full circle, from the
            // first seeded boundary ray — and every eligible,
            // unoccluded corner of the grid shows in it at exactly
            // its own angle.
            (forall|i: int|
                0 <= i < r.rays@.len() ==> spec_mag2((#[trigger] r.rays@[i]).offset) > 0) ==> match angle_range {
                Some(ar) => crate::area::fan_sorted(ar.left, r.rays@) && trace_complete(
                    old(self).spec_grid(),
                    origin,
                    angle_range,
                    ar.left,
                    r.rays@,
                ) && trace_boundaries(
                    old(self).spec_grid(),
                    origin,
                    angle_range,
                    ar.left,
                    r.rays@,
                ),
                None => exists|refv: FixedVec|
                    #[trigger] crate::area::fan_sorted(refv, r.rays@) && trace_complete(
                        old(self).spec_grid(),
                        origin,
                        angle_range,
                        refv,
                        r.rays@,
                    ) && trace_boundaries(
                        old(self).spec_grid(),
                        origin,
                        angle_range,
                        refv,
                        r.rays@,
                    ),
            },
    {
        let _ = self.corners();
        let ghost snap = *self;
        let mut unorganized: Vec<Ray> = Vec::new();
        let ghost mut bres: Seq<(FixedVec, (FixedPoint, Option<RayCollisionNormal>))> =
            Seq::empty();
        match angle_range {
            Some(range) => {
                let (finish, dirn) = raycast(&self.grid, origin, range.left, MAXIMUM_RAY_RANGE);
                let ray = Ray {
                    offset: FixedVec { x: finish.x - origin.x, y: finish.y - origin.y },
                    partition: RayPartition::RightEdge,
                    collision: dirn,
                };
                proof {
                    lemma_cap_from_coords(ray.offset);
                    assert(candidate_ray(snap.spec_grid(), origin, angle_range, stored(ray))) by {
                        assert(trace_direction(angle_range, range.left));
                        assert(crate::raycast::raycast_post(
                            snap.spec_grid(),
                            origin,
                            range.left,
                            MAXIMUM_RAY_RANGE,
                            (finish, dirn),
                        ));
                        assert(stored(ray).offset == result_offset(origin, finish));
                    }
                }
                unorganized.push(ray);
                proof {
                    assert(unorganized@[0].offset == result_offset(origin, finish));
                }
                let ghost res_left = (finish, dirn);
                let (finish, dirn) = raycast(&self.grid, origin, range.right, MAXIMUM_RAY_RANGE);
                let ray = Ray {
                    offset: FixedVec { x: finish.x - origin.x, y: finish.y - origin.y },
                    partition: RayPartition::LeftEdge,
                    collision: dirn,
                };
                proof {
                    lemma_cap_from_coords(ray.offset);
                    assert(candidate_ray(snap.spec_grid(), origin, angle_range, stored(ray))) by {
                        assert(trace_direction(angle_range, range.right));
                        assert(crate::raycast::raycast_post(
                            snap.spec_grid(),
                            origin,
                            range.right,
                            MAXIMUM_RAY_RANGE,
                            (finish, dirn),
                        ));
                        assert(stored(ray).offset == result_offset(origin, finish));
                    }
                }
                unorganized.push(ray);
                proof {
                    assert(unorganized@[1].offset == result_offset(origin, finish));
                    bres = seq![(range.left, res_left), (range.right, (finish, dirn))];
                    assert forall|bi: int| 0 <= bi < bres.len() implies crate::raycast::raycast_post(
                        snap.spec_grid(),
                        origin,
                        (#[trigger] bres[bi]).0,
                        MAXIMUM_RAY_RANGE,
                        bres[bi].1,
                    ) && has_offset(unorganized@, result_offset(origin, bres[bi].1.0)) by {
                        if bi == 0 {
                            assert(unorganized@[0].offset == result_offset(origin, res_left.0));
                        } else {
                            assert(unorganized@[1].offset == result_offset(origin, finish));
                        }
                    }
                    assert forall|d: FixedVec| #[trigger] trace_direction(angle_range, d) implies exists|bi: int|
                        0 <= bi < bres.len() && (#[trigger] bres[bi]).0 == d by {
                        if d == range.left {
                            assert(bres[0].0 == d);
                        } else {
                            assert(bres[1].0 == d);
                        }
                    }
                }
            },
            None => {
                // Sentinel directions of irrational-like slope, so a
                // full-circle trace rarely lands exactly on a corner.
                let mut di: usize = 0;
                while di < 4
                    invariant
                        *self == snap,
                        snap.wf(),
                        in_window_point(origin),
                        angle_range is None,
                        unorganized@.len() == di,
                        forall|i: int|
                            0 <= i < unorganized@.len() ==> in_window_vec(
                                #[trigger] unorganized@[i].offset,
                            ),
                        forall|i: int|
                            0 <= i < unorganized@.len() ==> candidate_ray(snap.spec_grid(), origin, angle_range, stored(#[trigger] unorganized@[i])),
                        forall|i: int|
                            0 <= i < unorganized@.len() ==> within_ray_cap(
                                (#[trigger] unorganized@[i]).offset,
                            ),
                        bres.len() == di,
                        forall|bi: int|
                            0 <= bi < bres.len() ==> (#[trigger] bres[bi]).0 == sentinel_at(bi),
                        forall|bi: int|
                            0 <= bi < bres.len() ==> crate::raycast::raycast_post(
                                snap.spec_grid(),
                                origin,
                                (#[trigger] bres[bi]).0,
                                MAXIMUM_RAY_RANGE,
                                bres[bi].1,
                            ) && has_offset(unorganized@, result_offset(origin, bres[bi].1.0)),
                    decreases 4 - di,
                {
                    let ghost head = unorganized@;
                    let d = if di == 0 {
                        FixedVec { x: 65536, y: 205887 }
                    } else if di == 1 {
                        FixedVec { x: -205887, y: 65536 }
                    } else if di == 2 {
                        FixedVec { x: -65536, y: -205887 }
                    } else {
                        FixedVec { x: 205887, y: -65536 }
                    };
                    let (finish, dirn) = raycast(&self.grid, origin, d, MAXIMUM_RAY_RANGE);
                    let ray = Ray {
                        offset: FixedVec { x: finish.x - origin.x, y: finish.y - origin.y },
                        partition: RayPartition::Middle,
                        collision: dirn,
                    };
                    proof {
                        lemma_cap_from_coords(ray.offset);
                        assert(candidate_ray(snap.spec_grid(), origin, angle_range, stored(
                            ray,
                        ))) by {
                            assert(sentinel_direction(d));
                            assert(crate::raycast::raycast_post(
                                snap.spec_grid(),
                                origin,
                                d,
                                MAXIMUM_RAY_RANGE,
                                (finish, dirn),
                            ));
                            assert(stored(ray).offset == result_offset(origin, finish));
                        }
                    }
                    unorganized.push(ray);
                    proof {
                        assert(d == sentinel_at(di as int));
                        assert(unorganized@[head.len() as int].offset == result_offset(
                            origin,
                            finish,
                        ));
                        let ghost prev_bres = bres;
                        bres = bres.push((d, (finish, dirn)));
                        assert forall|bi: int|
                            0 <= bi < bres.len() implies crate::raycast::raycast_post(
                            snap.spec_grid(),
                            origin,
                            (#[trigger] bres[bi]).0,
                            MAXIMUM_RAY_RANGE,
                            bres[bi].1,
                        ) && has_offset(unorganized@, result_offset(origin, bres[bi].1.0)) by {
                            if bi < prev_bres.len() {
                                assert(bres[bi] == prev_bres[bi]);
                                let k = choose|k: int|
                                    0 <= k < head.len() && (#[trigger] head[k]).offset
                                        == result_offset(origin, prev_bres[bi].1.0);
                                assert(unorganized@[k].offset == result_offset(
                                    origin,
                                    bres[bi].1.0,
                                ));
                            } else {
                                assert(bres[bi] == (d, (finish, dirn)));
                            }
                        }
                    }
                    di = di + 1;
                }
                proof {
                    assert forall|d: FixedVec| #[trigger] trace_direction(angle_range, d) implies exists|bi: int|
                        0 <= bi < bres.len() && (#[trigger] bres[bi]).0 == d by {
                        if d == sentinel_at(0) {
                            assert(bres[0].0 == d);
                        } else if d == sentinel_at(1) {
                            assert(bres[1].0 == d);
                        } else if d == sentinel_at(2) {
                            assert(bres[2].0 == d);
                        } else {
                            assert(d == sentinel_at(3));
                            assert(bres[3].0 == d);
                        }
                    }
                }
            },
        }
        let mut ci: usize = 0;
        while ci < self.corners.len()
            invariant
                *self == snap,
                snap.wf(),
                snap.corners_complete(),
                unorganized@.len() >= 2,
                forall|bi: int|
                    0 <= bi < bres.len() ==> crate::raycast::raycast_post(
                        snap.spec_grid(),
                        origin,
                        (#[trigger] bres[bi]).0,
                        MAXIMUM_RAY_RANGE,
                        bres[bi].1,
                    ) && has_offset(unorganized@, result_offset(origin, bres[bi].1.0)),
                // Every eligible corner processed so far either had
                // its occlusion raycast stop short, or contributed a
                // ray stopping exactly at it.
                forall|cc: int|
                    0 <= cc < ci && corner_eligible(
                        origin,
                        angle_range,
                        #[trigger] snap.spec_corners()[cc],
                    ) ==> exists|res: (FixedPoint, Option<RayCollisionNormal>)|
                        {
                            &&& #[trigger] crate::raycast::raycast_post(
                                snap.spec_grid(),
                                origin,
                                corner_offset(origin, snap.spec_corners()[cc]),
                                MAXIMUM_RAY_RANGE,
                                res,
                            )
                            &&& corner_reached(origin, snap.spec_corners()[cc], res.0)
                                ==> has_offset(
                                unorganized@,
                                corner_offset(origin, snap.spec_corners()[cc]),
                            )
                        },
                in_window_point(origin),
                match angle_range {
                    Some(ar) => in_window_vec(ar.left) && in_window_vec(ar.right),
                    None => true,
                },
                forall|i: int|
                    0 <= i < unorganized@.len() ==> in_window_vec(
                        #[trigger] unorganized@[i].offset,
                    ),
                forall|i: int|
                    0 <= i < unorganized@.len() ==> candidate_ray(snap.spec_grid(), origin, angle_range, stored(#[trigger] unorganized@[i])),
                forall|i: int|
                    0 <= i < unorganized@.len() ==> within_ray_cap(
                        (#[trigger] unorganized@[i]).offset,
                    ),
            decreases self.corners.len() - ci,
        {
            let ghost head = unorganized@;
            let corner = self.corners[ci];
            proof {
                assert(spec_is_corner(self.spec_grid(), self.spec_corners()[ci as int]));
            }
            let cloc = FixedPoint {
                x: corner.location.x * SCALE,
                y: corner.location.y * SCALE,
            };
            let off = FixedVec { x: cloc.x - origin.x, y: cloc.y - origin.y };
            let negoff = FixedVec { x: -off.x, y: -off.y };
            let dir_ok = corner.direction.contains_offset(negoff);
            let range_ok = match angle_range {
                Some(ar) => ar.contains_offset(off),
                None => true,
            };
            if dir_ok && range_ok && !(off.x == 0 && off.y == 0) {
                let (finish, dirn) = raycast(&self.grid, origin, off, MAXIMUM_RAY_RANGE);
                let foff = FixedVec { x: finish.x - origin.x, y: finish.y - origin.y };
                let f_m2 = mag2(foff);
                let o_m2 = mag2(off);
                if f_m2 >= o_m2 - CORNER_TOLERANCE {
                    let ray_continues = !(corner.direction.is_concave()
                        || corner.direction.contains_offset_strict(negoff));
                    let skip = corner.direction.should_skip(negoff);
                    if !skip {
                        let partition = if corner.direction.is_on_edge(negoff) {
                            if corner.direction.is_convex() != corner.direction.is_on_left_edge(
                                negoff,
                            ) {
                                RayPartition::Right
                            } else {
                                RayPartition::Left
                            }
                        } else if ray_continues {
                            if corner.direction.is_offset_to_left(negoff) {
                                RayPartition::Left
                            } else {
                                RayPartition::Right
                            }
                        } else {
                            RayPartition::Middle
                        };
                        let collision = if ray_continues {
                            Some(RayCollisionNormal::Corner(corner.direction, true))
                        } else {
                            dirn
                        };
                        let ray = Ray { offset: off, partition, collision };
                        proof {
                            lemma_cap_from_coords(foff);
                            assert(within_ray_cap(off));
                            assert(candidate_ray(snap.spec_grid(), origin, angle_range, stored(
                                ray,
                            ))) by {
                                assert(spec_is_corner(snap.spec_grid(), corner));
                                assert(stored(ray).offset == corner_offset(origin, corner));
                                assert(corner_passes(origin, angle_range, corner, finish)) by {
                                    assert(result_offset(origin, finish) == foff);
                                }
                                assert(crate::raycast::raycast_post(
                                    snap.spec_grid(),
                                    origin,
                                    stored(ray).offset,
                                    MAXIMUM_RAY_RANGE,
                                    (finish, dirn),
                                ));
                            }
                        }
                        unorganized.push(ray);
                    }
                    if ray_continues {
                        let partition = if corner.direction.is_offset_to_left(negoff) {
                            RayPartition::Right
                        } else {
                            RayPartition::Left
                        };
                        let ray = Ray { offset: foff, partition, collision: dirn };
                        proof {
                            lemma_cap_from_coords(foff);
                            assert(candidate_ray(snap.spec_grid(), origin, angle_range, stored(
                                ray,
                            ))) by {
                                assert(spec_is_corner(snap.spec_grid(), corner));
                                assert(off == corner_offset(origin, corner));
                                assert(corner_passes(origin, angle_range, corner, finish)) by {
                                    assert(result_offset(origin, finish) == foff);
                                }
                                assert(crate::raycast::raycast_post(
                                    snap.spec_grid(),
                                    origin,
                                    corner_offset(origin, corner),
                                    MAXIMUM_RAY_RANGE,
                                    (finish, dirn),
                                ));
                                assert(stored(ray).offset == result_offset(origin, finish));
                            }
                        }
                        unorganized.push(ray);
                    }
                    proof {
                        if !skip {
                            // The ray stopping exactly at the corner
                            // is in the collection.
                            assert(has_offset(unorganized@, off)) by {
                                if ray_continues {
                                    assert(unorganized@[unorganized@.len() - 2].offset == off);
                                } else {
                                    assert(unorganized@[unorganized@.len() - 1].offset == off);
                                }
                            }
                        }
                    }
                }
                proof {
                    if corner_eligible(origin, angle_range, snap.spec_corners()[ci as int]) {
                        assert(exists|res: (FixedPoint, Option<RayCollisionNormal>)|
                            {
                                &&& #[trigger] crate::raycast::raycast_post(
                                    snap.spec_grid(),
                                    origin,
                                    corner_offset(origin, snap.spec_corners()[ci as int]),
                                    MAXIMUM_RAY_RANGE,
                                    res,
                                )
                                &&& corner_reached(origin, snap.spec_corners()[ci as int], res.0)
                                    ==> has_offset(
                                    unorganized@,
                                    corner_offset(origin, snap.spec_corners()[ci as int]),
                                )
                            }) by {
                            assert(off == corner_offset(origin, snap.spec_corners()[ci as int]));
                            assert(crate::raycast::raycast_post(
                                snap.spec_grid(),
                                origin,
                                off,
                                MAXIMUM_RAY_RANGE,
                                (finish, dirn),
                            ));
                            if corner_reached(origin, snap.spec_corners()[ci as int], finish) {
                                assert(result_offset(origin, finish) == foff);
                                assert(f_m2 >= o_m2 - CORNER_TOLERANCE);
                                assert(has_offset(unorganized@, off));
                            }
                        }
                    }
                }
            }
            proof {
                assert forall|k: int| 0 <= k < head.len() implies #[trigger] unorganized@[k]
                    == head[k] by {}
                assert forall|bi: int|
                    0 <= bi < bres.len() implies crate::raycast::raycast_post(
                    snap.spec_grid(),
                    origin,
                    (#[trigger] bres[bi]).0,
                    MAXIMUM_RAY_RANGE,
                    bres[bi].1,
                ) && has_offset(unorganized@, result_offset(origin, bres[bi].1.0)) by {
                    let k = choose|k: int|
                        0 <= k < head.len() && (#[trigger] head[k]).offset == result_offset(
                            origin,
                            bres[bi].1.0,
                        );
                    assert(unorganized@[k].offset == result_offset(origin, bres[bi].1.0));
                }
                assert forall|cc: int|
                    0 <= cc < ci + 1 && corner_eligible(
                        origin,
                        angle_range,
                        #[trigger] snap.spec_corners()[cc],
                    ) implies exists|res: (FixedPoint, Option<RayCollisionNormal>)|
                    {
                        &&& #[trigger] crate::raycast::raycast_post(
                            snap.spec_grid(),
                            origin,
                            corner_offset(origin, snap.spec_corners()[cc]),
                            MAXIMUM_RAY_RANGE,
                            res,
                        )
                        &&& corner_reached(origin, snap.spec_corners()[cc], res.0) ==> has_offset(
                            unorganized@,
                            corner_offset(origin, snap.spec_corners()[cc]),
                        )
                    } by {
                    if cc < ci {
                        let res = choose|res: (FixedPoint, Option<RayCollisionNormal>)|
                            {
                                &&& #[trigger] crate::raycast::raycast_post(
                                    snap.spec_grid(),
                                    origin,
                                    corner_offset(origin, snap.spec_corners()[cc]),
                                    MAXIMUM_RAY_RANGE,
                                    res,
                                )
                                &&& corner_reached(origin, snap.spec_corners()[cc], res.0)
                                    ==> has_offset(
                                    head,
                                    corner_offset(origin, snap.spec_corners()[cc]),
                                )
                            };
                        if corner_reached(origin, snap.spec_corners()[cc], res.0) {
                            let k = choose|k: int|
                                0 <= k < head.len() && (#[trigger] head[k]).offset
                                    == corner_offset(origin, snap.spec_corners()[cc]);
                            assert(unorganized@[k].offset == corner_offset(
                                origin,
                                snap.spec_corners()[cc],
                            ));
                        }
                    }
                }
            }
            ci = ci + 1;
        }
        let reference = match angle_range {
            Some(ar) => ar.left,
            None => unorganized[0].offset,
        };
        // Sort the fan by exact counter-clockwise angle.  When no ray
        // is degenerate (zero offset), the comparator is a total,
        // transitive order and the result is fully sorted.
        let ghost glen = unorganized@.len();
        let ghost collected = unorganized@;
        let ghost nz = (forall|k: int|
            0 <= k < unorganized@.len() ==> spec_mag2((#[trigger] unorganized@[k]).offset) > 0)
            && spec_mag2(reference) > 0;
        let mut i: usize = 1;
        while i < unorganized.len()
            invariant
                in_window_vec(reference),
                in_window_point(origin),
                *self == snap,
                unorganized@.len() == glen,
                glen >= 2,
                forall|k: int|
                    0 <= k < unorganized@.len() ==> in_window_vec(
                        #[trigger] unorganized@[k].offset,
                    ),
                forall|k: int|
                    0 <= k < unorganized@.len() ==> candidate_ray(snap.spec_grid(), origin, angle_range, stored(#[trigger] unorganized@[k])),
                forall|k: int|
                    0 <= k < unorganized@.len() ==> within_ray_cap(
                        (#[trigger] unorganized@[k]).offset,
                    ),
                match angle_range {
                    None => exists|k: int|
                        0 <= k < unorganized@.len() && (#[trigger] unorganized@[k]).offset
                            == reference,
                    Some(ar) => reference == ar.left,
                },
                nz <==> ((forall|k: int|
                    0 <= k < unorganized@.len() ==> spec_mag2(
                        (#[trigger] unorganized@[k]).offset,
                    ) > 0) && spec_mag2(reference) > 0),
                forall|o: FixedVec| has_offset(collected, o) ==> #[trigger] has_offset(
                    unorganized@,
                    o,
                ),
                nz ==> forall|a: int, b: int|
                    #![trigger unorganized@[a], unorganized@[b]]
                    0 <= a < b < i ==> angle_le(
                        reference,
                        unorganized@[a].offset,
                        unorganized@[b].offset,
                    ),
                1 <= i,
            decreases glen - i,
        {
            let mut j: usize = i;
            while j > 0 && !angle_le_exec(
                reference,
                unorganized[j - 1].offset,
                unorganized[j].offset,
            )
                invariant
                    in_window_vec(reference),
                    in_window_point(origin),
                    *self == snap,
                    unorganized@.len() == glen,
                    i < glen,
                    forall|k: int|
                        0 <= k < unorganized@.len() ==> in_window_vec(
                            #[trigger] unorganized@[k].offset,
                        ),
                    forall|k: int|
                        0 <= k < unorganized@.len() ==> candidate_ray(snap.spec_grid(), origin, angle_range, stored(#[trigger] unorganized@[k])),
                    forall|k: int|
                        0 <= k < unorganized@.len() ==> within_ray_cap(
                            (#[trigger] unorganized@[k]).offset,
                        ),
                    match angle_range {
                        None => exists|k: int|
                            0 <= k < unorganized@.len() && (#[trigger] unorganized@[k]).offset
                                == reference,
                        Some(ar) => reference == ar.left,
                    },
                    nz <==> ((forall|k: int|
                        0 <= k < unorganized@.len() ==> spec_mag2(
                            (#[trigger] unorganized@[k]).offset,
                        ) > 0) && spec_mag2(reference) > 0),
                    forall|o: FixedVec| has_offset(collected, o) ==> #[trigger] has_offset(
                        unorganized@,
                        o,
                    ),
                    j <= i,
                    // All pairs below the insertion frontier are in
                    // order, except those ending at the sinking
                    // element, which is itself before everything
                    // after it up to the frontier.
                    nz ==> forall|a: int, b: int|
                        #![trigger unorganized@[a], unorganized@[b]]
                        0 <= a < b <= i && b != j ==> angle_le(
                            reference,
                            unorganized@[a].offset,
                            unorganized@[b].offset,
                        ),
                    nz ==> forall|b: int|
                        j < b <= i ==> angle_le(
                            reference,
                            unorganized@[j as int].offset,
                            (#[trigger] unorganized@[b]).offset,
                        ),
                    j < unorganized@.len(),
                decreases j,
            {
                let a = unorganized[j - 1];
                let b = unorganized[j];
                let ghost before = unorganized@;
                unorganized.set(j - 1, b);
                unorganized.set(j, a);
                proof {
                    assert forall|k: int|
                        0 <= k < unorganized@.len() implies candidate_ray(snap.spec_grid(), origin, angle_range, stored(#[trigger] unorganized@[k])) by {
                        if k == j - 1 {
                            assert(unorganized@[k] == before[j as int]);
                        } else if k == j {
                            assert(unorganized@[k] == before[j - 1]);
                        } else {
                            assert(unorganized@[k] == before[k]);
                        }
                    }
                    if forall|k: int|
                        0 <= k < before.len() ==> spec_mag2((#[trigger] before[k]).offset) > 0 {
                        assert forall|k: int|
                            0 <= k < unorganized@.len() implies spec_mag2(
                            (#[trigger] unorganized@[k]).offset,
                        ) > 0 by {
                            if k == j - 1 {
                                assert(unorganized@[k] == before[j as int]);
                            } else if k == j {
                                assert(unorganized@[k] == before[j - 1]);
                            } else {
                                assert(unorganized@[k] == before[k]);
                            }
                        }
                    } else {
                        let bad = choose|k: int|
                            0 <= k < before.len() && !(spec_mag2(
                                (#[trigger] before[k]).offset,
                            ) > 0);
                        if bad == j - 1 {
                            assert(unorganized@[j as int] == before[j - 1]);
                        } else if bad == j {
                            assert(unorganized@[j - 1] == before[j as int]);
                        } else {
                            assert(unorganized@[bad] == before[bad]);
                        }
                    }
                    assert forall|o: FixedVec| has_offset(collected, o) implies #[trigger] has_offset(
                        unorganized@,
                        o,
                    ) by {
                        assert(has_offset(before, o));
                        let k = choose|k: int|
                            0 <= k < before.len() && (#[trigger] before[k]).offset == o;
                        if k == j - 1 {
                            assert(unorganized@[j as int].offset == o);
                        } else if k == j {
                            assert(unorganized@[j - 1].offset == o);
                        } else {
                            assert(unorganized@[k].offset == o);
                        }
                    }
                    if angle_range is None {
                        let k0 = choose|k: int|
                            0 <= k < before.len() && (#[trigger] before[k]).offset == reference;
                        if k0 == j - 1 {
                            assert(unorganized@[j as int].offset == reference);
                        } else if k0 == j {
                            assert(unorganized@[j - 1].offset == reference);
                        } else {
                            assert(unorganized@[k0].offset == reference);
                        }
                    }
                    if nz {
                        // The two swapped elements flip into order by
                        // totality; every other pair is untouched.
                        lemma_angle_le_total(reference, before[j - 1].offset, before[j as int].offset);
                        assert forall|aa: int, bb: int|
                            #![trigger unorganized@[aa], unorganized@[bb]]
                            0 <= aa < bb <= i && bb != j - 1 implies angle_le(
                            reference,
                            unorganized@[aa].offset,
                            unorganized@[bb].offset,
                        ) by {
                            if aa == j - 1 {
                                // the swapped-down element against a
                                // later one
                                if bb == j {
                                    assert(unorganized@[bb] == before[j - 1]);
                                } else {
                                    assert(unorganized@[aa] == before[j as int]);
                                    assert(unorganized@[bb] == before[bb]);
                                }
                            } else if aa == j {
                                assert(unorganized@[aa] == before[j - 1]);
                                assert(unorganized@[bb] == before[bb]);
                                assert(angle_le(reference, before[j - 1].offset, before[bb].offset));
                            } else {
                                assert(unorganized@[aa] == before[aa]);
                                if bb == j {
                                    assert(unorganized@[bb] == before[j - 1]);
                                    assert(angle_le(
                                        reference,
                                        before[aa].offset,
                                        before[j - 1].offset,
                                    ));
                                } else {
                                    assert(unorganized@[bb] == before[bb]);
                                }
                            }
                        }
                        assert forall|bb: int|
                            j - 1 < bb <= i implies angle_le(
                            reference,
                            unorganized@[j - 1].offset,
                            (#[trigger] unorganized@[bb]).offset,
                        ) by {
                            if bb == j {
                                assert(unorganized@[bb] == before[j - 1]);
                            } else {
                                assert(unorganized@[bb] == before[bb]);
                                lemma_angle_le_trans(
                                    reference,
                                    before[j as int].offset,
                                    before[j - 1].offset,
                                    before[bb].offset,
                                );
                            }
                        }
                    }
                }
                j = j - 1;
            }
            proof {
                if nz {
                    // The sunk element is now in place: stitch the
                    // pairs that end at it.
                    assert forall|a: int, b: int|
                        #![trigger unorganized@[a], unorganized@[b]]
                        0 <= a < b < i + 1 implies angle_le(
                        reference,
                        unorganized@[a].offset,
                        unorganized@[b].offset,
                    ) by {
                        if b == j && j > 0 {
                            if a < j - 1 {
                                lemma_angle_le_trans(
                                    reference,
                                    unorganized@[a].offset,
                                    unorganized@[j - 1].offset,
                                    unorganized@[j as int].offset,
                                );
                            }
                        }
                    }
                }
            }
            i = i + 1;
        }
        // Merge angularly tied rays: keep one of an equal-length tie,
        // else the shortest and the longest ordered by partition.
        let mut rays: Vec<StoredRay> = Vec::new();
        let mut idx: usize = 0;
        while idx < unorganized.len()
            invariant
                in_window_vec(reference),
                in_window_point(origin),
                *self == snap,
                unorganized@.len() == glen,
                glen >= 2,
                forall|k: int|
                    0 <= k < unorganized@.len() ==> in_window_vec(
                        #[trigger] unorganized@[k].offset,
                    ),
                forall|k: int|
                    0 <= k < unorganized@.len() ==> candidate_ray(snap.spec_grid(), origin, angle_range, stored(#[trigger] unorganized@[k])),
                forall|k: int|
                    0 <= k < unorganized@.len() ==> within_ray_cap(
                        (#[trigger] unorganized@[k]).offset,
                    ),
                match angle_range {
                    None => exists|k: int|
                        0 <= k < unorganized@.len() && (#[trigger] unorganized@[k]).offset
                            == reference,
                    Some(ar) => reference == ar.left,
                },
                nz <==> ((forall|k: int|
                    0 <= k < unorganized@.len() ==> spec_mag2(
                        (#[trigger] unorganized@[k]).offset,
                    ) > 0) && spec_mag2(reference) > 0),
                nz ==> forall|a: int, b: int|
                    #![trigger unorganized@[a], unorganized@[b]]
                    0 <= a < b < glen ==> angle_le(
                        reference,
                        unorganized@[a].offset,
                        unorganized@[b].offset,
                    ),
                forall|i: int|
                    0 <= i < rays@.len() ==> candidate_ray(snap.spec_grid(), origin, angle_range, #[trigger] rays@[i]),
                forall|i: int|
                    0 <= i < rays@.len() ==> within_ray_cap((#[trigger] rays@[i]).offset),
                nz ==> fan_sorted(reference, rays@),
                nz ==> forall|j: int, q: int|
                    #![trigger rays@[j], unorganized@[q]]
                    0 <= j < rays@.len() && idx <= q < glen ==> angle_le(
                        reference,
                        rays@[j].offset,
                        unorganized@[q].offset,
                    ),
                forall|k: int|
                    0 <= k < idx && spec_mag2((#[trigger] unorganized@[k]).offset) == 0
                        ==> exists|j: int|
                        0 <= j < rays@.len() && spec_mag2((#[trigger] rays@[j]).offset) == 0,
                forall|o: FixedVec| has_offset(collected, o) ==> #[trigger] has_offset(
                    unorganized@,
                    o,
                ),
                nz ==> forall|k: int|
                    #![trigger unorganized@[k]]
                    0 <= k < idx ==> exists|j: int|
                        0 <= j < rays@.len() && angle_eq(
                            reference,
                            (#[trigger] rays@[j]).offset,
                            unorganized@[k].offset,
                        ),
                idx > 0 ==> rays@.len() >= 1,
                idx <= glen,
            decreases unorganized@.len() - idx,
        {
            let mut end: usize = idx + 1;
            let mut stop: bool = false;
            while !stop
                invariant
                in_window_vec(reference),
                in_window_point(origin),
                *self == snap,
                unorganized@.len() == glen,
                glen >= 2,
                forall|k: int|
                    0 <= k < unorganized@.len() ==> in_window_vec(
                        #[trigger] unorganized@[k].offset,
                    ),
                forall|k: int|
                    0 <= k < unorganized@.len() ==> candidate_ray(snap.spec_grid(), origin, angle_range, stored(#[trigger] unorganized@[k])),
                forall|k: int|
                    0 <= k < unorganized@.len() ==> within_ray_cap(
                        (#[trigger] unorganized@[k]).offset,
                    ),
                match angle_range {
                    None => exists|k: int|
                        0 <= k < unorganized@.len() && (#[trigger] unorganized@[k]).offset
                            == reference,
                    Some(ar) => reference == ar.left,
                },
                nz <==> ((forall|k: int|
                    0 <= k < unorganized@.len() ==> spec_mag2(
                        (#[trigger] unorganized@[k]).offset,
                    ) > 0) && spec_mag2(reference) > 0),
                nz ==> forall|a: int, b: int|
                    #![trigger unorganized@[a], unorganized@[b]]
                    0 <= a < b < glen ==> angle_le(
                        reference,
                        unorganized@[a].offset,
                        unorganized@[b].offset,
                    ),
                forall|i: int|
                    0 <= i < rays@.len() ==> candidate_ray(snap.spec_grid(), origin, angle_range, #[trigger] rays@[i]),
                forall|i: int|
                    0 <= i < rays@.len() ==> within_ray_cap((#[trigger] rays@[i]).offset),
                nz ==> fan_sorted(reference, rays@),
                nz ==> forall|j: int, q: int|
                    #![trigger rays@[j], unorganized@[q]]
                    0 <= j < rays@.len() && idx <= q < glen ==> angle_le(
                        reference,
                        rays@[j].offset,
                        unorganized@[q].offset,
                    ),
                forall|k: int|
                    0 <= k < idx && spec_mag2((#[trigger] unorganized@[k]).offset) == 0
                        ==> exists|j: int|
                        0 <= j < rays@.len() && spec_mag2((#[trigger] rays@[j]).offset) == 0,
                forall|o: FixedVec| has_offset(collected, o) ==> #[trigger] has_offset(
                    unorganized@,
                    o,
                ),
                nz ==> forall|k: int|
                    #![trigger unorganized@[k]]
                    0 <= k < idx ==> exists|j: int|
                        0 <= j < rays@.len() && angle_eq(
                            reference,
                            (#[trigger] rays@[j]).offset,
                            unorganized@[k].offset,
                        ),
                idx < end,
                    end <= unorganized@.len() || (idx < unorganized@.len() && end == idx + 1),
                    // The scanned group is one exact angular tie.
                    nz ==> forall|p: int, q: int|
                        #![trigger unorganized@[p], unorganized@[q]]
                        idx <= p < q < end ==> angle_eq(
                            reference,
                            unorganized@[p].offset,
                            unorganized@[q].offset,
                        ),
                decreases unorganized@.len() - end + (if stop {
                    0int
                } else {
                    1int
                }),
            {
                if end >= unorganized.len() {
                    stop = true;
                } else {
                    let tie_a = angle_le_exec(
                        reference,
                        unorganized[end - 1].offset,
                        unorganized[end].offset,
                    );
                    let tie_b = angle_le_exec(
                        reference,
                        unorganized[end].offset,
                        unorganized[end - 1].offset,
                    );
                    if tie_a && tie_b {
                        proof {
                            if nz {
                                assert forall|p: int, q: int|
                                    #![trigger unorganized@[p], unorganized@[q]]
                                    idx <= p < q < end + 1 implies angle_eq(
                                    reference,
                                    unorganized@[p].offset,
                                    unorganized@[q].offset,
                                ) by {
                                    if q == end && p < end - 1 {
                                        lemma_angle_le_trans(
                                            reference,
                                            unorganized@[p].offset,
                                            unorganized@[end - 1].offset,
                                            unorganized@[end as int].offset,
                                        );
                                        lemma_angle_le_trans(
                                            reference,
                                            unorganized@[end as int].offset,
                                            unorganized@[end - 1].offset,
                                            unorganized@[p].offset,
                                        );
                                    }
                                }
                            }
                        }
                        end = end + 1;
                    } else {
                        stop = true;
                    }
                }
            }
            if end - idx == 1 {
                let rr = unorganized[idx];
                let ghost prev = rays@;
                rays.push(StoredRay { offset: rr.offset, collision: rr.collision });
                proof {
                    lemma_emit(
                        snap.spec_grid(),
                        origin,
                        angle_range,
                        reference,
                        unorganized@,
                        prev,
                        rays@,
                        idx as int,
                        end as int,
                        idx as int,
                        nz,
                    );
                    assert forall|k: int|
                        0 <= k < end && spec_mag2((#[trigger] unorganized@[k]).offset)
                            == 0 implies exists|j: int|
                        0 <= j < rays@.len() && spec_mag2((#[trigger] rays@[j]).offset) == 0 by {
                        if k < idx {
                            let j = choose|j: int|
                                0 <= j < prev.len() && spec_mag2((#[trigger] prev[j]).offset)
                                    == 0;
                            assert(rays@[j] == prev[j]);
                        } else {
                            assert(rays@[prev.len() as int].offset == rr.offset);
                        }
                    }
                        if nz {
                            assert forall|k: int|
                                #![trigger unorganized@[k]]
                                0 <= k < end implies exists|j: int|
                                0 <= j < rays@.len() && angle_eq(
                                    reference,
                                    (#[trigger] rays@[j]).offset,
                                    unorganized@[k].offset,
                                ) by {
                                if k < idx {
                                    let j = choose|j: int|
                                        0 <= j < prev.len() && angle_eq(
                                            reference,
                                            (#[trigger] prev[j]).offset,
                                            unorganized@[k].offset,
                                        );
                                    assert(rays@[j] == prev[j]);
                                } else {
                                    let jw = prev.len() as int;
                                    assert(rays@[jw] == stored(unorganized@[idx as int]));
                                    assert(crate::geometry::spec_perp(
                                        unorganized@[idx as int].offset,
                                        unorganized@[idx as int].offset,
                                    ) == 0) by (nonlinear_arith);
                                    if k != idx as int {
                                        if (idx as int) < k {
                                            assert(angle_eq(
                                                reference,
                                                unorganized@[idx as int].offset,
                                                unorganized@[k].offset,
                                            ));
                                        } else {
                                            assert(angle_eq(
                                                reference,
                                                unorganized@[k].offset,
                                                unorganized@[idx as int].offset,
                                            ));
                                        }
                                    }
                                }
                            }
                        }
                }
            } else {
                let mut shortest = unorganized[idx];
                let mut longest = unorganized[idx];
                let ghost mut ps: int = idx as int;
                let ghost mut pl: int = idx as int;
                let mut t: usize = idx + 1;
                while t < end
                    invariant
                    in_window_vec(reference),
                    in_window_point(origin),
                    *self == snap,
                    unorganized@.len() == glen,
                    glen >= 2,
                    forall|k: int|
                        0 <= k < unorganized@.len() ==> in_window_vec(
                            #[trigger] unorganized@[k].offset,
                        ),
                    forall|k: int|
                        0 <= k < unorganized@.len() ==> candidate_ray(snap.spec_grid(), origin, angle_range, stored(#[trigger] unorganized@[k])),
                    forall|k: int|
                        0 <= k < unorganized@.len() ==> within_ray_cap(
                            (#[trigger] unorganized@[k]).offset,
                        ),
                    match angle_range {
                        None => exists|k: int|
                            0 <= k < unorganized@.len() && (#[trigger] unorganized@[k]).offset
                                == reference,
                        Some(ar) => reference == ar.left,
                    },
                    nz <==> ((forall|k: int|
                        0 <= k < unorganized@.len() ==> spec_mag2(
                            (#[trigger] unorganized@[k]).offset,
                        ) > 0) && spec_mag2(reference) > 0),
                    nz ==> forall|a: int, b: int|
                        #![trigger unorganized@[a], unorganized@[b]]
                        0 <= a < b < glen ==> angle_le(
                            reference,
                            unorganized@[a].offset,
                            unorganized@[b].offset,
                        ),
                    forall|i: int|
                        0 <= i < rays@.len() ==> candidate_ray(snap.spec_grid(), origin, angle_range, #[trigger] rays@[i]),
                    forall|i: int|
                        0 <= i < rays@.len() ==> within_ray_cap((#[trigger] rays@[i]).offset),
                    nz ==> fan_sorted(reference, rays@),
                    nz ==> forall|j: int, q: int|
                        #![trigger rays@[j], unorganized@[q]]
                        0 <= j < rays@.len() && idx <= q < glen ==> angle_le(
                            reference,
                            rays@[j].offset,
                            unorganized@[q].offset,
                        ),
                    forall|k: int|
                        0 <= k < idx && spec_mag2((#[trigger] unorganized@[k]).offset) == 0
                            ==> exists|j: int|
                            0 <= j < rays@.len() && spec_mag2((#[trigger] rays@[j]).offset) == 0,
                    forall|o: FixedVec| has_offset(collected, o) ==> #[trigger] has_offset(
                        unorganized@,
                        o,
                    ),
                    nz ==> forall|k: int|
                        #![trigger unorganized@[k]]
                        0 <= k < idx ==> exists|j: int|
                            0 <= j < rays@.len() && angle_eq(
                                reference,
                                (#[trigger] rays@[j]).offset,
                                unorganized@[k].offset,
                            ),
                    idx < t,
                        t <= end <= unorganized@.len(),
                        idx as int <= ps < t,
                        idx as int <= pl < t,
                        unorganized@[ps] == shortest,
                        unorganized@[pl] == longest,
                        forall|p: int|
                            idx <= p < t ==> spec_mag2(shortest.offset) <= spec_mag2(
                                (#[trigger] unorganized@[p]).offset,
                            ),
                        nz ==> forall|p: int, q: int|
                            #![trigger unorganized@[p], unorganized@[q]]
                            idx <= p < q < end ==> angle_eq(
                                reference,
                                unorganized@[p].offset,
                                unorganized@[q].offset,
                            ),
                    decreases end - t,
                {
                    let rr = unorganized[t];
                    if mag2(rr.offset) < mag2(shortest.offset) {
                        shortest = rr;
                        proof {
                            ps = t as int;
                        }
                    } else if mag2(rr.offset) > mag2(longest.offset) {
                        longest = rr;
                        proof {
                            pl = t as int;
                        }
                    }
                    t = t + 1;
                }
                if mag2(shortest.offset) == mag2(longest.offset) {
                    let ghost prev = rays@;
                    rays.push(StoredRay { offset: shortest.offset, collision: shortest.collision });
                    proof {
                        lemma_emit(
                            snap.spec_grid(),
                            origin,
                            angle_range,
                            reference,
                            unorganized@,
                            prev,
                            rays@,
                            idx as int,
                            end as int,
                            ps,
                            nz,
                        );
                        assert forall|k: int|
                            0 <= k < end && spec_mag2((#[trigger] unorganized@[k]).offset)
                                == 0 implies exists|j: int|
                            0 <= j < rays@.len() && spec_mag2((#[trigger] rays@[j]).offset)
                                == 0 by {
                            if k < idx {
                                let j = choose|j: int|
                                    0 <= j < prev.len() && spec_mag2(
                                        (#[trigger] prev[j]).offset,
                                    ) == 0;
                                assert(rays@[j] == prev[j]);
                            } else {
                                assert(spec_mag2(shortest.offset) <= 0);
                                lemma_mag2_nonneg(shortest.offset);
                                assert(rays@[prev.len() as int].offset == shortest.offset);
                            }
                        }
                        if nz {
                            assert forall|k: int|
                                #![trigger unorganized@[k]]
                                0 <= k < end implies exists|j: int|
                                0 <= j < rays@.len() && angle_eq(
                                    reference,
                                    (#[trigger] rays@[j]).offset,
                                    unorganized@[k].offset,
                                ) by {
                                if k < idx {
                                    let j = choose|j: int|
                                        0 <= j < prev.len() && angle_eq(
                                            reference,
                                            (#[trigger] prev[j]).offset,
                                            unorganized@[k].offset,
                                        );
                                    assert(rays@[j] == prev[j]);
                                } else {
                                    let jw = prev.len() as int;
                                    assert(rays@[jw] == stored(unorganized@[ps]));
                                    assert(crate::geometry::spec_perp(
                                        unorganized@[ps].offset,
                                        unorganized@[ps].offset,
                                    ) == 0) by (nonlinear_arith);
                                    if k != ps {
                                        if ps < k {
                                            assert(angle_eq(
                                                reference,
                                                unorganized@[ps].offset,
                                                unorganized@[k].offset,
                                            ));
                                        } else {
                                            assert(angle_eq(
                                                reference,
                                                unorganized@[k].offset,
                                                unorganized@[ps].offset,
                                            ));
                                        }
                                    }
                                }
                            }
                        }
                    }
                } else {
                    let (left, right) = if shortest.partition.rank() < longest.partition.rank() {
                        (longest, shortest)
                    } else {
                        (shortest, longest)
                    };
                    let ghost pleft: int = if shortest.partition.spec_rank()
                        < longest.partition.spec_rank() {
                        pl
                    } else {
                        ps
                    };
                    let ghost pright: int = if shortest.partition.spec_rank()
                        < longest.partition.spec_rank() {
                        ps
                    } else {
                        pl
                    };
                    let ghost prev1 = rays@;
                    rays.push(StoredRay { offset: left.offset, collision: left.collision });
                    proof {
                        lemma_emit(
                            snap.spec_grid(),
                            origin,
                            angle_range,
                            reference,
                            unorganized@,
                            prev1,
                            rays@,
                            idx as int,
                            end as int,
                            pleft,
                            nz,
                        );
                    }
                    let ghost prev2 = rays@;
                    rays.push(StoredRay { offset: right.offset, collision: right.collision });
                    proof {
                        lemma_emit(
                            snap.spec_grid(),
                            origin,
                            angle_range,
                            reference,
                            unorganized@,
                            prev2,
                            rays@,
                            idx as int,
                            end as int,
                            pright,
                            nz,
                        );
                        // The group's shortest ray was emitted, so a
                        // degenerate group member still shows in the
                        // output.
                        assert forall|k: int|
                            0 <= k < end && spec_mag2(
                            (#[trigger] unorganized@[k]).offset,
                        ) == 0 implies exists|j: int|
                            0 <= j < rays@.len() && spec_mag2((#[trigger] rays@[j]).offset)
                                == 0 by {
                            if idx <= k {
                                assert(spec_mag2(shortest.offset) <= 0);
                                lemma_mag2_nonneg(shortest.offset);
                                if pleft == ps {
                                    assert(rays@[prev1.len() as int].offset == shortest.offset);
                                } else {
                                    assert(rays@[prev2.len() as int].offset == shortest.offset);
                                }
                            } else {
                                let j = choose|j: int|
                                    0 <= j < prev1.len() && spec_mag2(
                                        (#[trigger] prev1[j]).offset,
                                    ) == 0;
                                assert(rays@[j] == prev1[j]);
                            }
                        }
                        if nz {
                            assert forall|k: int|
                                #![trigger unorganized@[k]]
                                0 <= k < end implies exists|j: int|
                                0 <= j < rays@.len() && angle_eq(
                                    reference,
                                    (#[trigger] rays@[j]).offset,
                                    unorganized@[k].offset,
                                ) by {
                                if k < idx {
                                    let j = choose|j: int|
                                        0 <= j < prev1.len() && angle_eq(
                                            reference,
                                            (#[trigger] prev1[j]).offset,
                                            unorganized@[k].offset,
                                        );
                                    assert(rays@[j] == prev1[j]);
                                } else {
                                    let jw = prev1.len() as int;
                                    assert(rays@[jw] == stored(unorganized@[pleft]));
                                    assert(crate::geometry::spec_perp(
                                        unorganized@[pleft].offset,
                                        unorganized@[pleft].offset,
                                    ) == 0) by (nonlinear_arith);
                                    if k != pleft {
                                        if pleft < k {
                                            assert(angle_eq(
                                                reference,
                                                unorganized@[pleft].offset,
                                                unorganized@[k].offset,
                                            ));
                                        } else {
                                            assert(angle_eq(
                                                reference,
                                                unorganized@[k].offset,
                                                unorganized@[pleft].offset,
                                            ));
                                        }
                                    }
                                }
                            }
                        }
                    }
                }
            }
            idx = end;
        }
        proof {
            if (forall|i: int|
                0 <= i < rays@.len() ==> spec_mag2((#[trigger] rays@[i]).offset) > 0) {
                // No emitted ray is degenerate, so (since the shortest
                // of every scanned group is emitted) no collected ray
                // was, the reference is a live direction, and the
                // whole fan is sorted.
                assert forall|k: int|
                    0 <= k < unorganized@.len() implies spec_mag2(
                    (#[trigger] unorganized@[k]).offset,
                ) > 0 by {
                    lemma_mag2_nonneg(unorganized@[k].offset);
                }
                match angle_range {
                    None => {
                        let k0 = choose|k: int|
                            0 <= k < unorganized@.len() && (#[trigger] unorganized@[k]).offset
                                == reference;
                        assert(spec_mag2(reference) > 0);
                    },
                    Some(ar) => {
                        lemma_mag2_pos(ar.left);
                    },
                }
                assert(nz);
                assert(trace_complete(
                    snap.spec_grid(),
                    origin,
                    angle_range,
                    reference,
                    rays@,
                )) by {
                    assert forall|c: Corner|
                        (#[trigger] spec_is_corner(snap.spec_grid(), c)) && corner_eligible(
                            origin,
                            angle_range,
                            c,
                        ) implies exists|res: (FixedPoint, Option<RayCollisionNormal>)|
                        {
                            &&& #[trigger] crate::raycast::raycast_post(
                                snap.spec_grid(),
                                origin,
                                corner_offset(origin, c),
                                MAXIMUM_RAY_RANGE,
                                res,
                            )
                            &&& corner_reached(origin, c, res.0) ==> exists|j: int|
                                0 <= j < rays@.len() && angle_eq(
                                    reference,
                                    (#[trigger] rays@[j]).offset,
                                    corner_offset(origin, c),
                                )
                        } by {
                        // The cache is complete, so the corner was
                        // scanned; its collection fact survives the
                        // sort (offsets preserved) and the merge
                        // (every processed ray has a tied emission).
                        assert(snap.spec_corners().contains(c));
                        let cc = choose|cc: int|
                            0 <= cc < snap.spec_corners().len() && snap.spec_corners()[cc] == c;
                        let res = choose|res: (FixedPoint, Option<RayCollisionNormal>)|
                            {
                                &&& #[trigger] crate::raycast::raycast_post(
                                    snap.spec_grid(),
                                    origin,
                                    corner_offset(origin, snap.spec_corners()[cc]),
                                    MAXIMUM_RAY_RANGE,
                                    res,
                                )
                                &&& corner_reached(origin, snap.spec_corners()[cc], res.0)
                                    ==> has_offset(
                                    collected,
                                    corner_offset(origin, snap.spec_corners()[cc]),
                                )
                            };
                        if corner_reached(origin, c, res.0) {
                            assert(has_offset(collected, corner_offset(origin, c)));
                            assert(has_offset(unorganized@, corner_offset(origin, c)));
                            let k = choose|k: int|
                                0 <= k < unorganized@.len() && (#[trigger] unorganized@[k]).offset
                                    == corner_offset(origin, c);
                            assert(exists|j: int|
                                0 <= j < rays@.len() && angle_eq(
                                    reference,
                                    (#[trigger] rays@[j]).offset,
                                    unorganized@[k].offset,
                                ));
                        }
                    }
                }
                assert(trace_boundaries(
                    snap.spec_grid(),
                    origin,
                    angle_range,
                    reference,
                    rays@,
                )) by {
                    assert forall|d: FixedVec| #[trigger] trace_direction(angle_range, d) implies exists|res: (
                        FixedPoint,
                        Option<RayCollisionNormal>,
                    )|
                        {
                            &&& #[trigger] crate::raycast::raycast_post(
                                snap.spec_grid(),
                                origin,
                                d,
                                MAXIMUM_RAY_RANGE,
                                res,
                            )
                            &&& exists|j: int|
                                0 <= j < rays@.len() && angle_eq(
                                    reference,
                                    (#[trigger] rays@[j]).offset,
                                    result_offset(origin, res.0),
                                )
                        } by {
                        let bi = choose|bi: int|
                            0 <= bi < bres.len() && (#[trigger] bres[bi]).0 == d;
                        // The boundary raycast's stopping offset was
                        // collected, survived the sort, and has a tied
                        // emission.
                        assert(has_offset(collected, result_offset(origin, bres[bi].1.0)));
                        assert(has_offset(unorganized@, result_offset(origin, bres[bi].1.0)));
                        let k = choose|k: int|
                            0 <= k < unorganized@.len() && (#[trigger] unorganized@[k]).offset
                                == result_offset(origin, bres[bi].1.0);
                        assert(exists|j: int|
                            0 <= j < rays@.len() && angle_eq(
                                reference,
                                (#[trigger] rays@[j]).offset,
                                unorganized@[k].offset,
                            ));
                    }
                }
            }
        }
        LightArea { origin, rays, range: angle_range }
    }
}

} // verus!
