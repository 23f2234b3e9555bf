//! Exact grid raycasting (DDA traversal).
//!
//! A ray starts at a fixed-point position and travels along an
//! integer direction vector.  Crossings of grid lines are ordered by
//! exact integer cross-multiplication, so the degenerate cases the
//! algorithm must honor (a ray running exactly along a grid line, a
//! ray passing exactly through a lattice corner) are decided exactly
//! rather than within a floating-point epsilon.

use vstd::prelude::*;
use crate::corner::CornerDirection;
use crate::corner::Pixel;
use crate::corner::RayCollisionNormal;
use crate::corner::WallDirection;
use crate::geometry::FixedPoint;
use crate::geometry::FixedVec;
use crate::geometry::FIXED_LIMIT;
use crate::geometry::SCALE;
use crate::geometry::in_window_point;
use crate::geometry::in_window_vec;
use crate::geometry::is_sqrt;
use crate::geometry::isqrt;
use crate::geometry::mag2;
use crate::geometry::spec_mag2;
use crate::grid::TileGrid;

verus! {

/// Whether the cell at `(x, y)` blocks light (cells outside the
/// allocated bounds are solid).
pub open spec fn blocked(g: TileGrid<Pixel>, x: int, y: int) -> bool {
    g.cell(x, y).spec_blocks_light()
}

fn blocked_at(g: &TileGrid<Pixel>, x: i64, y: i64) -> (r: bool)
    requires
        g.wf(),
    ensures
        r == blocked(*g, x as int, y as int),
{
    g.get(crate::grid::TileIndex { x, y }).blocks_light()
}

/// Floor division of a fixed-point coordinate by `SCALE`.
fn div_floor_units(p: i64) -> (r: i64)
    requires
        -3 * FIXED_LIMIT <= p <= 3 * FIXED_LIMIT,
    ensures
        SCALE * r <= p < SCALE * (r + 1),
{
    let shifted = (p + 4 * FIXED_LIMIT) as u64;
    proof {
        let s = shifted as int;
        vstd::arithmetic::div_mod::lemma_fundamental_div_mod(s, SCALE as int);
        vstd::arithmetic::div_mod::lemma_mod_bound(s, SCALE as int);
    }
    let q = shifted / (SCALE as u64);
    (q as i64) - 0x1_0000
}

/// The cell a position belongs to while traveling with axis direction
/// `d`: the cell ahead of the grid line when the position sits exactly
/// on one.
fn cell_of(p: i64, d: i64) -> (r: i64)
    requires
        -FIXED_LIMIT <= p <= FIXED_LIMIT,
    ensures
        d >= 0 ==> SCALE * r <= p < SCALE * (r + 1),
        d < 0 ==> SCALE * r < p <= SCALE * (r + 1),
        -0x8000 <= r <= 0x8000,
    {
    if d >= 0 {
        let r = div_floor_units(p);
        proof {
            assert(SCALE * r <= p < SCALE * (r + 1));
            assert(-0x8000 <= r <= 0x8000) by (nonlinear_arith)
                requires
                    SCALE * r <= p < SCALE * (r + 1),
                    -FIXED_LIMIT <= p <= FIXED_LIMIT,
                    SCALE == 65536,
                    FIXED_LIMIT == 0x4000_0000,
            ;
        }
        r
    } else {
        let r = div_floor_units(p + (SCALE - 1)) - 1;
        proof {
            let q = r + 1;
            assert(SCALE * q <= p + SCALE - 1 < SCALE * (q + 1));
            assert(SCALE * r < p <= SCALE * (r + 1)) by (nonlinear_arith)
                requires
                    SCALE * (r + 1) <= p + SCALE - 1 < SCALE * (r + 2),
                    SCALE == 65536,
            ;
            assert(-0x8000 <= r <= 0x8000) by (nonlinear_arith)
                requires
                    SCALE * r < p <= SCALE * (r + 1),
                    -FIXED_LIMIT <= p <= FIXED_LIMIT,
                    SCALE == 65536,
                    FIXED_LIMIT == 0x4000_0000,
            ;
        }
        r
    }
}

/// Whether a coordinate lies exactly on a grid line.
fn on_line(p: i64) -> (r: bool)
    requires
        -FIXED_LIMIT <= p <= FIXED_LIMIT,
    ensures
        r == (p % SCALE == 0),
{
    let shifted = (p + 4 * FIXED_LIMIT) as u64;
    proof {
        let pi = p as int;
        vstd::arithmetic::div_mod::lemma_add_mod_noop(pi, 4 * (FIXED_LIMIT as int), SCALE as int);
        assert((4 * (FIXED_LIMIT as int)) % (SCALE as int) == 0);
        vstd::arithmetic::div_mod::lemma_mod_twice(pi, SCALE as int);
        vstd::arithmetic::div_mod::lemma_mod_bound(pi, SCALE as int);
    }
    let r = shifted % (SCALE as u64) == 0;
    r
}

/// Whether side A (the lower-coordinate straddled cell) is blocked at
/// any of the first `k` steps of an edge-aligned scan along a
/// vertical grid line at cell column boundary `cx`, starting from row
/// `cy` and stepping by `sy`.
pub open spec fn edge_a_y(g: TileGrid<Pixel>, cx: int, cy: int, sy: int, k: int) -> bool
    decreases k,
{
    if k <= 0 {
        false
    } else {
        edge_a_y(g, cx, cy, sy, k - 1) || blocked(g, cx - 1, cy + k * sy)
    }
}

/// Side B (the higher-coordinate straddled cell), as `edge_a_y`.
pub open spec fn edge_b_y(g: TileGrid<Pixel>, cx: int, cy: int, sy: int, k: int) -> bool
    decreases k,
{
    if k <= 0 {
        false
    } else {
        edge_b_y(g, cx, cy, sy, k - 1) || blocked(g, cx, cy + k * sy)
    }
}

/// The sticky collision condition of an edge-aligned ray: both
/// straddled columns have been blocked somewhere in the first `k`
/// steps.
pub open spec fn edge_hit_y(g: TileGrid<Pixel>, cx: int, cy: int, sy: int, k: int) -> bool {
    edge_a_y(g, cx, cy, sy, k) && edge_b_y(g, cx, cy, sy, k)
}

/// An edge-aligned ray collides within `k` steps exactly when each of
/// the two straddled columns holds a blocked cell among those steps:
/// the same answer a brute-force cell-by-cell scan along the line
/// gives.
pub proof fn lemma_edge_hit_iff_blocked(g: TileGrid<Pixel>, cx: int, cy: int, sy: int, k: int)
    ensures
        edge_a_y(g, cx, cy, sy, k) <==> exists|j: int|
            1 <= j <= k && #[trigger] blocked(g, cx - 1, cy + j * sy),
        edge_b_y(g, cx, cy, sy, k) <==> exists|j: int|
            1 <= j <= k && #[trigger] blocked(g, cx, cy + j * sy),
    decreases k,
{
    if k > 0 {
        lemma_edge_hit_iff_blocked(g, cx, cy, sy, k - 1);
        if edge_a_y(g, cx, cy, sy, k) {
            if blocked(g, cx - 1, cy + k * sy) {
                assert(1 <= k <= k && blocked(g, cx - 1, cy + k * sy));
            } else {
                let j = choose|j: int| 1 <= j <= k - 1 && #[trigger] blocked(g, cx - 1, cy + j * sy);
                assert(1 <= j <= k && blocked(g, cx - 1, cy + j * sy));
            }
        }
        if exists|j: int| 1 <= j <= k && #[trigger] blocked(g, cx - 1, cy + j * sy) {
            let j = choose|j: int| 1 <= j <= k && #[trigger] blocked(g, cx - 1, cy + j * sy);
            if j <= k - 1 {
                assert(edge_a_y(g, cx, cy, sy, k - 1));
            }
        }
        if edge_b_y(g, cx, cy, sy, k) {
            if blocked(g, cx, cy + k * sy) {
                assert(1 <= k <= k && blocked(g, cx, cy + k * sy));
            } else {
                let j = choose|j: int| 1 <= j <= k - 1 && #[trigger] blocked(g, cx, cy + j * sy);
                assert(1 <= j <= k && blocked(g, cx, cy + j * sy));
            }
        }
        if exists|j: int| 1 <= j <= k && #[trigger] blocked(g, cx, cy + j * sy) {
            let j = choose|j: int| 1 <= j <= k && #[trigger] blocked(g, cx, cy + j * sy);
            if j <= k - 1 {
                assert(edge_b_y(g, cx, cy, sy, k - 1));
            }
        }
    }
}

/// Full contract of `edge_scan_y`, over the scan parameters and its
/// result pair.
pub open spec fn edge_scan_y_post(
    g: TileGrid<Pixel>,
    x0: i64,
    y0: i64,
    sy: i64,
    max_distance: i64,
    r: (FixedPoint, Option<RayCollisionNormal>),
) -> bool {
    let cx = (x0 as int) / (SCALE as int);
    let cy = if sy == 1 {
        (y0 as int) / (SCALE as int)
    } else {
        ((y0 + SCALE - 1) / (SCALE as int)) - 1
    };
    let a0 = if sy == 1 {
        SCALE * (cy + 1) - y0
    } else {
        y0 - SCALE * cy
    };
    &&& (blocked(g, cx - 1, cy) || blocked(g, cx, cy)) ==> r == (
        (FixedPoint { x: x0, y: y0 }),
        None::<RayCollisionNormal>,
    )
    &&& !(blocked(g, cx - 1, cy) || blocked(g, cx, cy)) ==> {
        &&& r.1 is None ==> {
            &&& r.0 == (FixedPoint { x: x0, y: (y0 + sy * max_distance) as i64 })
            &&& forall|k: int|
                1 <= k && a0 + (k - 1) * SCALE < max_distance ==> !edge_hit_y(
                    g,
                    cx,
                    cy,
                    sy as int,
                    k,
                )
        }
        &&& r.1 is Some ==> {
            let hitdist = if sy == 1 {
                r.0.y - y0
            } else {
                y0 - r.0.y
            };
            let k = (hitdist - a0) / (SCALE as int) + 1;
            &&& r.0.x == x0
            &&& 1 <= k
            &&& hitdist == a0 + (k - 1) * SCALE
            &&& hitdist < max_distance
            &&& edge_hit_y(g, cx, cy, sy as int, k)
            &&& !edge_hit_y(g, cx, cy, sy as int, k - 1)
            &&& r.1 == Some(
                RayCollisionNormal::Wall(
                    if sy == 1 {
                        WallDirection::North
                    } else {
                        WallDirection::South
                    },
                ),
            )
        }
    }
}

/// Scan along a vertical grid line at `x0` (an exact multiple of
/// `SCALE`), traveling toward `sy`.  The two cells straddling the
/// line are tested at each row; a straddled cell stays "seen" once
/// passed, and the ray stops at the first row where both sides have
/// been seen blocked, or after `max_distance`.
#[verifier::rlimit(80)]
fn edge_scan_y(grid: &TileGrid<Pixel>, x0: i64, y0: i64, sy: i64, max_distance: i64) -> (r: (
    FixedPoint,
    Option<RayCollisionNormal>,
))
    requires
        grid.wf(),
        -FIXED_LIMIT <= x0 <= FIXED_LIMIT,
        -FIXED_LIMIT <= y0 <= FIXED_LIMIT,
        x0 % SCALE == 0,
        sy == 1 || sy == -1,
        0 < max_distance <= FIXED_LIMIT,
    ensures
        edge_scan_y_post(*grid, x0, y0, sy, max_distance, r),
        r.0.x == x0,
        -(max_distance as int) <= r.0.y - y0 <= max_distance,
{
    let cx = div_floor_units(x0);
    let cy = cell_of(y0, sy);
    proof {
        assert(cx as int == (x0 as int) / (SCALE as int)) by (nonlinear_arith)
            requires
                SCALE as int * (cx as int) <= x0 < SCALE as int * (cx as int + 1),
                SCALE == 65536,
        ;
        if sy == 1 {
            assert(cy as int == (y0 as int) / (SCALE as int)) by (nonlinear_arith)
                requires
                    SCALE as int * (cy as int) <= y0 < SCALE as int * (cy as int + 1),
                    SCALE == 65536,
            ;
        } else {
            assert(cy as int == ((y0 + SCALE - 1) / (SCALE as int)) - 1) by (nonlinear_arith)
                requires
                    SCALE as int * (cy as int) < y0 <= SCALE as int * (cy as int + 1),
                    SCALE == 65536,
            ;
        }
    }
    let a0 = if sy == 1 {
        SCALE * (cy + 1) - y0
    } else {
        y0 - SCALE * cy
    };
    let mut side_a = blocked_at(grid, cx - 1, cy);
    let mut side_b = blocked_at(grid, cx, cy);
    if side_a || side_b {
        return (FixedPoint { x: x0, y: y0 }, None);
    }
    let ghost g = *grid;
    let mut k: i64 = 0;
    loop
        invariant
            grid.wf(),
            g == *grid,
            -FIXED_LIMIT <= x0 <= FIXED_LIMIT,
            -FIXED_LIMIT <= y0 <= FIXED_LIMIT,
            sy == 1 || sy == -1,
            0 < max_distance <= FIXED_LIMIT,
            0 < a0 <= SCALE,
            -0x8000 <= cy <= 0x8000,
            cx as int == (x0 as int) / (SCALE as int),
            cy as int == (if sy == 1 {
                (y0 as int) / (SCALE as int)
            } else {
                ((y0 + SCALE - 1) / (SCALE as int)) - 1
            }),
            a0 as int == (if sy == 1 {
                SCALE as int * (cy as int + 1) - y0
            } else {
                y0 - SCALE as int * (cy as int)
            }),
            !(blocked(g, cx as int - 1, cy as int) || blocked(g, cx as int, cy as int)),
            0 <= k,
            a0 + (k - 1) * SCALE <= max_distance + SCALE,
            side_a == edge_a_y(g, cx as int, cy as int, sy as int, k as int),
            side_b == edge_b_y(g, cx as int, cy as int, sy as int, k as int),
            !(side_a && side_b),
            forall|j: int| 1 <= j <= k ==> !edge_hit_y(g, cx as int, cy as int, sy as int, j),
            k > 0 ==> a0 + (k - 1) * SCALE < max_distance,
        decreases max_distance + 2 * SCALE - (a0 + (k - 1) * SCALE),
    {
        let dist = a0 + k * SCALE;
        proof {
            assert(sy * max_distance == (if sy == 1 {
                max_distance as int
            } else {
                -(max_distance as int)
            })) by (nonlinear_arith)
                requires
                    sy == 1 || sy == -1,
            ;
        }
        if dist >= max_distance {
            proof {
                assert forall|j: int|
                    1 <= j && a0 + (j - 1) * SCALE < max_distance implies !edge_hit_y(
                    g,
                    cx as int,
                    cy as int,
                    sy as int,
                    j,
                ) by {
                    assert((j - 1) * SCALE < (k + 1) * SCALE ==> j - 1 < k + 1) by (nonlinear_arith)
                        requires
                            SCALE == 65536,
                    ;
                    assert(j <= k);
                }
            }
            return (FixedPoint { x: x0, y: y0 + sy * max_distance }, None);
        }
        let knext = k + 1;
        let row = cy + knext * sy;
        proof {
            assert(-0x10000 <= knext * sy <= 0x10000) by (nonlinear_arith)
                requires
                    0 <= knext,
                    a0 + (knext - 1) * SCALE < max_distance,
                    0 < a0,
                    SCALE == 65536,
                    max_distance <= FIXED_LIMIT,
                    FIXED_LIMIT == 0x4000_0000,
                    sy == 1 || sy == -1,
            ;
        }
        let a_new = blocked_at(grid, cx - 1, row);
        let b_new = blocked_at(grid, cx, row);
        side_a = side_a || a_new;
        side_b = side_b || b_new;
        proof {
            assert(edge_a_y(g, cx as int, cy as int, sy as int, knext as int) == (edge_a_y(
                g,
                cx as int,
                cy as int,
                sy as int,
                k as int,
            ) || blocked(g, cx as int - 1, cy + knext * sy)));
        }
        if side_a && side_b {
            let hit_y = if sy == 1 {
                y0 + dist
            } else {
                y0 - dist
            };
            let res = (
                FixedPoint { x: x0, y: hit_y },
                Some(
                    RayCollisionNormal::Wall(
                        if sy == 1 {
                            WallDirection::North
                        } else {
                            WallDirection::South
                        },
                    ),
                ),
            );
            proof {
                let hitdist = if sy == 1 {
                    res.0.y - y0
                } else {
                    y0 - res.0.y
                };
                assert(hitdist == dist);
                vstd::arithmetic::div_mod::lemma_fundamental_div_mod(k as int, 1);
                assert((k as int * SCALE) / (SCALE as int) == k as int) by (nonlinear_arith)
                    requires
                        SCALE == 65536,
                ;
                assert((hitdist - a0) / (SCALE as int) + 1 == knext);
            }
            return res;
        }
        k = knext;
    }
}


/// As `edge_a_y`, for a scan along a horizontal grid line: side A is
/// the row above the line (lower y).
pub open spec fn edge_a_x(g: TileGrid<Pixel>, cy: int, cx: int, sx: int, k: int) -> bool
    decreases k,
{
    if k <= 0 {
        false
    } else {
        edge_a_x(g, cy, cx, sx, k - 1) || blocked(g, cx + k * sx, cy - 1)
    }
}

/// Side B (the row below the line), as `edge_a_x`.
pub open spec fn edge_b_x(g: TileGrid<Pixel>, cy: int, cx: int, sx: int, k: int) -> bool
    decreases k,
{
    if k <= 0 {
        false
    } else {
        edge_b_x(g, cy, cx, sx, k - 1) || blocked(g, cx + k * sx, cy)
    }
}

/// The sticky collision condition of a horizontally edge-aligned ray.
pub open spec fn edge_hit_x(g: TileGrid<Pixel>, cy: int, cx: int, sx: int, k: int) -> bool {
    edge_a_x(g, cy, cx, sx, k) && edge_b_x(g, cy, cx, sx, k)
}

/// The horizontal counterpart of `lemma_edge_hit_iff_blocked`.
pub proof fn lemma_edge_hit_x_iff_blocked(g: TileGrid<Pixel>, cy: int, cx: int, sx: int, k: int)
    ensures
        edge_a_x(g, cy, cx, sx, k) <==> exists|j: int|
            1 <= j <= k && #[trigger] blocked(g, cx + j * sx, cy - 1),
        edge_b_x(g, cy, cx, sx, k) <==> exists|j: int|
            1 <= j <= k && #[trigger] blocked(g, cx + j * sx, cy),
    decreases k,
{
    if k > 0 {
        lemma_edge_hit_x_iff_blocked(g, cy, cx, sx, k - 1);
        if edge_a_x(g, cy, cx, sx, k) {
            if blocked(g, cx + k * sx, cy - 1) {
                assert(1 <= k <= k && blocked(g, cx + k * sx, cy - 1));
            } else {
                let j = choose|j: int| 1 <= j <= k - 1 && #[trigger] blocked(g, cx + j * sx, cy - 1);
                assert(1 <= j <= k && blocked(g, cx + j * sx, cy - 1));
            }
        }
        if exists|j: int| 1 <= j <= k && #[trigger] blocked(g, cx + j * sx, cy - 1) {
            let j = choose|j: int| 1 <= j <= k && #[trigger] blocked(g, cx + j * sx, cy - 1);
            if j <= k - 1 {
                assert(edge_a_x(g, cy, cx, sx, k - 1));
            }
        }
        if edge_b_x(g, cy, cx, sx, k) {
            if blocked(g, cx + k * sx, cy) {
                assert(1 <= k <= k && blocked(g, cx + k * sx, cy));
            } else {
                let j = choose|j: int| 1 <= j <= k - 1 && #[trigger] blocked(g, cx + j * sx, cy);
                assert(1 <= j <= k && blocked(g, cx + j * sx, cy));
            }
        }
        if exists|j: int| 1 <= j <= k && #[trigger] blocked(g, cx + j * sx, cy) {
            let j = choose|j: int| 1 <= j <= k && #[trigger] blocked(g, cx + j * sx, cy);
            if j <= k - 1 {
                assert(edge_b_x(g, cy, cx, sx, k - 1));
            }
        }
    }
}

/// Full contract of `edge_scan_x`.
pub open spec fn edge_scan_x_post(
    g: TileGrid<Pixel>,
    x0: i64,
    y0: i64,
    sx: i64,
    max_distance: i64,
    r: (FixedPoint, Option<RayCollisionNormal>),
) -> bool {
    let cy = (y0 as int) / (SCALE as int);
    let cx = if sx == 1 {
        (x0 as int) / (SCALE as int)
    } else {
        ((x0 + SCALE - 1) / (SCALE as int)) - 1
    };
    let a0 = if sx == 1 {
        SCALE * (cx + 1) - x0
    } else {
        x0 - SCALE * cx
    };
    &&& (blocked(g, cx, cy - 1) || blocked(g, cx, cy)) ==> r == (
        (FixedPoint { x: x0, y: y0 }),
        None::<RayCollisionNormal>,
    )
    &&& !(blocked(g, cx, cy - 1) || blocked(g, cx, cy)) ==> {
        &&& r.1 is None ==> {
            &&& r.0 == (FixedPoint { x: (x0 + sx * max_distance) as i64, y: y0 })
            &&& forall|k: int|
                1 <= k && a0 + (k - 1) * SCALE < max_distance ==> !edge_hit_x(
                    g,
                    cy,
                    cx,
                    sx as int,
                    k,
                )
        }
        &&& r.1 is Some ==> {
            let hitdist = if sx == 1 {
                r.0.x - x0
            } else {
                x0 - r.0.x
            };
            let k = (hitdist - a0) / (SCALE as int) + 1;
            &&& r.0.y == y0
            &&& 1 <= k
            &&& hitdist == a0 + (k - 1) * SCALE
            &&& hitdist < max_distance
            &&& edge_hit_x(g, cy, cx, sx as int, k)
            &&& !edge_hit_x(g, cy, cx, sx as int, k - 1)
            &&& r.1 == Some(
                RayCollisionNormal::Wall(
                    if sx == 1 {
                        WallDirection::West
                    } else {
                        WallDirection::East
                    },
                ),
            )
        }
    }
}

/// Scan along a horizontal grid line at `y0` (an exact multiple of
/// `SCALE`), traveling toward `sx`; the mirror of `edge_scan_y`.
#[verifier::rlimit(80)]
fn edge_scan_x(grid: &TileGrid<Pixel>, x0: i64, y0: i64, sx: i64, max_distance: i64) -> (r: (
    FixedPoint,
    Option<RayCollisionNormal>,
))
    requires
        grid.wf(),
        -FIXED_LIMIT <= x0 <= FIXED_LIMIT,
        -FIXED_LIMIT <= y0 <= FIXED_LIMIT,
        y0 % SCALE == 0,
        sx == 1 || sx == -1,
        0 < max_distance <= FIXED_LIMIT,
    ensures
        edge_scan_x_post(*grid, x0, y0, sx, max_distance, r),
        r.0.y == y0,
        -(max_distance as int) <= r.0.x - x0 <= max_distance,
{
    let cy = div_floor_units(y0);
    let cx = cell_of(x0, sx);
    proof {
        assert(cy as int == (y0 as int) / (SCALE as int)) by (nonlinear_arith)
            requires
                SCALE as int * (cy as int) <= y0 < SCALE as int * (cy as int + 1),
                SCALE == 65536,
        ;
        if sx == 1 {
            assert(cx as int == (x0 as int) / (SCALE as int)) by (nonlinear_arith)
                requires
                    SCALE as int * (cx as int) <= x0 < SCALE as int * (cx as int + 1),
                    SCALE == 65536,
            ;
        } else {
            assert(cx as int == ((x0 + SCALE - 1) / (SCALE as int)) - 1) by (nonlinear_arith)
                requires
                    SCALE as int * (cx as int) < x0 <= SCALE as int * (cx as int + 1),
                    SCALE == 65536,
            ;
        }
    }
    let a0 = if sx == 1 {
        SCALE * (cx + 1) - x0
    } else {
        x0 - SCALE * cx
    };
    let mut side_a = blocked_at(grid, cx, cy - 1);
    let mut side_b = blocked_at(grid, cx, cy);
    if side_a || side_b {
        return (FixedPoint { x: x0, y: y0 }, None);
    }
    let ghost g = *grid;
    let mut k: i64 = 0;
    loop
        invariant
            grid.wf(),
            g == *grid,
            -FIXED_LIMIT <= x0 <= FIXED_LIMIT,
            -FIXED_LIMIT <= y0 <= FIXED_LIMIT,
            sx == 1 || sx == -1,
            0 < max_distance <= FIXED_LIMIT,
            0 < a0 <= SCALE,
            -0x8000 <= cx <= 0x8000,
            cy as int == (y0 as int) / (SCALE as int),
            cx as int == (if sx == 1 {
                (x0 as int) / (SCALE as int)
            } else {
                ((x0 + SCALE - 1) / (SCALE as int)) - 1
            }),
            a0 as int == (if sx == 1 {
                SCALE as int * (cx as int + 1) - x0
            } else {
                x0 - SCALE as int * (cx as int)
            }),
            !(blocked(g, cx as int, cy as int - 1) || blocked(g, cx as int, cy as int)),
            0 <= k,
            a0 + (k - 1) * SCALE <= max_distance + SCALE,
            side_a == edge_a_x(g, cy as int, cx as int, sx as int, k as int),
            side_b == edge_b_x(g, cy as int, cx as int, sx as int, k as int),
            !(side_a && side_b),
            forall|j: int| 1 <= j <= k ==> !edge_hit_x(g, cy as int, cx as int, sx as int, j),
            k > 0 ==> a0 + (k - 1) * SCALE < max_distance,
        decreases max_distance + 2 * SCALE - (a0 + (k - 1) * SCALE),
    {
        let dist = a0 + k * SCALE;
        proof {
            assert(sx * max_distance == (if sx == 1 {
                max_distance as int
            } else {
                -(max_distance as int)
            })) by (nonlinear_arith)
                requires
                    sx == 1 || sx == -1,
            ;
        }
        if dist >= max_distance {
            proof {
                assert forall|j: int|
                    1 <= j && a0 + (j - 1) * SCALE < max_distance implies !edge_hit_x(
                    g,
                    cy as int,
                    cx as int,
                    sx as int,
                    j,
                ) by {
                    assert((j - 1) * SCALE < (k + 1) * SCALE ==> j - 1 < k + 1) by (nonlinear_arith)
                        requires
                            SCALE == 65536,
                    ;
                    assert(j <= k);
                }
            }
            return (FixedPoint { x: x0 + sx * max_distance, y: y0 }, None);
        }
        let knext = k + 1;
        let col = cx + knext * sx;
        proof {
            assert(-0x10000 <= knext * sx <= 0x10000) by (nonlinear_arith)
                requires
                    0 <= knext,
                    a0 + (knext - 1) * SCALE < max_distance,
                    0 < a0,
                    SCALE == 65536,
                    max_distance <= FIXED_LIMIT,
                    FIXED_LIMIT == 0x4000_0000,
                    sx == 1 || sx == -1,
            ;
        }
        let a_new = blocked_at(grid, col, cy - 1);
        let b_new = blocked_at(grid, col, cy);
        side_a = side_a || a_new;
        side_b = side_b || b_new;
        proof {
            assert(edge_a_x(g, cy as int, cx as int, sx as int, knext as int) == (edge_a_x(
                g,
                cy as int,
                cx as int,
                sx as int,
                k as int,
            ) || blocked(g, cx + knext * sx, cy as int - 1)));
        }
        if side_a && side_b {
            let hit_x = if sx == 1 {
                x0 + dist
            } else {
                x0 - dist
            };
            let res = (
                FixedPoint { x: hit_x, y: y0 },
                Some(
                    RayCollisionNormal::Wall(
                        if sx == 1 {
                            WallDirection::West
                        } else {
                            WallDirection::East
                        },
                    ),
                ),
            );
            proof {
                let hitdist = if sx == 1 {
                    res.0.x - x0
                } else {
                    x0 - res.0.x
                };
                assert(hitdist == dist);
                assert((k as int * SCALE) / (SCALE as int) == k as int) by (nonlinear_arith)
                    requires
                        SCALE == 65536,
                ;
                assert((hitdist - a0) / (SCALE as int) + 1 == knext);
            }
            return res;
        }
        k = knext;
    }
}


/// Floor division of a (possibly negative) numerator by a positive
/// divisor.
fn div_floor_128(n: i128, d: i128) -> (r: i128)
    requires
        0 < d < 0x8000_0000_0000_0000,
        -0x4000_0000_0000_0000_0000_0000_0000_0000 < n
            < 0x4000_0000_0000_0000_0000_0000_0000_0000,
    ensures
        d * r <= n < d * (r + 1),
{
    if n >= 0 {
        let q = (n as u128) / (d as u128);
        proof {
            vstd::arithmetic::div_mod::lemma_fundamental_div_mod(n as int, d as int);
            vstd::arithmetic::div_mod::lemma_mod_bound(n as int, d as int);
            assert(d * ((n as int) / (d as int)) == ((n as int) / (d as int)) * d)
                by (nonlinear_arith);
            assert(d * ((n as int) / (d as int) + 1) == ((n as int) / (d as int)) * d + d)
                by (nonlinear_arith);
        }
        q as i128
    } else {
        let m = (-n) as u128;
        let du = d as u128;
        let q = (m + du - 1) / du;
        proof {
            let mi = m as int;
            let di = d as int;
            let qi = (mi + di - 1) / di;
            vstd::arithmetic::div_mod::lemma_fundamental_div_mod(mi + di - 1, di);
            vstd::arithmetic::div_mod::lemma_mod_bound(mi + di - 1, di);
            assert(di * qi <= mi + di - 1);
            assert(mi <= di * qi) by {
                if mi > di * qi {
                    // Then (m + d - 1) - d*q >= d, contradicting the
                    // remainder bound.
                    assert((mi + di - 1) - di * qi >= di);
                }
            }
            assert(d * (-qi) <= n < d * (-qi + 1)) by (nonlinear_arith)
                requires
                    di * qi <= mi + di - 1,
                    mi <= di * qi,
                    n == -mi,
                    mi > 0,
                    di > 0,
                    d == di,
            ;
        }
        -(q as i128)
    }
}

/// No occluder lies in the axis-aligned box of the given fixed-point
/// radius around `(x0, y0)` (cell coordinates scaled by `SCALE`).
pub open spec fn open_box(g: TileGrid<Pixel>, x0: int, y0: int, radius: int) -> bool {
    forall|u: int, v: int|
        -radius <= SCALE * u - x0 <= radius && -radius <= SCALE * v - y0 <= radius
            ==> !#[trigger] blocked(g, u, v)
}

/// Some occluder cell contains the point `p` (on its closed square):
/// the cell the ray was stopped against.
pub open spec fn incident_blocked(g: TileGrid<Pixel>, p: FixedPoint) -> bool {
    exists|u: int, v: int|
        #[trigger] blocked(g, u, v) && SCALE * u <= p.x <= SCALE * u + SCALE && SCALE * v <= p.y
            <= SCALE * v + SCALE
}

/// The reported collision normal is consistent with the geometry of
/// the stop: a wall face is entered from its outside (the hit point
/// lies on that face of a blocked cell and the ray travels into it),
/// and a corner stop happens exactly at a lattice vertex touching a
/// blocked cell.
pub open spec fn struck(
    g: TileGrid<Pixel>,
    direction: FixedVec,
    p: FixedPoint,
    n: RayCollisionNormal,
) -> bool {
    match n {
        RayCollisionNormal::Wall(WallDirection::West) => direction.x > 0 && exists|u: int, v: int|
            #[trigger] blocked(g, u, v) && p.x == SCALE * u && SCALE * v <= p.y <= SCALE * v
                + SCALE,
        RayCollisionNormal::Wall(WallDirection::East) => direction.x < 0 && exists|u: int, v: int|
            #[trigger] blocked(g, u, v) && p.x == SCALE * u + SCALE && SCALE * v <= p.y <= SCALE
                * v + SCALE,
        RayCollisionNormal::Wall(WallDirection::North) => direction.y > 0 && exists|u: int, v: int|
            #[trigger] blocked(g, u, v) && p.y == SCALE * v && SCALE * u <= p.x <= SCALE * u
                + SCALE,
        RayCollisionNormal::Wall(WallDirection::South) => direction.y < 0 && exists|u: int, v: int|
            #[trigger] blocked(g, u, v) && p.y == SCALE * v + SCALE && SCALE * u <= p.x <= SCALE
                * u + SCALE,
        RayCollisionNormal::Corner(_, _) => (p.x as int) % (SCALE as int) == 0 && (p.y as int) % (
        SCALE as int) == 0 && incident_blocked(g, p),
    }
}

/// The hit point of the general traversal lies on the ray: ahead of
/// the start, and off the exact ray line by less than one rounding
/// unit of the crossing division.
pub open spec fn on_ray(start: FixedPoint, direction: FixedVec, p: FixedPoint) -> bool {
    let adx = if direction.x >= 0 {
        direction.x as int
    } else {
        -(direction.x as int)
    };
    let ady = if direction.y >= 0 {
        direction.y as int
    } else {
        -(direction.y as int)
    };
    let cross = direction.x * (p.y - start.y) - direction.y * (p.x - start.x);
    let along = direction.x * (p.x - start.x) + direction.y * (p.y - start.y);
    &&& -(adx + ady) < cross < adx + ady
    &&& along >= 0
}

/// The starting cell of a ray, per axis: the cell ahead of the grid
/// line when the position sits exactly on one.
pub open spec fn spec_cell_of(p: int, d: int) -> int {
    if d >= 0 {
        p / (SCALE as int)
    } else {
        ((p + SCALE - 1) / (SCALE as int)) - 1
    }
}

/// The point `max_distance` along the ray, rounded toward negative
/// infinity in each coordinate (`m` is the floor square root of the
/// direction's squared length).
pub open spec fn cap_point_post(start: FixedPoint, direction: FixedVec, max_distance: i64, r: FixedPoint) -> bool {
    exists|m: int|
        {
            &&& #[trigger] is_sqrt(spec_mag2(direction), m)
            &&& r.x == start.x + (direction.x * max_distance) / m
            &&& r.y == start.y + (direction.y * max_distance) / m
        }
}

/// A square root is at least each component's magnitude.
proof fn lemma_sqrt_component(dx: int, dy: int, m: int)
    requires
        is_sqrt(dx * dx + dy * dy, m),
    ensures
        dx <= m && -dx <= m,
        dy <= m && -dy <= m,
{
    assert(dx <= m && -dx <= m && dy <= m && -dy <= m) by (nonlinear_arith)
        requires
            m >= 0,
            m * m <= dx * dx + dy * dy,
            dx * dx + dy * dy < (m + 1) * (m + 1),
    ;
}

fn cap_point(start: FixedPoint, direction: FixedVec, max_distance: i64) -> (r: FixedPoint)
    requires
        in_window_point(start),
        in_window_vec(direction),
        !(direction.x == 0 && direction.y == 0),
        0 < max_distance <= FIXED_LIMIT,
    ensures
        cap_point_post(start, direction, max_distance, r),
        -(max_distance as int) <= r.x - start.x <= max_distance,
        -(max_distance as int) <= r.y - start.y <= max_distance,
{
    let m2 = mag2(direction);
    proof {
        assert(1 <= spec_mag2(direction) <= 0x8000_0000_0000_0000) by (nonlinear_arith)
            requires
                !(direction.x == 0 && direction.y == 0),
                spec_mag2(direction) == direction.x * direction.x + direction.y * direction.y,
                -2 * FIXED_LIMIT <= direction.x <= 2 * FIXED_LIMIT,
                -2 * FIXED_LIMIT <= direction.y <= 2 * FIXED_LIMIT,
                FIXED_LIMIT == 0x4000_0000,
        ;
    }
    let m = isqrt(m2 as u128) as i128;
    proof {
        assert(1 <= m <= 0x1_0000_0000) by (nonlinear_arith)
            requires
                is_sqrt(spec_mag2(direction), m as int),
                1 <= spec_mag2(direction) <= 0x8000_0000_0000_0000,
        ;
        lemma_sqrt_component(direction.x as int, direction.y as int, m as int);
        crate::geometry::lemma_product_bound(direction.x as int, max_distance as int);
        crate::geometry::lemma_product_bound(direction.y as int, max_distance as int);
    }
    let nx = (direction.x as i128) * (max_distance as i128);
    let ny = (direction.y as i128) * (max_distance as i128);
    let qx = div_floor_128(nx, m);
    let qy = div_floor_128(ny, m);
    proof {
        let mi = m as int;
        let d = max_distance as int;
        assert(-d <= qx <= d && -d <= qy <= d) by (nonlinear_arith)
            requires
                mi >= 1,
                direction.x <= mi && -direction.x <= mi,
                direction.y <= mi && -direction.y <= mi,
                mi * (qx as int) <= direction.x * d < mi * (qx as int + 1),
                mi * (qy as int) <= direction.y * d < mi * (qy as int + 1),
                d > 0,
        ;
        assert(qx as int == (direction.x * d) / mi) by (nonlinear_arith)
            requires
                mi >= 1,
                mi * (qx as int) <= direction.x * d < mi * (qx as int + 1),
        ;
        assert(qy as int == (direction.y * d) / mi) by (nonlinear_arith)
            requires
                mi >= 1,
                mi * (qy as int) <= direction.y * d < mi * (qy as int + 1),
        ;
        assert(is_sqrt(spec_mag2(direction), mi) && start.x + (direction.x * max_distance) / mi
            == start.x + qx && start.y + (direction.y * max_distance) / mi == start.y + qy);
    }
    FixedPoint { x: start.x + qx as i64, y: start.y + qy as i64 }
}


/// Full contract of the general (not edge-aligned) traversal.
pub open spec fn general_post(
    g: TileGrid<Pixel>,
    start: FixedPoint,
    direction: FixedVec,
    max_distance: i64,
    r: (FixedPoint, Option<RayCollisionNormal>),
) -> bool {
    let cx0 = spec_cell_of(start.x as int, direction.x as int);
    let cy0 = spec_cell_of(start.y as int, direction.y as int);
    &&& blocked(g, cx0, cy0) ==> r == (start, None::<RayCollisionNormal>)
    &&& !blocked(g, cx0, cy0) ==> {
        &&& r.1 is None ==> cap_point_post(start, direction, max_distance, r.0)
        &&& match r.1 {
            Some(n) => incident_blocked(g, r.0) && on_ray(start, direction, r.0) && struck(
                g,
                direction,
                r.0,
                n,
            ),
            None => true,
        }
        &&& open_box(g, start.x as int, start.y as int, max_distance + 3 * SCALE) ==> r.1 is None
    }
}

/// Bounds on the products of the squared-distance comparison, so the
/// 128-bit arithmetic cannot overflow.
proof fn lemma_dist_products(anum: int, aden: int, adx: int, ady: int, d: int)
    requires
        0 < anum <= d + SCALE,
        0 <= adx <= 2 * FIXED_LIMIT,
        0 <= ady <= 2 * FIXED_LIMIT,
        0 < aden <= 2 * FIXED_LIMIT,
        0 < d <= FIXED_LIMIT,
    ensures
        0 < anum * anum <= 0x4000_0000_0000_0000,
        0 <= adx * adx <= 0x4000_0000_0000_0000,
        0 <= ady * ady <= 0x4000_0000_0000_0000,
        0 <= anum * anum * (adx * adx + ady * ady) <= 0x2000_0000_0000_0000_0000_0000_0000_0000,
        0 < d * d <= 0x1000_0000_0000_0000,
        0 < d * d * aden <= 0x800_0000_0000_0000_0000_0000,
        0 < d * d * aden * aden <= 0x400_0000_0000_0000_0000_0000_0000_0000,
{
    assert(0 < anum * anum <= 0x4000_0000_0000_0000 && 0 <= adx * adx <= 0x4000_0000_0000_0000
        && 0 <= ady * ady <= 0x4000_0000_0000_0000 && 0 < d * d <= 0x1000_0000_0000_0000)
        by (nonlinear_arith)
        requires
            0 < anum <= d + SCALE,
            0 <= adx <= 2 * FIXED_LIMIT,
            0 <= ady <= 2 * FIXED_LIMIT,
            0 < d <= FIXED_LIMIT,
            FIXED_LIMIT == 0x4000_0000,
            SCALE == 65536,
    ;
    assert(0 <= anum * anum * (adx * adx + ady * ady)
        <= 0x2000_0000_0000_0000_0000_0000_0000_0000) by (nonlinear_arith)
        requires
            0 < anum * anum <= 0x4000_0000_0000_0000,
            0 <= adx * adx <= 0x4000_0000_0000_0000,
            0 <= ady * ady <= 0x4000_0000_0000_0000,
    ;
    assert(0 < d * d * aden <= 0x800_0000_0000_0000_0000_0000 && 0 < d * d * aden * aden
        <= 0x400_0000_0000_0000_0000_0000_0000_0000) by (nonlinear_arith)
        requires
            0 < d * d <= 0x1000_0000_0000_0000,
            0 < aden <= 2 * FIXED_LIMIT,
            FIXED_LIMIT == 0x4000_0000,
    ;
}

/// The other coordinate of a grid-line crossing stays inside the row
/// (or column) of cells the traversal currently occupies.
proof fn lemma_cross_range(
    ax: int,
    ay: int,
    adx: int,
    ady: int,
    dy: int,
    sy: int,
    y0: int,
    cy: int,
    q: int,
)
    requires
        adx > 0,
        ady >= 0,
        sy == 1 || sy == -1,
        dy == (if sy == 1 {
            ady
        } else {
            -ady
        }),
        dy >= 0 ==> sy == 1,
        ax * ady <= ay * adx,
        ax * ady >= (ay - SCALE) * adx,
        sy == 1 ==> SCALE * (cy + 1) == y0 + ay,
        sy == -1 ==> SCALE * cy == y0 - ay,
        adx * q <= ax * dy < adx * (q + 1),
    ensures
        SCALE * cy <= y0 + q <= SCALE * (cy + 1),
{
    if sy == 1 {
        assert(SCALE * cy <= y0 + q <= SCALE * (cy + 1)) by (nonlinear_arith)
            requires
                adx > 0,
                dy == ady,
                ady >= 0,
                ax * ady <= ay * adx,
                ax * ady >= (ay - SCALE) * adx,
                SCALE * (cy + 1) == y0 + ay,
                adx * q <= ax * dy < adx * (q + 1),
                SCALE == 65536,
        ;
    } else {
        assert(SCALE * cy <= y0 + q <= SCALE * (cy + 1)) by (nonlinear_arith)
            requires
                adx > 0,
                dy == -ady,
                ady >= 0,
                ax * ady <= ay * adx,
                ax * ady >= (ay - SCALE) * adx,
                SCALE * cy == y0 - ay,
                adx * q <= ax * dy < adx * (q + 1),
                SCALE == 65536,
        ;
    }
}

/// A crossing that advances both axes at once lands exactly on the
/// ray line, ahead of the start.
proof fn lemma_corner_on_ray(
    dx: int,
    dy: int,
    adx: int,
    ady: int,
    sx: int,
    sy: int,
    ax: int,
    ay: int,
    offx: int,
    offy: int,
)
    requires
        dx >= 0 ==> sx == 1 && adx == dx,
        dx < 0 ==> sx == -1 && adx == -dx,
        dy >= 0 ==> sy == 1 && ady == dy,
        dy < 0 ==> sy == -1 && ady == -dy,
        sx == 1 ==> offx == ax,
        sx == -1 ==> offx == -ax,
        sy == 1 ==> offy == ay,
        sy == -1 ==> offy == -ay,
        ax * ady == ay * adx,
        ax > 0,
        ay > 0,
        adx > 0,
        ady > 0,
    ensures
        dx * offy - dy * offx == 0,
        dx * offx + dy * offy >= 0,
        -(adx + ady) < dx * offy - dy * offx < adx + ady,
{
    if dx >= 0 {
        if dy >= 0 {
            assert(dx * offy - dy * offx == 0 && dx * offx + dy * offy >= 0) by (nonlinear_arith)
                requires
                    adx == dx,
                    ady == dy,
                    offx == ax,
                    offy == ay,
                    ax * ady == ay * adx,
                    ax > 0,
                    ay > 0,
                    dx >= 0,
                    dy >= 0,
            ;
        } else {
            assert(dx * offy - dy * offx == 0 && dx * offx + dy * offy >= 0) by (nonlinear_arith)
                requires
                    adx == dx,
                    ady == -dy,
                    offx == ax,
                    offy == -ay,
                    ax * ady == ay * adx,
                    ax > 0,
                    ay > 0,
                    dx >= 0,
                    dy < 0,
            ;
        }
    } else {
        if dy >= 0 {
            assert(dx * offy - dy * offx == 0 && dx * offx + dy * offy >= 0) by (nonlinear_arith)
                requires
                    adx == -dx,
                    ady == dy,
                    offx == -ax,
                    offy == ay,
                    ax * ady == ay * adx,
                    ax > 0,
                    ay > 0,
                    dx < 0,
                    dy >= 0,
            ;
        } else {
            assert(dx * offy - dy * offx == 0 && dx * offx + dy * offy >= 0) by (nonlinear_arith)
                requires
                    adx == -dx,
                    ady == -dy,
                    offx == -ax,
                    offy == -ay,
                    ax * ady == ay * adx,
                    ax > 0,
                    ay > 0,
                    dx < 0,
                    dy < 0,
            ;
        }
    }
}

/// A single-axis crossing lies on the ray up to the floor rounding of
/// the other coordinate, ahead of the start.  Stated for an x-step;
/// a y-step is the mirror image with the roles of the axes swapped
/// (then `dx * offy - dy * offx` is the negated cross product, and
/// the symmetric bound still holds).
proof fn lemma_step_on_ray(
    dx: int,
    dy: int,
    adx: int,
    ady: int,
    sx: int,
    ax: int,
    q: int,
    offx: int,
    offy: int,
)
    requires
        dx >= 0 ==> sx == 1 && adx == dx,
        dx < 0 ==> sx == -1 && adx == -dx,
        ady == (if dy >= 0 {
            dy
        } else {
            -dy
        }),
        sx == 1 ==> offx == ax,
        sx == -1 ==> offx == -ax,
        offy == q,
        adx * q <= ax * dy < adx * (q + 1),
        ax > 0,
        adx > 0,
    ensures
        -(adx + ady) < dx * offy - dy * offx < adx + ady,
        -(adx + ady) < dy * offx - dx * offy < adx + ady,
        dx * offx + dy * offy >= 0,
{
    assert(-adx < dx * offy - dy * offx <= 0 || 0 <= dx * offy - dy * offx < adx)
        by (nonlinear_arith)
        requires
            dx >= 0 ==> sx == 1 && adx == dx,
            dx < 0 ==> sx == -1 && adx == -dx,
            sx == 1 ==> offx == ax,
            sx == -1 ==> offx == -ax,
            offy == q,
            adx * q <= ax * dy < adx * (q + 1),
            ax > 0,
            adx > 0,
    ;
    assert(dx * offx + dy * offy >= 0 && ady >= 0) by (nonlinear_arith)
        requires
            dx >= 0 ==> sx == 1 && adx == dx,
            dx < 0 ==> sx == -1 && adx == -dx,
            ady == (if dy >= 0 {
                dy
            } else {
                -dy
            }),
            sx == 1 ==> offx == ax,
            sx == -1 ==> offx == -ax,
            offy == q,
            adx * q <= ax * dy < adx * (q + 1),
            ax > 0,
            adx > 0,
    ;
}

/// The general DDA: the ray is not traveling exactly along a grid
/// line.  Crossings of vertical and horizontal grid lines are merged
/// in exact order; when the ray passes exactly through a lattice
/// corner both axes advance at once and the two cells diagonally
/// sharing the corner are tested too, since a checkerboard pair of
/// occluders blocks the ray even though neither orthogonal neighbor
/// does.
#[verifier::rlimit(100)]
fn raycast_general(
    grid: &TileGrid<Pixel>,
    start: FixedPoint,
    direction: FixedVec,
    max_distance: i64,
) -> (r: (FixedPoint, Option<RayCollisionNormal>))
    requires
        grid.wf(),
        in_window_point(start),
        in_window_vec(direction),
        !(direction.x == 0 && direction.y == 0),
        0 < max_distance <= FIXED_LIMIT,
    ensures
        general_post(*grid, start, direction, max_distance, r),
        -(max_distance + SCALE as int) <= r.0.x - start.x <= max_distance + SCALE,
        -(max_distance + SCALE as int) <= r.0.y - start.y <= max_distance + SCALE,
{
    let ghost g = *grid;
    let x0 = start.x;
    let y0 = start.y;
    let dx = direction.x;
    let dy = direction.y;
    let adx = if dx >= 0 {
        dx
    } else {
        -dx
    };
    let ady = if dy >= 0 {
        dy
    } else {
        -dy
    };
    let sx: i64 = if dx >= 0 {
        1
    } else {
        -1
    };
    let sy: i64 = if dy >= 0 {
        1
    } else {
        -1
    };
    let mut cx = cell_of(x0, dx);
    let mut cy = cell_of(y0, dy);
    proof {
        if dx >= 0 {
            assert(cx as int == (x0 as int) / (SCALE as int)) by (nonlinear_arith)
                requires
                    SCALE as int * (cx as int) <= x0 < SCALE as int * (cx as int + 1),
                    SCALE == 65536,
            ;
        } else {
            assert(cx as int == ((x0 + SCALE - 1) / (SCALE as int)) - 1) by (nonlinear_arith)
                requires
                    SCALE as int * (cx as int) < x0 <= SCALE as int * (cx as int + 1),
                    SCALE == 65536,
            ;
        }
        if dy >= 0 {
            assert(cy as int == (y0 as int) / (SCALE as int)) by (nonlinear_arith)
                requires
                    SCALE as int * (cy as int) <= y0 < SCALE as int * (cy as int + 1),
                    SCALE == 65536,
            ;
        } else {
            assert(cy as int == ((y0 + SCALE - 1) / (SCALE as int)) - 1) by (nonlinear_arith)
                requires
                    SCALE as int * (cy as int) < y0 <= SCALE as int * (cy as int + 1),
                    SCALE == 65536,
            ;
        }
    }
    let ghost cx0 = cx as int;
    let ghost cy0 = cy as int;
    if blocked_at(grid, cx, cy) {
        return (start, None);
    }
    let mut ax = if dx >= 0 {
        SCALE * (cx + 1) - x0
    } else {
        x0 - SCALE * cx
    };
    let mut ay = if dy >= 0 {
        SCALE * (cy + 1) - y0
    } else {
        y0 - SCALE * cy
    };
    let mut side_a = false;
    let mut side_b = false;
    let ghost boxr = max_distance as int + 3 * SCALE;
    proof {
        assert((ax as int) * (ady as int) >= ((ay as int) - SCALE) * (adx as int) && (ay as int)
            * (adx as int) >= ((ax as int) - SCALE) * (ady as int)) by (nonlinear_arith)
            requires
                0 < ax <= SCALE,
                0 < ay <= SCALE,
                adx >= 0,
                ady >= 0,
                SCALE == 65536,
        ;
    }
    loop
        invariant
            grid.wf(),
            g == *grid,
            x0 == start.x,
            y0 == start.y,
            dx == direction.x,
            dy == direction.y,
            in_window_point(start),
            in_window_vec(direction),
            !(dx == 0 && dy == 0),
            0 < max_distance <= FIXED_LIMIT,
            boxr == max_distance as int + 3 * SCALE,
            adx as int == (if dx >= 0 {
                dx as int
            } else {
                -(dx as int)
            }),
            ady as int == (if dy >= 0 {
                dy as int
            } else {
                -(dy as int)
            }),
            sx as int == (if dx >= 0 {
                1int
            } else {
                -1int
            }),
            sy as int == (if dy >= 0 {
                1int
            } else {
                -1int
            }),
            cx0 == spec_cell_of(start.x as int, direction.x as int),
            cy0 == spec_cell_of(start.y as int, direction.y as int),
            !blocked(g, cx0, cy0),
            0 < ax <= max_distance + SCALE,
            0 < ay <= max_distance + SCALE,
            sx == 1 ==> SCALE as int * (cx as int + 1) == x0 + ax,
            sx == -1 ==> SCALE as int * (cx as int) == x0 - ax,
            sy == 1 ==> SCALE as int * (cy as int + 1) == y0 + ay,
            sy == -1 ==> SCALE as int * (cy as int) == y0 - ay,
            -0x10000 <= cx <= 0x10000,
            -0x10000 <= cy <= 0x10000,
            (ax as int) * (ady as int) >= ((ay as int) - SCALE) * (adx as int),
            (ay as int) * (adx as int) >= ((ax as int) - SCALE) * (ady as int),
            !(side_a && side_b),
            open_box(g, start.x as int, start.y as int, boxr) ==> !side_a && !side_b,
        decreases 2 * (max_distance as int) + 4 * SCALE - ax - ay,
    {
        let step_x: bool;
        let step_y: bool;
        if adx == 0 {
            step_x = false;
            step_y = true;
        } else if ady == 0 {
            step_x = true;
            step_y = false;
        } else {
            proof {
                crate::geometry::lemma_product_bound(ax as int, ady as int);
                crate::geometry::lemma_product_bound(ay as int, adx as int);
            }
            let tx = (ax as i128) * (ady as i128);
            let ty = (ay as i128) * (adx as i128);
            step_x = tx <= ty;
            step_y = ty <= tx;
        }
        proof {
            assert(step_x && step_y ==> ((ax as int) * (ady as int) == (ay as int) * (adx as int)
                && adx > 0 && ady > 0));
        }
        let anum = if step_x {
            ax
        } else {
            ay
        };
        let aden = if step_x {
            adx
        } else {
            ady
        };
        proof {
            lemma_dist_products(anum as int, aden as int, adx as int, ady as int,
                max_distance as int);
        }
        let lhs = (anum as i128) * (anum as i128) * ((adx as i128) * (adx as i128) + (ady as i128)
            * (ady as i128));
        let rhs = (max_distance as i128) * (max_distance as i128) * (aden as i128) * (
        aden as i128);
        if lhs >= rhs {
            let cap = cap_point(start, direction, max_distance);
            return (cap, None);
        }
        proof {
            assert(anum <= max_distance) by (nonlinear_arith)
                requires
                    (anum as int) * (anum as int) * ((adx as int) * (adx as int) + (ady as int) * (
                    ady as int)) < (max_distance as int) * (max_distance as int) * (aden as int) * (
                    aden as int),
                    anum > 0,
                    max_distance > 0,
                    aden > 0,
                    (if step_x {
                        aden as int == adx as int
                    } else {
                        aden as int == ady as int
                    }),
                    adx >= 0,
                    ady >= 0,
            ;
        }
        if step_x && step_y {
            // The ray passes exactly through a lattice corner.
            proof {
                assert(ax <= max_distance);
                assert(ay <= max_distance) by (nonlinear_arith)
                    requires
                        (ax as int) * (ady as int) == (ay as int) * (adx as int),
                        (ax as int) * (ax as int) * ((adx as int) * (adx as int) + (ady as int) * (
                        ady as int)) < (max_distance as int) * (max_distance as int) * (adx as int)
                            * (adx as int),
                        ax > 0,
                        ay > 0,
                        adx > 0,
                        ady > 0,
                        max_distance > 0,
                ;
            }
            let ghost axp = ax as int;
            let ghost ayp = ay as int;
            cx = cx + sx;
            cy = cy + sy;
            let px = if sx == 1 {
                x0 + ax
            } else {
                x0 - ax
            };
            let py = if sy == 1 {
                y0 + ay
            } else {
                y0 - ay
            };
            let a_now = blocked_at(grid, cx - sx, cy);
            let b_now = blocked_at(grid, cx, cy - sy);
            let a_before = side_a;
            let b_before = side_b;
            side_a = side_a || a_now;
            side_b = side_b || b_now;
            let hit = blocked_at(grid, cx, cy);
            proof {
                if open_box(g, start.x as int, start.y as int, boxr) {
                    assert(!blocked(g, cx as int, cy as int));
                    assert(!blocked(g, cx as int - sx, cy as int));
                    assert(!blocked(g, cx as int, cy as int - sy));
                }
            }
            if hit {
                let normal = if a_now == b_now {
                    RayCollisionNormal::Corner(
                        CornerDirection::new(a_now, sy < 0, sx > 0),
                        !a_now || !(a_before || b_before),
                    )
                } else if b_now {
                    RayCollisionNormal::Wall(
                        if sx > 0 {
                            WallDirection::West
                        } else {
                            WallDirection::East
                        },
                    )
                } else {
                    RayCollisionNormal::Wall(
                        if sy > 0 {
                            WallDirection::North
                        } else {
                            WallDirection::South
                        },
                    )
                };
                let res = (FixedPoint { x: px, y: py }, Some(normal));
                proof {
                    assert(incident_blocked(g, res.0)) by {
                        assert(blocked(g, cx as int, cy as int));
                        assert(SCALE * (cx as int) <= px <= SCALE * (cx as int) + SCALE);
                        assert(SCALE * (cy as int) <= py <= SCALE * (cy as int) + SCALE);
                    }
                    lemma_corner_on_ray(direction.x as int, direction.y as int, adx as int,
                        ady as int, sx as int, sy as int, ax as int, ay as int, px - x0, py - y0);
                }
                return res;
            }
            if side_a && side_b {
                let normal = if a_now && b_now {
                    RayCollisionNormal::Corner(CornerDirection::new(true, sy < 0, sx > 0), false)
                } else {
                    let south: bool;
                    let west: bool;
                    if sx > 0 && sy > 0 {
                        south = !a_now;
                        west = !a_now;
                    } else if sx > 0 {
                        south = !a_now;
                        west = a_now;
                    } else if sy > 0 {
                        south = a_now;
                        west = !a_now;
                    } else {
                        south = a_now;
                        west = a_now;
                    }
                    RayCollisionNormal::Corner(CornerDirection::new(false, south, west), true)
                };
                let res = (FixedPoint { x: px, y: py }, Some(normal));
                proof {
                    // One of the two diagonal cells was just seen
                    // blocked (the sides were not both set before),
                    // and the hit point is the lattice corner both
                    // diagonal cells share.
                    assert(a_now || b_now);
                    assert(incident_blocked(g, res.0)) by {
                        if a_now {
                            assert(blocked(g, cx as int - sx, cy as int));
                            assert(SCALE * (cx as int - sx) <= px <= SCALE * (cx as int - sx)
                                + SCALE);
                            assert(SCALE * (cy as int) <= py <= SCALE * (cy as int) + SCALE);
                        } else {
                            assert(blocked(g, cx as int, cy as int - sy));
                            assert(SCALE * (cx as int) <= px <= SCALE * (cx as int) + SCALE);
                            assert(SCALE * (cy as int - sy) <= py <= SCALE * (cy as int - sy)
                                + SCALE);
                        }
                    }
                    lemma_corner_on_ray(direction.x as int, direction.y as int, adx as int,
                        ady as int, sx as int, sy as int, ax as int, ay as int, px - x0, py - y0);
                }
                return res;
            }
            ax = ax + SCALE;
            ay = ay + SCALE;
            proof {
                assert((ax as int) * (ady as int) >= ((ay as int) - SCALE) * (adx as int) && (
                ay as int) * (adx as int) >= ((ax as int) - SCALE) * (ady as int))
                    by (nonlinear_arith)
                    requires
                        ax as int == axp + SCALE,
                        ay as int == ayp + SCALE,
                        axp * (ady as int) == ayp * (adx as int),
                        adx >= 0,
                        ady >= 0,
                        SCALE == 65536,
                ;
            }
        } else if step_x {
            let ghost axp = ax as int;
            cx = cx + sx;
            let px = if sx == 1 {
                x0 + ax
            } else {
                x0 - ax
            };
            proof {
                crate::geometry::lemma_product_bound(ax as int, dy as int);
            }
            let py_q = div_floor_128((ax as i128) * (dy as i128), adx as i128);
            proof {
                if ady == 0 {
                    assert((ax as int) * (ady as int) == 0 && 0 <= (ay as int) * (adx as int))
                        by (nonlinear_arith)
                        requires
                            ady == 0,
                            ay >= 0,
                            adx >= 0,
                    ;
                }
                lemma_cross_range(ax as int, ay as int, adx as int, ady as int, dy as int,
                    sy as int, y0 as int, cy as int, py_q as int);
            }
            let py = y0 + (py_q as i64);
            let hit = blocked_at(grid, cx, cy);
            proof {
                if open_box(g, start.x as int, start.y as int, boxr) {
                    assert(!blocked(g, cx as int, cy as int));
                }
            }
            if hit {
                let res = (
                    FixedPoint { x: px, y: py },
                    Some(
                        RayCollisionNormal::Wall(
                            if sx > 0 {
                                WallDirection::West
                            } else {
                                WallDirection::East
                            },
                        ),
                    ),
                );
                proof {
                    assert(incident_blocked(g, res.0)) by {
                        assert(blocked(g, cx as int, cy as int));
                        assert(SCALE * (cx as int) <= px <= SCALE * (cx as int) + SCALE);
                        assert(SCALE * (cy as int) <= py <= SCALE * (cy as int) + SCALE);
                    }
                    lemma_step_on_ray(direction.x as int, direction.y as int, adx as int,
                        ady as int, sx as int, ax as int, py_q as int, px - x0, py - y0);
                }
                return res;
            }
            ax = ax + SCALE;
            proof {
                assert((ax as int) * (ady as int) >= ((ay as int) - SCALE) * (adx as int) && (
                ay as int) * (adx as int) >= ((ax as int) - SCALE) * (ady as int))
                    by (nonlinear_arith)
                    requires
                        ax as int == axp + SCALE,
                        axp * (ady as int) <= (ay as int) * (adx as int),
                        axp * (ady as int) >= ((ay as int) - SCALE) * (adx as int),
                        adx >= 0,
                        ady >= 0,
                        SCALE == 65536,
                ;
            }
        } else {
            let ghost ayp = ay as int;
            cy = cy + sy;
            let py = if sy == 1 {
                y0 + ay
            } else {
                y0 - ay
            };
            proof {
                crate::geometry::lemma_product_bound(ay as int, dx as int);
            }
            let px_q = div_floor_128((ay as i128) * (dx as i128), ady as i128);
            proof {
                if adx == 0 {
                    assert((ay as int) * (adx as int) == 0 && 0 <= (ax as int) * (ady as int))
                        by (nonlinear_arith)
                        requires
                            adx == 0,
                            ax >= 0,
                            ady >= 0,
                    ;
                }
                lemma_cross_range(ay as int, ax as int, ady as int, adx as int, dx as int,
                    sx as int, x0 as int, cx as int, px_q as int);
            }
            let px = x0 + (px_q as i64);
            let hit = blocked_at(grid, cx, cy);
            proof {
                if open_box(g, start.x as int, start.y as int, boxr) {
                    assert(!blocked(g, cx as int, cy as int));
                }
            }
            if hit {
                let res = (
                    FixedPoint { x: px, y: py },
                    Some(
                        RayCollisionNormal::Wall(
                            if sy > 0 {
                                WallDirection::North
                            } else {
                                WallDirection::South
                            },
                        ),
                    ),
                );
                proof {
                    assert(incident_blocked(g, res.0)) by {
                        assert(blocked(g, cx as int, cy as int));
                        assert(SCALE * (cx as int) <= px <= SCALE * (cx as int) + SCALE);
                        assert(SCALE * (cy as int) <= py <= SCALE * (cy as int) + SCALE);
                    }
                    lemma_step_on_ray(direction.y as int, direction.x as int, ady as int,
                        adx as int, sy as int, ay as int, px_q as int, py - y0, px - x0);
                }
                return res;
            }
            ay = ay + SCALE;
            proof {
                assert((ay as int) * (adx as int) >= ((ax as int) - SCALE) * (ady as int) && (
                ax as int) * (ady as int) >= ((ay as int) - SCALE) * (adx as int))
                    by (nonlinear_arith)
                    requires
                        ay as int == ayp + SCALE,
                        ayp * (adx as int) <= (ax as int) * (ady as int),
                        ayp * (adx as int) >= ((ax as int) - SCALE) * (ady as int),
                        adx >= 0,
                        ady >= 0,
                        SCALE == 65536,
                ;
            }
        }
    }
}


/// The contract of `raycast`: a ray running exactly along a grid
/// line follows the two-straddled-cells rule; anything else follows
/// the general traversal.
pub open spec fn raycast_post(
    g: TileGrid<Pixel>,
    start: FixedPoint,
    direction: FixedVec,
    max_distance: i64,
    r: (FixedPoint, Option<RayCollisionNormal>),
) -> bool {
    if direction.x == 0 && start.x % SCALE == 0 {
        edge_scan_y_post(
            g,
            start.x,
            start.y,
            if direction.y >= 0 {
                1i64
            } else {
                -1i64
            },
            max_distance,
            r,
        )
    } else if direction.y == 0 && start.y % SCALE == 0 {
        edge_scan_x_post(
            g,
            start.x,
            start.y,
            if direction.x >= 0 {
                1i64
            } else {
                -1i64
            },
            max_distance,
            r,
        )
    } else {
        general_post(g, start, direction, max_distance, r)
    }
}

/// Cast a ray from `start` along `direction` (any nonzero integer
/// vector; it need not be normalized) until it hits an occluder or
/// travels `max_distance` fixed-point units.  Returns the stopping
/// point and which surface was struck, if any.
pub fn raycast(
    grid: &TileGrid<Pixel>,
    start: FixedPoint,
    direction: FixedVec,
    max_distance: i64,
) -> (r: (FixedPoint, Option<RayCollisionNormal>))
    requires
        grid.wf(),
        in_window_point(start),
        in_window_vec(direction),
        !(direction.x == 0 && direction.y == 0),
        0 < max_distance <= FIXED_LIMIT,
    ensures
        raycast_post(*grid, start, direction, max_distance, r),
        -(max_distance + SCALE as int) <= r.0.x - start.x <= max_distance + SCALE,
        -(max_distance + SCALE as int) <= r.0.y - start.y <= max_distance + SCALE,
{
    if direction.x == 0 && on_line(start.x) {
        let sy: i64 = if direction.y >= 0 {
            1
        } else {
            -1
        };
        edge_scan_y(grid, start.x, start.y, sy, max_distance)
    } else if direction.y == 0 && on_line(start.y) {
        let sx: i64 = if direction.x >= 0 {
            1
        } else {
            -1
        };
        edge_scan_x(grid, start.x, start.y, sx, max_distance)
    } else {
        raycast_general(grid, start, direction, max_distance)
    }
}

} // verus!
