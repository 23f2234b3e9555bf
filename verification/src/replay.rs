//! Temporal replay and paradox detection.
//!
//! A player entity records its own position per frame and, for every
//! entity inside its field of view, that entity's visible state.
//! While replaying, the recorded position drives the entity, and the
//! recorded perceptions are cross-checked against what is actually
//! visible now: any disagreement raises a paradox level that feeds
//! the player's confusion; agreement lets confusion decay.

use vstd::prelude::*;
use crate::area::LightArea;
use crate::geometry::FIXED_LIMIT;
use crate::geometry::FixedPoint;
use crate::geometry::FixedVec;
use crate::geometry::SCALE;
use crate::geometry::in_window_point;
use crate::geometry::isqrt;
use crate::geometry::mag2;
use crate::geometry::spec_mag2;
use crate::geometry::dot;
use crate::history::FrameIndex;
use crate::history::History;
use crate::history::HistoryValue;
use crate::light::LightGrid;

verus! {

/// Logical updates per second.
pub const UPDATE_TPS: i64 = 60;

/// One logical frame, in fixed-point seconds (`SCALE / UPDATE_TPS`).
pub const UPDATE_DT: i64 = 1092;

/// Seconds of sustained full paradox that kill (fixed-point,
/// `SCALE / 10`).
pub const CONFUSION_TIME: i64 = 6553;

/// Seconds to recover from full confusion (fixed-point).
pub const RECOVERY_TIME: i64 = 5 * SCALE;

/// Paradoxes closer than this weigh fully (fixed-point units).
pub const CONFUSION_FALLOFF_DISTANCE: i64 = 24 * SCALE;

/// Entities closer than this are always considered in view.
pub const CONFUSION_DISTANCE_THRESHOLD: i64 = 12 * SCALE;

/// Amount confusion decays in one quiet frame
/// (`UPDATE_DT * SCALE / RECOVERY_TIME`).
pub const CONFUSION_DECAY: i64 = 218;

/// What an observer perceives of an entity at one instant: its
/// position and an opaque discriminant.  Equality of two snapshots is
/// the sole signal that nothing changed.
#[derive(Clone, Copy, PartialEq, Eq, Structural, Debug)]
pub struct EntityVisibleState {
    pub position: FixedPoint,
    pub extra: u64,
}

impl EntityVisibleState {
    pub fn new(position: FixedPoint, extra: u64) -> (r: EntityVisibleState)
        ensures
            r == (EntityVisibleState { position, extra }),
    {
        EntityVisibleState { position, extra }
    }

    pub fn position(&self) -> (r: FixedPoint)
        ensures
            r == self.position,
    {
        self.position
    }
}

impl HistoryValue for EntityVisibleState {
    fn value_eq(&self, other: &Self) -> (r: bool) {
        *self == *other
    }
}

/// One frame of a player's own recording: where it stood and where it
/// aimed.
#[derive(Clone, Copy, PartialEq, Eq, Structural, Debug)]
pub struct PlayerHistoryEntry {
    pub position: FixedPoint,
    pub mouse_position: FixedPoint,
}

impl HistoryValue for PlayerHistoryEntry {
    fn value_eq(&self, other: &Self) -> (r: bool) {
        *self == *other
    }
}

#[derive(Clone, Copy, PartialEq, Eq, Structural, Debug)]
pub enum PlayerState {
    Active,
    Recording,
    Dead,
}

/// A live-versus-recorded pair for one observed entity at one frame:
/// what is actually visible now, and what the replaying observer
/// remembers having seen.
#[derive(Clone, Copy, PartialEq, Eq, Structural, Debug)]
pub struct Observation {
    pub current: Option<EntityVisibleState>,
    pub expected: Option<EntityVisibleState>,
}

impl Observation {
    pub open spec fn mismatched(self) -> bool {
        self.current != self.expected
    }

    /// The position an observation is reported at: the live one when
    /// present, else the remembered one.
    pub open spec fn spec_position(self) -> FixedPoint {
        match (self.current, self.expected) {
            (Some(s), _) => s.position,
            (None, Some(s)) => s.position,
            (None, None) => FixedPoint { x: 0, y: 0 },
        }
    }
}

/// Whether an offset from a view origin falls in the area's angular
/// range (no range means a full circle), or the entity stands inside
/// the always-seen threshold radius.
pub open spec fn angularly_seen(area: LightArea, position: FixedPoint) -> bool {
    let off = FixedVec {
        x: (position.x - area.origin.x) as i64,
        y: (position.y - area.origin.y) as i64,
    };
    ||| match area.range {
        Some(ar) => ar.spec_contains_offset(off),
        None => true,
    }
    ||| crate::geometry::spec_mag2(off) <= CONFUSION_DISTANCE_THRESHOLD
        * CONFUSION_DISTANCE_THRESHOLD
}

/// Whether an entity at `position` counts as inside a view area: it
/// must fall in the angular range (or stand very close), with a clear
/// line of sight from the area's origin.
pub fn entity_within_view(grid: &LightGrid, area: &LightArea, position: FixedPoint) -> (r: bool)
    requires
        grid.wf(),
        in_window_point(area.origin),
        in_window_point(position),
        match area.range {
            Some(ar) => crate::geometry::in_window_vec(ar.left) && crate::geometry::in_window_vec(
                ar.right,
            ),
            None => true,
        },
    ensures
        !angularly_seen(*area, position) ==> !r,
        r ==> angularly_seen(*area, position),
        r && position != area.origin ==> exists|res: (
            FixedPoint,
            Option<crate::corner::RayCollisionNormal>,
        )|
            #[trigger] crate::raycast::raycast_post(
                grid.spec_grid(),
                area.origin,
                (FixedVec {
                    x: (position.x - area.origin.x) as i64,
                    y: (position.y - area.origin.y) as i64,
                }),
                crate::light::MAXIMUM_RAY_RANGE,
                res,
            ) && crate::light::reaches(area.origin, position, res.0),
        !r && angularly_seen(*area, position) && position != area.origin ==> exists|res: (
            FixedPoint,
            Option<crate::corner::RayCollisionNormal>,
        )|
            #[trigger] crate::raycast::raycast_post(
                grid.spec_grid(),
                area.origin,
                (FixedVec {
                    x: (position.x - area.origin.x) as i64,
                    y: (position.y - area.origin.y) as i64,
                }),
                crate::light::MAXIMUM_RAY_RANGE,
                res,
            ) && !crate::light::reaches(area.origin, position, res.0),
{
    let off = FixedVec { x: position.x - area.origin.x, y: position.y - area.origin.y };
    let in_range = match area.range {
        Some(ar) => ar.contains_offset(off),
        None => true,
    };
    // The threshold squared.
    let close = mag2(off) <= (CONFUSION_DISTANCE_THRESHOLD as i128) * (
    CONFUSION_DISTANCE_THRESHOLD as i128);
    proof {
        assert((CONFUSION_DISTANCE_THRESHOLD as int) * (CONFUSION_DISTANCE_THRESHOLD as int)
            == 618475290624) by (nonlinear_arith)
            requires
                CONFUSION_DISTANCE_THRESHOLD == 786432,
        ;
        assert((in_range || close) == angularly_seen(*area, position));
    }
    (in_range || close) && grid.contains_path(area.origin, position)
}

/// Whether an entity with extent counts as inside a view area: some
/// edge of its outline crosses the fan's outer boundary, or its
/// center passes the angular-range and line-of-sight test.  This is
/// the full membership test entities with nonzero extent use.
pub fn entity_edges_within_view(
    grid: &LightGrid,
    area: &LightArea,
    position: FixedPoint,
    edges: &Vec<(FixedPoint, FixedPoint)>,
) -> (r: bool)
    requires
        grid.wf(),
        in_window_point(area.origin),
        in_window_point(position),
        match area.range {
            Some(ar) => crate::geometry::in_window_vec(ar.left) && crate::geometry::in_window_vec(
                ar.right,
            ),
            None => true,
        },
        forall|i: int|
            0 <= i < area.rays@.len() ==> crate::geometry::in_window_vec(
                (#[trigger] area.rays@[i]).offset,
            ) && -FIXED_LIMIT <= area.origin.x + area.rays@[i].offset.x <= FIXED_LIMIT
                && -FIXED_LIMIT <= area.origin.y + area.rays@[i].offset.y <= FIXED_LIMIT,
        forall|e: int|
            0 <= e < edges@.len() ==> in_window_point((#[trigger] edges@[e]).0)
                && in_window_point(edges@[e].1),
    ensures
        // An edge crossing the fan boundary decides by itself.
        (exists|e: int|
            0 <= e < edges@.len() && exists|i: int|
                0 <= i && i + 1 < area.rays@.len() && #[trigger] crate::area::spec_segments_intersect(
                    area.spec_ray_point(i),
                    area.spec_ray_point(i + 1),
                    (#[trigger] edges@[e]).0,
                    edges@[e].1,
                )) ==> r,
        // Otherwise the center test decides, so a rejection means the
        // center was out of range and no edge crossed.
        !r ==> !angularly_seen(*area, position) || position == area.origin || exists|res: (
            FixedPoint,
            Option<crate::corner::RayCollisionNormal>,
        )|
            #[trigger] crate::raycast::raycast_post(
                grid.spec_grid(),
                area.origin,
                (FixedVec {
                    x: (position.x - area.origin.x) as i64,
                    y: (position.y - area.origin.y) as i64,
                }),
                crate::light::MAXIMUM_RAY_RANGE,
                res,
            ) && !crate::light::reaches(area.origin, position, res.0),
{
    let mut e: usize = 0;
    while e < edges.len()
        invariant
            grid.wf(),
            in_window_point(area.origin),
            forall|i: int|
                0 <= i < area.rays@.len() ==> crate::geometry::in_window_vec(
                    (#[trigger] area.rays@[i]).offset,
                ) && -FIXED_LIMIT <= area.origin.x + area.rays@[i].offset.x <= FIXED_LIMIT
                    && -FIXED_LIMIT <= area.origin.y + area.rays@[i].offset.y <= FIXED_LIMIT,
            forall|k: int|
                0 <= k < edges@.len() ==> in_window_point((#[trigger] edges@[k]).0)
                    && in_window_point(edges@[k].1),
            e <= edges@.len(),
            forall|k: int|
                0 <= k < e ==> !(exists|i: int|
                    0 <= i && i + 1 < area.rays@.len()
                        && #[trigger] crate::area::spec_segments_intersect(
                        area.spec_ray_point(i),
                        area.spec_ray_point(i + 1),
                        (#[trigger] edges@[k]).0,
                        edges@[k].1,
                    )),
        decreases edges@.len() - e,
    {
        let (ea, eb) = edges[e];
        if area.edge_intersects_line(ea, eb) {
            return true;
        }
        e = e + 1;
    }
    entity_within_view(grid, area, position)
}

/// The exact paradox weight of a mismatched observation, in fixed
/// point: a distance factor (full inside the falloff radius, then
/// inversely proportional to the floor-square-root distance of the
/// nearer reported position, never zero) times an angular factor
/// (full dead ahead, floored at a quarter, falling linearly in the
/// cosine of the angle to the view direction as a linear stand-in
/// for the arc), clamped to `[1, SCALE]`.  This is what
/// `compare_states` returns for every mismatch.
pub open spec fn spec_compare_level(
    position: FixedPoint,
    view_direction: FixedVec,
    view_width: i64,
    current: Option<EntityVisibleState>,
    expected: Option<EntityVisibleState>,
) -> int {
    let d2_cur: Option<int> = match current {
        Some(s) => Some(
            spec_mag2(
                (FixedVec {
                    x: (s.position.x - position.x) as i64,
                    y: (s.position.y - position.y) as i64,
                }),
            ),
        ),
        None => None,
    };
    let d2_exp: Option<int> = match expected {
        Some(s) => Some(
            spec_mag2(
                (FixedVec {
                    x: (s.position.x - position.x) as i64,
                    y: (s.position.y - position.y) as i64,
                }),
            ),
        ),
        None => None,
    };
    let d2: int = match (d2_cur, d2_exp) {
        (Some(a), Some(b)) => if a < b {
            a
        } else {
            b
        },
        (Some(a), None) => a,
        (None, Some(b)) => b,
        (None, None) => 0,
    };
    let distance = crate::geometry::sqrt_floor(d2);
    let dist_factor: int = if distance <= CONFUSION_FALLOFF_DISTANCE {
        SCALE as int
    } else {
        let q = 103079215104int / distance;
        if q >= SCALE {
            SCALE as int
        } else if q < 1 {
            1
        } else {
            q
        }
    };
    let off = match (current, expected) {
        (Some(s), _) => FixedVec {
            x: (s.position.x - position.x) as i64,
            y: (s.position.y - position.y) as i64,
        },
        (None, Some(s)) => FixedVec {
            x: (s.position.x - position.x) as i64,
            y: (s.position.y - position.y) as i64,
        },
        (None, None) => FixedVec { x: 0, y: 0 },
    };
    let vm2 = spec_mag2(view_direction);
    let om2 = spec_mag2(off);
    let angle_factor: int = if vm2 == 0 || om2 == 0 {
        SCALE as int
    } else {
        let mv = crate::geometry::sqrt_floor(vm2);
        let mo = crate::geometry::sqrt_floor(om2);
        let d = crate::geometry::spec_dot(view_direction, off);
        let denom = mv * mo;
        let cos_mag: int = if denom == 0 {
            0
        } else {
            let dm: int = if d >= 0 {
                d
            } else {
                -d
            };
            let c = dm * 65536int / denom;
            if c > 65536 {
                65536int
            } else {
                c
            }
        };
        let cos_fixed: int = if d >= 0 {
            cos_mag
        } else {
            -cos_mag
        };
        let theta = (SCALE - cos_fixed) * 205887int / 131072;
        let sub_wide = 2 * theta * 65536int / (view_width as int);
        let raw: int = if sub_wide > 0x1_0000_0000_0000 {
            -1
        } else {
            SCALE - sub_wide
        };
        if raw < SCALE / 4 {
            (SCALE / 4) as int
        } else if raw > SCALE {
            SCALE as int
        } else {
            raw
        }
    };
    let level_wide = dist_factor * angle_factor / 65536int;
    if level_wide < 1 {
        1
    } else if level_wide > 65536 {
        SCALE as int
    } else {
        level_wide
    }
}

/// The paradox weight of one mismatched observation, from the
/// observer at `position` looking along `view_direction` with the
/// given angular width (fixed-point radians).  `None` when the states
/// agree; otherwise the exact `spec_compare_level` weight, in
/// `[1, SCALE]`.
pub fn compare_states(
    position: FixedPoint,
    view_direction: FixedVec,
    view_width: i64,
    current: Option<EntityVisibleState>,
    expected: Option<EntityVisibleState>,
) -> (r: Option<i64>)
    requires
        in_window_point(position),
        crate::geometry::in_window_vec(view_direction),
        0 < view_width <= 7 * SCALE,
        match current {
            Some(s) => in_window_point(s.position),
            None => true,
        },
        match expected {
            Some(s) => in_window_point(s.position),
            None => true,
        },
    ensures
        r is Some <==> current != expected,
        match r {
            Some(level) => 1 <= level <= SCALE && level as int == spec_compare_level(
                position,
                view_direction,
                view_width,
                current,
                expected,
            ),
            None => true,
        },
{
    let differ = match (current, expected) {
        (Some(a), Some(b)) => !a.value_eq(&b),
        (None, None) => false,
        _ => true,
    };
    if !differ {
        return None;
    }
    // The nearer of the two positions (at least one side is present,
    // since two absent states would be equal).
    let d2_cur: Option<i128> = match current {
        Some(s) => Some(
            mag2(FixedVec { x: s.position.x - position.x, y: s.position.y - position.y }),
        ),
        None => None,
    };
    let d2_exp: Option<i128> = match expected {
        Some(s) => Some(
            mag2(FixedVec { x: s.position.x - position.x, y: s.position.y - position.y }),
        ),
        None => None,
    };
    let d2 = match (d2_cur, d2_exp) {
        (Some(a), Some(b)) => if a < b {
            a
        } else {
            b
        },
        (Some(a), None) => a,
        (None, Some(b)) => b,
        (None, None) => 0,
    };
    let distance_raw = isqrt(d2 as u128);
    proof {
        assert(distance_raw as int <= 0x1_0000_0000) by (nonlinear_arith)
            requires
                (distance_raw as int) * (distance_raw as int) <= d2,
                0 <= d2 <= 0x8000_0000_0000_0000,
                distance_raw >= 0,
        ;
    }
    let distance = distance_raw as i64;
    // Distance factor: full inside the falloff radius, then inversely
    // proportional, never zero (103079215104 is the falloff radius
    // times SCALE).
    let dist_factor: i64 = if distance <= CONFUSION_FALLOFF_DISTANCE {
        SCALE
    } else {
        let q = 103079215104u128 / (distance as u128);
        if q >= SCALE as u128 {
            SCALE
        } else if q < 1 {
            1
        } else {
            q as i64
        }
    };
    // Angular factor: mismatches dead ahead weigh fully, behind the
    // observer a quarter; between them linearly in the cosine of the
    // angle to the view direction (the arc is approximated linearly
    // from the cosine).
    let off = match (current, expected) {
        (Some(s), _) => FixedVec { x: s.position.x - position.x, y: s.position.y - position.y },
        (None, Some(s)) => FixedVec { x: s.position.x - position.x, y: s.position.y - position.y },
        (None, None) => FixedVec { x: 0, y: 0 },
    };
    let vm2 = mag2(view_direction);
    let om2 = mag2(off);
    let angle_factor: i64 = if vm2 == 0 || om2 == 0 {
        SCALE
    } else {
        let mv = isqrt(vm2 as u128);
        let mo = isqrt(om2 as u128);
        proof {
            assert(mv as int <= 0x1_0000_0000 && mo as int <= 0x1_0000_0000 && (mv as int) * (
            mo as int) <= 0x1_0000_0000_0000_0000) by (nonlinear_arith)
                requires
                    (mv as int) * (mv as int) <= vm2,
                    (mo as int) * (mo as int) <= om2,
                    0 <= vm2 <= 0x8000_0000_0000_0000,
                    0 <= om2 <= 0x8000_0000_0000_0000,
                    mv >= 0,
                    mo >= 0,
            ;
        }
        let d = dot(view_direction, off);
        let denom = (mv as u128) * (mo as u128);
        let cos_mag: u128 = if denom == 0 {
            0
        } else {
            let dm: u128 = if d >= 0 {
                d as u128
            } else {
                (-d) as u128
            };
            let c = dm * 65536u128 / denom;
            if c > 65536u128 {
                65536u128
            } else {
                c
            }
        };
        let cos_fixed: i64 = if d >= 0 {
            cos_mag as i64
        } else {
            -(cos_mag as i64)
        };
        // angle ~ (1 - cos) * pi / 2; weight 1 - 2 * angle / width,
        // clamped to [1/4, 1] (205887 is pi in fixed point).
        let theta = ((SCALE - cos_fixed) as u128) * 205887u128 / (2 * 65536u128);
        let sub_wide = 2 * theta * 65536u128 / (view_width as u128);
        let raw: i64 = if sub_wide > 0x1_0000_0000_0000u128 {
            -1
        } else {
            SCALE - (sub_wide as i64)
        };
        if raw < SCALE / 4 {
            SCALE / 4
        } else if raw > SCALE {
            SCALE
        } else {
            raw
        }
    };
    proof {
        assert(0 <= (dist_factor as int) * (angle_factor as int) <= 0x1_0000_0000)
            by (nonlinear_arith)
            requires
                0 <= dist_factor <= 65536,
                0 <= angle_factor <= 65536,
        ;
    }
    let level_wide = (dist_factor as u128) * (angle_factor as u128) / 65536u128;
    let level: i64 = if level_wide < 1 {
        1
    } else if level_wide > 65536u128 {
        SCALE
    } else {
        level_wide as i64
    };
    Some(level)
}

/// The worst paradox over a frame's observations: `Some` exactly when
/// some observation is mismatched, with a level in `[1, SCALE]` and
/// the position of a mismatched entity.
pub fn paradox_level(
    position: FixedPoint,
    view_direction: FixedVec,
    view_width: i64,
    observations: &Vec<Observation>,
) -> (r: Option<(i64, FixedPoint)>)
    requires
        in_window_point(position),
        crate::geometry::in_window_vec(view_direction),
        0 < view_width <= 7 * SCALE,
        forall|i: int|
            0 <= i < observations@.len() ==> {
                &&& match (#[trigger] observations@[i]).current {
                    Some(s) => in_window_point(s.position),
                    None => true,
                }
                &&& match observations@[i].expected {
                    Some(s) => in_window_point(s.position),
                    None => true,
                }
            },
    ensures
        r is Some <==> exists|i: int|
            0 <= i < observations@.len() && (#[trigger] observations@[i]).mismatched(),
        match r {
            Some(lp) => {
                // The worst mismatch decides, reported at a
                // worst-weighted observation's position.
                &&& 1 <= lp.0 <= SCALE
                &&& exists|i: int|
                    0 <= i < observations@.len() && (#[trigger] observations@[i]).mismatched()
                        && lp.1 == observations@[i].spec_position() && lp.0
                        == spec_compare_level(
                        position,
                        view_direction,
                        view_width,
                        observations@[i].current,
                        observations@[i].expected,
                    )
                &&& forall|i: int|
                    0 <= i < observations@.len() && (#[trigger] observations@[i]).mismatched()
                        ==> spec_compare_level(
                        position,
                        view_direction,
                        view_width,
                        observations@[i].current,
                        observations@[i].expected,
                    ) <= lp.0
            },
            None => true,
        },
{
    let mut best: Option<(i64, FixedPoint)> = None;
    let mut i: usize = 0;
    while i < observations.len()
        invariant
            in_window_point(position),
            crate::geometry::in_window_vec(view_direction),
            0 < view_width <= 7 * SCALE,
            i <= observations@.len(),
            forall|k: int|
                0 <= k < observations@.len() ==> {
                    &&& match (#[trigger] observations@[k]).current {
                        Some(s) => in_window_point(s.position),
                        None => true,
                    }
                    &&& match observations@[k].expected {
                        Some(s) => in_window_point(s.position),
                        None => true,
                    }
                },
            best is Some <==> exists|k: int|
                0 <= k < i && (#[trigger] observations@[k]).mismatched(),
            match best {
                Some(lp) => {
                    &&& 1 <= lp.0 <= SCALE
                    &&& exists|k: int|
                        0 <= k < i && (#[trigger] observations@[k]).mismatched() && lp.1
                            == observations@[k].spec_position() && lp.0 == spec_compare_level(
                            position,
                            view_direction,
                            view_width,
                            observations@[k].current,
                            observations@[k].expected,
                        )
                    &&& forall|k: int|
                        0 <= k < i && (#[trigger] observations@[k]).mismatched()
                            ==> spec_compare_level(
                            position,
                            view_direction,
                            view_width,
                            observations@[k].current,
                            observations@[k].expected,
                        ) <= lp.0
                },
                None => true,
            },
        decreases observations@.len() - i,
    {
        let ob = observations[i];
        let this = compare_states(position, view_direction, view_width, ob.current, ob.expected);
        match this {
            Some(level) => {
                proof {
                    assert(observations@[i as int].mismatched());
                }
                let pos = match (ob.current, ob.expected) {
                    (Some(s), _) => s.position,
                    (None, Some(s)) => s.position,
                    (None, None) => position,
                };
                proof {
                    assert(pos == observations@[i as int].spec_position());
                }
                match best {
                    Some(lp) => {
                        if level > lp.0 {
                            best = Some((level, pos));
                        }
                    },
                    None => {
                        best = Some((level, pos));
                    },
                }
            },
            None => {},
        }
        i = i + 1;
    }
    best
}

/// The frame-window tolerance of the paradox check: the evaluator
/// looks at a few frames around the current one and believes the
/// most charitable of them, so off-by-one nondeterminism in entity
/// update order cannot raise false paradoxes.  The result is present
/// exactly when every frame of the (nonempty) window saw a mismatch,
/// and is then the entry with the smallest level.
pub fn windowed_paradox(levels: &Vec<Option<(i64, FixedPoint)>>) -> (r: Option<(i64, FixedPoint)>)
    ensures
        r is Some <==> (levels@.len() > 0 && forall|i: int|
            0 <= i < levels@.len() ==> (#[trigger] levels@[i]) is Some),
        match r {
            Some(lp) => {
                &&& exists|i: int| 0 <= i < levels@.len() && #[trigger] levels@[i] == Some(lp)
                &&& forall|i: int|
                    0 <= i < levels@.len() ==> match #[trigger] levels@[i] {
                        Some(other) => lp.0 <= other.0,
                        None => false,
                    }
            },
            None => true,
        },
{
    let mut best: Option<(i64, FixedPoint)> = None;
    let mut i: usize = 0;
    while i < levels.len()
        invariant
            i <= levels@.len(),
            best is Some <==> (i > 0 && forall|k: int|
                0 <= k < i ==> (#[trigger] levels@[k]) is Some),
            match best {
                Some(lp) => {
                    &&& exists|k: int| 0 <= k < i && #[trigger] levels@[k] == Some(lp)
                    &&& forall|k: int|
                        0 <= k < i ==> match #[trigger] levels@[k] {
                            Some(other) => lp.0 <= other.0,
                            None => false,
                        }
                },
                None => true,
            },
        decreases levels@.len() - i,
    {
        match levels[i] {
            Some(lp) => {
                if i == 0 {
                    best = Some(lp);
                } else {
                    match best {
                        Some(b) => {
                            if lp.0 < b.0 {
                                best = Some(lp);
                            }
                        },
                        None => {
                            // An earlier frame was clean; the window
                            // stays charitable.
                        },
                    }
                }
            },
            None => {
                best = None;
                // Once any frame is clean the verdict is clean, but
                // the scan must still visit the rest to keep the
                // invariant simple.
            },
        }
        i = i + 1;
    }
    best
}

/// The cell band an axis-aligned footprint covers (inclusive): floor
/// of its low edge through ceiling of its high edge, as the collision
/// sweep scans it.
pub open spec fn band_lo(center: int, half: int) -> int {
    (center - half) / (SCALE as int)
}

pub open spec fn band_hi(center: int, half: int) -> int {
    (center + half + SCALE - 1) / (SCALE as int)
}

/// No cell of the rectangle of cells blocks motion.
pub open spec fn footprint_clear(
    g: LightGrid,
    x_lo: int,
    x_hi: int,
    y_lo: int,
    y_hi: int,
) -> bool {
    forall|u: int, v: int|
        x_lo <= u <= x_hi && y_lo <= v <= y_hi ==> !(#[trigger] g.cell(u, v)).spec_blocks_motion()
}

/// Floor division of a fixed-point coordinate by `SCALE`.
fn floor_cell(p: i64) -> (r: i64)
    requires
        -FIXED_LIMIT <= p <= FIXED_LIMIT,
    ensures
        SCALE * r <= p < SCALE * (r + 1),
        -0x8000 <= r <= 0x8000,
{
    let shifted = (p + 4 * FIXED_LIMIT) as u64;
    proof {
        let s = shifted as int;
        vstd::arithmetic::div_mod::lemma_fundamental_div_mod(s, SCALE as int);
        vstd::arithmetic::div_mod::lemma_mod_bound(s, SCALE as int);
    }
    let q = shifted / (SCALE as u64);
    let r = (q as i64) - 0x1_0000;
    proof {
        assert(-0x8000 <= r <= 0x8000) by (nonlinear_arith)
            requires
                SCALE as int * (r as int) <= p < SCALE as int * (r as int + 1),
                -FIXED_LIMIT <= p <= FIXED_LIMIT,
                SCALE == 65536,
                FIXED_LIMIT == 0x4000_0000,
        ;
    }
    r
}

/// Ceiling division of a fixed-point coordinate by `SCALE`.
fn ceil_cell(p: i64) -> (r: i64)
    requires
        -FIXED_LIMIT <= p <= FIXED_LIMIT - SCALE,
    ensures
        SCALE * (r - 1) < p <= SCALE * r,
        -0x8000 <= r <= 0x8001,
{
    let q = floor_cell(p + (SCALE - 1));
    proof {
        assert(SCALE as int * (q as int - 1) < p <= SCALE as int * (q as int)) by (nonlinear_arith)
            requires
                SCALE as int * (q as int) <= p + SCALE - 1 < SCALE as int * (q as int + 1),
                SCALE == 65536,
        ;
    }
    q
}

/// A replayable player: live position and view, its recorded history,
/// and the accumulated confusion driving paradox death.
pub struct Player {
    pub position: FixedPoint,
    pub size: FixedVec,
    pub mouse_position: FixedPoint,
    pub view_direction: FixedVec,
    pub view_width: i64,
    pub state: PlayerState,
    pub history: History<PlayerHistoryEntry>,
    pub confusion: i64,
}

impl Player {
    pub open spec fn wf(self) -> bool {
        &&& self.history.wf()
        &&& 0 <= self.confusion <= SCALE
    }

    pub fn default() -> (r: Player)
        ensures
            r.wf(),
            r.state == PlayerState::Active,
            r.confusion == 0,
            r.position == (FixedPoint { x: 0, y: 0 }),
            r.mouse_position == (FixedPoint { x: 0, y: 0 }),
            r.size == (FixedVec { x: (6 * SCALE) as i64, y: (6 * SCALE) as i64 }),
            r.view_direction == (FixedVec { x: SCALE, y: 0 }),
            r.view_width == 2 * SCALE,
            forall|f: int| #[trigger] r.history.value_at(f) is None,
    {
        Player {
            position: FixedPoint { x: 0, y: 0 },
            size: FixedVec { x: 6 * SCALE, y: 6 * SCALE },
            mouse_position: FixedPoint { x: 0, y: 0 },
            view_direction: FixedVec { x: SCALE, y: 0 },
            view_width: 2 * SCALE,
            state: PlayerState::Active,
            history: History::default(),
            confusion: 0,
        }
    }

    pub fn get_history_entry(&self) -> (r: PlayerHistoryEntry)
        ensures
            r == (PlayerHistoryEntry {
                position: self.position,
                mouse_position: self.mouse_position,
            }),
    {
        PlayerHistoryEntry { position: self.position, mouse_position: self.mouse_position }
    }

    /// Point the view toward the mouse.  Directions in this engine
    /// are exact integer vectors, so no normalization is needed; the
    /// one degenerate case, a zero offset (looking at oneself), keeps
    /// the previous valid direction instead of producing one.
    pub fn update_view_direction(&mut self)
        requires
            old(self).wf(),
            -FIXED_LIMIT <= old(self).position.x <= FIXED_LIMIT,
            -FIXED_LIMIT <= old(self).position.y <= FIXED_LIMIT,
            -FIXED_LIMIT <= old(self).mouse_position.x <= FIXED_LIMIT,
            -FIXED_LIMIT <= old(self).mouse_position.y <= FIXED_LIMIT,
        ensures
            final(self).wf(),
            *final(self) == (Player { view_direction: final(self).view_direction, ..*old(self) }),
            old(self).mouse_position != old(self).position ==> final(self).view_direction == (
            FixedVec {
                x: (old(self).mouse_position.x - old(self).position.x) as i64,
                y: (old(self).mouse_position.y - old(self).position.y) as i64,
            }),
            old(self).mouse_position == old(self).position ==> final(self).view_direction == old(
                self,
            ).view_direction,
    {
        let off = FixedVec {
            x: self.mouse_position.x - self.position.x,
            y: self.mouse_position.y - self.position.y,
        };
        if !(off.x == 0 && off.y == 0) {
            self.view_direction = off;
        }
    }

    /// While active, commit this frame's pose to the history.
    pub fn record_frame(&mut self, frame: FrameIndex) -> (r: Option<()>)
        requires
            old(self).wf(),
            frame < usize::MAX,
        ensures
            final(self).wf(),
            final(self).position == old(self).position,
            final(self).mouse_position == old(self).mouse_position,
            final(self).view_direction == old(self).view_direction,
            final(self).view_width == old(self).view_width,
            final(self).size == old(self).size,
            final(self).state == old(self).state,
            final(self).confusion == old(self).confusion,
            r is Some <==> old(self).history.value_at(frame as int) is None,
            r is Some ==> forall|f: int|
                #[trigger] final(self).history.value_at(f) == (if f == frame as int {
                    Some(
                        PlayerHistoryEntry {
                            position: old(self).position,
                            mouse_position: old(self).mouse_position,
                        },
                    )
                } else {
                    old(self).history.value_at(f)
                }),
            r is None ==> final(self).history == old(self).history,
    {
        let entry = self.get_history_entry();
        self.history.try_insert(frame, entry)
    }

    /// While recording (replaying), restore this frame's recorded
    /// pose; reports whether the frame was found.
    pub fn replay_frame(&mut self, frame: FrameIndex) -> (r: bool)
        requires
            old(self).wf(),
        ensures
            final(self).wf(),
            final(self).history == old(self).history,
            final(self).view_direction == old(self).view_direction,
            final(self).view_width == old(self).view_width,
            final(self).size == old(self).size,
            final(self).state == old(self).state,
            final(self).confusion == old(self).confusion,
            r <==> old(self).history.value_at(frame as int) is Some,
            r ==> Some(
                PlayerHistoryEntry {
                    position: final(self).position,
                    mouse_position: final(self).mouse_position,
                },
            ) == old(self).history.value_at(frame as int),
            !r ==> final(self).position == old(self).position && final(self).mouse_position == old(
                self,
            ).mouse_position,
    {
        match self.history.get(frame) {
            Some(entry) => {
                self.position = entry.position;
                self.mouse_position = entry.mouse_position;
                true
            },
            None => false,
        }
    }

    /// Move along one axis with a swept collision test: the tentative
    /// position's footprint is scanned for blocking cells, and on a
    /// hit the position snaps back to the nearest blocking boundary,
    /// never moving backwards past where it started nor farther than
    /// asked.
    pub fn move_along_axis(&mut self, grid: &LightGrid, axis_x: bool, displacement: i64)
        requires
            old(self).wf(),
            grid.wf(),
            -FIXED_LIMIT / 2 <= old(self).position.x <= FIXED_LIMIT / 2,
            -FIXED_LIMIT / 2 <= old(self).position.y <= FIXED_LIMIT / 2,
            -64 * SCALE <= displacement <= 64 * SCALE,
            0 < old(self).size.x <= 64 * SCALE,
            0 < old(self).size.y <= 64 * SCALE,
        ensures
            final(self).wf(),
            final(self).history == old(self).history,
            final(self).state == old(self).state,
            final(self).confusion == old(self).confusion,
            final(self).size == old(self).size,
            final(self).mouse_position == old(self).mouse_position,
            final(self).view_direction == old(self).view_direction,
            final(self).view_width == old(self).view_width,
            axis_x ==> final(self).position.y == old(self).position.y,
            !axis_x ==> final(self).position.x == old(self).position.x,
            ({
                let o = if axis_x {
                    old(self).position.x as int
                } else {
                    old(self).position.y as int
                };
                let f = if axis_x {
                    final(self).position.x as int
                } else {
                    final(self).position.y as int
                };
                displacement >= 0 ==> o <= f <= o + displacement
            }),
            ({
                let o = if axis_x {
                    old(self).position.x as int
                } else {
                    old(self).position.y as int
                };
                let f = if axis_x {
                    final(self).position.x as int
                } else {
                    final(self).position.y as int
                };
                displacement < 0 ==> o + displacement <= f <= o
            }),
            // A clear destination footprint takes the whole move.
            ({
                let tx = if axis_x {
                    old(self).position.x + displacement
                } else {
                    old(self).position.x as int
                };
                let ty = if axis_x {
                    old(self).position.y as int
                } else {
                    old(self).position.y + displacement
                };
                footprint_clear(
                    *grid,
                    band_lo(tx, old(self).size.x / 2),
                    band_hi(tx, old(self).size.x / 2),
                    band_lo(ty, old(self).size.y / 2),
                    band_hi(ty, old(self).size.y / 2),
                ) ==> final(self).position == (FixedPoint { x: tx as i64, y: ty as i64 })
            }),
            // A blocked move either stops flush against the nearest
            // blocking cell boundary or, when even that would overshoot
            // or reverse, stays where it started.
            ({
                let o = if axis_x {
                    old(self).position.x as int
                } else {
                    old(self).position.y as int
                };
                let f = if axis_x {
                    final(self).position.x as int
                } else {
                    final(self).position.y as int
                };
                let half = if axis_x {
                    old(self).size.x / 2
                } else {
                    old(self).size.y / 2
                };
                displacement != 0 && f != o + displacement ==> (f == o || (exists|u: int, v: int|
                    {
                        &&& (#[trigger] grid.cell(u, v)).spec_blocks_motion()
                        &&& (displacement > 0 ==> f == (if axis_x {
                            u
                        } else {
                            v
                        }) * SCALE - half)
                        &&& (displacement < 0 ==> f == ((if axis_x {
                            u
                        } else {
                            v
                        }) + 1) * SCALE + half)
                    }))
            }),
    {
        if displacement == 0 {
            return ;
        }
        let oldc = if axis_x {
            self.position.x
        } else {
            self.position.y
        };
        let target = oldc + displacement;
        if axis_x {
            self.position.x = target;
        } else {
            self.position.y = target;
        }
        let half_x = self.size.x / 2;
        let half_y = self.size.y / 2;
        let lx = floor_cell(self.position.x - half_x);
        let hx = ceil_cell(self.position.x + half_x);
        let ly = floor_cell(self.position.y - half_y);
        let hy = ceil_cell(self.position.y + half_y);
        proof {
            assert(lx as int == band_lo(self.position.x as int, half_x as int) && hx as int
                == band_hi(self.position.x as int, half_x as int) && ly as int == band_lo(
                self.position.y as int,
                half_y as int,
            ) && hy as int == band_hi(self.position.y as int, half_y as int)) by (nonlinear_arith)
                requires
                    SCALE as int * (lx as int) <= self.position.x - half_x < SCALE as int * (
                    lx as int + 1),
                    SCALE as int * (hx as int - 1) < self.position.x + half_x <= SCALE as int * (
                    hx as int),
                    SCALE as int * (ly as int) <= self.position.y - half_y < SCALE as int * (
                    ly as int + 1),
                    SCALE as int * (hy as int - 1) < self.position.y + half_y <= SCALE as int * (
                    hy as int),
                    band_lo(self.position.x as int, half_x as int) == (self.position.x - half_x) / (
                    SCALE as int),
                    band_hi(self.position.x as int, half_x as int) == (self.position.x + half_x
                        + SCALE - 1) / (SCALE as int),
                    band_lo(self.position.y as int, half_y as int) == (self.position.y - half_y) / (
                    SCALE as int),
                    band_hi(self.position.y as int, half_y as int) == (self.position.y + half_y
                        + SCALE - 1) / (SCALE as int),
                    SCALE == 65536,
            ;
        }
        let ghost gclear = footprint_clear(*grid, lx as int, hx as int, ly as int, hy as int);
        let mut collision: Option<i64> = None;
        let mut cx = lx;
        while cx <= hx
            invariant
                grid.wf(),
                lx <= cx <= hx + 1,
                ly <= hy + 1,
                -0x8000 <= ly && hy <= 0x8001,
                -0x8000 <= lx && hx <= 0x8001,
                gclear == footprint_clear(*grid, lx as int, hx as int, ly as int, hy as int),
                gclear ==> collision is None,
                match collision {
                    Some(c) => {
                        &&& (if axis_x {
                            lx <= c <= hx
                        } else {
                            ly <= c <= hy
                        })
                        &&& exists|u: int, v: int|
                            {
                                &&& (#[trigger] grid.cell(u, v)).spec_blocks_motion()
                                &&& lx <= u <= hx
                                &&& ly <= v <= hy
                                &&& (if axis_x {
                                    u == c
                                } else {
                                    v == c
                                })
                            }
                    },
                    None => true,
                },
            decreases hx + 1 - cx,
        {
            let mut cy = ly;
            while cy <= hy
                invariant
                    grid.wf(),
                    lx <= cx <= hx,
                    ly <= cy <= hy + 1,
                    -0x8000 <= ly && hy <= 0x8001,
                    -0x8000 <= lx && hx <= 0x8001,
                    gclear == footprint_clear(*grid, lx as int, hx as int, ly as int, hy as int),
                    gclear ==> collision is None,
                    match collision {
                        Some(c) => {
                            &&& (if axis_x {
                                lx <= c <= hx
                            } else {
                                ly <= c <= hy
                            })
                            &&& exists|u: int, v: int|
                                {
                                    &&& (#[trigger] grid.cell(u, v)).spec_blocks_motion()
                                    &&& lx <= u <= hx
                                    &&& ly <= v <= hy
                                    &&& (if axis_x {
                                        u == c
                                    } else {
                                        v == c
                                    })
                                }
                        },
                        None => true,
                    },
                decreases hy + 1 - cy,
            {
                if grid.get(crate::grid::TileIndex { x: cx, y: cy }).blocks_motion() {
                    proof {
                        assert(grid.cell(cx as int, cy as int).spec_blocks_motion());
                        assert(!gclear);
                    }
                    let a = if axis_x {
                        cx
                    } else {
                        cy
                    };
                    match collision {
                        Some(c) => {
                            if (c < a) != (displacement > 0) {
                                collision = Some(a);
                            }
                        },
                        None => {
                            collision = Some(a);
                        },
                    }
                }
                cy = cy + 1;
            }
            cx = cx + 1;
        }
        match collision {
            Some(c) => {
                let c = if displacement < 0 {
                    c + 1
                } else {
                    c
                };
                let half = if axis_x {
                    half_x
                } else {
                    half_y
                };
                let snapped = c * SCALE - (if displacement > 0 {
                    half
                } else {
                    -half
                });
                let overshoot = if snapped >= oldc {
                    snapped - oldc > (if displacement > 0 {
                        displacement
                    } else {
                        -displacement
                    })
                } else {
                    oldc - snapped > (if displacement > 0 {
                        displacement
                    } else {
                        -displacement
                    })
                };
                let wrong_way = (snapped < oldc) != (displacement < 0);
                let fin = if wrong_way || overshoot {
                    oldc
                } else {
                    snapped
                };
                if axis_x {
                    self.position.x = fin;
                } else {
                    self.position.y = fin;
                }
            },
            None => {},
        }
    }

    /// Apply one replay frame's paradox verdict to the confusion
    /// meter.  A mismatch (`Some` level) always raises confusion by a
    /// positive amount scaled by the level; a clean frame decays it by
    /// exactly one frame's recovery.  Confusion past full kills.
    pub fn apply_paradox(&mut self, level: Option<i64>)
        requires
            old(self).wf(),
            old(self).state == PlayerState::Recording,
            match level {
                Some(l) => 1 <= l <= SCALE,
                None => true,
            },
        ensures
            final(self).wf(),
            final(self).history == old(self).history,
            final(self).position == old(self).position,
            final(self).mouse_position == old(self).mouse_position,
            final(self).view_direction == old(self).view_direction,
            final(self).view_width == old(self).view_width,
            final(self).size == old(self).size,
            match level {
                Some(l) => {
                    let inc = (l * UPDATE_DT * 10 + SCALE - 1) / (SCALE as int);
                    &&& inc >= 1
                    &&& final(self).confusion == (if old(self).confusion + inc > SCALE {
                        SCALE as int
                    } else {
                        old(self).confusion + inc
                    })
                    &&& final(self).confusion > old(self).confusion || old(self).confusion == SCALE
                    &&& final(self).state == (if old(self).confusion + inc > SCALE {
                        PlayerState::Dead
                    } else {
                        PlayerState::Recording
                    })
                },
                None => true,
            },
            level is None ==> {
                &&& final(self).confusion == (if old(self).confusion - CONFUSION_DECAY < 0 {
                    0int
                } else {
                    old(self).confusion - CONFUSION_DECAY
                })
                &&& final(self).confusion <= old(self).confusion
                &&& final(self).state == PlayerState::Recording
            },
    {
        match level {
            Some(l) => {
                // confusion += (level / CONFUSION_TIME) * dt, rounded
                // up so even the faintest paradox registers.
                let inc_wide = ((l as i128) * (UPDATE_DT as i128) * 10 + (SCALE as i128) - 1) / (
                SCALE as i128);
                let inc = inc_wide as i64;
                proof {
                    assert((l as int * UPDATE_DT * 10 + SCALE - 1) / (SCALE as int) >= 1
                        && (l as int * UPDATE_DT * 10 + SCALE - 1) / (SCALE as int) <= 11 * SCALE)
                        by (nonlinear_arith)
                        requires
                            1 <= l <= SCALE,
                            UPDATE_DT == 1092,
                            SCALE == 65536,
                    ;
                }
                if self.confusion + inc > SCALE {
                    self.confusion = SCALE;
                    self.state = PlayerState::Dead;
                } else {
                    self.confusion = self.confusion + inc;
                }
            },
            None => {
                if self.confusion - CONFUSION_DECAY < 0 {
                    self.confusion = 0;
                } else {
                    self.confusion = self.confusion - CONFUSION_DECAY;
                }
            },
        }
    }
}

} // verus!
