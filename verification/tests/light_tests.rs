//! Corner extraction and visibility tracing.

use hindsight::area::{AngleRange, StoredRay};
use hindsight::corner::{Corner, CornerDirection, Pixel, RayCollisionNormal};
use hindsight::geometry::{FixedPoint, FixedVec, SCALE};
use hindsight::grid::TileIndex;
use hindsight::light::LightGrid;

fn open_box(g: &mut LightGrid, x0: i64, y0: i64, x1: i64, y1: i64) {
    for x in x0..x1 {
        for y in y0..y1 {
            g.set(TileIndex { x, y }, Pixel::Air);
        }
    }
}

fn has_corner(corners: &[Corner], x: i64, y: i64, dir: CornerDirection) -> bool {
    corners
        .iter()
        .any(|c| c.location == TileIndex { x, y } && c.direction == dir)
}

#[test]
fn single_cell_yields_four_convex_corners() {
    let mut g = LightGrid::default();
    open_box(&mut g, -5, -5, 10, 10);
    g.set(TileIndex { x: 3, y: 0 }, Pixel::Solid);
    let corners = g.corners().clone();
    assert!(has_corner(&corners, 3, 0, CornerDirection::ConvexNorthWest));
    assert!(has_corner(&corners, 4, 0, CornerDirection::ConvexNorthEast));
    assert!(has_corner(&corners, 3, 1, CornerDirection::ConvexSouthWest));
    assert!(has_corner(&corners, 4, 1, CornerDirection::ConvexSouthEast));
}

#[test]
fn checkerboard_vertex_yields_two_concave_corners() {
    let mut g = LightGrid::default();
    open_box(&mut g, -5, -5, 10, 10);
    g.set(TileIndex { x: 2, y: 2 }, Pixel::Solid);
    g.set(TileIndex { x: 3, y: 3 }, Pixel::Solid);
    let corners = g.corners().clone();
    // The shared vertex (3, 3) carries both concave readings.
    assert!(has_corner(&corners, 3, 3, CornerDirection::ConcaveNorthEast));
    assert!(has_corner(&corners, 3, 3, CornerDirection::ConcaveSouthWest));
}

#[test]
fn from_neighborhood_table() {
    // All alike or two adjacent: nothing.
    assert!(CornerDirection::from_neighborhood(false, false, false, false).is_empty());
    assert!(CornerDirection::from_neighborhood(true, true, true, true).is_empty());
    assert!(CornerDirection::from_neighborhood(true, true, false, false).is_empty());
    assert!(CornerDirection::from_neighborhood(true, false, true, false).is_empty());
    // One blocking: one convex corner.
    assert_eq!(
        CornerDirection::from_neighborhood(true, false, false, false),
        vec![CornerDirection::ConvexSouthEast]
    );
    // Three blocking: one concave corner.
    assert_eq!(
        CornerDirection::from_neighborhood(true, false, true, true),
        vec![CornerDirection::ConcaveNorthEast]
    );
    // Diagonal pair: both concave readings.
    assert_eq!(
        CornerDirection::from_neighborhood(true, false, false, true),
        vec![CornerDirection::ConcaveNorthEast, CornerDirection::ConcaveSouthWest]
    );
}

/// Runtime check of the exact counter-clockwise order the fan
/// promises: hemisphere relative to the reference first, then the
/// perpendicular product.
fn is_ccw_sorted(reference: FixedVec, rays: &[hindsight::area::StoredRay]) -> bool {
    let half = |u: FixedVec| -> bool {
        let perp = reference.x as i128 * u.y as i128 - reference.y as i128 * u.x as i128;
        let dot = reference.x as i128 * u.x as i128 + reference.y as i128 * u.y as i128;
        perp > 0 || (perp == 0 && dot > 0)
    };
    rays.windows(2).all(|w| {
        let (u, v) = (w[0].offset, w[1].offset);
        if half(u) != half(v) {
            half(u)
        } else {
            u.x as i128 * v.y as i128 - u.y as i128 * v.x as i128 >= 0
        }
    })
}

#[test]
fn full_circle_trace_has_sentinel_fan() {
    let mut g = LightGrid::default();
    open_box(&mut g, -12, -12, 12, 12);
    let origin = FixedPoint { x: SCALE / 2, y: SCALE / 2 };
    let area = g.trace_light_from(origin, None);
    assert_eq!(area.origin, origin);
    assert_eq!(area.range, None);
    // At least the four sentinel rays survive, in sorted order from
    // the first seeded ray's direction.
    assert!(area.rays.len() >= 4);
    assert!(is_ccw_sorted(area.rays[0].offset, &area.rays));
}

#[test]
fn cone_trace_is_bounded_by_edge_rays() {
    let mut g = LightGrid::default();
    open_box(&mut g, -12, -12, 12, 12);
    let origin = FixedPoint { x: SCALE / 2, y: SCALE / 2 };
    let range = AngleRange {
        left: FixedVec { x: SCALE, y: -SCALE },
        right: FixedVec { x: SCALE, y: SCALE },
    };
    let area = g.trace_light_from(origin, Some(range));
    assert_eq!(area.range, Some(range));
    assert!(area.rays.len() >= 2);
    // The fan starts along the left bound and ends along the right
    // bound: collinear, pointing forward.
    let first = area.rays.first().unwrap().offset;
    let last = area.rays.last().unwrap().offset;
    let cross_first = range.left.x as i128 * first.y as i128 - range.left.y as i128 * first.x as i128;
    let dot_first = range.left.x as i128 * first.x as i128 + range.left.y as i128 * first.y as i128;
    assert_eq!(cross_first, 0);
    assert!(dot_first > 0);
    let cross_last = range.right.x as i128 * last.y as i128 - range.right.y as i128 * last.x as i128;
    let dot_last = range.right.x as i128 * last.x as i128 + range.right.y as i128 * last.y as i128;
    assert_eq!(cross_last, 0);
    assert!(dot_last > 0);
    assert!(is_ccw_sorted(range.left, &area.rays));
}

#[test]
fn single_occluder_notch_hits_its_corners() {
    let mut g = LightGrid::default();
    open_box(&mut g, -12, -12, 12, 12);
    g.set(TileIndex { x: 3, y: 0 }, Pixel::Solid);
    let origin = FixedPoint { x: SCALE / 2, y: SCALE / 2 };
    let area = g.trace_light_from(origin, None);
    // The two near corners of the occluder appear as exact ray
    // endpoints, marked as direct corner hits, one per side.
    let near_top = FixedVec { x: 3 * SCALE - SCALE / 2, y: -SCALE / 2 };
    let near_bottom = FixedVec { x: 3 * SCALE - SCALE / 2, y: SCALE / 2 };
    let find = |off: FixedVec| -> Option<StoredRay> {
        area.rays.iter().copied().find(|r| r.offset == off)
    };
    let top = find(near_top).expect("top corner ray present");
    let bottom = find(near_bottom).expect("bottom corner ray present");
    assert_eq!(
        top.collision,
        Some(RayCollisionNormal::Corner(CornerDirection::ConvexNorthWest, true))
    );
    assert_eq!(
        bottom.collision,
        Some(RayCollisionNormal::Corner(CornerDirection::ConvexSouthWest, true))
    );
    // The notch is symmetric about the horizontal through the origin.
    let mirrored = |off: FixedVec| FixedVec { x: off.x, y: -off.y };
    assert!(find(mirrored(near_top)).is_some());
    assert!(find(mirrored(near_bottom)).is_some());
    assert!(is_ccw_sorted(area.rays[0].offset, &area.rays));
}

#[test]
fn contains_path_sees_through_air_not_walls() {
    let mut g = LightGrid::default();
    open_box(&mut g, -8, -8, 12, 12);
    let a = FixedPoint { x: SCALE / 2, y: SCALE / 2 };
    let b = FixedPoint { x: 6 * SCALE + SCALE / 2, y: SCALE / 2 };
    assert!(g.contains_path(a, b));
    g.set(TileIndex { x: 3, y: 0 }, Pixel::Solid);
    assert!(!g.contains_path(a, b));
}

#[test]
fn fill_tile_paints_a_square() {
    let mut g = LightGrid::default();
    open_box(&mut g, 0, 0, 10, 10);
    g.fill_tile(TileIndex { x: 2, y: 2 }, 3, Pixel::Solid);
    for x in 2..5 {
        for y in 2..5 {
            assert_eq!(g.get(TileIndex { x, y }), Pixel::Solid);
        }
    }
    assert_eq!(g.get(TileIndex { x: 1, y: 2 }), Pixel::Air);
    assert_eq!(g.get(TileIndex { x: 5, y: 5 }), Pixel::Air);
}

#[test]
fn trace_from_inside_solid_still_yields_a_fan() {
    // Even the fully degenerate trace (origin buried in solid rock,
    // every ray stopped at its start) returns a nonempty fan.
    let mut g = LightGrid::default();
    let origin = FixedPoint { x: SCALE / 2, y: SCALE / 2 };
    let area = g.trace_light_from(origin, None);
    assert_eq!(area.origin, origin);
    assert!(!area.rays.is_empty());
}
