//! Raycaster behavior: edge-aligned exactness and the distance cap.

use hindsight::corner::{Pixel, RayCollisionNormal, WallDirection};
use hindsight::geometry::{FixedPoint, FixedVec, SCALE};
use hindsight::grid::{TileGrid, TileIndex};
use hindsight::raycast::raycast;

fn open_box(g: &mut TileGrid<Pixel>, x0: i64, y0: i64, x1: i64, y1: i64) {
    for x in x0..x1 {
        for y in y0..y1 {
            g.set(TileIndex { x, y }, Pixel::Air);
        }
    }
}

/// Brute-force scan along a vertical grid line: first row at which
/// both straddled columns have shown a blocked cell.
fn brute_force_edge_hit(
    g: &TileGrid<Pixel>,
    cx: i64,
    cy: i64,
    sy: i64,
    max_steps: i64,
) -> Option<i64> {
    let mut seen_a = false;
    let mut seen_b = false;
    for k in 1..=max_steps {
        let row = cy + k * sy;
        if g.get(TileIndex { x: cx - 1, y: row }).blocks_light() {
            seen_a = true;
        }
        if g.get(TileIndex { x: cx, y: row }).blocks_light() {
            seen_b = true;
        }
        if seen_a && seen_b {
            return Some(k);
        }
    }
    None
}

#[test]
fn edge_aligned_ray_matches_brute_force() {
    let mut g = TileGrid::<Pixel>::default();
    open_box(&mut g, -2, -2, 22, 22);
    // Occluders on both sides of the vertical line x = 4, at
    // different rows: the sticky rule collides at the later row.
    g.set(TileIndex { x: 3, y: 5 }, Pixel::Solid);
    g.set(TileIndex { x: 4, y: 9 }, Pixel::Solid);
    let start = FixedPoint { x: 4 * SCALE, y: 2 * SCALE };
    let dir = FixedVec { x: 0, y: 1 };
    let (hit, normal) = raycast(&g, start, dir, 18 * SCALE);
    let expect_k = brute_force_edge_hit(&g, 4, 2, 1, 18).unwrap();
    assert_eq!(hit, FixedPoint { x: 4 * SCALE, y: (2 + expect_k) * SCALE });
    assert_eq!(hit.y, 9 * SCALE);
    assert_eq!(normal, Some(RayCollisionNormal::Wall(WallDirection::North)));
}

#[test]
fn edge_aligned_ray_without_blockers_caps() {
    let mut g = TileGrid::<Pixel>::default();
    open_box(&mut g, -2, -2, 22, 22);
    // Only one side ever blocked: no collision.
    g.set(TileIndex { x: 3, y: 5 }, Pixel::Solid);
    let start = FixedPoint { x: 4 * SCALE, y: 2 * SCALE };
    let dir = FixedVec { x: 0, y: 1 };
    let d = 10 * SCALE;
    let (hit, normal) = raycast(&g, start, dir, d);
    assert_eq!(normal, None);
    assert_eq!(hit, FixedPoint { x: 4 * SCALE, y: 2 * SCALE + d });
    assert!(brute_force_edge_hit(&g, 4, 2, 1, 10).is_none());
}

#[test]
fn distance_cap_is_exact_on_unit_axis_ray() {
    let mut g = TileGrid::<Pixel>::default();
    open_box(&mut g, -16, -16, 32, 32);
    // A ray into open space stops at exactly the requested Euclidean
    // distance, with no collision.
    let start = FixedPoint { x: 5 * SCALE + 1234, y: 5 * SCALE + 777 };
    let d = 8 * SCALE;
    let (hit, normal) = raycast(&g, start, FixedVec { x: 1, y: 0 }, d);
    assert_eq!(normal, None);
    assert_eq!(hit, FixedPoint { x: start.x + d, y: start.y });
    let dx = (hit.x - start.x) as f64;
    let dy = (hit.y - start.y) as f64;
    assert_eq!((dx * dx + dy * dy).sqrt(), d as f64);
}

#[test]
fn diagonal_ray_caps_in_open_space() {
    let mut g = TileGrid::<Pixel>::default();
    open_box(&mut g, -16, -16, 32, 32);
    let start = FixedPoint { x: 5 * SCALE + 1000, y: 5 * SCALE + 100 };
    let d = 6 * SCALE;
    let (hit, normal) = raycast(&g, start, FixedVec { x: 3, y: 4 }, d);
    assert_eq!(normal, None);
    // Direction (3, 4) has integer length 5: the endpoint is exact.
    assert_eq!(hit, FixedPoint { x: start.x + 3 * d / 5, y: start.y + 4 * d / 5 });
}

#[test]
fn general_ray_hits_wall_face() {
    let mut g = TileGrid::<Pixel>::default();
    open_box(&mut g, -4, -4, 20, 20);
    g.set(TileIndex { x: 9, y: 5 }, Pixel::Solid);
    // From the middle of cell (5, 5) straight toward +x (off the grid
    // line): the ray enters cell (9, 5) through its west face.
    let start = FixedPoint { x: 5 * SCALE + SCALE / 2, y: 5 * SCALE + SCALE / 2 };
    let (hit, normal) = raycast(&g, start, FixedVec { x: 1, y: 0 }, 100 * SCALE);
    assert_eq!(normal, Some(RayCollisionNormal::Wall(WallDirection::West)));
    assert_eq!(hit.x, 9 * SCALE);
    assert_eq!(hit.y, start.y);
}

#[test]
fn ray_starting_inside_solid_stops_immediately() {
    let g = TileGrid::<Pixel>::default();
    // The default grid is all solid.
    let start = FixedPoint { x: SCALE / 2, y: SCALE / 2 };
    let (hit, normal) = raycast(&g, start, FixedVec { x: 1, y: 1 }, 10 * SCALE);
    assert_eq!(hit, start);
    assert_eq!(normal, None);
}

#[test]
fn corner_crossing_checkerboard_blocks() {
    let mut g = TileGrid::<Pixel>::default();
    open_box(&mut g, -4, -4, 20, 20);
    // A checkerboard pair sharing the lattice corner (6, 6): the
    // diagonal ray through that corner cannot pass.
    g.set(TileIndex { x: 6, y: 5 }, Pixel::Solid);
    g.set(TileIndex { x: 5, y: 6 }, Pixel::Solid);
    let start = FixedPoint { x: 5 * SCALE + SCALE / 2, y: 5 * SCALE + SCALE / 2 };
    let (hit, normal) = raycast(&g, start, FixedVec { x: 1, y: 1 }, 100 * SCALE);
    assert_eq!(hit, FixedPoint { x: 6 * SCALE, y: 6 * SCALE });
    assert!(matches!(normal, Some(RayCollisionNormal::Corner(_, _))));
}
