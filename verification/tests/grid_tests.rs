//! Occluder grid storage: auto-expansion and content preservation.

use hindsight::corner::Pixel;
use hindsight::grid::{Extent, TileGrid, TileIndex, TileRect};

#[test]
fn out_of_bounds_reads_empty() {
    let g = TileGrid::<Pixel>::default();
    // The empty value for light cells is solid: the world is dark
    // beyond the level.
    assert_eq!(g.get(TileIndex { x: 0, y: 0 }), Pixel::Solid);
    assert_eq!(g.get(TileIndex { x: -100, y: 3 }), Pixel::Solid);
}

#[test]
fn option_cells_read_none_outside() {
    let mut g = TileGrid::<Option<u8>>::default();
    g.set(TileIndex { x: 2, y: 2 }, Some(7));
    assert_eq!(g.get(TileIndex { x: 2, y: 2 }), Some(7));
    assert_eq!(g.get(TileIndex { x: 50, y: 50 }), None);
}

#[test]
fn expansion_covers_written_point_and_is_idempotent() {
    let mut g = TileGrid::<Pixel>::default();
    g.set(TileIndex { x: 40, y: -7 }, Pixel::Air);
    let bounds = g.bounds();
    assert!(bounds.contains_point(TileIndex { x: 40, y: -7 }));
    // Writing the same far-away index again does not reallocate: the
    // bounds do not move.
    g.set(TileIndex { x: 40, y: -7 }, Pixel::Solid);
    assert_eq!(g.bounds(), bounds);
    // Nor does an explicit expansion request for a covered index.
    let grew = g.expand_to_fit_index(TileIndex { x: 40, y: -7 });
    assert!(!grew);
    assert_eq!(g.bounds(), bounds);
}

#[test]
fn growth_is_monotonic() {
    let mut g = TileGrid::<Pixel>::default();
    g.set(TileIndex { x: 0, y: 0 }, Pixel::Air);
    let b1 = g.bounds();
    g.set(TileIndex { x: 9, y: 9 }, Pixel::Air);
    let b2 = g.bounds();
    assert!(b2.contains(&b1));
    assert!(b2.contains_point(TileIndex { x: 9, y: 9 }));
}

#[test]
fn content_preserved_across_implicit_growth() {
    let mut g = TileGrid::<Pixel>::default();
    let writes = [(0i64, 0i64), (3, 1), (-2, 5), (7, -4), (20, 20)];
    for (i, &(x, y)) in writes.iter().enumerate() {
        let p = if i % 2 == 0 { Pixel::Air } else { Pixel::Solid };
        g.set(TileIndex { x, y }, p);
        for (j, &(px, py)) in writes.iter().enumerate() {
            if j <= i {
                let expect = if j % 2 == 0 { Pixel::Air } else { Pixel::Solid };
                assert_eq!(g.get(TileIndex { x: px, y: py }), expect);
            }
        }
    }
}

#[test]
fn content_preserved_across_explicit_resize() {
    let mut g = TileGrid::<Pixel>::default();
    for x in 0..6i64 {
        for y in 0..6i64 {
            let p = if (x + y) % 2 == 0 { Pixel::Air } else { Pixel::Solid };
            g.set(TileIndex { x, y }, p);
        }
    }
    // Resize to a larger rectangle shifted off the origin.
    g.set_bounds(TileRect {
        origin: TileIndex { x: -4, y: -4 },
        size: Extent { x: 16, y: 16 },
    });
    for x in 0..6i64 {
        for y in 0..6i64 {
            let expect = if (x + y) % 2 == 0 { Pixel::Air } else { Pixel::Solid };
            assert_eq!(g.get(TileIndex { x, y }), expect);
        }
    }
    // Shrink so only part survives; the kept part must be intact.
    g.set_bounds(TileRect {
        origin: TileIndex { x: 2, y: 2 },
        size: Extent { x: 2, y: 2 },
    });
    for x in 2..4i64 {
        for y in 2..4i64 {
            let expect = if (x + y) % 2 == 0 { Pixel::Air } else { Pixel::Solid };
            assert_eq!(g.get(TileIndex { x, y }), expect);
        }
    }
    // Cells dropped by the shrink read as empty (solid) again.
    assert_eq!(g.get(TileIndex { x: 0, y: 0 }), Pixel::Solid);
}

#[test]
fn rect_queries() {
    let r = TileRect { origin: TileIndex { x: -2, y: 3 }, size: Extent { x: 4, y: 2 } };
    assert_eq!(r.left(), -2);
    assert_eq!(r.right(), 1);
    assert_eq!(r.top(), 3);
    assert_eq!(r.bottom(), 4);
    assert_eq!(r.area(), 8);
    assert!(!r.is_empty());
    assert!(r.contains_point(TileIndex { x: 1, y: 4 }));
    assert!(!r.contains_point(TileIndex { x: 2, y: 4 }));
    let s = TileRect { origin: TileIndex { x: -1, y: 3 }, size: Extent { x: 2, y: 1 } };
    assert!(r.contains(&s));
    assert!(r.intersects(&s));
}
