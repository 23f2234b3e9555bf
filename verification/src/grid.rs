//! Auto-expanding occluder grid storage.
//!
//! A `TileGrid` is a dense rectangular array addressed by world cell
//! coordinates.  Reads outside the current bounds yield the cell
//! type's empty value; writes grow the backing rectangle (by at least
//! half the current size on the axis that grows, to amortize repeated
//! small expansions) so the written index becomes valid.

use vstd::prelude::*;

verus! {

/// All grid rectangles live inside the coordinate window
/// `[-COORD_LIMIT, COORD_LIMIT]`; expansion heuristics clamp here, and
/// the window keeps every area computation inside `usize` range.
pub const COORD_LIMIT: i64 = 16384;

/// A 2D integer cell index in world coordinates.
#[derive(Clone, Copy, PartialEq, Eq, Structural, Debug)]
pub struct TileIndex {
    pub x: i64,
    pub y: i64,
}

/// A 2D extent (rectangle size) in cells.
#[derive(Clone, Copy, PartialEq, Eq, Structural, Debug)]
pub struct Extent {
    pub x: usize,
    pub y: usize,
}

/// Cell types with a designated empty value: what any out-of-bounds
/// read returns, and what newly allocated cells hold.
pub trait Empty: Sized {
    spec fn spec_empty() -> Self;

    fn empty() -> (r: Self)
        ensures
            r == Self::spec_empty(),
    ;
}

impl<T> Empty for Option<T> {
    open spec fn spec_empty() -> Option<T> {
        None
    }

    fn empty() -> (r: Option<T>) {
        None
    }
}

/// An axis-aligned rectangle of whole cells: an origin corner plus a
/// size.  `size.x == 0 || size.y == 0` means the empty rectangle.
#[derive(Clone, Copy, PartialEq, Eq, Structural, Debug)]
pub struct TileRect {
    pub origin: TileIndex,
    pub size: Extent,
}

impl TileRect {
    pub open spec fn wf(self) -> bool {
        &&& -COORD_LIMIT <= self.origin.x
        &&& -COORD_LIMIT <= self.origin.y
        &&& self.origin.x + self.size.x <= COORD_LIMIT
        &&& self.origin.y + self.size.y <= COORD_LIMIT
    }

    pub open spec fn spec_contains(self, x: int, y: int) -> bool {
        &&& self.origin.x <= x < self.origin.x + self.size.x
        &&& self.origin.y <= y < self.origin.y + self.size.y
    }

    pub open spec fn spec_is_empty(self) -> bool {
        self.size.x == 0 || self.size.y == 0
    }

    pub open spec fn spec_contains_rect(self, other: TileRect) -> bool {
        forall|x: int, y: int| other.spec_contains(x, y) ==> self.spec_contains(x, y)
    }

    pub fn default() -> (r: TileRect)
        ensures
            r == (TileRect { origin: TileIndex { x: 0, y: 0 }, size: Extent { x: 0, y: 0 } }),
    {
        TileRect { origin: TileIndex { x: 0, y: 0 }, size: Extent { x: 0, y: 0 } }
    }

    pub fn min_corner(&self) -> (r: TileIndex)
        ensures
            r == self.origin,
    {
        self.origin
    }

    /// The corner one past the rectangle on both axes.
    pub fn max_corner(&self) -> (r: TileIndex)
        requires
            self.wf(),
        ensures
            r.x == self.origin.x + self.size.x,
            r.y == self.origin.y + self.size.y,
    {
        TileIndex { x: self.origin.x + self.size.x as i64, y: self.origin.y + self.size.y as i64 }
    }

    pub fn left(&self) -> (r: i64)
        ensures
            r == self.origin.x,
    {
        self.origin.x
    }

    /// The last column inside the rectangle (one less than `left` when
    /// the rectangle is empty).
    pub fn right(&self) -> (r: i64)
        requires
            self.wf(),
        ensures
            r == self.origin.x + self.size.x - 1,
    {
        self.origin.x + self.size.x as i64 - 1
    }

    pub fn top(&self) -> (r: i64)
        ensures
            r == self.origin.y,
    {
        self.origin.y
    }

    pub fn bottom(&self) -> (r: i64)
        requires
            self.wf(),
        ensures
            r == self.origin.y + self.size.y - 1,
    {
        self.origin.y + self.size.y as i64 - 1
    }

    pub fn area(&self) -> (r: usize)
        requires
            self.wf(),
        ensures
            r == self.size.x * self.size.y,
    {
        proof {
            assert(self.size.x * self.size.y <= (2 * COORD_LIMIT) * (2 * COORD_LIMIT))
                by (nonlinear_arith)
                requires
                    0 <= self.size.x <= 2 * COORD_LIMIT,
                    0 <= self.size.y <= 2 * COORD_LIMIT,
            ;
        }
        self.size.x * self.size.y
    }

    pub fn is_empty(&self) -> (r: bool)
        ensures
            r == self.spec_is_empty(),
    {
        self.size.x == 0 || self.size.y == 0
    }

    pub fn contains_point(&self, point: TileIndex) -> (r: bool)
        requires
            self.wf(),
        ensures
            r == self.spec_contains(point.x as int, point.y as int),
    {
        self.left() <= point.x && self.right() >= point.x && self.top() <= point.y && self.bottom()
            >= point.y
    }

    pub fn contains(&self, rhs: &TileRect) -> (r: bool)
        requires
            self.wf(),
            rhs.wf(),
        ensures
            r == (self.origin.x <= rhs.origin.x && self.origin.x + self.size.x >= rhs.origin.x
                + rhs.size.x && self.origin.y <= rhs.origin.y && self.origin.y + self.size.y
                >= rhs.origin.y + rhs.size.y),
            r && !rhs.spec_is_empty() ==> self.spec_contains_rect(*rhs),
    {
        let r = self.left() <= rhs.left() && self.right() >= rhs.right() && self.top() <= rhs.top()
            && self.bottom() >= rhs.bottom();
        proof {
            if !rhs.spec_is_empty() {
                if r {
                    assert forall|x: int, y: int| rhs.spec_contains(x, y) implies self.spec_contains(
                        x,
                        y,
                    ) by {}
                } else {
                    assert(rhs.spec_contains(rhs.origin.x as int, rhs.origin.y as int));
                    assert(rhs.spec_contains(
                        rhs.origin.x + rhs.size.x - 1,
                        rhs.origin.y + rhs.size.y - 1,
                    ));
                }
            }
        }
        r
    }

    pub fn intersects(&self, rhs: &TileRect) -> (r: bool)
        requires
            self.wf(),
            rhs.wf(),
        ensures
            r == (self.origin.x <= rhs.origin.x + rhs.size.x - 1 && rhs.origin.x <= self.origin.x
                + self.size.x - 1 && self.origin.y <= rhs.origin.y + rhs.size.y - 1 && rhs.origin.y
                <= self.origin.y + self.size.y - 1),
    {
        self.left() <= rhs.right() && rhs.left() <= self.right() && self.top() <= rhs.bottom()
            && rhs.top() <= self.bottom()
    }
}

/// The exact result of growing `base0` to cover `bounds`: starting
/// from `base0` (or from `bounds` when `base0` is empty), any side
/// that must move moves to the requested bound or by at least
/// `min_expansion` on that axis, whichever is farther, clamped to the
/// coordinate window.
pub open spec fn spec_grown(base0: TileRect, bounds: TileRect, min_expansion: Extent) -> TileRect {
    let base = if base0.spec_is_empty() {
        bounds
    } else {
        base0
    };
    let glx = if base.origin.x - min_expansion.x < -COORD_LIMIT {
        -COORD_LIMIT as int
    } else {
        base.origin.x - min_expansion.x
    };
    let gly = if base.origin.y - min_expansion.y < -COORD_LIMIT {
        -COORD_LIMIT as int
    } else {
        base.origin.y - min_expansion.y
    };
    let ghx = if base.origin.x + base.size.x + min_expansion.x > COORD_LIMIT {
        COORD_LIMIT as int
    } else {
        base.origin.x + base.size.x + min_expansion.x
    };
    let ghy = if base.origin.y + base.size.y + min_expansion.y > COORD_LIMIT {
        COORD_LIMIT as int
    } else {
        base.origin.y + base.size.y + min_expansion.y
    };
    let ox = if bounds.origin.x < base.origin.x {
        if bounds.origin.x < glx {
            bounds.origin.x as int
        } else {
            glx
        }
    } else {
        base.origin.x as int
    };
    let oy = if bounds.origin.y < base.origin.y {
        if bounds.origin.y < gly {
            bounds.origin.y as int
        } else {
            gly
        }
    } else {
        base.origin.y as int
    };
    let ex = if bounds.origin.x + bounds.size.x > base.origin.x + base.size.x {
        if bounds.origin.x + bounds.size.x > ghx {
            bounds.origin.x + bounds.size.x
        } else {
            ghx
        }
    } else {
        base.origin.x + base.size.x
    };
    let ey = if bounds.origin.y + bounds.size.y > base.origin.y + base.size.y {
        if bounds.origin.y + bounds.size.y > ghy {
            bounds.origin.y + bounds.size.y
        } else {
            ghy
        }
    } else {
        base.origin.y + base.size.y
    };
    TileRect {
        origin: TileIndex { x: ox as i64, y: oy as i64 },
        size: Extent { x: (ex - ox) as usize, y: (ey - oy) as usize },
    }
}

impl TileRect {
    /// Grow (in place) until `bounds` fits.  Where growth is needed on
    /// an axis the rectangle grows by at least `min_expansion` on that
    /// side (clamped to the coordinate window), so that repeated
    /// small expansions cost amortized constant work.  Returns whether
    /// anything changed.
    pub fn expand_to_include_bounds(&mut self, bounds: TileRect, min_expansion: Extent) -> (r: bool)
        requires
            old(self).wf(),
            bounds.wf(),
            min_expansion.x <= 2 * COORD_LIMIT,
            min_expansion.y <= 2 * COORD_LIMIT,
        ensures
            final(self).wf(),
            final(self).spec_contains_rect(*old(self)),
            final(self).spec_contains_rect(bounds),
            !r ==> *final(self) == *old(self),
            !old(self).spec_is_empty() && old(self).spec_contains_rect(bounds)
                && !bounds.spec_is_empty() ==> !r && *final(self) == *old(self),
            old(self).spec_is_empty() ==> r,
            !old(self).spec_is_empty() ==> (r <==> *final(self) != *old(self)),
            *final(self) == spec_grown(*old(self), bounds, min_expansion),
    {
        let ghost prior = *self;
        let mut expanded = false;

        if self.is_empty() {
            expanded = true;
            *self = bounds;
        }
        let ghost base = *self;

        let mut ox = self.origin.x;
        if bounds.origin.x < ox {
            expanded = true;
            let grown = if ox - (min_expansion.x as i64) < -COORD_LIMIT {
                -COORD_LIMIT
            } else {
                ox - (min_expansion.x as i64)
            };
            ox = if bounds.origin.x < grown {
                bounds.origin.x
            } else {
                grown
            };
        }
        let mut oy = self.origin.y;
        if bounds.origin.y < oy {
            expanded = true;
            let grown = if oy - (min_expansion.y as i64) < -COORD_LIMIT {
                -COORD_LIMIT
            } else {
                oy - (min_expansion.y as i64)
            };
            oy = if bounds.origin.y < grown {
                bounds.origin.y
            } else {
                grown
            };
        }

        let end = self.max_corner();
        let bounds_end = bounds.max_corner();

        let mut ex = end.x;
        if bounds_end.x > ex {
            expanded = true;
            let grown = if ex + (min_expansion.x as i64) > COORD_LIMIT {
                COORD_LIMIT
            } else {
                ex + (min_expansion.x as i64)
            };
            ex = if bounds_end.x > grown {
                bounds_end.x
            } else {
                grown
            };
        }
        let mut ey = end.y;
        if bounds_end.y > ey {
            expanded = true;
            let grown = if ey + (min_expansion.y as i64) > COORD_LIMIT {
                COORD_LIMIT
            } else {
                ey + (min_expansion.y as i64)
            };
            ey = if bounds_end.y > grown {
                bounds_end.y
            } else {
                grown
            };
        }

        self.origin = TileIndex { x: ox, y: oy };
        self.size = Extent { x: (ex - ox) as usize, y: (ey - oy) as usize };

        proof {
            if !expanded {
                assert(*self == prior);
            }
            assert forall|x: int, y: int| base.spec_contains(x, y) implies self.spec_contains(
                x,
                y,
            ) by {}
            assert forall|x: int, y: int| bounds.spec_contains(x, y) implies self.spec_contains(
                x,
                y,
            ) by {}
            if !prior.spec_is_empty() && prior.spec_contains_rect(bounds)
                && !bounds.spec_is_empty() {
                assert(bounds.spec_contains(bounds.origin.x as int, bounds.origin.y as int));
                assert(bounds.spec_contains(
                    bounds.origin.x + bounds.size.x - 1,
                    bounds.origin.y + bounds.size.y - 1,
                ));
                assert(!expanded);
            }
        }
        expanded
    }

    pub fn expand_to_include_index(&mut self, index: TileIndex, min_expansion: Extent) -> (r: bool)
        requires
            old(self).wf(),
            -COORD_LIMIT <= index.x < COORD_LIMIT,
            -COORD_LIMIT <= index.y < COORD_LIMIT,
            min_expansion.x <= 2 * COORD_LIMIT,
            min_expansion.y <= 2 * COORD_LIMIT,
        ensures
            final(self).wf(),
            final(self).spec_contains_rect(*old(self)),
            final(self).spec_contains(index.x as int, index.y as int),
            !r ==> *final(self) == *old(self),
            old(self).spec_contains(index.x as int, index.y as int) ==> !r && *final(self) == *old(
                self,
            ),
            !old(self).spec_is_empty() ==> (r <==> *final(self) != *old(self)),
            *final(self) == spec_grown(
                *old(self),
                (TileRect { origin: index, size: Extent { x: 1, y: 1 } }),
                min_expansion,
            ),
    {
        let cell = TileRect { origin: index, size: Extent { x: 1, y: 1 } };
        let ghost prior = *self;
        let r = self.expand_to_include_bounds(cell, min_expansion);
        proof {
            assert(cell.spec_contains(index.x as int, index.y as int));
            if prior.spec_contains(index.x as int, index.y as int) {
                assert(!prior.spec_is_empty());
                assert forall|x: int, y: int| cell.spec_contains(x, y) implies prior.spec_contains(
                    x,
                    y,
                ) by {}
            }
        }
        r
    }
}

/// A dense rectangular cell array with auto-expanding bounds.
#[derive(Clone)]
pub struct TileGrid<T> {
    bounds: TileRect,
    tiles: Vec<T>,
}

impl<T: Empty + Copy> TileGrid<T> {
    pub closed spec fn spec_bounds(self) -> TileRect {
        self.bounds
    }

    pub closed spec fn wf(self) -> bool {
        &&& self.bounds.wf()
        &&& self.tiles@.len() == self.bounds.size.x * self.bounds.size.y
    }

    /// The whole observable content: the value of every world cell,
    /// with out-of-bounds cells reading as empty.
    pub closed spec fn cell(self, x: int, y: int) -> T {
        if self.bounds.spec_contains(x, y) {
            self.tiles@[(x - self.bounds.origin.x) + (y - self.bounds.origin.y)
                * self.bounds.size.x]
        } else {
            T::spec_empty()
        }
    }

    pub fn default() -> (r: TileGrid<T>)
        ensures
            r.wf(),
            r.spec_bounds() == (TileRect {
                origin: TileIndex { x: 0, y: 0 },
                size: Extent { x: 0, y: 0 },
            }),
            forall|x: int, y: int| #[trigger] r.cell(x, y) == T::spec_empty(),
    {
        TileGrid {
            bounds: TileRect { origin: TileIndex { x: 0, y: 0 }, size: Extent { x: 0, y: 0 } },
            tiles: Vec::new(),
        }
    }

    pub fn bounds(&self) -> (r: TileRect)
        ensures
            r == self.spec_bounds(),
            self.wf() ==> r.wf(),
    {
        self.bounds
    }

    /// Reading outside the bounds yields the empty value.
    pub proof fn lemma_cell_out_of_bounds(self, x: int, y: int)
        requires
            !self.spec_bounds().spec_contains(x, y),
        ensures
            self.cell(x, y) == T::spec_empty(),
    {
    }

    /// A well-formed grid has well-formed bounds.
    pub proof fn lemma_wf_bounds(self)
        requires
            self.wf(),
        ensures
            self.spec_bounds().wf(),
    {
    }

    /// Prove the linear index of an in-bounds cell is in range.
    proof fn lemma_linear_index(self, x: int, y: int)
        requires
            self.wf(),
            self.bounds.spec_contains(x, y),
        ensures
            0 <= (x - self.bounds.origin.x) + (y - self.bounds.origin.y) * self.bounds.size.x
                < self.tiles@.len(),
            0 <= (y - self.bounds.origin.y) * self.bounds.size.x,
            self.tiles@.len() <= 0x4000_0000,
    {
        let dx = x - self.bounds.origin.x;
        let dy = y - self.bounds.origin.y;
        let sx = self.bounds.size.x as int;
        let sy = self.bounds.size.y as int;
        assert(0 <= dx + dy * sx < sx * sy && 0 <= dy * sx && sx * sy <= 0x4000_0000)
            by (nonlinear_arith)
            requires
                0 <= dx < sx,
                0 <= dy < sy,
                sx <= 2 * COORD_LIMIT,
                sy <= 2 * COORD_LIMIT,
                COORD_LIMIT == 16384,
        ;
    }

    /// Read a cell; never fails, out of bounds reads empty.
    pub fn get(&self, index: TileIndex) -> (r: T)
        requires
            self.wf(),
        ensures
            r == self.cell(index.x as int, index.y as int),
    {
        if self.bounds.is_empty() || !self.bounds.contains_point(index) {
            return T::empty();
        }
        let dx = (index.x - self.bounds.origin.x) as usize;
        let dy = (index.y - self.bounds.origin.y) as usize;
        proof {
            self.lemma_linear_index(index.x as int, index.y as int);
        }
        self.tiles[dx + dy * self.bounds.size.x]
    }

    /// Reallocate to exactly `bounds`, keeping every cell value that
    /// both rectangles cover and filling the rest with empty.  Since
    /// out-of-bounds cells read as empty, the observable content of
    /// every cell inside `bounds` is preserved exactly.
    pub fn set_bounds(&mut self, bounds: TileRect)
        requires
            old(self).wf(),
            bounds.wf(),
        ensures
            final(self).wf(),
            final(self).spec_bounds() == bounds,
            forall|x: int, y: int|
                #[trigger] final(self).cell(x, y) == (if bounds.spec_contains(x, y) {
                    old(self).cell(x, y)
                } else {
                    T::spec_empty()
                }),
    {
        let ghost prior = *self;
        let sx = bounds.size.x;
        let sy = bounds.size.y;
        let mut tiles: Vec<T> = Vec::new();
        let mut y: usize = 0;
        while y < sy
            invariant
                prior.wf(),
                bounds.wf(),
                sx == bounds.size.x,
                sy == bounds.size.y,
                prior == *self,
                y <= sy,
                tiles@.len() == y * sx,
                forall|yy: int, xx: int|
                    0 <= yy < y && 0 <= xx < sx ==> #[trigger] tiles@[yy * sx + xx] == prior.cell(
                        bounds.origin.x + xx,
                        bounds.origin.y + yy,
                    ),
            decreases sy - y,
        {
            let mut x: usize = 0;
            while x < sx
                invariant
                    prior.wf(),
                    bounds.wf(),
                    sx == bounds.size.x,
                    sy == bounds.size.y,
                    prior == *self,
                    y < sy,
                    x <= sx,
                    tiles@.len() == y * sx + x,
                    forall|yy: int, xx: int|
                        0 <= yy < y && 0 <= xx < sx ==> #[trigger] tiles@[yy * sx + xx]
                            == prior.cell(bounds.origin.x + xx, bounds.origin.y + yy),
                    forall|xx: int|
                        0 <= xx < x ==> #[trigger] tiles@[y * sx + xx] == prior.cell(
                            bounds.origin.x + xx,
                            bounds.origin.y + y,
                        ),
                decreases sx - x,
            {
                let wx = bounds.origin.x + x as i64;
                let wy = bounds.origin.y + y as i64;
                let v = self.get(TileIndex { x: wx, y: wy });
                tiles.push(v);
                proof {
                    assert forall|yy: int, xx: int|
                        0 <= yy < y && 0 <= xx < sx implies #[trigger] tiles@[yy * sx + xx]
                        == prior.cell(bounds.origin.x + xx, bounds.origin.y + yy) by {
                        assert(yy * sx + xx < y * sx + x) by (nonlinear_arith)
                            requires
                                0 <= yy < y,
                                0 <= xx < sx,
                                0 <= x,
                        ;
                    }
                }
                x = x + 1;
            }
            proof {
                assert((y + 1) * sx == y * sx + sx) by (nonlinear_arith);
            }
            y = y + 1;
        }
        self.tiles = tiles;
        self.bounds = bounds;
        proof {
            assert(self.tiles@.len() == sy * sx);
            assert(sy * sx == sx * sy) by (nonlinear_arith);
            assert forall|x: int, y: int| #[trigger] self.cell(x, y) == (if bounds.spec_contains(
                x,
                y,
            ) {
                prior.cell(x, y)
            } else {
                T::spec_empty()
            }) by {
                if bounds.spec_contains(x, y) {
                    let xx = x - bounds.origin.x;
                    let yy = y - bounds.origin.y;
                    self.lemma_linear_index(x, y);
                    assert(self.tiles@[yy * sx + xx] == prior.cell(
                        bounds.origin.x + xx,
                        bounds.origin.y + yy,
                    ));
                }
            }
        }
    }

    /// Grow the bounds so `index` is inside, by at least half the
    /// current size on any axis that must grow.  Cell values are
    /// preserved exactly; returns whether any reallocation happened.
    pub fn expand_to_fit_index(&mut self, index: TileIndex) -> (r: bool)
        requires
            old(self).wf(),
            -COORD_LIMIT <= index.x < COORD_LIMIT,
            -COORD_LIMIT <= index.y < COORD_LIMIT,
        ensures
            final(self).wf(),
            final(self).spec_bounds().spec_contains(index.x as int, index.y as int),
            final(self).spec_bounds().spec_contains_rect(old(self).spec_bounds()),
            forall|x: int, y: int| #[trigger] final(self).cell(x, y) == old(self).cell(x, y),
            !r ==> *final(self) == *old(self),
            old(self).spec_bounds().spec_contains(index.x as int, index.y as int) ==> !r,
            !old(self).spec_bounds().spec_is_empty() ==> (r <==> final(self).spec_bounds() != old(
                self,
            ).spec_bounds()),
            // The bounds grow exactly per the minimum-half-size
            // heuristic toward the written cell.
            final(self).spec_bounds() == spec_grown(
                old(self).spec_bounds(),
                (TileRect { origin: index, size: Extent { x: 1, y: 1 } }),
                (Extent {
                    x: old(self).spec_bounds().size.x / 2,
                    y: old(self).spec_bounds().size.y / 2,
                }),
            ),
    {
        let mut bounds = self.bounds;
        let expanded = bounds.expand_to_include_index(
            index,
            Extent { x: self.bounds.size.x / 2, y: self.bounds.size.y / 2 },
        );
        if expanded {
            let ghost prior = *self;
            self.set_bounds(bounds);
            proof {
                assert forall|x: int, y: int| #[trigger] self.cell(x, y) == prior.cell(x, y) by {
                    if !bounds.spec_contains(x, y) {
                        assert(!prior.bounds.spec_contains(x, y));
                    }
                }
            }
        }
        expanded
    }

    /// Grow the bounds so the whole rectangle fits; values preserved.
    pub fn expand_to_fit_bounds(&mut self, target: TileRect) -> (r: bool)
        requires
            old(self).wf(),
            target.wf(),
        ensures
            final(self).wf(),
            final(self).spec_bounds().spec_contains_rect(target),
            final(self).spec_bounds().spec_contains_rect(old(self).spec_bounds()),
            forall|x: int, y: int| #[trigger] final(self).cell(x, y) == old(self).cell(x, y),
            !r ==> *final(self) == *old(self),
            !old(self).spec_bounds().spec_is_empty() ==> (r <==> final(self).spec_bounds() != old(
                self,
            ).spec_bounds()),
            // The bounds grow exactly per the minimum-half-size
            // heuristic toward the target rectangle.
            final(self).spec_bounds() == spec_grown(
                old(self).spec_bounds(),
                target,
                (Extent {
                    x: old(self).spec_bounds().size.x / 2,
                    y: old(self).spec_bounds().size.y / 2,
                }),
            ),
    {
        let mut bounds = self.bounds;
        let expanded = bounds.expand_to_include_bounds(
            target,
            Extent { x: self.bounds.size.x / 2, y: self.bounds.size.y / 2 },
        );
        if expanded {
            let ghost prior = *self;
            self.set_bounds(bounds);
            proof {
                assert forall|x: int, y: int| #[trigger] self.cell(x, y) == prior.cell(x, y) by {
                    if !bounds.spec_contains(x, y) {
                        assert(!prior.bounds.spec_contains(x, y));
                    }
                }
            }
        }
        expanded
    }

    /// Write a cell, growing the grid first if the index is outside
    /// the current bounds.  Writing an index the bounds already cover
    /// never reallocates, so writing the same far-away index twice
    /// expands at most once.
    pub fn set(&mut self, index: TileIndex, value: T)
        requires
            old(self).wf(),
            -COORD_LIMIT <= index.x < COORD_LIMIT,
            -COORD_LIMIT <= index.y < COORD_LIMIT,
        ensures
            final(self).wf(),
            final(self).spec_bounds().spec_contains(index.x as int, index.y as int),
            final(self).spec_bounds().spec_contains_rect(old(self).spec_bounds()),
            final(self).cell(index.x as int, index.y as int) == value,
            forall|x: int, y: int|
                !(x == index.x as int && y == index.y as int) ==> #[trigger] final(self).cell(x, y)
                    == old(self).cell(x, y),
            old(self).spec_bounds().spec_contains(index.x as int, index.y as int)
                ==> final(self).spec_bounds() == old(self).spec_bounds(),
    {
        self.expand_to_fit_index(index);
        let ghost mid = *self;
        let dx = (index.x - self.bounds.origin.x) as usize;
        let dy = (index.y - self.bounds.origin.y) as usize;
        proof {
            self.lemma_linear_index(index.x as int, index.y as int);
        }
        let li = dx + dy * self.bounds.size.x;
        self.tiles.set(li, value);
        proof {
            assert forall|x: int, y: int|
                !(x == index.x as int && y == index.y as int) implies #[trigger] self.cell(x, y)
                == mid.cell(x, y) by {
                if self.bounds.spec_contains(x, y) {
                    let other = (x - self.bounds.origin.x) + (y - self.bounds.origin.y)
                        * self.bounds.size.x;
                    self.lemma_linear_index(x, y);
                    if other == li {
                        // Distinct in-bounds cells have distinct
                        // linear indexes.
                        let sx = self.bounds.size.x as int;
                        assert(x - self.bounds.origin.x == dx && y - self.bounds.origin.y == dy)
                            by (nonlinear_arith)
                            requires
                                0 <= x - self.bounds.origin.x < sx,
                                0 <= dx < sx,
                                (x - self.bounds.origin.x) + (y - self.bounds.origin.y) * sx == dx
                                    + dy * sx,
                        ;
                        assert(false);
                    }
                }
            }
        }
    }
}

} // verus!
