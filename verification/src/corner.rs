//! Occluder cells and the corner classification lattice.
//!
//! A corner sits on a lattice vertex between four cells.  Its
//! direction records three facts: whether it is convex or concave,
//! and toward which diagonal quadrant (north/south x east/west) the
//! classifying cell lies.  The classification of a vertex is a fixed
//! table over the 16 possible occlusion patterns of its 2x2 cell
//! neighborhood.

use vstd::prelude::*;
use crate::geometry::FixedVec;
use crate::grid::Empty;
use crate::grid::TileIndex;

verus! {

/// One cell of the light grid: open air or a solid occluder.
/// Everything outside the allocated bounds is `Solid`: the world is
/// dark beyond the level.
#[derive(Clone, Copy, PartialEq, Eq, Structural, Debug)]
pub enum Pixel {
    Air,
    Solid,
}

impl Empty for Pixel {
    open spec fn spec_empty() -> Pixel {
        Pixel::Solid
    }

    fn empty() -> (r: Pixel) {
        Pixel::Solid
    }
}

impl Pixel {
    pub open spec fn spec_is_none(self) -> bool {
        self is Air
    }

    pub fn is_none(&self) -> (r: bool)
        ensures
            r == self.spec_is_none(),
    {
        match self {
            Pixel::Air => true,
            Pixel::Solid => false,
        }
    }

    pub open spec fn spec_blocks_light(self) -> bool {
        !self.spec_is_none()
    }

    pub fn blocks_light(&self) -> (r: bool)
        ensures
            r == self.spec_blocks_light(),
    {
        !self.is_none()
    }

    pub open spec fn spec_blocks_motion(self) -> bool {
        !self.spec_is_none()
    }

    pub fn blocks_motion(&self) -> (r: bool)
        ensures
            r == self.spec_blocks_motion(),
    {
        !self.is_none()
    }

    pub fn is_empty(&self) -> (r: bool)
        ensures
            r == (self == Pixel::spec_empty()),
    {
        match self {
            Pixel::Air => false,
            Pixel::Solid => true,
        }
    }
}

/// The face of a cell that a ray ran into, named by the side the face
/// looks out of.
#[derive(Clone, Copy, PartialEq, Eq, Structural, Debug)]
pub enum WallDirection {
    East,
    North,
    West,
    South,
}

impl WallDirection {
    /// Outward surface normal.
    pub fn out(self) -> (r: (i64, i64))
        ensures
            r == self.spec_out(),
    {
        match self {
            WallDirection::East => (1i64, 0i64),
            WallDirection::North => (0i64, -1i64),
            WallDirection::West => (-1i64, 0i64),
            WallDirection::South => (0i64, 1i64),
        }
    }

    pub open spec fn spec_out(self) -> (i64, i64) {
        match self {
            WallDirection::East => (1i64, 0i64),
            WallDirection::North => (0i64, -1i64),
            WallDirection::West => (-1i64, 0i64),
            WallDirection::South => (0i64, 1i64),
        }
    }
}

/// A corner direction: convex or concave, pointing at one of the four
/// diagonal quadrants.
#[derive(Clone, Copy, PartialEq, Eq, Structural, Debug)]
pub enum CornerDirection {
    ConvexNorthEast,
    ConvexNorthWest,
    ConvexSouthEast,
    ConvexSouthWest,
    ConcaveNorthEast,
    ConcaveNorthWest,
    ConcaveSouthEast,
    ConcaveSouthWest,
}

/// What a ray hit: a flat wall face, or a corner.  The flag on a
/// corner hit records whether the ray reached the corner vertex
/// directly (grazing past it) rather than being stopped against it.
#[derive(Clone, Copy, PartialEq, Eq, Structural, Debug)]
pub enum RayCollisionNormal {
    Wall(WallDirection),
    Corner(CornerDirection, bool),
}

/// A classified corner at a lattice vertex.  `location` is in whole
/// grid cells: the vertex between cells `(location.x - 1 .. location.x,
/// location.y - 1 .. location.y)` and their neighbors.
#[derive(Clone, Copy, PartialEq, Eq, Structural, Debug)]
pub struct Corner {
    pub location: TileIndex,
    pub direction: CornerDirection,
}

impl CornerDirection {
    pub open spec fn spec_new(concave: bool, south: bool, west: bool) -> CornerDirection {
        match (concave, south, west) {
            (false, false, false) => CornerDirection::ConvexNorthEast,
            (false, false, true) => CornerDirection::ConvexNorthWest,
            (false, true, false) => CornerDirection::ConvexSouthEast,
            (false, true, true) => CornerDirection::ConvexSouthWest,
            (true, false, false) => CornerDirection::ConcaveNorthEast,
            (true, false, true) => CornerDirection::ConcaveNorthWest,
            (true, true, false) => CornerDirection::ConcaveSouthEast,
            (true, true, true) => CornerDirection::ConcaveSouthWest,
        }
    }

    pub fn new(concave: bool, south: bool, west: bool) -> (r: CornerDirection)
        ensures
            r == CornerDirection::spec_new(concave, south, west),
    {
        match (concave, south, west) {
            (false, false, false) => CornerDirection::ConvexNorthEast,
            (false, false, true) => CornerDirection::ConvexNorthWest,
            (false, true, false) => CornerDirection::ConvexSouthEast,
            (false, true, true) => CornerDirection::ConvexSouthWest,
            (true, false, false) => CornerDirection::ConcaveNorthEast,
            (true, false, true) => CornerDirection::ConcaveNorthWest,
            (true, true, false) => CornerDirection::ConcaveSouthEast,
            (true, true, true) => CornerDirection::ConcaveSouthWest,
        }
    }

    /// The fixed classification table over a 2x2 neighborhood of
    /// occlusion flags (`nw` is the cell northwest of the vertex, and
    /// so on).  All four alike or two adjacent: no corner.  Exactly
    /// one blocking: one convex corner.  Exactly three: one concave
    /// corner.  Two blocking diagonally: the ambiguous checkerboard
    /// vertex, which yields both concave readings.
    pub open spec fn spec_from_neighborhood(nw: bool, ne: bool, sw: bool, se: bool) -> Seq<
        CornerDirection,
    > {
        match (nw, ne, sw, se) {
            (false, false, false, false) => Seq::empty(),
            (true, true, false, false) => Seq::empty(),
            (false, false, true, true) => Seq::empty(),
            (false, true, false, true) => Seq::empty(),
            (true, false, true, false) => Seq::empty(),
            (true, true, true, true) => Seq::empty(),
            (true, false, false, false) => seq![CornerDirection::ConvexSouthEast],
            (false, true, false, false) => seq![CornerDirection::ConvexSouthWest],
            (false, false, true, false) => seq![CornerDirection::ConvexNorthEast],
            (false, false, false, true) => seq![CornerDirection::ConvexNorthWest],
            (true, false, false, true) => seq![
                CornerDirection::ConcaveNorthEast,
                CornerDirection::ConcaveSouthWest,
            ],
            (false, true, true, false) => seq![
                CornerDirection::ConcaveNorthWest,
                CornerDirection::ConcaveSouthEast,
            ],
            (true, false, true, true) => seq![CornerDirection::ConcaveNorthEast],
            (false, true, true, true) => seq![CornerDirection::ConcaveNorthWest],
            (true, true, true, false) => seq![CornerDirection::ConcaveSouthEast],
            (true, true, false, true) => seq![CornerDirection::ConcaveSouthWest],
        }
    }

    pub fn from_neighborhood(nw: bool, ne: bool, sw: bool, se: bool) -> (r: Vec<CornerDirection>)
        ensures
            r@ == CornerDirection::spec_from_neighborhood(nw, ne, sw, se),
    {
        let mut r: Vec<CornerDirection> = Vec::new();
        if nw && !ne && !sw && !se {
            r.push(CornerDirection::ConvexSouthEast);
        } else if !nw && ne && !sw && !se {
            r.push(CornerDirection::ConvexSouthWest);
        } else if !nw && !ne && sw && !se {
            r.push(CornerDirection::ConvexNorthEast);
        } else if !nw && !ne && !sw && se {
            r.push(CornerDirection::ConvexNorthWest);
        } else if nw && !ne && !sw && se {
            r.push(CornerDirection::ConcaveNorthEast);
            r.push(CornerDirection::ConcaveSouthWest);
        } else if !nw && ne && sw && !se {
            r.push(CornerDirection::ConcaveNorthWest);
            r.push(CornerDirection::ConcaveSouthEast);
        } else if nw && !ne && sw && se {
            r.push(CornerDirection::ConcaveNorthEast);
        } else if !nw && ne && sw && se {
            r.push(CornerDirection::ConcaveNorthWest);
        } else if nw && ne && sw && !se {
            r.push(CornerDirection::ConcaveSouthEast);
        } else if nw && ne && !sw && se {
            r.push(CornerDirection::ConcaveSouthWest);
        }
        proof {
            assert(r@ =~= CornerDirection::spec_from_neighborhood(nw, ne, sw, se));
        }
        r
    }

    pub open spec fn spec_is_concave(self) -> bool {
        match self {
            CornerDirection::ConcaveNorthEast => true,
            CornerDirection::ConcaveNorthWest => true,
            CornerDirection::ConcaveSouthEast => true,
            CornerDirection::ConcaveSouthWest => true,
            _ => false,
        }
    }

    pub fn is_concave(self) -> (r: bool)
        ensures
            r == self.spec_is_concave(),
    {
        match self {
            CornerDirection::ConcaveNorthEast => true,
            CornerDirection::ConcaveNorthWest => true,
            CornerDirection::ConcaveSouthEast => true,
            CornerDirection::ConcaveSouthWest => true,
            _ => false,
        }
    }

    pub open spec fn spec_is_convex(self) -> bool {
        !self.spec_is_concave()
    }

    pub fn is_convex(self) -> (r: bool)
        ensures
            r == self.spec_is_convex(),
    {
        !self.is_concave()
    }

    pub open spec fn spec_is_south(self) -> bool {
        match self {
            CornerDirection::ConvexSouthEast => true,
            CornerDirection::ConvexSouthWest => true,
            CornerDirection::ConcaveSouthEast => true,
            CornerDirection::ConcaveSouthWest => true,
            _ => false,
        }
    }

    pub fn is_south(self) -> (r: bool)
        ensures
            r == self.spec_is_south(),
    {
        match self {
            CornerDirection::ConvexSouthEast => true,
            CornerDirection::ConvexSouthWest => true,
            CornerDirection::ConcaveSouthEast => true,
            CornerDirection::ConcaveSouthWest => true,
            _ => false,
        }
    }

    pub open spec fn spec_is_north(self) -> bool {
        !self.spec_is_south()
    }

    pub fn is_north(self) -> (r: bool)
        ensures
            r == self.spec_is_north(),
    {
        !self.is_south()
    }

    pub open spec fn spec_is_west(self) -> bool {
        match self {
            CornerDirection::ConvexNorthWest => true,
            CornerDirection::ConvexSouthWest => true,
            CornerDirection::ConcaveNorthWest => true,
            CornerDirection::ConcaveSouthWest => true,
            _ => false,
        }
    }

    pub fn is_west(self) -> (r: bool)
        ensures
            r == self.spec_is_west(),
    {
        match self {
            CornerDirection::ConvexNorthWest => true,
            CornerDirection::ConvexSouthWest => true,
            CornerDirection::ConcaveNorthWest => true,
            CornerDirection::ConcaveSouthWest => true,
            _ => false,
        }
    }

    pub open spec fn spec_is_east(self) -> bool {
        !self.spec_is_west()
    }

    pub fn is_east(self) -> (r: bool)
        ensures
            r == self.spec_is_east(),
    {
        !self.is_west()
    }

    /// Which half-planes of an offset agree with this corner's
    /// quadrant: horizontal agreement and vertical agreement.
    pub open spec fn spec_filter_offsets(self, off: FixedVec) -> (bool, bool) {
        (
            if self.spec_is_east() {
                off.x >= 0
            } else {
                off.x <= 0
            },
            if self.spec_is_north() {
                off.y <= 0
            } else {
                off.y >= 0
            },
        )
    }

    /// Whether `off` points into the quadrant this corner occludes
    /// (for a convex corner either half-plane counts; a concave
    /// corner needs both).
    pub open spec fn spec_contains_offset(self, off: FixedVec) -> bool {
        if self.spec_is_convex() {
            self.spec_filter_offsets(off).0 || self.spec_filter_offsets(off).1
        } else {
            self.spec_filter_offsets(off).0 && self.spec_filter_offsets(off).1
        }
    }

    pub fn contains_offset(self, off: FixedVec) -> (r: bool)
        ensures
            r == self.spec_contains_offset(off),
    {
        let horizontal_ok = if self.is_east() {
            off.x >= 0
        } else {
            off.x <= 0
        };
        let vertical_ok = if self.is_north() {
            off.y <= 0
        } else {
            off.y >= 0
        };
        if self.is_convex() {
            horizontal_ok || vertical_ok
        } else {
            horizontal_ok && vertical_ok
        }
    }

    /// Whether `off` lies (weakly) inside both half-planes of the
    /// corner's quadrant.
    pub open spec fn spec_contains_offset_strict(self, off: FixedVec) -> bool {
        self.spec_filter_offsets(off).0 && self.spec_filter_offsets(off).1
    }

    pub fn contains_offset_strict(self, off: FixedVec) -> (r: bool)
        ensures
            r == self.spec_contains_offset_strict(off),
    {
        let horizontal_ok = if self.is_east() {
            off.x >= 0
        } else {
            off.x <= 0
        };
        let vertical_ok = if self.is_north() {
            off.y <= 0
        } else {
            off.y >= 0
        };
        horizontal_ok && vertical_ok
    }

    /// On which side of the corner's two wall edges the offset lies;
    /// used to partition the continuation ray of a convex corner.
    pub open spec fn spec_is_offset_to_left(self, off: FixedVec) -> bool {
        match (self.spec_is_north(), self.spec_is_east()) {
            (false, false) => off.x >= 0 && off.y >= 0,
            (false, true) => off.x >= 0 && off.y <= 0,
            (true, false) => off.x <= 0 && off.y >= 0,
            (true, true) => off.x <= 0 && off.y <= 0,
        }
    }

    pub fn is_offset_to_left(self, off: FixedVec) -> (r: bool)
        ensures
            r == self.spec_is_offset_to_left(off),
    {
        match (self.is_north(), self.is_east()) {
            (false, false) => off.x >= 0 && off.y >= 0,
            (false, true) => off.x >= 0 && off.y <= 0,
            (true, false) => off.x <= 0 && off.y >= 0,
            (true, true) => off.x <= 0 && off.y <= 0,
        }
    }

    pub open spec fn spec_is_on_left_edge(self, off: FixedVec) -> bool {
        match (self.spec_is_north(), self.spec_is_east()) {
            (false, false) => off.y >= 0 && off.x == 0,
            (false, true) => off.x >= 0 && off.y == 0,
            (true, false) => off.x <= 0 && off.y == 0,
            (true, true) => off.y <= 0 && off.x == 0,
        }
    }

    pub fn is_on_left_edge(self, off: FixedVec) -> (r: bool)
        ensures
            r == self.spec_is_on_left_edge(off),
    {
        match (self.is_north(), self.is_east()) {
            (false, false) => off.y >= 0 && off.x == 0,
            (false, true) => off.x >= 0 && off.y == 0,
            (true, false) => off.x <= 0 && off.y == 0,
            (true, true) => off.y <= 0 && off.x == 0,
        }
    }

    pub open spec fn spec_is_on_right_edge(self, off: FixedVec) -> bool {
        match (self.spec_is_north(), self.spec_is_east()) {
            (false, false) => off.x <= 0 && off.y == 0,
            (false, true) => off.y >= 0 && off.x == 0,
            (true, false) => off.y <= 0 && off.x == 0,
            (true, true) => off.x >= 0 && off.y == 0,
        }
    }

    pub fn is_on_right_edge(self, off: FixedVec) -> (r: bool)
        ensures
            r == self.spec_is_on_right_edge(off),
    {
        match (self.is_north(), self.is_east()) {
            (false, false) => off.x <= 0 && off.y == 0,
            (false, true) => off.y >= 0 && off.x == 0,
            (true, false) => off.y <= 0 && off.x == 0,
            (true, true) => off.x >= 0 && off.y == 0,
        }
    }

    pub open spec fn spec_is_on_edge(self, off: FixedVec) -> bool {
        self.spec_is_on_left_edge(off) || self.spec_is_on_right_edge(off)
    }

    pub fn is_on_edge(self, off: FixedVec) -> (r: bool)
        ensures
            r == self.spec_is_on_edge(off),
    {
        self.is_on_left_edge(off) || self.is_on_right_edge(off)
    }

    /// Offsets along the corner's own walls pointing away from its
    /// quadrant: rays from such directions see the wall flat-on and
    /// the corner contributes nothing.
    pub open spec fn spec_should_skip(self, off: FixedVec) -> bool {
        match (self.spec_is_north(), self.spec_is_east()) {
            (false, false) => (off.x >= 0 && off.y == 0) || (off.y <= 0 && off.x == 0),
            (false, true) => (off.x <= 0 && off.y == 0) || (off.y <= 0 && off.x == 0),
            (true, false) => (off.x >= 0 && off.y == 0) || (off.y >= 0 && off.x == 0),
            (true, true) => (off.x <= 0 && off.y == 0) || (off.y >= 0 && off.x == 0),
        }
    }

    pub fn should_skip(self, off: FixedVec) -> (r: bool)
        ensures
            r == self.spec_should_skip(off),
    {
        match (self.is_north(), self.is_east()) {
            (false, false) => (off.x >= 0 && off.y == 0) || (off.y <= 0 && off.x == 0),
            (false, true) => (off.x <= 0 && off.y == 0) || (off.y <= 0 && off.x == 0),
            (true, false) => (off.x >= 0 && off.y == 0) || (off.y >= 0 && off.x == 0),
            (true, true) => (off.x <= 0 && off.y == 0) || (off.y >= 0 && off.x == 0),
        }
    }

    /// Outward diagonal normal.
    pub open spec fn spec_out(self) -> (i64, i64) {
        (
            if self.spec_is_east() {
                1i64
            } else {
                -1i64
            },
            if self.spec_is_south() {
                1i64
            } else {
                -1i64
            },
        )
    }

    pub fn out(self) -> (r: (i64, i64))
        ensures
            r == self.spec_out(),
    {
        (
            if self.is_east() {
                1i64
            } else {
                -1i64
            },
            if self.is_south() {
                1i64
            } else {
                -1i64
            },
        )
    }
}

impl RayCollisionNormal {
    /// Outward normal of whatever was struck.
    pub fn out(self) -> (r: (i64, i64))
        ensures
            r == self.spec_out(),
    {
        match self {
            RayCollisionNormal::Wall(w) => w.out(),
            RayCollisionNormal::Corner(c, _) => c.out(),
        }
    }

    pub open spec fn spec_out(self) -> (i64, i64) {
        match self {
            RayCollisionNormal::Wall(w) => w.spec_out(),
            RayCollisionNormal::Corner(c, _) => c.spec_out(),
        }
    }
}

} // verus!
