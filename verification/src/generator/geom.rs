//! Tile-space geometry: ids, positions, sizes, rectangles and door directions.
//!
//! Everything here is in tiles, y-up. A rectangle is a min corner plus a size,
//! and its max corner is exclusive, so two rectangles that only share an edge
//! do not overlap.
use vstd::prelude::*;

verus! {

/// Index of a room in a `Catalog`.
#[derive(Debug, Clone, Copy, PartialEq, Eq, Hash, Structural)]
pub struct RoomId(pub u32);

/// Index of a placement in a `Layout`.
///
/// `==` is written out by hand (rather than derived) so that generic code, such
/// as the spatial index's de-duplication, can rely on it meaning field equality.
#[derive(Debug, Clone, Copy, Eq, Hash)]
pub struct PlacementId(pub u32);

impl PartialEq for PlacementId {
    fn eq(&self, other: &Self) -> (r: bool) {
        self.0 == other.0
    }
}

impl vstd::std_specs::cmp::PartialEqSpecImpl for PlacementId {
    open spec fn obeys_eq_spec() -> bool {
        true
    }

    open spec fn eq_spec(&self, other: &Self) -> bool {
        self.0 == other.0
    }
}

/// Handle for one entry of a `Layout`'s open-door set: a slot plus the
/// generation that slot had when the door was opened. A slot freed by closing
/// its door gets a new generation, so a stale handle never matches the door
/// that later reuses the slot.
#[derive(Debug, Clone, Copy, PartialEq, Eq, Hash, Structural)]
pub struct OpenDoorId {
    pub slot: u32,
    pub generation: u32,
}

#[derive(Debug, Clone, Copy, PartialEq, Eq, Hash, Structural)]
pub struct TilePos {
    pub x: i32,
    pub y: i32,
}

/// Whether `a + b` is a representable coordinate.
pub open spec fn fits_i32(v: int) -> bool {
    i32::MIN <= v <= i32::MAX
}

impl TilePos {
    /// Component-wise sum.
    pub fn plus(self, rhs: TilePos) -> (r: TilePos)
        requires
            fits_i32(self.x + rhs.x),
            fits_i32(self.y + rhs.y),
        ensures
            r.x == self.x + rhs.x,
            r.y == self.y + rhs.y,
    {
        TilePos { x: self.x + rhs.x, y: self.y + rhs.y }
    }

    /// Component-wise sum, `None` where a component leaves the `i32` range.
    pub fn checked_plus(self, rhs: TilePos) -> (r: Option<TilePos>)
        ensures
            r == checked_plus_spec(self, rhs),
    {
        match (self.x.checked_add(rhs.x), self.y.checked_add(rhs.y)) {
            (Some(x), Some(y)) => Some(TilePos { x, y }),
            _ => None,
        }
    }

    /// Component-wise difference, `None` where a component leaves the `i32` range.
    pub fn checked_minus(self, rhs: TilePos) -> (r: Option<TilePos>)
        ensures
            r == checked_minus_spec(self, rhs),
    {
        match (self.x.checked_sub(rhs.x), self.y.checked_sub(rhs.y)) {
            (Some(x), Some(y)) => Some(TilePos { x, y }),
            _ => None,
        }
    }
}

/// `a + b`, `None` where a component leaves the `i32` range.
pub open spec fn checked_plus_spec(a: TilePos, b: TilePos) -> Option<TilePos> {
    if fits_i32(a.x + b.x) && fits_i32(a.y + b.y) {
        Some(TilePos { x: (a.x + b.x) as i32, y: (a.y + b.y) as i32 })
    } else {
        None
    }
}

/// `a - b`, `None` where a component leaves the `i32` range.
pub open spec fn checked_minus_spec(a: TilePos, b: TilePos) -> Option<TilePos> {
    if fits_i32(a.x - b.x) && fits_i32(a.y - b.y) {
        Some(TilePos { x: (a.x - b.x) as i32, y: (a.y - b.y) as i32 })
    } else {
        None
    }
}

#[derive(Debug, Clone, Copy, PartialEq, Eq, Hash, Structural)]
pub struct TileSize {
    pub width: u32,
    pub height: u32,
}

/// Pixels, integral as LDtk stores them. Only `RoomDef::world_offset_px` uses
/// it; everything the placement code reads is in tiles.
#[derive(Debug, Clone, Copy, PartialEq, Eq, Hash, Structural)]
pub struct PixelPos {
    pub x: i32,
    pub y: i32,
}

#[derive(Debug, Clone, Copy, PartialEq, Eq, Hash, Structural)]
pub struct TileRect {
    pub min: TilePos,
    pub size: TileSize,
}

impl TileRect {
    /// The exclusive max x: `min.x` plus the width read as an `i32`.
    pub open spec fn max_x(self) -> int {
        self.min.x + (self.size.width as i32)
    }

    /// The exclusive max y: `min.y` plus the height read as an `i32`.
    pub open spec fn max_y(self) -> int {
        self.min.y + (self.size.height as i32)
    }

    /// Whether the max corner is a representable position.
    pub open spec fn max_fits(self) -> bool {
        fits_i32(self.max_x()) && fits_i32(self.max_y())
    }

    /// Half-open containment: `min <= pos < max` on both axes.
    pub open spec fn contains_spec(self, pos: TilePos) -> bool {
        &&& self.min.x <= pos.x < self.max_x()
        &&& self.min.y <= pos.y < self.max_y()
    }

    /// Both extents are positive once read as `i32`.
    pub open spec fn non_empty(self) -> bool {
        (self.size.width as i32) > 0 && (self.size.height as i32) > 0
    }

    pub fn max(self) -> (r: TilePos)
        requires
            self.max_fits(),
        ensures
            r.x == self.max_x(),
            r.y == self.max_y(),
    {
        TilePos {
            x: self.min.x + self.size.width as i32,
            y: self.min.y + self.size.height as i32,
        }
    }

    /// The max corner, `None` where it is not representable.
    pub fn checked_max(self) -> (r: Option<TilePos>)
        ensures
            r == (if self.max_fits() {
                Some(TilePos { x: self.max_x() as i32, y: self.max_y() as i32 })
            } else {
                None
            }),
    {
        self.min.checked_plus(TilePos { x: self.size.width as i32, y: self.size.height as i32 })
    }

    pub fn contains(self, pos: TilePos) -> (r: bool)
        requires
            self.max_fits(),
        ensures
            r == self.contains_spec(pos),
    {
        let max = self.max();
        pos.x >= self.min.x && pos.x < max.x && pos.y >= self.min.y && pos.y < max.y
    }
}

/// Strict `<` on every side: rectangles that only share an edge do not overlap.
pub open spec fn overlaps_spec(a: TileRect, b: TileRect) -> bool {
    &&& a.min.x < b.max_x()
    &&& b.min.x < a.max_x()
    &&& a.min.y < b.max_y()
    &&& b.min.y < a.max_y()
}

pub fn overlaps(a: TileRect, b: TileRect) -> (r: bool)
    requires
        a.max_fits(),
        b.max_fits(),
    ensures
        r == overlaps_spec(a, b),
{
    let (a_max, b_max) = (a.max(), b.max());
    a.min.x < b_max.x && b.min.x < a_max.x && a.min.y < b_max.y && b.min.y < a_max.y
}

/// Overlap is symmetric.
pub proof fn lemma_overlaps_symmetric(a: TileRect, b: TileRect)
    ensures
        overlaps_spec(a, b) == overlaps_spec(b, a),
{
}

/// Two non-empty rectangles overlap exactly when some tile lies in both.
pub proof fn lemma_overlaps_iff_common_tile(a: TileRect, b: TileRect)
    requires
        a.non_empty(),
        b.non_empty(),
    ensures
        overlaps_spec(a, b) <==> exists|p: TilePos| a.contains_spec(p) && b.contains_spec(p),
{
    if overlaps_spec(a, b) {
        let px = if a.min.x < b.min.x { b.min.x } else { a.min.x };
        let py = if a.min.y < b.min.y { b.min.y } else { a.min.y };
        let p = TilePos { x: px, y: py };
        assert(a.contains_spec(p) && b.contains_spec(p));
    }
}

/// Rectangles that meet along a vertical edge, or along a horizontal edge, do
/// not overlap.
pub proof fn lemma_shared_edge_is_not_overlap(a: TileRect, b: TileRect)
    requires
        a.max_x() == b.min.x || a.max_y() == b.min.y,
    ensures
        !overlaps_spec(a, b),
{
}

/// Door directions, clockwise from north.
#[derive(Debug, Clone, Copy, PartialEq, Eq, Hash, Structural)]
pub enum Dir {
    N,
    E,
    S,
    W,
}

pub open spec fn opposite_spec(d: Dir) -> Dir {
    match d {
        Dir::N => Dir::S,
        Dir::E => Dir::W,
        Dir::S => Dir::N,
        Dir::W => Dir::E,
    }
}

impl Dir {
    pub fn opposite(self) -> (r: Dir)
        ensures
            r == opposite_spec(self),
    {
        match self {
            Dir::N => Dir::S,
            Dir::E => Dir::W,
            Dir::S => Dir::N,
            Dir::W => Dir::E,
        }
    }
}

/// `opposite` is an involution without fixed points.
pub proof fn lemma_opposite_involution(d: Dir)
    ensures
        opposite_spec(opposite_spec(d)) == d,
        opposite_spec(d) != d,
{
}

} // verus!
