//! Axial hex coordinates, their distance and a fixed-point lattice projection.

use vstd::prelude::*;
use hexx::Hex;

verus! {

/// Largest absolute value of an axial coordinate that the library handles, so that
/// sums and differences of coordinates never overflow.
pub const COORD_LIMIT: i32 = 1_000_000;

/// Largest ring or hexagon radius that the library asks for.
pub const RADIUS_LIMIT: u32 = 1000;

/// An axial hex coordinate: `q` is the x axis, `r` the y axis, and the implied
/// third cubic axis is `-q - r`.
#[derive(PartialEq, Eq, Structural, Clone, Copy, Debug, Hash)]
pub struct HexCoord {
    pub q: i32,
    pub r: i32,
}

/// A point of the integer lattice on which cell centres lie: `x` counts half cell
/// sizes along the flat axis, `y` counts half cell heights across it.
#[derive(PartialEq, Eq, Structural, Clone, Copy, Debug)]
pub struct LatticePoint {
    pub x: i64,
    pub y: i64,
}

pub open spec fn abs(x: int) -> int {
    if x < 0 { -x } else { x }
}

pub open spec fn max3(a: int, b: int, c: int) -> int {
    if a >= b && a >= c { a } else if b >= c { b } else { c }
}

/// The number of steps between two cells of the hex grid.
pub open spec fn hex_distance(a: HexCoord, b: HexCoord) -> int {
    let dq = a.q - b.q;
    let dr = a.r - b.r;
    max3(abs(dq), abs(dr), abs(dq + dr))
}

/// Two cells share an edge.
pub open spec fn adjacent(a: HexCoord, b: HexCoord) -> bool {
    hex_distance(a, b) == 1
}

/// Both axes lie within `COORD_LIMIT`.
pub open spec fn in_bounds(c: HexCoord) -> bool {
    -COORD_LIMIT <= c.q <= COORD_LIMIT && -COORD_LIMIT <= c.r <= COORD_LIMIT
}

/// The lattice point of a cell centre in a flat-topped layout.
pub open spec fn lattice_of(c: HexCoord) -> LatticePoint {
    LatticePoint { x: (3 * c.q) as i64, y: (c.q + 2 * c.r) as i64 }
}

/// The six offsets of the neighbours, in the order in which the grid lists them.
pub open spec fn neighbor_offsets() -> Seq<(int, int)> {
    seq![(1, -1), (0, -1), (-1, 0), (-1, 1), (0, 1), (1, 0)]
}

pub open spec fn offset_by(c: HexCoord, d: (int, int)) -> HexCoord {
    HexCoord { q: (c.q + d.0) as i32, r: (c.r + d.1) as i32 }
}

/// Relies on hexx's `Hex::unsigned_distance_to`: the largest absolute difference
/// over the three cubic axes.
#[verifier::external_body]
fn grid_distance(a: HexCoord, b: HexCoord) -> (d: u32)
    requires
        in_bounds(a),
        in_bounds(b),
    ensures
        d == hex_distance(a, b),
{
    Hex::new(a.q, a.r).unsigned_distance_to(Hex::new(b.q, b.r))
}

/// Relies on hexx's `Hex::all_neighbors`: the cell plus each offset of
/// `Hex::NEIGHBORS_COORDS`, in that order.
#[verifier::external_body]
fn grid_neighbors(c: HexCoord) -> (r: Vec<HexCoord>)
    requires
        in_bounds(c),
    ensures
        r@.len() == 6,
        forall|i: int| 0 <= i < 6 ==> #[trigger] r@[i] == offset_by(c, neighbor_offsets()[i]),
{
    Hex::new(c.q, c.r).all_neighbors().iter().map(|h| HexCoord { q: h.x, r: h.y }).collect()
}

/// Relies on hexx's `Hex::ring`: the `6 * radius` cells at distance `radius`
/// (the cell itself for radius 0).
#[verifier::external_body]
fn grid_ring(c: HexCoord, radius: u32) -> (r: Vec<HexCoord>)
    requires
        in_bounds(c),
        radius <= RADIUS_LIMIT,
    ensures
        r@.len() == if radius == 0 { 1 } else { 6 * radius },
        forall|i: int| 0 <= i < r@.len() ==> hex_distance(c, #[trigger] r@[i]) == radius,
        forall|h: HexCoord| hex_distance(c, h) == radius ==> r@.contains(h),
{
    Hex::new(c.q, c.r).ring(radius).map(|h| HexCoord { q: h.x, r: h.y }).collect()
}

/// Relies on hexx's `shapes::hexagon`: every cell within `radius` of the centre,
/// each once, `3 * radius * (radius + 1) + 1` of them.
#[verifier::external_body]
fn grid_hexagon(center: HexCoord, radius: u32) -> (r: Vec<HexCoord>)
    requires
        in_bounds(center),
        radius <= RADIUS_LIMIT,
    ensures
        r@.len() == 3 * radius * (radius + 1) + 1,
        r@.no_duplicates(),
        forall|i: int| 0 <= i < r@.len() ==> hex_distance(center, #[trigger] r@[i]) <= radius,
        forall|h: HexCoord| hex_distance(center, h) <= radius ==> r@.contains(h),
{
    hexx::shapes::hexagon(Hex::new(center.q, center.r), radius).map(
        |h| HexCoord { q: h.x, r: h.y },
    ).collect()
}

impl HexCoord {
    pub fn new(q: i32, r: i32) -> (c: HexCoord)
        ensures
            c.q == q,
            c.r == r,
    {
        HexCoord { q, r }
    }

    /// The number of grid steps from `self` to `other`.
    pub fn distance_to(&self, other: &HexCoord) -> (d: u32)
        requires
            in_bounds(*self),
            in_bounds(*other),
        ensures
            d == hex_distance(*self, *other),
    {
        grid_distance(*self, *other)
    }

    /// The six adjacent cells, in the grid's neighbour order.
    pub fn neighbors(&self) -> (r: Vec<HexCoord>)
        requires
            in_bounds(*self),
        ensures
            r@.len() == 6,
            forall|i: int| 0 <= i < 6 ==> #[trigger] r@[i] == offset_by(*self, neighbor_offsets()[i]),
            forall|i: int| 0 <= i < 6 ==> adjacent(*self, #[trigger] r@[i]),
    {
        let r = grid_neighbors(*self);
        assert forall|i: int| 0 <= i < 6 implies adjacent(*self, #[trigger] r@[i]) by {
            assert(r@[i] == offset_by(*self, neighbor_offsets()[i]));
        }
        r
    }

    /// The cells at exactly `radius` steps, computed afresh on each call.
    pub fn ring(&self, radius: u32) -> (r: Vec<HexCoord>)
        requires
            in_bounds(*self),
            radius <= RADIUS_LIMIT,
        ensures
            r@.len() == if radius == 0 { 1 } else { 6 * radius },
            forall|i: int| 0 <= i < r@.len() ==> hex_distance(*self, #[trigger] r@[i]) == radius,
            forall|h: HexCoord| hex_distance(*self, h) == radius ==> r@.contains(h),
    {
        grid_ring(*self, radius)
    }

    /// Every cell within `radius` steps of `self`, each once.
    pub fn hexagon(&self, radius: u32) -> (r: Vec<HexCoord>)
        requires
            in_bounds(*self),
            radius <= RADIUS_LIMIT,
        ensures
            r@.len() == 3 * radius * (radius + 1) + 1,
            r@.no_duplicates(),
            forall|i: int| 0 <= i < r@.len() ==> hex_distance(*self, #[trigger] r@[i]) <= radius,
            forall|h: HexCoord| hex_distance(*self, h) <= radius ==> r@.contains(h),
    {
        grid_hexagon(*self, radius)
    }

    /// The lattice point of this cell's centre.
    pub fn lattice(&self) -> (p: LatticePoint)
        requires
            in_bounds(*self),
        ensures
            p == lattice_of(*self),
    {
        LatticePoint { x: 3 * (self.q as i64), y: self.q as i64 + 2 * (self.r as i64) }
    }
}

} // verus!
