//! Grid positions and the cardinal-step relation between them.

use vstd::prelude::*;

verus! {

/// An immutable 2D grid position: `x` is the column, `y` is the row.
/// A value type: equality and hash are structural, and values are
/// copied freely and never mutated after creation.
#[derive(Clone, Copy, PartialEq, Eq, Hash, Structural, Debug)]
pub struct Coord {
    pub x: usize,
    pub y: usize,
}

/// Two positions differ by exactly one unit in exactly one axis:
/// a single cardinal (non-diagonal) step separates them.
pub open spec fn adjacent(a: Coord, b: Coord) -> bool {
    ||| (a.x == b.x && (a.y + 1 == b.y || b.y + 1 == a.y))
    ||| (a.y == b.y && (a.x + 1 == b.x || b.x + 1 == a.x))
}

/// One step west; meaningful only when `c.x > 0`.
pub open spec fn west_of(c: Coord) -> Coord {
    Coord { x: (c.x - 1) as usize, y: c.y }
}

/// One step north; meaningful only when `c.y > 0`.
pub open spec fn north_of(c: Coord) -> Coord {
    Coord { x: c.x, y: (c.y - 1) as usize }
}

/// One step south; meaningful only when `c.y + 1` is representable.
pub open spec fn south_of(c: Coord) -> Coord {
    Coord { x: c.x, y: (c.y + 1) as usize }
}

/// One step east; meaningful only when `c.x + 1` is representable.
pub open spec fn east_of(c: Coord) -> Coord {
    Coord { x: (c.x + 1) as usize, y: c.y }
}

} // verus!
