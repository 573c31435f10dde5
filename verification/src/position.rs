use vstd::prelude::*;
use crate::exact::Exact;

verus! {

/// A point on the fixed-point coordinate grid.
///
/// Both coordinates count steps of one ten-millionth of a degree, so two
/// positions are the same point exactly when their fields are equal: no
/// rounding can split one point into two.
#[derive(Clone, Copy, Debug, Hash, PartialEq, Eq, Structural)]
pub struct Position {
    /// Easting (longitude) in grid steps.
    pub x: i32,
    /// Northing (latitude) in grid steps.
    pub y: i32,
}

impl Position {
    /// The position with the given grid coordinates.
    pub fn new(x: i32, y: i32) -> (p: Self)
        ensures
            p == (Position { x, y }),
    {
        Position { x, y }
    }
}

impl Exact for Position {
    fn same(&self, other: &Self) -> (r: bool) {
        self.x == other.x && self.y == other.y
    }
}

} // verus!
