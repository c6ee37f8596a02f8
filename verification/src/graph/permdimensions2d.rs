use vstd::prelude::*;

verus! {

/// A point of the protocol plane: both coordinates span the whole `u128` range.
#[derive(Debug, Clone, Copy)]
pub struct MapPoint {
    pub x: u128,
    pub y: u128,
}

impl MapPoint {
    /// The point `(x, y)`.
    pub fn new(x: u128, y: u128) -> (p: Self)
        ensures
            p.x == x,
            p.y == y,
    {
        MapPoint { x, y }
    }
}

} // verus!
