use vstd::prelude::*;

verus! {

/// A step between squares, as a change of square index.
#[derive(Clone, Copy, Debug)]
pub struct Direction(pub i8);

pub const NORTH: i8 = 8;
pub const SOUTH: i8 = -8;
pub const EAST: i8 = 1;
pub const WEST: i8 = -1;
pub const NORTHEAST: i8 = 9;
pub const NORTHWEST: i8 = 7;
pub const SOUTHEAST: i8 = -7;
pub const SOUTHWEST: i8 = -9;

} // verus!
