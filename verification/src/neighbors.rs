//! Compass directions and the eight neighbors of a cell.

use vstd::prelude::*;

use crate::fix::{Fix, UNIT_BITS};
use crate::GeoHash;

verus! {

/// The eight geohashes adjacent to a cell, one per compass direction, all of
/// the same length as the cell's own hash.
#[derive(Clone, Debug, PartialEq)]
pub struct Neighbors<const LEN: usize> {
    pub sw: GeoHash<LEN>,
    pub s: GeoHash<LEN>,
    pub se: GeoHash<LEN>,
    pub w: GeoHash<LEN>,
    pub e: GeoHash<LEN>,
    pub nw: GeoHash<LEN>,
    pub n: GeoHash<LEN>,
    pub ne: GeoHash<LEN>,
}

/// A compass direction.
#[derive(Clone, Copy, Debug, PartialEq, Eq, Structural)]
pub enum Direction {
    /// North
    N,
    /// North-east
    NE,
    /// East
    E,
    /// South-east
    SE,
    /// South
    S,
    /// South-west
    SW,
    /// West
    W,
    /// North-west
    NW,
}

/// The latitude step of a direction: +1 toward the north pole, -1 toward
/// the south pole, 0 for due east or west.
pub open spec fn dlat_sign(d: Direction) -> int {
    match d {
        Direction::N | Direction::NE | Direction::NW => 1,
        Direction::E | Direction::W => 0,
        Direction::S | Direction::SE | Direction::SW => -1,
    }
}

/// The longitude step of a direction: +1 eastward, -1 westward, 0 for due
/// north or south.
pub open spec fn dlon_sign(d: Direction) -> int {
    match d {
        Direction::E | Direction::NE | Direction::SE => 1,
        Direction::N | Direction::S => 0,
        Direction::W | Direction::NW | Direction::SW => -1,
    }
}

impl Direction {
    /// The unit step of the direction in (latitude, longitude) order, as
    /// fixed-point numbers with value -1, 0 or 1.
    pub fn to_tuple(self) -> (r: (Fix, Fix))
        ensures
            r.0@ == dlat_sign(self) * (UNIT_BITS as int),
            r.1@ == dlon_sign(self) * (UNIT_BITS as int),
    {
        let minus_one = Fix::from_bits(-UNIT_BITS);
        let zero = Fix::from_bits(0);
        let one = Fix::from_bits(UNIT_BITS);
        match self {
            Direction::SW => (minus_one, minus_one),
            Direction::S => (minus_one, zero),
            Direction::SE => (minus_one, one),
            Direction::W => (zero, minus_one),
            Direction::E => (zero, one),
            Direction::NW => (one, minus_one),
            Direction::N => (one, zero),
            Direction::NE => (one, one),
        }
    }
}

} // verus!
