//! The value types: a zone and the restriction counts attached to it.

use vstd::prelude::*;

verus! {

/// Four independent counts attached to a zone. No query reads them.
#[derive(Clone, Copy, Debug, PartialEq, Eq, Structural)]
pub struct Restriction {
    pub type_1: u32,
    pub type_2: u32,
    pub type_3: u32,
    pub type_4: u32,
}

impl Restriction {
    /// The restriction with every count zero.
    pub open spec fn zero() -> Restriction {
        Restriction { type_1: 0, type_2: 0, type_3: 0, type_4: 0 }
    }

    pub fn new(type_1: u32, type_2: u32, type_3: u32, type_4: u32) -> (r: Restriction)
        ensures
            r == (Restriction { type_1, type_2, type_3, type_4 }),
    {
        Restriction { type_1, type_2, type_3, type_4 }
    }
}

impl Default for Restriction {
    fn default() -> (r: Restriction)
        ensures
            r == Restriction::zero(),
    {
        Restriction { type_1: 0, type_2: 0, type_3: 0, type_4: 0 }
    }
}

/// A point-like zone on the grid.
///
/// Two zones are equal when all four fields are equal; sharing a position is
/// not enough.
#[derive(Clone, Copy, Debug, PartialEq, Eq, Structural)]
pub struct Zone {
    pub x: i32,
    pub y: i32,
    pub restriction: Restriction,
    /// Set on the last zone of a constructed sequence, and on no other.
    pub is_end_zone: bool,
}

impl Zone {
    /// The neutral zone: the origin, no restrictions, not an end zone.
    pub open spec fn sentinel() -> Zone {
        Zone { x: 0, y: 0, restriction: Restriction::zero(), is_end_zone: false }
    }

    /// Whether two zones occupy the same grid position.
    pub open spec fn same_position(self, other: Zone) -> bool {
        self.x == other.x && self.y == other.y
    }

    pub fn new(x: i32, y: i32, restriction: Restriction) -> (z: Zone)
        ensures
            z == (Zone { x, y, restriction, is_end_zone: false }),
    {
        Zone { x, y, restriction, is_end_zone: false }
    }
}

impl Default for Zone {
    fn default() -> (z: Zone)
        ensures
            z == Zone::sentinel(),
    {
        Zone { x: 0, y: 0, restriction: Restriction::default(), is_end_zone: false }
    }
}

} // verus!
