//! A two-resolution additive grid coordinate model.

use vstd::prelude::*;

verus! {

/// A position along one axis, as an additive pair of integers.
///
/// The first component is the major location: one increment is one half of a
/// card's size along the axis. The second is the minor location: one increment
/// is one half of a card's identifying mark, so an offset of two minor units
/// fully reveals the suit and rank of the card below. Positive y is down,
/// positive x is right.
#[derive(Clone, Copy, PartialEq, Eq, Structural, Debug)]
pub struct GridValue(pub i32, pub i32);

impl GridValue {
    pub fn new(major: i32, minor: i32) -> (v: GridValue)
        ensures
            v == GridValue(major, minor),
    {
        GridValue(major, minor)
    }

    /// Component-wise addition.
    pub fn add(self, other: GridValue) -> (v: GridValue)
        requires
            i32::MIN <= self.0 + other.0 <= i32::MAX,
            i32::MIN <= self.1 + other.1 <= i32::MAX,
        ensures
            v == GridValue((self.0 + other.0) as i32, (self.1 + other.1) as i32),
    {
        GridValue(self.0 + other.0, self.1 + other.1)
    }

    /// Component-wise subtraction.
    pub fn sub(self, other: GridValue) -> (v: GridValue)
        requires
            i32::MIN <= self.0 - other.0 <= i32::MAX,
            i32::MIN <= self.1 - other.1 <= i32::MAX,
        ensures
            v == GridValue((self.0 - other.0) as i32, (self.1 - other.1) as i32),
    {
        GridValue(self.0 - other.0, self.1 - other.1)
    }
}

/// A full layout position: two axis coordinates plus a draw-order key.
/// At overlapping extents, a higher `sort` occludes a lower one.
#[derive(Clone, Copy, PartialEq, Eq, Structural, Debug)]
pub struct GridLocation {
    pub x: GridValue,
    pub y: GridValue,
    pub sort: i32,
}

impl GridLocation {
    pub fn new(x: GridValue, y: GridValue, sort: i32) -> (l: GridLocation)
        ensures
            l == (GridLocation { x, y, sort }),
    {
        GridLocation { x, y, sort }
    }

    /// Component-wise addition, including the draw-order key.
    pub fn add(self, other: GridLocation) -> (l: GridLocation)
        requires
            i32::MIN <= self.x.0 + other.x.0 <= i32::MAX,
            i32::MIN <= self.x.1 + other.x.1 <= i32::MAX,
            i32::MIN <= self.y.0 + other.y.0 <= i32::MAX,
            i32::MIN <= self.y.1 + other.y.1 <= i32::MAX,
            i32::MIN <= self.sort + other.sort <= i32::MAX,
        ensures
            l == (GridLocation {
                x: GridValue((self.x.0 + other.x.0) as i32, (self.x.1 + other.x.1) as i32),
                y: GridValue((self.y.0 + other.y.0) as i32, (self.y.1 + other.y.1) as i32),
                sort: (self.sort + other.sort) as i32,
            }),
    {
        GridLocation { x: self.x.add(other.x), y: self.y.add(other.y), sort: self.sort + other.sort }
    }

    /// Component-wise subtraction, including the draw-order key.
    pub fn sub(self, other: GridLocation) -> (l: GridLocation)
        requires
            i32::MIN <= self.x.0 - other.x.0 <= i32::MAX,
            i32::MIN <= self.x.1 - other.x.1 <= i32::MAX,
            i32::MIN <= self.y.0 - other.y.0 <= i32::MAX,
            i32::MIN <= self.y.1 - other.y.1 <= i32::MAX,
            i32::MIN <= self.sort - other.sort <= i32::MAX,
        ensures
            l == (GridLocation {
                x: GridValue((self.x.0 - other.x.0) as i32, (self.x.1 - other.x.1) as i32),
                y: GridValue((self.y.0 - other.y.0) as i32, (self.y.1 - other.y.1) as i32),
                sort: (self.sort - other.sort) as i32,
            }),
    {
        GridLocation { x: self.x.sub(other.x), y: self.y.sub(other.y), sort: self.sort - other.sort }
    }
}

} // verus!
