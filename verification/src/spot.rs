//! Places and distances in the plane.

use vstd::prelude::*;

use crate::binary32::Binary32;

verus! {

/// A place, or the way from one place to another: across and down.
#[derive(Clone, Copy, Debug, PartialEq, Eq, Structural)]
pub struct Spot {
    pub x: Binary32,
    pub y: Binary32,
}

impl Spot {
    pub open spec fn plus_spec(self, way: Spot) -> Spot {
        Spot { x: self.x.plus(way.x), y: self.y.plus(way.y) }
    }

    /// The place at the end of a way.
    #[verifier::when_used_as_spec(plus_spec)]
    pub fn plus(self, way: Spot) -> (r: Spot)
        ensures
            r == self.plus_spec(way),
    {
        Spot { x: self.x.plus(way.x), y: self.y.plus(way.y) }
    }

    pub open spec fn minus_spec(self, start: Spot) -> Spot {
        Spot { x: self.x.minus(start.x), y: self.y.minus(start.y) }
    }

    /// The way from another place.
    #[verifier::when_used_as_spec(minus_spec)]
    pub fn minus(self, start: Spot) -> (r: Spot)
        ensures
            r == self.minus_spec(start),
    {
        Spot { x: self.x.minus(start.x), y: self.y.minus(start.y) }
    }

    pub open spec fn times_spec(self, k: Binary32) -> Spot {
        Spot { x: self.x.times(k), y: self.y.times(k) }
    }

    /// The way, so many times as long.
    #[verifier::when_used_as_spec(times_spec)]
    pub fn times(self, k: Binary32) -> (r: Spot)
        ensures
            r == self.times_spec(k),
    {
        Spot { x: self.x.times(k), y: self.y.times(k) }
    }

    pub open spec fn over_spec(self, k: Binary32) -> Spot {
        Spot { x: self.x.over(k), y: self.y.over(k) }
    }

    /// The way, so many times as short.
    #[verifier::when_used_as_spec(over_spec)]
    pub fn over(self, k: Binary32) -> (r: Spot)
        ensures
            r == self.over_spec(k),
    {
        Spot { x: self.x.over(k), y: self.y.over(k) }
    }

    pub open spec fn length_spec(self) -> Binary32 {
        self.x.times(self.x).plus(self.y.times(self.y)).sqrt()
    }

    /// How long the way is.
    #[verifier::when_used_as_spec(length_spec)]
    pub fn length(self) -> (r: Binary32)
        ensures
            r == self.length_spec(),
    {
        self.x.times(self.x).plus(self.y.times(self.y)).sqrt()
    }
}

/// A rectangle, by its upper left and its lower right corner.
#[derive(Clone, Copy, Debug, PartialEq, Eq, Structural)]
pub struct Area {
    pub min: Spot,
    pub max: Spot,
}

impl Area {
    pub open spec fn holds_spec(self, p: Spot) -> bool {
        self.min.x.le(p.x) && p.x.le(self.max.x) && self.min.y.le(p.y) && p.y.le(self.max.y)
    }

    /// Whether a place lies in the rectangle or on its edge.
    #[verifier::when_used_as_spec(holds_spec)]
    pub fn holds(self, p: Spot) -> (r: bool)
        ensures
            r == self.holds_spec(p),
    {
        self.min.x.le(p.x) && p.x.le(self.max.x) && self.min.y.le(p.y) && p.y.le(self.max.y)
    }

    pub open spec fn center_spec(self) -> Spot {
        Spot {
            x: self.min.x.plus(self.max.x).over(Binary32::two()),
            y: self.min.y.plus(self.max.y).over(Binary32::two()),
        }
    }

    /// The middle of the rectangle.
    #[verifier::when_used_as_spec(center_spec)]
    pub fn center(self) -> (r: Spot)
        ensures
            r == self.center_spec(),
    {
        Spot {
            x: self.min.x.plus(self.max.x).over(Binary32::two()),
            y: self.min.y.plus(self.max.y).over(Binary32::two()),
        }
    }
}

} // verus!
