//! Points of interest on the map.

use vstd::prelude::*;

use crate::binary32::Binary32;

verus! {

/// What a point of interest offers.
#[derive(Clone, Copy, Debug, PartialEq, Eq, Hash, Structural)]
pub enum ResourceKind {
    Mineral,
    Flower,
    Star,
}

impl ResourceKind {
    /// Every kind, in the order in which they are shown.
    pub const ALL: [ResourceKind; 3] = [
        ResourceKind::Mineral,
        ResourceKind::Flower,
        ResourceKind::Star,
    ];

    /// The name shown beside its check box.
    pub fn label(self) -> (r: &'static str)
        ensures
            r@ == match self {
                ResourceKind::Mineral => "矿物"@,
                ResourceKind::Flower => "花朵"@,
                ResourceKind::Star => "星星"@,
            },
    {
        match self {
            ResourceKind::Mineral => "矿物",
            ResourceKind::Flower => "花朵",
            ResourceKind::Star => "星星",
        }
    }

    /// Where the kind stands in [`ResourceKind::ALL`].
    pub open spec fn place(self) -> int {
        match self {
            ResourceKind::Mineral => 0,
            ResourceKind::Flower => 1,
            ResourceKind::Star => 2,
        }
    }

    /// Where the kind stands in [`ResourceKind::ALL`].
    pub fn index(self) -> (r: usize)
        ensures
            r == self.place(),
            r < 3,
            ResourceKind::ALL[r as int] == self,
    {
        match self {
            ResourceKind::Mineral => 0,
            ResourceKind::Flower => 1,
            ResourceKind::Star => 2,
        }
    }
}

/// A point of interest, in pixels of the map.
#[derive(Clone, Copy, Debug, PartialEq, Eq, Structural)]
pub struct Resource {
    pub x: Binary32,
    pub y: Binary32,
    pub kind: ResourceKind,
}

} // verus!
