use vstd::prelude::*;
use crate::actions::CWRotation;

verus! {

/// A character on the grid: where it stands and which way it faces.
#[derive(Debug, Clone, Copy, PartialEq, Eq, Hash)]
pub struct Player {
    pub position: (i32, i32),
    pub rotation: CWRotation,
}

impl Player {
    /// The position as a pair of mathematical integers.
    pub open spec fn pos(self) -> (int, int) {
        (self.position.0 as int, self.position.1 as int)
    }

    /// Whether the two players stand on the same coordinates with the same
    /// facing.
    pub fn same_as(&self, other: &Player) -> (r: bool)
        ensures
            r == (*self == *other),
    {
        self.position.0 == other.position.0 && self.position.1 == other.position.1
            && self.rotation == other.rotation
    }
}

} // verus!
