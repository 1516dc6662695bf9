//! Directions of movement: any combination of the four ways to lean.

use vstd::prelude::*;
use crate::fixed::{Vec3, Vector, MILLI};

verus! {

/// A set of the four ways to lean. Opposite ways cancel.
#[derive(Clone, Copy, Debug, PartialEq, Eq, Structural)]
pub struct Direction {
    pub up: bool,
    pub down: bool,
    pub left: bool,
    pub right: bool,
}

impl Direction {
    /// Whole units forward: one for up, minus one for down.
    pub open spec fn forward(self) -> int {
        (if self.up {
            1int
        } else {
            0int
        }) - (if self.down {
            1int
        } else {
            0int
        })
    }

    /// Whole units to the right: one for right, minus one for left.
    pub open spec fn sideways(self) -> int {
        (if self.right {
            1int
        } else {
            0int
        }) - (if self.left {
            1int
        } else {
            0int
        })
    }

    /// The direction as a vector in the ground plane: forward is `x`, right is `z`.
    pub open spec fn vector(self) -> Vector {
        Vector { x: self.forward() * MILLI, y: 0, z: self.sideways() * MILLI }
    }

    /// No way at all.
    pub fn neutral() -> (d: Direction)
        ensures
            d == (Direction { up: false, down: false, left: false, right: false }),
    {
        Direction { up: false, down: false, left: false, right: false }
    }

    /// Forward only.
    pub fn up() -> (d: Direction)
        ensures
            d == (Direction { up: true, down: false, left: false, right: false }),
    {
        Direction { up: true, down: false, left: false, right: false }
    }

    /// Backward only.
    pub fn down() -> (d: Direction)
        ensures
            d == (Direction { up: false, down: true, left: false, right: false }),
    {
        Direction { up: false, down: true, left: false, right: false }
    }

    /// To the left only.
    pub fn left() -> (d: Direction)
        ensures
            d == (Direction { up: false, down: false, left: true, right: false }),
    {
        Direction { up: false, down: false, left: true, right: false }
    }

    /// To the right only.
    pub fn right() -> (d: Direction)
        ensures
            d == (Direction { up: false, down: false, left: false, right: true }),
    {
        Direction { up: false, down: false, left: false, right: true }
    }

    /// Every way that is in either direction.
    pub fn union(self, other: Direction) -> (d: Direction)
        ensures
            d.up == (self.up || other.up),
            d.down == (self.down || other.down),
            d.left == (self.left || other.left),
            d.right == (self.right || other.right),
    {
        Direction {
            up: self.up || other.up,
            down: self.down || other.down,
            left: self.left || other.left,
            right: self.right || other.right,
        }
    }

    /// Whether this is no way at all.
    pub fn is_neutral(&self) -> (b: bool)
        ensures
            b == (*self == (Direction { up: false, down: false, left: false, right: false })),
    {
        !self.up && !self.down && !self.left && !self.right
    }

    /// The direction as a vector in the ground plane.
    pub fn to_vec3(self) -> (v: Vec3)
        ensures
            v@ == self.vector(),
    {
        let forward: i64 = (if self.up {
            1i64
        } else {
            0i64
        }) - (if self.down {
            1i64
        } else {
            0i64
        });
        let sideways: i64 = (if self.right {
            1i64
        } else {
            0i64
        }) - (if self.left {
            1i64
        } else {
            0i64
        });
        Vec3 { x: forward * MILLI, y: 0, z: sideways * MILLI }
    }
}

} // verus!
