//! Compass directions and quarter-turn rotations.

use vstd::prelude::*;

verus! {

/// A quarter-turn rotation, or none, or a half turn.
#[derive(Debug, Clone, Copy, PartialEq, Eq, Structural)]
pub enum Rotation {
    Identity,
    CounterClockwise,
    Half,
    Clockwise,
}

/// One of the four compass directions.
#[derive(Debug, Clone, Copy, PartialEq, Eq, Structural, Hash)]
pub enum Direction {
    E,
    N,
    W,
    S,
}

/// Number of counterclockwise quarter turns a rotation stands for.
pub open spec fn quarter_turns(r: Rotation) -> int {
    match r {
        Rotation::Identity => 0,
        Rotation::CounterClockwise => 1,
        Rotation::Half => 2,
        Rotation::Clockwise => 3,
    }
}

/// The rotation of a given number of counterclockwise quarter turns.
pub open spec fn rotation_of_turns(t: int) -> Rotation {
    let m = t % 4;
    if m == 0 {
        Rotation::Identity
    } else if m == 1 {
        Rotation::CounterClockwise
    } else if m == 2 {
        Rotation::Half
    } else {
        Rotation::Clockwise
    }
}

/// Position of a direction counterclockwise from east, in quarter turns.
pub open spec fn dir_turns(d: Direction) -> int {
    match d {
        Direction::E => 0,
        Direction::N => 1,
        Direction::W => 2,
        Direction::S => 3,
    }
}

pub open spec fn dir_of_turns(t: int) -> Direction {
    let m = t % 4;
    if m == 0 {
        Direction::E
    } else if m == 1 {
        Direction::N
    } else if m == 2 {
        Direction::W
    } else {
        Direction::S
    }
}

impl Rotation {
    pub open spec fn spec_inverse(self) -> Rotation {
        rotation_of_turns(4 - quarter_turns(self))
    }

    /// The rotation that undoes this one.
    pub fn inverse(self) -> (r: Rotation)
        ensures
            r == self.spec_inverse(),
            quarter_turns(r) == (4 - quarter_turns(self)) % 4,
    {
        match self {
            Rotation::Identity => Rotation::Identity,
            Rotation::CounterClockwise => Rotation::Clockwise,
            Rotation::Half => Rotation::Half,
            Rotation::Clockwise => Rotation::CounterClockwise,
        }
    }

    pub open spec fn spec_rotated(self, other: Rotation) -> Rotation {
        rotation_of_turns(quarter_turns(self) + quarter_turns(other))
    }

    /// This rotation followed by another.
    pub fn rotated(self, other: Rotation) -> (r: Rotation)
        ensures
            r == self.spec_rotated(other),
    {
        match (self, other) {
            (Rotation::Identity, x) => x,
            (x, Rotation::Identity) => x,
            (Rotation::Half, Rotation::Half) => Rotation::Identity,
            (Rotation::Half, x) => x.inverse(),
            (x, Rotation::Half) => x.inverse(),
            (Rotation::CounterClockwise, Rotation::CounterClockwise) => Rotation::Half,
            (Rotation::CounterClockwise, Rotation::Clockwise) => Rotation::Identity,
            (Rotation::Clockwise, Rotation::CounterClockwise) => Rotation::Identity,
            (Rotation::Clockwise, Rotation::Clockwise) => Rotation::Half,
        }
    }
}

impl Direction {
    pub open spec fn spec_inverse(self) -> Direction {
        dir_of_turns(dir_turns(self) + 2)
    }

    /// The opposite direction.
    pub fn inverse(self) -> (r: Direction)
        ensures
            r == self.spec_inverse(),
    {
        match self {
            Direction::E => Direction::W,
            Direction::N => Direction::S,
            Direction::W => Direction::E,
            Direction::S => Direction::N,
        }
    }

    pub open spec fn spec_rotated(self, rotation: Rotation) -> Direction {
        dir_of_turns(dir_turns(self) + quarter_turns(rotation))
    }

    /// This direction turned by a rotation.
    pub fn rotated(self, rotation: Rotation) -> (r: Direction)
        ensures
            r == self.spec_rotated(rotation),
    {
        match (self, rotation) {
            (Direction::E, Rotation::Identity) => Direction::E,
            (Direction::E, Rotation::CounterClockwise) => Direction::N,
            (Direction::E, Rotation::Half) => Direction::W,
            (Direction::E, Rotation::Clockwise) => Direction::S,
            (Direction::N, Rotation::Identity) => Direction::N,
            (Direction::N, Rotation::CounterClockwise) => Direction::W,
            (Direction::N, Rotation::Half) => Direction::S,
            (Direction::N, Rotation::Clockwise) => Direction::E,
            (Direction::W, Rotation::Identity) => Direction::W,
            (Direction::W, Rotation::CounterClockwise) => Direction::S,
            (Direction::W, Rotation::Half) => Direction::E,
            (Direction::W, Rotation::Clockwise) => Direction::N,
            (Direction::S, Rotation::Identity) => Direction::S,
            (Direction::S, Rotation::CounterClockwise) => Direction::E,
            (Direction::S, Rotation::Half) => Direction::N,
            (Direction::S, Rotation::Clockwise) => Direction::W,
        }
    }

    /// All four directions in their fixed order: east, north, west, south.
    pub fn all() -> (r: [Direction; 4])
        ensures
            r@ == seq![Direction::E, Direction::N, Direction::W, Direction::S],
    {
        [Direction::E, Direction::N, Direction::W, Direction::S]
    }
}

} // verus!
