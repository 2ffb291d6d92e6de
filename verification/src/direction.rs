//! The six axis-aligned directions in which a room can have a neighbor.

use vstd::prelude::*;

verus! {

/// One of the six faces of a room. `Up`/`Down` step along the y axis,
/// `North`/`South` along the z axis and `East`/`West` along the x axis.
#[derive(Clone, Copy, Debug, PartialEq, Eq, Structural)]
pub enum Direction {
    Up,
    Down,
    North,
    South,
    East,
    West,
}

/// Number of directions.
pub const DIRECTION_COUNT: usize = 6;

impl Direction {
    /// The direction pointing the other way along the same axis.
    pub open spec fn spec_opposite(&self) -> Direction {
        match self {
            Direction::Up => Direction::Down,
            Direction::Down => Direction::Up,
            Direction::North => Direction::South,
            Direction::South => Direction::North,
            Direction::East => Direction::West,
            Direction::West => Direction::East,
        }
    }

    /// Position of the direction in the fixed order
    /// Up, Down, North, South, East, West.
    pub open spec fn spec_index(&self) -> usize {
        match self {
            Direction::Up => 0,
            Direction::Down => 1,
            Direction::North => 2,
            Direction::South => 3,
            Direction::East => 4,
            Direction::West => 5,
        }
    }

    /// The direction stored at `idx` in the fixed order. Indices past the
    /// last direction have no meaning; they are mapped to `West`.
    pub open spec fn spec_from_index(idx: usize) -> Direction {
        if idx == 0 {
            Direction::Up
        } else if idx == 1 {
            Direction::Down
        } else if idx == 2 {
            Direction::North
        } else if idx == 3 {
            Direction::South
        } else if idx == 4 {
            Direction::East
        } else {
            Direction::West
        }
    }

    /// True for the four directions that stay on the same floor.
    pub open spec fn spec_is_lateral(&self) -> bool {
        *self != Direction::Up && *self != Direction::Down
    }

    /// True for the three directions (Up, North, East) that increase a
    /// coordinate. Every pair of adjacent rooms is joined by exactly one
    /// such direction.
    pub open spec fn spec_is_forward(&self) -> bool {
        *self == Direction::Up || *self == Direction::North || *self == Direction::East
    }

    /// The direction pointing the other way along the same axis.
    #[verifier::when_used_as_spec(spec_opposite)]
    pub fn opposite(&self) -> (r: Direction)
        ensures
            r == self.spec_opposite(),
    {
        match self {
            Direction::Up => Direction::Down,
            Direction::Down => Direction::Up,
            Direction::North => Direction::South,
            Direction::South => Direction::North,
            Direction::East => Direction::West,
            Direction::West => Direction::East,
        }
    }

    /// Position of the direction in the fixed order.
    #[verifier::when_used_as_spec(spec_index)]
    pub fn index(&self) -> (r: usize)
        ensures
            r == self.spec_index(),
            r < DIRECTION_COUNT,
    {
        match self {
            Direction::Up => 0,
            Direction::Down => 1,
            Direction::North => 2,
            Direction::South => 3,
            Direction::East => 4,
            Direction::West => 5,
        }
    }

    /// The direction at `idx` in the fixed order. There are six
    /// directions, so `idx` has to be below six.
    #[verifier::when_used_as_spec(spec_from_index)]
    pub fn from_index(idx: usize) -> (r: Direction)
        requires
            idx < DIRECTION_COUNT,
        ensures
            r == Direction::spec_from_index(idx),
            r.index() == idx,
    {
        if idx == 0 {
            Direction::Up
        } else if idx == 1 {
            Direction::Down
        } else if idx == 2 {
            Direction::North
        } else if idx == 3 {
            Direction::South
        } else if idx == 4 {
            Direction::East
        } else {
            Direction::West
        }
    }

    /// Whether the direction stays on the same floor.
    #[verifier::when_used_as_spec(spec_is_lateral)]
    pub fn is_lateral(&self) -> (r: bool)
        ensures
            r == self.spec_is_lateral(),
    {
        !(*self == Direction::Up || *self == Direction::Down)
    }

    /// Whether the direction is Up, North or East.
    #[verifier::when_used_as_spec(spec_is_forward)]
    pub fn is_forward(&self) -> (r: bool)
        ensures
            r == self.spec_is_forward(),
    {
        *self == Direction::Up || *self == Direction::North || *self == Direction::East
    }
}

/// Taking the opposite twice gives the direction back, and no direction is
/// its own opposite.
pub proof fn opposite_is_involution(d: Direction)
    ensures
        d.opposite().opposite() == d,
        d.opposite() != d,
{
}

/// `opposite` is a permutation of the six directions: distinct directions
/// have distinct opposites, and every direction is the opposite of one.
pub proof fn opposite_is_permutation(a: Direction, b: Direction)
    ensures
        a.opposite() == b.opposite() <==> a == b,
        exists|c: Direction| c.opposite() == a,
{
    assert(a.opposite().opposite() == a);
}

/// `index` and `from_index` are inverse to each other on the six directions
/// and the six indices below `DIRECTION_COUNT`.
pub proof fn index_round_trips(d: Direction, idx: usize)
    ensures
        Direction::from_index(d.index()) == d,
        d.index() < DIRECTION_COUNT,
        idx < DIRECTION_COUNT ==> Direction::from_index(idx).index() == idx,
{
}

/// Exactly one of a direction and its opposite is forward.
pub proof fn forward_or_opposite_forward(d: Direction)
    ensures
        d.is_forward() != d.opposite().is_forward(),
        d.is_lateral() == d.opposite().is_lateral(),
{
}

} // verus!
