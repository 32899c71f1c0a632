//! Coordinates and the eight compass directions.
//!
//! A coordinate is an unsigned (x, y) pair: x grows rightward, y grows
//! downward. Stepping west or north of zero clamps to zero rather than
//! failing; callers bounds-check through the board instead.

use vstd::prelude::*;

verus! {

#[derive(Clone, Copy, Debug, PartialEq, Eq, Structural)]
pub enum Direction {
    NorthWest,
    North,
    NorthEast,
    East,
    SouthEast,
    South,
    SouthWest,
    West,
}

impl Direction {
    pub open spec fn spec_opposite(self) -> Direction {
        match self {
            Direction::NorthWest => Direction::SouthEast,
            Direction::North => Direction::South,
            Direction::NorthEast => Direction::SouthWest,
            Direction::East => Direction::West,
            Direction::SouthEast => Direction::NorthWest,
            Direction::South => Direction::North,
            Direction::SouthWest => Direction::NorthEast,
            Direction::West => Direction::East,
        }
    }

    pub fn opposite(self) -> (r: Self)
        ensures
            r == self.spec_opposite(),
    {
        match self {
            Direction::NorthWest => Direction::SouthEast,
            Direction::North => Direction::South,
            Direction::NorthEast => Direction::SouthWest,
            Direction::East => Direction::West,
            Direction::SouthEast => Direction::NorthWest,
            Direction::South => Direction::North,
            Direction::SouthWest => Direction::NorthEast,
            Direction::West => Direction::East,
        }
    }

    /// Whether a player seated at this side of the board reads vertical
    /// words from top to bottom.
    pub open spec fn spec_read_top_to_bottom(self) -> bool {
        self == Direction::South || self == Direction::West
    }

    pub(crate) fn read_top_to_bottom(self) -> (r: bool)
        ensures
            r == self.spec_read_top_to_bottom(),
    {
        matches!(self, Direction::South | Direction::West)
    }

    /// Whether a player seated at this side of the board reads horizontal
    /// words from left to right.
    pub open spec fn spec_read_left_to_right(self) -> bool {
        self == Direction::South || self == Direction::East
    }

    pub(crate) fn read_left_to_right(self) -> (r: bool)
        ensures
            r == self.spec_read_left_to_right(),
    {
        matches!(self, Direction::South | Direction::East)
    }
}

#[derive(Clone, Copy, Debug, PartialEq, Eq, Hash, PartialOrd, Ord, Structural)]
pub struct Coordinate {
    pub x: usize,
    pub y: usize,
}

impl Coordinate {
    pub fn new(x: usize, y: usize) -> (r: Self)
        ensures
            r == (Coordinate { x, y }),
    {
        Self { x, y }
    }

    /// One step in the given direction; x and y decrements clamp at zero
    /// instead of leaving the coordinate space.
    pub open spec fn spec_add(self, direction: Direction) -> Coordinate {
        Coordinate {
            x: match direction {
                Direction::West | Direction::NorthWest | Direction::SouthWest => if self.x == 0 {
                    0usize
                } else {
                    (self.x - 1) as usize
                },
                Direction::East | Direction::NorthEast | Direction::SouthEast => (self.x
                    + 1) as usize,
                Direction::North | Direction::South => self.x,
            },
            y: match direction {
                Direction::North | Direction::NorthEast | Direction::NorthWest => if self.y == 0 {
                    0usize
                } else {
                    (self.y - 1) as usize
                },
                Direction::South | Direction::SouthEast | Direction::SouthWest => (self.y
                    + 1) as usize,
                Direction::East | Direction::West => self.y,
            },
        }
    }

    pub fn add(self, direction: Direction) -> (r: Coordinate)
        requires
            (direction == Direction::East || direction == Direction::NorthEast || direction
                == Direction::SouthEast) ==> self.x < usize::MAX,
            (direction == Direction::South || direction == Direction::SouthEast || direction
                == Direction::SouthWest) ==> self.y < usize::MAX,
        ensures
            r == self.spec_add(direction),
    {
        Coordinate {
            x: match direction {
                Direction::West | Direction::NorthWest | Direction::SouthWest => if self.x == 0 {
                    0
                } else {
                    self.x - 1
                },
                Direction::East | Direction::NorthEast | Direction::SouthEast => self.x + 1,
                Direction::North | Direction::South => self.x,
            },
            y: match direction {
                Direction::North | Direction::NorthEast | Direction::NorthWest => if self.y == 0 {
                    0
                } else {
                    self.y - 1
                },
                Direction::South | Direction::SouthEast | Direction::SouthWest => self.y + 1,
                Direction::East | Direction::West => self.y,
            },
        }
    }

    /// The four orthogonal neighbours, in North, East, South, West order.
    pub open spec fn spec_neighbors_4(self) -> Seq<Coordinate> {
        seq![
            self.spec_add(Direction::North),
            self.spec_add(Direction::East),
            self.spec_add(Direction::South),
            self.spec_add(Direction::West),
        ]
    }

    pub fn neighbors_4(&self) -> (r: [Coordinate; 4])
        requires
            self.x < usize::MAX,
            self.y < usize::MAX,
        ensures
            r@ == self.spec_neighbors_4(),
    {
        let r = [
            self.add(Direction::North),
            self.add(Direction::East),
            self.add(Direction::South),
            self.add(Direction::West),
        ];
        proof {
            assert(r@ =~= self.spec_neighbors_4());
        }
        r
    }

    /// All eight neighbours, from north-west going clockwise.
    pub open spec fn spec_neighbors_8(self) -> Seq<Coordinate> {
        seq![
            self.spec_add(Direction::NorthWest),
            self.spec_add(Direction::North),
            self.spec_add(Direction::NorthEast),
            self.spec_add(Direction::East),
            self.spec_add(Direction::SouthEast),
            self.spec_add(Direction::South),
            self.spec_add(Direction::SouthWest),
            self.spec_add(Direction::West),
        ]
    }

    pub fn neighbors_8(&self) -> (r: [Coordinate; 8])
        requires
            self.x < usize::MAX,
            self.y < usize::MAX,
        ensures
            r@ == self.spec_neighbors_8(),
    {
        let r = [
            self.add(Direction::NorthWest),
            self.add(Direction::North),
            self.add(Direction::NorthEast),
            self.add(Direction::East),
            self.add(Direction::SouthEast),
            self.add(Direction::South),
            self.add(Direction::SouthWest),
            self.add(Direction::West),
        ];
        proof {
            assert(r@ =~= self.spec_neighbors_8());
        }
        r
    }
}

} // verus!
