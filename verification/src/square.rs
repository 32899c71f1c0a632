//! The tri-state cell: void, empty, or occupied by a player's letter.
//!
//! A void cell is not part of playable territory; an empty cell accepts a
//! tile; an occupied cell records the owning player index and one letter.
//! Void is represented as `None` in the grid, so `Square` itself only
//! distinguishes empty from occupied.

use vstd::prelude::*;

use crate::geometry::Direction;

verus! {

#[derive(Clone, Copy, Debug, PartialEq, Eq, Structural)]
pub enum Square {
    Empty,
    Occupied(usize, char),
}

/// The glyph shown for an upper-case letter when its owner reads the board
/// upside down. Letters with a symmetric shape map to themselves; stored
/// letter identity is never altered, this applies at presentation time only.
pub open spec fn spec_flip(c: char) -> char {
    match c {
        'A' => '∀',
        'B' => 'ꓭ',
        'C' => 'Ͻ',
        'D' => 'ᗡ',
        'E' => 'Ǝ',
        'F' => 'ᖵ',
        'G' => '⅁',
        'H' => 'H',
        'I' => 'I',
        'J' => 'ᒋ',
        'K' => 'ꓘ',
        'L' => '⅂',
        'M' => 'ꟽ',
        'N' => 'N',
        'O' => 'O',
        'P' => 'Ԁ',
        'Q' => 'Ꝺ',
        'R' => 'ꓤ',
        'S' => 'S',
        'T' => 'ꓕ',
        'U' => 'Ո',
        'V' => 'Ʌ',
        'W' => 'Ϻ',
        'X' => 'X',
        'Y' => '⅄',
        'Z' => 'Z',
        _ => c,
    }
}

impl Square {
    /// The single character this square contributes to an oriented rendering:
    /// `_` for an empty square, the letter for an occupied one, mirrored when
    /// the owner sits at the north side of the board.
    pub open spec fn spec_oriented_char(self, orientations: Seq<Direction>) -> char {
        match self {
            Square::Empty => '_',
            Square::Occupied(player, tile) => if orientations[player as int]
                == Direction::North {
                spec_flip(tile)
            } else {
                tile
            },
        }
    }

    pub fn flip(character: &char) -> (r: char)
        requires
            'A' <= *character && *character <= 'Z',
        ensures
            r == spec_flip(*character),
    {
        match *character {
            'A' => '∀',
            'B' => 'ꓭ',
            'C' => 'Ͻ',
            'D' => 'ᗡ',
            'E' => 'Ǝ',
            'F' => 'ᖵ',
            'G' => '⅁',
            'H' => 'H',
            'I' => 'I',
            'J' => 'ᒋ',
            'K' => 'ꓘ',
            'L' => '⅂',
            'M' => 'ꟽ',
            'N' => 'N',
            'O' => 'O',
            'P' => 'Ԁ',
            'Q' => 'Ꝺ',
            'R' => 'ꓤ',
            'S' => 'S',
            'T' => 'ꓕ',
            'U' => 'Ո',
            'V' => 'Ʌ',
            'W' => 'Ϻ',
            'X' => 'X',
            'Y' => '⅄',
            'Z' => 'Z',
            _ => *character,
        }
    }

    /// Renders this square for the given player orientations: one character,
    /// mirrored for players seated at the north side.
    pub fn to_oriented_string(&self, orientations: &Vec<Direction>) -> (r: String)
        requires
            *self matches Square::Occupied(player, tile) ==> player < orientations@.len() && (
            orientations@[player as int] == Direction::North ==> 'A' <= tile && tile <= 'Z'),
        ensures
            r@ == seq![self.spec_oriented_char(orientations@)],
    {
        let mut s = String::new();
        match self {
            Square::Empty => {
                crate::strutil::push_char(&mut s, '_');
            },
            Square::Occupied(player, tile) => {
                if orientations[*player] == Direction::North {
                    crate::strutil::push_char(&mut s, Self::flip(tile));
                } else {
                    crate::strutil::push_char(&mut s, *tile);
                }
            },
        }
        proof {
            assert(s@ =~= seq![self.spec_oriented_char(orientations@)]);
        }
        s
    }
}

} // verus!
