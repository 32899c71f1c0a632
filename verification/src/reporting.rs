//! Change events describing what a mutation did to a cell.
//!
//! These are value objects produced by board mutations for the benefit of
//! rendering and broadcast layers; the board never reads them back.

use vstd::prelude::*;

use crate::geometry::Coordinate;
use crate::square::Square;

verus! {

/// The cell a change touched, together with the relevant cell value:
/// the new value for additions and swaps, the prior value for removals.
#[derive(Clone, Copy, Debug, PartialEq, Eq, Structural)]
pub struct BoardChangeDetail {
    pub square: Square,
    pub coordinate: Coordinate,
}

#[derive(Clone, Copy, Debug, PartialEq, Eq, Structural)]
pub enum BoardChangeAction {
    Added,
    Swapped,
    Defeated,
    Truncated,
}

#[derive(Clone, Copy, Debug, PartialEq, Eq, Structural)]
pub struct BoardChange {
    pub detail: BoardChangeDetail,
    pub action: BoardChangeAction,
}

/// A change to the game as seen by outside consumers; the board engine only
/// ever produces board changes.
#[derive(Clone, Copy, Debug, PartialEq, Eq, Structural)]
pub enum Change {
    Board(BoardChange),
}

} // verus!
