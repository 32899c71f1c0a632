//! Errors returned by board operations.
//!
//! Every fallible operation hands the error back to the caller and leaves the
//! board unchanged; nothing here is fatal during normal play.

use vstd::prelude::*;

use crate::geometry::Coordinate;

verus! {

#[derive(Clone, Copy, Debug, PartialEq, Eq, Structural)]
pub enum GamePlayError {
    /// The coordinate lies beyond the grid extent.
    OutSideBoardDimensions { position: Coordinate },
    /// The coordinate addresses a void cell inside the grid.
    InvalidPosition { position: Coordinate },
    /// The player index is not below the configured player count.
    NonExistentPlayer { index: usize },
    /// Both swap targets are the same cell.
    SelfSwap,
    /// The swap targets are not connected under the contiguous policy.
    DisjointSwap,
    /// A swap target cell holds no tile.
    UnoccupiedSwap,
    /// A swap target is occupied by a different player.
    UnownedSwap,
    /// A swap was attempted while swapping is disabled.
    NoSwapping,
    /// Word-string extraction hit an empty or invalid cell.
    EmptySquareInWord,
}

} // verus!
