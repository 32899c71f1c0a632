//! Presentation-state builders for board rendering.
//!
//! These hold the flags a rendering layer reads when it draws a square or a
//! tile glyph; the drawing itself lives outside this crate. Each builder
//! method sets exactly one flag.

use vstd::prelude::*;

use crate::board::Board;
use crate::geometry::Coordinate;

verus! {

pub enum CharacterOrient {
    North,
    East,
    South,
    West,
}

/// One letter's display state: its glyph orientation and the highlights
/// that apply to it.
pub struct CharacterUI {
    pub letter: char,
    pub orientation: CharacterOrient,
    pub hovered: bool,
    pub active: bool,
    pub selected: bool,
    pub ghosted: bool,
    pub truncated: bool,
    pub defeated: bool,
    pub gone: bool,
}

impl CharacterUI {
    pub fn new(letter: char, orientation: CharacterOrient) -> (r: Self)
        ensures
            r.letter == letter,
            r.orientation == orientation,
            !r.hovered && r.active && !r.selected && !r.ghosted && !r.truncated && !r.defeated
                && !r.gone,
    {
        Self {
            letter,
            orientation,
            hovered: false,
            active: true,
            selected: false,
            ghosted: false,
            truncated: false,
            defeated: false,
            gone: false,
        }
    }

    pub fn hovered(self, hovered: bool) -> (r: Self)
        ensures
            r == (Self { hovered, ..self }),
    {
        Self { hovered, ..self }
    }

    pub fn selected(self, selected: bool) -> (r: Self)
        ensures
            r == (Self { selected, ..self }),
    {
        Self { selected, ..self }
    }

    pub fn active(self, active: bool) -> (r: Self)
        ensures
            r == (Self { active, ..self }),
    {
        Self { active, ..self }
    }

    pub fn ghosted(self, ghosted: bool) -> (r: Self)
        ensures
            r == (Self { ghosted, ..self }),
    {
        Self { ghosted, ..self }
    }

    pub fn truncated(self, truncated: bool) -> (r: Self)
        ensures
            r == (Self { truncated, ..self }),
    {
        Self { truncated, ..self }
    }

    pub fn defeated(self, defeated: bool) -> (r: Self)
        ensures
            r == (Self { defeated, ..self }),
    {
        Self { defeated, ..self }
    }

    pub fn gone(self, gone: bool) -> (r: Self)
        ensures
            r == (Self { gone, ..self }),
    {
        Self { gone, ..self }
    }
}

/// One board square's display state.
pub struct SquareUI {
    pub coord: Coordinate,
    pub enabled: bool,
    pub empty: bool,
    pub selected: bool,
    pub overlay: Option<char>,
}

impl SquareUI {
    pub fn new(coord: Coordinate) -> (r: Self)
        ensures
            r.coord == coord,
            r.enabled && !r.empty && !r.selected && r.overlay is None,
    {
        Self { coord, enabled: true, empty: false, selected: false, overlay: None }
    }

    pub fn enabled(self, enabled: bool) -> (r: Self)
        ensures
            r == (Self { enabled, ..self }),
    {
        Self { enabled, ..self }
    }

    pub fn empty(self, empty: bool) -> (r: Self)
        ensures
            r == (Self { empty, ..self }),
    {
        Self { empty, ..self }
    }

    pub fn selected(self, selected: bool) -> (r: Self)
        ensures
            r == (Self { selected, ..self }),
    {
        Self { selected, ..self }
    }

    pub fn overlay(self, overlay: Option<char>) -> (r: Self)
        ensures
            r == (Self { overlay, ..self }),
    {
        Self { overlay, ..self }
    }
}

/// One hand slot's display state.
pub struct HandSquareUI {
    pub empty: bool,
}

impl HandSquareUI {
    pub fn new() -> (r: Self)
        ensures
            !r.empty,
    {
        Self { empty: false }
    }

    pub fn empty(self, empty: bool) -> (r: Self)
        ensures
            r.empty == empty,
    {
        Self { empty }
    }
}

/// The board a rendering pass walks.
pub struct BoardUI<'a> {
    pub board: &'a Board,
}

impl<'a> BoardUI<'a> {
    pub fn new(board: &'a Board) -> (r: Self)
        ensures
            r.board == board,
    {
        Self { board }
    }
}

} // verus!