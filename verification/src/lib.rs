//! Board-state engine for a multi-player territory word game.
//!
//! A rectangular grid of cells is occupied by players' letters. Letters
//! connected to a player's root form that player's territory; straight runs
//! of one player's letters form words; adjacent enemy words fight (judged by
//! an external resolver); disconnected territory is pruned; and a player's
//! view of the board can be restricted to contested contact points.

pub mod bag;
pub mod board;
pub mod connect;
pub mod display;
pub mod error;
pub mod fog;
pub mod geometry;
pub mod parse;
pub mod reporting;
pub mod rules;
pub mod shape;
pub mod square;
mod strutil;
pub mod swap;
pub mod ui;
pub mod words;

pub use geometry::Coordinate;
pub use geometry::Direction;
pub use square::Square;
