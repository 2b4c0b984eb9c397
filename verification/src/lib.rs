//! A crossword-game move-playing core.
//!
//! The crate reconstructs a two-player game from its event history,
//! validates each tile placement against a packed word graph, enumerates
//! the legal plays for the rack on turn, and picks one of them, either
//! greedily by equity or by random playouts.

use vstd::prelude::*;

pub mod alphabet;
pub mod bag;
pub mod display;
pub mod board;
pub mod game;
pub mod game_config;
pub mod klv;
pub mod kwg;
pub mod matrix;
pub mod move_filter;
pub mod move_picker;
pub mod movegen;
pub mod pipeline;
pub mod rng;

verus! {

/// Everything that can go wrong while rebuilding a game from its history.
#[derive(Clone, Copy, Debug, PartialEq, Eq, Structural)]
pub enum GameError {
    /// A row outside the board was named.
    BadRow,
    /// A column outside the board was named.
    BadColumn,
    /// A byte of an incoming string matched no tile of the alphabet.
    InvalidTile,
    /// A placement with fewer than two cells, or with no new tile.
    NotEnoughTilesPlayed,
    /// The cell before the placement start is already filled.
    HasPrefix,
    /// The cell after the placement end is already filled.
    HasSuffix,
    /// The placement runs past the edge of the board.
    OutOfBounds,
    /// A play-through marker names an empty cell.
    PlayThroughVacant,
    /// A new tile names a cell that is already filled.
    SquareOccupied,
    /// A rack holds more tiles than the rack size allows.
    RackTooLong,
    /// Racks and board together hold more copies of a tile than exist.
    TooManyOfTile,
    /// A coordinate token that names no cell of the board.
    BadCoordinate,
}

} // verus!
