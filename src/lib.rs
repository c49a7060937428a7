//! A verified minesweeper engine: a square grid of tiles, mine placement,
//! adjacency counts, reveal with flood fill, flags, and the win/loss rules.
use vstd::prelude::*;

pub mod game;
pub mod generator;
pub mod grid;
pub mod laws;
pub mod tile;

pub use tile::{Tile, TileValue};
pub use game::{GameError, GameState, GameView, Minesweeper};
