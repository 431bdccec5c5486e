//! A rules engine for the game of Go: legal placement, capture, positional
//! superko, area scoring and reversible play.

pub mod board;
pub mod capture;
pub mod color;
pub mod game;
pub mod group;
pub mod laws;
pub mod liberty;
pub mod rules;
pub mod score;
pub mod tally;
pub mod zobrist;

pub use board::{neighbors_coords, Goban};
pub use color::{Color, Coord, Player, Stone};
pub use game::{Game, GameState, ImportError, Move, MoveResult};
pub use rules::EndGame;
pub use zobrist::{generate_zobrist_table, splitmix64, zobrist_hash_state};
