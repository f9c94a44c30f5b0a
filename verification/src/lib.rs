//! A verified minesweeper board engine.
//!
//! The engine owns a rectangular grid of tiles, places mines at random,
//! derives every tile's adjacent-mine count, and processes coordinate-based
//! commands: reveal (with flood fill, chording and first-click mine
//! relocation) and flag.  Win and loss are decided after every command.
//! Rendering and input handling are left to callers, which read the board
//! as a plain snapshot.

pub mod board;
pub mod counts;
pub mod grid;
pub mod tile;

pub use board::Board;
pub use board::BoardError;
pub use tile::Outcome;
pub use tile::PushState;
pub use tile::State;
pub use tile::Tile;
