//! Tiles and the small enumerations of the game.

use vstd::prelude::*;

verus! {

/// The four states a tile can be in.
///
/// `Covered` is the initial state.  `Uncovered` is terminal for the tile.
/// `Flagged` can be toggled back to `Covered`.  `FlagRevealed` is only
/// reached from `Flagged` when the game ends and the whole board is shown.
#[derive(PartialEq, Eq, Structural, Clone, Copy, Debug)]
pub enum State {
    Uncovered,
    Covered,
    Flagged,
    FlagRevealed,
}

/// The two commands a caller can push at a coordinate.
#[derive(PartialEq, Eq, Structural, Clone, Copy, Debug)]
pub enum PushState {
    Uncover,
    Flag,
}

/// How the game stands: still open, won, or lost.
#[derive(PartialEq, Eq, Structural, Clone, Copy, Debug)]
pub enum Outcome {
    Unresolved,
    Won,
    Lost,
}

/// One cell of the grid.
#[derive(PartialEq, Eq, Structural, Clone, Copy, Debug)]
pub struct Tile {
    pub state: State,
    pub mine: bool,
    pub mines_surrounding: usize,
}

impl Tile {
    /// A fresh covered tile with the given mine marker and neighbour count.
    pub fn new(mine: &bool, mines_surrounding: &usize) -> (t: Tile)
        ensures
            t.state == State::Covered,
            t.mine == *mine,
            t.mines_surrounding == *mines_surrounding,
    {
        Tile { state: State::Covered, mine: *mine, mines_surrounding: *mines_surrounding }
    }
}

/// The tile as the end-of-game reveal leaves it: a flag stays visible as
/// `FlagRevealed`, everything else is shown `Uncovered`.
pub open spec fn revealed_tile(t: Tile) -> Tile {
    Tile {
        state: if t.state == State::Flagged {
            State::FlagRevealed
        } else {
            State::Uncovered
        },
        ..t
    }
}

} // verus!
