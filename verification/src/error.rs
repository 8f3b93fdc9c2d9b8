//! Error values returned by the board engine.

use vstd::prelude::*;

verus! {

/// The result type used throughout the engine.
pub type MinrsResult<T> = Result<T, MinrsError>;

#[derive(Debug, Clone, Copy, PartialEq, Eq, Structural)]
pub enum MinrsError {
    /// The current state of tile flags prevents this move.
    BlockedByFlag,
    /// Invalid position argument.
    InvalidPosition,
    /// Out of bounds position argument.
    OobPosition,
    /// Game is over and the action can not be completed.
    GameOver,
    /// Operation not legal in the current tile or game state.
    InvalidArgument,
}

} // verus!
