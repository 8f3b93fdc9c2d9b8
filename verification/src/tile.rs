//! Positions, flag states, and the single tile type that the board owns.

use vstd::prelude::*;
use crate::error::{MinrsError, MinrsResult};

verus! {

/// A column/row index pair; valid on a board only when `x < width` and
/// `y < height`.
#[derive(Debug, PartialEq, Clone, Copy)]
pub struct Position {
    pub x: u8,
    pub y: u8,
}

/// A marker the player can place on a covered tile.
#[derive(Debug, PartialEq, Clone, Copy)]
pub enum FlagState {
    Questionable,
    RedFlag,
}

/// What an uncovered tile shows: a mine, or the number of mine neighbors.
#[derive(Debug, PartialEq, Clone, Copy)]
pub enum TileContents {
    MineCount(u8),
    Mine,
}

/// The externally visible state of one tile.
#[derive(Debug, PartialEq, Clone, Copy)]
pub enum TileState {
    Covered(Option<FlagState>),
    Uncovered(TileContents),
}

/// One grid cell: covered or not, mine or not, optionally flagged.
#[derive(Debug, Clone, Copy)]
pub struct StdTile {
    pub covered: bool,
    pub mine: bool,
    pub flag: Option<FlagState>,
}

/// The flag that one `toggle_flag` call produces from `f`:
/// none, red flag, questionable, and around again.
pub open spec fn next_flag(f: Option<FlagState>) -> Option<FlagState> {
    match f {
        None => Some(FlagState::RedFlag),
        Some(FlagState::RedFlag) => Some(FlagState::Questionable),
        Some(FlagState::Questionable) => None,
    }
}

impl StdTile {
    /// The flag a viewer may see: flags are only meaningful while covered.
    pub open spec fn visible_flag(self) -> Option<FlagState> {
        if self.covered {
            self.flag
        } else {
            None
        }
    }

    pub fn new(mine: bool) -> (t: StdTile)
        ensures
            t.covered,
            t.mine == mine,
            t.flag is None,
    {
        StdTile { covered: true, mine, flag: None }
    }

    pub fn set_mine(&mut self, mine: bool)
        ensures
            final(self).mine == mine,
            final(self).covered == old(self).covered,
            final(self).flag == old(self).flag,
    {
        self.mine = mine;
    }

    pub fn is_covered(&self) -> (b: bool)
        ensures
            b == self.covered,
    {
        self.covered
    }

    pub fn is_mine(&self) -> (b: bool)
        ensures
            b == self.mine,
    {
        self.mine
    }

    pub fn get_flag(&self) -> (f: Option<FlagState>)
        ensures
            f == self.visible_flag(),
    {
        if !self.covered {
            return None;
        }
        self.flag
    }

    pub fn toggle_flag(&mut self)
        ensures
            final(self).flag == next_flag(old(self).flag),
            final(self).covered == old(self).covered,
            final(self).mine == old(self).mine,
    {
        if let Some(flag_state) = self.flag {
            match flag_state {
                FlagState::RedFlag => self.flag = Some(FlagState::Questionable),
                FlagState::Questionable => self.flag = None,
            }
        } else {
            self.flag = Some(FlagState::RedFlag);
        }
    }

    /// Uncovers this tile, clearing its flag, and reports whether it was a
    /// mine; fails if the tile is already uncovered.
    pub fn uncover(&mut self) -> (r: MinrsResult<bool>)
        ensures
            !old(self).covered ==> r == Err::<bool, MinrsError>(MinrsError::InvalidPosition)
                && *final(self) == *old(self),
            old(self).covered ==> r == Ok::<bool, MinrsError>(old(self).mine)
                && !final(self).covered
                && final(self).mine == old(self).mine
                && final(self).flag is None,
    {
        if !self.covered {
            return Err(MinrsError::InvalidPosition);
        }
        self.covered = false;
        self.flag = None;
        Ok(self.mine)
    }
}

} // verus!
