//! A Minesweeper rules engine: board construction with random mine
//! placement, reveal with flood-fill propagation and first-move fairness,
//! chording, flag cycling, and win/loss determination.

pub mod counting;
pub mod error;
pub mod game;
pub mod laws;
pub mod model;
pub mod tile;

pub use error::MinrsError;
pub use game::MinrsGame;
pub use game::StdMinrsGame;
pub use error::MinrsResult;
pub use tile::FlagState;
pub use tile::Position;
pub use tile::StdTile;
pub use tile::TileContents;
pub use tile::TileState;
