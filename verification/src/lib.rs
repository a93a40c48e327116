//! Rules and state of a tile-placement board game: the tile catalog, the
//! draw pile, the self-extending board and the engine that decides where
//! the next tile may go.

pub mod board;
pub mod game;
pub mod pile;
pub mod tile;
