//! A multiplayer falling-block puzzle: piece geometry, a seven-piece bag,
//! per-player boards and the session that ties the players together.
pub mod board;
pub mod command;
pub mod game;
pub mod tetromino;
