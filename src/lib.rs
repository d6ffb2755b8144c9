//! A rule engine for a racing board game on a triangular grid: coordinates and
//! directions, tiles with their effects, boards, players' moves and the turn
//! order of a game.
pub mod geometry;
pub mod tile;
pub(crate) mod chance;
pub mod player;
pub mod board;
pub mod game;
