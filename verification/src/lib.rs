//! Tightpack: the rules of a tile-packing game.
//!
//! Pieces made of grid cells are placed on a rectangular board; each piece
//! earns its own points plus the points of its effects whose conditions hold
//! on the board. The library holds the board model, placement rules, scoring,
//! the computer opponents, puzzle solution checking, round and turn
//! bookkeeping, and the settings rules.
pub mod board;
pub mod model;
pub mod placement;
pub mod scoring;
pub mod config;
pub mod ai;
pub mod colors;
mod random;
pub mod setup;
pub mod puzzle;
pub mod ranking;
pub mod solution_order;
pub mod session;
pub mod settings;
pub mod duel;
pub mod text;
