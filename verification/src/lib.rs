//! A falling-block puzzle on a field of eleven columns and twenty-two rows.
//!
//! The rules of the game are verified: how a piece is built, moved, turned
//! and blocked, how it settles, and how full rows are cleared. Beside them
//! stands a verified combiner that interleaves the pixels of two images.

pub mod coord;
pub mod shape;
pub mod grid;
pub mod collider;
pub mod piece;
pub mod moves;
pub mod registry;
pub mod board;
pub mod random;
pub mod simulation;
pub mod combiner;
