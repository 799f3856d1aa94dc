//! Connectivity-based win detection for the board game Hex.
//!
//! A player wins Hex by forming an unbroken chain of their own pieces
//! between their two assigned board edges.  Deciding that after every move
//! without re-scanning the board is a dynamic-connectivity problem: this
//! crate solves it with a union-find structure (union by size plus path
//! compression) augmented with four virtual nodes, one per board edge.
//!
//! [`DisjointSet`] is the general-purpose union-find engine; [`HexGame`]
//! owns one engine sized `size * size + 4` and maps hex-grid adjacency and
//! the virtual edge nodes onto it.

use vstd::prelude::*;

pub mod chains;
pub mod disjointset;
pub mod grid;
pub mod hexgame;

pub use disjointset::DisjointSet;
pub use hexgame::Color;
pub use hexgame::HexGame;
pub use hexgame::MoveOutcome;

verus! {

/// The failures the core can signal.
///
/// `InvalidSize` is a construction-time failure (a board too small to be
/// won).  `IndexOutOfRange` marks an element index outside the union-find
/// universe; it is an integration defect, never a normal runtime condition.
#[derive(Clone, Copy, Debug, PartialEq, Eq, Structural)]
pub enum Error {
    InvalidSize,
    IndexOutOfRange,
}


} // verus!
