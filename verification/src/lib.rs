//! A best-first solver for packing seventeen bricks into a 5×5×5 cube.
//!
//! - [`pattern`]: the mathematical model of an occupancy pattern, the 48
//!   symmetries of the cube, the encoding of a pattern in 125 bits, and the
//!   canonical fingerprint with its laws.
//! - [`grid`]: the occupancy grid as data, with quarter turns, reflections
//!   and the encoding.
//! - [`canon`]: the canonical fingerprint of a grid.
//! - [`catalog`]: the bricks, in the order in which they are placed.
//! - [`cellset`]: sets of cells.
//! - [`state`]: a partial packing and its successors.
//! - [`search`]: the frontier and the search loop.
//! - [`fxset`] and [`frontier`]: what is taken on trust of the hash sets and
//!   of the priority queue.

pub mod canon;
pub mod catalog;
pub mod cellset;
pub mod frontier;
pub mod fxset;
pub mod grid;
pub mod pattern;
pub mod search;
pub mod state;
