//! Crossword grid filling over a fixed alphabet.
//!
//! A [`graph::CrosswordGraph`] indexes a dictionary: it derives every
//! partial-letter pattern a word can present and every full grid line
//! ("liner") that one or more patterns compose, separated by blocked cells.
//! A [`grid::CrosswordGrid`] holds the letter matrix and commits or rolls
//! back word placements, and a [`solver::CrosswordSolver`] searches
//! depth-first for a completely filled grid.

pub mod text;
pub mod text_set;
pub mod text_map;
pub mod pattern;
pub mod graph;
pub mod intermediary;
pub mod joined;
pub mod product;
pub mod liner;
pub mod compound;
pub mod line;
pub mod grid;
pub mod candidates;
pub mod place;
pub mod options;
pub mod random;
pub mod solvable;
pub mod laws;
pub mod solver;
pub mod search;
pub mod stats;

pub use graph::{CrosswordGraph, GRID_SIZE, MIN_WORD_LENGTH};
