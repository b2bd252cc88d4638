//! Word-ladder puzzle engine.
//!
//! Builds a graph over a dictionary of words where an edge connects two words
//! of equal length that differ in exactly one character position, answers
//! shortest-path ("word ladder") queries by breadth-first search, generates
//! difficulty-classified puzzles from sampled endpoint pairs, assembles
//! difficulty-balanced puzzle sets, and renders puzzles and dictionaries as
//! SQL scripts.

pub mod bfs;
pub mod exporters;
pub mod graph;
pub mod puzzle;
mod random;
pub mod words;
