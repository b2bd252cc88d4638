//! Export components: renderings of puzzles and dictionaries for downstream
//! consumers.

pub mod sql;
