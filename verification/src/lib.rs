//! Side-by-side diff computation: line alignment, row building and
//! word-level highlighting, each with a verified contract.

pub mod collab;
pub mod diff;
pub mod lines;
pub mod words;

pub use diff::DiffLine;
pub use diff::compute_diff;
