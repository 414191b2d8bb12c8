//! Hunk-level review of file changes: parsing unified diffs into hunks,
//! splitting hunks, and applying a selection of hunks to a file's text.
pub mod text;
pub mod hunk;
pub mod diff_parser;
pub mod interactive;
