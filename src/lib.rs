//! A file-granular version history: per-file edit scripts, replay, and the
//! decisions of the Create, Update and Shift actions.
pub mod diff;
pub mod history;
pub mod actions;
pub mod files;
pub mod text_diff;
