//! Builds a manifest of a project's textual sources: which files count as
//! text, their digests and line chunks, the directory tree, and the document
//! that gathers them.

pub mod config;
pub mod deps;
pub mod digest;
pub mod fs_walk;
pub mod git;
pub mod output;
pub mod path;
pub mod skip;
pub mod sort;
pub mod text;
