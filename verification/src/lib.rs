//! Finds `#[derive(...)]` entries that a crate does not need, guided by the
//! compiler's diagnostics, and computes the edits that remove them.

pub mod text;
pub mod path;
pub mod error;
pub mod check;
pub mod items;
pub mod report;
pub mod patch;
pub mod remove;
pub mod restore;
pub mod project;
