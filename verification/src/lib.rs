//! Core engine of a line-oriented diff viewer.
//!
//! The crate turns raw version-control state and raw line-comparison output
//! into a stable, renderable data model: a numbered line diff per file, a
//! side-by-side row alignment of such a diff, a name-sorted tree of the
//! diffed paths, and the discovery logic that decides which file pairs are
//! compared and how read failures degrade.

pub mod align;
pub mod diff;
pub mod discovery;
pub mod text;
pub mod tree;
pub mod viewer;

pub use text::split_lines;
