//! Structural, language-aware diffing, patching and three-way merging of
//! source code, together with a line-oriented pipeline for plain text and a
//! compact binary codec for persisting diffs.
//!
//! Source files are parsed (outside this crate) into a rose tree of plain
//! values, normalised into a binary tree with cached heights, and compared by
//! a best-first search over an edit graph.  The resulting edit script can be
//! applied, merged with another script derived from the same base, and
//! serialised to bytes.

pub mod bcst;
pub mod data;
pub mod diff;
pub mod differ;
pub mod linear;
pub mod merge;
pub mod patch;
pub mod rcst;
pub mod serde;
pub mod vcs;
pub mod wire;
