//! A rope: a balanced tree of UTF-8 text chunks with cached per-subtree
//! summaries, and the single-buffer scanning routines it is built on.

pub mod text_info;
pub mod str_utils;
pub mod leaf_text;
pub mod node;
pub mod rope;

use vstd::prelude::*;

verus! {

/// Maximum number of bytes held by one leaf.
pub const MAX_BYTES: usize = 991;

/// Minimum number of bytes a leaf aims to hold when it is not the only one.
pub const MIN_BYTES: usize = MAX_BYTES / 2 - MAX_BYTES / 32;

/// Maximum number of children of an internal node.
pub const MAX_CHILDREN: usize = 6;

/// Minimum number of children of a non-root internal node.
pub const MIN_CHILDREN: usize = MAX_CHILDREN / 2;

} // verus!
