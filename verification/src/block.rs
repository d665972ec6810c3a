//! Which peer downloads which block.

pub mod tracker;
