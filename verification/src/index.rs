//! The Merkle index: paths from a root node to a leaf, and the store of
//! snapshots that they are read from and written to.

pub mod branch_data;
pub mod path;
