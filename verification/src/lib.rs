//! Replicated, content-addressed storage engine: the Merkle index, version
//! vectors, the block download tracker and the request bookkeeping that
//! keep independently writable replicas of a repository in sync.

pub mod access_control;
pub mod blob;
pub mod block;
pub mod branch;
pub mod collections;
pub mod crypto;
pub mod error;
pub mod index;
pub mod joint_entry;
pub mod locator;
pub mod network;
pub mod protocol;
pub mod store;
pub mod version_vector;
