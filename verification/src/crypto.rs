//! Digests and the identifiers derived from them.

pub mod hash;
pub mod password;
pub mod sign;
