//! Values that replicas store in the index and exchange with each other.

pub mod block;
pub mod locator;
pub mod node;
pub mod signed;
pub mod root_node;
pub mod summary;
