//! Containers that the engine keeps its state in.

pub mod table;
