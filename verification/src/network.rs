//! The exchange with peers: messages, the requests that wait for their
//! responses, and what a server and a client do with what they receive.

pub mod client;
pub mod debug_payload;
pub mod message;
pub mod pending;
pub mod registry;
pub mod seen_peers;
pub mod server;
