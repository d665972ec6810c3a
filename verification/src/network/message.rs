//! What replicas send to each other.

use crate::crypto::hash;
use crate::crypto::sign::PublicKey;
use crate::network::debug_payload::{DebugRequest, DebugResponse};
use crate::protocol::block::BlockId;
use crate::protocol::node::{InnerNodes, LeafNodes};
use crate::protocol::signed::UntrustedProof;
use crate::protocol::summary::{MultiBlockPresence, Summary};
use vstd::prelude::*;

verus! {

/// Tells apart the responses to requests for the children of one hash:
/// the presence of blocks that the sender of the request knew of.
#[derive(Clone, Copy, Debug, PartialEq, Eq, Structural)]
pub struct ResponseDisambiguator {
    pub block_presence: MultiBlockPresence,
}

impl ResponseDisambiguator {
    pub fn new(block_presence: MultiBlockPresence) -> (d: ResponseDisambiguator)
        ensures
            d.block_presence == block_presence,
    {
        ResponseDisambiguator { block_presence }
    }
}

/// Identifier of a repository: the public half of its write key.
#[derive(Clone, Copy, Debug, PartialEq, Eq, Structural)]
pub struct RepositoryId {
    pub key: PublicKey,
}

#[derive(Clone, Copy, Debug, PartialEq, Eq, Structural)]
pub enum Request {
    /// Request the latest root node of the given writer.
    RootNode(PublicKey, DebugRequest),
    /// Request child nodes of the given parent node.
    ChildNodes(hash::Hash, ResponseDisambiguator, DebugRequest),
    /// Request block with the given id.
    Block(BlockId, DebugRequest),
}

#[derive(Debug)]
pub enum Response {
    /// Send the latest root node of a writer.
    RootNode { proof: UntrustedProof, summary: Summary, debug: DebugResponse },
    /// Send that a root node request failed.
    RootNodeError(PublicKey, DebugResponse),
    /// Send inner nodes.
    InnerNodes(InnerNodes, ResponseDisambiguator, DebugResponse),
    /// Send leaf nodes.
    LeafNodes(LeafNodes, ResponseDisambiguator, DebugResponse),
    /// Send that a child nodes request failed.
    ChildNodesError(hash::Hash, ResponseDisambiguator, DebugResponse),
    /// Send a requested block.
    Block { content: Vec<u8>, nonce: Vec<u8>, debug: DebugResponse },
    /// Send that a block request failed.
    BlockError(BlockId, DebugResponse),
}

#[derive(Debug)]
pub enum Message {
    /// Request by the sender to establish a link between their
    /// repository with id `src_id` and the recipient's repository named
    /// `dst_name`.
    CreateLink { src_id: RepositoryId, dst_name: String },
    /// Request to a recipient's repository with id `dst_id`.
    Request { dst_id: RepositoryId, request: Request },
    /// Response to a recipient's repository with id `dst_id`.
    Response { dst_id: RepositoryId, response: Response },
}

impl Message {
    /// The request that the message carries, if it carries one.
    pub fn into_request(self) -> (r: Option<Request>)
        ensures
            r == (match self {
                Message::Request { request, .. } => Some(request),
                _ => None,
            }),
    {
        match self {
            Message::Request { request, .. } => Some(request),
            Message::CreateLink { .. } => None,
            Message::Response { .. } => None,
        }
    }

    /// The response that the message carries, if it carries one.
    pub fn into_response(self) -> (r: Option<Response>)
        ensures
            match self {
                Message::Response { response, .. } => r == Some(response),
                _ => r.is_none(),
            },
    {
        match self {
            Message::Response { response, .. } => Some(response),
            Message::CreateLink { .. } => None,
            Message::Request { .. } => None,
        }
    }

    /// The repository that the message is for, if it names one by id.
    pub fn dst_id(&self) -> (r: Option<RepositoryId>)
        ensures
            r == (match self {
                Message::Request { dst_id, .. } => Some(*dst_id),
                Message::Response { dst_id, .. } => Some(*dst_id),
                Message::CreateLink { .. } => None,
            }),
    {
        match self {
            Message::Request { dst_id, .. } => Some(*dst_id),
            Message::Response { dst_id, .. } => Some(*dst_id),
            Message::CreateLink { .. } => None,
        }
    }
}

} // verus!
