//! Blocks: the fixed-size encrypted payloads that the index refers to.

use crate::crypto::hash::{sha3_256};
use crate::crypto::hash;
use vstd::prelude::*;

verus! {

/// Size of a block in bytes.
pub const BLOCK_SIZE: usize = 32768;

/// Size of a block nonce in bytes.
pub const BLOCK_NONCE_SIZE: usize = 32;

/// Identifier of a block: the digest of its ciphertext.
#[derive(Clone, Copy, Debug, PartialEq, Eq, PartialOrd, Ord, Hash, Structural)]
pub struct BlockId {
    pub hash: hash::Hash,
}

impl BlockId {
    /// The id of the block whose ciphertext is `content`.
    pub open spec fn spec_from_content(content: Seq<u8>) -> BlockId {
        BlockId { hash: hash::Hash::spec_from_bytes(sha3_256(content)) }
    }

    pub fn from_content(content: &[u8]) -> (id: BlockId)
        ensures
            id == BlockId::spec_from_content(content@),
    {
        BlockId { hash: hash::Hash::digest(content) }
    }

    pub fn from_hash(hash: hash::Hash) -> (id: BlockId)
        ensures
            id.hash == hash,
    {
        BlockId { hash }
    }
}

/// A block together with its id and the nonce it was encrypted with.
#[derive(Clone, Debug)]
pub struct Block {
    pub id: BlockId,
    pub content: Vec<u8>,
    pub nonce: Vec<u8>,
}

impl Block {
    /// The id is that of the content, and content and nonce have their fixed sizes.
    pub open spec fn wf(&self) -> bool {
        &&& self.id == BlockId::spec_from_content(self.content@)
        &&& self.content@.len() == BLOCK_SIZE
        &&& self.nonce@.len() == BLOCK_NONCE_SIZE
    }

    /// Makes a block of `content` and `nonce`, or nothing if either has the wrong length.
    pub fn new(content: Vec<u8>, nonce: Vec<u8>) -> (r: Option<Block>)
        ensures
            r.is_some() <==> (content@.len() == BLOCK_SIZE && nonce@.len() == BLOCK_NONCE_SIZE),
            r.is_some() ==> r.unwrap().wf() && r.unwrap().content@ == content@ && r.unwrap().nonce@
                == nonce@,
    {
        if content.len() != BLOCK_SIZE || nonce.len() != BLOCK_NONCE_SIZE {
            return None;
        }
        let id = BlockId::from_content(content.as_slice());
        Some(Block { id, content, nonce })
    }
}

} // verus!
