//! Locators: where a block stands within a branch.

use crate::crypto::hash;
use crate::crypto::hash::{le_bytes, push_le_bytes, sha3_256};
use vstd::prelude::*;

verus! {

/// Identifier of a blob.
#[derive(Clone, Copy, Debug, PartialEq, Eq, PartialOrd, Ord, Hash, Structural)]
pub struct BlobId {
    pub id: hash::Hash,
}

impl BlobId {
    /// The id of the root blob: all zero.
    pub open spec fn spec_root() -> BlobId {
        BlobId { id: hash::Hash { hi: 0, lo: 0 } }
    }

    pub fn root() -> (id: BlobId)
        ensures
            id == BlobId::spec_root(),
    {
        BlobId { id: hash::Hash::null() }
    }
}

/// A type of block identifier similar to `BlockId` but serving a
/// different purpose. While `BlockId` reflects the block content,
/// `Locator` reflects the block "location" within the filesystem: it
/// answers the question "what is the n-th block of a given blob?".
/// `Locator` is unique only within a branch while `BlockId` is globally
/// unique.
#[derive(Clone, Copy, Debug, PartialEq, Eq, Hash, Structural)]
pub struct Locator {
    pub blob: BlobId,
    pub block: u32,
}

impl Locator {
    /// Locator of the root block, that is, the head block of the root blob.
    pub open spec fn spec_root() -> Locator {
        Locator { blob: BlobId::spec_root(), block: 0 }
    }

    pub fn root() -> (l: Locator)
        ensures
            l == Locator::spec_root(),
    {
        Locator { blob: BlobId::root(), block: 0 }
    }

    /// Locator of the head block of the given blob.
    pub fn head(blob_id: BlobId) -> (l: Locator)
        ensures
            l == (Locator { blob: blob_id, block: 0 }),
    {
        Locator { blob: blob_id, block: 0 }
    }

    /// Id of the blob this locator points into.
    pub fn blob_id(&self) -> (id: &BlobId)
        ensures
            *id == self.blob,
    {
        &self.blob
    }

    /// Block number within the containing blob. The head block's `number`
    /// is 0, the next one is 1 and so on.
    pub fn number(&self) -> (n: u32)
        ensures
            n == self.block,
    {
        self.block
    }

    /// What is hashed to encode this locator under the key `secret_key`:
    /// the key, the blob id and the block number as four little-endian bytes.
    pub open spec fn spec_encoding(&self, secret_key: Seq<u8>) -> Seq<u8> {
        secret_key + self.blob.id.spec_bytes() + le_bytes(self.block as nat, 4)
    }

    /// The encoded form of this locator under the key `secret_key`.
    pub open spec fn spec_encode(&self, secret_key: Seq<u8>) -> hash::Hash {
        hash::Hash::spec_from_bytes(sha3_256(self.spec_encoding(secret_key)))
    }

    /// Secure encoding of this locator for the use in the index.
    pub fn encode(&self, secret_key: &[u8]) -> (h: hash::Hash)
        ensures
            h == self.spec_encode(secret_key@),
    {
        let mut buf: Vec<u8> = Vec::new();
        let mut i: usize = 0;
        while i < secret_key.len()
            invariant
                i <= secret_key@.len(),
                buf@ == secret_key@.subrange(0, i as int),
            decreases secret_key@.len() - i,
        {
            buf.push(secret_key[i]);
            assert(buf@ =~= secret_key@.subrange(0, i + 1));
            i = i + 1;
        }
        assert(buf@ =~= secret_key@);
        self.blob.id.write_to(&mut buf);
        push_le_bytes(self.block as u128, 4, &mut buf);
        hash::Hash::digest(buf.as_slice())
    }

    /// The first `count` locators of the sequence that starts at `self`
    /// and continues with the following blocks of the blob in their
    /// order. The sequence ends with the last block number there is.
    pub fn sequence(&self, count: u32) -> (out: Vec<Locator>)
        ensures
            out@.len() == (if count as int <= u32::MAX - self.block + 1 {
                count as int
            } else {
                u32::MAX - self.block + 1
            }),
            forall|i: int|
                0 <= i < out@.len() ==> #[trigger] out@[i] == (Locator {
                    blob: self.blob,
                    block: (self.block + i) as u32,
                }),
    {
        let mut out: Vec<Locator> = Vec::new();
        let mut i: u32 = 0;
        while i < count && i <= u32::MAX - self.block
            invariant
                i <= count,
                i as int <= u32::MAX - self.block + 1,
                out@.len() == i,
                forall|j: int|
                    0 <= j < out@.len() ==> #[trigger] out@[j] == (Locator {
                        blob: self.blob,
                        block: (self.block + j) as u32,
                    }),
            decreases count - i,
        {
            out.push(Locator { blob: self.blob, block: self.block + i });
            if i == u32::MAX {
                return out;
            }
            i = i + 1;
        }
        out
    }

    /// The locator of the block after this one.
    pub fn next(&self) -> (l: Locator)
        requires
            self.block < u32::MAX,
        ensures
            l == (Locator { blob: self.blob, block: (self.block + 1) as u32 }),
    {
        self.nth(1)
    }

    /// The locator of the block `n` blocks after this one.
    pub fn nth(&self, n: u32) -> (l: Locator)
        requires
            self.block + n <= u32::MAX,
        ensures
            l == (Locator { blob: self.blob, block: (self.block + n) as u32 }),
    {
        Locator { blob: self.blob, block: self.block + n }
    }

    /// The locator of the block `n` blocks after this one, if there is one.
    pub fn checked_nth(&self, n: u32) -> (r: Option<Locator>)
        ensures
            r == (if self.block + n <= u32::MAX {
                Some(Locator { blob: self.blob, block: (self.block + n) as u32 })
            } else {
                None
            }),
    {
        if n <= u32::MAX - self.block {
            Some(self.nth(n))
        } else {
            None
        }
    }
}

} // verus!
