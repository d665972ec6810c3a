//! Locators by the names of head blocks.

use crate::crypto::hash;
use crate::crypto::hash::{le_bytes, push_le_bytes, sha3_256};
use vstd::prelude::*;

verus! {

/// Name of a block: 32 bytes that were drawn when the block was made.
#[derive(Clone, Copy, Debug, PartialEq, Eq, Structural)]
pub struct BlockName {
    pub name: hash::Hash,
}

/// How the blocks of a repository are encrypted.
#[derive(Clone, Copy, Debug, PartialEq, Eq, Structural)]
pub enum Cryptor {
    /// With the given key.
    ChaCha20Poly1305(hash::Hash),
    /// Not at all.
    Null,
}

/// A type of block identifier similar to `BlockId` but serving a
/// different purpose. While `BlockId` reflects the block content,
/// `Locator` reflects the block "location" within the filesystem.
#[derive(Clone, Copy, Debug, PartialEq, Eq, Structural)]
pub enum Locator {
    /// Locator of the root block, that is, the head block of the root blob.
    Root,
    /// Locator of the head (first) block of a blob. The `BlockName` is the
    /// name of the head block of the directory which contains the blob and
    /// the `u32` is the sequence number (position) of the blob within that
    /// directory.
    Head(BlockName, u32),
    /// Locator of a trunk (other than first) block of a blob. The
    /// `BlockName` is the name of the head block of the blob and the `u32`
    /// is the sequence number (position) of the block within its blob.
    Trunk(BlockName, u32),
}

impl Locator {
    /// Name of the head block of the containing blob. Only trunk blocks have head block.
    pub fn head_name(&self) -> (r: Option<&BlockName>)
        ensures
            r == (match self {
                Locator::Trunk(name, _) => Some(name),
                _ => None,
            }),
    {
        match self {
            Locator::Root => None,
            Locator::Head(_, _) => None,
            Locator::Trunk(name, _) => Some(name),
        }
    }

    /// Block number within the containing blob. The head block's `number`
    /// is 0, the next one is 1 and so on.
    pub fn number(&self) -> (n: u32)
        ensures
            n == (match self {
                Locator::Trunk(_, seq) => *seq,
                _ => 0u32,
            }),
    {
        match self {
            Locator::Root => 0,
            Locator::Head(_, _) => 0,
            Locator::Trunk(_, seq) => *seq,
        }
    }

    /// What is hashed to encode a locator with the given name, sequence
    /// number and flag: the hash of the key, if there is a key, the name,
    /// the sequence number as four little-endian bytes, and the flag.
    pub open spec fn spec_encoding(cryptor: Cryptor, name: BlockName, seq: u32, flag: u8) -> Seq<u8> {
        (match cryptor {
            Cryptor::ChaCha20Poly1305(key) => sha3_256(key.spec_bytes()),
            Cryptor::Null => Seq::<u8>::empty(),
        }) + name.name.spec_bytes() + le_bytes(seq as nat, 4) + seq![flag]
    }

    pub open spec fn spec_encode(&self, cryptor: Cryptor) -> Option<hash::Hash> {
        match self {
            Locator::Root => None,
            Locator::Head(name, seq) => Some(
                hash::Hash::spec_from_bytes(
                    sha3_256(Locator::spec_encoding(cryptor, *name, *seq, 0)),
                ),
            ),
            Locator::Trunk(name, seq) => Some(
                hash::Hash::spec_from_bytes(
                    sha3_256(Locator::spec_encoding(cryptor, *name, *seq, 1)),
                ),
            ),
        }
    }

    /// One-way encoding of this `Locator` for the use in the index.
    /// Returns `None` only if `self` is `Root`. This is because root
    /// locator doesn't need to be stored in the index.
    pub fn encode(&self, cryptor: &Cryptor) -> (r: Option<hash::Hash>)
        ensures
            r == self.spec_encode(*cryptor),
    {
        let (name, seq, flag): (BlockName, u32, u8) = match self {
            Locator::Root => {
                return None;
            },
            Locator::Head(name, seq) => (*name, *seq, 0),
            Locator::Trunk(name, seq) => (*name, *seq, 1),
        };
        let mut buf: Vec<u8> = Vec::new();
        match cryptor {
            Cryptor::ChaCha20Poly1305(key) => {
                let key_bytes = key.to_bytes();
                let key_hash = hash::Hash::digest_bytes(key_bytes.as_slice());
                let mut i: usize = 0;
                while i < 32
                    invariant
                        i <= 32,
                        key_hash@ == sha3_256(key.spec_bytes()),
                        buf@ == key_hash@.subrange(0, i as int),
                    decreases 32 - i,
                {
                    buf.push(key_hash[i]);
                    assert(buf@ =~= key_hash@.subrange(0, i + 1));
                    i = i + 1;
                }
                assert(buf@ =~= key_hash@);
            },
            Cryptor::Null => {},
        }
        name.name.write_to(&mut buf);
        push_le_bytes(seq as u128, 4, &mut buf);
        buf.push(flag);
        assert(buf@ =~= Locator::spec_encoding(*cryptor, name, seq, flag));
        Some(hash::Hash::digest(buf.as_slice()))
    }
}

} // verus!
