//! Identities of writers.

use crate::crypto::hash;
use vstd::prelude::*;

verus! {

/// Public signing key of a writer. It identifies the writer and its branch.
#[derive(Clone, Copy, Debug, PartialEq, Eq, PartialOrd, Ord, Hash, Structural)]
pub struct PublicKey {
    pub key: hash::Hash,
}

impl PublicKey {
    /// The key whose 32 bytes are `bytes`.
    pub fn from_bytes(bytes: &[u8; 32]) -> (k: PublicKey)
        ensures
            k.key == hash::Hash::spec_from_bytes(bytes@),
    {
        PublicKey { key: hash::Hash::from_bytes(bytes) }
    }

    pub fn to_bytes(&self) -> (out: Vec<u8>)
        ensures
            out@ == self.key.spec_bytes(),
            out@.len() == 32,
    {
        self.key.to_bytes()
    }
}

} // verus!
