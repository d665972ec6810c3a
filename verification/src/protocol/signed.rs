//! Signed statements that a writer's branch stood at a given root hash at a
//! given version vector.

use crate::collections::table::Entry;
use crate::crypto::hash;
use crate::crypto::hash::{le_bytes, push_u64_le};
use crate::crypto::sign::PublicKey;
use crate::error::Error;
use crate::version_vector::VersionVector;
use vstd::prelude::*;

verus! {

/// Number of bytes in a signature.
pub const SIGNATURE_SIZE: usize = 64;

/// The versions `s` as bytes: for each writer in order, its key and then its
/// version as 8 little-endian bytes.
pub open spec fn versions_bytes(s: Seq<Entry<u64>>) -> Seq<u8>
    decreases s.len(),
{
    if s.len() == 0 {
        Seq::<u8>::empty()
    } else {
        versions_bytes(s.drop_last()) + s.last().key.spec_bytes() + le_bytes(
            s.last().value as nat,
            8,
        )
    }
}

/// What is signed in a proof: the writer, the version vector and the root hash.
pub open spec fn signable(writer_id: PublicKey, versions: Seq<Entry<u64>>, root: hash::Hash) -> Seq<
    u8,
> {
    writer_id.key.spec_bytes() + versions_bytes(versions) + root.spec_bytes()
}

/// Says that the branch of `writer_id` stood at root hash `hash` at version
/// vector `version_vector`, and carries the signature that says so.
#[derive(Debug)]
pub struct Proof {
    pub writer_id: PublicKey,
    pub version_vector: VersionVector,
    pub hash: hash::Hash,
    pub signature: Vec<u8>,
}

impl Proof {
    pub open spec fn wf(&self) -> bool {
        self.version_vector.wf()
    }

    /// The bytes that the signature of this proof covers.
    pub open spec fn spec_signable(&self) -> Seq<u8> {
        signable(self.writer_id, self.version_vector.versions.entries@, self.hash)
    }

    pub fn new(
        writer_id: PublicKey,
        version_vector: VersionVector,
        hash: hash::Hash,
        signature: Vec<u8>,
    ) -> (p: Proof)
        ensures
            p.writer_id == writer_id,
            p.version_vector == version_vector,
            p.hash == hash,
            p.signature == signature,
    {
        Proof { writer_id, version_vector, hash, signature }
    }

    /// The bytes to sign, or to check the signature against.
    pub fn signable_bytes(&self) -> (out: Vec<u8>)
        ensures
            out@ == self.spec_signable(),
    {
        signable_bytes(&self.writer_id, &self.version_vector, &self.hash)
    }

    /// A copy of this proof.
    pub fn duplicate(&self) -> (p: Proof)
        requires
            self.wf(),
        ensures
            p.wf(),
            p.writer_id == self.writer_id,
            p.hash == self.hash,
            p.signature@ == self.signature@,
            p.version_vector.versions@ == self.version_vector.versions@,
    {
        let mut signature: Vec<u8> = Vec::new();
        let mut i: usize = 0;
        while i < self.signature.len()
            invariant
                i <= self.signature@.len(),
                signature@ == self.signature@.subrange(0, i as int),
            decreases self.signature@.len() - i,
        {
            signature.push(self.signature[i]);
            assert(signature@ =~= self.signature@.subrange(0, i + 1));
            i = i + 1;
        }
        assert(signature@ =~= self.signature@);
        Proof {
            writer_id: self.writer_id,
            version_vector: self.version_vector.duplicate(),
            hash: self.hash,
            signature,
        }
    }
}

/// The bytes to sign for a proof of the given parts.
pub fn signable_bytes(writer_id: &PublicKey, version_vector: &VersionVector, root: &hash::Hash) -> (out:
    Vec<u8>)
    ensures
        out@ == signable(*writer_id, version_vector.versions.entries@, *root),
{
    let mut out: Vec<u8> = Vec::new();
    writer_id.key.write_to(&mut out);
    let ghost head = out@;
    let mut i: usize = 0;
    assert(out@ =~= head + versions_bytes(version_vector.versions.entries@.subrange(0, 0)));
    while i < version_vector.versions.len()
        invariant
            i <= version_vector.versions.entries@.len(),
            head == writer_id.key.spec_bytes(),
            out@ == head + versions_bytes(version_vector.versions.entries@.subrange(0, i as int)),
        decreases version_vector.versions.entries@.len() - i,
    {
        let ghost es = version_vector.versions.entries@;
        let key = version_vector.versions.entries[i].key;
        let value = version_vector.versions.entries[i].value;
        key.write_to(&mut out);
        push_u64_le(value, &mut out);
        proof {
            assert(es.subrange(0, i + 1).drop_last() =~= es.subrange(0, i as int));
            assert(es.subrange(0, i + 1).last() == es[i as int]);
            assert(out@ =~= head + versions_bytes(es.subrange(0, i + 1)));
        }
        i = i + 1;
    }
    assert(version_vector.versions.entries@.subrange(0, i as int)
        =~= version_vector.versions.entries@);
    let ghost before = out@;
    root.write_to(&mut out);
    assert(out@ =~= signable(*writer_id, version_vector.versions.entries@, *root));
    out
}

/// A proof as it came from a peer, before its signature was checked.
#[derive(Debug)]
pub struct UntrustedProof {
    pub proof: Proof,
}

impl UntrustedProof {
    pub fn new(proof: Proof) -> (u: UntrustedProof)
        ensures
            u.proof == proof,
    {
        UntrustedProof { proof }
    }

    /// The bytes that the signature must cover.
    pub fn signable_bytes(&self) -> (out: Vec<u8>)
        ensures
            out@ == self.proof.spec_signable(),
    {
        self.proof.signable_bytes()
    }

    /// Hands out the proof if `signature_valid`, which says whether the
    /// signature is one of the repository's write key over `signable_bytes`.
    pub fn verify(self, signature_valid: bool) -> (r: Result<Proof, Error>)
        ensures
            r.is_ok() <==> (signature_valid && self.proof.signature@.len() == SIGNATURE_SIZE),
            r.is_ok() ==> r.unwrap() == self.proof,
            r.is_err() ==> r == Err::<Proof, Error>(Error::InvalidProof),
    {
        if signature_valid && self.proof.signature.len() == SIGNATURE_SIZE {
            Ok(self.proof)
        } else {
            Err(Error::InvalidProof)
        }
    }
}

} // verus!
