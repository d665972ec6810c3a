//! The repositories that a replica shares, and how it goes about reaching peers.

use crate::crypto::hash;
use crate::crypto::hash::sha3_256;
use std::collections::HashMap;
use vstd::prelude::*;

verus! {

broadcast use vstd::std_specs::hash::group_hash_axioms;

/// Number of bytes in the hash that a repository is announced by.
pub const INFO_HASH_LEN: usize = 20;

/// Identifier of a registered repository.
pub type LocalRepositoryId = u64;

/// The repositories that are registered with the network, by the ids
/// that they were given.
pub struct IndexMap {
    pub map: HashMap<LocalRepositoryId, String>,
    pub next_id: LocalRepositoryId,
}

impl IndexMap {
    pub fn new() -> (m: IndexMap)
        ensures
            m.map@ == Map::<LocalRepositoryId, String>::empty(),
            m.next_id == 0,
    {
        IndexMap { map: HashMap::new(), next_id: 0 }
    }

    /// Registers the repository named `name` and returns the id it was
    /// given: the next one in turn, which wraps around after the largest.
    /// Returns nothing, and registers nothing, if that id is taken.
    pub fn insert(&mut self, name: String) -> (r: Option<LocalRepositoryId>)
        ensures
            r == (if old(self).map@.contains_key(old(self).next_id) {
                None
            } else {
                Some(old(self).next_id)
            }),
            r.is_none()
                ==> final(self).map@ == old(self).map@ && final(self).next_id == old(self).next_id,
            r.is_some() ==> final(self).map@ == old(self).map@.insert(old(self).next_id, name)
                && final(self).next_id == (if old(self).next_id == u64::MAX {
                0u64
            } else {
                (old(self).next_id + 1) as u64
            }),
    {
        let id = self.next_id;
        if self.map.contains_key(&id) {
            return None;
        }
        self.map.insert(id, name);
        self.next_id = if id == u64::MAX {
            0
        } else {
            id + 1
        };
        Some(id)
    }

    /// Forgets the repository with id `id`.
    pub fn remove(&mut self, id: LocalRepositoryId)
        ensures
            final(self).map@ == old(self).map@.remove(id),
            final(self).next_id == old(self).next_id,
    {
        self.map.remove(&id);
    }

    pub fn contains(&self, id: LocalRepositoryId) -> (r: bool)
        ensures
            r == self.map@.contains_key(id),
    {
        self.map.contains_key(&id)
    }
}

/// Two to the power of `n`, for `n` up to ten.
pub open spec fn pow2_to_ten(n: nat) -> nat
    decreases n,
{
    if n == 0 {
        1
    } else {
        2 * pow2_to_ten((n - 1) as nat)
    }
}

/// How long to wait before the next try after `failures` tries to reach
/// a peer failed, in milliseconds: 200 at first, twice as long after
/// every failure, and five seconds at most.
pub open spec fn spec_retry_delay(failures: u32) -> u64 {
    let doublings = if failures < 10 {
        failures as nat
    } else {
        10
    };
    if 200 * pow2_to_ten(doublings) < 5000 {
        (200 * pow2_to_ten(doublings)) as u64
    } else {
        5000
    }
}

pub fn retry_delay(failures: u32) -> (ms: u64)
    ensures
        ms == spec_retry_delay(failures),
        200 <= ms <= 5000,
{
    let doublings = if failures < 10 {
        failures
    } else {
        10
    };
    let mut delay: u64 = 200;
    let mut i: u32 = 0;
    while i < doublings
        invariant
            i <= doublings <= 10,
            delay == 200 * pow2_to_ten(i as nat),
            delay <= 200 * 1024,
        decreases doublings - i,
    {
        proof {
            reveal_with_fuel(pow2_to_ten, 11);
            lemma_pow2_bound(i as nat);
            lemma_pow2_bound((i + 1) as nat);
        }
        delay = delay * 2;
        i = i + 1;
    }
    proof {
        lemma_pow2_bound(doublings as nat);
    }
    if delay < 5000 {
        delay
    } else {
        5000
    }
}

proof fn lemma_pow2_bound(n: nat)
    requires
        n <= 10,
    ensures
        1 <= pow2_to_ten(n) <= 1024,
    decreases n,
{
    reveal_with_fuel(pow2_to_ten, 11);
    if n > 0 {
        lemma_pow2_bound((n - 1) as nat);
    }
}

/// The hash that the repository named `name` is announced and looked for
/// by: the first twenty bytes of the digest of the name.
pub fn repository_info_hash(name: &[u8]) -> (out: [u8; 20])
    ensures
        out@ == sha3_256(name@).subrange(0, 20),
{
    let digest = hash::Hash::digest_bytes(name);
    let mut out = [0u8; 20];
    let mut i: usize = 0;
    while i < 20
        invariant
            i <= 20,
            forall|j: int| 0 <= j < i ==> out@[j] == digest@[j],
        decreases 20 - i,
    {
        out[i] = digest[i];
        i = i + 1;
    }
    assert(out@ =~= digest@.subrange(0, 20));
    out
}

/// The lower-case hexadecimal digit of a number below sixteen.
pub open spec fn hex_digit(n: int) -> char {
    seq!['0', '1', '2', '3', '4', '5', '6', '7', '8', '9', 'a', 'b', 'c', 'd', 'e', 'f'][n]
}

/// The bytes written as hexadecimal digits: two for each byte, the
/// higher half first.
pub open spec fn hex_chars(bytes: Seq<u8>) -> Seq<char> {
    Seq::new(
        2 * bytes.len(),
        |i: int|
            hex_digit(
                if i % 2 == 0 {
                    bytes[i / 2] as int / 16
                } else {
                    bytes[i / 2] as int % 16
                },
            ),
    )
}

/// Calls `hex::encode`, which writes each byte as two lower-case
/// hexadecimal digits, the higher half of the byte first.
#[verifier::external_body]
fn hex_encode(bytes: &[u8]) -> (out: String)
    ensures
        out@ == hex_chars(bytes@),
{
    hex::encode(bytes)
}

/// The info-hash of the repository named `name`, written in hexadecimal
/// digits: an identifier of the repository that holds no secret.
pub fn info_hash(name: &[u8]) -> (out: String)
    ensures
        out@ == hex_chars(sha3_256(name@).subrange(0, 20)),
        out@.len() == 40,
{
    let raw = repository_info_hash(name);
    hex_encode(raw.as_slice())
}

} // verus!
