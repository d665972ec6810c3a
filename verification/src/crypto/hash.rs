//! 256-bit digests.
//!
//! A digest is kept as two 128-bit words so that equality and ordering are
//! plain integer comparisons. Its byte form is little-endian: byte `i` of the
//! digest is byte `i` of `lo` for `i < 16` and byte `i - 16` of `hi` above.

use sha3::Digest;
use vstd::prelude::*;

verus! {

/// Number of bytes in a digest.
pub const HASH_SIZE: usize = 32;

/// `256^n`.
pub open spec fn pow256(n: nat) -> nat
    decreases n,
{
    if n == 0 {
        1
    } else {
        256 * pow256((n - 1) as nat)
    }
}

/// The number whose little-endian digits in base 256 are `s`.
pub open spec fn le_value(s: Seq<u8>) -> nat
    decreases s.len(),
{
    if s.len() == 0 {
        0
    } else {
        s[0] as nat + 256 * le_value(s.drop_first())
    }
}

/// The `n` low little-endian digits of `x` in base 256.
pub open spec fn le_bytes(x: nat, n: nat) -> Seq<u8>
    decreases n,
{
    if n == 0 {
        Seq::<u8>::empty()
    } else {
        seq![(x % 256) as u8] + le_bytes(x / 256, (n - 1) as nat)
    }
}

pub proof fn lemma_le_value_bound(s: Seq<u8>)
    ensures
        le_value(s) < pow256(s.len()),
    decreases s.len(),
{
    if s.len() > 0 {
        lemma_le_value_bound(s.drop_first());
    }
}

pub proof fn lemma_le_bytes_len(x: nat, n: nat)
    ensures
        le_bytes(x, n).len() == n,
    decreases n,
{
    if n > 0 {
        lemma_le_bytes_len(x / 256, (n - 1) as nat);
    }
}

/// Reading back the digits of a number gives the number, as far as the digits reach.
pub proof fn lemma_le_value_of_bytes(x: nat, n: nat)
    ensures
        le_value(le_bytes(x, n)) == x % pow256(n),
    decreases n,
{
    if n > 0 {
        let rest = le_bytes(x / 256, (n - 1) as nat);
        let all = le_bytes(x, n);
        lemma_le_value_of_bytes(x / 256, (n - 1) as nat);
        lemma_le_bytes_len(x / 256, (n - 1) as nat);
        assert(all.drop_first() =~= rest);
        let p = pow256((n - 1) as nat);
        lemma_pow256_positive((n - 1) as nat);
        lemma_mod_split(x, p);
    }
}

pub proof fn lemma_pow256_positive(n: nat)
    ensures
        pow256(n) > 0,
    decreases n,
{
    if n > 0 {
        lemma_pow256_positive((n - 1) as nat);
    }
}

proof fn lemma_mod_split(x: nat, p: nat)
    requires
        p > 0,
    ensures
        x % 256 + 256 * ((x / 256) % p) == x % (256 * p),
{
    let q = x / 256;
    let r = x % 256;
    let qq = q / p;
    let qr = q % p;
    assert(x == 256 * q + r);
    assert(q == p * qq + qr) by {
        vstd::arithmetic::div_mod::lemma_fundamental_div_mod(q as int, p as int);
    }
    assert(x == (256 * p) * qq + (256 * qr + r)) by (nonlinear_arith)
        requires
            x == 256 * q + r,
            q == p * qq + qr,
    ;
    assert(0 <= 256 * qr + r < 256 * p) by (nonlinear_arith)
        requires
            0 <= qr < p,
            0 <= r < 256,
    ;
    vstd::arithmetic::div_mod::lemma_fundamental_div_mod_converse(
        x as int,
        (256 * p) as int,
        qq as int,
        (256 * qr + r) as int,
    );
}

/// A 256-bit digest.
#[derive(Clone, Copy, Debug, PartialEq, Eq, PartialOrd, Ord, Hash, Structural)]
pub struct Hash {
    pub hi: u128,
    pub lo: u128,
}

/// What SHA3-256 returns for a given input, as 32 bytes.
pub uninterp spec fn sha3_256(data: Seq<u8>) -> Seq<u8>;

/// Calls `sha3::Sha3_256::digest` (the one-shot form of the `Digest` trait).
/// The digest depends on the input bytes alone; the contract gives it the
/// name `sha3_256` and says nothing more of its value.
#[verifier::external_body]
fn sha3_256_digest(data: &[u8]) -> (out: [u8; 32])
    ensures
        out@ == sha3_256(data@),
{
    let digest = sha3::Sha3_256::digest(data);
    let mut out = [0u8; 32];
    out.copy_from_slice(digest.as_slice());
    out
}

fn word_from_le(bytes: &[u8; 32], start: usize) -> (w: u128)
    requires
        start == 0 || start == 16,
    ensures
        w == le_value(bytes@.subrange(start as int, start + 16)),
{
    let mut acc: u128 = 0;
    let mut i: usize = 16;
    while i > 0
        invariant
            start == 0 || start == 16,
            i <= 16,
            acc == le_value(bytes@.subrange(start + i, start + 16)),
        decreases i,
    {
        proof {
            let tail = bytes@.subrange(start + i, start + 16);
            let next = bytes@.subrange(start + i - 1, start + 16);
            assert(next.drop_first() =~= tail);
            lemma_le_value_bound(tail);
            lemma_le_value_bound(next);
            reveal_with_fuel(pow256, 17);
            assert(pow256(16) == 0x1_0000_0000_0000_0000_0000_0000_0000_0000);
            lemma_pow256_monotone(next.len(), 16);
        }
        i = i - 1;
        acc = acc * 256 + bytes[start + i] as u128;
    }
    acc
}

/// The number whose little-endian digits in base 256 are `bytes`.
pub fn read_le(bytes: &[u8]) -> (w: u128)
    requires
        bytes@.len() <= 16,
    ensures
        w == le_value(bytes@),
{
    let n = bytes.len();
    let mut acc: u128 = 0;
    let mut i: usize = n;
    while i > 0
        invariant
            n == bytes@.len(),
            n <= 16,
            i <= n,
            acc == le_value(bytes@.subrange(i as int, n as int)),
        decreases i,
    {
        proof {
            let tail = bytes@.subrange(i as int, n as int);
            let next = bytes@.subrange(i - 1, n as int);
            assert(next.drop_first() =~= tail);
            lemma_le_value_bound(tail);
            lemma_le_value_bound(next);
            reveal_with_fuel(pow256, 17);
            assert(pow256(16) == 0x1_0000_0000_0000_0000_0000_0000_0000_0000);
            lemma_pow256_monotone(next.len(), 16);
        }
        i = i - 1;
        acc = acc * 256 + bytes[i] as u128;
    }
    assert(bytes@.subrange(0, n as int) =~= bytes@);
    acc
}

pub proof fn lemma_pow256_monotone(a: nat, b: nat)
    requires
        a <= b,
    ensures
        pow256(a) <= pow256(b),
    decreases b,
{
    if a < b {
        lemma_pow256_monotone(a, (b - 1) as nat);
    }
}

/// Appends the `n` low little-endian bytes of `x` to `out`.
pub fn push_le_bytes(x: u128, n: usize, out: &mut Vec<u8>)
    ensures
        final(out)@ == old(out)@ + le_bytes(x as nat, n as nat),
{
    let ghost start = out@;
    let mut rest: u128 = x;
    let mut k: usize = 0;
    while k < n
        invariant
            k <= n,
            out@ + le_bytes(rest as nat, (n - k) as nat) == start + le_bytes(x as nat, n as nat),
        decreases n - k,
    {
        let ghost before = out@;
        let b: u8 = (rest % 256) as u8;
        out.push(b);
        proof {
            let tail = le_bytes((rest / 256) as nat, (n - k - 1) as nat);
            assert(le_bytes(rest as nat, (n - k) as nat) == seq![b] + tail);
            assert(out@ + tail =~= before + (seq![b] + tail));
        }
        rest = rest / 256;
        k = k + 1;
    }
    assert(out@ + le_bytes(rest as nat, 0) =~= out@);
}

/// Appends the 16 little-endian bytes of `w` to `out`.
pub fn push_word_le(w: u128, out: &mut Vec<u8>)
    ensures
        final(out)@ == old(out)@ + le_bytes(w as nat, 16),
{
    push_le_bytes(w, 16, out)
}

/// Appends the 8 little-endian bytes of `x` to `out`.
pub fn push_u64_le(x: u64, out: &mut Vec<u8>)
    ensures
        final(out)@ == old(out)@ + le_bytes(x as nat, 8),
{
    push_le_bytes(x as u128, 8, out)
}

impl Hash {
    /// The digest whose byte form is `bytes`.
    pub open spec fn spec_from_bytes(bytes: Seq<u8>) -> Hash
        recommends
            bytes.len() == 32,
    {
        Hash {
            hi: le_value(bytes.subrange(16, 32)) as u128,
            lo: le_value(bytes.subrange(0, 16)) as u128,
        }
    }

    /// The 32 bytes of this digest.
    pub open spec fn spec_bytes(self) -> Seq<u8> {
        le_bytes(self.lo as nat, 16) + le_bytes(self.hi as nat, 16)
    }

    /// The all-zero digest.
    pub fn null() -> (h: Hash)
        ensures
            h == (Hash { hi: 0, lo: 0 }),
    {
        Hash { hi: 0, lo: 0 }
    }

    pub fn from_bytes(bytes: &[u8; 32]) -> (h: Hash)
        ensures
            h == Hash::spec_from_bytes(bytes@),
    {
        let lo = word_from_le(bytes, 0);
        let hi = word_from_le(bytes, 16);
        Hash { hi, lo }
    }

    /// Reads a digest from a slice, which must hold exactly 32 bytes.
    pub fn try_from_slice(bytes: &[u8]) -> (r: Option<Hash>)
        ensures
            r.is_some() <==> bytes@.len() == 32,
            r.is_some() ==> r.unwrap() == Hash::spec_from_bytes(bytes@),
    {
        if bytes.len() != 32 {
            return None;
        }
        let mut buf = [0u8; 32];
        let mut i: usize = 0;
        while i < 32
            invariant
                i <= 32,
                bytes@.len() == 32,
                forall|j: int| 0 <= j < i ==> buf@[j] == bytes@[j],
            decreases 32 - i,
        {
            buf[i] = bytes[i];
            i = i + 1;
        }
        assert(buf@ =~= bytes@);
        Some(Hash::from_bytes(&buf))
    }

    pub fn to_bytes(&self) -> (out: Vec<u8>)
        ensures
            out@ == self.spec_bytes(),
            out@.len() == 32,
    {
        let mut out: Vec<u8> = Vec::new();
        self.write_to(&mut out);
        proof {
            lemma_le_bytes_len(self.lo as nat, 16);
            lemma_le_bytes_len(self.hi as nat, 16);
            assert(out@ =~= self.spec_bytes());
        }
        out
    }

    /// Appends the 32 bytes of this digest to `out`.
    pub fn write_to(&self, out: &mut Vec<u8>)
        ensures
            final(out)@ == old(out)@ + self.spec_bytes(),
    {
        let ghost start = out@;
        push_word_le(self.lo, out);
        push_word_le(self.hi, out);
        assert(out@ =~= start + self.spec_bytes());
    }

    /// Strict order on digests: by `hi`, then by `lo`.
    pub open spec fn spec_lt(self, other: Hash) -> bool {
        self.hi < other.hi || (self.hi == other.hi && self.lo < other.lo)
    }

    pub fn lt(&self, other: &Hash) -> (r: bool)
        ensures
            r == self.spec_lt(*other),
    {
        self.hi < other.hi || (self.hi == other.hi && self.lo < other.lo)
    }

    /// SHA3-256 of `data`, as bytes.
    pub fn digest_bytes(data: &[u8]) -> (out: [u8; 32])
        ensures
            out@ == sha3_256(data@),
    {
        sha3_256_digest(data)
    }

    /// SHA3-256 of `data`.
    pub fn digest(data: &[u8]) -> (h: Hash)
        ensures
            h == Hash::spec_from_bytes(sha3_256(data@)),
    {
        let out = sha3_256_digest(data);
        Hash::from_bytes(&out)
    }
}

/// Writing a digest out and reading it back gives the same digest.
pub proof fn law_hash_bytes_round_trip(h: Hash)
    ensures
        h.spec_bytes().len() == 32,
        Hash::spec_from_bytes(h.spec_bytes()) == h,
{
    let lo = le_bytes(h.lo as nat, 16);
    let hi = le_bytes(h.hi as nat, 16);
    lemma_le_bytes_len(h.lo as nat, 16);
    lemma_le_bytes_len(h.hi as nat, 16);
    assert(h.spec_bytes().subrange(0, 16) =~= lo);
    assert(h.spec_bytes().subrange(16, 32) =~= hi);
    lemma_le_value_of_bytes(h.lo as nat, 16);
    lemma_le_value_of_bytes(h.hi as nat, 16);
    reveal_with_fuel(pow256, 17);
    assert(pow256(16) == 0x1_0000_0000_0000_0000_0000_0000_0000_0000);
    vstd::arithmetic::div_mod::lemma_small_mod(h.lo as nat, pow256(16));
    vstd::arithmetic::div_mod::lemma_small_mod(h.hi as nat, pow256(16));
    assert(le_value(lo) == h.lo);
    assert(le_value(hi) == h.hi);
}

} // verus!
