//! Buffers for the content of a block, and a cursor over one.

use crate::crypto::hash::{
    le_bytes, le_value, lemma_le_bytes_len, lemma_le_value_bound, pow256, push_le_bytes,
};
use crate::protocol::block::BLOCK_SIZE;
use zeroize::Zeroize;
use vstd::prelude::*;

verus! {

/// Calls `zeroize::Zeroize::zeroize` on the bytes as a slice, which
/// writes zero over each of them and leaves their number as it is. The
/// only test in it is that the length fits `isize`, which holds of every
/// `Vec`, so it does not panic.
#[verifier::external_body]
fn zeroize_bytes(bytes: &mut Vec<u8>)
    ensures
        final(bytes)@.len() == old(bytes)@.len(),
        forall|i: int| 0 <= i < final(bytes)@.len() ==> final(bytes)@[i] == 0u8,
    opens_invariants none
    no_unwind
{
    bytes.as_mut_slice().zeroize();
}

/// Buffer for keeping loaded block content and also for in-place
/// encryption and decryption.
#[derive(Clone, Debug)]
pub struct Buffer {
    pub bytes: Vec<u8>,
}

impl Buffer {
    pub open spec fn wf(&self) -> bool {
        self.bytes@.len() == BLOCK_SIZE
    }

    /// A buffer of the size of a block, filled with zeros.
    pub fn new() -> (b: Buffer)
        ensures
            b.wf(),
            forall|i: int| 0 <= i < b.bytes@.len() ==> b.bytes@[i] == 0u8,
    {
        let mut bytes: Vec<u8> = Vec::new();
        let mut i: usize = 0;
        while i < BLOCK_SIZE
            invariant
                i <= BLOCK_SIZE,
                bytes@.len() == i,
                forall|j: int| 0 <= j < i ==> bytes@[j] == 0u8,
            decreases BLOCK_SIZE - i,
        {
            bytes.push(0);
            i = i + 1;
        }
        Buffer { bytes }
    }

    /// Writes zeros over the buffer, so that no decrypted data is left in
    /// memory past its use.
    pub fn scramble(&mut self)
        ensures
            final(self).bytes@.len() == old(self).bytes@.len(),
            forall|i: int| 0 <= i < final(self).bytes@.len() ==> final(self).bytes@[i] == 0u8,
        opens_invariants none
        no_unwind
    {
        zeroize_bytes(&mut self.bytes);
    }

    pub fn len(&self) -> (n: usize)
        ensures
            n == self.bytes@.len(),
    {
        self.bytes.len()
    }
}

impl Drop for Buffer {
    /// The buffer is scrubbed when it goes away.
    fn drop(&mut self)
        opens_invariants none
        no_unwind
    {
        self.scramble();
    }
}

/// Wrapper for `Buffer` with an internal position which advances when
/// data is read from or written to the buffer.
#[derive(Clone, Debug)]
pub struct Cursor {
    pub buffer: Buffer,
    pub pos: usize,
}

/// The smaller of `a` and `b`.
pub open spec fn spec_min(a: int, b: int) -> int {
    if a <= b {
        a
    } else {
        b
    }
}

impl Cursor {
    /// The position is within the buffer or at its end.
    pub open spec fn wf(&self) -> bool {
        self.pos <= self.buffer.bytes@.len()
    }

    /// Number of bytes from the position to the end of the buffer.
    pub open spec fn spec_remaining(&self) -> int {
        self.buffer.bytes@.len() - self.pos
    }

    pub fn new(buffer: Buffer) -> (c: Cursor)
        ensures
            c.wf(),
            c.buffer == buffer,
            c.pos == 0,
    {
        Cursor { buffer, pos: 0 }
    }

    /// Reads data from the buffer into `dst` and advances the internal
    /// position. Returns the number of bytes actually read: as many as
    /// are left in the buffer, or as `dst` can take.
    pub fn read(&mut self, dst: &mut Vec<u8>) -> (n: usize)
        requires
            old(self).wf(),
        ensures
            final(self).wf(),
            n == spec_min(old(self).spec_remaining(), old(dst)@.len() as int),
            final(self).pos == old(self).pos + n,
            final(self).buffer == old(self).buffer,
            final(dst)@ == old(self).buffer.bytes@.subrange(
                old(self).pos as int,
                old(self).pos + n,
            ) + old(dst)@.subrange(n as int, old(dst)@.len() as int),
    {
        let len = self.buffer.bytes.len();
        let pos = self.pos;
        let left = len - pos;
        let n = if left <= dst.len() {
            left
        } else {
            dst.len()
        };
        let mut i: usize = 0;
        while i < n
            invariant
                i <= n,
                n <= dst@.len(),
                pos == self.pos,
                len == self.buffer.bytes@.len(),
                pos + n <= len,
                dst@.len() == old(dst)@.len(),
                *self == *old(self),
                forall|j: int| 0 <= j < i ==> dst@[j] == self.buffer.bytes@[self.pos + j],
                forall|j: int| i <= j < dst@.len() ==> dst@[j] == old(dst)@[j],
            decreases n - i,
        {
            dst.set(i, self.buffer.bytes[pos + i]);
            i = i + 1;
        }
        proof {
            assert(dst@ =~= old(self).buffer.bytes@.subrange(
                old(self).pos as int,
                old(self).pos + n,
            ) + old(dst)@.subrange(n as int, old(dst)@.len() as int));
        }
        self.pos = pos + n;
        n
    }

    /// Read data from the buffer into a fixed-length array.
    pub fn read_array<const N: usize>(&mut self) -> (out: [u8; N])
        requires
            old(self).wf(),
            old(self).spec_remaining() >= N,
        ensures
            final(self).wf(),
            final(self).pos == old(self).pos + N,
            final(self).buffer == old(self).buffer,
            out@ == old(self).buffer.bytes@.subrange(old(self).pos as int, old(self).pos + N),
    {
        let mut out = [0u8; N];
        let len = self.buffer.bytes.len();
        let pos = self.pos;
        let mut i: usize = 0;
        while i < N
            invariant
                i <= N,
                pos == self.pos,
                len == self.buffer.bytes@.len(),
                pos + N <= len,
                *self == *old(self),
                forall|j: int| 0 <= j < i ==> out@[j] == self.buffer.bytes@[self.pos + j],
            decreases N - i,
        {
            out[i] = self.buffer.bytes[pos + i];
            i = i + 1;
        }
        proof {
            assert(out@ =~= old(self).buffer.bytes@.subrange(
                old(self).pos as int,
                old(self).pos + N,
            ));
        }
        self.pos = pos + N;
        out
    }

    /// Read data from the buffer into a `u64`, from eight little-endian bytes.
    pub fn read_u64(&mut self) -> (value: u64)
        requires
            old(self).wf(),
            old(self).spec_remaining() >= 8,
        ensures
            final(self).wf(),
            final(self).pos == old(self).pos + 8,
            final(self).buffer == old(self).buffer,
            value == le_value(
                old(self).buffer.bytes@.subrange(old(self).pos as int, old(self).pos + 8),
            ),
    {
        let bytes: [u8; 8] = self.read_array();
        let mut acc: u64 = 0;
        let mut i: usize = 8;
        while i > 0
            invariant
                i <= 8,
                acc == le_value(bytes@.subrange(i as int, 8)),
            decreases i,
        {
            proof {
                let tail = bytes@.subrange(i as int, 8);
                let next = bytes@.subrange(i - 1, 8);
                assert(next.drop_first() =~= tail);
                lemma_le_value_bound(tail);
                lemma_le_value_bound(next);
                reveal_with_fuel(pow256, 9);
                assert(pow256(8) == 0x1_0000_0000_0000_0000);
                crate::crypto::hash::lemma_pow256_monotone(next.len(), 8);
            }
            i = i - 1;
            acc = acc * 256 + bytes[i] as u64;
        }
        assert(bytes@.subrange(0, 8) =~= bytes@);
        acc
    }

    /// Writes data from `src` into the buffer and advances the internal
    /// position. Returns the number of bytes actually written: as many as
    /// there is room for in the buffer, or as `src` holds.
    pub fn write(&mut self, src: &[u8]) -> (n: usize)
        requires
            old(self).wf(),
        ensures
            final(self).wf(),
            n == spec_min(old(self).spec_remaining(), src@.len() as int),
            final(self).pos == old(self).pos + n,
            final(self).buffer.bytes@ == old(self).buffer.bytes@.subrange(
                0,
                old(self).pos as int,
            ) + src@.subrange(0, n as int) + old(self).buffer.bytes@.subrange(
                old(self).pos + n,
                old(self).buffer.bytes@.len() as int,
            ),
    {
        let len = self.buffer.bytes.len();
        let pos = self.pos;
        let left = len - pos;
        let n = if left <= src.len() {
            left
        } else {
            src.len()
        };
        let mut i: usize = 0;
        while i < n
            invariant
                i <= n,
                n <= src@.len(),
                self.pos == old(self).pos,
                pos == self.pos,
                len == self.buffer.bytes@.len(),
                pos + n <= len,
                self.buffer.bytes@.len() == old(self).buffer.bytes@.len(),
                forall|j: int| 0 <= j < i ==> self.buffer.bytes@[self.pos + j] == src@[j],
                forall|j: int|
                    0 <= j < self.buffer.bytes@.len() && !(self.pos <= j < self.pos + i)
                        ==> self.buffer.bytes@[j] == old(self).buffer.bytes@[j],
            decreases n - i,
        {
            self.buffer.bytes.set(pos + i, src[i]);
            i = i + 1;
        }
        proof {
            assert(self.buffer.bytes@ =~= old(self).buffer.bytes@.subrange(
                0,
                old(self).pos as int,
            ) + src@.subrange(0, n as int) + old(self).buffer.bytes@.subrange(
                old(self).pos + n,
                old(self).buffer.bytes@.len() as int,
            ));
        }
        self.pos = pos + n;
        n
    }

    /// Write a `u64` into the buffer, as eight little-endian bytes.
    pub fn write_u64(&mut self, value: u64)
        requires
            old(self).wf(),
            old(self).spec_remaining() >= 8,
        ensures
            final(self).wf(),
            final(self).pos == old(self).pos + 8,
            final(self).buffer.bytes@ == old(self).buffer.bytes@.subrange(
                0,
                old(self).pos as int,
            ) + le_bytes(value as nat, 8) + old(self).buffer.bytes@.subrange(
                old(self).pos + 8,
                old(self).buffer.bytes@.len() as int,
            ),
    {
        let mut bytes: Vec<u8> = Vec::new();
        push_le_bytes(value as u128, 8, &mut bytes);
        proof {
            lemma_le_bytes_len(value as nat, 8);
            assert(bytes@ =~= le_bytes(value as nat, 8));
        }
        self.write(bytes.as_slice());
        proof {
            assert(bytes@.subrange(0, 8) =~= bytes@);
        }
    }
}

} // verus!
