//! FNV-1a hashing of byte streams, through the `fnv` crate.

use std::hash::Hasher;
use vstd::prelude::*;

verus! {

/// The FNV-1a offset basis: the state of a fresh `fnv::FnvHasher`.
pub const FNV_OFFSET_BASIS: u64 = 0xcbf29ce484222325;

/// The 64-bit FNV prime.
pub const FNV_PRIME: u64 = 0x100000001b3;

/// One FNV-1a step: xor the byte in, then multiply by the prime modulo 2^64.
pub open spec fn fnv_step(h: u64, b: u8) -> u64 {
    (((h ^ (b as u64)) as int * FNV_PRIME as int) % 0x1_0000_0000_0000_0000int) as u64
}

/// The FNV-1a state after feeding `bytes`, in order, into state `h`.
pub open spec fn fnv_fold(h: u64, bytes: Seq<u8>) -> u64
    decreases bytes.len(),
{
    if bytes.len() == 0 {
        h
    } else {
        fnv_fold(fnv_step(h, bytes[0]), bytes.drop_first())
    }
}

/// The state of a fresh `fnv::FnvHasher` (`FnvHasher::default`), read back with `finish`.
/// Contract: `FnvHasher::default` starts from the offset basis, and `finish`
/// returns the state unchanged.
#[verifier::external_body]
pub(crate) fn fnv_initial_state() -> (r: u64)
    ensures
        r == FNV_OFFSET_BASIS,
{
    fnv::FnvHasher::default().finish()
}

/// Feeds `bytes` into an `fnv::FnvHasher` whose state is `state`
/// (`FnvHasher::with_key`, then `write`, then `finish`). Contract: `write` takes
/// one FNV-1a step per byte, in order.
#[verifier::external_body]
pub(crate) fn fnv_write(state: u64, bytes: &[u8]) -> (r: u64)
    ensures
        r == fnv_fold(state, bytes@),
{
    let mut h = fnv::FnvHasher::with_key(state);
    h.write(bytes);
    h.finish()
}

/// Feeds one byte into an `fnv::FnvHasher` whose state is `state`
/// (`FnvHasher::with_key`, then `Hasher::write_u8`, then `finish`). Contract:
/// `write_u8` is `write` of that one byte, one FNV-1a step.
#[verifier::external_body]
pub(crate) fn fnv_write_u8(state: u64, byte: u8) -> (r: u64)
    ensures
        r == fnv_step(state, byte),
{
    let mut h = fnv::FnvHasher::with_key(state);
    h.write_u8(byte);
    h.finish()
}

/// One `write` of `bytes` into a chunk-boundary-sensitive hasher in state `h`:
/// the bytes, then the boundary byte 0xFF.
pub open spec fn boundary_write(h: u64, bytes: Seq<u8>) -> u64 {
    fnv_step(fnv_fold(h, bytes), 0xFF)
}

/// The state after the writes `ws`, in order, from state `h`.
pub open spec fn boundary_writes(h: u64, ws: Seq<Seq<u8>>) -> u64
    decreases ws.len(),
{
    if ws.len() == 0 {
        h
    } else {
        boundary_writes(boundary_write(h, ws[0]), ws.drop_first())
    }
}

/// One more write after a sequence of writes.
pub proof fn lemma_boundary_writes_push(h: u64, ws: Seq<Seq<u8>>, w: Seq<u8>)
    ensures
        boundary_writes(h, ws.push(w)) == boundary_write(boundary_writes(h, ws), w),
    decreases ws.len(),
{
    if ws.len() == 0 {
        assert(ws.push(w).drop_first() =~= Seq::<Seq<u8>>::empty());
        assert(ws.push(w)[0] == w);
        assert(boundary_writes(boundary_write(h, w), ws.push(w).drop_first()) == boundary_write(h, w));
    } else {
        assert(ws.push(w).drop_first() =~= ws.drop_first().push(w));
        assert(ws.push(w)[0] == ws[0]);
        lemma_boundary_writes_push(boundary_write(h, ws[0]), ws.drop_first(), w);
    }
}

/// A hasher that marks the end of every `write` with a boundary byte, so that
/// the way a byte stream is split into writes shows in the hash.
pub struct ChunkBoundarySensitiveHasher {
    state: u64,
}

impl View for ChunkBoundarySensitiveHasher {
    type V = u64;

    /// The FNV-1a state.
    closed spec fn view(&self) -> u64 {
        self.state
    }
}

impl Default for ChunkBoundarySensitiveHasher {
    /// A hasher in the state of a fresh `fnv::FnvHasher`.
    fn default() -> (r: ChunkBoundarySensitiveHasher)
        ensures
            r@ == FNV_OFFSET_BASIS,
    {
        ChunkBoundarySensitiveHasher { state: fnv_initial_state() }
    }
}

impl ChunkBoundarySensitiveHasher {
    /// The hash of everything written so far.
    pub fn finish(&self) -> (r: u64)
        ensures
            r == self@,
    {
        self.state
    }

    /// Writes `bytes`, then the boundary byte 0xFF.
    pub fn write(&mut self, bytes: &[u8])
        ensures
            final(self)@ == boundary_write(old(self)@, bytes@),
    {
        let s = fnv_write(self.state, bytes);
        self.state = fnv_write_u8(s, 0xFF);
    }

    /// Writes the single byte `byte`, as a write of its own.
    pub fn write_u8(&mut self, byte: u8)
        ensures
            final(self)@ == boundary_write(old(self)@, seq![byte]),
    {
        let ghost h = self.state;
        proof {
            assert(seq![byte].drop_first() =~= Seq::<u8>::empty());
            assert(seq![byte][0] == byte);
            assert(fnv_fold(fnv_step(h, byte), Seq::<u8>::empty()) == fnv_step(h, byte));
            assert(fnv_fold(h, seq![byte]) == fnv_step(h, byte));
        }
        let s = fnv_write_u8(self.state, byte);
        self.state = fnv_write_u8(s, 0xFF);
    }
}

} // verus!
