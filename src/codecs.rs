//! Contracts of the hashing, random-number and compression routines that the
//! set is built on.
use vstd::prelude::*;

verus! {

/// The 64-bit hash of `bytes` under `seed`, as computed by wyhash (v1).
pub uninterp spec fn wyhash_of(bytes: Seq<u8>, seed: u64) -> u64;


/// What lz4's size-prepended block decoder makes of `blob`: the decoded
/// bytes, or `None` where the blob is malformed.
pub uninterp spec fn lz4_decoded(blob: Seq<u8>) -> Option<Seq<u8>>;

/// The additive step of wyhash's generator.
pub const RNG_STEP: u64 = 0xa076_1d64_78bd_642f;

/// The constant wyhash's generator mixes the new state with.
pub const RNG_MIX: u64 = 0xe703_7ed1_a0b4_28db;

/// The generator's state after one draw from `state`: a wrapping addition.
pub open spec fn rng_advance(state: u64) -> u64 {
    ((state as int + RNG_STEP as int) % 0x1_0000_0000_0000_0000) as u64
}

/// wyhash's multiply-and-fold: the 128-bit product of `a` and `b`, with its
/// high half xored onto its low half.
pub open spec fn wymum(a: u64, b: u64) -> u64 {
    let r = ((a as int) * (b as int)) as u128;
    ((r >> 64u128) ^ r) as u64
}

/// The value wyhash's generator returns when its state is `state`.
pub open spec fn wyrng_output(state: u64) -> u64 {
    let s = rng_advance(state);
    wymum(s ^ RNG_MIX, s)
}

/// Relies on `wyhash::wyhash`: a deterministic function of the bytes and the
/// seed, defined on every input.
pub assume_specification[ wyhash::wyhash ](bytes: &[u8], seed: u64) -> (r: u64)
    ensures
        r == wyhash_of(bytes@, seed),
;

/// Relies on `wyhash::wyrng`: it adds `RNG_STEP` to the state (wrapping) and
/// returns `wymum(state ^ RNG_MIX, state)` of the new state.
pub assume_specification[ wyhash::wyrng ](seed: &mut u64) -> (r: u64)
    ensures
        *final(seed) == rng_advance(*old(seed)),
        r == wyrng_output(*old(seed)),
;

/// Relies on `lz4_flex::compress_prepend_size`: the blob carries the input's
/// length as a 4-byte little-endian header, so the input's length must fit
/// it, and `lz4_flex::decompress_size_prepended` gives the input back.
#[verifier::external_body]
pub(crate) fn lz4_compress(input: &[u8]) -> (r: Vec<u8>)
    requires
        input@.len() <= u32::MAX,
    ensures
        lz4_decoded(r@) == Some(input@),
{
    lz4_flex::compress_prepend_size(input)
}

/// Relies on `lz4_flex::decompress_size_prepended`: a deterministic decoder
/// that reports a malformed blob as an error.
#[verifier::external_body]
pub(crate) fn lz4_decompress(blob: &[u8]) -> (r: Option<Vec<u8>>)
    ensures
        match r {
            Some(v) => lz4_decoded(blob@) == Some(v@),
            None => lz4_decoded(blob@) is None,
        },
{
    lz4_flex::decompress_size_prepended(blob).ok()
}

} // verus!
