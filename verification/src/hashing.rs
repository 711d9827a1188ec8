//! Bit-packing of a constellation pair into a 64-bit hash.
//!
//! A hash holds three fields: anchor bin `f1` in bits 20..32, target bin
//! `f2` in bits 8..20, and time delta `dt` in bits 0..8. Bits 32..64 are
//! always zero. The encoding is injective for `f1, f2 < 4096` and
//! `dt < 256`, and the unpacking functions recover the exact triple.

use vstd::prelude::*;

verus! {

/// The packed hash as plain arithmetic: `f1·2^20 + f2·2^8 + dt`.
pub open spec fn hash_of(f1: int, f2: int, dt: int) -> int {
    f1 * 0x100000 + f2 * 0x100 + dt
}

/// The packed hash as bit operations, as the packer computes it.
pub open spec fn spec_pack_hash(f1: u64, f2: u64, dt: u64) -> u64 {
    (f1 << 20) | (f2 << 8) | dt
}

/// Anchor bin recovered from a packed hash.
pub open spec fn spec_unpack_f1(h: u64) -> u64 {
    (h >> 20) & 0xfff
}

/// Target bin recovered from a packed hash.
pub open spec fn spec_unpack_f2(h: u64) -> u64 {
    (h >> 8) & 0xfff
}

/// Time delta recovered from a packed hash.
pub open spec fn spec_unpack_dt(h: u64) -> u64 {
    h & 0xff
}

/// Packs an anchor bin, a target bin and a time delta into one hash.
pub fn pack_hash(f1: usize, f2: usize, dt: usize) -> (h: u64)
    requires
        f1 < 4096,
        f2 < 4096,
        dt < 256,
    ensures
        h == spec_pack_hash(f1 as u64, f2 as u64, dt as u64),
        h as int == hash_of(f1 as int, f2 as int, dt as int),
{
    let a = f1 as u64;
    let b = f2 as u64;
    let c = dt as u64;
    let h = (a << 20) | (b << 8) | c;
    proof {
        assert((a << 20u64) | (b << 8u64) | c == a * 0x100000 + b * 0x100 + c) by (bit_vector)
            requires
                a < 4096u64,
                b < 4096u64,
                c < 256u64,
        ;
    }
    h
}

/// Extracts the anchor bin field from a packed hash.
pub fn unpack_f1(h: u64) -> (r: u64)
    ensures
        r == spec_unpack_f1(h),
{
    (h >> 20) & 0xfff
}

/// Extracts the target bin field from a packed hash.
pub fn unpack_f2(h: u64) -> (r: u64)
    ensures
        r == spec_unpack_f2(h),
{
    (h >> 8) & 0xfff
}

/// Extracts the time-delta field from a packed hash.
pub fn unpack_dt(h: u64) -> (r: u64)
    ensures
        r == spec_unpack_dt(h),
{
    h & 0xff
}

/// Round trip: for every triple with `f1, f2 < 4096` and `dt < 256`,
/// unpacking the packed hash recovers exactly the original fields, and the
/// high 32 bits of the hash are zero.
pub proof fn lemma_hash_round_trip(f1: u64, f2: u64, dt: u64)
    requires
        f1 < 4096,
        f2 < 4096,
        dt < 256,
    ensures
        spec_unpack_f1(spec_pack_hash(f1, f2, dt)) == f1,
        spec_unpack_f2(spec_pack_hash(f1, f2, dt)) == f2,
        spec_unpack_dt(spec_pack_hash(f1, f2, dt)) == dt,
        spec_pack_hash(f1, f2, dt) >> 32 == 0,
{
    assert((((f1 << 20) | (f2 << 8) | dt) >> 20) & 0xfff == f1) by (bit_vector)
        requires
            f1 < 4096u64,
            f2 < 4096u64,
            dt < 256u64,
    ;
    assert((((f1 << 20) | (f2 << 8) | dt) >> 8) & 0xfff == f2) by (bit_vector)
        requires
            f1 < 4096u64,
            f2 < 4096u64,
            dt < 256u64,
    ;
    assert(((f1 << 20) | (f2 << 8) | dt) & 0xff == dt) by (bit_vector)
        requires
            f1 < 4096u64,
            f2 < 4096u64,
            dt < 256u64,
    ;
    assert(((f1 << 20) | (f2 << 8) | dt) >> 32 == 0) by (bit_vector)
        requires
            f1 < 4096u64,
            f2 < 4096u64,
            dt < 256u64,
    ;
}

} // verus!
