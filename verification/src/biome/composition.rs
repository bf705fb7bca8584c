//! The deterministic visual-variation seed of a biome composition: an FNV-1a
//! hash of its flavour names, mixed with the rotated biome seed.
use vstd::prelude::*;
use vstd::string::StringSliceAdditionalSpecFns;
use crate::seed::hierarchy::BiomeSeed;

verus! {

/// FNV-1a 64-bit offset basis.
pub const FNV_OFFSET: u64 = 0xcbf2_9ce4_8422_2325;
/// FNV-1a 64-bit prime.
pub const FNV_PRIME: u64 = 0x0000_0100_0000_01b3;

/// `a * b` modulo 2^64.
pub open spec fn mul_wrap(a: u64, b: u64) -> u64 {
    ((a as int * b as int) % 0x1_0000_0000_0000_0000) as u64
}

/// FNV-1a over `bytes`, starting from `h`.
pub open spec fn fnv1a(h: u64, bytes: Seq<u8>) -> u64
    decreases bytes.len(),
{
    if bytes.len() == 0 {
        h
    } else {
        mul_wrap(fnv1a(h, bytes.drop_last()) ^ (bytes.last() as u64), FNV_PRIME)
    }
}

/// The bytes of all `names`, one after the other.
pub open spec fn joined_bytes(names: Seq<&str>) -> Seq<u8>
    decreases names.len(),
{
    if names.len() == 0 {
        Seq::empty()
    } else {
        joined_bytes(names.drop_last()) + names.last().spec_bytes()
    }
}

/// `x` rotated left by `n` bits (`0 < n < 64`).
pub open spec fn rotl(x: u64, n: u64) -> u64 {
    (x << n) | (x >> (64 - n) as u64)
}

/// The variation seed of a composition whose parts are named `names`.
pub open spec fn variation_seed_spec(names: Seq<&str>, seed: u64) -> u64 {
    mul_wrap(fnv1a(FNV_OFFSET, joined_bytes(names)) ^ rotl(seed, 13), FNV_PRIME)
}

/// `x` rotated left by `n` bits, as `u64::rotate_left` computes it.
fn rotate_left_u64(x: u64, n: u32) -> (r: u64)
    requires
        0 < n < 64,
    ensures
        r == rotl(x, n as u64),
{
    let k: u64 = n as u64;
    (x << k) | (x >> (64 - k))
}

fn fnv_step(h: u64, byte: u8) -> (r: u64)
    ensures
        r == mul_wrap(h ^ (byte as u64), FNV_PRIME),
{
    (h ^ byte as u64).wrapping_mul(FNV_PRIME)
}

/// Deterministic visual variation seed: the part names hashed with FNV-1a,
/// mixed with the biome seed rotated left by 13 bits, then one more FNV
/// multiplication.
pub fn variation_seed(part_names: &[&str], seed: BiomeSeed) -> (v: u64)
    ensures
        v == variation_seed_spec(part_names@, seed.0),
{
    let mut h: u64 = FNV_OFFSET;
    let mut p: usize = 0;
    while p < part_names.len()
        invariant
            0 <= p <= part_names@.len(),
            h == fnv1a(FNV_OFFSET, joined_bytes(part_names@.take(p as int))),
        decreases part_names@.len() - p,
    {
        let bytes = part_names[p].as_bytes();
        let ghost before = joined_bytes(part_names@.take(p as int));
        let mut i: usize = 0;
        while i < bytes.len()
            invariant
                0 <= i <= bytes@.len(),
                h == fnv1a(FNV_OFFSET, before + bytes@.take(i as int)),
            decreases bytes@.len() - i,
        {
            let ghost prefix = before + bytes@.take(i as int);
            h = fnv_step(h, bytes[i]);
            assert((before + bytes@.take(i + 1)).drop_last() =~= prefix);
            i = i + 1;
        }
        assert(bytes@.take(bytes@.len() as int) =~= bytes@);
        assert(part_names@.take(p + 1).drop_last() =~= part_names@.take(p as int));
        p = p + 1;
    }
    assert(part_names@.take(part_names@.len() as int) =~= part_names@);
    h = h ^ rotate_left_u64(seed.0, 13);
    h.wrapping_mul(FNV_PRIME)
}

} // verus!
