//! Integer hashing behind the clustered brick-type noise.
use vstd::prelude::*;

verus! {

/// Multiplier of the pair hash.
pub const PAIR_HASH_MUL: u64 = 0x517c_c1b7_2722_0a95;

/// `a * PAIR_HASH_MUL + b` modulo 2^64, with its top bits folded down by a
/// 31-bit xor-shift.
pub open spec fn pair_hash(a: u64, b: u64) -> u64 {
    let h = ((a as int * PAIR_HASH_MUL as int + b as int) % 0x1_0000_0000_0000_0000) as u64;
    h ^ (h >> 31u64)
}

/// Mixes two 64-bit values into one.
pub fn hash_pair(a: u64, b: u64) -> (h: u64)
    ensures
        h == pair_hash(a, b),
{
    let h = a.wrapping_mul(PAIR_HASH_MUL).wrapping_add(b);
    proof {
        let m = (a as int * PAIR_HASH_MUL as int) % 0x1_0000_0000_0000_0000;
        vstd::arithmetic::div_mod::lemma_add_mod_noop(a as int * PAIR_HASH_MUL as int, b as int, 0x1_0000_0000_0000_0000);
        vstd::arithmetic::div_mod::lemma_mod_twice(b as int, 0x1_0000_0000_0000_0000);
        vstd::arithmetic::div_mod::lemma_small_mod(b as nat, 0x1_0000_0000_0000_0000);
    }
    h ^ (h >> 31)
}

} // verus!
