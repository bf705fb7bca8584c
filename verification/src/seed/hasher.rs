//! Stable derivation of child seeds: a child seed is the 64-bit XXH3 hash of
//! the parent seed's little-endian bytes followed by an index or a label.
use vstd::prelude::*;
use vstd::bytes::spec_u64_to_le_bytes;
use vstd::string::StringSliceAdditionalSpecFns;
use xxhash_rust::xxh3::xxh3_64;

verus! {

/// The 64-bit XXH3 hash (default secret, seed 0) of a byte string.
pub uninterp spec fn xxh3_64_of(input: Seq<u8>) -> u64;

/// Calls `xxhash_rust::xxh3::xxh3_64`, which hashes `input` with the default
/// secret and seed 0. The hash is a function of the bytes alone, so the result
/// is named `xxh3_64_of(input@)`; nothing else is claimed of its value.
#[verifier::external_body]
fn xxh3_hash(input: &[u8]) -> (h: u64)
    ensures
        h == xxh3_64_of(input@),
{
    xxh3_64(input)
}

/// The child seed at position `index` under `parent`.
pub open spec fn derive_spec(parent: u64, index: u64) -> u64 {
    xxh3_64_of(spec_u64_to_le_bytes(parent) + spec_u64_to_le_bytes(index))
}

/// The child seed named `label` under `parent`.
pub open spec fn derive_label_spec(parent: u64, label: Seq<u8>) -> u64 {
    xxh3_64_of(spec_u64_to_le_bytes(parent) + label)
}

fn push_all(buf: &mut Vec<u8>, src: &[u8])
    ensures
        final(buf)@ == old(buf)@ + src@,
{
    let mut i: usize = 0;
    while i < src.len()
        invariant
            0 <= i <= src@.len(),
            buf@ == old(buf)@ + src@.take(i as int),
        decreases src@.len() - i,
    {
        buf.push(src[i]);
        i = i + 1;
        assert(buf@ =~= old(buf)@ + src@.take(i as int));
    }
    assert(src@.take(src@.len() as int) =~= src@);
}

/// Derives the child seed at position `index` from `parent`.
pub fn derive(parent: u64, index: u64) -> (child: u64)
    ensures
        child == derive_spec(parent, index),
{
    let mut buf = vstd::bytes::u64_to_le_bytes(parent);
    let tail = vstd::bytes::u64_to_le_bytes(index);
    push_all(&mut buf, tail.as_slice());
    xxh3_hash(buf.as_slice())
}

/// Derives the child seed named `label` from `parent`.
pub fn derive_label(parent: u64, label: &str) -> (child: u64)
    ensures
        child == derive_label_spec(parent, label.spec_bytes()),
{
    let label_bytes = label.as_bytes();
    let mut buf = vstd::bytes::u64_to_le_bytes(parent);
    push_all(&mut buf, label_bytes);
    xxh3_hash(buf.as_slice())
}

} // verus!
