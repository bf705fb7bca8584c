use metanoid_procgen::seed::hasher::derive_label;

#[test]
fn hasher_deterministic() {
    assert_eq!(metanoid_procgen::seed::hasher::derive(100, 0), metanoid_procgen::seed::hasher::derive(100, 0));
    assert_eq!(
        derive_label(100, "structure"),
        derive_label(100, "structure")
    );
}

#[test]
fn different_inputs_differ() {
    assert_ne!(metanoid_procgen::seed::hasher::derive(100, 0), metanoid_procgen::seed::hasher::derive(100, 1));
    assert_ne!(metanoid_procgen::seed::hasher::derive(100, 0), metanoid_procgen::seed::hasher::derive(200, 0));
}

#[test]
fn label_derivation() {
    let a = derive_label(42, "structure");
    let b = derive_label(42, "bricks");
    assert_ne!(a, b);
}

#[test]
fn avalanche_small_change() {
    let a = metanoid_procgen::seed::hasher::derive(0, 0);
    let b = metanoid_procgen::seed::hasher::derive(0, 1);
    assert_ne!(a, b);
    let diff = (a ^ b).count_ones();
    assert!(diff > 20, "poor avalanche: {diff} bits differ");
}

#[test]
fn derive_hashes_both_seeds_little_endian() {
    let mut buf = Vec::new();
    buf.extend_from_slice(&7u64.to_le_bytes());
    buf.extend_from_slice(&9u64.to_le_bytes());
    assert_eq!(metanoid_procgen::seed::hasher::derive(7, 9), xxhash_rust::xxh3::xxh3_64(&buf));
    assert_ne!(metanoid_procgen::seed::hasher::derive(7, 9), 7);
}

#[test]
fn derive_label_hashes_seed_then_label_bytes() {
    let mut buf = Vec::new();
    buf.extend_from_slice(&3u64.to_le_bytes());
    buf.extend_from_slice("bricks".as_bytes());
    assert_eq!(derive_label(3, "bricks"), xxhash_rust::xxh3::xxh3_64(&buf));
    assert_ne!(derive_label(3, ""), derive_label(3, "bricks"));
}
