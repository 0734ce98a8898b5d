use std::collections::BTreeSet;

use lib::procedural::noise::{hash_2d, hash_3d, sub_hash};

#[test]
fn hashing_is_deterministic_and_separates_streams() {
    assert_eq!(hash_2d(1, 0, 5, -7), hash_2d(1, 0, 5, -7));
    assert_ne!(hash_2d(1, 0, 5, -7), hash_2d(2, 0, 5, -7));
    assert_ne!(hash_2d(1, 0, 5, -7), hash_2d(1, 1, 5, -7));
    assert_ne!(hash_2d(1, 0, 5, -7), hash_2d(1, 0, -7, 5), "axes differ");
    assert_ne!(hash_3d(1, 0, 1, 2, 3), hash_3d(1, 0, 3, 2, 1));
}

#[test]
fn sub_hashes_are_independent_and_addressable_by_index() {
    let base = hash_2d(7, 3, -11, 42);
    let mut seen = BTreeSet::new();
    for index in 0..8 {
        let value = sub_hash(base, index);
        assert_eq!(value, sub_hash(base, index), "must be stable");
        assert!(seen.insert(value), "index {index} collided");
    }
    assert_ne!(sub_hash(base, 0), sub_hash(hash_2d(7, 3, -11, 43), 0));
}

fn splitmix_finaliser(mut value: u64) -> u64 {
    value ^= value >> 30;
    value = value.wrapping_mul(0xbf58_476d_1ce4_e5b9);
    value ^= value >> 27;
    value = value.wrapping_mul(0x94d0_49bb_1331_11eb);
    value ^ (value >> 31)
}

#[test]
fn the_lattice_hash_folds_coordinates_as_bit_patterns() {
    let (seed, stream, x, z) = (0x1234_u64, 9_u64, -3_i64, 17_i64);
    let mut value = seed ^ splitmix_finaliser(stream);
    value = splitmix_finaliser(value ^ x.cast_unsigned());
    let expected = splitmix_finaliser(value ^ z.cast_unsigned().rotate_left(32));
    assert_eq!(hash_2d(seed, stream, x, z), expected);
    let mut value = seed ^ splitmix_finaliser(stream);
    value = splitmix_finaliser(value ^ x.cast_unsigned());
    value = splitmix_finaliser(value ^ 5_i64.cast_unsigned().rotate_left(21));
    let expected = splitmix_finaliser(value ^ z.cast_unsigned().rotate_left(42));
    assert_eq!(hash_3d(seed, stream, x, 5, z), expected);
    assert_eq!(
        sub_hash(77, 3),
        splitmix_finaliser(77 ^ 3_u64.wrapping_mul(0x9e37_79b9_7f4a_7c15))
    );
}
