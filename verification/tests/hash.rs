use lib::hash::fnv1a64;

#[test]
fn the_hash_is_the_published_fnv1a_64_vector() {
    assert_eq!(fnv1a64(b""), 0xcbf2_9ce4_8422_2325);
    assert_eq!(fnv1a64(b"a"), 0xaf63_dc4c_8601_ec8c);
    assert_eq!(fnv1a64(b"foobar"), 0x8594_4171_f739_67e8);
    assert_ne!(fnv1a64(b"ab"), fnv1a64(b"ba"), "order must matter");
}

#[test]
fn hash_the_hash_is_the_published_fnv1a_64_vector() {
    assert_eq!(fnv1a64(b""), 0xcbf2_9ce4_8422_2325);
    assert_eq!(fnv1a64(b"a"), 0xaf63_dc4c_8601_ec8c);
    assert_eq!(fnv1a64(b"foobar"), 0x85944171f73967e8);
    assert_ne!(fnv1a64(b"ab"), fnv1a64(b"ba"), "order must matter");
}

#[test]
fn hashing_a_concatenation_continues_from_the_first_part() {
    // FNV-1a consumes bytes one at a time, so the hash of "foobar" is the
    // hash of "bar" started from the state "foo" left behind.
    let whole = fnv1a64(b"foobar");
    let mut state = fnv1a64(b"foo");
    for byte in b"bar" {
        state ^= u64::from(*byte);
        state = state.wrapping_mul(0x0000_0100_0000_01b3);
    }
    assert_eq!(state, whole);
}
