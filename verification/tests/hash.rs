use ziftsieve::bloom::hash::{hash_fnv1a, hash_fnv1a_alt, hash_pair, nth_hash};

#[test]
fn nth_hash_reduces_in_full_64_bit_space_above_u32_max() {
    assert_eq!(nth_hash(4_294_967_303, 0, 0, 100), 3);
}

#[test]
fn nth_hash_handles_wrapping_sum_beyond_u32_max() {
    assert_eq!(nth_hash(u64::MAX, u64::MAX, 1, 1000), 614);
}

#[test]
fn nth_hash_is_always_within_bounds() {
    for n in 0..64 {
        let idx = nth_hash(0xDEAD_BEEF_CAFE_F00D, 0x0123_4567_89AB_CDEF, n, 4096);
        assert!(idx < 4096, "index {idx} out of range for n={n}");
    }
}

#[test]
fn fnv1a_of_empty_input_is_the_offset_basis() {
    assert_eq!(hash_fnv1a(b""), 0xCBF2_9CE4_8422_2325);
}

#[test]
fn fnv1a_matches_published_values() {
    assert_eq!(hash_fnv1a(b"a"), 0xaf63_dc4c_8601_ec8c);
    assert_eq!(hash_fnv1a(b"foobar"), 0x8594_4171_f739_67e8);
}

#[test]
fn fnv1a_alt_of_empty_input_is_its_offset() {
    assert_eq!(hash_fnv1a_alt(b""), 0x1465_0FB0_739D_0383);
}

#[test]
fn fnv1a_alt_folds_one_byte() {
    let expected = (0x1465_0FB0_739D_0383u64 ^ 0x61).wrapping_mul(0x0100_0000_01b3);
    assert_eq!(hash_fnv1a_alt(b"a"), expected);
}

#[test]
fn hash_pair_is_the_two_hashes() {
    let item = b"ziftsieve";
    assert_eq!(hash_pair(item), (hash_fnv1a(item), hash_fnv1a_alt(item)));
    assert_ne!(hash_pair(item).0, hash_pair(item).1);
}

#[test]
fn nth_hash_is_double_hashing() {
    assert_eq!(nth_hash(10, 7, 3, 1000), 31);
    assert_eq!(nth_hash(10, 7, 3, 16), 15);
    assert_eq!(nth_hash(5, 0, 9, 1), 0);
}

#[test]
fn fnv1a_alt_is_a_fold_over_the_bytes() {
    let a = hash_fnv1a_alt(b"a");
    assert_eq!(hash_fnv1a_alt(b"ab"), (a ^ u64::from(b'b')).wrapping_mul(0x0100_0000_01b3));
}
