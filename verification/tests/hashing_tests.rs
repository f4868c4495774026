use concurrent_hash_table::hashing::{check_reference_hashes, one_at_a_time};

#[test]
fn hash_of_pangram() {
    assert_eq!(one_at_a_time("The quick brown fox jumps over the lazy dog"), 0x519e91f5);
}

#[test]
fn hash_of_single_letter() {
    assert_eq!(one_at_a_time("a"), 0xca2e9442);
}

#[test]
fn hash_of_empty_string_is_zero() {
    assert_eq!(one_at_a_time(""), 0);
}

#[test]
fn reference_hashes_hold() {
    assert!(check_reference_hashes());
}

#[test]
fn hash_uses_utf8_bytes() {
    // "é" is two bytes in UTF-8; the hash folds both in.
    let h = one_at_a_time("é");
    assert_ne!(h, one_at_a_time("e"));
    assert_eq!(h, one_at_a_time("\u{e9}"));
}
