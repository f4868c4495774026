use concurrent_hash_table::primes::search_closest_larger;
use concurrent_hash_table::sort::stable_sort_by_key;
use concurrent_hash_table::text::decimal_string;

#[test]
fn decimal_rendering() {
    assert_eq!(decimal_string(0), "0");
    assert_eq!(decimal_string(7), "7");
    assert_eq!(decimal_string(10), "10");
    assert_eq!(decimal_string(1234567890), "1234567890");
    assert_eq!(decimal_string(u64::MAX), "18446744073709551615");
}

#[test]
fn stable_sort_keeps_order_of_equal_keys() {
    let v = vec![(3u64, "a"), (1, "b"), (3, "c"), (2, "d"), (1, "e")];
    let sorted = stable_sort_by_key(v);
    assert_eq!(sorted, vec![(1, "b"), (1, "e"), (2, "d"), (3, "a"), (3, "c")]);
}

#[test]
fn stable_sort_of_empty() {
    let v: Vec<(u64, u8)> = Vec::new();
    assert!(stable_sort_by_key(v).is_empty());
}

#[test]
fn first_prime_above() {
    assert_eq!(search_closest_larger(0), Some(2));
    assert_eq!(search_closest_larger(2), Some(3));
    assert_eq!(search_closest_larger(13), Some(17));
    assert_eq!(search_closest_larger(24), Some(29));
    assert_eq!(search_closest_larger(4294967290), Some(4294967291));
    assert_eq!(search_closest_larger(4294967291), None);
    assert_eq!(search_closest_larger(u32::MAX), None);
}
