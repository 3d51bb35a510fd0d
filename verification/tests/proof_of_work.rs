use utxo_ledger::pow::check_difficulty;

/// A 32-byte hash whose trailing sixteen bytes are given least-significant
/// byte first.
fn hash_with_tail(tail: [u8; 16]) -> Vec<u8> {
    let mut h = vec![0u8; 16];
    h.extend_from_slice(&tail);
    h
}

#[test]
fn value_strictly_below_target_passes() {
    let h = hash_with_tail([5, 0, 0, 0, 0, 0, 0, 0, 0, 0, 0, 0, 0, 0, 0, 0]);
    assert!(check_difficulty(&h, 6));
    assert!(!check_difficulty(&h, 5));
    assert!(!check_difficulty(&h, 0));
}

#[test]
fn trailing_bytes_read_least_significant_first() {
    // Second trailing byte set: the value is 3 * 256.
    let h = hash_with_tail([0, 3, 0, 0, 0, 0, 0, 0, 0, 0, 0, 0, 0, 0, 0, 0]);
    assert!(!check_difficulty(&h, 768));
    assert!(check_difficulty(&h, 769));
}

#[test]
fn leading_bytes_do_not_count() {
    let mut h = hash_with_tail([1, 0, 0, 0, 0, 0, 0, 0, 0, 0, 0, 0, 0, 0, 0, 0]);
    for b in h.iter_mut().take(16) {
        *b = 0xff;
    }
    assert!(check_difficulty(&h, 2));
    assert!(!check_difficulty(&h, 1));
}

#[test]
fn largest_tail_needs_largest_target() {
    let h = hash_with_tail([0xff; 16]);
    assert!(!check_difficulty(&h, u128::MAX));
    let almost = hash_with_tail([
        0xfe, 0xff, 0xff, 0xff, 0xff, 0xff, 0xff, 0xff, 0xff, 0xff, 0xff, 0xff, 0xff, 0xff,
        0xff, 0xff,
    ]);
    assert!(check_difficulty(&almost, u128::MAX));
}

#[test]
fn wrong_length_never_passes() {
    assert!(!check_difficulty(&vec![0u8; 31], u128::MAX));
    assert!(!check_difficulty(&vec![0u8; 33], u128::MAX));
    assert!(!check_difficulty(&Vec::new(), u128::MAX));
}
