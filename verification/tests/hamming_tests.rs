use textdist::hamming::{
    distance_native, lauradoux_for_distance, lauradoux_for_weight, popcount_mult, DistanceError,
    HammingSpace, HammingWeight,
};

#[test]
fn native_weight() {
    let tests = [
        (&[0u8] as &[u8], 0),
        (&[1], 1),
        (&[0xFF], 8),
        (&[0xFF; 10], 8 * 10),
        (&[1; 1000], 1000),
    ];
    for &(v, expected) in &tests {
        assert_eq!(HammingWeight::native(&v), expected);
    }
}

#[test]
fn weight_huge() {
    let v = vec![0b1001_1101; 10234567];
    assert_eq!(
        HammingWeight::popcount(&&v[..]),
        v[0].count_ones() as u64 * v.len() as u64
    );
}

#[test]
fn word_weights() {
    assert_eq!(HammingWeight::native(&5u64), 2);
    assert_eq!(HammingWeight::native(&0xFFFF_FFFFu32), 32);
    assert_eq!(HammingWeight::native(&u64::MAX), 64);
}

#[test]
fn popcount_packing() {
    // the multiply keeps running sums: every byte of the result repeats the
    // count for small inputs
    assert_eq!(popcount_mult(1), 0x0101010101);
    assert_eq!(popcount_mult(0b1011), 3 * 0x0101010101);
    assert_eq!(popcount_mult(0), 0);
    // a bit above the low 32 only reaches the higher running sums
    assert_eq!(popcount_mult(1u64 << 32), 0x0101010100);
}

#[test]
fn weight_tree_merge() {
    let mut buffer = [[0u64; 30]; 1];
    buffer[0][0] = 0xFF;
    buffer[0][29] = 0b111;
    assert_eq!(lauradoux_for_weight(buffer, 5), 5 + 8 + 3);
    assert_eq!(lauradoux_for_weight([[0u64; 30]; 1], 42), 42);
}

#[test]
fn distance_sizes() {
    assert_eq!(distance_native(&[1, 2], &[1]), Err(DistanceError::Size));
    assert_eq!(lauradoux_for_distance(&[1, 2], &[1]), Err(DistanceError::Size));
    assert_eq!(distance_native(&[0xFF, 0], &[0, 0xF0]), Ok(12));
    assert_eq!(lauradoux_for_distance(&[0xFF, 0], &[0, 0xF0]), Ok(12));
}

#[test]
fn distance_space() {
    let x: &[u8] = &[0xFF, 0];
    assert_eq!(HammingSpace::distance(&x, &[0, 0xF0]), Ok(12));
    assert_eq!(HammingSpace::distance(&x, &[0]), Err(DistanceError::Size));
    let same: &[u8] = &[7, 7, 7];
    assert_eq!(HammingSpace::distance(&same, &[7, 7, 7]), Ok(0));
}

#[test]
fn size_error_message() {
    assert_eq!(DistanceError::Size.message(), "byte arrays must be the same size");
}
