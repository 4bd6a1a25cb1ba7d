use scoc::delta::{delta_decode, delta_encode};

#[test]
fn test_delta_encode() {
    let data = vec![11, 14, 18, 23, 29];
    let decoded: Vec<_> = delta_encode(&data, 1);
    assert_eq!(decoded, vec![11, 2, 3, 4, 5]);

    let encoded: Vec<_> = delta_encode(&[], 1);
    assert!(encoded.is_empty());

    let encoded: Vec<_> = delta_encode(&[3], 1);
    assert_eq!(encoded, vec![3]);
}

#[test]
fn test_delta_decode() {
    let data = vec![11, 2, 3, 4, 5];
    let decoded: Vec<_> = delta_decode(&data, 1);
    assert_eq!(decoded, vec![11, 14, 18, 23, 29]);

    let decoded: Vec<_> = delta_decode(&[], 1);
    assert!(decoded.is_empty());

    let decoded: Vec<_> = delta_decode(&[3], 1);
    assert_eq!(decoded, vec![3]);
}

#[test]
fn delta_round_trip_bias_zero_and_one() {
    let seqs: Vec<Vec<u64>> = vec![
        vec![],
        vec![7],
        vec![0, 0, 0],
        vec![5, 5, 6, 100, 100, u64::MAX],
        vec![1, 2, 3, 4],
    ];
    for s in &seqs {
        for a in [0u64, 1] {
            assert_eq!(delta_decode(&delta_encode(s, a), a), *s);
        }
    }
}

#[test]
fn delta_bias_zero_values() {
    assert_eq!(delta_encode(&[4, 9, 9, 20], 0), vec![4, 5, 0, 11]);
    assert_eq!(delta_decode(&[4, 5, 0, 11], 0), vec![4, 9, 9, 20]);
}

#[test]
fn delta_ties_wrap_around() {
    // Equal neighbours with bias 1 wrap to the largest value and back.
    assert_eq!(delta_encode(&[10, 10], 1), vec![10, u64::MAX]);
    assert_eq!(delta_decode(&[10, u64::MAX], 1), vec![10, 10]);
    // A decrease by more than the bias wraps, and decoding still inverts it.
    assert_eq!(delta_encode(&[10, 5], 1), vec![10, u64::MAX - 5]);
    assert_eq!(delta_decode(&[10, u64::MAX - 5], 1), vec![10, 5]);
}
