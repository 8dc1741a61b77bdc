use indexed_merkle_tree::comparator::lt_witness;
use indexed_merkle_tree::field::Fe;
use indexed_merkle_tree::merkle_path::{calculate_merkle_root_from_leaf, ordered_pair};
use indexed_merkle_tree::poseidon::poseidon_hash;

/// The integer the returned byte row spells out, little-endian.
fn byte_row_value(bytes: &[u8]) -> u128 {
    let mut acc: u128 = 0;
    for (i, b) in bytes.iter().enumerate() {
        acc += (*b as u128) << (8 * i);
    }
    acc
}

/// The value the comparator's gate demands of the byte row:
/// `lhs - rhs + lt * 2^64`.
fn expected_diff(lhs: u64, rhs: u64, lt: bool) -> u128 {
    let offset: i128 = if lt { 1i128 << 64 } else { 0 };
    (lhs as i128 - rhs as i128 + offset) as u128
}

#[test]
fn row_diff_is_lt() {
    let ok_values: [u64; 5] = [1, 2, 3, 4, 5];
    let ok_checks = [true, true, true, true];
    for i in 0..4 {
        let (lt, _) = lt_witness(ok_values[i], ok_values[i + 1]);
        assert_eq!(lt, ok_checks[i]);
    }

    let mixed_values: [u64; 5] = [1, 2, 1, 3, 2];
    let mixed_checks = [true, false, true, false];
    for i in 0..4 {
        let (lt, _) = lt_witness(mixed_values[i], mixed_values[i + 1]);
        assert_eq!(lt, mixed_checks[i]);
    }

    // A row claiming the wrong outcome contradicts the computed witness.
    let bad_values: [u64; 5] = [5, 4, 3, 2, 1];
    let bad_checks = [true, true, true, true];
    for i in 0..4 {
        let (lt, _) = lt_witness(bad_values[i], bad_values[i + 1]);
        assert_ne!(lt, bad_checks[i]);
    }
}

#[test]
fn comparator_exhaustive_small() {
    for a in 0u64..=8 {
        for b in 0u64..=8 {
            let (lt, bytes) = lt_witness(a, b);
            assert_eq!(lt, a < b);
            assert_eq!(bytes.len(), 8);
            assert_eq!(byte_row_value(&bytes), expected_diff(a, b, lt));
        }
    }
}

#[test]
fn comparator_edge_values() {
    let cases: [(u64, u64); 7] = [
        (0, 0),
        (0, u64::MAX),
        (u64::MAX, 0),
        (u64::MAX, u64::MAX),
        (u64::MAX - 1, u64::MAX),
        (1 << 63, (1 << 63) - 1),
        (123456789, 123456789),
    ];
    for (a, b) in cases {
        let (lt, bytes) = lt_witness(a, b);
        assert_eq!(lt, a < b);
        assert_eq!(byte_row_value(&bytes), expected_diff(a, b, lt));
    }
}

#[test]
fn swap_chooses_sides() {
    let a = Fe::from_u64(17);
    let b = Fe::from_u64(91);
    assert_eq!(ordered_pair(&a, &b, true), (a, b));
    assert_eq!(ordered_pair(&a, &b, false), (b, a));
    let z = Fe::zero();
    assert_eq!(ordered_pair(&z, &z, true), (z, z));
    assert_eq!(ordered_pair(&z, &z, false), (z, z));
}

#[test]
fn test_merkle_tree() {
    let leaf = Fe::from_u64(99);
    let elements: Vec<Fe> = [1u64, 5, 6, 9, 9].iter().map(|v| Fe::from_u64(*v)).collect();
    // Every step keeps the running digest on the left, as the all-zero
    // direction indices of the circuit's instance did.
    let flags = vec![true; 5];

    let mut expected = leaf;
    for e in &elements {
        expected = poseidon_hash(&expected, e);
    }

    let computed = calculate_merkle_root_from_leaf(&leaf, &elements, &flags);
    assert_eq!(computed, expected);
    assert_ne!(computed, Fe::zero());
}

#[test]
fn root_fold_respects_direction() {
    let leaf = Fe::from_u64(4);
    let sib = Fe::from_u64(9);
    let left = calculate_merkle_root_from_leaf(&leaf, &vec![sib], &vec![true]);
    let right = calculate_merkle_root_from_leaf(&leaf, &vec![sib], &vec![false]);
    assert_eq!(left, poseidon_hash(&leaf, &sib));
    assert_eq!(right, poseidon_hash(&sib, &leaf));
    assert_ne!(left, right);
}

#[test]
fn poseidon_digests_depend_on_inputs() {
    let a = Fe::from_u64(3);
    let b = Fe::from_u64(5);
    let h = poseidon_hash(&a, &b);
    assert_ne!(h, a);
    assert_ne!(h, b);
    assert_ne!(h, poseidon_hash(&b, &a));
    assert_eq!(h, poseidon_hash(&a, &b));
}
