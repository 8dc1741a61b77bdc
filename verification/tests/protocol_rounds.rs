use indexed_merkle_tree::field::Fe;
use indexed_merkle_tree::leaf::{hash_indexd_leaf, IndexedMerkleTreeLeaf};
use indexed_merkle_tree::merkle_path::helper_flags;
use indexed_merkle_tree::protocol::{
    check_insert_round, get_low_leaf_idx, update_sparse_idx_leaf, InsertLeafRound,
};
use indexed_merkle_tree::tree::NativeIndexedMerkleTree;

fn zero_leaf() -> IndexedMerkleTreeLeaf {
    IndexedMerkleTreeLeaf::new(Fe::zero(), Fe::zero(), Fe::zero())
}

fn leaf(val: u64, next_val: u64, next_idx: u64) -> IndexedMerkleTreeLeaf {
    IndexedMerkleTreeLeaf::new(
        Fe::from_u64(val),
        Fe::from_u64(next_val),
        Fe::from_u64(next_idx),
    )
}

/// Runs one full insertion round natively: looks up the low leaf, updates
/// the record table, refreshes both tree slots, and returns the witness
/// bundle the constrained check receives.
fn run_round(
    tree: &mut NativeIndexedMerkleTree,
    records: &mut Vec<IndexedMerkleTreeLeaf>,
    new_val: u64,
    new_slot: usize,
) -> InsertLeafRound {
    let v = Fe::from_u64(new_val);
    let old_root = tree.get_root();
    let low_idx = get_low_leaf_idx(records, v);
    let low_leaf = records[low_idx];
    let (low_proof, low_helper) = tree.get_proof(low_idx);

    update_sparse_idx_leaf(records, v, new_slot as u64);

    let new_low_digest = hash_indexd_leaf(&records[low_idx]);
    tree.insert_leaf(new_low_digest, low_idx);
    let new_leaf_digest = hash_indexd_leaf(&records[new_slot]);
    let (new_proof, new_helper) = tree.insert_leaf(new_leaf_digest, new_slot);
    let new_root = tree.get_root();

    let is_largest = records[new_slot].next_val() == Fe::zero();
    InsertLeafRound {
        low_leaf,
        low_leaf_path: low_proof,
        low_leaf_flags: helper_flags(&low_helper),
        new_leaf_path: new_proof,
        new_leaf_flags: helper_flags(&new_helper),
        new_leaf_val: v,
        new_leaf_idx: Fe::from_u64(new_slot as u64),
        is_new_leaf_largest: is_largest,
        old_root,
        default_leaf: Fe::zero(),
        new_root,
    }
}

fn assert_records_ordered(records: &Vec<IndexedMerkleTreeLeaf>) {
    for r in records {
        if !(r.next_val() == Fe::zero()) {
            assert!(r.val().lt(&r.next_val()));
        }
    }
}

#[test]
fn test_insert_leaf_circuit() {
    let depth = 30;
    let new_vals: [u64; 20] = [
        74, 58, 77, 95, 60, 9, 79, 10, 30, 57, 56, 51, 44, 11, 1, 22, 55, 13, 90, 26,
    ];

    let mut records: Vec<IndexedMerkleTreeLeaf> =
        (0..new_vals.len() + 1).map(|_| zero_leaf()).collect();

    let mut tree = NativeIndexedMerkleTree::new_default_leaf(depth);
    let init_digest = hash_indexd_leaf(&records[0]);
    tree.insert_leaf(init_digest, 0);

    for (round, new_val) in new_vals.iter().enumerate() {
        let bundle = run_round(&mut tree, &mut records, *new_val, round + 1);
        assert!(check_insert_round(&bundle));
        assert_records_ordered(&records);
    }
}

#[test]
fn sentinel_scenario_accepts_and_rejects() {
    let mut tree = NativeIndexedMerkleTree::new_default_leaf(4);
    let mut records: Vec<IndexedMerkleTreeLeaf> = (0..4).map(|_| zero_leaf()).collect();
    tree.insert_leaf(hash_indexd_leaf(&records[0]), 0);

    // First insertion: value 10 at slot 1, low leaf is the sentinel.
    assert_eq!(get_low_leaf_idx(&records, Fe::from_u64(10)), 0);
    let first = run_round(&mut tree, &mut records, 10, 1);
    assert!(check_insert_round(&first));
    assert_eq!(records[0], leaf(0, 10, 1));
    assert_eq!(records[1], leaf(10, 0, 0));

    // Second insertion: value 5 at slot 2 must pick low leaf 0.
    assert_eq!(get_low_leaf_idx(&records, Fe::from_u64(5)), 0);
    let before_second = records.clone();
    let second = run_round(&mut tree, &mut records, 5, 2);
    assert!(check_insert_round(&second));
    assert_eq!(records[0], leaf(0, 5, 2));
    assert_eq!(records[2], leaf(5, 10, 1));
    assert_eq!(records[1], leaf(10, 0, 0));

    // A bundle claiming low leaf 1 for that insertion must be rejected.
    let dishonest = InsertLeafRound {
        low_leaf: before_second[1],
        ..second
    };
    assert!(!check_insert_round(&dishonest));
}

#[test]
fn duplicate_insertion_rejected() {
    let mut tree = NativeIndexedMerkleTree::new_default_leaf(4);
    let mut records: Vec<IndexedMerkleTreeLeaf> = (0..5).map(|_| zero_leaf()).collect();
    tree.insert_leaf(hash_indexd_leaf(&records[0]), 0);
    let r1 = run_round(&mut tree, &mut records, 10, 1);
    assert!(check_insert_round(&r1));
    let r2 = run_round(&mut tree, &mut records, 5, 2);
    assert!(check_insert_round(&r2));

    // No occupied record is a valid predecessor for a duplicate of 10:
    // the scan runs past them all and lands on the first padding record.
    assert_eq!(get_low_leaf_idx(&records, Fe::from_u64(10)), 3);

    // Claiming that padding record as the predecessor fails the round's
    // membership check: its digest was never stored in the tree.
    let (pad_proof, pad_helper) = tree.get_proof(3);
    let padding_claim = InsertLeafRound {
        low_leaf: records[3],
        low_leaf_path: pad_proof.clone(),
        low_leaf_flags: helper_flags(&pad_helper),
        new_leaf_path: pad_proof,
        new_leaf_flags: helper_flags(&pad_helper),
        new_leaf_val: Fe::from_u64(10),
        new_leaf_idx: Fe::from_u64(3),
        is_new_leaf_largest: true,
        old_root: tree.get_root(),
        default_leaf: Fe::zero(),
        new_root: tree.get_root(),
    };
    assert!(!check_insert_round(&padding_claim));

    // Force the splice below record 0 anyway, keeping every root and path
    // consistent, so that only the ordering gates can object.
    let v = Fe::from_u64(10);
    let old_root = tree.get_root();
    let low_leaf = records[0];
    let (low_proof, low_helper) = tree.get_proof(0);
    let moved = IndexedMerkleTreeLeaf::new(v, low_leaf.next_val(), low_leaf.next_idx());
    let relinked = IndexedMerkleTreeLeaf::new(low_leaf.val(), v, Fe::from_u64(3));
    records[3] = moved;
    records[0] = relinked;
    tree.insert_leaf(hash_indexd_leaf(&relinked), 0);
    let (new_proof, new_helper) = tree.insert_leaf(hash_indexd_leaf(&moved), 3);
    let new_root = tree.get_root();

    let bundle = InsertLeafRound {
        low_leaf,
        low_leaf_path: low_proof,
        low_leaf_flags: helper_flags(&low_helper),
        new_leaf_path: new_proof,
        new_leaf_flags: helper_flags(&new_helper),
        new_leaf_val: v,
        new_leaf_idx: Fe::from_u64(3),
        is_new_leaf_largest: moved.next_val() == Fe::zero(),
        old_root,
        default_leaf: Fe::zero(),
        new_root,
    };
    assert!(!check_insert_round(&bundle));

    // Claiming the record that already holds 10 as the predecessor fails
    // the strict lower bound as well.
    let tail_claim = InsertLeafRound {
        low_leaf: leaf(10, 0, 0),
        is_new_leaf_largest: true,
        ..bundle
    };
    assert!(!check_insert_round(&tail_claim));
}

#[test]
fn leaf_digest_mixes_the_record() {
    let rec = leaf(1, 2, 3);
    let d = hash_indexd_leaf(&rec);
    assert_ne!(d, rec.val());
    assert_ne!(d, rec.next_val());
    assert_ne!(d, rec.next_idx());
    assert_ne!(d, Fe::zero());
    assert_ne!(d, hash_indexd_leaf(&leaf(2, 1, 3)));
    assert_eq!(d, hash_indexd_leaf(&rec));
}

#[test]
fn low_leaf_scan_edge_cases() {
    let empty: Vec<IndexedMerkleTreeLeaf> = Vec::new();
    assert_eq!(get_low_leaf_idx(&empty, Fe::from_u64(9)), 0);

    let fresh: Vec<IndexedMerkleTreeLeaf> = (0..3).map(|_| zero_leaf()).collect();
    assert_eq!(get_low_leaf_idx(&fresh, Fe::from_u64(9)), 0);
}
