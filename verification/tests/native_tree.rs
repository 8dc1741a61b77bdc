use indexed_merkle_tree::field::Fe;
use indexed_merkle_tree::merkle_path::compute_merkle_root_from_path;
use indexed_merkle_tree::poseidon::poseidon_hash;
use indexed_merkle_tree::tree::NativeIndexedMerkleTree;

#[test]
fn test_native_indexed_tree() {
    let mut t = NativeIndexedMerkleTree::new_default_leaf(32);
    t.insert_leaf(Fe::from_u64(3), 1);
    t.insert_leaf(Fe::from_u64(20), 2);
    t.insert_leaf(Fe::from_u64(10), 3);
    let (p, _) = t.insert_leaf(Fe::from_u64(13), 4);

    let r = t.get_root();
    assert!(t.verify_proof(4, &r, &p));
}

#[test]
fn every_insert_round_trips() {
    let mut t = NativeIndexedMerkleTree::new_default_leaf(8);
    let values = [7u64, 100, 3, 250, 19];
    for (i, v) in values.iter().enumerate() {
        let (proof, helper) = t.insert_leaf(Fe::from_u64(*v), i);
        assert_eq!(proof.len(), 8);
        assert_eq!(helper.len(), 8);
        let root = t.get_root();
        assert!(t.verify_proof(i, &root, &proof));
        assert_eq!(t.get_leaf_at_index(i), Fe::from_u64(*v));
    }
}

#[test]
fn verify_rejects_wrong_root() {
    let mut t = NativeIndexedMerkleTree::new_default_leaf(6);
    let (proof, _) = t.insert_leaf(Fe::from_u64(42), 1);
    let wrong = Fe::from_u64(1);
    assert!(!t.verify_proof(1, &wrong, &proof));
}

#[test]
fn verify_rejects_tampered_proof() {
    let mut t = NativeIndexedMerkleTree::new_default_leaf(6);
    t.insert_leaf(Fe::from_u64(5), 0);
    let (mut proof, _) = t.insert_leaf(Fe::from_u64(42), 1);
    let root = t.get_root();
    assert!(t.verify_proof(1, &root, &proof));
    proof[0] = Fe::from_u64(999);
    assert!(!t.verify_proof(1, &root, &proof));
}

#[test]
fn get_proof_is_idempotent() {
    let mut t = NativeIndexedMerkleTree::new_default_leaf(10);
    t.insert_leaf(Fe::from_u64(11), 0);
    t.insert_leaf(Fe::from_u64(22), 1);
    t.insert_leaf(Fe::from_u64(33), 2);
    let (p1, h1) = t.get_proof(1);
    let (p2, h2) = t.get_proof(1);
    assert_eq!(p1, p2);
    assert_eq!(h1, h2);
}

#[test]
fn get_proof_matches_insert_proof() {
    let mut t = NativeIndexedMerkleTree::new_default_leaf(7);
    t.insert_leaf(Fe::from_u64(1), 0);
    let (p_ins, h_ins) = t.insert_leaf(Fe::from_u64(2), 1);
    let (p_get, h_get) = t.get_proof(1);
    assert_eq!(p_ins, p_get);
    assert_eq!(h_ins, h_get);
}

#[test]
fn empty_tree_root_is_the_empty_subtree_chain() {
    let t = NativeIndexedMerkleTree::new_default_leaf(2);
    let zero = Fe::zero();
    let e1 = poseidon_hash(&zero, &zero);
    let e2 = poseidon_hash(&e1, &e1);
    assert_eq!(t.get_root(), e2);
}

#[test]
fn path_fold_reproduces_the_root() {
    let mut t = NativeIndexedMerkleTree::new_default_leaf(5);
    t.insert_leaf(Fe::from_u64(8), 0);
    let leaf = Fe::from_u64(21);
    t.insert_leaf(leaf, 1);
    let (proof, _) = t.get_proof(1);
    assert_eq!(compute_merkle_root_from_path(&leaf, 1, &proof), t.get_root());
}
