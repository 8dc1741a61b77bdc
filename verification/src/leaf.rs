use vstd::prelude::*;

use crate::field::{fe_one, Fe};
use crate::poseidon::{hash4, poseidon_hash4};

verus! {

/// A node of the sorted linked list that the tree's leaves encode.
///
/// `next_val == 0 && next_idx == 0` marks the record that currently holds
/// the largest value, or the untouched sentinel at index 0.
#[derive(Clone, Copy, Debug, PartialEq, Eq, Structural)]
pub struct IndexedMerkleTreeLeaf {
    pub val: Fe,
    pub next_val: Fe,
    pub next_idx: Fe,
}

impl IndexedMerkleTreeLeaf {
    /// Builds a record from its three fields.
    pub fn new(val: Fe, next_val: Fe, next_idx: Fe) -> (r: Self)
        ensures
            r == (IndexedMerkleTreeLeaf { val, next_val, next_idx }),
    {
        Self { val, next_val, next_idx }
    }

    /// The stored value.
    pub fn val(&self) -> (r: Fe)
        ensures
            r == self.val,
    {
        self.val
    }

    /// The smallest stored value above `val`, or zero at the tail.
    pub fn next_val(&self) -> (r: Fe)
        ensures
            r == self.next_val,
    {
        self.next_val
    }

    /// The position of the record holding `next_val`, or zero at the tail.
    pub fn next_idx(&self) -> (r: Fe)
        ensures
            r == self.next_idx,
    {
        self.next_idx
    }
}

/// The digest stored at a leaf position: the record's three fields hashed
/// together with the domain tag one.
pub open spec fn leaf_digest(l: IndexedMerkleTreeLeaf) -> Fe {
    hash4(l.val, l.next_val, l.next_idx, fe_one())
}

/// Computes the digest of a leaf record, the value the tree stores for it.
pub fn hash_indexd_leaf(leaf: &IndexedMerkleTreeLeaf) -> (r: Fe)
    ensures
        r == leaf_digest(*leaf),
{
    let one = Fe::one();
    poseidon_hash4(&leaf.val, &leaf.next_val, &leaf.next_idx, &one)
}

} // verus!
