use vstd::prelude::*;

use crate::comparator::{lt_witness, LT_N_BYTES};
use crate::field::{fe_u64, fe_zero, lemma_fits_bytes_8_limb0, Fe};
use crate::leaf::{hash_indexd_leaf, leaf_digest, IndexedMerkleTreeLeaf};
use crate::merkle_path::{
    calculate_merkle_root_from_leaf, lemma_root_from_flags_matches_index, pos_at,
    root_from_flags, root_from_path,
};
use crate::tree::NativeIndexedMerkleTree;
use vstd::arithmetic::power2::pow2;

verus! {

/// Whether `rec` is a valid predecessor record for inserting `v`: its
/// value lies strictly below `v`, and its successor value lies strictly
/// above, or it is the current tail.
pub open spec fn is_low_leaf_for(rec: IndexedMerkleTreeLeaf, v: Fe) -> bool {
    rec.val.as_int() < v.as_int() && (rec.next_val.as_int() > v.as_int()
        || rec.next_val.as_int() == 0)
}

/// The first index whose record is a valid predecessor for `v`, or the
/// length when none is.
pub open spec fn first_low_idx(leaves: Seq<IndexedMerkleTreeLeaf>, v: Fe) -> int
    decreases leaves.len(),
{
    if leaves.len() == 0 {
        0
    } else if is_low_leaf_for(leaves[0], v) {
        0
    } else {
        1 + first_low_idx(leaves.skip(1), v)
    }
}

/// `first_low_idx` names the first valid predecessor: nothing before it
/// qualifies, and it qualifies unless nothing does.
pub proof fn lemma_first_low_idx(leaves: Seq<IndexedMerkleTreeLeaf>, v: Fe)
    ensures
        0 <= first_low_idx(leaves, v) <= leaves.len(),
        first_low_idx(leaves, v) < leaves.len() ==> is_low_leaf_for(
            leaves[first_low_idx(leaves, v)],
            v,
        ),
        forall|j: int| 0 <= j < first_low_idx(leaves, v) ==> !is_low_leaf_for(leaves[j], v),
    decreases leaves.len(),
{
    if leaves.len() > 0 && !is_low_leaf_for(leaves[0], v) {
        lemma_first_low_idx(leaves.skip(1), v);
        assert(leaves[first_low_idx(leaves, v)] == leaves.skip(1)[first_low_idx(
            leaves.skip(1),
            v,
        )] || first_low_idx(leaves, v) == leaves.len());
        assert forall|j: int| 0 <= j < first_low_idx(leaves, v) implies !is_low_leaf_for(
            leaves[j],
            v,
        ) by {
            if j > 0 {
                assert(leaves.skip(1)[j - 1] == leaves[j]);
            }
        }
    }
}

/// Finds the low-leaf index for `new_val` by the scan the prover runs:
/// index 0 outright while the table still has its untouched sentinel
/// head, else the first valid predecessor record, else 0.
pub fn get_low_leaf_idx(leaves: &Vec<IndexedMerkleTreeLeaf>, new_val: Fe) -> (r: usize)
    ensures
        leaves@.len() == 0 ==> r == 0,
        leaves@.len() > 0 ==> r < leaves@.len(),
        leaves@.len() > 0 && leaves@[0].next_val.as_int() == 0 ==> r == 0,
        (leaves@.len() > 0 && leaves@[0].next_val.as_int() != 0) ==> r as int == (
        if first_low_idx(leaves@, new_val) < leaves@.len() {
            first_low_idx(leaves@, new_val)
        } else {
            0
        }),
{
    let n = leaves.len();
    for i in 0..n
        invariant
            n == leaves@.len(),
            forall|j: int| 0 <= j < i ==> !is_low_leaf_for(leaves@[j], new_val),
            i > 0 ==> leaves@[0].next_val.as_int() != 0,
    {
        let node = &leaves[i];
        if i == 0 && node.next_val.is_zero() {
            return 0;
        }
        if node.val.lt(&new_val) && (new_val.lt(&node.next_val) || node.next_val.is_zero()) {
            proof {
                lemma_first_low_idx(leaves@, new_val);
            }
            return i;
        }
    }
    proof {
        lemma_first_low_idx(leaves@, new_val);
    }
    0
}

/// The record table after one protocol insertion of `v` at slot `nvi`:
/// while the head is still the untouched sentinel, the first insertion
/// fills slot 1 and links the sentinel to it; afterwards, the new record
/// takes over the predecessor's old successor link at slot `nvi`, and the
/// predecessor is relinked to the new record. A table with no valid
/// predecessor is left as it stands.
pub open spec fn updated_records(leaves: Seq<IndexedMerkleTreeLeaf>, v: Fe, nvi: u64) -> Seq<
    IndexedMerkleTreeLeaf,
> {
    if leaves.len() == 0 {
        leaves
    } else if leaves[0].next_val.as_int() == 0 {
        let filled = IndexedMerkleTreeLeaf {
            val: v,
            next_val: leaves[1].next_val,
            next_idx: leaves[1].next_idx,
        };
        let head = IndexedMerkleTreeLeaf {
            val: leaves[0].val,
            next_val: v,
            next_idx: fe_u64(1),
        };
        leaves.update(1, filled).update(0, head)
    } else {
        let f = first_low_idx(leaves, v);
        if f < leaves.len() {
            let moved = IndexedMerkleTreeLeaf {
                val: v,
                next_val: leaves[f].next_val,
                next_idx: leaves[f].next_idx,
            };
            let mid = leaves.update(nvi as int, moved);
            let relinked = IndexedMerkleTreeLeaf {
                val: mid[f].val,
                next_val: v,
                next_idx: fe_u64(nvi),
            };
            mid.update(f, relinked)
        } else {
            leaves
        }
    }
}

/// Performs one protocol insertion on the record table, exactly as
/// `updated_records` describes it.
pub fn update_sparse_idx_leaf(
    leaves: &mut Vec<IndexedMerkleTreeLeaf>,
    new_val: Fe,
    new_val_idx: u64,
)
    requires
        old(leaves)@.len() > 0,
        old(leaves)@[0].next_val.as_int() == 0 ==> old(leaves)@.len() >= 2,
        (new_val_idx as int) < old(leaves)@.len(),
    ensures
        final(leaves)@ == updated_records(old(leaves)@, new_val, new_val_idx),
{
    let n = leaves.len();
    for i in 0..n
        invariant
            n == leaves@.len(),
            leaves@ == old(leaves)@,
            (new_val_idx as int) < leaves@.len(),
            leaves@[0].next_val.as_int() == 0 ==> leaves@.len() >= 2,
            forall|j: int| 0 <= j < i ==> !is_low_leaf_for(leaves@[j], new_val),
            i > 0 ==> leaves@[0].next_val.as_int() != 0,
    {
        let node = leaves[i];
        if i == 0 && node.next_val.is_zero() {
            let filled_from = leaves[1];
            leaves.set(
                1,
                IndexedMerkleTreeLeaf {
                    val: new_val,
                    next_val: filled_from.next_val,
                    next_idx: filled_from.next_idx,
                },
            );
            let head_from = leaves[0];
            leaves.set(
                0,
                IndexedMerkleTreeLeaf {
                    val: head_from.val,
                    next_val: new_val,
                    next_idx: Fe::from_u64(1),
                },
            );
            return ;
        }
        if node.val.lt(&new_val) && (new_val.lt(&node.next_val) || node.next_val.is_zero()) {
            proof {
                lemma_first_low_idx(old(leaves)@, new_val);
                assert(first_low_idx(old(leaves)@, new_val) == i);
            }
            let low = leaves[i];
            let nvi = new_val_idx as usize;
            leaves.set(
                nvi,
                IndexedMerkleTreeLeaf {
                    val: new_val,
                    next_val: low.next_val,
                    next_idx: low.next_idx,
                },
            );
            let mid_i = leaves[i];
            leaves.set(
                i,
                IndexedMerkleTreeLeaf {
                    val: mid_i.val,
                    next_val: new_val,
                    next_idx: Fe::from_u64(new_val_idx),
                },
            );
            return ;
        }
    }
    proof {
        lemma_first_low_idx(old(leaves)@, new_val);
    }
}

/// The sorted-linked-list law of the record table: every record that
/// points at a successor holds a value strictly below the successor's.
pub open spec fn records_ordered(leaves: Seq<IndexedMerkleTreeLeaf>) -> bool {
    forall|i: int|
        0 <= i < leaves.len() && (#[trigger] leaves[i]).next_val.as_int() != 0
            ==> leaves[i].val.as_int() < leaves[i].next_val.as_int()
}

/// One protocol insertion keeps the record table's ordering law. The
/// first insertion asks for the untouched genesis shape at the head and
/// in the slot it fills; every later one asks for a slot apart from the
/// predecessor, the shape the protocol itself supplies.
pub proof fn lemma_update_preserves_ordering(
    leaves: Seq<IndexedMerkleTreeLeaf>,
    v: Fe,
    nvi: u64,
)
    requires
        records_ordered(leaves),
        leaves.len() > 0,
        (nvi as int) < leaves.len(),
        v.as_int() > 0,
        leaves[0].next_val.as_int() == 0 ==> leaves.len() >= 2 && leaves[0].val.as_int() == 0
            && leaves[1].next_val.as_int() == 0,
        leaves[0].next_val.as_int() != 0 ==> nvi as int != first_low_idx(leaves, v),
    ensures
        records_ordered(updated_records(leaves, v, nvi)),
{
    let out = updated_records(leaves, v, nvi);
    if leaves[0].next_val.as_int() == 0 {
        assert forall|i: int|
            0 <= i < out.len() && (#[trigger] out[i]).next_val.as_int() != 0 implies out[i].val.as_int()
            < out[i].next_val.as_int() by {
            if i != 0 && i != 1 {
                assert(out[i] == leaves[i]);
            }
        }
    } else {
        lemma_first_low_idx(leaves, v);
        let f = first_low_idx(leaves, v);
        if f < leaves.len() {
            assert forall|i: int|
                0 <= i < out.len() && (#[trigger] out[i]).next_val.as_int() != 0 implies out[i].val.as_int()
                < out[i].next_val.as_int() by {
                if i != f && i != nvi as int {
                    assert(out[i] == leaves[i]);
                }
            }
        }
    }
}

/// The genesis table satisfies the ordering law vacuously: none of its
/// records points at a successor. Together with
/// `lemma_update_preserves_ordering` this carries the law over any
/// sequence of protocol insertions.
pub proof fn lemma_genesis_records_ordered(leaves: Seq<IndexedMerkleTreeLeaf>)
    requires
        forall|i: int|
            0 <= i < leaves.len() ==> (#[trigger] leaves[i]).next_val.as_int() == 0,
    ensures
        records_ordered(leaves),
{
}

/// One insertion round's witnesses and public values: the predecessor
/// record with its authentication path, the target slot's path against
/// the pre-insertion tree, the value and slot being inserted, and the
/// public inputs the round is checked against.
pub struct InsertLeafRound {
    pub low_leaf: IndexedMerkleTreeLeaf,
    pub low_leaf_path: Vec<Fe>,
    pub low_leaf_flags: Vec<bool>,
    pub new_leaf_path: Vec<Fe>,
    pub new_leaf_flags: Vec<bool>,
    pub new_leaf_val: Fe,
    pub new_leaf_idx: Fe,
    pub is_new_leaf_largest: bool,
    pub old_root: Fe,
    pub default_leaf: Fe,
    pub new_root: Fe,
}

/// The new record an accepted round places at the target slot: it takes
/// over the predecessor's old successor link.
pub open spec fn spliced_new_leaf(w: InsertLeafRound) -> IndexedMerkleTreeLeaf {
    IndexedMerkleTreeLeaf {
        val: w.new_leaf_val,
        next_val: w.low_leaf.next_val,
        next_idx: w.low_leaf.next_idx,
    }
}

/// The predecessor as an accepted round relinks it: pointing at the new
/// record.
pub open spec fn relinked_low_leaf(w: InsertLeafRound) -> IndexedMerkleTreeLeaf {
    IndexedMerkleTreeLeaf {
        val: w.low_leaf.val,
        next_val: w.new_leaf_val,
        next_idx: w.new_leaf_idx,
    }
}

/// What the insertion round constrains, in order: the predecessor hashes
/// onto the claimed old root along its path; the relinked predecessor on
/// that same path and the default leaf on the target path reach the same
/// intermediate root, so both witnesses speak of one pre-insertion tree;
/// the predecessor's value lies strictly below the new value; the new
/// value lies strictly below the predecessor's old successor, or that
/// successor is absent and the round is flagged as inserting a new
/// maximum; and the spliced record hashes onto the claimed new root
/// along the target path.
pub open spec fn round_accepted(w: InsertLeafRound) -> bool {
    &&& root_from_flags(leaf_digest(w.low_leaf), w.low_leaf_path@, w.low_leaf_flags@)
        == w.old_root
    &&& root_from_flags(leaf_digest(relinked_low_leaf(w)), w.low_leaf_path@, w.low_leaf_flags@)
        == root_from_flags(w.default_leaf, w.new_leaf_path@, w.new_leaf_flags@)
    &&& w.low_leaf.val.as_int() < w.new_leaf_val.as_int()
    &&& (if w.is_new_leaf_largest {
        w.low_leaf.next_val.as_int() == 0
    } else {
        w.new_leaf_val.as_int() < w.low_leaf.next_val.as_int()
    })
    &&& root_from_flags(leaf_digest(spliced_new_leaf(w)), w.new_leaf_path@, w.new_leaf_flags@)
        == w.new_root
}

/// Checks one insertion round as the circuit constrains it, and accepts
/// or rejects it as a whole. The two orderings run through the byte
/// comparator's witness computation, whose verdict is meaningful only
/// for operands within its eight-byte range; the round's values must be
/// kept there, which the constrained environment owes to a lookup table
/// and this model to the caller.
pub fn check_insert_round(w: &InsertLeafRound) -> (r: bool)
    requires
        w.low_leaf.val.fits_bytes(LT_N_BYTES as nat),
        w.low_leaf.next_val.fits_bytes(LT_N_BYTES as nat),
        w.new_leaf_val.fits_bytes(LT_N_BYTES as nat),
        w.low_leaf_flags@.len() == w.low_leaf_path@.len(),
        w.new_leaf_flags@.len() == w.new_leaf_path@.len(),
    ensures
        r == round_accepted(*w),
{
    proof {
        lemma_fits_bytes_8_limb0(w.low_leaf.val);
        lemma_fits_bytes_8_limb0(w.low_leaf.next_val);
        lemma_fits_bytes_8_limb0(w.new_leaf_val);
    }
    let low_digest = hash_indexd_leaf(&w.low_leaf);
    let computed_old = calculate_merkle_root_from_leaf(
        &low_digest,
        &w.low_leaf_path,
        &w.low_leaf_flags,
    );
    if !(computed_old == w.old_root) {
        return false;
    }
    let new_leaf = IndexedMerkleTreeLeaf::new(
        w.new_leaf_val,
        w.low_leaf.next_val,
        w.low_leaf.next_idx,
    );
    let new_low_leaf = IndexedMerkleTreeLeaf::new(
        w.low_leaf.val,
        w.new_leaf_val,
        w.new_leaf_idx,
    );
    let new_low_digest = hash_indexd_leaf(&new_low_leaf);
    let intermediate_low = calculate_merkle_root_from_leaf(
        &new_low_digest,
        &w.low_leaf_path,
        &w.low_leaf_flags,
    );
    let intermediate_new = calculate_merkle_root_from_leaf(
        &w.default_leaf,
        &w.new_leaf_path,
        &w.new_leaf_flags,
    );
    if !(intermediate_low == intermediate_new) {
        return false;
    }
    let (low_lt_new, _) = lt_witness(w.low_leaf.val.limb0, w.new_leaf_val.limb0);
    if !low_lt_new {
        return false;
    }
    let tail_ok = if w.is_new_leaf_largest {
        w.low_leaf.next_val.is_zero()
    } else {
        let (new_lt_next, _) = lt_witness(w.new_leaf_val.limb0, w.low_leaf.next_val.limb0);
        new_lt_next
    };
    if !tail_ok {
        return false;
    }
    let new_digest = hash_indexd_leaf(&new_leaf);
    let computed_new = calculate_merkle_root_from_leaf(
        &new_digest,
        &w.new_leaf_path,
        &w.new_leaf_flags,
    );
    computed_new == w.new_root
}

/// A round assembled from the native flow is accepted. The hypotheses
/// are what that flow supplies: the predecessor's digest sits in the
/// pre-round tree and its path comes from there; the target slot is
/// still empty; the first insertion put the relinked predecessor in the
/// low slot and touched nothing off its path; the target path comes from
/// the intermediate tree, whose root the second insertion folded the
/// spliced record onto; the public values are the two outer roots; and
/// the inserted value lies strictly between the predecessor and its old
/// successor, or above everything with the maximum flag raised.
pub proof fn lemma_honest_round_accepted(
    t0: NativeIndexedMerkleTree,
    t1: NativeIndexedMerkleTree,
    t2: NativeIndexedMerkleTree,
    w: InsertLeafRound,
    low_idx: int,
    new_slot: int,
)
    requires
        t0.wf(),
        t1.wf(),
        0 <= low_idx < t0.level_len(0),
        t0.nodes@[0]@[low_idx] == leaf_digest(w.low_leaf),
        0 <= new_slot < pow2(t0.depth()),
        t0.stored(0, new_slot) == fe_zero(),
        new_slot != low_idx,
        t1.depth() == t0.depth(),
        low_idx < t1.level_len(0),
        t1.nodes@[0]@[low_idx] == leaf_digest(relinked_low_leaf(w)),
        forall|l: int, j: int|
            0 <= l <= t0.depth() && 0 <= j && j != pos_at(low_idx, l as nat)
                ==> #[trigger] t1.stored(l, j) == t0.stored(l, j),
        t2.root == root_from_path(
            leaf_digest(spliced_new_leaf(w)),
            new_slot,
            t1.proof_seq(new_slot),
        ),
        w.low_leaf_path@ == t0.proof_seq(low_idx),
        w.low_leaf_path@ == t1.proof_seq(low_idx),
        w.low_leaf_flags@.len() == t0.depth(),
        forall|l: int|
            0 <= l < t0.depth() ==> w.low_leaf_flags@[l] == (pos_at(low_idx, l as nat) % 2
                == 0),
        w.new_leaf_path@ == t1.proof_seq(new_slot),
        w.new_leaf_flags@.len() == t1.depth(),
        forall|l: int|
            0 <= l < t1.depth() ==> w.new_leaf_flags@[l] == (pos_at(new_slot, l as nat) % 2
                == 0),
        w.old_root == t0.root,
        w.new_root == t2.root,
        w.default_leaf == fe_zero(),
        w.low_leaf.val.as_int() < w.new_leaf_val.as_int(),
        (if w.is_new_leaf_largest {
            w.low_leaf.next_val.as_int() == 0
        } else {
            w.new_leaf_val.as_int() < w.low_leaf.next_val.as_int()
        }),
    ensures
        round_accepted(w),
{
    lemma_root_from_flags_matches_index(
        leaf_digest(w.low_leaf),
        low_idx,
        w.low_leaf_path@,
        w.low_leaf_flags@,
    );
    t0.lemma_own_path_yields_root(low_idx);

    lemma_root_from_flags_matches_index(
        leaf_digest(relinked_low_leaf(w)),
        low_idx,
        w.low_leaf_path@,
        w.low_leaf_flags@,
    );
    t1.lemma_own_path_yields_root(low_idx);

    assert(t1.stored(0, new_slot) == t0.stored(0, new_slot));
    lemma_root_from_flags_matches_index(
        fe_zero(),
        new_slot,
        w.new_leaf_path@,
        w.new_leaf_flags@,
    );
    t1.lemma_stored_path_yields_root(new_slot);

    lemma_root_from_flags_matches_index(
        leaf_digest(spliced_new_leaf(w)),
        new_slot,
        w.new_leaf_path@,
        w.new_leaf_flags@,
    );
}

} // verus!
