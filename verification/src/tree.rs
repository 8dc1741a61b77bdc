use vstd::prelude::*;

use crate::field::{fe_one, fe_zero, Fe};
use crate::merkle_path::{
    lemma_pos_at_nonneg, lemma_pos_at_succ, lemma_root_from_path_push, pos_at, root_from_path,
};
use crate::poseidon::{hash2, poseidon_hash};
use vstd::arithmetic::power2::pow2;

verus! {

/// The empty-subtree digest of each level: zero at the leaves, and above
/// that the hash of two copies of the level below.
pub open spec fn empty_subtree_digest(level: nat) -> Fe
    decreases level,
{
    if level == 0 {
        fe_zero()
    } else {
        hash2(
            empty_subtree_digest((level - 1) as nat),
            empty_subtree_digest((level - 1) as nat),
        )
    }
}

/// A precomputed table of empty-subtree digests, one per level.
pub struct Hashes {
    list: Vec<Fe>,
}

impl Hashes {
    /// Every entry is the empty-subtree digest of its level.
    pub closed spec fn wf(&self) -> bool {
        forall|i: int|
            0 <= i < self.list@.len() ==> self.list@[i] == empty_subtree_digest(i as nat)
    }

    /// How many levels the table covers.
    pub closed spec fn spec_len(&self) -> nat {
        self.list@.len()
    }

    /// Builds the table for levels `0 .. count`.
    pub fn new(count: usize) -> (r: Hashes)
        ensures
            r.wf(),
            r.spec_len() == count,
    {
        let mut list: Vec<Fe> = Vec::new();
        let mut i: usize = 0;
        while i < count
            invariant
                i == list@.len(),
                i <= count,
                forall|j: int| 0 <= j < i ==> list@[j] == empty_subtree_digest(j as nat),
            decreases count - i,
        {
            if i == 0 {
                list.push(Fe::zero());
            } else {
                let prev = list[i - 1];
                let h = poseidon_hash(&prev, &prev);
                list.push(h);
            }
            i = i + 1;
        }
        Hashes { list }
    }

    /// Reads one level's empty-subtree digest.
    pub fn get(&self, index: usize) -> (r: Fe)
        requires
            self.wf(),
            index < self.spec_len(),
        ensures
            r == empty_subtree_digest(index as nat),
    {
        self.list[index]
    }
}

/// The native indexed merkle tree: level 0 stores leaf digests, each
/// higher level the pairwise hashes of the one below. Storage grows on
/// demand; a slot beyond a level's storage stands for the level's
/// empty-subtree digest.
pub struct NativeIndexedMerkleTree {
    pub nodes: Vec<Vec<Fe>>,
    pub root: Fe,
    pub list_of_hashes: Hashes,
}

impl NativeIndexedMerkleTree {
    /// The number of levels above the leaves.
    pub open spec fn depth(&self) -> nat {
        (self.nodes@.len() - 1) as nat
    }

    /// How many digests level `l` has in storage.
    pub open spec fn level_len(&self, l: int) -> int {
        self.nodes@[l]@.len() as int
    }

    /// The digest at `(level, i)`: what storage holds, or the level's
    /// empty-subtree digest where storage has not grown that far.
    pub open spec fn stored(&self, level: int, i: int) -> Fe {
        if 0 <= i < self.level_len(level) {
            self.nodes@[level]@[i]
        } else {
            empty_subtree_digest(level as nat)
        }
    }

    /// The tree's invariant: a level above the leaves exists; the hash
    /// table covers every level; each level stores exactly the parents of
    /// the level below, so its storage is half as long, rounded up; the
    /// leaf level fits the depth; every stored parent is the hash of its
    /// two children in order; and the root is the single top digest.
    pub open spec fn wf(&self) -> bool {
        &&& self.nodes@.len() >= 2
        &&& self.list_of_hashes.wf()
        &&& self.list_of_hashes.spec_len() > self.depth()
        &&& forall|l: int| 0 <= l <= self.depth() ==> 1 <= #[trigger] self.level_len(l)
        &&& forall|l: int|
            0 <= l < self.depth() ==> #[trigger] self.level_len(l + 1) == (self.level_len(l)
                - 1) / 2 + 1
        &&& self.level_len(0) <= pow2(self.depth())
        &&& forall|l: int, j: int|
            0 <= l < self.depth() && 0 <= j < self.level_len(l + 1)
                ==> #[trigger] self.nodes@[l + 1]@[j] == hash2(
                self.stored(l, 2 * j),
                self.stored(l, 2 * j + 1),
            )
        &&& self.root == self.nodes@[self.depth() as int]@[0]
    }

    /// Builds the tree of the given depth with no leaf inserted yet:
    /// every level holds the single empty-subtree digest of its level,
    /// and the root is the empty digest of the top.
    pub fn new_default_leaf(depth: usize) -> (r: Self)
        requires
            1 <= depth < usize::MAX,
        ensures
            r.wf(),
            r.depth() == depth,
            forall|j: int| #[trigger] r.stored(0, j) == empty_subtree_digest(0),
            r.root == empty_subtree_digest(depth as nat),
    {
        let list_of_hashes = Hashes::new(depth + 1);
        let mut nodes: Vec<Vec<Fe>> = Vec::new();
        let mut i: usize = 0;
        while i <= depth
            invariant
                list_of_hashes.wf(),
                list_of_hashes.spec_len() == depth + 1,
                depth < usize::MAX,
                i == nodes@.len(),
                i <= depth + 1,
                forall|l: int|
                    0 <= l < i ==> (#[trigger] nodes@[l]@.len()) == 1 && nodes@[l]@[0]
                        == empty_subtree_digest(l as nat),
            decreases depth + 1 - i,
        {
            let mut level: Vec<Fe> = Vec::new();
            level.push(list_of_hashes.get(i));
            let ghost pre = nodes@;
            nodes.push(level);
            proof {
                assert(nodes@[i as int]@.len() == 1);
                assert(nodes@[i as int]@[0] == empty_subtree_digest(i as nat));
                assert forall|l: int|
                    0 <= l < i + 1 implies (#[trigger] nodes@[l]@.len()) == 1 && nodes@[l]@[0]
                    == empty_subtree_digest(l as nat) by {
                    if l < i {
                        assert(pre[l]@.len() == 1);
                        assert(pre[l]@[0] == empty_subtree_digest(l as nat));
                        assert(nodes@[l] == pre[l]);
                    } else {
                        assert(l == i);
                    }
                }
            }
            i = i + 1;
        }
        let root = list_of_hashes.get(depth);
        let r = NativeIndexedMerkleTree { nodes, root, list_of_hashes };
        proof {
            vstd::arithmetic::power2::lemma_pow2_pos(depth as nat);
            assert(r.nodes@[depth as int]@.len() == 1);
            assert(r.nodes@[depth as int]@[0] == empty_subtree_digest(depth as nat));
            assert forall|l: int| 0 <= l <= r.depth() implies 1 <= #[trigger] r.level_len(l) by {
                assert(r.nodes@[l]@.len() == 1);
            }
            assert forall|l: int| 0 <= l < r.depth() implies #[trigger] r.level_len(l + 1) == (
            r.level_len(l) - 1) / 2 + 1 by {
                assert(r.nodes@[l]@.len() == 1);
                assert(r.nodes@[l + 1]@.len() == 1);
            }
            assert forall|l: int, j: int|
                0 <= l < r.depth() && 0 <= j < r.level_len(l + 1) implies #[trigger] r.nodes@[l
                + 1]@[j] == hash2(r.stored(l, 2 * j), r.stored(l, 2 * j + 1)) by {
                assert(j == 0);
                assert(r.stored(l, 0) == empty_subtree_digest(l as nat));
                assert(r.stored(l, 1) == empty_subtree_digest(l as nat));
                assert(empty_subtree_digest((l + 1) as nat) == hash2(
                    empty_subtree_digest(l as nat),
                    empty_subtree_digest(l as nat),
                ));
            }
            assert forall|j: int| #[trigger] r.stored(0, j) == empty_subtree_digest(0) by {
                if 0 <= j < r.level_len(0) {
                    assert(j == 0);
                }
            }
        }
        r
    }

    /// Reads the leaf digest stored at `index`.
    pub fn get_leaf_at_index(&self, index: usize) -> (r: Fe)
        requires
            self.nodes@.len() >= 1,
            index < self.nodes@[0]@.len(),
        ensures
            r == self.nodes@[0]@[index as int],
    {
        self.nodes[0][index]
    }

    /// The current root.
    pub fn get_root(&self) -> (r: Fe)
        ensures
            r == self.root,
    {
        self.root
    }

    /// The sibling the authentication path records at `level` for a leaf
    /// at `index`: the other child of the position's parent.
    pub open spec fn proof_sibling(&self, level: int, index: int) -> Fe {
        let p = pos_at(index, level as nat);
        if p % 2 == 0 {
            self.stored(level, p + 1)
        } else {
            self.stored(level, p - 1)
        }
    }

    /// The full authentication path of `index`, leaf level first.
    pub open spec fn proof_seq(&self, index: int) -> Seq<Fe> {
        Seq::new(self.depth(), |l: int| self.proof_sibling(l, index))
    }

    /// The path's direction flags: one where the position is a left
    /// child, zero where it is a right one.
    pub open spec fn helper_seq(&self, index: int) -> Seq<Fe> {
        Seq::new(
            self.depth(),
            |l: int|
                if pos_at(index, l as nat) % 2 == 0 {
                    fe_one()
                } else {
                    fe_zero()
                },
        )
    }

    /// Storage shrinks with height: level `l` holds at most
    /// 2^(depth - l) digests.
    pub proof fn lemma_level_len_bound(&self, l: int)
        requires
            self.wf(),
            0 <= l <= self.depth(),
        ensures
            self.level_len(l) <= pow2((self.depth() - l) as nat),
        decreases l,
    {
        if l == 0 {
        } else {
            self.lemma_level_len_bound(l - 1);
            let n = self.level_len(l - 1);
            let k = (self.depth() - l) as nat;
            assert(self.level_len((l - 1) + 1) == (self.level_len(l - 1) - 1) / 2 + 1);
            assert(self.level_len(l) == (n - 1) / 2 + 1);
            vstd::arithmetic::power2::lemma_pow2_unfold(k + 1);
            vstd::arithmetic::div_mod::lemma_div_is_ordered(n - 1, 2 * pow2(k) - 1, 2);
            assert((2 * pow2(k) - 1) / 2 == pow2(k) - 1);
        }
    }

    /// The top level stores exactly one digest.
    pub proof fn lemma_top_len(&self)
        requires
            self.wf(),
        ensures
            self.level_len(self.depth() as int) == 1,
    {
        self.lemma_level_len_bound(self.depth() as int);
        vstd::arithmetic::power2::lemma2_to64();
    }

    /// Derives the authentication path of `index` read-only: for each
    /// level, the stored sibling, or the level's empty-subtree digest
    /// where storage has not grown that far, together with the direction
    /// flag of the position.
    pub fn get_proof(&self, index: usize) -> (r: (Vec<Fe>, Vec<Fe>))
        requires
            self.wf(),
        ensures
            r.0@ == self.proof_seq(index as int),
            r.1@ == self.helper_seq(index as int),
    {
        let mut proof: Vec<Fe> = Vec::new();
        let mut proof_helper: Vec<Fe> = Vec::new();
        let mut current_index: usize = index;
        let depth = self.nodes.len() - 1;
        for i in 0..depth
            invariant
                self.wf(),
                depth == self.depth(),
                current_index == pos_at(index as int, i as nat),
                proof@.len() == i,
                proof_helper@.len() == i,
                forall|l: int| 0 <= l < i ==> proof@[l] == self.proof_sibling(l, index as int),
                forall|l: int|
                    0 <= l < i ==> proof_helper@[l] == self.helper_seq(index as int)[l],
        {
            let level = &self.nodes[i];
            let is_left_node = current_index % 2 == 0;
            let sibling_index = if is_left_node {
                current_index + 1
            } else {
                current_index - 1
            };
            let sibling = if sibling_index < level.len() {
                level[sibling_index]
            } else {
                self.list_of_hashes.get(i)
            };
            proof.push(sibling);
            proof_helper.push(if is_left_node {
                Fe::one()
            } else {
                Fe::zero()
            });
            proof {
                lemma_pos_at_succ(index as int, i as nat);
                lemma_pos_at_nonneg(index as int, i as nat);
            }
            current_index = current_index / 2;
        }
        proof {
            assert(proof@ =~= self.proof_seq(index as int));
            assert(proof_helper@ =~= self.helper_seq(index as int));
        }
        (proof, proof_helper)
    }

    /// Folding a slot's path from the digest the tree holds for it
    /// reproduces the digests on the way up: after `l` levels the fold
    /// stands at the digest the lifted position holds, whether it sits in
    /// storage or stands for an empty subtree.
    proof fn lemma_stored_chain(&self, index: int, l: int)
        requires
            self.wf(),
            0 <= index < pow2(self.depth()),
            0 <= l <= self.depth(),
        ensures
            root_from_path(self.stored(0, index), index, self.proof_seq(index).take(l))
                == self.stored(l, pos_at(index, l as nat)),
        decreases l,
    {
        if l == 0 {
            assert(self.proof_seq(index).take(0) =~= Seq::<Fe>::empty());
        } else {
            self.lemma_stored_chain(index, l - 1);
            lemma_pos_at_succ(index, (l - 1) as nat);
            lemma_pos_at_nonneg(index, (l - 1) as nat);
            let p = pos_at(index, (l - 1) as nat);
            let path = self.proof_seq(index);
            assert(path.take(l) =~= path.take(l - 1).push(path[l - 1]));
            lemma_root_from_path_push(
                self.stored(0, index),
                index,
                path.take(l - 1),
                path[l - 1],
            );
            assert(path.take(l - 1).len() == l - 1);
            let j = p / 2;
            assert(j == pos_at(index, l as nat));
            if p % 2 == 0 {
                assert(2 * j == p);
                assert(path[l - 1] == self.stored(l - 1, p + 1));
            } else {
                assert(2 * j + 1 == p);
                assert(path[l - 1] == self.stored(l - 1, p - 1));
            }
            let n = self.level_len(l - 1);
            assert(self.level_len((l - 1) + 1) == (n - 1) / 2 + 1);
            if j < self.level_len(l) {
                assert(self.nodes@[(l - 1) + 1]@[j] == hash2(
                    self.stored(l - 1, 2 * j),
                    self.stored(l - 1, 2 * j + 1),
                ));
                assert(self.stored(l, j) == self.nodes@[l]@[j]);
            } else {
                // The parent stands outside storage, and so do both of
                // its children: two empty subtrees hash to the empty
                // subtree one level up.
                assert(j >= (n - 1) / 2 + 1);
                assert(2 * j >= 2 * ((n - 1) / 2 + 1));
                assert(2 * ((n - 1) / 2) >= n - 2);
                assert(self.stored(l - 1, 2 * j) == empty_subtree_digest((l - 1) as nat));
                assert(self.stored(l - 1, 2 * j + 1) == empty_subtree_digest((l - 1) as nat));
                assert(self.stored(l, j) == empty_subtree_digest(l as nat));
                assert(empty_subtree_digest(l as nat) == hash2(
                    empty_subtree_digest((l - 1) as nat),
                    empty_subtree_digest((l - 1) as nat),
                ));
            }
        }
    }

    /// Replaying any slot's authentication path from the digest the tree
    /// holds for it, a stored leaf or the empty digest of an untouched
    /// slot, yields the root.
    pub proof fn lemma_stored_path_yields_root(&self, index: int)
        requires
            self.wf(),
            0 <= index < pow2(self.depth()),
        ensures
            root_from_path(self.stored(0, index), index, self.proof_seq(index)) == self.root,
    {
        self.lemma_stored_chain(index, self.depth() as int);
        self.lemma_top_len();
        crate::merkle_path::lemma_pos_at_pow2(index, self.depth(), 0);
        vstd::arithmetic::power2::lemma2_to64();
        assert(pos_at(index, self.depth()) == 0);
        assert(self.stored(self.depth() as int, 0) == self.nodes@[self.depth() as int]@[0]);
        assert(self.proof_seq(index).take(self.depth() as int) =~= self.proof_seq(index));
    }

    /// Replaying a tree's own authentication path from its stored leaf
    /// yields its root: deriving a proof and verifying it round-trips.
    pub proof fn lemma_own_path_yields_root(&self, index: int)
        requires
            self.wf(),
            0 <= index < self.level_len(0),
        ensures
            root_from_path(self.nodes@[0]@[index], index, self.proof_seq(index))
                == self.root,
    {
        self.lemma_stored_path_yields_root(index);
        assert(self.stored(0, index) == self.nodes@[0]@[index]);
    }

    /// Replays the hash chain from the leaf stored at `index` along the
    /// given siblings and compares the outcome against `root`.
    pub fn verify_proof(&mut self, index: usize, root: &Fe, proof: &[Fe]) -> (r: bool)
        requires
            old(self).nodes@.len() >= 1,
            index < old(self).nodes@[0]@.len(),
        ensures
            *final(self) == *old(self),
            r == (root_from_path(old(self).nodes@[0]@[index as int], index as int, proof@)
                == *root),
    {
        let computed_leaf = self.nodes[0][index];
        let ghost leaf = computed_leaf;
        let mut computed_hash = computed_leaf;
        let mut current_index: usize = index;
        let n = proof.len();
        for i in 0..n
            invariant
                n == proof@.len(),
                computed_hash == root_from_path(leaf, index as int, proof@.take(i as int)),
                current_index == pos_at(index as int, i as nat),
        {
            let proof_element = &proof[i];
            let is_left_node = current_index % 2 == 0;
            proof {
                assert(proof@.take(i + 1) =~= proof@.take(i as int).push(proof@[i as int]));
                lemma_root_from_path_push(leaf, index as int, proof@.take(i as int), proof@[i as int]);
                assert(proof@.take(i as int).len() == i);
                lemma_pos_at_succ(index as int, i as nat);
            }
            computed_hash = if is_left_node {
                poseidon_hash(&computed_hash, proof_element)
            } else {
                poseidon_hash(proof_element, &computed_hash)
            };
            current_index = current_index / 2;
        }
        proof {
            assert(proof@.take(n as int) =~= proof@);
        }
        computed_hash == *root
    }

    /// Positions lifted from a leaf index at most one past storage stay
    /// at most one past each level's storage, and within the level's
    /// capacity.
    pub proof fn lemma_pos_bounds(&self, index: int, l: int)
        requires
            self.wf(),
            0 <= index <= self.level_len(0),
            index < pow2(self.depth()),
            0 <= l <= self.depth(),
        ensures
            0 <= pos_at(index, l as nat) <= self.level_len(l),
            pos_at(index, l as nat) < pow2((self.depth() - l) as nat),
        decreases l,
    {
        lemma_pos_at_nonneg(index, l as nat);
        if l > 0 {
            self.lemma_pos_bounds(index, l - 1);
            lemma_pos_at_succ(index, (l - 1) as nat);
            let p = pos_at(index, (l - 1) as nat);
            let n = self.level_len(l - 1);
            assert(self.level_len((l - 1) + 1) == (self.level_len(l - 1) - 1) / 2 + 1);
            let k = (self.depth() - l) as nat;
            vstd::arithmetic::power2::lemma_pow2_unfold(k + 1);
            vstd::arithmetic::div_mod::lemma_div_is_ordered(p, n, 2);
            assert(n / 2 <= (n - 1) / 2 + 1);
            vstd::arithmetic::div_mod::lemma_div_is_ordered(p, 2 * pow2(k) - 1, 2);
            assert((2 * pow2(k) - 1) / 2 == pow2(k) - 1);
        }
    }

    /// The storage length level `l` has after inserting at `index`: one
    /// more than before exactly when the lifted position falls one past
    /// the old storage.
    pub open spec fn grown_len(&self, index: int, l: int) -> int {
        if pos_at(index, l as nat) < self.level_len(l) {
            self.level_len(l)
        } else {
            self.level_len(l) + 1
        }
    }

    /// Writes `leaf` at `index` of the leaf level, growing it by one slot
    /// if `index` is one past the stored leaves, then recomputes the
    /// stored digest of every position on the way to the root, reading
    /// each level's sibling from storage or from the empty-subtree table.
    /// Returns the authentication path that was used, as it stood before
    /// the write, with its direction flags.
    pub fn insert_leaf(&mut self, leaf: Fe, index: usize) -> (r: (Vec<Fe>, Vec<Fe>))
        requires
            old(self).wf(),
            index <= old(self).nodes@[0]@.len(),
            index < pow2(old(self).depth()),
        ensures
            final(self).wf(),
            final(self).depth() == old(self).depth(),
            final(self).list_of_hashes == old(self).list_of_hashes,
            final(self).nodes@[0]@[index as int] == leaf,
            final(self).level_len(0) == old(self).grown_len(index as int, 0),
            forall|l: int, j: int|
                0 <= l <= old(self).depth() && 0 <= j && j != pos_at(index as int, l as nat)
                    ==> #[trigger] final(self).stored(l, j) == old(self).stored(l, j),
            r.0@ == old(self).proof_seq(index as int),
            r.0@ == final(self).proof_seq(index as int),
            r.1@ == old(self).helper_seq(index as int),
            final(self).root == root_from_path(leaf, index as int, r.0@),
    {
        let ghost t0 = *self;
        let depth = self.nodes.len() - 1;
        if index >= self.nodes[0].len() {
            let row = &mut self.nodes[0];
            row.push(Fe::zero());
        }
        let row0 = &mut self.nodes[0];
        row0.set(index, leaf);

        let mut cur_leaf = leaf;
        let mut current_index: usize = index;
        let mut proof: Vec<Fe> = Vec::new();
        let mut proof_helper: Vec<Fe> = Vec::new();

        proof {
            assert(root_from_path(leaf, index as int, Seq::<Fe>::empty()) == leaf);
            assert(self.nodes@[0]@ == (if index < t0.level_len(0) {
                t0.nodes@[0]@.update(index as int, leaf)
            } else {
                t0.nodes@[0]@.push(fe_zero()).update(index as int, leaf)
            }));
            assert forall|j: int| 0 <= j && j != index implies #[trigger] self.stored(0, j)
                == t0.stored(0, j) by {
                if j < self.level_len(0) {
                    assert(self.nodes@[0]@[j] == t0.nodes@[0]@[j]);
                }
            }
        }

        for i in 0..depth
            invariant
                t0.wf(),
                index <= t0.level_len(0),
                index < pow2(t0.depth()),
                depth == t0.depth(),
                self.nodes@.len() == t0.nodes@.len(),
                self.list_of_hashes == t0.list_of_hashes,
                current_index == pos_at(index as int, i as nat),
                index < self.level_len(0),
                self.nodes@[0]@[index as int] == leaf,
                proof@.len() == i,
                proof_helper@.len() == i,
                forall|l: int|
                    0 <= l < i ==> proof@[l] == t0.proof_sibling(l, index as int),
                forall|l: int|
                    0 <= l < i ==> proof_helper@[l] == t0.helper_seq(index as int)[l],
                cur_leaf == root_from_path(leaf, index as int, proof@),
                forall|l: int|
                    i < l <= depth ==> #[trigger] self.nodes@[l]@ == t0.nodes@[l]@,
                forall|l: int|
                    0 <= l <= i ==> #[trigger] self.level_len(l) == t0.grown_len(
                        index as int,
                        l,
                    ),
                forall|l: int, j: int|
                    0 <= l <= i && 0 <= j && j != pos_at(index as int, l as nat)
                        ==> #[trigger] self.stored(l, j) == t0.stored(l, j),
                self.nodes@[i as int]@[pos_at(index as int, i as nat)] == cur_leaf,
                forall|l: int, j: int|
                    0 <= l < i && 0 <= j < self.level_len(l + 1) ==> #[trigger] self.nodes@[l
                        + 1]@[j] == hash2(self.stored(l, 2 * j), self.stored(l, 2 * j + 1)),
        {
            proof {
                t0.lemma_pos_bounds(index as int, i as int);
                t0.lemma_pos_bounds(index as int, i + 1);
                lemma_pos_at_succ(index as int, i as nat);
                lemma_pos_at_nonneg(index as int, i as nat);
            }
            let ghost p_i = pos_at(index as int, i as nat);
            let is_left_node = current_index % 2 == 0;
            let sibling_index = if is_left_node {
                current_index + 1
            } else {
                current_index - 1
            };
            let level = &self.nodes[i];
            let sibling = if sibling_index < level.len() {
                level[sibling_index]
            } else {
                self.list_of_hashes.get(i)
            };
            proof {
                assert(sibling == t0.proof_sibling(i as int, index as int)) by {
                    if sibling_index < self.level_len(i as int) {
                        assert(self.stored(i as int, sibling_index as int) == t0.stored(
                            i as int,
                            sibling_index as int,
                        ));
                    } else {
                        assert(self.level_len(i as int) >= t0.level_len(i as int));
                    }
                }
            }
            let ghost proof_pre = proof@;
            proof.push(sibling);
            proof_helper.push(
                if is_left_node {
                    Fe::one()
                } else {
                    Fe::zero()
                },
            );
            proof {
                assert(proof@ =~= proof_pre.push(sibling));
                lemma_root_from_path_push(leaf, index as int, proof_pre, sibling);
                assert(proof_pre.len() == i);
            }
            let parent = if is_left_node {
                poseidon_hash(&cur_leaf, &sibling)
            } else {
                poseidon_hash(&sibling, &cur_leaf)
            };
            let parent_leaf_idx = current_index / 2;
            let ghost before = *self;
            let parent_row = &mut self.nodes[i + 1];
            if parent_leaf_idx >= parent_row.len() {
                parent_row.push(Fe::zero());
            }
            parent_row.set(parent_leaf_idx, parent);
            proof {
                let ip1 = i + 1 as int;
                assert(before.nodes@[ip1]@ == t0.nodes@[ip1]@);
                assert(self.nodes@[ip1]@ == (if parent_leaf_idx < t0.level_len(ip1) {
                    t0.nodes@[ip1]@.update(parent_leaf_idx as int, parent)
                } else {
                    t0.nodes@[ip1]@.push(fe_zero()).update(parent_leaf_idx as int, parent)
                }));
                assert forall|l: int| i + 1 < l <= depth implies #[trigger] self.nodes@[l]@
                    == t0.nodes@[l]@ by {
                    assert(self.nodes@[l]@ == before.nodes@[l]@);
                }
                assert(self.nodes@[0]@ == before.nodes@[0]@);
                assert forall|l: int| 0 <= l <= i + 1 implies #[trigger] self.level_len(l)
                    == t0.grown_len(index as int, l) by {
                    if l <= i {
                        assert(self.level_len(l) == before.level_len(l));
                    }
                }
                assert forall|l: int, j: int|
                    0 <= l <= i + 1 && 0 <= j && j != pos_at(index as int, l as nat)
                        implies #[trigger] self.stored(l, j) == t0.stored(l, j) by {
                    if l <= i {
                        assert(self.stored(l, j) == before.stored(l, j));
                        assert(before.stored(l, j) == t0.stored(l, j));
                    } else {
                        if j < self.level_len(l) {
                            assert(self.nodes@[l]@[j] == t0.nodes@[l]@[j]);
                        } else {
                            assert(j >= t0.level_len(l));
                        }
                    }
                }
                assert forall|l: int, j: int|
                    0 <= l < i + 1 && 0 <= j < self.level_len(l + 1)
                        implies #[trigger] self.nodes@[l + 1]@[j] == hash2(
                        self.stored(l, 2 * j),
                        self.stored(l, 2 * j + 1),
                    ) by {
                    if l < i {
                        assert(before.nodes@[l + 1]@[j] == hash2(
                            before.stored(l, 2 * j),
                            before.stored(l, 2 * j + 1),
                        ));
                        assert(self.nodes@[l + 1]@[j] == before.nodes@[l + 1]@[j]);
                        assert(self.stored(l, 2 * j) == before.stored(l, 2 * j));
                        assert(self.stored(l, 2 * j + 1) == before.stored(l, 2 * j + 1));
                    } else {
                        // l == i: the one parent written this iteration, or an
                        // untouched parent whose children are also untouched
                        if j == parent_leaf_idx {
                            assert(self.nodes@[l + 1]@[j] == parent);
                            if p_i % 2 == 0 {
                                assert(2 * j == p_i);
                                assert(self.stored(l, 2 * j) == cur_leaf);
                                assert(self.stored(l, 2 * j + 1) == t0.proof_sibling(
                                    l,
                                    index as int,
                                ));
                            } else {
                                assert(2 * j + 1 == p_i);
                                assert(self.stored(l, 2 * j + 1) == cur_leaf);
                                assert(self.stored(l, 2 * j) == t0.proof_sibling(
                                    l,
                                    index as int,
                                ));
                            }
                        } else {
                            assert(2 * j != p_i && 2 * j + 1 != p_i);
                            assert(j != pos_at(index as int, (i + 1) as nat));
                            assert(j < t0.level_len(l + 1));
                            assert(t0.nodes@[l + 1]@[j] == hash2(
                                t0.stored(l, 2 * j),
                                t0.stored(l, 2 * j + 1),
                            ));
                            assert(self.stored(l, 2 * j) == t0.stored(l, 2 * j));
                            assert(self.stored(l, 2 * j + 1) == t0.stored(l, 2 * j + 1));
                            assert(self.nodes@[l + 1]@[j] == t0.nodes@[l + 1]@[j]);
                        }
                    }
                }
            }
            cur_leaf = parent;
            current_index = parent_leaf_idx;
        }
        proof {
            t0.lemma_pos_bounds(index as int, depth as int);
            vstd::arithmetic::power2::lemma2_to64();
            t0.lemma_top_len();
            assert(pos_at(index as int, depth as nat) == 0);
            assert(self.level_len(depth as int) == 1);
        }
        let top = self.nodes[depth][0];
        proof {
            assert(top == cur_leaf);
        }
        let ghost t1 = *self;
        self.root = top;
        proof {
            assert(self.nodes@ == t1.nodes@);
            assert forall|l: int| 0 <= l <= depth implies #[trigger] self.level_len(l)
                == t0.grown_len(index as int, l) by {
                assert(self.level_len(l) == t1.level_len(l));
            }
            assert forall|l: int, j: int|
                0 <= l <= depth && 0 <= j && j != pos_at(index as int, l as nat)
                    implies #[trigger] self.stored(l, j) == t0.stored(l, j) by {
                assert(self.stored(l, j) == t1.stored(l, j));
            }
            assert forall|l: int, j: int|
                0 <= l < depth && 0 <= j < self.level_len(l + 1) implies #[trigger] self.nodes@[l
                + 1]@[j] == hash2(self.stored(l, 2 * j), self.stored(l, 2 * j + 1)) by {
                assert(self.nodes@[l + 1]@[j] == t1.nodes@[l + 1]@[j]);
                assert(self.stored(l, 2 * j) == t1.stored(l, 2 * j));
                assert(self.stored(l, 2 * j + 1) == t1.stored(l, 2 * j + 1));
                assert(t1.nodes@[l + 1]@[j] == hash2(t1.stored(l, 2 * j), t1.stored(l, 2 * j + 1)));
            }
            assert(proof@ =~= t0.proof_seq(index as int));
            assert(proof_helper@ =~= t0.helper_seq(index as int));
            self.lemma_insert_wf_restore(t0, index as int);
            assert forall|l: int| 0 <= l < depth implies #[trigger] self.proof_sibling(
                l,
                index as int,
            ) == t0.proof_sibling(l, index as int) by {
                lemma_pos_at_nonneg(index as int, l as nat);
                let p = pos_at(index as int, l as nat);
                if p % 2 == 0 {
                    assert(self.stored(l, p + 1) == t0.stored(l, p + 1));
                } else {
                    assert(self.stored(l, p - 1) == t0.stored(l, p - 1));
                }
            }
            assert(self.proof_seq(index as int) =~= t0.proof_seq(index as int));
        }
        (proof, proof_helper)
    }
    /// Gathers the well-formedness of the tree the insert loop leaves
    /// behind from the facts its invariants established.
    proof fn lemma_insert_wf_restore(&self, t0: NativeIndexedMerkleTree, index: int)
        requires
            t0.wf(),
            0 <= index <= t0.level_len(0),
            index < pow2(t0.depth()),
            self.nodes@.len() == t0.nodes@.len(),
            self.list_of_hashes == t0.list_of_hashes,
            forall|l: int|
                0 <= l <= t0.depth() ==> #[trigger] self.level_len(l) == t0.grown_len(
                    index,
                    l,
                ),
            forall|l: int, j: int|
                0 <= l < t0.depth() && 0 <= j < self.level_len(l + 1)
                    ==> #[trigger] self.nodes@[l + 1]@[j] == hash2(
                    self.stored(l, 2 * j),
                    self.stored(l, 2 * j + 1),
                ),
            self.root == self.nodes@[t0.depth() as int]@[0],
        ensures
            self.wf(),
    {
        assert forall|l: int| 0 <= l <= self.depth() implies 1 <= #[trigger] self.level_len(
            l,
        ) by {
            assert(t0.level_len(l) >= 1);
        }
        assert forall|l: int| 0 <= l < self.depth() implies #[trigger] self.level_len(l + 1)
            == (self.level_len(l) - 1) / 2 + 1 by {
            t0.lemma_pos_bounds(index, l);
            t0.lemma_pos_bounds(index, l + 1);
            lemma_pos_at_succ(index, l as nat);
            let p = pos_at(index, l as nat);
            let n = t0.level_len(l);
            let m = t0.level_len(l + 1);
            assert(t0.level_len(l + 1) == (t0.level_len(l) - 1) / 2 + 1);
            assert(n >= 1);
            assert(0 <= p <= n);
            assert(m == (n - 1) / 2 + 1);
            if p < n {
                vstd::arithmetic::div_mod::lemma_div_is_ordered(p, n - 1, 2);
            }
        }
        assert(self.level_len(0) <= pow2(self.depth())) by {
            t0.lemma_pos_bounds(index, 0);
        }
    }
}

} // verus!

