use vstd::prelude::*;

use crate::field::Fe;
use crate::poseidon::{hash2, poseidon_hash};

verus! {

/// The position a leaf index maps to after climbing `level` levels: each
/// level halves it.
pub open spec fn pos_at(index: int, level: nat) -> int
    decreases level,
{
    if level == 0 {
        index
    } else {
        pos_at(index / 2, (level - 1) as nat)
    }
}

/// Climbing one more level halves the already lifted position.
pub proof fn lemma_pos_at_succ(index: int, level: nat)
    ensures
        pos_at(index, level + 1) == pos_at(index, level) / 2,
    decreases level,
{
    if level == 0 {
        assert(pos_at(index, 1) == pos_at(index / 2, 0));
        assert(pos_at(index / 2, 0) == index / 2);
    } else {
        lemma_pos_at_succ(index / 2, (level - 1) as nat);
        assert(pos_at(index, level + 1) == pos_at(index / 2, level));
        assert(pos_at(index, level) == pos_at(index / 2, (level - 1) as nat));
    }
}

/// Lifted positions of a nonnegative index stay nonnegative.
pub proof fn lemma_pos_at_nonneg(index: int, level: nat)
    requires
        index >= 0,
    ensures
        pos_at(index, level) >= 0,
    decreases level,
{
    if level > 0 {
        lemma_pos_at_nonneg(index / 2, (level - 1) as nat);
    }
}

/// An index below 2^(level + k) lifts to a position below 2^k.
pub proof fn lemma_pos_at_pow2(index: int, level: nat, k: nat)
    requires
        0 <= index < vstd::arithmetic::power2::pow2(level + k),
    ensures
        0 <= pos_at(index, level) < vstd::arithmetic::power2::pow2(k),
    decreases level,
{
    if level > 0 {
        vstd::arithmetic::power2::lemma_pow2_unfold(level + k);
        let m = vstd::arithmetic::power2::pow2((level + k - 1) as nat);
        assert((2 * m - 1) / 2 == m - 1);
        vstd::arithmetic::div_mod::lemma_div_is_ordered(index, 2 * m - 1, 2);
        lemma_pos_at_pow2(index / 2, (level - 1) as nat, k);
    }
}

/// The root obtained from `leaf` at position `index` by folding an
/// authentication path: at each level the current node is hashed with the
/// sibling, on the side the position's parity selects (an even position is
/// a left child).
pub open spec fn root_from_path(leaf: Fe, index: int, path: Seq<Fe>) -> Fe
    decreases path.len(),
{
    if path.len() == 0 {
        leaf
    } else {
        let parent = if index % 2 == 0 {
            hash2(leaf, path[0])
        } else {
            hash2(path[0], leaf)
        };
        root_from_path(parent, index / 2, path.skip(1))
    }
}

/// Appending one sibling extends the fold by a single hashing step, taken
/// at the position the index has reached by then.
pub proof fn lemma_root_from_path_push(leaf: Fe, index: int, path: Seq<Fe>, sib: Fe)
    ensures
        root_from_path(leaf, index, path.push(sib)) == (if pos_at(index, path.len()) % 2
            == 0 {
            hash2(root_from_path(leaf, index, path), sib)
        } else {
            hash2(sib, root_from_path(leaf, index, path))
        }),
    decreases path.len(),
{
    if path.len() == 0 {
        reveal_with_fuel(root_from_path, 2);
        assert(path.push(sib)[0] == sib);
        assert(path.push(sib).skip(1) =~= Seq::<Fe>::empty());
        assert(pos_at(index, 0) == index);
    } else {
        let parent = if index % 2 == 0 {
            hash2(leaf, path[0])
        } else {
            hash2(path[0], leaf)
        };
        assert(path.push(sib)[0] == path[0]);
        assert(path.push(sib).skip(1) =~= path.skip(1).push(sib));
        lemma_root_from_path_push(parent, index / 2, path.skip(1), sib);
        assert(path.skip(1).len() == path.len() - 1);
        assert(pos_at(index, path.len()) == pos_at(index / 2, (path.len() - 1) as nat));
        assert(root_from_path(leaf, index, path) == root_from_path(parent, index / 2, path.skip(1)));
    }
}

/// The root obtained from `leaf` by folding an authentication path whose
/// directions are given outright: at each level the current node is
/// hashed with the sibling, on the left when the flag says the node is a
/// left child.
pub open spec fn root_from_flags(leaf: Fe, sibs: Seq<Fe>, flags: Seq<bool>) -> Fe
    decreases sibs.len(),
{
    if sibs.len() == 0 {
        leaf
    } else {
        let parent = if flags[0] {
            hash2(leaf, sibs[0])
        } else {
            hash2(sibs[0], leaf)
        };
        root_from_flags(parent, sibs.skip(1), flags.skip(1))
    }
}

/// Folding with explicit direction flags agrees with folding by index
/// parity whenever the flags spell out the parities of the index's
/// lifted positions.
pub proof fn lemma_root_from_flags_matches_index(
    leaf: Fe,
    index: int,
    sibs: Seq<Fe>,
    flags: Seq<bool>,
)
    requires
        flags.len() == sibs.len(),
        forall|l: int| 0 <= l < sibs.len() ==> flags[l] == (pos_at(index, l as nat) % 2 == 0),
    ensures
        root_from_flags(leaf, sibs, flags) == root_from_path(leaf, index, sibs),
    decreases sibs.len(),
{
    if sibs.len() > 0 {
        assert(flags[0] == (index % 2 == 0));
        let parent = if index % 2 == 0 {
            hash2(leaf, sibs[0])
        } else {
            hash2(sibs[0], leaf)
        };
        assert forall|l: int| 0 <= l < sibs.skip(1).len() implies flags.skip(1)[l] == (pos_at(
            index / 2,
            l as nat,
        ) % 2 == 0) by {
            assert(flags.skip(1)[l] == flags[l + 1]);
            assert(pos_at(index, (l + 1) as nat) == pos_at(index / 2, l as nat));
        }
        lemma_root_from_flags_matches_index(parent, index / 2, sibs.skip(1), flags.skip(1));
    }
}

/// Turns the one-or-zero direction digests a tree proof carries into
/// plain flags: one means the node is a left child.
pub fn helper_flags(helper: &Vec<Fe>) -> (r: Vec<bool>)
    ensures
        r@.len() == helper@.len(),
        forall|l: int| 0 <= l < r@.len() ==> r@[l] == (helper@[l] == crate::field::fe_one()),
{
    let mut flags: Vec<bool> = Vec::new();
    let one = Fe::one();
    let n = helper.len();
    for i in 0..n
        invariant
            n == helper@.len(),
            one == crate::field::fe_one(),
            flags@.len() == i,
            forall|l: int| 0 <= l < i ==> flags@[l] == (helper@[l] == crate::field::fe_one()),
    {
        let f = helper[i] == one;
        flags.push(f);
    }
    flags
}

/// Folds a full authentication path with explicit direction flags, the
/// chain the in-circuit root computation performs.
pub fn calculate_merkle_root_from_leaf(leaf: &Fe, sibs: &Vec<Fe>, flags: &Vec<bool>) -> (r: Fe)
    requires
        flags@.len() == sibs@.len(),
    ensures
        r == root_from_flags(*leaf, sibs@, flags@),
{
    let mut node: Fe = *leaf;
    let n = sibs.len();
    proof {
        assert(sibs@.skip(0) =~= sibs@);
        assert(flags@.skip(0) =~= flags@);
    }
    for i in 0..n
        invariant
            n == sibs@.len(),
            flags@.len() == sibs@.len(),
            root_from_flags(node, sibs@.skip(i as int), flags@.skip(i as int))
                == root_from_flags(*leaf, sibs@, flags@),
    {
        let (lft, rgt) = ordered_pair(&node, &sibs[i], flags[i]);
        proof {
            assert(sibs@.skip(i as int)[0] == sibs@[i as int]);
            assert(flags@.skip(i as int)[0] == flags@[i as int]);
            assert(sibs@.skip(i as int).skip(1) =~= sibs@.skip(i + 1));
            assert(flags@.skip(i as int).skip(1) =~= flags@.skip(i + 1));
        }
        node = poseidon_hash(&lft, &rgt);
    }
    proof {
        assert(sibs@.skip(n as int) =~= Seq::<Fe>::empty());
        assert(flags@.skip(n as int) =~= Seq::<bool>::empty());
    }
    node
}

/// Orders a node and its sibling for hashing: the node goes left exactly
/// when `is_left` says so.
pub fn ordered_pair(node: &Fe, sibling: &Fe, is_left: bool) -> (r: (Fe, Fe))
    ensures
        is_left ==> r == (*node, *sibling),
        !is_left ==> r == (*sibling, *node),
{
    if is_left {
        (*node, *sibling)
    } else {
        (*sibling, *node)
    }
}

/// The conditional-swap gate's polynomial over the integer values of its
/// cells: `s * 2 * (b - a) - (l - a) - (b - r)`. A row satisfies the
/// gate when this is zero. The circuit checks the value modulo the field's
/// prime, but for the assignments below it is zero over the integers
/// outright, so the two readings agree.
pub open spec fn swap_gate_expr(a: Fe, b: Fe, s: int, l: Fe, r: Fe) -> int {
    s * 2 * (b.as_int() - a.as_int()) - (l.as_int() - a.as_int()) - (b.as_int() - r.as_int())
}

/// The pair `ordered_pair` chooses satisfies the swap gate: the unswapped
/// row with flag zero, the swapped row with flag one.
pub proof fn lemma_ordered_pair_satisfies_swap_gate(a: Fe, b: Fe)
    ensures
        swap_gate_expr(a, b, 0, a, b) == 0,
        swap_gate_expr(a, b, 1, b, a) == 0,
{
    assert(0 * 2 * (b.as_int() - a.as_int()) - (a.as_int() - a.as_int()) - (b.as_int()
        - b.as_int()) == 0) by (nonlinear_arith);
    assert(1 * 2 * (b.as_int() - a.as_int()) - (b.as_int() - a.as_int()) - (b.as_int()
        - a.as_int()) == 0) by (nonlinear_arith);
}

/// Folds a full authentication path from a leaf digest up to the root,
/// the computation the merkle gadget chains level by level.
pub fn compute_merkle_root_from_path(leaf: &Fe, index: usize, path: &Vec<Fe>) -> (r: Fe)
    ensures
        r == root_from_path(*leaf, index as int, path@),
{
    let mut node: Fe = *leaf;
    let mut cur: usize = index;
    let n = path.len();
    for i in 0..n
        invariant
            n == path.len(),
            node == root_from_path(*leaf, index as int, path@.take(i as int)),
            cur == pos_at(index as int, i as nat),
    {
        let sib = path[i];
        let is_left = cur % 2 == 0;
        let (lft, rgt) = ordered_pair(&node, &sib, is_left);
        proof {
            assert(path@.take(i + 1) =~= path@.take(i as int).push(path@[i as int]));
            lemma_root_from_path_push(*leaf, index as int, path@.take(i as int), path@[i as int]);
            assert(path@.take(i as int).len() == i);
            lemma_pos_at_succ(index as int, i as nat);
        }
        node = poseidon_hash(&lft, &rgt);
        cur = cur / 2;
    }
    proof {
        assert(path@.take(n as int) =~= path@);
    }
    node
}

} // verus!
