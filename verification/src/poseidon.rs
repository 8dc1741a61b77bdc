use vstd::prelude::*;

use crate::field::Fe;
use halo2_gadgets::poseidon::primitives::Hash as PoseidonHash;
use halo2_gadgets::poseidon::primitives::{ConstantLength, P128Pow5T3};
use halo2_proofs::pasta::group::ff::PrimeField;
use halo2_proofs::pasta::Fp;

verus! {

/// What the two-input poseidon sponge returns, as the limb view of the
/// digest; a function of the two inputs alone.
pub uninterp spec fn poseidon2_of(a: Seq<u64>, b: Seq<u64>) -> Seq<u64>;

/// What the four-input poseidon sponge returns, as the limb view of the
/// digest; a function of the four inputs alone.
pub uninterp spec fn poseidon4_of(a: Seq<u64>, b: Seq<u64>, c: Seq<u64>, d: Seq<u64>) -> Seq<
    u64,
>;

/// The element whose limbs are the first four entries of `s`.
pub open spec fn fe_from_limbs(s: Seq<u64>) -> Fe {
    Fe { limb0: s[0], limb1: s[1], limb2: s[2], limb3: s[3] }
}

/// The parent digest of an ordered pair of nodes.
pub open spec fn hash2(a: Fe, b: Fe) -> Fe {
    fe_from_limbs(poseidon2_of(a@, b@))
}

/// The digest of four elements, used for leaf records together with a
/// domain tag.
pub open spec fn hash4(a: Fe, b: Fe, c: Fe, d: Fe) -> Fe {
    fe_from_limbs(poseidon4_of(a@, b@, c@, d@))
}

/// Relies on halo2_gadgets' poseidon primitives (P128Pow5T3, width 3,
/// rate 2, constant length 2) over the pallas base field: a pure hash of
/// the two inputs, here converted limbs-to-field and back through the
/// canonical byte representation.
#[verifier::external_body]
fn poseidon2_call(a: &Fe, b: &Fe) -> (r: Fe)
    ensures
        r@ == poseidon2_of(a@, b@),
{
    let m = [a, b].map(|e| Fp::from_raw([e.limb0, e.limb1, e.limb2, e.limb3]));
    let rep = PoseidonHash::<Fp, P128Pow5T3, ConstantLength<2>, 3, 2>::init().hash(m).to_repr();
    let mut l = [0u64; 4];
    for i in 0..4 {
        l[i] = u64::from_le_bytes(rep[8 * i..8 * i + 8].try_into().unwrap());
    }
    Fe { limb0: l[0], limb1: l[1], limb2: l[2], limb3: l[3] }
}

/// Relies on halo2_gadgets' poseidon primitives (P128Pow5T3, width 3,
/// rate 2, constant length 4) over the pallas base field: a pure hash of
/// the four inputs, converted as in `poseidon2_call`.
#[verifier::external_body]
fn poseidon4_call(a: &Fe, b: &Fe, c: &Fe, d: &Fe) -> (r: Fe)
    ensures
        r@ == poseidon4_of(a@, b@, c@, d@),
{
    let m = [a, b, c, d].map(|e| Fp::from_raw([e.limb0, e.limb1, e.limb2, e.limb3]));
    let rep = PoseidonHash::<Fp, P128Pow5T3, ConstantLength<4>, 3, 2>::init().hash(m).to_repr();
    let mut l = [0u64; 4];
    for i in 0..4 {
        l[i] = u64::from_le_bytes(rep[8 * i..8 * i + 8].try_into().unwrap());
    }
    Fe { limb0: l[0], limb1: l[1], limb2: l[2], limb3: l[3] }
}

/// An element whose view equals `s` is the element `fe_from_limbs(s)`.
proof fn lemma_fe_from_view(e: Fe, s: Seq<u64>)
    requires
        e@ == s,
    ensures
        e == fe_from_limbs(s),
{
    assert(e@[0] == e.limb0);
    assert(e@[1] == e.limb1);
    assert(e@[2] == e.limb2);
    assert(e@[3] == e.limb3);
}

/// Combines two child digests into their parent digest. The native and the
/// in-circuit hash must agree; this is the native side.
pub fn poseidon_hash(a: &Fe, b: &Fe) -> (r: Fe)
    ensures
        r == hash2(*a, *b),
{
    let r = poseidon2_call(a, b);
    proof {
        lemma_fe_from_view(r, poseidon2_of(a@, b@));
    }
    r
}

/// Hashes four elements, the form a leaf record digest takes.
pub fn poseidon_hash4(a: &Fe, b: &Fe, c: &Fe, d: &Fe) -> (r: Fe)
    ensures
        r == hash4(*a, *b, *c, *d),
{
    let r = poseidon4_call(a, b, c, d);
    proof {
        lemma_fe_from_view(r, poseidon4_of(a@, b@, c@, d@));
    }
    r
}

} // verus!
