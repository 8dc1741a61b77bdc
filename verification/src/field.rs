use vstd::prelude::*;

verus! {

/// An element of the working prime field, held as the four 64-bit
/// little-endian limbs of its canonical integer representative.
///
/// The tree stores digests of this type, and the insertion protocol compares
/// leaf values of this type; all reasoning is over `as_int`, the integer the
/// limbs spell out.
#[derive(Clone, Copy, Debug, PartialEq, Eq, Structural)]
pub struct Fe {
    pub limb0: u64,
    pub limb1: u64,
    pub limb2: u64,
    pub limb3: u64,
}

impl View for Fe {
    type V = Seq<u64>;

    open spec fn view(&self) -> Seq<u64> {
        seq![self.limb0, self.limb1, self.limb2, self.limb3]
    }
}

impl Fe {
    /// The integer value the four limbs represent, little-endian base 2^64.
    pub open spec fn as_int(self) -> int {
        self.limb0 as int
            + self.limb1 as int * 0x1_0000_0000_0000_0000
            + self.limb2 as int * 0x1_0000_0000_0000_0000_0000_0000_0000_0000
            + self.limb3 as int * 0x1_0000_0000_0000_0000_0000_0000_0000_0000_0000_0000_0000_0000
    }

    /// The all-zero element.
    pub fn zero() -> (r: Fe)
        ensures
            r == fe_zero(),
            r.as_int() == 0,
    {
        Fe { limb0: 0, limb1: 0, limb2: 0, limb3: 0 }
    }

    /// The element one.
    pub fn one() -> (r: Fe)
        ensures
            r == fe_one(),
            r.as_int() == 1,
    {
        Fe { limb0: 1, limb1: 0, limb2: 0, limb3: 0 }
    }

    /// Embeds a small integer.
    pub fn from_u64(v: u64) -> (r: Fe)
        ensures
            r == fe_u64(v),
            r.as_int() == v,
    {
        Fe { limb0: v, limb1: 0, limb2: 0, limb3: 0 }
    }

    /// True exactly on the all-zero element.
    pub fn is_zero(&self) -> (r: bool)
        ensures
            r <==> self.as_int() == 0,
    {
        proof {
            lemma_as_int_zero(*self);
        }
        self.limb0 == 0 && self.limb1 == 0 && self.limb2 == 0 && self.limb3 == 0
    }

    /// Whether the element fits in `n` bytes, the precondition of the
    /// less-than comparator.
    pub open spec fn fits_bytes(self, n: nat) -> bool {
        0 <= self.as_int() < vstd::arithmetic::power2::pow2(8 * n)
    }

    /// Strict comparison of the integer representatives, most significant
    /// limb first.
    pub fn lt(&self, other: &Fe) -> (r: bool)
        ensures
            r <==> self.as_int() < other.as_int(),
    {
        proof {
            lemma_limb_order(*self, *other);
        }
        if self.limb3 != other.limb3 {
            self.limb3 < other.limb3
        } else if self.limb2 != other.limb2 {
            self.limb2 < other.limb2
        } else if self.limb1 != other.limb1 {
            self.limb1 < other.limb1
        } else {
            self.limb0 < other.limb0
        }
    }
}

/// The all-zero element, written out.
pub open spec fn fe_zero() -> Fe {
    Fe { limb0: 0, limb1: 0, limb2: 0, limb3: 0 }
}

/// The element one, written out.
pub open spec fn fe_one() -> Fe {
    Fe { limb0: 1, limb1: 0, limb2: 0, limb3: 0 }
}

/// The element embedding the small integer `v`.
pub open spec fn fe_u64(v: u64) -> Fe {
    Fe { limb0: v, limb1: 0, limb2: 0, limb3: 0 }
}

/// The integer value is zero exactly when every limb is zero.
proof fn lemma_as_int_zero(e: Fe)
    ensures
        e.as_int() == 0 <==> (e.limb0 == 0 && e.limb1 == 0 && e.limb2 == 0 && e.limb3 == 0),
{
}

/// An element that fits in eight bytes lives entirely in its lowest limb.
pub proof fn lemma_fits_bytes_8_limb0(e: Fe)
    requires
        e.fits_bytes(8),
    ensures
        e.limb1 == 0,
        e.limb2 == 0,
        e.limb3 == 0,
        e.as_int() == e.limb0,
{
    vstd::arithmetic::power2::lemma2_to64_rest();
}

/// Lexicographic comparison of the limbs, most significant first, agrees
/// with comparison of the represented integers.
proof fn lemma_limb_order(a: Fe, b: Fe)
    ensures
        a.limb3 < b.limb3 ==> a.as_int() < b.as_int(),
        a.limb3 == b.limb3 && a.limb2 < b.limb2 ==> a.as_int() < b.as_int(),
        a.limb3 == b.limb3 && a.limb2 == b.limb2 && a.limb1 < b.limb1 ==> a.as_int()
            < b.as_int(),
        a.limb3 == b.limb3 && a.limb2 == b.limb2 && a.limb1 == b.limb1 && a.limb0 < b.limb0
            ==> a.as_int() < b.as_int(),
        a.limb3 == b.limb3 && a.limb2 == b.limb2 && a.limb1 == b.limb1 && a.limb0 == b.limb0
            ==> a.as_int() == b.as_int(),
{
}

} // verus!
