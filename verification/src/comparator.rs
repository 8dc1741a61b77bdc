use vstd::arithmetic::power2::pow2;
use vstd::prelude::*;

verus! {

/// The byte width the insertion protocol uses the comparator at: its
/// operands must stay within this many bytes for the answer to mean
/// anything.
pub const LT_N_BYTES: usize = 8;

/// The integer a little-endian byte sequence spells out.
pub open spec fn bytes_le_value(s: Seq<u8>) -> int
    decreases s.len(),
{
    if s.len() == 0 {
        0
    } else {
        s[0] + 256 * bytes_le_value(s.skip(1))
    }
}

/// The comparator gate's checks over the integer values of its cells,
/// for any byte width: the outcome flag is boolean, and the byte
/// decomposition reassembles `lhs - rhs + lt * 2^(8n)`; the byte-range
/// lookups are reflected in the `u8` element type. The circuit checks
/// the linear identity modulo the field's prime, but with operands under
/// 2^(8n) and 8n well below the prime's bit length, every term stays far
/// inside the prime, so the two readings agree.
pub open spec fn lt_gate_holds(lhs: int, rhs: int, lt: int, diff: Seq<u8>) -> bool {
    &&& (lt == 0 || lt == 1)
    &&& lhs - rhs - bytes_le_value(diff) + (if lt == 1 {
        pow2(8 * diff.len()) as int
    } else {
        0
    }) == 0
}

/// Bounds on what `n` range-checked bytes can hold.
proof fn lemma_bytes_le_value_bounds(s: Seq<u8>)
    ensures
        0 <= bytes_le_value(s) < pow2(8 * s.len()),
    decreases s.len(),
{
    vstd::arithmetic::power2::lemma2_to64();
    if s.len() > 0 {
        lemma_bytes_le_value_bounds(s.skip(1));
        let rest = bytes_le_value(s.skip(1));
        vstd::arithmetic::power2::lemma_pow2_adds(8, 8 * (s.len() - 1) as nat);
        assert(8 * s.len() == 8 + 8 * (s.len() - 1));
        assert(256 * rest <= 256 * (pow2(8 * (s.len() - 1) as nat) - 1));
    }
}

/// A gate that holds of in-range operands pins the flag: it is one
/// exactly when `lhs` is below `rhs`.
pub proof fn lemma_lt_gate_sound(lhs: int, rhs: int, lt: int, diff: Seq<u8>)
    requires
        0 <= lhs < pow2(8 * diff.len()),
        0 <= rhs < pow2(8 * diff.len()),
        lt_gate_holds(lhs, rhs, lt, diff),
    ensures
        (lt == 1) <==> (lhs < rhs),
        (lt == 0) <==> (lhs >= rhs),
{
    lemma_bytes_le_value_bounds(diff);
}

/// Compares two operands the way the comparator gadget does: the result
/// carries the outcome flag and the byte decomposition of the offset
/// difference, and `lt_gate_holds` accepts it.
pub fn lt_witness(lhs: u64, rhs: u64) -> (r: (bool, Vec<u8>))
    ensures
        r.1@.len() == LT_N_BYTES,
        r.0 == (lhs < rhs),
        lt_gate_holds(lhs as int, rhs as int, (if r.0 { 1int } else { 0int }), r.1@),
{
    let lt = lhs < rhs;
    let d = lhs.wrapping_sub(rhs);
    let b0 = (d % 256) as u8;
    let d1 = d / 256;
    let b1 = (d1 % 256) as u8;
    let d2 = d1 / 256;
    let b2 = (d2 % 256) as u8;
    let d3 = d2 / 256;
    let b3 = (d3 % 256) as u8;
    let d4 = d3 / 256;
    let b4 = (d4 % 256) as u8;
    let d5 = d4 / 256;
    let b5 = (d5 % 256) as u8;
    let d6 = d5 / 256;
    let b6 = (d6 % 256) as u8;
    let d7 = d6 / 256;
    let b7 = (d7 % 256) as u8;
    let bytes: Vec<u8> = vec![b0, b1, b2, b3, b4, b5, b6, b7];
    proof {
        assert(d7 / 256 == 0);
        lemma_bytes_le_value_unfold_8(bytes@);
        assert(bytes_le_value(bytes@) == d);
        vstd::arithmetic::power2::lemma2_to64_rest();
        assert(8 * bytes@.len() == 64);
    }
    (lt, bytes)
}

/// An eight-byte sequence's value, written as the linear combination of
/// its entries.
proof fn lemma_bytes_le_value_unfold_8(s: Seq<u8>)
    requires
        s.len() == 8,
    ensures
        bytes_le_value(s) == s[0] + s[1] * 0x100 + s[2] * 0x1_0000 + s[3] * 0x100_0000 + s[4]
            * 0x1_0000_0000 + s[5] * 0x100_0000_0000 + s[6] * 0x1_0000_0000_0000 + s[7]
            * 0x100_0000_0000_0000,
{
    reveal_with_fuel(bytes_le_value, 9);
    assert(s.skip(1).skip(1) =~= s.skip(2));
    assert(s.skip(2).skip(1) =~= s.skip(3));
    assert(s.skip(3).skip(1) =~= s.skip(4));
    assert(s.skip(4).skip(1) =~= s.skip(5));
    assert(s.skip(5).skip(1) =~= s.skip(6));
    assert(s.skip(6).skip(1) =~= s.skip(7));
    assert(s.skip(7).skip(1) =~= s.skip(8));
    assert(s.skip(1)[0] == s[1]);
    assert(s.skip(2)[0] == s[2]);
    assert(s.skip(3)[0] == s[3]);
    assert(s.skip(4)[0] == s[4]);
    assert(s.skip(5)[0] == s[5]);
    assert(s.skip(6)[0] == s[6]);
    assert(s.skip(7)[0] == s[7]);
    assert(s.skip(8).len() == 0);
}

} // verus!
