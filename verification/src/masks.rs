//! The mask decomposer: from a shift amount that is not a multiple of 8, the
//! four per-limb mask bytes that zero out the bits a ring rotation wrongly
//! recirculates.  The array is ordered as the emitter consumes the limbs,
//! most-significant limb first: the first `s / 8` entries are `0x00` (limbs
//! wholly displaced past the shift boundary), the next entry is the single
//! partial mask `0xFF >> (s % 8)` for the limb straddling the boundary, and
//! the remaining entries are `0xFF` (limbs kept intact).

use vstd::prelude::*;

verus! {

/// Mask byte number `j` for shift amount `s`, in emission order
/// (`j == 0` masks the most-significant limb).
pub open spec fn shr_mask(s: usize, j: int) -> u8 {
    if j < s as int / 8 {
        0u8
    } else if j == s as int / 8 {
        0xFFu8 >> ((s % 8) as u8)
    } else {
        0xFFu8
    }
}

/// The whole mask array for shift amount `s`.
pub open spec fn mask_seq(s: usize) -> Seq<u8> {
    seq![shr_mask(s, 0), shr_mask(s, 1), shr_mask(s, 2), shr_mask(s, 3)]
}

/// How many bytes of a mask array are zero.
pub open spec fn zero_count(s: Seq<u8>) -> nat
    decreases s.len(),
{
    if s.len() == 0 {
        0
    } else {
        zero_count(s.drop_last()) + if s.last() == 0u8 {
            1nat
        } else {
            0nat
        }
    }
}

/// A partial mask is never zero: shifting `0xFF` right by fewer than 8 bits
/// leaves at least the lowest bit set.
pub proof fn lemma_partial_mask_nonzero(r: u8)
    requires
        r < 8,
    ensures
        0xFFu8 >> r >= 1,
{
    assert(r < 8 ==> 0xFFu8 >> r >= 1) by (bit_vector);
}

/// The mask array of a non-multiple-of-8 shift amount has exactly
/// `s / 8` zero bytes; they come first, followed by the one partial byte.
pub proof fn lemma_mask_zero_count(s: usize)
    requires
        s < 32,
        s % 8 != 0,
    ensures
        zero_count(mask_seq(s)) == s / 8,
{
    let ms = mask_seq(s);
    let off = s as int / 8;
    assert(0 <= off < 4);
    lemma_partial_mask_nonzero((s % 8) as u8);
    assert(ms.drop_last() =~= seq![shr_mask(s, 0), shr_mask(s, 1), shr_mask(s, 2)]);
    assert(ms.drop_last().drop_last() =~= seq![shr_mask(s, 0), shr_mask(s, 1)]);
    assert(ms.drop_last().drop_last().drop_last() =~= seq![shr_mask(s, 0)]);
    assert(seq![shr_mask(s, 0)].drop_last() =~= Seq::<u8>::empty());
    assert(zero_count(Seq::<u8>::empty()) == 0);
    assert(zero_count(seq![shr_mask(s, 0)]) == (if shr_mask(s, 0) == 0u8 { 1int } else { 0int }));
    assert(zero_count(seq![shr_mask(s, 0), shr_mask(s, 1)]) == zero_count(seq![shr_mask(s, 0)])
        + (if shr_mask(s, 1) == 0u8 { 1int } else { 0int }));
    assert(zero_count(seq![shr_mask(s, 0), shr_mask(s, 1), shr_mask(s, 2)]) == zero_count(
        seq![shr_mask(s, 0), shr_mask(s, 1)],
    ) + (if shr_mask(s, 2) == 0u8 { 1int } else { 0int }));
    assert(zero_count(ms) == zero_count(seq![shr_mask(s, 0), shr_mask(s, 1), shr_mask(s, 2)]) + (
    if shr_mask(s, 3) == 0u8 {
        1int
    } else {
        0int
    }));
    assert(forall|j: int| 0 <= j < 4 ==> (shr_mask(s, j) == 0u8 <==> j < off));
}

/// A mask byte is zero exactly for the limbs wholly displaced past the
/// shift boundary: entries before index `s / 8`.
pub proof fn lemma_mask_values(s: usize)
    requires
        s < 32,
        s % 8 != 0,
    ensures
        forall|j: int| 0 <= j < 4 ==> ((shr_mask(s, j) == 0u8) <==> j < s as int / 8),
{
    lemma_partial_mask_nonzero((s % 8) as u8);
}

/// Builds the mask array for a shift amount that is not a multiple of 8.
/// The result is exactly `mask_seq`: `s / 8` zero bytes, then the single
/// partial byte `0xFF >> (s % 8)`, then `0xFF` bytes up to length 4.
pub fn shr_mask_bytes(shr_num: usize) -> (r: Vec<u8>)
    requires
        shr_num < 32,
        shr_num % 8 != 0,
    ensures
        r@ == mask_seq(shr_num),
        r@.len() == 4,
        zero_count(r@) == shr_num / 8,
{
    let off = shr_num / 8;
    let rem = shr_num % 8;
    let mut r: Vec<u8> = Vec::new();
    let mut i: usize = 0;
    while i < off
        invariant
            i <= off,
            off == shr_num / 8,
            shr_num < 32,
            r@.len() == i,
            forall|j: int| 0 <= j < i ==> r@[j] == 0u8,
        decreases off - i,
    {
        r.push(0u8);
        i += 1;
    }
    r.push(0xFFu8 >> (rem as u8));
    while r.len() < 4
        invariant
            off == shr_num / 8,
            rem == shr_num % 8,
            shr_num < 32,
            off + 1 <= r@.len() <= 4,
            forall|j: int| 0 <= j < off ==> r@[j] == 0u8,
            r@[off as int] == 0xFFu8 >> (rem as u8),
            forall|j: int| off < j < r@.len() ==> r@[j] == 0xFFu8,
        decreases 4 - r.len(),
    {
        r.push(0xFFu8);
    }
    proof {
        assert(r@ =~= mask_seq(shr_num));
        lemma_mask_zero_count(shr_num);
    }
    r
}

} // verus!
