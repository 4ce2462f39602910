//! The shift gadget: emitters for the logical right shift of a 32-bit word
//! held as four limbs on the stack, by a constant amount in [0, 31].
//!
//! Shift amounts that are multiples of 8 are pure limb reordering with no
//! masking (the special-case dispatcher).  Every other amount is synthesized
//! as a ring rotation followed by masking, under one of two interchangeable
//! strategies: per-limb AND through the resident table, or one whole-word
//! AND against a precomputed literal mask.  Each emitter's contract states,
//! over the machine semantics, that running the fragment turns the limbs of
//! `v` into the limbs of `v >> s`.

use vstd::prelude::*;

use crate::machine::{
    and32_count, and8_count, exec_ops, lemma_and32_count_concat, lemma_and8_count_concat,
    lemma_exec_concat, lemma_exec_snoc, limbs_of, push_limbs, ror32, step_op, word_of, Fragment,
    MachState, Op,
};
use crate::masks::{lemma_mask_values, mask_seq, shr_mask, shr_mask_bytes, zero_count};

verus! {

/// Largest supported table anchor offset, in 32-bit rows: keeps every
/// emitted table-call offset within 32 bits.
pub const MAX_AP: u32 = 0x3FFF_FFFF;

/// The two interchangeable masking strategies of the general-case emitter.
#[derive(Clone, Copy, Debug, PartialEq, Eq, Structural)]
pub enum MaskStrategy {
    /// Mask each nonzero-mask limb through the 8-bit AND-via-table primitive.
    PerLimbTable,
    /// Push the whole-word literal mask and apply one 32-bit AND primitive.
    WholeWordLiteral,
}

/// A fragment `f` shifts words by `s`: run on any state with the four limbs
/// of `v` on top, it leaves the limbs of `v >> s` there and changes nothing
/// else.  The special-case fragments satisfy this on every stack.
pub open spec fn shifts_word(f: Seq<Op>, s: usize) -> bool {
    forall|st: MachState, v: u32|
        #[trigger] exec_ops(f, push_limbs(st, v)) == push_limbs(st, v >> (s as u32))
}

/// As `shifts_word`, but only on stacks where the AND table anchor sits
/// `ap` 32-bit rows down, counting the four input limbs as the topmost row:
/// exactly `4 * (ap - 2)` bytes lie between the limbs and the anchor.
pub open spec fn shifts_word_with_table(f: Seq<Op>, s: usize, ap: u32) -> bool {
    forall|st: MachState, v: u32|
        st.main.len() == 4 * ((ap as int) - 2) ==> #[trigger] exec_ops(f, push_limbs(st, v))
            == push_limbs(st, v >> (s as u32))
}

/// The fixed structural fragment for a shift by 0, 8, 16 or 24 bits.
pub open spec fn special_ops(s: usize) -> Seq<Op> {
    if s == 0 {
        Seq::<Op>::empty()
    } else if s == 8 {
        seq![Op::Roll(3), Op::DropTop, Op::PushByte(0)]
    } else if s == 16 {
        seq![Op::SwapPairs, Op::DropTwo, Op::PushByte(0), Op::PushByte(0)]
    } else {
        seq![
            Op::ToAltStack,
            Op::DropTwo,
            Op::DropTop,
            Op::FromAltStack,
            Op::PushByte(0),
            Op::PushByte(0),
            Op::PushByte(0),
        ]
    }
}

/// Table offset for the per-limb AND of processing round `j`: the stack
/// holds `4 * ap - 4 - j` bytes above the anchor when round `j` begins, and
/// two more operands when its table call fires.
pub open spec fn and_offset(ap: u32, j: int) -> u32 {
    (4 * (ap as int) - 3 - j) as u32
}

/// Table offset for the whole-word AND: the rotated word and the four
/// pushed mask limbs lie above the anchor when the call fires.
pub open spec fn and32_offset(ap: u32) -> u32 {
    (4 * (ap as int)) as u32
}

/// One processing round of the per-limb strategy: a zero-mask limb is
/// dropped outright; any other limb is ANDed with its mask byte and parked
/// on the auxiliary stack.
pub open spec fn round_ops(m: u8, k: u32) -> Seq<Op> {
    if m == 0 {
        seq![Op::DropTop]
    } else {
        seq![Op::PushByte(m), Op::AndCall(k), Op::ToAltStack]
    }
}

/// The last processing round: its result stays on the main stack (a zero
/// mask becomes a literal zero limb).
pub open spec fn final_round_ops(m: u8, k: u32) -> Seq<Op> {
    if m == 0 {
        seq![Op::DropTop, Op::PushByte(0)]
    } else {
        seq![Op::PushByte(m), Op::AndCall(k)]
    }
}

/// Restoring one limb in ascending order: parked limbs come back from the
/// auxiliary stack, dropped limbs reappear as literal zeros.
pub open spec fn restore_ops(m: u8) -> Seq<Op> {
    if m == 0 {
        seq![Op::PushByte(0)]
    } else {
        seq![Op::FromAltStack]
    }
}

/// The per-limb-table fragment: rotate, process the four limbs from the
/// most significant down, then restore ascending limb order.
pub open spec fn strategy_a_ops(s: usize, ap: u32) -> Seq<Op> {
    seq![Op::RotCall(s as u32)] + round_ops(shr_mask(s, 0), and_offset(ap, 0)) + round_ops(
        shr_mask(s, 1),
        and_offset(ap, 1),
    ) + round_ops(shr_mask(s, 2), and_offset(ap, 2)) + final_round_ops(
        shr_mask(s, 3),
        and_offset(ap, 3),
    ) + restore_ops(shr_mask(s, 2)) + restore_ops(shr_mask(s, 1)) + restore_ops(shr_mask(s, 0))
}

/// The whole-word-literal fragment: rotate, push the four limbs of the
/// literal mask `0xFFFFFFFF >> s`, and apply one 32-bit AND.
pub open spec fn strategy_b_ops(s: usize, ap: u32) -> Seq<Op> {
    let mask = 0xFFFFFFFFu32 >> (s as u32);
    seq![
        Op::RotCall(s as u32),
        Op::PushByte((mask & 0xFF) as u8),
        Op::PushByte(((mask >> 8u32) & 0xFF) as u8),
        Op::PushByte(((mask >> 16u32) & 0xFF) as u8),
        Op::PushByte(((mask >> 24u32) & 0xFF) as u8),
        Op::And32Call(and32_offset(ap)),
    ]
}

/// Everything the shift emitter produces, as one spec-level function of its
/// inputs: generation is deterministic.
pub open spec fn shr_ops(strategy: MaskStrategy, s: usize, ap: u32) -> Seq<Op> {
    if s % 8 == 0 {
        special_ops(s)
    } else {
        match strategy {
            MaskStrategy::PerLimbTable => strategy_a_ops(s, ap),
            MaskStrategy::WholeWordLiteral => strategy_b_ops(s, ap),
        }
    }
}

proof fn lemma_word_roundtrip(v: u32)
    by (bit_vector)
    ensures
        word_of(
            (v & 0xFF) as u8,
            ((v >> 8u32) & 0xFF) as u8,
            ((v >> 16u32) & 0xFF) as u8,
            ((v >> 24u32) & 0xFF) as u8,
        ) == v,
{
}

proof fn lemma_shr0_limbs(v: u32)
    by (bit_vector)
    ensures
        v >> 0u32 == v,
{
}

proof fn lemma_shr8_limbs(v: u32)
    by (bit_vector)
    ensures
        ((v >> 8u32) & 0xFF) as u8 == ((v >> 8u32) & 0xFF) as u8,
        (((v >> 8u32) >> 8u32) & 0xFF) as u8 == ((v >> 16u32) & 0xFF) as u8,
        (((v >> 8u32) >> 16u32) & 0xFF) as u8 == ((v >> 24u32) & 0xFF) as u8,
        (((v >> 8u32) >> 24u32) & 0xFF) as u8 == 0u8,
{
}

proof fn lemma_shr16_limbs(v: u32)
    by (bit_vector)
    ensures
        ((v >> 16u32) & 0xFF) as u8 == ((v >> 16u32) & 0xFF) as u8,
        (((v >> 16u32) >> 8u32) & 0xFF) as u8 == ((v >> 24u32) & 0xFF) as u8,
        (((v >> 16u32) >> 16u32) & 0xFF) as u8 == 0u8,
        (((v >> 16u32) >> 24u32) & 0xFF) as u8 == 0u8,
{
}

proof fn lemma_shr24_limbs(v: u32)
    by (bit_vector)
    ensures
        ((v >> 24u32) & 0xFF) as u8 == ((v >> 24u32) & 0xFF) as u8,
        (((v >> 24u32) >> 8u32) & 0xFF) as u8 == 0u8,
        (((v >> 24u32) >> 16u32) & 0xFF) as u8 == 0u8,
        (((v >> 24u32) >> 24u32) & 0xFF) as u8 == 0u8,
{
}

proof fn lemma_special0_run(st: MachState, v: u32)
    ensures
        exec_ops(special_ops(0), push_limbs(st, v)) == push_limbs(st, v >> 0u32),
{
    lemma_shr0_limbs(v);
    assert(push_limbs(st, v >> 0u32) == push_limbs(st, v));
}

proof fn lemma_special8_run(st: MachState, v: u32)
    ensures
        exec_ops(special_ops(8), push_limbs(st, v)) == push_limbs(st, v >> 8u32),
{
    let st0 = push_limbs(st, v);
    let base = st.main;
    let l0 = (v & 0xFF) as u8;
    let l1 = ((v >> 8u32) & 0xFF) as u8;
    let l2 = ((v >> 16u32) & 0xFF) as u8;
    let l3 = ((v >> 24u32) & 0xFF) as u8;
    let f0 = Seq::<Op>::empty();
    let f1 = f0.push(Op::Roll(3));
    let f2 = f1.push(Op::DropTop);
    let f3 = f2.push(Op::PushByte(0));
    assert(special_ops(8) =~= f3);
    lemma_exec_snoc(f2, Op::PushByte(0), st0);
    lemma_exec_snoc(f1, Op::DropTop, st0);
    lemma_exec_snoc(f0, Op::Roll(3), st0);
    assert(st0.main =~= base + seq![l0, l1, l2, l3]);
    let s1 = step_op(st0, Op::Roll(3));
    assert(st0.main.subrange(0, base.len() as int) =~= base);
    assert(s1.main =~= base + seq![l1, l2, l3, l0]);
    let s2 = step_op(s1, Op::DropTop);
    assert(s2.main =~= base + seq![l1, l2, l3]);
    let s3 = step_op(s2, Op::PushByte(0));
    lemma_shr8_limbs(v);
    assert(s3.main =~= base + limbs_of(v >> 8u32));
    assert(exec_ops(f3, st0) == s3);
    assert(s3 == push_limbs(st, v >> 8u32));
}

proof fn lemma_special16_run(st: MachState, v: u32)
    ensures
        exec_ops(special_ops(16), push_limbs(st, v)) == push_limbs(st, v >> 16u32),
{
    let st0 = push_limbs(st, v);
    let base = st.main;
    let l0 = (v & 0xFF) as u8;
    let l1 = ((v >> 8u32) & 0xFF) as u8;
    let l2 = ((v >> 16u32) & 0xFF) as u8;
    let l3 = ((v >> 24u32) & 0xFF) as u8;
    let f0 = Seq::<Op>::empty();
    let f1 = f0.push(Op::SwapPairs);
    let f2 = f1.push(Op::DropTwo);
    let f3 = f2.push(Op::PushByte(0));
    let f4 = f3.push(Op::PushByte(0));
    assert(special_ops(16) =~= f4);
    lemma_exec_snoc(f3, Op::PushByte(0), st0);
    lemma_exec_snoc(f2, Op::PushByte(0), st0);
    lemma_exec_snoc(f1, Op::DropTwo, st0);
    lemma_exec_snoc(f0, Op::SwapPairs, st0);
    assert(st0.main =~= base + seq![l0, l1, l2, l3]);
    let s1 = step_op(st0, Op::SwapPairs);
    assert(st0.main.subrange(0, base.len() as int) =~= base);
    assert(s1.main =~= base + seq![l2, l3, l0, l1]);
    let s2 = step_op(s1, Op::DropTwo);
    assert(s2.main =~= base + seq![l2, l3]);
    let s3 = step_op(s2, Op::PushByte(0));
    let s4 = step_op(s3, Op::PushByte(0));
    lemma_shr16_limbs(v);
    assert(s4.main =~= base + limbs_of(v >> 16u32));
    assert(exec_ops(f4, st0) == s4);
    assert(s4 == push_limbs(st, v >> 16u32));
}

#[verifier::rlimit(50)]
proof fn lemma_special24_run(st: MachState, v: u32)
    ensures
        exec_ops(special_ops(24), push_limbs(st, v)) == push_limbs(st, v >> 24u32),
{
    let st0 = push_limbs(st, v);
    let base = st.main;
    let alt0 = st.alt;
    let l0 = (v & 0xFF) as u8;
    let l1 = ((v >> 8u32) & 0xFF) as u8;
    let l2 = ((v >> 16u32) & 0xFF) as u8;
    let l3 = ((v >> 24u32) & 0xFF) as u8;
    let f0 = Seq::<Op>::empty();
    let f1 = f0.push(Op::ToAltStack);
    let f2 = f1.push(Op::DropTwo);
    let f3 = f2.push(Op::DropTop);
    let f4 = f3.push(Op::FromAltStack);
    let f5 = f4.push(Op::PushByte(0));
    let f6 = f5.push(Op::PushByte(0));
    let f7 = f6.push(Op::PushByte(0));
    assert(special_ops(24) =~= f7);
    lemma_exec_snoc(f6, Op::PushByte(0), st0);
    lemma_exec_snoc(f5, Op::PushByte(0), st0);
    lemma_exec_snoc(f4, Op::PushByte(0), st0);
    lemma_exec_snoc(f3, Op::FromAltStack, st0);
    lemma_exec_snoc(f2, Op::DropTop, st0);
    lemma_exec_snoc(f1, Op::DropTwo, st0);
    lemma_exec_snoc(f0, Op::ToAltStack, st0);
    assert(st0.main =~= base + seq![l0, l1, l2, l3]);
    let s1 = step_op(st0, Op::ToAltStack);
    assert(s1.main =~= base + seq![l0, l1, l2]);
    assert(s1.alt == alt0.push(l3));
    let s2 = step_op(s1, Op::DropTwo);
    assert(s2.main =~= base + seq![l0]);
    let s3 = step_op(s2, Op::DropTop);
    assert(s3.main =~= base);
    let s4 = step_op(s3, Op::FromAltStack);
    assert(s4.main =~= base + seq![l3]);
    assert(s4.alt =~= alt0);
    let s5 = step_op(s4, Op::PushByte(0));
    let s6 = step_op(s5, Op::PushByte(0));
    let s7 = step_op(s6, Op::PushByte(0));
    lemma_shr24_limbs(v);
    assert(s7.main =~= base + limbs_of(v >> 24u32));
    assert(exec_ops(f7, st0) == s7);
    assert(s7 == push_limbs(st, v >> 24u32));
}

proof fn lemma_count_special(s: usize)
    requires
        s == 0 || s == 8 || s == 16 || s == 24,
    ensures
        and8_count(special_ops(s)) == 0,
        and32_count(special_ops(s)) == 0,
{
    let f = special_ops(s);
    assert(forall|j: int| 0 <= j < f.len() ==> !(f[j] is AndCall) && !(f[j] is And32Call));
    lemma_count_no_table(f);
}

/// A fragment without table-call operations has zero table-call counts.
proof fn lemma_count_no_table(f: Seq<Op>)
    requires
        forall|j: int| 0 <= j < f.len() ==> !(f[j] is AndCall) && !(f[j] is And32Call),
    ensures
        and8_count(f) == 0,
        and32_count(f) == 0,
    decreases f.len(),
{
    if f.len() > 0 {
        lemma_count_no_table(f.drop_last());
    }
}

/// The fixed fragments for shift amounts that are multiples of 8 need no
/// masking: they shift any word on any stack, with no table access at all.
pub proof fn lemma_special_shifts(s: usize)
    requires
        s == 0 || s == 8 || s == 16 || s == 24,
    ensures
        shifts_word(special_ops(s), s),
        and8_count(special_ops(s)) == 0,
        and32_count(special_ops(s)) == 0,
{
    assert forall|st: MachState, v: u32|
        #[trigger] exec_ops(special_ops(s), push_limbs(st, v)) == push_limbs(
            st,
            v >> (s as u32),
        ) by {
        if s == 0 {
            lemma_special0_run(st, v);
        } else if s == 8 {
            lemma_special8_run(st, v);
        } else if s == 16 {
            lemma_special16_run(st, v);
        } else {
            lemma_special24_run(st, v);
        }
    }
    lemma_count_special(s);
}

proof fn lemma_round(rest: Seq<u8>, a: u8, m: u8, k: u32, alt: Seq<u8>)
    requires
        k as int == rest.len() + 2,
    ensures
        exec_ops(round_ops(m, k), MachState { main: rest.push(a), alt }) == (MachState {
            main: rest,
            alt: if m == 0 {
                alt
            } else {
                alt.push(a & m)
            },
        }),
{
    let st0 = MachState { main: rest.push(a), alt };
    if m == 0 {
        let f1 = Seq::<Op>::empty().push(Op::DropTop);
        assert(round_ops(m, k) =~= f1);
        lemma_exec_snoc(Seq::<Op>::empty(), Op::DropTop, st0);
        assert(rest.push(a).drop_last() =~= rest);
    } else {
        let f1 = Seq::<Op>::empty().push(Op::PushByte(m));
        let f2 = f1.push(Op::AndCall(k));
        let f3 = f2.push(Op::ToAltStack);
        assert(round_ops(m, k) =~= f3);
        lemma_exec_snoc(f2, Op::ToAltStack, st0);
        lemma_exec_snoc(f1, Op::AndCall(k), st0);
        lemma_exec_snoc(Seq::<Op>::empty(), Op::PushByte(m), st0);
        let s1 = step_op(st0, Op::PushByte(m));
        assert(s1.main == rest.push(a).push(m));
        assert(s1.main.len() == rest.len() + 2);
        assert(s1.main.subrange(0, rest.len() as int) =~= rest);
        let s2 = step_op(s1, Op::AndCall(k));
        assert(s2.main =~= rest.push(a & m));
        let s3 = step_op(s2, Op::ToAltStack);
        assert(s3.main =~= rest);
        assert(s3.alt == alt.push(a & m));
        assert(exec_ops(f3, st0) == s3);
    }
}

proof fn lemma_final_round(rest: Seq<u8>, a: u8, m: u8, k: u32, alt: Seq<u8>)
    requires
        k as int == rest.len() + 2,
    ensures
        exec_ops(final_round_ops(m, k), MachState { main: rest.push(a), alt }) == (MachState {
            main: rest.push(
                if m == 0 {
                    0u8
                } else {
                    a & m
                },
            ),
            alt,
        }),
{
    let st0 = MachState { main: rest.push(a), alt };
    if m == 0 {
        let f1 = Seq::<Op>::empty().push(Op::DropTop);
        let f2 = f1.push(Op::PushByte(0));
        assert(final_round_ops(m, k) =~= f2);
        lemma_exec_snoc(f1, Op::PushByte(0), st0);
        lemma_exec_snoc(Seq::<Op>::empty(), Op::DropTop, st0);
        let s1 = step_op(st0, Op::DropTop);
        assert(s1.main =~= rest);
        let s2 = step_op(s1, Op::PushByte(0));
        assert(exec_ops(f2, st0) == s2);
    } else {
        let f1 = Seq::<Op>::empty().push(Op::PushByte(m));
        let f2 = f1.push(Op::AndCall(k));
        assert(final_round_ops(m, k) =~= f2);
        lemma_exec_snoc(f1, Op::AndCall(k), st0);
        lemma_exec_snoc(Seq::<Op>::empty(), Op::PushByte(m), st0);
        let s1 = step_op(st0, Op::PushByte(m));
        assert(s1.main == rest.push(a).push(m));
        assert(s1.main.len() == rest.len() + 2);
        assert(s1.main.subrange(0, rest.len() as int) =~= rest);
        let s2 = step_op(s1, Op::AndCall(k));
        assert(s2.main =~= rest.push(a & m));
        assert(exec_ops(f2, st0) == s2);
    }
}

proof fn lemma_restore(mn: Seq<u8>, alt: Seq<u8>, m: u8)
    requires
        m != 0 ==> alt.len() >= 1,
    ensures
        exec_ops(restore_ops(m), MachState { main: mn, alt }) == (MachState {
            main: mn.push(
                if m == 0 {
                    0u8
                } else {
                    alt.last()
                },
            ),
            alt: if m == 0 {
                alt
            } else {
                alt.drop_last()
            },
        }),
{
    let st0 = MachState { main: mn, alt };
    if m == 0 {
        assert(restore_ops(m) =~= Seq::<Op>::empty().push(Op::PushByte(0)));
        lemma_exec_snoc(Seq::<Op>::empty(), Op::PushByte(0), st0);
    } else {
        assert(restore_ops(m) =~= Seq::<Op>::empty().push(Op::FromAltStack));
        lemma_exec_snoc(Seq::<Op>::empty(), Op::FromAltStack, st0);
    }
}

proof fn lemma_mask_apply_off0(v: u32, s: u32)
    by (bit_vector)
    requires
        0 < s < 8,
    ensures
        ((ror32(v, s) & 0xFF) as u8) & 0xFFu8 == ((v >> s) & 0xFF) as u8,
        (((ror32(v, s) >> 8u32) & 0xFF) as u8) & 0xFFu8 == (((v >> s) >> 8u32) & 0xFF) as u8,
        (((ror32(v, s) >> 16u32) & 0xFF) as u8) & 0xFFu8 == (((v >> s) >> 16u32) & 0xFF) as u8,
        (((ror32(v, s) >> 24u32) & 0xFF) as u8) & (0xFFu8 >> ((s % 8) as u8)) == (((v >> s)
            >> 24u32) & 0xFF) as u8,
{
}

proof fn lemma_mask_apply_off1(v: u32, s: u32)
    by (bit_vector)
    requires
        8 < s < 16,
    ensures
        ((ror32(v, s) & 0xFF) as u8) & 0xFFu8 == ((v >> s) & 0xFF) as u8,
        (((ror32(v, s) >> 8u32) & 0xFF) as u8) & 0xFFu8 == (((v >> s) >> 8u32) & 0xFF) as u8,
        (((ror32(v, s) >> 16u32) & 0xFF) as u8) & (0xFFu8 >> ((s % 8) as u8)) == (((v >> s)
            >> 16u32) & 0xFF) as u8,
        (((v >> s) >> 24u32) & 0xFF) as u8 == 0u8,
{
}

proof fn lemma_mask_apply_off2(v: u32, s: u32)
    by (bit_vector)
    requires
        16 < s < 24,
    ensures
        ((ror32(v, s) & 0xFF) as u8) & 0xFFu8 == ((v >> s) & 0xFF) as u8,
        (((ror32(v, s) >> 8u32) & 0xFF) as u8) & (0xFFu8 >> ((s % 8) as u8)) == (((v >> s)
            >> 8u32) & 0xFF) as u8,
        (((v >> s) >> 16u32) & 0xFF) as u8 == 0u8,
        (((v >> s) >> 24u32) & 0xFF) as u8 == 0u8,
{
}

proof fn lemma_mask_apply_off3(v: u32, s: u32)
    by (bit_vector)
    requires
        24 < s < 32,
    ensures
        ((ror32(v, s) & 0xFF) as u8) & (0xFFu8 >> ((s % 8) as u8)) == ((v >> s) & 0xFF) as u8,
        (((v >> s) >> 8u32) & 0xFF) as u8 == 0u8,
        (((v >> s) >> 16u32) & 0xFF) as u8 == 0u8,
        (((v >> s) >> 24u32) & 0xFF) as u8 == 0u8,
{
}

/// Applying the decomposed mask bytes limb by limb to the rotated word
/// yields exactly the limbs of the shifted word; limbs under a zero mask
/// are zero in the result.
proof fn lemma_mask_apply(v: u32, s: usize)
    requires
        s < 32,
        s % 8 != 0,
    ensures
        ({
            let r = ror32(v, s as u32);
            let w = v >> (s as u32);
            &&& (if shr_mask(s, 3) == 0 {
                0u8
            } else {
                ((r & 0xFF) as u8) & shr_mask(s, 3)
            }) == (w & 0xFF) as u8
            &&& (if shr_mask(s, 2) == 0 {
                0u8
            } else {
                (((r >> 8u32) & 0xFF) as u8) & shr_mask(s, 2)
            }) == ((w >> 8u32) & 0xFF) as u8
            &&& (if shr_mask(s, 1) == 0 {
                0u8
            } else {
                (((r >> 16u32) & 0xFF) as u8) & shr_mask(s, 1)
            }) == ((w >> 16u32) & 0xFF) as u8
            &&& (if shr_mask(s, 0) == 0 {
                0u8
            } else {
                (((r >> 24u32) & 0xFF) as u8) & shr_mask(s, 0)
            }) == ((w >> 24u32) & 0xFF) as u8
        }),
{
    let s32 = s as u32;
    let off = s as int / 8;
    lemma_mask_values(s);
    assert((s % 8) as u8 == (s32 % 8) as u8);
    if s < 8 {
        assert(off == 0);
        lemma_mask_apply_off0(v, s32);
    } else if s < 16 {
        assert(off == 1);
        lemma_mask_apply_off1(v, s32);
    } else if s < 24 {
        assert(off == 2);
        lemma_mask_apply_off2(v, s32);
    } else {
        assert(off == 3);
        lemma_mask_apply_off3(v, s32);
    }
}

#[verifier::rlimit(100)]
proof fn lemma_strategy_a_run(s: usize, ap: u32, st: MachState, v: u32)
    requires
        s < 32,
        s % 8 != 0,
        2 <= ap <= MAX_AP,
        st.main.len() == 4 * ((ap as int) - 2),
    ensures
        exec_ops(strategy_a_ops(s, ap), push_limbs(st, v)) == push_limbs(st, v >> (s as u32)),
{
    let s32 = s as u32;
    let pre = st.main;
    let alt0 = st.alt;
    let st0 = push_limbs(st, v);
    let r = ror32(v, s32);
    let r0 = (r & 0xFF) as u8;
    let r1 = ((r >> 8u32) & 0xFF) as u8;
    let r2 = ((r >> 16u32) & 0xFF) as u8;
    let r3 = ((r >> 24u32) & 0xFF) as u8;
    let c0 = shr_mask(s, 0);
    let c1 = shr_mask(s, 1);
    let c2 = shr_mask(s, 2);
    let c3 = shr_mask(s, 3);
    let k0 = and_offset(ap, 0);
    let k1 = and_offset(ap, 1);
    let k2 = and_offset(ap, 2);
    let k3 = and_offset(ap, 3);
    assert(k0 as int == 4 * (ap as int) - 3);
    assert(k1 as int == 4 * (ap as int) - 4);
    assert(k2 as int == 4 * (ap as int) - 5);
    assert(k3 as int == 4 * (ap as int) - 6);
    let frot = seq![Op::RotCall(s32)];
    let g0 = round_ops(c0, k0);
    let g1 = round_ops(c1, k1);
    let g2 = round_ops(c2, k2);
    let gf = final_round_ops(c3, k3);
    let h1 = restore_ops(c2);
    let h2 = restore_ops(c1);
    let h3 = restore_ops(c0);
    assert(strategy_a_ops(s, ap) == frot + g0 + g1 + g2 + gf + h1 + h2 + h3);
    // The rotation call.
    assert(frot =~= Seq::<Op>::empty().push(Op::RotCall(s32)));
    lemma_exec_snoc(Seq::<Op>::empty(), Op::RotCall(s32), st0);
    assert(st0.main =~= pre + limbs_of(v));
    assert(st0.main.len() == pre.len() + 4);
    assert(st0.main.subrange(0, pre.len() as int) =~= pre);
    assert(st0.main[pre.len() as int] == (v & 0xFF) as u8);
    assert(st0.main[pre.len() as int + 1] == ((v >> 8u32) & 0xFF) as u8);
    assert(st0.main[pre.len() as int + 2] == ((v >> 16u32) & 0xFF) as u8);
    assert(st0.main[pre.len() as int + 3] == ((v >> 24u32) & 0xFF) as u8);
    lemma_word_roundtrip(v);
    let srot = step_op(st0, Op::RotCall(s32));
    assert(srot.main =~= pre + seq![r0, r1, r2, r3]);
    assert(exec_ops(frot, st0) == srot);
    // Process the limbs, most significant first.
    let rest3 = pre + seq![r0, r1, r2];
    let rest2 = pre + seq![r0, r1];
    let rest1 = pre + seq![r0];
    assert(rest3.push(r3) =~= srot.main);
    lemma_round(rest3, r3, c0, k0, alt0);
    let alt1 = if c0 == 0 { alt0 } else { alt0.push(r3 & c0) };
    let a1 = MachState { main: rest3, alt: alt1 };
    let q1 = frot + g0;
    lemma_exec_concat(frot, g0, st0);
    assert(exec_ops(q1, st0) == a1);
    assert(rest2.push(r2) =~= rest3);
    lemma_round(rest2, r2, c1, k1, alt1);
    let alt2 = if c1 == 0 { alt1 } else { alt1.push(r2 & c1) };
    let a2 = MachState { main: rest2, alt: alt2 };
    let q2 = q1 + g1;
    lemma_exec_concat(q1, g1, st0);
    assert(exec_ops(q2, st0) == a2);
    assert(rest1.push(r1) =~= rest2);
    lemma_round(rest1, r1, c2, k2, alt2);
    let alt3 = if c2 == 0 { alt2 } else { alt2.push(r1 & c2) };
    let a3 = MachState { main: rest1, alt: alt3 };
    let q3 = q2 + g2;
    lemma_exec_concat(q2, g2, st0);
    assert(exec_ops(q3, st0) == a3);
    assert(pre.push(r0) =~= rest1);
    lemma_final_round(pre, r0, c3, k3, alt3);
    let w0 = if c3 == 0 { 0u8 } else { r0 & c3 };
    let a4 = MachState { main: pre.push(w0), alt: alt3 };
    let q4 = q3 + gf;
    lemma_exec_concat(q3, gf, st0);
    assert(exec_ops(q4, st0) == a4);
    // Restore ascending limb order.
    lemma_restore(pre.push(w0), alt3, c2);
    let w1 = if c2 == 0 { 0u8 } else { r1 & c2 };
    if c2 != 0 {
        assert(alt3.last() == r1 & c2);
        assert(alt3.drop_last() =~= alt2);
    }
    let a5 = MachState { main: pre.push(w0).push(w1), alt: alt2 };
    let q5 = q4 + h1;
    lemma_exec_concat(q4, h1, st0);
    assert(exec_ops(q5, st0) == a5);
    lemma_restore(pre.push(w0).push(w1), alt2, c1);
    let w2 = if c1 == 0 { 0u8 } else { r2 & c1 };
    if c1 != 0 {
        assert(alt2.last() == r2 & c1);
        assert(alt2.drop_last() =~= alt1);
    }
    let a6 = MachState { main: pre.push(w0).push(w1).push(w2), alt: alt1 };
    let q6 = q5 + h2;
    lemma_exec_concat(q5, h2, st0);
    assert(exec_ops(q6, st0) == a6);
    lemma_restore(pre.push(w0).push(w1).push(w2), alt1, c0);
    let w3 = if c0 == 0 { 0u8 } else { r3 & c0 };
    if c0 != 0 {
        assert(alt1.last() == r3 & c0);
        assert(alt1.drop_last() =~= alt0);
    }
    let a7 = MachState { main: pre.push(w0).push(w1).push(w2).push(w3), alt: alt0 };
    let q7 = q6 + h3;
    lemma_exec_concat(q6, h3, st0);
    assert(exec_ops(q7, st0) == a7);
    // The four produced limbs are the limbs of the shifted word.
    lemma_mask_apply(v, s);
    assert(a7.main =~= pre + limbs_of(v >> s32));
    assert(a7 == push_limbs(st, v >> s32));
}

proof fn lemma_and32_mask(v: u32, s: u32)
    by (bit_vector)
    requires
        s < 32,
    ensures
        ((ror32(v, s) & 0xFF) as u8) & (((0xFFFFFFFFu32 >> s) & 0xFF) as u8) == ((v >> s)
            & 0xFF) as u8,
        (((ror32(v, s) >> 8u32) & 0xFF) as u8) & ((((0xFFFFFFFFu32 >> s) >> 8u32) & 0xFF) as u8)
            == (((v >> s) >> 8u32) & 0xFF) as u8,
        (((ror32(v, s) >> 16u32) & 0xFF) as u8) & ((((0xFFFFFFFFu32 >> s) >> 16u32) & 0xFF) as u8)
            == (((v >> s) >> 16u32) & 0xFF) as u8,
        (((ror32(v, s) >> 24u32) & 0xFF) as u8) & ((((0xFFFFFFFFu32 >> s) >> 24u32) & 0xFF) as u8)
            == (((v >> s) >> 24u32) & 0xFF) as u8,
{
}

#[verifier::rlimit(60)]
proof fn lemma_strategy_b_run(s: usize, ap: u32, st: MachState, v: u32)
    requires
        s < 32,
        s % 8 != 0,
        2 <= ap <= MAX_AP,
        st.main.len() == 4 * ((ap as int) - 2),
    ensures
        exec_ops(strategy_b_ops(s, ap), push_limbs(st, v)) == push_limbs(st, v >> (s as u32)),
{
    let s32 = s as u32;
    let pre = st.main;
    let st0 = push_limbs(st, v);
    let r = ror32(v, s32);
    let r0 = (r & 0xFF) as u8;
    let r1 = ((r >> 8u32) & 0xFF) as u8;
    let r2 = ((r >> 16u32) & 0xFF) as u8;
    let r3 = ((r >> 24u32) & 0xFF) as u8;
    let mask = 0xFFFFFFFFu32 >> s32;
    let m0 = (mask & 0xFF) as u8;
    let m1 = ((mask >> 8u32) & 0xFF) as u8;
    let m2 = ((mask >> 16u32) & 0xFF) as u8;
    let m3 = ((mask >> 24u32) & 0xFF) as u8;
    let kk = and32_offset(ap);
    assert(kk as int == 4 * (ap as int));
    let f0 = Seq::<Op>::empty();
    let f1 = f0.push(Op::RotCall(s32));
    let f2 = f1.push(Op::PushByte(m0));
    let f3 = f2.push(Op::PushByte(m1));
    let f4 = f3.push(Op::PushByte(m2));
    let f5 = f4.push(Op::PushByte(m3));
    let f6 = f5.push(Op::And32Call(kk));
    assert(strategy_b_ops(s, ap) =~= f6);
    lemma_exec_snoc(f5, Op::And32Call(kk), st0);
    lemma_exec_snoc(f4, Op::PushByte(m3), st0);
    lemma_exec_snoc(f3, Op::PushByte(m2), st0);
    lemma_exec_snoc(f2, Op::PushByte(m1), st0);
    lemma_exec_snoc(f1, Op::PushByte(m0), st0);
    lemma_exec_snoc(f0, Op::RotCall(s32), st0);
    assert(st0.main =~= pre + limbs_of(v));
    assert(st0.main.len() == pre.len() + 4);
    assert(st0.main.subrange(0, pre.len() as int) =~= pre);
    assert(st0.main[pre.len() as int] == (v & 0xFF) as u8);
    assert(st0.main[pre.len() as int + 1] == ((v >> 8u32) & 0xFF) as u8);
    assert(st0.main[pre.len() as int + 2] == ((v >> 16u32) & 0xFF) as u8);
    assert(st0.main[pre.len() as int + 3] == ((v >> 24u32) & 0xFF) as u8);
    lemma_word_roundtrip(v);
    let s1 = step_op(st0, Op::RotCall(s32));
    assert(s1.main =~= pre + seq![r0, r1, r2, r3]);
    let s2 = step_op(s1, Op::PushByte(m0));
    let s3 = step_op(s2, Op::PushByte(m1));
    let s4 = step_op(s3, Op::PushByte(m2));
    let s5 = step_op(s4, Op::PushByte(m3));
    assert(s5.main =~= pre + seq![r0, r1, r2, r3, m0, m1, m2, m3]);
    let s6 = step_op(s5, Op::And32Call(kk));
    assert(s5.main.len() == pre.len() + 8);
    assert(s5.main.subrange(0, pre.len() as int) =~= pre);
    assert(s6.main =~= pre + seq![r0 & m0, r1 & m1, r2 & m2, r3 & m3]);
    lemma_and32_mask(v, s32);
    assert(s6.main =~= pre + limbs_of(v >> s32));
    assert(exec_ops(f6, st0) == s6);
    assert(s6 == push_limbs(st, v >> s32));
}

proof fn lemma_round_counts(m: u8, k: u32)
    ensures
        and8_count(round_ops(m, k)) == (if m == 0 { 0int } else { 1int }),
        and32_count(round_ops(m, k)) == 0,
        and8_count(final_round_ops(m, k)) == (if m == 0 { 0int } else { 1int }),
        and32_count(final_round_ops(m, k)) == 0,
        and8_count(restore_ops(m)) == 0,
        and32_count(restore_ops(m)) == 0,
{
    if m == 0 {
        assert(seq![Op::DropTop].drop_last() =~= Seq::<Op>::empty());
        assert(seq![Op::DropTop, Op::PushByte(0)].drop_last() =~= seq![Op::DropTop]);
        assert(seq![Op::PushByte(0)].drop_last() =~= Seq::<Op>::empty());
        assert(and8_count(Seq::<Op>::empty()) == 0);
        assert(and32_count(Seq::<Op>::empty()) == 0);
        assert(and8_count(seq![Op::DropTop]) == 0);
        assert(and32_count(seq![Op::DropTop]) == 0);
    } else {
        let p1 = seq![Op::PushByte(m)];
        let p2 = seq![Op::PushByte(m), Op::AndCall(k)];
        let p3 = seq![Op::PushByte(m), Op::AndCall(k), Op::ToAltStack];
        assert(p1.drop_last() =~= Seq::<Op>::empty());
        assert(p2.drop_last() =~= p1);
        assert(p3.drop_last() =~= p2);
        assert(seq![Op::FromAltStack].drop_last() =~= Seq::<Op>::empty());
        assert(and8_count(Seq::<Op>::empty()) == 0);
        assert(and32_count(Seq::<Op>::empty()) == 0);
        assert(and8_count(p1) == 0);
        assert(and8_count(p2) == 1);
        assert(and32_count(p1) == 0);
        assert(and32_count(p2) == 0);
    }
}

/// The per-limb strategy shifts words (on stacks whose table anchor matches
/// `ap`) and makes exactly one 8-bit table call per nonzero mask byte —
/// `4 - s / 8` calls — and no 32-bit table call.
pub proof fn lemma_strategy_a_shifts(s: usize, ap: u32)
    requires
        s < 32,
        s % 8 != 0,
        2 <= ap <= MAX_AP,
    ensures
        shifts_word_with_table(strategy_a_ops(s, ap), s, ap),
        and8_count(strategy_a_ops(s, ap)) == 4 - s / 8,
        and32_count(strategy_a_ops(s, ap)) == 0,
{
    assert forall|st: MachState, v: u32|
        st.main.len() == 4 * ((ap as int) - 2) implies #[trigger] exec_ops(
        strategy_a_ops(s, ap),
        push_limbs(st, v),
    ) == push_limbs(st, v >> (s as u32)) by {
        lemma_strategy_a_run(s, ap, st, v);
    }
    let c0 = shr_mask(s, 0);
    let c1 = shr_mask(s, 1);
    let c2 = shr_mask(s, 2);
    let c3 = shr_mask(s, 3);
    let frot = seq![Op::RotCall(s as u32)];
    let g0 = round_ops(c0, and_offset(ap, 0));
    let g1 = round_ops(c1, and_offset(ap, 1));
    let g2 = round_ops(c2, and_offset(ap, 2));
    let gf = final_round_ops(c3, and_offset(ap, 3));
    let h1 = restore_ops(c2);
    let h2 = restore_ops(c1);
    let h3 = restore_ops(c0);
    assert(strategy_a_ops(s, ap) == frot + g0 + g1 + g2 + gf + h1 + h2 + h3);
    assert(frot.drop_last() =~= Seq::<Op>::empty());
    assert(and8_count(Seq::<Op>::empty()) == 0);
    assert(and32_count(Seq::<Op>::empty()) == 0);
    assert(and8_count(frot) == 0);
    assert(and32_count(frot) == 0);
    lemma_round_counts(c0, and_offset(ap, 0));
    lemma_round_counts(c1, and_offset(ap, 1));
    lemma_round_counts(c2, and_offset(ap, 2));
    lemma_round_counts(c3, and_offset(ap, 3));
    lemma_and8_count_concat(frot, g0);
    lemma_and8_count_concat(frot + g0, g1);
    lemma_and8_count_concat(frot + g0 + g1, g2);
    lemma_and8_count_concat(frot + g0 + g1 + g2, gf);
    lemma_and8_count_concat(frot + g0 + g1 + g2 + gf, h1);
    lemma_and8_count_concat(frot + g0 + g1 + g2 + gf + h1, h2);
    lemma_and8_count_concat(frot + g0 + g1 + g2 + gf + h1 + h2, h3);
    lemma_and32_count_concat(frot, g0);
    lemma_and32_count_concat(frot + g0, g1);
    lemma_and32_count_concat(frot + g0 + g1, g2);
    lemma_and32_count_concat(frot + g0 + g1 + g2, gf);
    lemma_and32_count_concat(frot + g0 + g1 + g2 + gf, h1);
    lemma_and32_count_concat(frot + g0 + g1 + g2 + gf + h1, h2);
    lemma_and32_count_concat(frot + g0 + g1 + g2 + gf + h1 + h2, h3);
    lemma_mask_values(s);
    assert(0 <= s as int / 8 < 4);
}

/// The whole-word strategy shifts words under the same contract and makes
/// exactly one 32-bit table call and no 8-bit table call.
pub proof fn lemma_strategy_b_shifts(s: usize, ap: u32)
    requires
        s < 32,
        s % 8 != 0,
        2 <= ap <= MAX_AP,
    ensures
        shifts_word_with_table(strategy_b_ops(s, ap), s, ap),
        and8_count(strategy_b_ops(s, ap)) == 0,
        and32_count(strategy_b_ops(s, ap)) == 1,
{
    assert forall|st: MachState, v: u32|
        st.main.len() == 4 * ((ap as int) - 2) implies #[trigger] exec_ops(
        strategy_b_ops(s, ap),
        push_limbs(st, v),
    ) == push_limbs(st, v >> (s as u32)) by {
        lemma_strategy_b_run(s, ap, st, v);
    }
    let f = strategy_b_ops(s, ap);
    let p5 = f.drop_last();
    let p4 = p5.drop_last();
    let p3 = p4.drop_last();
    let p2 = p3.drop_last();
    let p1 = p2.drop_last();
    assert(p1.drop_last() =~= Seq::<Op>::empty());
    assert(and8_count(Seq::<Op>::empty()) == 0);
    assert(and32_count(Seq::<Op>::empty()) == 0);
    assert(and8_count(p1) == 0 && and32_count(p1) == 0);
    assert(and8_count(p2) == 0 && and32_count(p2) == 0);
    assert(and8_count(p3) == 0 && and32_count(p3) == 0);
    assert(and8_count(p4) == 0 && and32_count(p4) == 0);
    assert(and8_count(p5) == 0 && and32_count(p5) == 0);
    assert(and8_count(f) == 0 && and32_count(f) == 1);
}

/// Composition law: on a well-anchored stack, shifting by `k1` and then by
/// `k2` ends in the same state as shifting once by `k1 + k2`, whenever
/// `k1 + k2 < 32`.
pub proof fn lemma_shift_composition(
    f1: Seq<Op>,
    f2: Seq<Op>,
    g: Seq<Op>,
    k1: usize,
    k2: usize,
    ap: u32,
    st: MachState,
    v: u32,
)
    requires
        k1 + k2 < 32,
        shifts_word_with_table(f1, k1, ap),
        shifts_word_with_table(f2, k2, ap),
        shifts_word_with_table(g, (k1 + k2) as usize, ap),
        st.main.len() == 4 * ((ap as int) - 2),
    ensures
        exec_ops(f2, exec_ops(f1, push_limbs(st, v))) == exec_ops(g, push_limbs(st, v)),
{
    assert(exec_ops(f1, push_limbs(st, v)) == push_limbs(st, v >> (k1 as u32)));
    assert(exec_ops(f2, push_limbs(st, v >> (k1 as u32))) == push_limbs(
        st,
        (v >> (k1 as u32)) >> (k2 as u32),
    ));
    assert(((k1 + k2) as usize) as u32 == (k1 + k2) as u32);
    assert(exec_ops(g, push_limbs(st, v)) == push_limbs(st, v >> ((k1 + k2) as u32)));
    assert((v >> (k1 as u32)) >> (k2 as u32) == v >> ((k1 + k2) as u32)) by (bit_vector)
        requires
            k1 + k2 < 32,
    ;
}

/// A shift by zero is the identity: its fragment is empty, and running it
/// leaves the input limbs — and everything else — exactly as they were.
pub proof fn lemma_shift_zero_identity(st: MachState, v: u32)
    ensures
        special_ops(0) == Seq::<Op>::empty(),
        exec_ops(special_ops(0), push_limbs(st, v)) == push_limbs(st, v),
{
}

/// Under the per-limb strategy, the number of 8-bit table calls and the
/// number of zero bytes in the mask array always add up to four: exactly
/// one call per nonzero mask byte.
pub proof fn lemma_one_call_per_nonzero_mask(s: usize, ap: u32)
    requires
        s < 32,
        s % 8 != 0,
        2 <= ap <= MAX_AP,
    ensures
        and8_count(strategy_a_ops(s, ap)) + zero_count(mask_seq(s)) == 4,
{
    lemma_strategy_a_shifts(s, ap);
    crate::masks::lemma_mask_zero_count(s);
}

/// Right shift of a 32-bit word by 8 bits: roll the least-significant limb
/// to the top, drop it, and push a zero most-significant limb.
pub fn u32_shr8() -> (r: Fragment)
    ensures
        r@ == special_ops(8),
        shifts_word(r@, 8),
        and8_count(r@) == 0,
        and32_count(r@) == 0,
{
    let mut ops: Vec<Op> = Vec::new();
    ops.push(Op::Roll(3));
    ops.push(Op::DropTop);
    ops.push(Op::PushByte(0));
    proof {
        assert(ops@ =~= special_ops(8));
        lemma_special_shifts(8);
    }
    Fragment { ops }
}

/// Right shift of a 32-bit word by 16 bits: swap the limb pairs, drop the
/// originally-upper pair, and push two zero limbs.
pub fn u32_shr16() -> (r: Fragment)
    ensures
        r@ == special_ops(16),
        shifts_word(r@, 16),
        and8_count(r@) == 0,
        and32_count(r@) == 0,
{
    let mut ops: Vec<Op> = Vec::new();
    ops.push(Op::SwapPairs);
    ops.push(Op::DropTwo);
    ops.push(Op::PushByte(0));
    ops.push(Op::PushByte(0));
    proof {
        assert(ops@ =~= special_ops(16));
        lemma_special_shifts(16);
    }
    Fragment { ops }
}

/// Right shift of a 32-bit word by 24 bits: park the most-significant limb
/// on the auxiliary stack, drop the other three, restore it as the new
/// least-significant limb, and push three zero limbs.
pub fn u32_shr24() -> (r: Fragment)
    ensures
        r@ == special_ops(24),
        shifts_word(r@, 24),
        and8_count(r@) == 0,
        and32_count(r@) == 0,
{
    let mut ops: Vec<Op> = Vec::new();
    ops.push(Op::ToAltStack);
    ops.push(Op::DropTwo);
    ops.push(Op::DropTop);
    ops.push(Op::FromAltStack);
    ops.push(Op::PushByte(0));
    ops.push(Op::PushByte(0));
    ops.push(Op::PushByte(0));
    proof {
        assert(ops@ =~= special_ops(24));
        lemma_special_shifts(24);
    }
    Fragment { ops }
}

/// The special-case dispatcher: a shift amount that is a multiple of 8 gets
/// a fixed minimal fragment with no masking and no table access; any other
/// amount falls through to the general-case emitter.
pub fn sepcial_case(rot_num: usize) -> (r: Option<Fragment>)
    ensures
        r is Some <==> (rot_num == 0 || rot_num == 8 || rot_num == 16 || rot_num == 24),
        r matches Some(f) ==> f@ == special_ops(rot_num) && shifts_word(f@, rot_num)
            && and8_count(f@) == 0 && and32_count(f@) == 0,
{
    match rot_num {
        0 => {
            let ops: Vec<Op> = Vec::new();
            proof {
                assert(ops@ =~= special_ops(0));
                lemma_special_shifts(0);
            }
            Some(Fragment { ops })
        },
        8 => Some(u32_shr8()),
        16 => Some(u32_shr16()),
        24 => Some(u32_shr24()),
        _ => None,
    }
}

/// The general-case emitter, with the masking strategy chosen by the
/// caller.  The fragment consumes the four limbs of `v` and leaves the four
/// limbs of `v >> shr_num`, draining the auxiliary stack, on any stack
/// whose table anchor matches `ap`; its output is a pure function of the
/// arguments, and its table-call counts follow the mask decomposition.
pub fn u32_shr_with_strategy(strategy: MaskStrategy, shr_num: usize, ap: u32) -> (r: Fragment)
    requires
        shr_num < 32,
        shr_num % 8 != 0 ==> 2 <= ap <= MAX_AP,
    ensures
        r@ == shr_ops(strategy, shr_num, ap),
        shifts_word_with_table(r@, shr_num, ap),
        shr_num % 8 == 0 ==> shifts_word(r@, shr_num) && and8_count(r@) == 0 && and32_count(r@)
            == 0,
        shr_num % 8 != 0 && strategy == MaskStrategy::PerLimbTable ==> and8_count(r@) == 4
            - shr_num / 8 && and32_count(r@) == 0,
        shr_num % 8 != 0 && strategy == MaskStrategy::WholeWordLiteral ==> and8_count(r@) == 0
            && and32_count(r@) == 1,
{
    match sepcial_case(shr_num) {
        Some(res) => {
            proof {
                assert(shr_num == 0 || shr_num == 8 || shr_num == 16 || shr_num == 24);
                assert(shr_num % 8 == 0);
                assert forall|st: MachState, v: u32|
                    st.main.len() == 4 * ((ap as int) - 2) implies #[trigger] exec_ops(
                    res@,
                    push_limbs(st, v),
                ) == push_limbs(st, v >> (shr_num as u32)) by {}
            }
            return res;
        },
        None => {},
    }
    match strategy {
        MaskStrategy::PerLimbTable => {
            let b = shr_mask_bytes(shr_num);
            let base = (ap - 2) * 4;
            proof {
                assert(base + 5 == and_offset(ap, 0));
                assert(base + 4 == and_offset(ap, 1));
                assert(base + 3 == and_offset(ap, 2));
                assert(base + 2 == and_offset(ap, 3));
            }
            let mut ops: Vec<Op> = Vec::new();
            ops.push(Op::RotCall(shr_num as u32));
            proof {
                assert(ops@ =~= seq![Op::RotCall(shr_num as u32)]);
            }
            if b[0] == 0 {
                ops.push(Op::DropTop);
            } else {
                ops.push(Op::PushByte(b[0]));
                ops.push(Op::AndCall(base + 5));
                ops.push(Op::ToAltStack);
            }
            proof {
                assert(ops@ =~= seq![Op::RotCall(shr_num as u32)] + round_ops(
                    shr_mask(shr_num, 0),
                    and_offset(ap, 0),
                ));
            }
            if b[1] == 0 {
                ops.push(Op::DropTop);
            } else {
                ops.push(Op::PushByte(b[1]));
                ops.push(Op::AndCall(base + 4));
                ops.push(Op::ToAltStack);
            }
            proof {
                assert(ops@ =~= seq![Op::RotCall(shr_num as u32)] + round_ops(
                    shr_mask(shr_num, 0),
                    and_offset(ap, 0),
                ) + round_ops(shr_mask(shr_num, 1), and_offset(ap, 1)));
            }
            if b[2] == 0 {
                ops.push(Op::DropTop);
            } else {
                ops.push(Op::PushByte(b[2]));
                ops.push(Op::AndCall(base + 3));
                ops.push(Op::ToAltStack);
            }
            proof {
                assert(ops@ =~= seq![Op::RotCall(shr_num as u32)] + round_ops(
                    shr_mask(shr_num, 0),
                    and_offset(ap, 0),
                ) + round_ops(shr_mask(shr_num, 1), and_offset(ap, 1)) + round_ops(
                    shr_mask(shr_num, 2),
                    and_offset(ap, 2),
                ));
            }
            if b[3] == 0 {
                ops.push(Op::DropTop);
                ops.push(Op::PushByte(0));
            } else {
                ops.push(Op::PushByte(b[3]));
                ops.push(Op::AndCall(base + 2));
            }
            proof {
                assert(ops@ =~= seq![Op::RotCall(shr_num as u32)] + round_ops(
                    shr_mask(shr_num, 0),
                    and_offset(ap, 0),
                ) + round_ops(shr_mask(shr_num, 1), and_offset(ap, 1)) + round_ops(
                    shr_mask(shr_num, 2),
                    and_offset(ap, 2),
                ) + final_round_ops(shr_mask(shr_num, 3), and_offset(ap, 3)));
            }
            if b[2] == 0 {
                ops.push(Op::PushByte(0));
            } else {
                ops.push(Op::FromAltStack);
            }
            if b[1] == 0 {
                ops.push(Op::PushByte(0));
            } else {
                ops.push(Op::FromAltStack);
            }
            if b[0] == 0 {
                ops.push(Op::PushByte(0));
            } else {
                ops.push(Op::FromAltStack);
            }
            proof {
                assert(ops@ =~= strategy_a_ops(shr_num, ap));
                lemma_strategy_a_shifts(shr_num, ap);
            }
            Fragment { ops }
        },
        MaskStrategy::WholeWordLiteral => {
            let mask = 0xFFFFFFFFu32 >> (shr_num as u32);
            let mut ops: Vec<Op> = Vec::new();
            ops.push(Op::RotCall(shr_num as u32));
            ops.push(Op::PushByte((mask & 0xFF) as u8));
            ops.push(Op::PushByte(((mask >> 8u32) & 0xFF) as u8));
            ops.push(Op::PushByte(((mask >> 16u32) & 0xFF) as u8));
            ops.push(Op::PushByte(((mask >> 24u32) & 0xFF) as u8));
            ops.push(Op::And32Call(4 * ap));
            proof {
                assert(4 * ap == and32_offset(ap));
                assert(ops@ =~= strategy_b_ops(shr_num, ap));
                lemma_strategy_b_shifts(shr_num, ap);
            }
            Fragment { ops }
        },
    }
}

/// Right shift of the 32-bit word in the top four stack limbs by `shr_num`
/// bits, with the AND table anchored `ap` rows down.  The canonical emitter
/// uses per-limb table masking; amounts that are multiples of 8 come out of
/// the special-case dispatcher instead and never touch the table.
pub fn u32_shr(shr_num: usize, ap: u32) -> (r: Fragment)
    requires
        shr_num < 32,
        shr_num % 8 != 0 ==> 2 <= ap <= MAX_AP,
    ensures
        r@ == shr_ops(MaskStrategy::PerLimbTable, shr_num, ap),
        shifts_word_with_table(r@, shr_num, ap),
        shr_num % 8 == 0 ==> shifts_word(r@, shr_num) && and8_count(r@) == 0 && and32_count(r@)
            == 0,
        shr_num % 8 != 0 ==> and8_count(r@) == 4 - shr_num / 8 && and32_count(r@) == 0,
{
    u32_shr_with_strategy(MaskStrategy::PerLimbTable, shr_num, ap)
}

/// Diagnostic entry point: emits a fragment bit-for-bit identical to
/// `u32_shr`'s.  Any diagnostic surfacing of the shift amount or the mask
/// array is out of band and never alters the output.
pub fn u32_shr_debug(shr_num: usize, ap: u32) -> (r: Fragment)
    requires
        shr_num < 32,
        shr_num % 8 != 0 ==> 2 <= ap <= MAX_AP,
    ensures
        r@ == shr_ops(MaskStrategy::PerLimbTable, shr_num, ap),
        shifts_word_with_table(r@, shr_num, ap),
        shr_num % 8 == 0 ==> shifts_word(r@, shr_num) && and8_count(r@) == 0 && and32_count(r@)
            == 0,
        shr_num % 8 != 0 ==> and8_count(r@) == 4 - shr_num / 8 && and32_count(r@) == 0,
{
    u32_shr(shr_num, ap)
}

/// Checked form of `u32_shr`: a shift amount of 32 or more is the one
/// generation-time fault, and no fragment is produced for it.
pub fn u32_shr_checked(shr_num: usize, ap: u32) -> (r: Option<Fragment>)
    requires
        shr_num < 32 && shr_num % 8 != 0 ==> 2 <= ap <= MAX_AP,
    ensures
        r is Some <==> shr_num < 32,
        r matches Some(f) ==> f@ == shr_ops(MaskStrategy::PerLimbTable, shr_num, ap)
            && shifts_word_with_table(f@, shr_num, ap),
{
    if shr_num < 32 {
        Some(u32_shr(shr_num, ap))
    } else {
        None
    }
}

} // verus!
