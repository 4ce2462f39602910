use shr_gadget::machine::{run_fragment, u32_to_limbs, limbs_to_u32, Fragment, Op};
use shr_gadget::masks::shr_mask_bytes;
use shr_gadget::shr::{
    sepcial_case, u32_shr, u32_shr16, u32_shr24, u32_shr8, u32_shr_checked, u32_shr_debug,
    u32_shr_with_strategy, MaskStrategy,
};

fn and8_calls(frag: &Fragment) -> usize {
    frag.ops.iter().filter(|op| matches!(op, Op::AndCall(_))).count()
}

fn and32_calls(frag: &Fragment) -> usize {
    frag.ops.iter().filter(|op| matches!(op, Op::And32Call(_))).count()
}

/// Runs a fragment emitted for anchor row `ap` on the limbs of `v`, with
/// `4 * (ap - 2)` junk bytes between the limbs and the table anchor, and
/// returns the word encoded by the top four result limbs.
fn run_shift(frag: &Fragment, v: u32, ap: u32) -> u32 {
    let mut main: Vec<u8> = Vec::new();
    for row in 0..(ap - 2) {
        for j in 0..4u32 {
            main.push((17 + row as u8).wrapping_add(j as u8));
        }
    }
    let junk = main.clone();
    main.extend(u32_to_limbs(v));
    let (out, alt) = run_fragment(frag, main, Vec::new());
    assert!(alt.is_empty(), "auxiliary stack must be drained");
    assert_eq!(out.len(), junk.len() + 4, "net stack effect must be 4 in, 4 out");
    assert_eq!(&out[..junk.len()], &junk[..], "deeper stack must be untouched");
    limbs_to_u32(
        out[junk.len()],
        out[junk.len() + 1],
        out[junk.len() + 2],
        out[junk.len() + 3],
    )
}

const SAMPLES: [u32; 8] = [
    0,
    1,
    0xFFFF_FFFF,
    0x1234_5678,
    0x8000_0000,
    0xDEAD_BEEF,
    0x0000_00FF,
    0xA5A5_A5A5,
];

#[test]
fn shifts_match_division_per_limb_strategy() {
    for s in 0..32usize {
        let frag = u32_shr(s, 2);
        for &v in SAMPLES.iter() {
            assert_eq!(run_shift(&frag, v, 2), v >> s, "v = {v:#x}, s = {s}");
        }
    }
}

#[test]
fn shifts_match_division_whole_word_strategy() {
    for s in 0..32usize {
        let frag = u32_shr_with_strategy(MaskStrategy::WholeWordLiteral, s, 2);
        for &v in SAMPLES.iter() {
            assert_eq!(run_shift(&frag, v, 2), v >> s, "v = {v:#x}, s = {s}");
        }
    }
}

#[test]
fn shifts_work_with_deeper_table_anchor() {
    for ap in 2..6u32 {
        for s in 0..32usize {
            let frag = u32_shr(s, ap);
            assert_eq!(run_shift(&frag, 0xCAFE_BABE, ap), 0xCAFE_BABE >> s);
        }
    }
}

#[test]
fn shift_zero_is_identity() {
    let frag = u32_shr(0, 2);
    assert!(frag.ops.is_empty());
    for &v in SAMPLES.iter() {
        assert_eq!(run_shift(&frag, v, 2), v);
    }
}

#[test]
fn auxiliary_stack_contents_survive() {
    let frag = u32_shr(13, 2);
    let (_, alt) = run_fragment(&frag, u32_to_limbs(0x0102_0304), vec![7, 8, 9]);
    assert_eq!(alt, vec![7, 8, 9]);
}

#[test]
fn multiples_of_eight_use_no_table_call() {
    for s in [0usize, 8, 16, 24] {
        let frag = u32_shr(s, 2);
        assert_eq!(and8_calls(&frag), 0, "s = {s}");
        assert_eq!(and32_calls(&frag), 0, "s = {s}");
    }
    assert_eq!(and8_calls(&u32_shr8()), 0);
    assert_eq!(and8_calls(&u32_shr16()), 0);
    assert_eq!(and8_calls(&u32_shr24()), 0);
}

#[test]
fn one_table_call_per_nonzero_mask_limb() {
    for s in 1..32usize {
        if s % 8 == 0 {
            continue;
        }
        let frag = u32_shr(s, 2);
        assert_eq!(and8_calls(&frag), 4 - s / 8, "s = {s}");
        assert_eq!(and32_calls(&frag), 0, "s = {s}");
        let whole = u32_shr_with_strategy(MaskStrategy::WholeWordLiteral, s, 2);
        assert_eq!(and32_calls(&whole), 1, "s = {s}");
        assert_eq!(and8_calls(&whole), 0, "s = {s}");
    }
}

#[test]
fn shift_31_of_all_ones_gives_one() {
    let frag = u32_shr(31, 2);
    assert_eq!(run_shift(&frag, 0xFFFF_FFFF, 2), 0x0000_0001);
}

#[test]
fn amounts_of_32_and_more_are_rejected() {
    assert!(u32_shr_checked(32, 2).is_none());
    assert!(u32_shr_checked(33, 2).is_none());
    assert!(u32_shr_checked(100, 2).is_none());
    assert!(u32_shr_checked(31, 2).is_some());
    assert!(u32_shr_checked(0, 2).is_some());
}

#[test]
fn composed_shifts_match_direct_shift() {
    for (k1, k2) in [(5usize, 7usize), (1, 30), (9, 13), (3, 8), (16, 11)] {
        let f1 = u32_shr(k1, 2);
        let f2 = u32_shr(k2, 2);
        let g = u32_shr(k1 + k2, 2);
        for &v in SAMPLES.iter() {
            let (mid, alt1) = run_fragment(&f1, u32_to_limbs(v), Vec::new());
            assert!(alt1.is_empty());
            let (two_step, alt2) = run_fragment(&f2, mid, Vec::new());
            assert!(alt2.is_empty());
            let (one_step, _) = run_fragment(&g, u32_to_limbs(v), Vec::new());
            assert_eq!(two_step, one_step, "v = {v:#x}, k1 = {k1}, k2 = {k2}");
        }
    }
}

#[test]
fn mask_array_for_nine_bits() {
    assert_eq!(shr_mask_bytes(9), vec![0x00, 0x7F, 0xFF, 0xFF]);
}

#[test]
fn mask_array_for_thirty_one_bits() {
    assert_eq!(shr_mask_bytes(31), vec![0x00, 0x00, 0x00, 0x01]);
}

#[test]
fn mask_array_shape_for_all_general_amounts() {
    for s in 1..32usize {
        if s % 8 == 0 {
            continue;
        }
        let masks = shr_mask_bytes(s);
        assert_eq!(masks.len(), 4);
        let zeros = masks.iter().filter(|&&b| b == 0x00).count();
        assert_eq!(zeros, s / 8, "s = {s}");
        let partial = 0xFFu8 >> (s % 8);
        assert_eq!(masks.iter().filter(|&&b| b == partial).count(), 1, "s = {s}");
        let full = masks.iter().filter(|&&b| b == 0xFF).count();
        assert_eq!(zeros + 1 + full, 4, "s = {s}");
        assert_eq!(masks[s / 8], partial, "s = {s}");
    }
}

#[test]
fn dispatcher_recognizes_exactly_the_multiples_of_eight() {
    for s in 0..32usize {
        let res = sepcial_case(s);
        if s % 8 == 0 {
            assert!(res.is_some(), "s = {s}");
        } else {
            assert!(res.is_none(), "s = {s}");
        }
    }
}

#[test]
fn debug_emitter_output_is_identical() {
    for s in 0..32usize {
        assert_eq!(u32_shr_debug(s, 3).ops, u32_shr(s, 3).ops);
    }
}

#[test]
fn limb_round_trip() {
    for &v in SAMPLES.iter() {
        let limbs = u32_to_limbs(v);
        assert_eq!(limbs.len(), 4);
        assert_eq!(limbs_to_u32(limbs[0], limbs[1], limbs[2], limbs[3]), v);
    }
    assert_eq!(u32_to_limbs(0x0403_0201), vec![0x01, 0x02, 0x03, 0x04]);
}
