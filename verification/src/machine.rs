//! The target stack machine, as far as the shift gadget needs it: primitive
//! stack operations, the two external collaborator primitives (ring rotation
//! and AND-via-table) as opaque calls with their boundary contracts, and a
//! small-step semantics over a main stack and an auxiliary stack.
//!
//! Convention: a stack is a `Seq<u8>` whose last element is the top.  A 32-bit
//! word occupies four consecutive limbs, least-significant limb deepest,
//! most-significant limb nearest the top.  The AND lookup table lives below
//! everything modelled here; the main stack of a `MachState` is exactly what
//! sits above the table anchor, so a table call is well-aimed precisely when
//! its offset operand equals the current main stack depth.

use vstd::prelude::*;

verus! {

/// One primitive operation of an emitted fragment.  The first seven are plain
/// structural stack opcodes; the last three are calls into the external
/// collaborators (rotation, 8-bit AND via table, 32-bit AND via table).
#[derive(Clone, Copy, Debug, PartialEq, Eq, Structural)]
pub enum Op {
    /// Push a literal byte.
    PushByte(u8),
    /// Pop the top element.
    DropTop,
    /// Pop the top two elements.
    DropTwo,
    /// Swap the top pair with the pair beneath it.
    SwapPairs,
    /// Move the element at the given depth (0 = top) to the top.
    Roll(u32),
    /// Move the top element to the auxiliary stack.
    ToAltStack,
    /// Move the top of the auxiliary stack back to the main stack.
    FromAltStack,
    /// Ring-rotate the 32-bit word in the top four limbs right by the given
    /// number of bits (valid for amounts below 32).
    RotCall(u32),
    /// 8-bit AND via the resident table: pops a literal and an operand byte
    /// and pushes their AND, provided the offset names the table's true
    /// position (the current stack depth above the anchor); a misaimed call
    /// silently pushes a wrong byte instead.
    AndCall(u32),
    /// 32-bit AND via the resident table: pops four mask limbs and four
    /// operand limbs and pushes the four limbs of their pairwise AND, under
    /// the same aiming rule as `AndCall`.
    And32Call(u32),
}

/// An emitted, immutable, straight-line instruction sequence.
#[derive(Debug)]
pub struct Fragment {
    pub ops: Vec<Op>,
}

impl View for Fragment {
    type V = Seq<Op>;

    open spec fn view(&self) -> Seq<Op> {
        self.ops@
    }
}

/// The machine state a fragment acts on: the main stack above the table
/// anchor, and the auxiliary stack.
pub struct MachState {
    pub main: Seq<u8>,
    pub alt: Seq<u8>,
}

/// The four limbs of a 32-bit word, least-significant first (so the last
/// entry is the limb that sits on top of the stack).
pub open spec fn limbs_of(w: u32) -> Seq<u8> {
    seq![
        (w & 0xFF) as u8,
        ((w >> 8u32) & 0xFF) as u8,
        ((w >> 16u32) & 0xFF) as u8,
        ((w >> 24u32) & 0xFF) as u8,
    ]
}

/// The 32-bit word encoded by four limbs, least-significant first.
pub open spec fn word_of(b0: u8, b1: u8, b2: u8, b3: u8) -> u32 {
    (b0 as u32) | ((b1 as u32) << 8u32) | ((b2 as u32) << 16u32) | ((b3 as u32) << 24u32)
}

/// Ring rotation of a 32-bit word right by `n` bits, for `n` in [0, 31].
pub open spec fn ror32(v: u32, n: u32) -> u32 {
    (v >> n) | (v << ((32 - n) as u32))
}

/// One step of the machine.  An operation whose operands are not on the
/// stack leaves the state unchanged; a misaimed table call pushes a wrong
/// result (zero here) rather than faulting, mirroring the collaborators'
/// contract that an incorrect offset is silently wrong, never detected.
pub open spec fn step_op(st: MachState, op: Op) -> MachState {
    let m = st.main;
    let l = m.len() as int;
    match op {
        Op::PushByte(b) => MachState { main: m.push(b), alt: st.alt },
        Op::DropTop => if l >= 1 {
            MachState { main: m.drop_last(), alt: st.alt }
        } else {
            st
        },
        Op::DropTwo => if l >= 2 {
            MachState { main: m.subrange(0, l - 2), alt: st.alt }
        } else {
            st
        },
        Op::SwapPairs => if l >= 4 {
            MachState {
                main: m.subrange(0, l - 4) + seq![m[l - 2], m[l - 1], m[l - 4], m[l - 3]],
                alt: st.alt,
            }
        } else {
            st
        },
        Op::Roll(n) => if (n as int) < l {
            let i = l - 1 - (n as int);
            MachState { main: m.subrange(0, i) + m.subrange(i + 1, l) + seq![m[i]], alt: st.alt }
        } else {
            st
        },
        Op::ToAltStack => if l >= 1 {
            MachState { main: m.drop_last(), alt: st.alt.push(m.last()) }
        } else {
            st
        },
        Op::FromAltStack => if st.alt.len() >= 1 {
            MachState { main: m.push(st.alt.last()), alt: st.alt.drop_last() }
        } else {
            st
        },
        Op::RotCall(n) => if l >= 4 && n < 32 {
            MachState {
                main: m.subrange(0, l - 4)
                    + limbs_of(ror32(word_of(m[l - 4], m[l - 3], m[l - 2], m[l - 1]), n)),
                alt: st.alt,
            }
        } else {
            st
        },
        Op::AndCall(k) => if l >= 2 {
            let res: u8 = if k as int == l {
                m[l - 2] & m[l - 1]
            } else {
                0
            };
            MachState { main: m.subrange(0, l - 2).push(res), alt: st.alt }
        } else {
            st
        },
        Op::And32Call(k) => if l >= 8 {
            let res: Seq<u8> = if k as int == l {
                seq![
                    m[l - 8] & m[l - 4],
                    m[l - 7] & m[l - 3],
                    m[l - 6] & m[l - 2],
                    m[l - 5] & m[l - 1],
                ]
            } else {
                seq![0u8, 0u8, 0u8, 0u8]
            };
            MachState { main: m.subrange(0, l - 8) + res, alt: st.alt }
        } else {
            st
        },
    }
}

/// Running a fragment: the operations act in order, first to last.
pub open spec fn exec_ops(f: Seq<Op>, st: MachState) -> MachState
    decreases f.len(),
{
    if f.len() == 0 {
        st
    } else {
        step_op(exec_ops(f.drop_last(), st), f.last())
    }
}

/// The number of 8-bit AND-via-table calls in a fragment.
pub open spec fn and8_count(f: Seq<Op>) -> nat
    decreases f.len(),
{
    if f.len() == 0 {
        0
    } else {
        and8_count(f.drop_last()) + match f.last() {
            Op::AndCall(_) => 1nat,
            _ => 0nat,
        }
    }
}

/// The number of 32-bit AND-via-table calls in a fragment.
pub open spec fn and32_count(f: Seq<Op>) -> nat
    decreases f.len(),
{
    if f.len() == 0 {
        0
    } else {
        and32_count(f.drop_last()) + match f.last() {
            Op::And32Call(_) => 1nat,
            _ => 0nat,
        }
    }
}

/// The state reached by pushing the four limbs of `v` onto a state's main
/// stack.  Contracts of the emitters are phrased over this shape.
pub open spec fn push_limbs(st: MachState, v: u32) -> MachState {
    MachState { main: st.main + limbs_of(v), alt: st.alt }
}

pub proof fn lemma_exec_snoc(f: Seq<Op>, op: Op, st: MachState)
    ensures
        exec_ops(f.push(op), st) == step_op(exec_ops(f, st), op),
{
    assert(f.push(op).drop_last() =~= f);
    assert(f.push(op).last() == op);
}

pub proof fn lemma_exec_concat(f: Seq<Op>, g: Seq<Op>, st: MachState)
    ensures
        exec_ops(f + g, st) == exec_ops(g, exec_ops(f, st)),
    decreases g.len(),
{
    if g.len() == 0 {
        assert(f + g =~= f);
    } else {
        lemma_exec_concat(f, g.drop_last(), st);
        assert((f + g).drop_last() =~= f + g.drop_last());
        assert((f + g).last() == g.last());
    }
}

pub proof fn lemma_and8_count_concat(f: Seq<Op>, g: Seq<Op>)
    ensures
        and8_count(f + g) == and8_count(f) + and8_count(g),
    decreases g.len(),
{
    if g.len() == 0 {
        assert(f + g =~= f);
    } else {
        lemma_and8_count_concat(f, g.drop_last());
        assert((f + g).drop_last() =~= f + g.drop_last());
        assert((f + g).last() == g.last());
    }
}

pub proof fn lemma_and32_count_concat(f: Seq<Op>, g: Seq<Op>)
    ensures
        and32_count(f + g) == and32_count(f) + and32_count(g),
    decreases g.len(),
{
    if g.len() == 0 {
        assert(f + g =~= f);
    } else {
        lemma_and32_count_concat(f, g.drop_last());
        assert((f + g).drop_last() =~= f + g.drop_last());
        assert((f + g).last() == g.last());
    }
}

/// The four limbs of a word, as a vector (least-significant first).
pub fn u32_to_limbs(v: u32) -> (r: Vec<u8>)
    ensures
        r@ == limbs_of(v),
{
    let mut r: Vec<u8> = Vec::new();
    r.push((v & 0xFF) as u8);
    r.push(((v >> 8u32) & 0xFF) as u8);
    r.push(((v >> 16u32) & 0xFF) as u8);
    r.push(((v >> 24u32) & 0xFF) as u8);
    proof {
        assert(r@ =~= limbs_of(v));
    }
    r
}

/// Runs a fragment on concrete stacks, following the formal semantics step
/// by step; returns the final main and auxiliary stacks.
pub fn run_fragment(frag: &Fragment, main: Vec<u8>, alt: Vec<u8>) -> (r: (Vec<u8>, Vec<u8>))
    ensures
        ({
            let fin = exec_ops(frag@, MachState { main: main@, alt: alt@ });
            r.0@ == fin.main && r.1@ == fin.alt
        }),
{
    let st0 = Ghost(MachState { main: main@, alt: alt@ });
    let mut m = main;
    let mut a = alt;
    let mut i: usize = 0;
    while i < frag.ops.len()
        invariant
            i <= frag.ops.len(),
            exec_ops(frag@.subrange(0, i as int), st0@) == (MachState { main: m@, alt: a@ }),
        decreases frag.ops.len() - i,
    {
        let ghost pref = frag@.subrange(0, i as int);
        let ghost cur = MachState { main: m@, alt: a@ };
        let op = frag.ops[i];
        proof {
            assert(frag@.subrange(0, i as int + 1) =~= pref.push(op));
            lemma_exec_snoc(pref, op, st0@);
        }
        match op {
            Op::PushByte(x) => {
                m.push(x);
            },
            Op::DropTop => {
                if m.len() >= 1 {
                    let _ = m.pop();
                }
            },
            Op::DropTwo => {
                if m.len() >= 2 {
                    let _ = m.pop();
                    let _ = m.pop();
                    proof {
                        assert(m@ =~= cur.main.subrange(0, cur.main.len() - 2));
                    }
                }
            },
            Op::SwapPairs => {
                if m.len() >= 4 {
                    let w3 = m.pop().unwrap();
                    let w2 = m.pop().unwrap();
                    let w1 = m.pop().unwrap();
                    let w0 = m.pop().unwrap();
                    m.push(w2);
                    m.push(w3);
                    m.push(w0);
                    m.push(w1);
                    proof {
                        let l = cur.main.len() as int;
                        assert(m@ =~= cur.main.subrange(0, l - 4) + seq![
                            cur.main[l - 2],
                            cur.main[l - 1],
                            cur.main[l - 4],
                            cur.main[l - 3],
                        ]);
                    }
                }
            },
            Op::Roll(n) => {
                if (n as usize) < m.len() {
                    let ix = m.len() - 1 - (n as usize);
                    let x = m.remove(ix);
                    m.push(x);
                    proof {
                        let l = cur.main.len() as int;
                        let j = l - 1 - (n as int);
                        assert(m@ =~= cur.main.subrange(0, j) + cur.main.subrange(j + 1, l)
                            + seq![cur.main[j]]);
                    }
                }
            },
            Op::ToAltStack => {
                if m.len() >= 1 {
                    let x = m.pop().unwrap();
                    a.push(x);
                }
            },
            Op::FromAltStack => {
                if a.len() >= 1 {
                    let x = a.pop().unwrap();
                    m.push(x);
                }
            },
            Op::RotCall(n) => {
                if m.len() >= 4 && n < 32 {
                    let w3 = m.pop().unwrap();
                    let w2 = m.pop().unwrap();
                    let w1 = m.pop().unwrap();
                    let w0 = m.pop().unwrap();
                    let v = (w0 as u32) | ((w1 as u32) << 8u32) | ((w2 as u32) << 16u32) | (
                    (w3 as u32) << 24u32);
                    let rot = if n == 0 {
                        v
                    } else {
                        (v >> n) | (v << (32 - n))
                    };
                    proof {
                        assert((v >> 0u32) | (v << ((32 - 0) as u32)) == v) by (bit_vector);
                        assert(rot == ror32(v, n));
                    }
                    m.push((rot & 0xFF) as u8);
                    m.push(((rot >> 8u32) & 0xFF) as u8);
                    m.push(((rot >> 16u32) & 0xFF) as u8);
                    m.push(((rot >> 24u32) & 0xFF) as u8);
                    proof {
                        let l = cur.main.len() as int;
                        assert(m@ =~= cur.main.subrange(0, l - 4) + limbs_of(
                            ror32(
                                word_of(
                                    cur.main[l - 4],
                                    cur.main[l - 3],
                                    cur.main[l - 2],
                                    cur.main[l - 1],
                                ),
                                n,
                            ),
                        ));
                    }
                }
            },
            Op::AndCall(k) => {
                if m.len() >= 2 {
                    let l0 = m.len();
                    let y = m.pop().unwrap();
                    let x = m.pop().unwrap();
                    let res: u8 = if k as usize == l0 {
                        x & y
                    } else {
                        0
                    };
                    m.push(res);
                    proof {
                        let l = cur.main.len() as int;
                        assert(m@ =~= cur.main.subrange(0, l - 2).push(
                            if k as int == l {
                                cur.main[l - 2] & cur.main[l - 1]
                            } else {
                                0u8
                            },
                        ));
                    }
                }
            },
            Op::And32Call(k) => {
                if m.len() >= 8 {
                    let l0 = m.len();
                    let m3 = m.pop().unwrap();
                    let m2 = m.pop().unwrap();
                    let m1 = m.pop().unwrap();
                    let m0 = m.pop().unwrap();
                    let a3 = m.pop().unwrap();
                    let a2 = m.pop().unwrap();
                    let a1 = m.pop().unwrap();
                    let a0 = m.pop().unwrap();
                    if k as usize == l0 {
                        m.push(a0 & m0);
                        m.push(a1 & m1);
                        m.push(a2 & m2);
                        m.push(a3 & m3);
                    } else {
                        m.push(0);
                        m.push(0);
                        m.push(0);
                        m.push(0);
                    }
                    proof {
                        let l = cur.main.len() as int;
                        let res: Seq<u8> = if k as int == l {
                            seq![
                                cur.main[l - 8] & cur.main[l - 4],
                                cur.main[l - 7] & cur.main[l - 3],
                                cur.main[l - 6] & cur.main[l - 2],
                                cur.main[l - 5] & cur.main[l - 1],
                            ]
                        } else {
                            seq![0u8, 0u8, 0u8, 0u8]
                        };
                        assert(m@ =~= cur.main.subrange(0, l - 8) + res);
                    }
                }
            },
        }
        proof {
            assert(MachState { main: m@, alt: a@ } == step_op(cur, op));
        }
        i += 1;
    }
    proof {
        assert(frag@.subrange(0, frag@.len() as int) =~= frag@);
    }
    (m, a)
}

/// The word encoded by four limbs (least-significant first).
pub fn limbs_to_u32(b0: u8, b1: u8, b2: u8, b3: u8) -> (r: u32)
    ensures
        r == word_of(b0, b1, b2, b3),
{
    (b0 as u32) | ((b1 as u32) << 8u32) | ((b2 as u32) << 16u32) | ((b3 as u32) << 24u32)
}

} // verus!
