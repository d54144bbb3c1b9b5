//! Quantizer steps.
//!
//! One table of 24 steps covers an octave; the step doubles every 24 indices.
//! DC and AC use the same step.

use crate::num;
use vstd::arithmetic::power2::*;
use vstd::prelude::*;

verus! {

/// Steps of the first octave; entry 0 is the step of index 0.
pub const AC_QLOOKUP_QTX: [u32; 25] = [
    64, 40, 41, 43, 44, 45, 47, 48, 49, 51, 52, 54, 55, 57, 59, 60, 62, 64, 66, 68, 70, 72, 74, 76,
    78,
];

/// Quantizer index at which transforms are calibrated.
pub const BASE_Q: u32 = 120;

/// Quantizer step of an index; indices above 255 count as 255.
pub open spec fn step_of(qindex: nat) -> nat {
    let q = if qindex > 255 {
        255
    } else {
        qindex
    };
    if q == 0 {
        64
    } else {
        AC_QLOOKUP_QTX@[((q - 1) % 24 + 1) as int] as nat * pow2(((q - 1) / 24) as nat)
    }
}

/// Dequantization step of a quantizer index.
pub fn qstep(qindex: u32) -> (step: u32)
    ensures
        step == step_of(qindex as nat),
        40 <= step <= 78 * 1024,
{
    if qindex == 0 {
        return AC_QLOOKUP_QTX[0];
    }
    let q: u32 = if qindex > 255 {
        255
    } else {
        qindex
    };
    let base: u32 = AC_QLOOKUP_QTX[((q - 1) % 24 + 1) as usize];
    let octave: u32 = (q - 1) / 24;
    proof {
        lemma2_to64();
        lemma_base_step(((q - 1) % 24 + 1) as int);
        if octave < 10 {
            lemma_pow2_strictly_increases(octave as nat, 10);
        }
        lemma_pow2_pos(octave as nat);
        assert(40 <= base * pow2(octave as nat) <= 78 * 1024) by (nonlinear_arith)
            requires
                40 <= base <= 78,
                1 <= pow2(octave as nat) <= 1024,
        ;
    }
    base * num::pow2_u32(octave)
}

proof fn lemma_base_step(i: int)
    requires
        1 <= i < 25,
    ensures
        40 <= AC_QLOOKUP_QTX@[i] <= 78,
        i > 1 ==> AC_QLOOKUP_QTX@[i - 1] < AC_QLOOKUP_QTX@[i],
{
}

/// The step doubles every 24 indices.
pub proof fn law_step_doubles_every_24(q: nat)
    requires
        1 <= q,
        q + 24 <= 255,
    ensures
        step_of(q + 24) == 2 * step_of(q),
{
    let octave = ((q - 1) / 24) as nat;
    assert((q + 24 - 1) / 24 == octave + 1);
    assert((q + 24 - 1) % 24 == (q - 1) % 24);
    lemma_pow2_unfold(octave + 1);
    let b = AC_QLOOKUP_QTX@[((q - 1) % 24 + 1) as int] as int;
    let p = pow2(octave) as int;
    assert(b * (2 * p) == 2 * (b * p)) by (nonlinear_arith);
}

/// A higher index gives a coarser step.
pub proof fn law_step_increases(q: nat)
    requires
        1 <= q < 255,
    ensures
        step_of(q) < step_of(q + 1),
{
    let octave = ((q - 1) / 24) as nat;
    let i = ((q - 1) % 24 + 1) as int;
    let p = pow2(octave) as int;
    lemma_pow2_pos(octave);
    if i < 24 {
        assert(q / 24 == octave);
        assert(q % 24 == i);
        lemma_base_step(i + 1);
        let a = AC_QLOOKUP_QTX@[i] as int;
        let b = AC_QLOOKUP_QTX@[i + 1] as int;
        assert(a * p < b * p) by (nonlinear_arith)
            requires
                a < b,
                p > 0,
        ;
    } else {
        assert(q / 24 == octave + 1);
        assert(q % 24 == 0);
        lemma_pow2_unfold(octave + 1);
        assert(78 * p < 40 * (2 * p)) by (nonlinear_arith)
            requires
                p > 0,
        ;
    }
}

/// Context of a quantizer index: it selects one of four banks of coefficient
/// tables.
pub open spec fn context_of(qindex: int) -> int {
    if qindex <= 90 {
        0
    } else if qindex <= 140 {
        1
    } else if qindex <= 190 {
        2
    } else {
        3
    }
}

/// Context of a frame's quantizer index.
pub fn get_q_ctx(base_q_idx: u8) -> (qc: usize)
    ensures
        qc == context_of(base_q_idx as int),
        qc < 4,
{
    if base_q_idx <= 90 {
        0
    } else if base_q_idx <= 140 {
        1
    } else if base_q_idx <= 190 {
        2
    } else {
        3
    }
}

/// A coarser quantizer never has a lower context.
pub proof fn law_context_is_monotone(a: int, b: int)
    requires
        a <= b,
    ensures
        context_of(a) <= context_of(b),
{
}

/// Every index from the largest on has the largest step, and index 0 has the step
/// that is one in the scale of the transforms.
pub proof fn law_step_ends(q: nat)
    ensures
        q >= 255 ==> step_of(q) == step_of(255),
        q == 0 ==> step_of(q) == 64,
{
}

/// The context of a quantizer counts how many of the bounds 90, 140 and 190 it is
/// above.
pub proof fn law_context_counts_the_bounds(q: int)
    ensures
        context_of(q) == (if q > 90 {
            1int
        } else {
            0
        }) + (if q > 140 {
            1int
        } else {
            0
        }) + (if q > 190 {
            1int
        } else {
            0
        }),
{
}

} // verus!
