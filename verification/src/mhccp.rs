//! Multi-hypothesis cross-component prediction (MHCCP): chroma predicted from
//! luma by a three-tap filter that is fitted to the neighborhood of the block.

use crate::num;
use vstd::arithmetic::div_mod::*;
use vstd::arithmetic::power2::*;
use vstd::prelude::*;

verus! {

/// Taps of the filter.
pub const MHCCP_NUM_PARAMS: usize = 3;

/// Fractional bits of the filter taps.
pub const MHCCP_DECIM_BITS: i32 = 16;

/// Number of filter directions.
pub const MHCCP_MODE_NUM: usize = 3;

/// Context group of the direction symbol per block size.
pub const SIZE_GROUP_LOOKUP: [u8; 29] = [
    0, 0, 0, 1, 1, 1, 2, 2, 2, 3, 3, 3, 3, 3, 3, 3, 3, 3, 3, 0, 0, 1, 1, 2, 2, 1, 1, 2, 2,
];

/// Curvature of the reciprocal per slot.
pub const POW2W: [i32; 8] = [214, 153, 113, 86, 67, 53, 43, 35];

/// Center of each slot.
pub const POW2O: [i32; 8] = [4822, 5952, 6624, 6792, 6408, 5424, 3792, 1466];

/// Reciprocal at the center of each slot.
pub const POW2B: [i32; 8] = [12784, 12054, 11670, 11583, 11764, 12195, 12870, 13782];

// ---------------------------------------------------------------------------
// Fixed-point arithmetic
// ---------------------------------------------------------------------------

/// Absolute value.
pub open spec fn magnitude(a: int) -> nat {
    if a < 0 {
        (-a) as nat
    } else {
        a as nat
    }
}

/// Bits of the magnitude of `a`, at least one.
pub open spec fn magnitude_bits(a: int) -> nat {
    let n = num::bitlen(magnitude(a));
    if n == 0 {
        1
    } else {
        n
    }
}

/// Low bits that two factors lose together so that their product has 29 bits.
pub open spec fn dropped_bits(a: int, b: int) -> nat {
    let n = magnitude_bits(a) + magnitude_bits(b);
    if n > 29 {
        (n - 29) as nat
    } else {
        0
    }
}

/// Product of the two factors after each has lost its share of low bits.
pub open spec fn adapted_product(a: int, b: int) -> int {
    let drop = dropped_bits(a, b);
    let s1 = drop / 2;
    (a / pow2(s1) as int) * (b / pow2((drop - s1) as nat) as int)
}

/// `p / 2^k`, rounded to nearest with halves away from zero.
pub open spec fn round_shift(p: int, k: nat) -> int {
    if p >= 0 {
        (p + pow2((k - 1) as nat)) / pow2(k) as int
    } else {
        -((-p + pow2((k - 1) as nat)) / pow2(k) as int)
    }
}

/// Fixed-point product `a * b / 2^shift` in 32 bits.
pub open spec fn fixed_product(a: int, b: int, shift: int) -> int {
    let rest = shift - dropped_bits(a, b);
    if rest <= 0 {
        adapted_product(a, b)
    } else if rest <= 29 {
        round_shift(adapted_product(a, b), rest as nat)
    } else {
        0
    }
}

proof fn lemma_magnitude_bits(a: int)
    requires
        -0x8000_0000 <= a < 0x8000_0000,
    ensures
        1 <= magnitude_bits(a) <= 32,
        magnitude(a) < pow2(magnitude_bits(a)),
{
    lemma2_to64();
    if a != 0 {
        num::lemma_bitlen_bounds(magnitude(a));
        num::lemma_bitlen_upper(magnitude(a), 32);
    }
}

/// A value of `n` bits that loses `s` bits keeps at most `n - s` of them.
proof fn lemma_shifted_bound(a: int, n: nat, s: nat)
    requires
        magnitude(a) < pow2(n),
    ensures
        ({
            let e = if n > s {
                (n - s) as nat
            } else {
                0
            };
            -pow2(e) <= a / pow2(s) as int <= pow2(e)
        }),
{
    lemma2_to64();
    let p = pow2(s) as int;
    lemma_pow2_pos(s);
    if n > s {
        let e = (n - s) as nat;
        lemma_pow2_adds(s, e);
        let q = pow2(e) as int;
        lemma_fundamental_div_mod(a, p);
        lemma_mod_bound(a, p);
        let d = a / p;
        assert(d <= q) by (nonlinear_arith)
            requires
                a == p * d + a % p,
                0 <= a % p < p,
                a < p * q,
                p > 0,
        ;
        assert(d >= -q) by (nonlinear_arith)
            requires
                a == p * d + a % p,
                0 <= a % p < p,
                a > -(p * q),
                p > 0,
        ;
    } else {
        if n < s {
            lemma_pow2_strictly_increases(n, s);
        }
        let d = a / p;
        lemma_fundamental_div_mod(a, p);
        lemma_mod_bound(a, p);
        assert(-1 <= d <= 0) by (nonlinear_arith)
            requires
                a == p * d + a % p,
                0 <= a % p < p,
                -p < a < p,
                p > 0,
        ;
    }
}

proof fn lemma_adapted_product_bound(a: int, b: int)
    requires
        -0x8000_0000 <= a < 0x8000_0000,
        -0x8000_0000 <= b < 0x8000_0000,
    ensures
        -0x4000_0000 <= adapted_product(a, b) <= 0x4000_0000,
        dropped_bits(a, b) <= 35,
{
    lemma2_to64();
    lemma_magnitude_bits(a);
    lemma_magnitude_bits(b);
    let na = magnitude_bits(a);
    let nb = magnitude_bits(b);
    let drop = dropped_bits(a, b);
    let s1 = drop / 2;
    let s2 = (drop - s1) as nat;
    lemma_shifted_bound(a, na, s1);
    lemma_shifted_bound(b, nb, s2);
    let e1 = if na > s1 {
        (na - s1) as nat
    } else {
        0
    };
    let e2 = if nb > s2 {
        (nb - s2) as nat
    } else {
        0
    };
    assert(e1 + e2 <= 30);
    lemma_pow2_adds(e1, e2);
    if e1 + e2 < 30 {
        lemma_pow2_strictly_increases(e1 + e2, 30);
    }
    let x = a / pow2(s1) as int;
    let y = b / pow2(s2) as int;
    let p = pow2(e1) as int;
    let q = pow2(e2) as int;
    assert(-(p * q) <= x * y <= p * q) by (nonlinear_arith)
        requires
            -p <= x <= p,
            -q <= y <= q,
    ;
}

fn magnitude_bits_of(a: i32) -> (n: u32)
    ensures
        n == magnitude_bits(a as int),
        1 <= n <= 32,
{
    proof {
        lemma_magnitude_bits(a as int);
    }
    let wide: i64 = a as i64;
    let m: u32 = if wide < 0 {
        (-wide) as u32
    } else {
        wide as u32
    };
    let n: u32 = num::bit_length(m);
    if n == 0 {
        1
    } else {
        n
    }
}

/// Fixed-point product with symmetric rounding that drops low bits of the
/// factors first where the product would not fit.
pub fn mul_fixed32_adapt(a: i32, b: i32, shift: i32) -> (r: i32)
    ensures
        r == fixed_product(a as int, b as int, shift as int),
        -0x4000_0000 <= r <= 0x4000_0000,
{
    let bits: u32 = magnitude_bits_of(a) + magnitude_bits_of(b);
    let drop: u32 = if bits > 29 {
        bits - 29
    } else {
        0
    };
    let s1: u32 = drop / 2;
    let s2: u32 = drop - s1;
    let rest: i64 = shift as i64 - drop as i64;
    proof {
        lemma_adapted_product_bound(a as int, b as int);
    }
    let x: i64 = num::floor_shift(a as i64, s1);
    let y: i64 = num::floor_shift(b as i64, s2);
    assert(x * y == adapted_product(a as int, b as int));
    let prod: i64 = x * y;
    if rest <= 0 {
        return prod as i32;
    }
    if rest > 29 {
        return 0;
    }
    let k: u32 = rest as u32;
    proof {
        lemma2_to64();
        lemma_pow2_unfold(k as nat);
        if k < 29 {
            lemma_pow2_strictly_increases(k as nat, 29);
        }
        let m = magnitude(prod as int) as int;
        let h = pow2((k - 1) as nat) as int;
        lemma_pow2_pos((k - 1) as nat);
        assert(0 <= (m + h) / (2 * h) <= 0x4000_0000) by (nonlinear_arith)
            requires
                0 <= m <= 0x4000_0000,
                1 <= h <= 0x1000_0000,
        ;
    }
    let bias: u64 = num::pow2_u64(k - 1);
    if prod >= 0 {
        num::shift_right(prod as u64 + bias, k) as i32
    } else {
        -(num::shift_right((-prod) as u64 + bias, k) as i32)
    }
}

/// `floor(log2 x)`, 0 for 0.
pub open spec fn floor_log2(x: nat) -> nat {
    if x == 0 {
        0
    } else {
        (num::bitlen(x) - 1) as nat
    }
}

/// The top 15 bits of a denominator, rounded.
pub open spec fn normalized_denominator(denom: nat) -> nat {
    let shift = floor_log2(denom);
    if shift > 14 {
        ((denom + pow2((shift - 15) as nat)) % 0x1_0000_0000) / pow2((shift - 14) as nat)
    } else {
        denom * pow2((14 - shift) as nat)
    }
}

/// Reciprocal of a normalized fraction by quadratic interpolation in eight slots.
pub open spec fn reciprocal(fraction: nat) -> int {
    let i = (fraction / 2048) as int;
    let d = fraction - POW2O@[i];
    4 * ((POW2W@[i] * (d * d / 16384)) / 256 - d / 2 + POW2B@[i])
}

/// Scale with which a division by `denom` becomes a multiplication.
pub open spec fn division_scale(denom: nat) -> int {
    let n = normalized_denominator(denom);
    let clipped = if n < 1 {
        1
    } else if n > 32767 {
        32767
    } else {
        n
    };
    reciprocal(clipped % 16384)
}

/// Half of the power of two at or below `denom`.
pub open spec fn division_round(denom: nat) -> nat {
    let shift = floor_log2(denom);
    if shift == 0 {
        0
    } else {
        pow2((shift - 1) as nat)
    }
}

/// Scale, rounding and shift that stand for a division by `denom`.
pub fn division_scale_shift(denom: u32) -> (r: (i32, i32, i32))
    ensures
        r.0 == division_scale(denom as nat),
        r.1 == division_round(denom as nat),
        r.2 == floor_log2(denom as nat),
        0 <= r.2 < 32,
{
    let bits: u32 = num::bit_length(denom);
    let shift: u32 = if bits == 0 {
        0
    } else {
        bits - 1
    };
    proof {
        lemma2_to64();
        lemma2_to64_rest();
        if denom > 0 {
            num::lemma_bitlen_bounds(denom as nat);
        }
    }
    let round: i32 = if shift == 0 {
        0
    } else {
        proof {
            if shift - 1 < 30 {
                lemma_pow2_strictly_increases((shift - 1) as nat, 30);
            }
        }
        num::pow2_u32(shift - 1) as i32
    };
    let normalized: u32 = if shift > 14 {
        let bias: u64 = num::pow2_u64(shift - 15);
        proof {
            lemma_pow2_strictly_increases((shift - 15) as nat, 32);
        }
        let sum: u64 = (denom as u64 + bias) % 0x1_0000_0000;
        let n: u64 = num::shift_right(sum, shift - 14);
        proof {
            lemma_pow2_pos((shift - 14) as nat);
            lemma_div_is_ordered_by_denominator(sum as int, 1, pow2((shift - 14) as nat) as int);
        }
        n as u32
    } else {
        proof {
            lemma_pow2_adds((shift + 1) as nat, (14 - shift) as nat);
            let p = pow2((14 - shift) as nat) as int;
            lemma_pow2_pos((14 - shift) as nat);
            assert(denom * p <= pow2((shift + 1) as nat) * p) by (nonlinear_arith)
                requires
                    denom <= pow2((shift + 1) as nat),
                    p > 0,
            ;
        }
        num::shift_left(denom as u64, 14 - shift) as u32
    };
    let clipped: u32 = if normalized < 1 {
        1
    } else if normalized > 32767 {
        32767
    } else {
        normalized
    };
    let fraction: u32 = clipped % 16384;
    let slot: usize = (fraction / 2048) as usize;
    let d: i64 = fraction as i64 - POW2O[slot] as i64;
    let w: i64 = POW2W[slot] as i64;
    proof {
        lemma_slot(slot as int);
        assert(0 <= d * d <= 16384 * 16384) by (nonlinear_arith)
            requires
                -16384 <= d <= 16384,
        ;
    }
    let square: i64 = num::floor_shift(d * d, 14);
    assert(0 <= square <= 16384);
    assert(0 <= w * square <= 214 * 16384) by (nonlinear_arith)
        requires
            0 <= w <= 214,
            0 <= square <= 16384,
    ;
    let curve: i64 = num::floor_shift(w * square, 8);
    let slope: i64 = num::floor_shift(d, 1);
    let scale: i64 = 4 * (curve - slope + POW2B[slot] as i64);
    (scale as i32, round, shift as i32)
}

proof fn lemma_slot(i: int)
    requires
        0 <= i < 8,
    ensures
        0 <= POW2W@[i] <= 214,
        0 <= POW2O@[i] <= 6792,
        0 <= POW2B@[i] <= 13782,
{
}

// ---------------------------------------------------------------------------
// Linear solver
// ---------------------------------------------------------------------------

/// Weight that is added to the diagonal of the system.
pub open spec fn regularization(bd: int) -> int {
    2 * pow2((bd - 8) as nat) as int
}

/// The three equations as three rows of four entries: the symmetric matrix,
/// given by its upper triangle, with its diagonal raised, and the right side.
pub open spec fn system_matrix(a: [[i32; 3]; 3], y: [i32; 3], bd: int) -> Seq<i32> {
    Seq::new(
        12,
        |p: int|
            {
                let (r, k) = (p / 4, p % 4);
                if k == 3 {
                    y@[r]
                } else if k == r {
                    num::wrap32(a@[r]@[r] + regularization(bd)) as i32
                } else if k > r {
                    a@[r]@[k]
                } else {
                    a@[k]@[r]
                }
            },
    )
}

/// Pivot of row `i`: the magnitude of its diagonal entry, at least one.
pub open spec fn pivot(c: Seq<i32>, i: int) -> nat {
    let d = magnitude(c[5 * i] as int);
    if d < 1 {
        1
    } else {
        d
    }
}

/// Entry `k` of row `i` divided by its pivot.
pub open spec fn pivoted(c: Seq<i32>, i: int, k: int) -> int {
    let d = pivot(c, i);
    fixed_product(c[4 * i + k] as int, division_scale(d), floor_log2(d) as int)
}

/// One elimination step: row `i` is divided by its pivot, and its multiple is
/// taken off the rows below. Entries up to column `i` stay as they are.
pub open spec fn eliminate(c: Seq<i32>, i: int) -> Seq<i32> {
    Seq::new(
        12,
        |p: int|
            {
                let (r, k) = (p / 4, p % 4);
                if k <= i || r < i {
                    c[p]
                } else if r == i {
                    pivoted(c, i, k) as i32
                } else {
                    num::wrap32(
                        c[p] - fixed_product(c[4 * r + i] as int, pivoted(c, i, k), 16),
                    ) as i32
                }
            },
    )
}

/// Solution of a triangular system.
pub open spec fn back_substituted(c: Seq<i32>) -> Seq<i32> {
    let x2 = c[11];
    let x1 = num::wrap32(c[7] - fixed_product(c[6] as int, x2 as int, 16)) as i32;
    let x0 = num::wrap32(
        c[3] - fixed_product(c[1] as int, x1 as int, 16) - fixed_product(c[2] as int, x2 as int, 16),
    ) as i32;
    seq![x0, x1, x2]
}

/// Filter taps that solve the equations.
pub open spec fn solution(a: [[i32; 3]; 3], y: [i32; 3], bd: int) -> Seq<i32> {
    back_substituted(eliminate(eliminate(eliminate(system_matrix(a, y, bd), 0), 1), 2))
}

fn eliminate_row(c: &Vec<i32>, i: usize) -> (out: Vec<i32>)
    requires
        c@.len() == 12,
        i < 3,
    ensures
        out@ == eliminate(c@, i as int),
{
    let d: i64 = c[5 * i] as i64;
    let diag: u32 = if d < 0 {
        (-d) as u32
    } else if d == 0 {
        1
    } else {
        d as u32
    };
    assert(diag == pivot(c@, i as int));
    let (scale, _round, shift) = division_scale_shift(diag);
    let mut out: Vec<i32> = Vec::new();
    let mut p: usize = 0;
    while p < 12
        invariant
            p <= 12,
            i < 3,
            c@.len() == 12,
            scale == division_scale(pivot(c@, i as int)),
            shift == floor_log2(pivot(c@, i as int)),
            out@ =~= eliminate(c@, i as int).take(p as int),
        decreases 12 - p,
    {
        let r: usize = p / 4;
        let k: usize = p % 4;
        if k <= i || r < i {
            out.push(c[p]);
        } else {
            let top: i32 = mul_fixed32_adapt(c[4 * i + k], scale, shift);
            assert(top == pivoted(c@, i as int, k as int));
            if r == i {
                out.push(top);
            } else {
                let delta: i32 = mul_fixed32_adapt(c[4 * r + i], top, MHCCP_DECIM_BITS);
                out.push(num::wrap_to_i32(c[p] as i64 - delta as i64));
            }
        }
        p = p + 1;
    }
    assert(eliminate(c@, i as int).take(12) =~= eliminate(c@, i as int));
    out
}

fn gauss_back_substitute(c: &Vec<i32>) -> (x: [i32; 3])
    requires
        c@.len() == 12,
    ensures
        x@ == back_substituted(c@),
{
    let x2: i32 = c[11];
    let d12: i32 = mul_fixed32_adapt(c[6], x2, MHCCP_DECIM_BITS);
    let x1: i32 = num::wrap_to_i32(c[7] as i64 - d12 as i64);
    let d01: i32 = mul_fixed32_adapt(c[1], x1, MHCCP_DECIM_BITS);
    let d02: i32 = mul_fixed32_adapt(c[2], x2, MHCCP_DECIM_BITS);
    let x0: i32 = num::wrap_to_i32(c[3] as i64 - d01 as i64 - d02 as i64);
    let x: [i32; 3] = [x0, x1, x2];
    assert(x@ =~= back_substituted(c@));
    x
}

/// Solve the regularized normal equations in fixed point. `a` holds the upper
/// triangle of the auto-correlation, `y` the cross-correlation.
pub fn gauss_elimination(a: &[[i32; 3]; 3], y: &[i32; 3], bd: i32, out: &mut [i32; 3])
    requires
        8 <= bd <= 12,
    ensures
        final(out)@ == solution(*a, *y, bd as int),
{
    proof {
        lemma2_to64();
        if bd < 12 {
            lemma_pow2_strictly_increases((bd - 8) as nat, 4);
        }
    }
    let reg: i64 = 2 * num::pow2_u32((bd - 8) as u32) as i64;
    let mut c: Vec<i32> = Vec::new();
    let mut p: usize = 0;
    while p < 12
        invariant
            p <= 12,
            8 <= bd <= 12,
            reg == regularization(bd as int),
            reg <= 32,
            c@ =~= system_matrix(*a, *y, bd as int).take(p as int),
        decreases 12 - p,
    {
        let r: usize = p / 4;
        let k: usize = p % 4;
        if k == 3 {
            c.push(y[r]);
        } else if k == r {
            c.push(num::wrap_to_i32(a[r][r] as i64 + reg));
        } else if k > r {
            c.push(a[r][k]);
        } else {
            c.push(a[k][r]);
        }
        p = p + 1;
    }
    assert(system_matrix(*a, *y, bd as int).take(12) =~= system_matrix(*a, *y, bd as int));
    let c0: Vec<i32> = eliminate_row(&c, 0);
    let c1: Vec<i32> = eliminate_row(&c0, 1);
    let c2: Vec<i32> = eliminate_row(&c1, 2);
    *out = gauss_back_substitute(&c2);
}

// ---------------------------------------------------------------------------
// Filter
// ---------------------------------------------------------------------------

/// Middle of the sample range.
pub open spec fn middle(bd: int) -> int {
    pow2((bd - 1) as nat) as int
}

/// The squared tap of a luma value.
pub open spec fn squared_tap(v: int, mid: int, bd: int) -> int {
    num::wrap32(num::wrap32(v * v) + mid) / pow2(bd as nat) as int
}

/// `(v * v + mid) >> bd` in 32 bits.
pub fn non_linear(v: i32, mid: i32, bd: i32) -> (r: i32)
    requires
        0 <= bd < 32,
    ensures
        r == squared_tap(v as int, mid as int, bd as int),
{
    let square: i32 = v.wrapping_mul(v);
    assert(square == num::wrap32(v * v));
    let sum: i32 = num::wrap_to_i32(square as i64 + mid as i64);
    num::floor_shift(sum as i64, bd as u32) as i32
}

/// Filter output before it is clipped to the sample range: the taps times the
/// inputs, held in sixteen bits.
pub open spec fn filtered(params: Seq<i32>, vector: Seq<i32>) -> int {
    let sum = num::wrap32(
        fixed_product(params[0] as int, vector[0] as int, 16) + fixed_product(
            params[1] as int,
            vector[1] as int,
            16,
        ) + fixed_product(params[2] as int, vector[2] as int, 16),
    );
    if sum < -0x8000 {
        -0x8000
    } else if sum > 0x7fff {
        0x7fff
    } else {
        sum
    }
}

/// Apply the filter taps to three inputs.
pub fn convolve(params: &[i32; 3], vector: &[i32; 3]) -> (r: i32)
    ensures
        r == filtered(params@, vector@),
        -0x8000 <= r <= 0x7fff,
{
    let t0: i32 = mul_fixed32_adapt(params[0], vector[0], MHCCP_DECIM_BITS);
    let t1: i32 = mul_fixed32_adapt(params[1], vector[1], MHCCP_DECIM_BITS);
    let t2: i32 = mul_fixed32_adapt(params[2], vector[2], MHCCP_DECIM_BITS);
    let sum: i32 = num::wrap_to_i32(t0 as i64 + t1 as i64 + t2 as i64);
    if sum < -0x8000 {
        -0x8000
    } else if sum > 0x7fff {
        0x7fff
    } else {
        sum
    }
}

/// `v` held in the sample range.
pub open spec fn clipped(v: int, bd: int) -> int {
    let top = pow2(bd as nat) - 1;
    if v < 0 {
        0
    } else if v > top {
        top
    } else {
        v
    }
}

/// Clip to the sample range of a bit depth.
pub fn clip_pixel_highbd(v: i32, bd: i32) -> (r: i32)
    requires
        0 <= bd < 31,
    ensures
        r == clipped(v as int, bd as int),
        0 <= r < pow2(bd as nat),
{
    proof {
        lemma2_to64();
        lemma_pow2_strictly_increases(bd as nat, 31);
        lemma_pow2_pos(bd as nat);
    }
    let top: i32 = num::pow2_u32(bd as u32) as i32 - 1;
    if v < 0 {
        0
    } else if v > top {
        top
    } else {
        v
    }
}

// ---------------------------------------------------------------------------
// Fit and prediction
// ---------------------------------------------------------------------------

/// Row distance of the reference buffers.
pub const MHCCP_REF_STRIDE: usize = 256;

/// Reference samples of one plane: the block itself, and the lines above and
/// to the left of it from which the filter is fitted. Luma is held in Q3.
pub struct MhccpRefBuf {
    pub data: Vec<i32>,
    pub ref_width: usize,
    pub ref_height: usize,
    pub above_lines: usize,
    pub left_lines: usize,
    /// Width of the block in chroma samples.
    pub width: usize,
    /// Height of the block in chroma samples.
    pub height: usize,
    /// The block touches the top of its superblock, so that only the nearest line
    /// above it can be read. The fit leaves out the rim of the area: of two lines
    /// above it reads the nearest alone, whether the flag is set or not.
    pub is_top_sb_boundary: bool,
}

impl MhccpRefBuf {
    /// The whole reference area lies in the buffer.
    pub open spec fn wf(&self) -> bool {
        &&& self.ref_width <= 256
        &&& self.ref_height * 256 <= self.data@.len()
        &&& self.ref_width * self.ref_height <= 0x2000_0000
    }

    /// A buffer of zeros.
    pub fn new(
        ref_width: usize,
        ref_height: usize,
        above_lines: usize,
        left_lines: usize,
        width: usize,
        height: usize,
        is_top_sb_boundary: bool,
    ) -> (buf: MhccpRefBuf)
        requires
            ref_height * 256 <= usize::MAX,
        ensures
            buf.data@ == Seq::new((ref_height * 256) as nat, |i: int| 0i32),
            buf.ref_width == ref_width,
            buf.ref_height == ref_height,
            buf.above_lines == above_lines,
            buf.left_lines == left_lines,
            buf.width == width,
            buf.height == height,
            buf.is_top_sb_boundary == is_top_sb_boundary,
    {
        let data: Vec<i32> = vec![0i32; ref_height * MHCCP_REF_STRIDE];
        assert(data@ =~= Seq::new((ref_height * 256) as nat, |i: int| 0i32));
        MhccpRefBuf {
            data,
            ref_width,
            ref_height,
            above_lines,
            left_lines,
            width,
            height,
            is_top_sb_boundary,
        }
    }

    /// Set the sample in column `x` of row `y`.
    pub fn set(&mut self, x: usize, y: usize, v: i32)
        requires
            y * 256 + x < old(self).data@.len(),
        ensures
            final(self).data@ == old(self).data@.update(y * 256 + x, v),
            final(self).ref_width == old(self).ref_width,
            final(self).ref_height == old(self).ref_height,
            final(self).above_lines == old(self).above_lines,
            final(self).left_lines == old(self).left_lines,
            final(self).width == old(self).width,
            final(self).height == old(self).height,
            final(self).is_top_sb_boundary == old(self).is_top_sb_boundary,
    {
        let len: usize = self.data.len();
        let at: usize = y * MHCCP_REF_STRIDE + x;
        self.data.set(at, v);
    }
}

/// Luma sample in Q0.
pub open spec fn luma_at(data: Seq<i32>, i: int, j: int) -> int {
    data[i + 256 * j] as int / 8
}

/// Luma tap of a filter direction: above for 1, left for 2, else the center.
pub open spec fn directed_luma(data: Seq<i32>, dir: u8, i: int, j: int) -> int {
    if dir == 1 {
        luma_at(data, i, j - 1)
    } else if dir == 2 {
        luma_at(data, i - 1, j)
    } else {
        luma_at(data, i, j)
    }
}

/// Input `t` of the filter at a reference position, in sixteen bits.
pub open spec fn reference_tap(data: Seq<i32>, dir: u8, bd: int, t: int, i: int, j: int) -> int {
    num::wrap16(
        if t == 0 {
            directed_luma(data, dir, i, j)
        } else if t == 1 {
            squared_tap(luma_at(data, i, j), middle(bd), bd)
        } else {
            middle(bd)
        },
    )
}

/// First factor of correlation `m`.
pub open spec fn left_factor(m: int) -> int {
    if m < 3 {
        0
    } else if m < 5 {
        1
    } else {
        2
    }
}

/// Second factor of correlation `m`.
pub open spec fn right_factor(m: int) -> int {
    if m < 3 {
        m
    } else if m < 5 {
        m - 2
    } else {
        2
    }
}

/// Contribution of a reference position to correlation `m`: for `m` below 6
/// the product of two taps, above it a tap times chroma.
pub open spec fn correlation_term(
    luma: Seq<i32>,
    chroma: Seq<i32>,
    dir: u8,
    bd: int,
    m: int,
    i: int,
    j: int,
) -> int {
    if m < 6 {
        reference_tap(luma, dir, bd, left_factor(m), i, j) * reference_tap(
            luma,
            dir,
            bd,
            right_factor(m),
            i,
            j,
        )
    } else {
        reference_tap(luma, dir, bd, m - 6, i, j) * chroma[i + 256 * j]
    }
}

/// Positions above or to the left of the block.
pub open spec fn is_reference(left: nat, above: nat, i: int, j: int) -> bool {
    i < left || j < above
}

/// Sum of `g` over the reference positions in the first `n` inner columns of row `j`.
pub open spec fn row_total(left: nat, above: nat, g: spec_fn(int, int) -> int, j: int, n: nat) -> int
    decreases n,
{
    if n == 0 {
        0
    } else {
        row_total(left, above, g, j, (n - 1) as nat) + if is_reference(left, above, n as int, j) {
            g(n as int, j)
        } else {
            0
        }
    }
}

/// Sum of `g` over the reference positions in the first `rows` inner rows, the
/// outermost columns and rows left out.
pub open spec fn reference_total(
    left: nat,
    above: nat,
    g: spec_fn(int, int) -> int,
    cols: nat,
    rows: nat,
) -> int
    decreases rows,
{
    if rows == 0 {
        0
    } else {
        reference_total(left, above, g, cols, (rows - 1) as nat) + row_total(
            left,
            above,
            g,
            rows as int,
            cols,
        )
    }
}

/// Rows or columns of the reference area without its rim.
pub open spec fn inner(n: nat) -> nat {
    if n < 2 {
        0
    } else {
        (n - 2) as nat
    }
}

/// Number of reference positions.
pub open spec fn reference_count(l: &MhccpRefBuf) -> int {
    reference_total(
        l.left_lines as nat,
        l.above_lines as nat,
        |i: int, j: int| 1,
        inner(l.ref_width as nat),
        inner(l.ref_height as nat),
    )
}

/// Correlation `m` over all reference positions, in 32 bits.
pub open spec fn correlation(l: &MhccpRefBuf, c: &MhccpRefBuf, dir: u8, bd: int, m: int) -> int {
    num::wrap32(
        reference_total(
            l.left_lines as nat,
            l.above_lines as nat,
            |i: int, j: int| correlation_term(l.data@, c.data@, dir, bd, m, i, j),
            inner(l.ref_width as nat),
            inner(l.ref_height as nat),
        ),
    )
}

/// The least `k` with `2^k >= n`.
pub open spec fn log2_up(n: int) -> int {
    if n < 2 {
        0
    } else {
        num::bitlen((n - 1) as nat) as int
    }
}

/// Bits by which the correlations are scaled before the equations are solved.
pub open spec fn correlation_shift(count: int, bd: int) -> int {
    22 - 2 * bd - log2_up(count)
}

/// `x * 2^shift` in 32 bits, or `x / 2^-shift` rounded down.
pub open spec fn rescaled(x: int, shift: int) -> int {
    if shift >= 0 {
        num::wrap32(x * pow2(shift as nat))
    } else {
        x / pow2((-shift) as nat) as int
    }
}

/// The normal equations of the fit, as an upper triangle and a right side.
pub open spec fn normal_equations(l: &MhccpRefBuf, c: &MhccpRefBuf, dir: u8, bd: int, m: int) -> int {
    rescaled(correlation(l, c, dir, bd, m), correlation_shift(reference_count(l), bd))
}

/// `ceil(log2 n)`, 0 for `n` below 2.
pub fn ceil_log2(n: i32) -> (k: i32)
    ensures
        k == log2_up(n as int),
        0 <= k <= 31,
{
    if n < 2 {
        0
    } else {
        proof {
            lemma2_to64();
            num::lemma_bitlen_upper((n - 1) as nat, 31);
        }
        num::bit_length((n - 1) as u32) as i32
    }
}

proof fn lemma_row_count(left: nat, above: nat, j: int, n: nat)
    ensures
        0 <= row_total(left, above, |i: int, k: int| 1, j, n) <= n,
    decreases n,
{
    if n > 0 {
        lemma_row_count(left, above, j, (n - 1) as nat);
    }
}

proof fn lemma_reference_count(left: nat, above: nat, cols: nat, rows: nat)
    ensures
        0 <= reference_total(left, above, |i: int, k: int| 1, cols, rows) <= cols * rows,
    decreases rows,
{
    if rows > 0 {
        lemma_reference_count(left, above, cols, (rows - 1) as nat);
        lemma_row_count(left, above, rows as int, cols);
        assert(cols * rows == cols * (rows - 1) + cols) by (nonlinear_arith)
            requires
                rows >= 1,
        ;
    } else {
        assert(cols * 0 == 0) by (nonlinear_arith);
    }
}

/// The three taps at a reference position.
fn taps_at(luma: &Vec<i32>, dir: u8, bd: i32, i: usize, j: usize) -> (t: [i32; 3])
    requires
        8 <= bd <= 12,
        1 <= i < 256,
        1 <= j,
        i + 256 * j < luma@.len(),
    ensures
        forall|k: int|
            0 <= k < 3 ==> #[trigger] t@[k] == reference_tap(
                luma@,
                dir,
                bd as int,
                k,
                i as int,
                j as int,
            ),
{
    let len: usize = luma.len();
    let at: usize = i + 256 * j;
    proof {
        lemma2_to64();
        lemma_pow2_strictly_increases((bd - 1) as nat, 12);
    }
    let mid: i32 = num::pow2_u32((bd - 1) as u32) as i32;
    let center: i32 = num::floor_shift(luma[at] as i64, 3) as i32;
    let directed: i32 = if dir == 1 {
        num::floor_shift(luma[at - 256] as i64, 3) as i32
    } else if dir == 2 {
        num::floor_shift(luma[at - 1] as i64, 3) as i32
    } else {
        center
    };
    let square: i32 = non_linear(center, mid, bd);
    [num::wrap_to_i16(directed), num::wrap_to_i16(square), num::wrap_to_i16(mid)]
}

/// Add the contribution of one reference position to the nine correlations.
fn add_position(sums: &mut Vec<i32>, taps: &[i32; 3], chroma: i32)
    requires
        old(sums)@.len() == 9,
        forall|k: int| 0 <= k < 3 ==> -0x8000 <= #[trigger] taps@[k] < 0x8000,
    ensures
        final(sums)@.len() == 9,
        forall|m: int|
            0 <= m < 9 ==> #[trigger] final(sums)@[m] == num::wrap32(
                old(sums)@[m] + if m < 6 {
                    taps@[left_factor(m)] * taps@[right_factor(m)]
                } else {
                    taps@[m - 6] * chroma
                },
            ),
{
    let ghost before = sums@;
    let mut m: usize = 0;
    while m < 9
        invariant
            m <= 9,
            sums@.len() == 9,
            before.len() == 9,
            forall|k: int| 0 <= k < 3 ==> -0x8000 <= #[trigger] taps@[k] < 0x8000,
            forall|k: int|
                0 <= k < m ==> #[trigger] sums@[k] == num::wrap32(
                    before[k] + if k < 6 {
                        taps@[left_factor(k)] * taps@[right_factor(k)]
                    } else {
                        taps@[k - 6] * chroma
                    },
                ),
            forall|k: int| m <= k < 9 ==> sums@[k] == before[k],
        decreases 9 - m,
    {
        let (x, y): (i64, i64) = if m < 6 {
            let a: usize = if m < 3 {
                0
            } else if m < 5 {
                1
            } else {
                2
            };
            let b: usize = if m < 3 {
                m
            } else if m < 5 {
                m - 2
            } else {
                2
            };
            assert(a == left_factor(m as int) && b == right_factor(m as int));
            (taps[a] as i64, taps[b] as i64)
        } else {
            (taps[m - 6] as i64, chroma as i64)
        };
        assert(-0x4000_0000_0000 <= x * y <= 0x4000_0000_0000) by (nonlinear_arith)
            requires
                -0x8000 <= x < 0x8000,
                -0x8000_0000 <= y < 0x8000_0000,
        ;
        let sum: i32 = num::wrap_to_i32(sums[m] as i64 + x * y);
        sums.set(m, sum);
        m = m + 1;
    }
}

/// The nine correlations over the reference area, and the number of positions.
fn correlate(l: &MhccpRefBuf, c: &MhccpRefBuf, dir: u8, bd: i32) -> (r: (Vec<i32>, usize))
    requires
        l.wf(),
        l.ref_height * 256 <= c.data@.len(),
        8 <= bd <= 12,
    ensures
        r.0@.len() == 9,
        forall|m: int| 0 <= m < 9 ==> #[trigger] r.0@[m] == correlation(l, c, dir, bd as int, m),
        r.1 == reference_count(l),
        r.1 <= 0x2000_0000,
{
    let ghost left = l.left_lines as nat;
    let ghost above = l.above_lines as nat;
    let ghost one = |i: int, j: int| 1int;
    let ghost b = bd as int;
    let ghost term = |m: int|
        (|i: int, j: int| correlation_term(l.data@, c.data@, dir, b, m, i, j));
    let llen: usize = l.data.len();
    let clen: usize = c.data.len();
    let cols: usize = if l.ref_width < 2 {
        0
    } else {
        l.ref_width - 2
    };
    let rows: usize = if l.ref_height < 2 {
        0
    } else {
        l.ref_height - 2
    };
    assert(cols * rows <= 0x2000_0000) by (nonlinear_arith)
        requires
            cols <= l.ref_width,
            rows <= l.ref_height,
            l.ref_width * l.ref_height <= 0x2000_0000,
    ;
    let mut sums: Vec<i32> = vec![0i32; 9];
    let mut count: usize = 0;
    let mut j: usize = 1;
    while j <= rows
        invariant
            1 <= j <= rows + 1,
            rows == inner(l.ref_height as nat),
            cols == inner(l.ref_width as nat),
            cols * rows <= 0x2000_0000,
            l.wf(),
            llen == l.data@.len(),
            clen == c.data@.len(),
            l.ref_height * 256 <= clen,
            8 <= bd <= 12,
            b == bd as int,
            left == l.left_lines as nat,
            above == l.above_lines as nat,
            one == (|i: int, j: int| 1int),
            term == (|m: int|
                (|i: int, j: int| correlation_term(l.data@, c.data@, dir, b, m, i, j))),
            sums@.len() == 9,
            count == reference_total(left, above, one, cols as nat, (j - 1) as nat),
            forall|m: int|
                0 <= m < 9 ==> #[trigger] sums@[m] == num::wrap32(
                    reference_total(left, above, term(m), cols as nat, (j - 1) as nat),
                ),
        decreases rows + 1 - j,
    {
        let ghost before = sums@;
        let ghost count0 = count as int;
        let mut i: usize = 1;
        proof {
            lemma_reference_count(left, above, cols as nat, (j - 1) as nat);
            assert(cols * (j - 1) + cols <= cols * rows) by (nonlinear_arith)
                requires
                    j <= rows,
                    cols >= 0,
            ;
            assert forall|m: int| 0 <= m < 9 implies #[trigger] sums@[m] == num::wrap32(
                reference_total(left, above, term(m), cols as nat, (j - 1) as nat) + row_total(
                    left,
                    above,
                    term(m),
                    j as int,
                    0,
                ),
            ) by {}
        }
        while i <= cols
            invariant
                1 <= i <= cols + 1,
                1 <= j <= rows,
                rows == inner(l.ref_height as nat),
                cols == inner(l.ref_width as nat),
                l.wf(),
                llen == l.data@.len(),
                clen == c.data@.len(),
                l.ref_height * 256 <= clen,
                8 <= bd <= 12,
                b == bd as int,
                left == l.left_lines as nat,
                above == l.above_lines as nat,
                one == (|i: int, j: int| 1int),
                term == (|m: int|
                    (|i: int, j: int| correlation_term(l.data@, c.data@, dir, b, m, i, j))),
                sums@.len() == 9,
                count0 + cols <= 0x2000_0000,
                count == count0 + row_total(left, above, one, j as int, (i - 1) as nat),
                forall|m: int|
                    0 <= m < 9 ==> #[trigger] sums@[m] == num::wrap32(
                        reference_total(left, above, term(m), cols as nat, (j - 1) as nat)
                            + row_total(left, above, term(m), j as int, (i - 1) as nat),
                    ),
            decreases cols + 1 - i,
        {
            proof {
                lemma_row_count(left, above, j as int, (i - 1) as nat);
                assert((|a: int, k: int| 1int) == one);
            }
            if i < l.left_lines || j < l.above_lines {
                let taps: [i32; 3] = taps_at(&l.data, dir, bd, i, j);
                let at: usize = i + 256 * j;
                let ghost prior = sums@;
                add_position(&mut sums, &taps, c.data[at]);
                count = count + 1;
                proof {
                    assert forall|m: int| 0 <= m < 9 implies #[trigger] sums@[m] == num::wrap32(
                        reference_total(left, above, term(m), cols as nat, (j - 1) as nat)
                            + row_total(left, above, term(m), j as int, i as nat),
                    ) by {
                        let base = reference_total(
                            left,
                            above,
                            term(m),
                            cols as nat,
                            (j - 1) as nat,
                        ) + row_total(left, above, term(m), j as int, (i - 1) as nat);
                        let add = term(m)(i as int, j as int);
                        assert(prior[m] == num::wrap32(base));
                        if m < 6 {
                            assert(taps@[left_factor(m)] == reference_tap(
                                l.data@,
                                dir,
                                b,
                                left_factor(m),
                                i as int,
                                j as int,
                            ));
                            assert(taps@[right_factor(m)] == reference_tap(
                                l.data@,
                                dir,
                                b,
                                right_factor(m),
                                i as int,
                                j as int,
                            ));
                        } else {
                            assert(taps@[m - 6] == reference_tap(
                                l.data@,
                                dir,
                                b,
                                m - 6,
                                i as int,
                                j as int,
                            ));
                        }
                        num::lemma_wrap32_add(base, add);
                    }
                }
            } else {
                proof {
                    assert forall|m: int| 0 <= m < 9 implies #[trigger] sums@[m] == num::wrap32(
                        reference_total(left, above, term(m), cols as nat, (j - 1) as nat)
                            + row_total(left, above, term(m), j as int, i as nat),
                    ) by {}
                }
            }
            i = i + 1;
        }
        proof {
            assert forall|m: int| 0 <= m < 9 implies #[trigger] sums@[m] == num::wrap32(
                reference_total(left, above, term(m), cols as nat, j as nat),
            ) by {}
        }
        j = j + 1;
    }
    proof {
        lemma_reference_count(left, above, cols as nat, rows as nat);
        assert((|i: int, j: int| 1int) == one);
        assert forall|m: int| 0 <= m < 9 implies #[trigger] sums@[m] == correlation(
            l,
            c,
            dir,
            b,
            m,
        ) by {
            assert(term(m) =~= (|i: int, j: int|
                correlation_term(l.data@, c.data@, dir, b, m, i, j)));
        }
    }
    (sums, count)
}

/// Scale a correlation.
fn rescale(x: i32, shift: i32) -> (r: i32)
    requires
        -31 <= shift <= 6,
    ensures
        r == rescaled(x as int, shift as int),
{
    proof {
        lemma2_to64();
    }
    if shift >= 0 {
        proof {
            if shift < 6 {
                lemma_pow2_strictly_increases(shift as nat, 6);
            }
            lemma_pow2_pos(shift as nat);
            assert(-0x40_0000_0000 <= x * pow2(shift as nat) <= 0x40_0000_0000) by (nonlinear_arith)
                requires
                    -0x8000_0000 <= x < 0x8000_0000,
                    0 <= pow2(shift as nat) <= 64,
            ;
        }
        num::wrap_to_i32(x as i64 * num::pow2_u32(shift as u32) as i64)
    } else {
        num::floor_shift(x as i64, (-shift) as u32) as i32
    }
}

/// Fit the filter taps to the reference area of a block. Without any reference
/// position the taps reproduce the middle of the sample range.
pub fn derive_params(l: &MhccpRefBuf, c: &MhccpRefBuf, dir: u8, bd: i32) -> (params: [i32; 3])
    requires
        l.wf(),
        l.ref_height * 256 <= c.data@.len(),
        8 <= bd <= 12,
    ensures
        reference_count(l) == 0 ==> params@ == seq![0i32, 0i32, 0x1_0000i32],
        reference_count(l) > 0 ==> exists|a: [[i32; 3]; 3], y: [i32; 3]|
            {
                &&& forall|m: int|
                    0 <= m < 6 ==> #[trigger] a@[left_factor(m)]@[right_factor(m)]
                        == normal_equations(l, c, dir, bd as int, m)
                &&& forall|t: int|
                    0 <= t < 3 ==> #[trigger] y@[t] == normal_equations(
                        l,
                        c,
                        dir,
                        bd as int,
                        t + 6,
                    )
                &&& params@ == #[trigger] solution(a, y, bd as int)
            },
{
    let (sums, count) = correlate(l, c, dir, bd);
    if count == 0 {
        let params: [i32; 3] = [0, 0, 0x1_0000];
        assert(params@ =~= seq![0i32, 0i32, 0x1_0000i32]);
        return params;
    }
    proof {
        lemma2_to64();
        num::lemma_bitlen_upper((count - 1) as nat, 29);
    }
    let shift: i32 = 22 - 2 * bd - ceil_log2(count as i32);
    let a: [[i32; 3]; 3] = [
        [rescale(sums[0], shift), rescale(sums[1], shift), rescale(sums[2], shift)],
        [0, rescale(sums[3], shift), rescale(sums[4], shift)],
        [0, 0, rescale(sums[5], shift)],
    ];
    let y: [i32; 3] = [rescale(sums[6], shift), rescale(sums[7], shift), rescale(sums[8], shift)];
    proof {
        assert forall|m: int| 0 <= m < 6 implies #[trigger] a@[left_factor(m)]@[right_factor(m)]
            == normal_equations(l, c, dir, bd as int, m) by {
            assert(sums@[m] == correlation(l, c, dir, bd as int, m));
            assert(m == 0 || m == 1 || m == 2 || m == 3 || m == 4 || m == 5);
        }
        assert forall|t: int| 0 <= t < 3 implies #[trigger] y@[t] == normal_equations(
            l,
            c,
            dir,
            bd as int,
            t + 6,
        ) by {
            assert(sums@[t + 6] == correlation(l, c, dir, bd as int, t + 6));
            assert(t == 0 || t == 1 || t == 2);
        }
    }
    let mut params: [i32; 3] = [0, 0, 0];
    gauss_elimination(&a, &y, bd, &mut params);
    params
}

/// Input of the filter at column `i` and row `j` of the block. At an edge of
/// the frame the missing neighbor is the center itself.
pub open spec fn block_tap(
    l: &MhccpRefBuf,
    dir: u8,
    have_top: bool,
    have_left: bool,
    i: int,
    j: int,
) -> int {
    let x = l.left_lines + i;
    let y = l.above_lines + j;
    if dir == 1 && (j > 0 || have_top) {
        luma_at(l.data@, x, y - 1)
    } else if dir == 2 && (i > 0 || have_left) {
        luma_at(l.data@, x - 1, y)
    } else {
        luma_at(l.data@, x, y)
    }
}

/// Predicted chroma sample at column `i` and row `j` of the block.
pub open spec fn predicted_sample(
    l: &MhccpRefBuf,
    params: Seq<i32>,
    dir: u8,
    have_top: bool,
    have_left: bool,
    bd: int,
    i: int,
    j: int,
) -> int {
    let center = luma_at(l.data@, l.left_lines + i, l.above_lines + j);
    let vector = seq![
        block_tap(l, dir, have_top, have_left, i, j) as i32,
        squared_tap(center, middle(bd), bd) as i32,
        middle(bd) as i32,
    ];
    clipped(filtered(params, vector), bd)
}

/// Sample `p` of a predicted block, row by row.
pub open spec fn predicted_at(
    l: &MhccpRefBuf,
    params: Seq<i32>,
    dir: u8,
    have_top: bool,
    have_left: bool,
    bd: int,
    p: int,
) -> int {
    predicted_sample(
        l,
        params,
        dir,
        have_top,
        have_left,
        bd,
        p % l.width as int,
        p / l.width as int,
    )
}

/// The block lies in the buffer, and so do the lines next to it where there are
/// any. Positions are counted in 32 bits.
pub open spec fn block_in_buffer(l: &MhccpRefBuf, have_top: bool, have_left: bool) -> bool {
    l.width > 0 && l.height > 0 ==> {
        let end = (l.above_lines + l.height - 1) * 256 + l.left_lines + l.width;
        &&& end <= l.data@.len()
        &&& end <= i32::MAX
        &&& have_top ==> l.above_lines >= 1
        &&& have_left ==> l.left_lines >= 1 || l.above_lines >= 1
    }
}

/// Predict a chroma block from the luma reference buffer with fitted taps.
pub fn predict_block(
    l: &MhccpRefBuf,
    params: &[i32; 3],
    dir: u8,
    have_top: bool,
    have_left: bool,
    bd: i32,
    out: &mut Vec<i32>,
)
    requires
        8 <= bd <= 12,
        block_in_buffer(l, have_top, have_left),
        old(out)@.len() >= l.width * l.height,
    ensures
        final(out)@.len() == old(out)@.len(),
        forall|p: int|
            0 <= p < l.width * l.height ==> #[trigger] final(out)@[p] == predicted_at(
                l,
                params@,
                dir,
                have_top,
                have_left,
                bd as int,
                p,
            ),
        forall|p: int|
            l.width * l.height <= p < old(out)@.len() ==> final(out)@[p] == old(out)@[p],
{
    let len: usize = l.data.len();
    let olen: usize = out.len();
    proof {
        lemma2_to64();
        lemma_pow2_strictly_increases((bd - 1) as nat, 12);
    }
    let mid: i32 = num::pow2_u32((bd - 1) as u32) as i32;
    let total: usize = l.width * l.height;
    let ghost before = out@;
    let mut p: usize = 0;
    while p < total
        invariant
            p <= total,
            total == l.width * l.height,
            8 <= bd <= 12,
            mid == middle(bd as int),
            len == l.data@.len(),
            olen == out@.len(),
            olen == before.len(),
            total <= olen,
            block_in_buffer(l, have_top, have_left),
            forall|q: int|
                0 <= q < p ==> #[trigger] out@[q] == predicted_sample(
                    l,
                    params@,
                    dir,
                    have_top,
                    have_left,
                    bd as int,
                    q % l.width as int,
                    q / l.width as int,
                ),
            forall|q: int| p <= q < olen ==> out@[q] == before[q],
        decreases total - p,
    {
        proof {
            if l.width == 0 {
                assert(l.width * l.height == 0) by (nonlinear_arith)
                    requires
                        l.width == 0,
                ;
            }
            crate::plane::lemma_block_pos(p as int, l.width as int, l.height as int);
        }
        let i: usize = p % l.width;
        let j: usize = p / l.width;
        let at: usize = (l.above_lines + j) * 256 + l.left_lines + i;
        let center: i32 = num::floor_shift(l.data[at] as i64, 3) as i32;
        let tap: i32 = if dir == 1 && (j > 0 || have_top) {
            num::floor_shift(l.data[at - 256] as i64, 3) as i32
        } else if dir == 2 && (i > 0 || have_left) {
            num::floor_shift(l.data[at - 1] as i64, 3) as i32
        } else {
            center
        };
        let square: i32 = non_linear(center, mid, bd);
        let vector: [i32; 3] = [tap, square, mid];
        let value: i32 = clip_pixel_highbd(convolve(params, &vector), bd);
        proof {
            lemma2_to64();
            assert(tap == block_tap(l, dir, have_top, have_left, i as int, j as int));
            assert(vector@ =~= seq![
                block_tap(l, dir, have_top, have_left, i as int, j as int) as i32,
                squared_tap(center as int, middle(bd as int), bd as int) as i32,
                middle(bd as int) as i32,
            ]);
        }
        out.set(p, value);
        p = p + 1;
    }
}

/// Predicted samples stay within the sample range.
pub proof fn law_prediction_in_range(
    l: &MhccpRefBuf,
    params: Seq<i32>,
    dir: u8,
    have_top: bool,
    have_left: bool,
    bd: int,
    i: int,
    j: int,
)
    requires
        bd >= 0,
    ensures
        0 <= predicted_sample(l, params, dir, have_top, have_left, bd, i, j) < pow2(bd as nat),
{
    lemma_pow2_pos(bd as nat);
}

/// The taps that stand for a missing reference predict the middle of the
/// sample range everywhere.
pub proof fn law_no_reference_predicts_the_middle(
    l: &MhccpRefBuf,
    dir: u8,
    have_top: bool,
    have_left: bool,
    bd: int,
    i: int,
    j: int,
)
    requires
        8 <= bd <= 12,
    ensures
        predicted_sample(l, seq![0i32, 0i32, 0x1_0000i32], dir, have_top, have_left, bd, i, j)
            == middle(bd),
{
    lemma2_to64();
    let params = seq![0i32, 0i32, 0x1_0000i32];
    let mid = middle(bd);
    lemma_pow2_strictly_increases((bd - 1) as nat, 12);
    lemma_pow2_strictly_increases((bd - 1) as nat, bd as nat);
    lemma_pow2_pos((bd - 1) as nat);
    let center = luma_at(l.data@, l.left_lines + i, l.above_lines + j);
    let v0 = block_tap(l, dir, have_top, have_left, i, j) as i32;
    let v1 = squared_tap(center, mid, bd) as i32;
    lemma_zero_product(v0 as int);
    lemma_zero_product(v1 as int);
    // 17 bits times at most 12 bits fit without loss
    num::lemma_bitlen_lower(0x1_0000, 16);
    num::lemma_bitlen_upper(0x1_0000, 17);
    num::lemma_bitlen_upper(mid as nat, 12);
    assert(dropped_bits(0x1_0000, mid) == 0);
    lemma_div_basics(0x1_0000);
    lemma_div_basics(mid);
    assert(0x1_0000int / 1 == 0x1_0000);
    assert(mid / 1 == mid);
    assert(adapted_product(0x1_0000, mid) == 0x1_0000 * mid);
    assert(fixed_product(0x1_0000, mid, 16) == (0x1_0000 * mid + 0x8000) / 0x1_0000);
    assert((0x1_0000 * mid + 0x8000) / 0x1_0000 == mid);
}

proof fn lemma_zero_product(v: int)
    requires
        -0x8000_0000 <= v < 0x8000_0000,
    ensures
        fixed_product(0, v, 16) == 0,
{
    lemma2_to64();
    lemma_magnitude_bits(v);
    assert(num::bitlen(0) == 0);
    let drop = dropped_bits(0, v);
    let s1 = drop / 2;
    lemma_pow2_pos(s1);
    lemma_div_basics(pow2(s1) as int);
    assert(0int / pow2(s1) as int == 0);
    let y = v / pow2((drop - s1) as nat) as int;
    assert(0 * y == 0);
    let rest = (16 - drop) as nat;
    if rest > 0 {
        lemma_pow2_unfold(rest);
        lemma_pow2_pos((rest - 1) as nat);
        let h = pow2((rest - 1) as nat) as int;
        assert(h / (2 * h) == 0) by (nonlinear_arith)
            requires
                h > 0,
        ;
    }
}

// ---------------------------------------------------------------------------
// What the arithmetic is
// ---------------------------------------------------------------------------

/// A rounding shift takes the number nearest to the quotient, and of two the one away
/// from zero, so that it does not prefer a sign.
pub proof fn law_rounding_shift_is_nearest(p: int, k: nat)
    requires
        k >= 1,
    ensures
        ({
            let (r, one) = (round_shift(p, k), pow2(k) as int);
            &&& 2 * p - one <= 2 * one * r <= 2 * p + one
            &&& p > 0 ==> 2 * p - one < 2 * one * r
            &&& p < 0 ==> 2 * one * r < 2 * p + one
            &&& round_shift(-p, k) == -r
        }),
{
    lemma_pow2_pos(k);
    lemma_pow2_unfold(k);
    let (one, half) = (pow2(k) as int, pow2((k - 1) as nat) as int);
    let m = if p >= 0 {
        p
    } else {
        -p
    };
    let q = (m + half) / one;
    vstd::arithmetic::div_mod::lemma_fundamental_div_mod(m + half, one);
    assert(2 * one * q <= 2 * m + one && 2 * m - one < 2 * one * q) by (nonlinear_arith)
        requires
            m + half == one * q + (m + half) % one,
            0 <= (m + half) % one < one,
            one == 2 * half,
    ;
    assert(2 * one * (-q) == -(2 * one * q)) by (nonlinear_arith);
    if p == 0 {
        assert(half / one == 0) by (nonlinear_arith)
            requires
                0 <= half < one,
        ;
    }
}

/// Products of factors below 2^14 and 2^15 lose nothing: shifted down they are the
/// product rounded to nearest, and without a shift the product itself.
pub proof fn law_small_products_are_exact(a: int, b: int, shift: int)
    requires
        -0x4000 < a < 0x4000,
        -0x8000 < b < 0x8000,
        shift <= 29,
    ensures
        shift <= 0 ==> fixed_product(a, b, shift) == a * b,
        shift > 0 ==> fixed_product(a, b, shift) == round_shift(a * b, shift as nat),
{
    lemma2_to64();
    num::lemma_bitlen_upper(magnitude(a), 14);
    num::lemma_bitlen_upper(magnitude(b), 15);
    assert(dropped_bits(a, b) == 0);
    vstd::arithmetic::div_mod::lemma_div_basics(a);
    vstd::arithmetic::div_mod::lemma_div_basics(b);
}

/// The logarithm of a denominator is that of the power of two at or below it, and
/// its rounding term half of that power.
pub proof fn law_denominator_is_split_at_its_power(d: nat)
    requires
        d >= 1,
    ensures
        pow2(floor_log2(d)) <= d < 2 * pow2(floor_log2(d)),
        d == 1 ==> division_round(d) == 0,
        d > 1 ==> 2 * division_round(d) == pow2(floor_log2(d)),
{
    lemma2_to64();
    num::lemma_bitlen_bounds(d);
    lemma_pow2_unfold(num::bitlen(d));
    if d > 1 {
        num::lemma_bitlen_lower(d, 1);
        lemma_pow2_unfold(floor_log2(d));
    } else {
        num::lemma_bitlen_upper(d, 1);
    }
}

/// A denominator below 2^15 is brought to 15 bits without loss.
pub proof fn law_small_denominators_are_kept(d: nat)
    requires
        1 <= d < 0x8000,
    ensures
        0x4000 <= normalized_denominator(d) < 0x8000,
        normalized_denominator(d) * pow2(floor_log2(d)) == d * 0x4000,
{
    lemma2_to64();
    num::lemma_bitlen_bounds(d);
    num::lemma_bitlen_upper(d, 15);
    let k = floor_log2(d);
    lemma_pow2_unfold(num::bitlen(d));
    lemma_pow2_adds((14 - k) as nat, k);
    let (p, q) = (pow2(k) as int, pow2((14 - k) as nat) as int);
    assert(d * q * p == d * (q * p)) by (nonlinear_arith);
    assert(0x4000 <= d * q < 0x8000) by (nonlinear_arith)
        requires
            p <= d < 2 * p,
            q * p == 0x4000,
            q >= 1,
            p >= 1,
    ;
}

/// The system of equations is symmetric: both entries off the diagonal come from the
/// upper half, the diagonal is raised by twice the step of the bit depth, and the
/// last column is the right side.
pub proof fn law_system_is_symmetric(a: [[i32; 3]; 3], y: [i32; 3], bd: int, r: int, k: int)
    requires
        0 <= r < 3,
        0 <= k < 3,
    ensures
        ({
            let c = system_matrix(a, y, bd);
            &&& c.len() == 12
            &&& c[4 * r + 3] == y@[r]
            &&& r < k ==> c[4 * r + k] == a@[r]@[k] && c[4 * k + r] == a@[r]@[k]
            &&& a@[r]@[r] + 2 * pow2((bd - 8) as nat) <= i32::MAX ==> c[4 * r + r] == a@[r]@[r] + 2
                * pow2((bd - 8) as nat)
        }),
{
    lemma_pow2_pos((bd - 8) as nat);
    assert((4 * r + 3) / 4 == r && (4 * r + 3) % 4 == 3);
    assert((4 * r + k) / 4 == r && (4 * r + k) % 4 == k);
    assert((4 * k + r) / 4 == k && (4 * k + r) % 4 == r);
    assert((4 * r + r) / 4 == r && (4 * r + r) % 4 == r);
}

/// Elimination takes the multiple of the pivot row from each row below that its own
/// entry in the pivot column asks for, in 32 bits, and leaves the rows above and the
/// columns up to the pivot.
pub proof fn law_elimination_subtracts_the_pivot_row(c: Seq<i32>, i: int, r: int, k: int)
    requires
        c.len() == 12,
        0 <= i < 3,
        0 <= r < 3,
        0 <= k < 4,
    ensures
        ({
            let e = eliminate(c, i);
            &&& e.len() == 12
            &&& r < i || k <= i ==> e[4 * r + k] == c[4 * r + k]
            &&& r > i && k > i ==> (e[4 * r + k] + fixed_product(
                c[4 * r + i] as int,
                pivoted(c, i, k),
                16,
            ) - c[4 * r + k]) % 0x1_0000_0000 == 0
        }),
{
    assert((4 * r + k) / 4 == r && (4 * r + k) % 4 == k);
    if r > i && k > i {
        let x = c[4 * r + k] - fixed_product(c[4 * r + i] as int, pivoted(c, i, k), 16);
        lemma_wrap_congruent(x);
        assert(eliminate(c, i)[4 * r + k] == num::wrap32(x) as i32);
    }
}

proof fn lemma_wrap_congruent(x: int)
    ensures
        i32::MIN <= num::wrap32(x) <= i32::MAX,
        (num::wrap32(x) - x) % 0x1_0000_0000 == 0,
{
    let m = x % 0x1_0000_0000;
    let q = x / 0x1_0000_0000;
    assert(x == 0x1_0000_0000 * q + m);
    if m >= 0x8000_0000 {
        assert(num::wrap32(x) - x == 0x1_0000_0000 * (-q - 1));
    } else {
        assert(num::wrap32(x) - x == 0x1_0000_0000 * (-q));
    }
}

/// Back substitution solves the triangle: put into each row, the values give its
/// right side, in 32 bits.
pub proof fn law_back_substitution_solves_the_triangle(c: Seq<i32>)
    requires
        c.len() == 12,
    ensures
        ({
            let x = back_substituted(c);
            &&& x.len() == 3
            &&& x[2] == c[11]
            &&& (x[1] + fixed_product(c[6] as int, x[2] as int, 16) - c[7]) % 0x1_0000_0000 == 0
            &&& (x[0] + fixed_product(c[1] as int, x[1] as int, 16) + fixed_product(
                c[2] as int,
                x[2] as int,
                16,
            ) - c[3]) % 0x1_0000_0000 == 0
        }),
{
    let x = back_substituted(c);
    let u = c[7] - fixed_product(c[6] as int, x[2] as int, 16);
    lemma_wrap_congruent(u);
    let v = c[3] - fixed_product(c[1] as int, x[1] as int, 16) - fixed_product(
        c[2] as int,
        x[2] as int,
        16,
    );
    lemma_wrap_congruent(v);
    assert(x[1] - u == x[1] + fixed_product(c[6] as int, x[2] as int, 16) - c[7]);
}

/// The square of a sample is brought back to the range of samples, rounded to
/// nearest.
pub proof fn law_squares_are_scaled_to_samples(v: int, bd: int)
    requires
        8 <= bd <= 12,
        0 <= v < pow2(bd as nat),
    ensures
        ({
            let (s, one) = (squared_tap(v, middle(bd), bd), pow2(bd as nat) as int);
            2 * v * v - one < 2 * one * s <= 2 * v * v + one
        }),
{
    lemma2_to64();
    lemma_pow2_unfold(bd as nat);
    let (one, mid) = (pow2(bd as nat) as int, middle(bd));
    assert(256 <= one <= 4096) by {
        if bd > 8 {
            lemma_pow2_strictly_increases(8, bd as nat);
        }
        if bd < 12 {
            lemma_pow2_strictly_increases(bd as nat, 12);
        }
    }
    assert(0 <= v * v < 0x100_0000) by (nonlinear_arith)
        requires
            0 <= v < 4096,
    ;
    let s = (v * v + mid) / one;
    vstd::arithmetic::div_mod::lemma_fundamental_div_mod(v * v + mid, one);
    assert(2 * v * v == 2 * (v * v)) by (nonlinear_arith);
    assert(2 * one * s == 2 * (one * s)) by (nonlinear_arith);
}

/// Each parameter weighs its own tap: one in sixteen fractional bits and zero for the
/// others gives that tap back.
pub proof fn law_parameters_weigh_their_taps(params: Seq<i32>, vector: Seq<i32>, t: int)
    requires
        params.len() == 3,
        vector.len() == 3,
        0 <= t < 3,
        forall|i: int|
            0 <= i < 3 ==> #[trigger] params[i] == if i == t {
                0x1_0000i32
            } else {
                0i32
            },
        forall|i: int| 0 <= i < 3 ==> -0x1000 < #[trigger] vector[i] < 0x1000,
    ensures
        filtered(params, vector) == vector[t],
{
    lemma_unit_product(vector[0] as int);
    lemma_unit_product(vector[1] as int);
    lemma_unit_product(vector[2] as int);
    lemma_zero_product(vector[0] as int);
    lemma_zero_product(vector[1] as int);
    lemma_zero_product(vector[2] as int);
    assert(params[0] == 0 || params[0] == 0x1_0000);
    assert(params[1] == 0 || params[1] == 0x1_0000);
    assert(params[2] == 0 || params[2] == 0x1_0000);
}

proof fn lemma_unit_product(v: int)
    requires
        -0x1000 < v < 0x1000,
    ensures
        fixed_product(0x1_0000, v, 16) == v,
{
    lemma2_to64();
    num::lemma_bitlen_upper(0x1_0000, 17);
    num::lemma_bitlen_upper(magnitude(v), 12);
    assert(dropped_bits(0x1_0000, v) == 0);
    vstd::arithmetic::div_mod::lemma_div_basics(0x1_0000);
    vstd::arithmetic::div_mod::lemma_div_basics(v);
    let p = adapted_product(0x1_0000, v);
    assert(p == 0x1_0000 * v);
    assert(pow2(16) == 0x1_0000 && pow2(15) == 0x8000);
    if v >= 0 {
        assert((p + 0x8000) / 0x1_0000 == v);
    } else {
        assert((-p + 0x8000) / 0x1_0000 == -v);
    }
}

/// The six products of taps are the pairs of a symmetric matrix, row by row.
pub proof fn law_products_fill_the_upper_half(m: int, n: int)
    requires
        0 <= m < 6,
        0 <= n < 6,
    ensures
        0 <= left_factor(m) <= right_factor(m) < 3,
        left_factor(m) == left_factor(n) && right_factor(m) == right_factor(n) ==> m == n,
        m < n ==> left_factor(m) < left_factor(n) || right_factor(m) < right_factor(n),
{
}

/// A block looks at the luma sample at its own place, or one above or one to the left
/// of it by its direction, and at its own place where there is none.
pub proof fn law_directions_look_at_their_neighbor(
    l: &MhccpRefBuf,
    have_top: bool,
    have_left: bool,
    i: int,
    j: int,
)
    requires
        i >= 0,
        j >= 0,
    ensures
        ({
            let (x, y) = (l.left_lines + i, l.above_lines + j);
            let at = |x: int, y: int| l.data@[256 * y + x] as int / 8;
            &&& block_tap(l, 0, have_top, have_left, i, j) == at(x, y)
            &&& j > 0 || have_top ==> block_tap(l, 1, have_top, have_left, i, j) == at(x, y - 1)
            &&& j == 0 && !have_top ==> block_tap(l, 1, have_top, have_left, i, j) == at(x, y)
            &&& i > 0 || have_left ==> block_tap(l, 2, have_top, have_left, i, j) == at(x - 1, y)
            &&& i == 0 && !have_left ==> block_tap(l, 2, have_top, have_left, i, j) == at(x, y)
            &&& directed_luma(l.data@, 0, x, y) == at(x, y)
            &&& directed_luma(l.data@, 1, x, y) == at(x, y - 1)
            &&& directed_luma(l.data@, 2, x, y) == at(x - 1, y)
        }),
{
}

/// Without lines around a block there is nothing to learn from.
pub proof fn law_no_lines_no_references(
    left: nat,
    above: nat,
    g: spec_fn(int, int) -> int,
    cols: nat,
    rows: nat,
)
    requires
        left <= 1,
        above <= 1,
    ensures
        reference_total(left, above, g, cols, rows) == 0,
    decreases rows,
{
    if rows > 0 {
        law_no_lines_no_references(left, above, g, cols, (rows - 1) as nat);
        lemma_empty_row(left, above, g, rows as int, cols);
    }
}

proof fn lemma_empty_row(left: nat, above: nat, g: spec_fn(int, int) -> int, j: int, n: nat)
    requires
        left <= 1,
        above <= 1,
        j >= 1,
    ensures
        row_total(left, above, g, j, n) == 0,
    decreases n,
{
    if n > 0 {
        lemma_empty_row(left, above, g, j, (n - 1) as nat);
    }
}

/// Every line around a block counts in full: with as many lines to the left as there
/// are columns each position of the reference area is one.
pub proof fn law_full_lines_count_every_position(
    left: nat,
    above: nat,
    cols: nat,
    rows: nat,
)
    requires
        left > cols,
    ensures
        reference_total(left, above, |i: int, j: int| 1, cols, rows) == cols * rows,
    decreases rows,
{
    if rows > 0 {
        law_full_lines_count_every_position(left, above, cols, (rows - 1) as nat);
        lemma_full_row(left, above, rows as int, cols);
        assert(cols * rows == cols * (rows - 1) + cols) by (nonlinear_arith);
    } else {
        assert(cols * rows == 0) by (nonlinear_arith)
            requires
                rows == 0,
        ;
    }
}

proof fn lemma_full_row(left: nat, above: nat, j: int, n: nat)
    requires
        left > n,
    ensures
        row_total(left, above, |i: int, j: int| 1, j, n) == n,
    decreases n,
{
    if n > 0 {
        lemma_full_row(left, above, j, (n - 1) as nat);
    }
}

/// A predicted block is written row by row, and its sample in column `i` of row `j`
/// is what the parameters make of the luma there: the one that the direction looks
/// at, the square of its own, and the middle value.
pub proof fn law_blocks_are_predicted_by_rows(
    l: &MhccpRefBuf,
    params: Seq<i32>,
    dir: u8,
    have_top: bool,
    have_left: bool,
    bd: int,
    i: int,
    j: int,
)
    requires
        0 <= i < l.width,
        0 <= j,
    ensures
        ({
            let own = l.data@[256 * (l.above_lines + j) + l.left_lines + i] as int / 8;
            let mid = pow2((bd - 1) as nat) as int;
            predicted_at(l, params, dir, have_top, have_left, bd, j * l.width + i) == clipped(
                filtered(
                    params,
                    seq![
                        block_tap(l, dir, have_top, have_left, i, j) as i32,
                        squared_tap(own, mid, bd) as i32,
                        mid as i32,
                    ],
                ),
                bd,
            )
        }),
{
    vstd::arithmetic::div_mod::lemma_fundamental_div_mod_converse(
        j * l.width + i,
        l.width as int,
        j,
        i,
    );
}

proof fn lemma_zero_times(v: int, shift: int)
    ensures
        fixed_product(0, v, shift) == 0,
{
    lemma2_to64();
    assert(num::bitlen(0) == 0);
    let drop = dropped_bits(0, v);
    let s1 = drop / 2;
    lemma_pow2_pos(s1);
    lemma_div_basics(pow2(s1) as int);
    assert(0int / pow2(s1) as int == 0);
    let y = v / pow2((drop - s1) as nat) as int;
    assert(0 * y == 0);
    let rest = shift - drop;
    if rest > 0 {
        lemma_pow2_unfold(rest as nat);
        lemma_pow2_pos((rest - 1) as nat);
        let h = pow2((rest - 1) as nat) as int;
        assert(h / (2 * h) == 0) by (nonlinear_arith)
            requires
                h > 0,
        ;
    }
}

/// The three taps of a reference position: the luma that the direction looks at, the
/// square of its own luma, and the middle value.
pub proof fn law_taps_of_a_position(data: Seq<i32>, dir: u8, bd: int, i: int, j: int)
    requires
        8 <= bd <= 12,
        0 <= directed_luma(data, dir, i, j) < pow2(bd as nat),
        0 <= data[i + 256 * j] as int / 8 < pow2(bd as nat),
    ensures
        ({
            let own = data[i + 256 * j] as int / 8;
            let one = pow2(bd as nat) as int;
            let s = reference_tap(data, dir, bd, 1, i, j);
            &&& reference_tap(data, dir, bd, 0, i, j) == directed_luma(data, dir, i, j)
            &&& 2 * own * own - one < 2 * one * s <= 2 * own * own + one
            &&& 2 * reference_tap(data, dir, bd, 2, i, j) == one
        }),
{
    lemma2_to64();
    lemma_pow2_unfold(bd as nat);
    let (one, mid) = (pow2(bd as nat) as int, middle(bd));
    assert(256 <= one <= 4096) by {
        if bd > 8 {
            lemma_pow2_strictly_increases(8, bd as nat);
        }
        if bd < 12 {
            lemma_pow2_strictly_increases(bd as nat, 12);
        }
    }
    let own = luma_at(data, i, j);
    law_squares_are_scaled_to_samples(own, bd);
    let s = squared_tap(own, mid, bd);
    assert(0 <= s <= 4096) by (nonlinear_arith)
        requires
            2 * own * own - one < 2 * one * s <= 2 * own * own + one,
            0 <= own < one,
            256 <= one <= 4096,
    ;
    num::law_wrapping_keeps_what_fits(directed_luma(data, dir, i, j));
    num::law_wrapping_keeps_what_fits(s);
    num::law_wrapping_keeps_what_fits(mid);
}

/// A correlation is the product of two taps, or of a tap and the chroma there.
pub proof fn law_correlations_are_products(
    luma: Seq<i32>,
    chroma: Seq<i32>,
    dir: u8,
    bd: int,
    a: int,
    b: int,
    i: int,
    j: int,
)
    requires
        0 <= a <= b < 3,
    ensures
        ({
            let m = if a == 0 {
                b
            } else if a == 1 {
                b + 2
            } else {
                5
            };
            let tap = |t: int| reference_tap(luma, dir, bd, t, i, j);
            &&& correlation_term(luma, chroma, dir, bd, m, i, j) == tap(a) * tap(b)
            &&& correlation_term(luma, chroma, dir, bd, 6 + a, i, j) == tap(a) * chroma[i + 256
                * j]
        }),
{
}

/// Sums over the references take every position of the area that lies in the lines to
/// the left or above, once: a term that is zero everywhere else is the sum.
pub proof fn law_sums_take_each_reference_once(
    left: nat,
    above: nat,
    g: spec_fn(int, int) -> int,
    cols: nat,
    rows: nat,
    a: int,
    b: int,
)
    requires
        1 <= a <= cols,
        1 <= b <= rows,
        forall|i: int, j: int| !(i == a && j == b) ==> #[trigger] g(i, j) == 0,
    ensures
        reference_total(left, above, g, cols, rows) == if a < left || b < above {
            g(a, b)
        } else {
            0
        },
    decreases rows,
{
    lemma_single_row(left, above, g, rows as int, cols, a, b);
    if b < rows {
        law_sums_take_each_reference_once(left, above, g, cols, (rows - 1) as nat, a, b);
    } else {
        lemma_no_rows(left, above, g, cols, (rows - 1) as nat, a, b);
    }
}

proof fn lemma_no_rows(
    left: nat,
    above: nat,
    g: spec_fn(int, int) -> int,
    cols: nat,
    rows: nat,
    a: int,
    b: int,
)
    requires
        b > rows,
        forall|i: int, j: int| !(i == a && j == b) ==> #[trigger] g(i, j) == 0,
    ensures
        reference_total(left, above, g, cols, rows) == 0,
    decreases rows,
{
    if rows > 0 {
        lemma_no_rows(left, above, g, cols, (rows - 1) as nat, a, b);
        lemma_single_row(left, above, g, rows as int, cols, a, b);
    }
}

proof fn lemma_single_row(
    left: nat,
    above: nat,
    g: spec_fn(int, int) -> int,
    j: int,
    n: nat,
    a: int,
    b: int,
)
    requires
        forall|i: int, j: int| !(i == a && j == b) ==> #[trigger] g(i, j) == 0,
    ensures
        row_total(left, above, g, j, n) == if j == b && 1 <= a <= n && (a < left || b < above) {
            g(a, b)
        } else {
            0
        },
    decreases n,
{
    if n > 0 {
        lemma_single_row(left, above, g, j, (n - 1) as nat, a, b);
        assert(!(n as int == a && j == b) ==> g(n as int, j) == 0);
    }
}

/// Sums are scaled to a fixed number of bits: by 22 less twice the bit depth and the
/// logarithm of their count, up by powers of two, or down with the rest cut off.
pub proof fn law_sums_are_scaled_by_their_count(x: int, count: int, bd: int)
    requires
        count >= 1,
    ensures
        ({
            let k = log2_up(count);
            let s = correlation_shift(count, bd);
            let r = rescaled(x, s);
            &&& 0 <= k && count <= pow2(k as nat)
            &&& k > 0 ==> pow2((k - 1) as nat) < count
            &&& s + 2 * bd + k == 22
            &&& s >= 0 && -0x8000_0000 <= x * pow2(s as nat) < 0x8000_0000 ==> r == x * pow2(
                s as nat,
            )
            &&& s < 0 ==> r * pow2((-s) as nat) <= x < (r + 1) * pow2((-s) as nat)
        }),
{
    lemma2_to64();
    let s = correlation_shift(count, bd);
    if count >= 2 {
        num::lemma_bitlen_bounds((count - 1) as nat);
    }
    if s >= 0 {
        num::law_wrapping_keeps_what_fits(x * pow2(s as nat));
    } else {
        let p = pow2((-s) as nat) as int;
        lemma_pow2_pos((-s) as nat);
        vstd::arithmetic::div_mod::lemma_fundamental_div_mod(x, p);
        let r = x / p;
        assert(r * p <= x < (r + 1) * p) by (nonlinear_arith)
            requires
                x == p * r + x % p,
                0 <= x % p < p,
        ;
    }
}

/// A system whose equations share nothing is solved equation by equation: each right
/// side over its own raised diagonal.
pub proof fn law_separate_equations_are_solved_apart(
    a: [[i32; 3]; 3],
    y: [i32; 3],
    bd: int,
    r: int,
)
    requires
        8 <= bd <= 12,
        a@[0]@[1] == 0,
        a@[0]@[2] == 0,
        a@[1]@[2] == 0,
        0 <= r < 3,
        -0x4000_0000 <= a@[0]@[0] <= 0x4000_0000,
        -0x4000_0000 <= a@[1]@[1] <= 0x4000_0000,
        -0x4000_0000 <= a@[2]@[2] <= 0x4000_0000,
    ensures
        ({
            let raised = a@[r]@[r] + 2 * pow2((bd - 8) as nat);
            let size = if raised < 0 {
                -raised
            } else {
                raised
            };
            let d = if size < 1 {
                1nat
            } else {
                size as nat
            };
            solution(a, y, bd)[r] == fixed_product(
                y@[r] as int,
                division_scale(d),
                floor_log2(d) as int,
            ) as i32
        }),
{
    lemma_system_apart(a, y, bd);
    let c = system_matrix(a, y, bd);
    lemma_solve_apart(c);
    assert(c[4 * r + r] == c[5 * r]);
    assert(pivoted(c, r, 3) == fixed_product(
        y@[r] as int,
        division_scale(pivot(c, r)),
        floor_log2(pivot(c, r)) as int,
    ));
}

proof fn lemma_system_apart(a: [[i32; 3]; 3], y: [i32; 3], bd: int)
    requires
        8 <= bd <= 12,
        a@[0]@[1] == 0,
        a@[0]@[2] == 0,
        a@[1]@[2] == 0,
        -0x4000_0000 <= a@[0]@[0] <= 0x4000_0000,
        -0x4000_0000 <= a@[1]@[1] <= 0x4000_0000,
        -0x4000_0000 <= a@[2]@[2] <= 0x4000_0000,
    ensures
        ({
            let c = system_matrix(a, y, bd);
            let raise = 2 * pow2((bd - 8) as nat);
            &&& apart(c)
            &&& c[3] == y@[0] && c[7] == y@[1] && c[11] == y@[2]
            &&& c[0] == a@[0]@[0] + raise && c[5] == a@[1]@[1] + raise && c[10] == a@[2]@[2]
                + raise
        }),
{
    lemma2_to64();
    lemma_pow2_pos((bd - 8) as nat);
    if bd < 12 {
        lemma_pow2_strictly_increases((bd - 8) as nat, 4);
    }
    num::law_wrapping_keeps_what_fits(a@[0]@[0] + regularization(bd));
    num::law_wrapping_keeps_what_fits(a@[1]@[1] + regularization(bd));
    num::law_wrapping_keeps_what_fits(a@[2]@[2] + regularization(bd));
}

proof fn lemma_solve_apart(c: Seq<i32>)
    requires
        apart(c),
    ensures
        ({
            let x = back_substituted(eliminate(eliminate(eliminate(c, 0), 1), 2));
            &&& x[0] == pivoted(c, 0, 3) as i32
            &&& x[1] == pivoted(c, 1, 3) as i32
            &&& x[2] == pivoted(c, 2, 3) as i32
        }),
{
    let c1 = eliminate(c, 0);
    lemma_apart(c, 0);
    let c2 = eliminate(c1, 1);
    lemma_apart(c1, 1);
    let c3 = eliminate(c2, 2);
    lemma_apart(c2, 2);
    assert(pivoted(c1, 1, 3) == pivoted(c, 1, 3));
    assert(pivoted(c2, 2, 3) == pivoted(c, 2, 3));
    lemma_zero_times(c3[11] as int, 16);
    lemma_zero_times(c3[7] as int, 16);
    num::law_wrapping_keeps_what_fits(c3[7] as int);
    num::law_wrapping_keeps_what_fits(c3[3] as int);
}

/// No entry off the diagonal.
spec fn apart(c: Seq<i32>) -> bool {
    &&& c.len() == 12
    &&& c[1] == 0 && c[2] == 0
    &&& c[4] == 0 && c[6] == 0
    &&& c[8] == 0 && c[9] == 0
}

proof fn lemma_apart_entry(c: Seq<i32>, i: int, r: int, k: int)
    requires
        apart(c),
        0 <= i < 3,
        0 <= r < 3,
        0 <= k < 4,
    ensures
        r != i || k <= i ==> eliminate(c, i)[4 * r + k] == c[4 * r + k],
        r == i && i < k < 3 ==> eliminate(c, i)[4 * r + k] == 0,
        r == i && k == 3 ==> eliminate(c, i)[4 * r + k] == pivoted(c, i, 3) as i32,
{
    assert((4 * r + k) / 4 == r && (4 * r + k) % 4 == k);
    let d = pivot(c, i);
    if r > i && k > i {
        assert(c[4 * r + i] == 0);
        lemma_zero_times(pivoted(c, i, k), 16);
        num::law_wrapping_keeps_what_fits(c[4 * r + k] as int);
    } else if r == i && i < k < 3 {
        assert(c[4 * i + k] == 0);
        lemma_zero_times(division_scale(d), floor_log2(d) as int);
    }
}

proof fn lemma_apart(c: Seq<i32>, i: int)
    requires
        apart(c),
        0 <= i < 3,
    ensures
        ({
            let e = eliminate(c, i);
            &&& apart(e)
            &&& e[3] == if i == 0 {
                pivoted(c, i, 3) as i32
            } else {
                c[3]
            }
            &&& e[7] == if i == 1 {
                pivoted(c, i, 3) as i32
            } else {
                c[7]
            }
            &&& e[11] == if i == 2 {
                pivoted(c, i, 3) as i32
            } else {
                c[11]
            }
            &&& e[0] == c[0] && e[5] == c[5] && e[10] == c[10]
        }),
{
    lemma_apart_entry(c, i, 0, 0);
    lemma_apart_entry(c, i, 0, 1);
    lemma_apart_entry(c, i, 0, 2);
    lemma_apart_entry(c, i, 0, 3);
    lemma_apart_entry(c, i, 1, 0);
    lemma_apart_entry(c, i, 1, 1);
    lemma_apart_entry(c, i, 1, 2);
    lemma_apart_entry(c, i, 1, 3);
    lemma_apart_entry(c, i, 2, 0);
    lemma_apart_entry(c, i, 2, 1);
    lemma_apart_entry(c, i, 2, 2);
    lemma_apart_entry(c, i, 2, 3);
}

} // verus!
