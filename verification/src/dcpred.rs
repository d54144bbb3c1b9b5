//! DC prediction: the mean of the samples above and to the left of a block.

use crate::num;
use crate::plane;
use vstd::arithmetic::div_mod::*;
use vstd::arithmetic::mul::*;
use vstd::arithmetic::power2::*;
use vstd::prelude::*;

verus! {

/// Reciprocals of 1 + i/128 in nine fractional bits.
pub const DIV_LUT: [u16; 129] = [
    512, 508, 504, 500, 496, 493, 489, 485, 482, 478, 475, 471, 468, 465, 462, 458, 455, 452, 449,
    446, 443, 440, 437, 434, 431, 428, 426, 423, 420, 417, 415, 412, 410, 407, 405, 402, 400, 397,
    395, 392, 390, 388, 386, 383, 381, 379, 377, 374, 372, 370, 368, 366, 364, 362, 360, 358, 356,
    354, 352, 350, 349, 347, 345, 343, 341, 340, 338, 336, 334, 333, 331, 329, 328, 326, 324, 323,
    321, 320, 318, 317, 315, 314, 312, 311, 309, 308, 306, 305, 303, 302, 301, 299, 298, 297, 295,
    294, 293, 291, 290, 289, 287, 286, 285, 284, 282, 281, 280, 279, 278, 277, 275, 274, 273, 272,
    271, 270, 269, 267, 266, 265, 264, 263, 262, 261, 260, 259, 258, 257, 256,
];

/// Sum of `n` samples along an edge: sample `k` is `k * step` positions from
/// `base`, but no further than `last`, and positions are `stride` apart.
pub open spec fn edge_total(
    rec: Seq<u16>,
    base: int,
    stride: int,
    step: int,
    last: int,
    n: nat,
) -> nat
    decreases n,
{
    if n == 0 {
        0
    } else {
        edge_total(rec, base, stride, step, last, (n - 1) as nat) + rec[base + stride * plane::least(
            (n - 1) * step,
            last,
        )] as nat
    }
}

/// Sum of the row above a block.
pub open spec fn above_total(
    rec: Seq<u16>,
    w: int,
    y0: int,
    x0: int,
    step: int,
    last: int,
    n: nat,
) -> nat {
    edge_total(rec, (y0 - 1) * w + x0, 1, step, last, n)
}

/// Sum of the column to the left of a block.
pub open spec fn left_total(
    rec: Seq<u16>,
    w: int,
    y0: int,
    x0: int,
    step: int,
    last: int,
    n: nat,
) -> nat {
    edge_total(rec, y0 * w + x0 - 1, w, step, last, n)
}

/// Mean, rounded to nearest with halves up.
pub open spec fn rounded_mean(sum: nat, count: nat) -> nat {
    (sum + count / 2) / count
}

/// A value held below `2^bd`.
pub open spec fn held(v: nat, bd: nat) -> nat {
    if v >= pow2(bd) {
        (pow2(bd) - 1) as nat
    } else {
        v
    }
}

proof fn lemma_edge_total_bound(rec: Seq<u16>, base: int, stride: int, step: int, last: int, n: nat)
    ensures
        edge_total(rec, base, stride, step, last, n) <= 65535 * n,
    decreases n,
{
    if n > 0 {
        lemma_edge_total_bound(rec, base, stride, step, last, (n - 1) as nat);
    }
}

/// Sum the samples along an edge.
fn edge_sum(rec: &[u16], base: usize, stride: usize, step: usize, last: usize, n: usize) -> (sum: u64)
    requires
        n <= 0x8000_0000,
        1 <= step <= 2,
        n > 0 ==> base + stride * last < rec@.len(),
    ensures
        sum == edge_total(
            rec@,
            base as int,
            stride as int,
            step as int,
            last as int,
            n as nat,
        ),
        sum <= 65535 * n,
{
    let len: usize = rec.len();
    let mut sum: u64 = 0;
    let mut k: usize = 0;
    let mut at: usize = 0;
    while k < n
        invariant
            k <= n <= 0x8000_0000,
            1 <= step <= 2,
            len == rec@.len(),
            n > 0 ==> base + stride * last < len,
            at == plane::least(k * step, last as int),
            sum == edge_total(
                rec@,
                base as int,
                stride as int,
                step as int,
                last as int,
                k as nat,
            ),
            sum <= 65535 * k,
        decreases n - k,
    {
        assert(stride * at <= stride * last) by (nonlinear_arith)
            requires
                at <= last,
                stride >= 0,
        ;
        assert(0 <= stride * at) by (nonlinear_arith)
            requires
                at >= 0,
                stride >= 0,
        ;
        sum = sum + rec[base + stride * at] as u64;
        assert((k + 1) * step == k * step + step) by (nonlinear_arith);
        assert(k * step >= 0) by (nonlinear_arith)
            requires
                k >= 0,
                step >= 0,
        ;
        at = if last - at < step {
            last
        } else {
            at + step
        };
        k = k + 1;
    }
    sum
}

proof fn lemma_mean_in_range(sum: nat, count: nat)
    requires
        count > 0,
        sum <= 65535 * count,
    ensures
        rounded_mean(sum, count) <= 65535,
{
    assert((sum + count / 2) / count <= 65535) by (nonlinear_arith)
        requires
            count > 0,
            sum <= 65535 * count,
            count / 2 < count,
    ;
}

/// Samples along an edge of `bs` that lie in the frame: the frame is extended
/// to whole 8-pixel blocks, and `usize::MAX` stands for no limit. At least one
/// sample counts.
pub open spec fn edge_available(start: int, bs: int, frame: int) -> int {
    let limit = (frame + 7) / 8 * 8;
    if frame == usize::MAX || limit - start >= bs {
        bs
    } else if limit - start < 1 {
        1
    } else {
        limit - start
    }
}

fn edge_available_of(start: usize, bs: usize, frame: usize) -> (n: usize)
    requires
        bs >= 1,
        frame == usize::MAX || frame + 7 <= usize::MAX,
    ensures
        n == edge_available(start as int, bs as int, frame as int),
        1 <= n <= bs,
{
    if frame == usize::MAX {
        return bs;
    }
    let limit: usize = (frame + 7) / 8 * 8;
    if limit <= start {
        1
    } else if limit - start >= bs {
        bs
    } else {
        limit - start
    }
}

/// DC prediction of a square block whose edges have `aa` and `al` samples in
/// the frame; the last of them repeats beyond.
pub open spec fn dc_value(
    rec: Seq<u16>,
    w: int,
    y0: int,
    x0: int,
    bs: int,
    neutral: u16,
    aa: int,
    al: int,
) -> nat {
    let n = bs as nat;
    let sa = above_total(rec, w, y0, x0, 1, aa - 1, n);
    let sl = left_total(rec, w, y0, x0, 1, al - 1, n);
    if y0 > 0 && x0 > 0 {
        rounded_mean(sa + sl, 2 * n)
    } else if y0 > 0 {
        rounded_mean(sa, n)
    } else if x0 > 0 {
        rounded_mean(sl, n)
    } else {
        neutral as nat
    }
}

/// The edges of a block lie in the plane.
pub open spec fn edges_fit(len: nat, w: int, y0: int, x0: int, aa: int, al: int) -> bool {
    &&& y0 > 0 ==> (y0 - 1) * w + x0 + aa <= len
    &&& x0 > 0 ==> (y0 + al - 1) * w + x0 <= len
}

/// DC prediction of a square block in a frame of `fw` by `fh`.
pub open spec fn frame_prediction(
    rec: Seq<u16>,
    w: int,
    y0: int,
    x0: int,
    bs: int,
    neutral: u16,
    fw: int,
    fh: int,
) -> nat {
    dc_value(
        rec,
        w,
        y0,
        x0,
        bs,
        neutral,
        edge_available(x0, bs, fw),
        edge_available(y0, bs, fh),
    )
}

/// DC predictor that takes neighbors from inside the frame only and repeats
/// the last one beyond it.
pub fn dc_pred_bounded(
    rec: &[u16],
    w: usize,
    y0: usize,
    x0: usize,
    bs: usize,
    neutral: u16,
    fw: usize,
    fh: usize,
) -> (p: u16)
    requires
        1 <= bs <= 0x4000_0000,
        fw == usize::MAX || fw + 7 <= usize::MAX,
        fh == usize::MAX || fh + 7 <= usize::MAX,
        edges_fit(
            rec@.len(),
            w as int,
            y0 as int,
            x0 as int,
            edge_available(x0 as int, bs as int, fw as int),
            edge_available(y0 as int, bs as int, fh as int),
        ),
    ensures
        p == frame_prediction(
            rec@,
            w as int,
            y0 as int,
            x0 as int,
            bs as int,
            neutral,
            fw as int,
            fh as int,
        ),
{
    let len: usize = rec.len();
    let aa: usize = edge_available_of(x0, bs, fw);
    let al: usize = edge_available_of(y0, bs, fh);
    let n: u64 = bs as u64;
    let mut sum: u64 = 0;
    let mut count: u64 = 0;
    if y0 > 0 {
        assert(0 <= (y0 - 1) * w) by (nonlinear_arith)
            requires
                y0 >= 1,
                w >= 0,
        ;
        sum = sum + edge_sum(rec, (y0 - 1) * w + x0, 1, 1, aa - 1, bs);
        count = count + n;
    }
    if x0 > 0 {
        assert((y0 + al - 1) * w == y0 * w + w * (al - 1)) by (nonlinear_arith);
        assert(0 <= y0 * w && 0 <= w * (al - 1)) by (nonlinear_arith)
            requires
                y0 >= 0,
                w >= 0,
                al >= 1,
        ;
        sum = sum + edge_sum(rec, y0 * w + (x0 - 1), w, 1, al - 1, bs);
        count = count + n;
    }
    if count == 0 {
        return neutral;
    }
    proof {
        lemma_mean_in_range(sum as nat, count as nat);
    }
    ((sum + count / 2) / count) as u16
}

/// DC predictor of a square block in the interior of a plane.
pub fn dc_pred(rec: &[u16], w: usize, y0: usize, x0: usize, bs: usize, neutral: u16) -> (p: u16)
    requires
        1 <= bs <= 0x4000_0000,
        edges_fit(rec@.len(), w as int, y0 as int, x0 as int, bs as int, bs as int),
    ensures
        p == dc_value(
            rec@,
            w as int,
            y0 as int,
            x0 as int,
            bs as int,
            neutral,
            bs as int,
            bs as int,
        ),
{
    dc_pred_bounded(rec, w, y0, x0, bs, neutral, usize::MAX, usize::MAX)
}

/// Samples of an edge that is read at every second position beyond 32.
pub open spec fn subsampled_count(n: int) -> nat {
    if n > 32 {
        ((n + 1) / 2) as nat
    } else {
        n as nat
    }
}

/// Reading distance along an edge.
pub open spec fn subsampled_step(n: int) -> int {
    if n > 32 {
        2
    } else {
        1
    }
}

/// Sum of the subsampled edges of a block.
pub open spec fn subsampled_total(
    rec: Seq<u16>,
    w: int,
    y0: int,
    x0: int,
    bw: int,
    bh: int,
) -> nat {
    (if y0 > 0 {
        above_total(rec, w, y0, x0, subsampled_step(bw), bw - 1, subsampled_count(bw))
    } else {
        0
    }) + (if x0 > 0 {
        left_total(rec, w, y0, x0, subsampled_step(bh), bh - 1, subsampled_count(bh))
    } else {
        0
    })
}

/// Number of samples in the subsampled edges of a block.
pub open spec fn subsampled_samples(y0: int, x0: int, bw: int, bh: int) -> nat {
    (if y0 > 0 {
        subsampled_count(bw)
    } else {
        0
    }) + (if x0 > 0 {
        subsampled_count(bh)
    } else {
        0
    })
}

/// Sum and number of the subsampled edge samples of a block.
fn subsampled_edges(rec: &[u16], w: usize, y0: usize, x0: usize, bw: usize, bh: usize) -> (r: (
    u64,
    u64,
))
    requires
        1 <= bw <= 0x4000_0000,
        1 <= bh <= 0x4000_0000,
        edges_fit(rec@.len(), w as int, y0 as int, x0 as int, bw as int, bh as int),
    ensures
        r.0 == subsampled_total(rec@, w as int, y0 as int, x0 as int, bw as int, bh as int),
        r.1 == subsampled_samples(y0 as int, x0 as int, bw as int, bh as int),
        r.0 <= 65535 * r.1,
        r.1 <= 0x8000_0000,
{
    let len: usize = rec.len();
    let mut sum: u64 = 0;
    let mut count: u64 = 0;
    if y0 > 0 {
        let (step, n): (usize, usize) = if bw > 32 {
            (2, (bw + 1) / 2)
        } else {
            (1, bw)
        };
        assert(0 <= (y0 - 1) * w) by (nonlinear_arith)
            requires
                y0 >= 1,
                w >= 0,
        ;
        sum = sum + edge_sum(rec, (y0 - 1) * w + x0, 1, step, bw - 1, n);
        count = count + n as u64;
    }
    if x0 > 0 {
        let (step, n): (usize, usize) = if bh > 32 {
            (2, (bh + 1) / 2)
        } else {
            (1, bh)
        };
        assert((y0 + bh - 1) * w == y0 * w + w * (bh - 1)) by (nonlinear_arith);
        assert(0 <= y0 * w && 0 <= w * (bh - 1)) by (nonlinear_arith)
            requires
                y0 >= 0,
                w >= 0,
                bh >= 1,
        ;
        sum = sum + edge_sum(rec, y0 * w + (x0 - 1), w, step, bh - 1, n);
        count = count + n as u64;
    }
    (sum, count)
}

/// Hold a value below `2^bd`.
fn hold(v: u64, bd: u32) -> (r: u16)
    requires
        bd <= 16,
    ensures
        r == held(v as nat, bd as nat),
{
    proof {
        lemma2_to64();
        if bd < 16 {
            lemma_pow2_strictly_increases(bd as nat, 16);
        }
        lemma_pow2_pos(bd as nat);
    }
    let top: u64 = num::pow2_u64(bd);
    if v >= top {
        (top - 1) as u16
    } else {
        v as u16
    }
}

/// DC prediction of a square block from thinned edges.
pub open spec fn thinned_prediction(
    rec: Seq<u16>,
    w: int,
    y0: int,
    x0: int,
    bs: int,
    neutral: u16,
    bd: nat,
) -> nat {
    if y0 > 0 || x0 > 0 {
        held(
            rounded_mean(
                subsampled_total(rec, w, y0, x0, bs, bs),
                subsampled_samples(y0, x0, bs, bs),
            ),
            bd,
        )
    } else {
        neutral as nat
    }
}

/// DC base of a chroma block that is predicted from luma: edges longer than 32
/// are read at every second sample.
pub fn dc_pred_cfl_subsampled(
    rec: &[u16],
    w: usize,
    y0: usize,
    x0: usize,
    bs: usize,
    neutral: u16,
    bd: u32,
) -> (p: u16)
    requires
        1 <= bs <= 0x4000_0000,
        bd <= 16,
        edges_fit(rec@.len(), w as int, y0 as int, x0 as int, bs as int, bs as int),
    ensures
        p == thinned_prediction(
            rec@,
            w as int,
            y0 as int,
            x0 as int,
            bs as int,
            neutral,
            bd as nat,
        ),
{
    let (sum, count) = subsampled_edges(rec, w, y0, x0, bs, bs);
    if count == 0 {
        return neutral;
    }
    hold((sum + count / 2) / count, bd)
}

// ---------------------------------------------------------------------------
// Division by multiplication
// ---------------------------------------------------------------------------

/// Table entry for a divisor: its bits below the leading one, as seven bits.
pub open spec fn divisor_index(d: nat) -> nat {
    let shift = (num::bitlen(d) - 1) as nat;
    let e = (d - pow2(shift)) as nat;
    if shift > 7 {
        (e + pow2((shift - 8) as nat)) / pow2((shift - 7) as nat)
    } else {
        e * pow2((7 - shift) as nat)
    }
}

/// Shift that goes with a divisor.
pub open spec fn divisor_shift(d: nat) -> nat {
    (num::bitlen(d) + 8) as nat
}

/// Decompose a divisor so that `1 / d` is about `scale / 2^shift`.
pub fn resolve_divisor_32(d: u32) -> (r: (i64, u32))
    requires
        d >= 1,
    ensures
        divisor_index(d as nat) <= 128,
        r.0 == DIV_LUT@[divisor_index(d as nat) as int],
        r.1 == divisor_shift(d as nat),
        9 <= r.1 <= 40,
{
    let bits: u32 = num::bit_length(d);
    proof {
        lemma2_to64();
        lemma2_to64_rest();
        num::lemma_bitlen_bounds(d as nat);
        lemma_pow2_unfold(bits as nat);
    }
    let shift: u32 = bits - 1;
    let e: u32 = d - num::pow2_u32(shift);
    let f: usize = if shift > 7 {
        let s: u32 = shift - 7;
        proof {
            lemma_pow2_adds(7, s as nat);
            lemma_pow2_unfold(s as nat);
            lemma_pow2_pos((s - 1) as nat);
            let half = pow2((s - 1) as nat) as int;
            assert((e + half) / (2 * half) <= 128) by (nonlinear_arith)
                requires
                    e < 128 * (2 * half),
                    half > 0,
            ;
        }
        num::shift_right(e as u64 + num::pow2_u64(s - 1), s) as usize
    } else {
        proof {
            lemma_pow2_adds(shift as nat, (7 - shift) as nat);
            lemma_pow2_pos((7 - shift) as nat);
            let p = pow2((7 - shift) as nat) as int;
            assert(e * p <= pow2(shift as nat) * p) by (nonlinear_arith)
                requires
                    e <= pow2(shift as nat),
                    p > 0,
            ;
        }
        num::shift_left(e as u64, 7 - shift) as usize
    };
    (DIV_LUT[f] as i64, shift + 9)
}

/// Mean of `count` samples by multiplication with the reciprocal, rounded.
pub open spec fn reciprocal_mean(sum: nat, count: nat) -> nat {
    let shift = divisor_shift(count);
    (sum * DIV_LUT@[divisor_index(count) as int] as nat + pow2((shift - 1) as nat)) / pow2(shift)
}

/// For a power of two the reciprocal is exact: the mean is rounded half up.
pub proof fn law_reciprocal_mean_of_power_of_two(sum: nat, k: nat)
    ensures
        reciprocal_mean(sum, pow2(k)) == rounded_mean(sum, pow2(k)),
{
    lemma2_to64();
    let d = pow2(k);
    lemma_pow2_pos(k);
    num::lemma_bitlen_lower(d, k);
    lemma_pow2_strictly_increases(k, k + 1);
    num::lemma_bitlen_upper(d, k + 1);
    assert(divisor_index(d) == 0) by {
        if k > 7 {
            lemma_pow2_unfold((k - 7) as nat);
            lemma_pow2_pos((k - 8) as nat);
            let h = pow2((k - 8) as nat) as int;
            assert(h / (2 * h) == 0) by (nonlinear_arith)
                requires
                    h > 0,
            ;
        } else {
            lemma_mul_basics(pow2((7 - k) as nat) as int);
        }
    }
    assert(DIV_LUT@[0] == 512);
    lemma_pow2_adds(9, k);
    let dd = d as int;
    if k > 0 {
        lemma_pow2_unfold(k);
        lemma_pow2_adds(9, (k - 1) as nat);
        assert(d / 2 == pow2((k - 1) as nat));
        let half = (d / 2) as int;
        assert((sum * 512 + 512 * half) / (512 * dd) == (sum + half) / dd) by (nonlinear_arith)
            requires
                dd > 0,
                half >= 0,
        {
            lemma_div_denominator(512 * (sum + half), 512, dd);
            assert((512 * (sum + half)) / 512 == sum + half);
        }
    } else {
        assert((sum * 512 + 256) / 512 == sum);
        assert(sum / 1 == sum);
    }
}

fn mean_by_reciprocal(sum: u64, count: u64, bd: u32) -> (p: u16)
    requires
        1 <= count <= 0x8000_0000,
        sum <= 65535 * count,
        bd <= 16,
    ensures
        p == held(reciprocal_mean(sum as nat, count as nat), bd as nat),
{
    let (scale, shift) = resolve_divisor_32(count as u32);
    proof {
        lemma_lut(divisor_index(count as nat) as int);
        lemma2_to64();
        lemma2_to64_rest();
        lemma_pow2_strictly_increases((shift - 1) as nat, 40);
        assert(sum * scale <= 0x8000_0000_0000 * 512) by (nonlinear_arith)
            requires
                0 <= sum <= 0x8000_0000_0000,
                0 <= scale <= 512,
        ;
    }
    let rounding: u64 = num::pow2_u64(shift - 1);
    hold(num::shift_right(sum * scale as u64 + rounding, shift), bd)
}

proof fn lemma_lut(i: int)
    requires
        0 <= i <= 128,
    ensures
        256 <= DIV_LUT@[i] <= 512,
{
}

/// DC prediction of a rectangle from thinned edges.
pub open spec fn thinned_rect_prediction(
    rec: Seq<u16>,
    w: int,
    y0: int,
    x0: int,
    bw: int,
    bh: int,
    neutral: u16,
    bd: nat,
) -> nat {
    if y0 > 0 || x0 > 0 {
        held(
            reciprocal_mean(
                subsampled_total(rec, w, y0, x0, bw, bh),
                subsampled_samples(y0, x0, bw, bh),
            ),
            bd,
        )
    } else {
        neutral as nat
    }
}

/// DC prediction of an oblong block with subsampled edges.
pub fn dc_pred_rect_subsampled(
    rec: &[u16],
    w: usize,
    y0: usize,
    x0: usize,
    bw: usize,
    bh: usize,
    neutral: u16,
    bd: u32,
) -> (p: u16)
    requires
        1 <= bw <= 0x4000_0000,
        1 <= bh <= 0x4000_0000,
        bd <= 16,
        edges_fit(rec@.len(), w as int, y0 as int, x0 as int, bw as int, bh as int),
    ensures
        p == thinned_rect_prediction(
            rec@,
            w as int,
            y0 as int,
            x0 as int,
            bw as int,
            bh as int,
            neutral,
            bd as nat,
        ),
{
    let (sum, count) = subsampled_edges(rec, w, y0, x0, bw, bh);
    if count == 0 {
        return neutral;
    }
    mean_by_reciprocal(sum, count, bd)
}

/// Geometry and coded-plane bounds for an oblong intra predictor.
#[derive(Clone, Copy, Debug)]
pub struct BoundedIntraRect {
    pub stride: usize,
    pub y: usize,
    pub x: usize,
    pub width: usize,
    pub height: usize,
    pub frame_width: usize,
    pub frame_height: usize,
}

/// Samples along an edge that lie in the coded plane; `usize::MAX` stands for
/// no limit. At least one sample counts.
pub open spec fn plane_available(start: int, n: int, limit: int) -> int {
    if limit == usize::MAX || limit - start >= n {
        n
    } else if limit - start < 1 {
        1
    } else {
        limit - start
    }
}

fn plane_available_of(start: usize, n: usize, limit: usize) -> (a: usize)
    requires
        n >= 1,
    ensures
        a == plane_available(start as int, n as int, limit as int),
        1 <= a <= n,
{
    if limit == usize::MAX {
        n
    } else if limit <= start {
        1
    } else if limit - start >= n {
        n
    } else {
        limit - start
    }
}

/// Sum of the edges of a bounded block.
pub open spec fn bounded_total(rec: Seq<u16>, r: BoundedIntraRect) -> nat {
    let (w, y, x) = (r.stride as int, r.y as int, r.x as int);
    let aa = plane_available(x, r.width as int, r.frame_width as int);
    let al = plane_available(y, r.height as int, r.frame_height as int);
    (if y > 0 {
        above_total(rec, w, y, x, 1, aa - 1, r.width as nat)
    } else {
        0
    }) + (if x > 0 {
        left_total(rec, w, y, x, 1, al - 1, r.height as nat)
    } else {
        0
    })
}

/// Number of edge samples of a bounded block.
pub open spec fn bounded_samples(r: BoundedIntraRect) -> nat {
    (if r.y > 0 {
        r.width as nat
    } else {
        0
    }) + (if r.x > 0 {
        r.height as nat
    } else {
        0
    })
}

/// DC prediction of a rectangle from what a plane holds of its edges.
pub open spec fn bounded_prediction(
    rec: Seq<u16>,
    r: BoundedIntraRect,
    neutral: u16,
    bd: nat,
) -> nat {
    if r.y > 0 || r.x > 0 {
        held(reciprocal_mean(bounded_total(rec, r), bounded_samples(r)), bd)
    } else {
        neutral as nat
    }
}

/// DC prediction of an oblong block whose edge samples repeat beyond the coded plane.
pub fn dc_pred_rect_bounded(rec: &[u16], rect: &BoundedIntraRect, neutral: u16, bd: u32) -> (p: u16)
    requires
        1 <= rect.width <= 0x4000_0000,
        1 <= rect.height <= 0x4000_0000,
        bd <= 16,
        edges_fit(
            rec@.len(),
            rect.stride as int,
            rect.y as int,
            rect.x as int,
            plane_available(rect.x as int, rect.width as int, rect.frame_width as int),
            plane_available(rect.y as int, rect.height as int, rect.frame_height as int),
        ),
    ensures
        p == bounded_prediction(rec@, *rect, neutral, bd as nat),
{
    let len: usize = rec.len();
    let (w, y, x) = (rect.stride, rect.y, rect.x);
    let aa: usize = plane_available_of(x, rect.width, rect.frame_width);
    let al: usize = plane_available_of(y, rect.height, rect.frame_height);
    let mut sum: u64 = 0;
    let mut count: u64 = 0;
    if y > 0 {
        assert(0 <= (y - 1) * w) by (nonlinear_arith)
            requires
                y >= 1,
                w >= 0,
        ;
        sum = sum + edge_sum(rec, (y - 1) * w + x, 1, 1, aa - 1, rect.width);
        count = count + rect.width as u64;
    }
    if x > 0 {
        assert((y + al - 1) * w == y * w + w * (al - 1)) by (nonlinear_arith);
        assert(0 <= y * w && 0 <= w * (al - 1)) by (nonlinear_arith)
            requires
                y >= 0,
                w >= 0,
                al >= 1,
        ;
        sum = sum + edge_sum(rec, y * w + (x - 1), w, 1, al - 1, rect.height);
        count = count + rect.height as u64;
    }
    if count == 0 {
        return neutral;
    }
    mean_by_reciprocal(sum, count, bd)
}

/// DC prediction of an oblong block in the interior of a plane.
pub fn dc_pred_rect(
    rec: &[u16],
    w: usize,
    y0: usize,
    x0: usize,
    bw: usize,
    bh: usize,
    neutral: u16,
    bd: u32,
) -> (p: u16)
    requires
        1 <= bw <= 0x4000_0000,
        1 <= bh <= 0x4000_0000,
        bd <= 16,
        edges_fit(rec@.len(), w as int, y0 as int, x0 as int, bw as int, bh as int),
    ensures
        p == bounded_prediction(
            rec@,
            (BoundedIntraRect {
                stride: w,
                y: y0,
                x: x0,
                width: bw,
                height: bh,
                frame_width: usize::MAX,
                frame_height: usize::MAX,
            }),
            neutral,
            bd as nat,
        ),
{
    let rect = BoundedIntraRect {
        stride: w,
        y: y0,
        x: x0,
        width: bw,
        height: bh,
        frame_width: usize::MAX,
        frame_height: usize::MAX,
    };
    dc_pred_rect_bounded(rec, &rect, neutral, bd)
}

// ---------------------------------------------------------------------------
// What the predictions are
// ---------------------------------------------------------------------------

proof fn lemma_edge_series(rec: Seq<u16>, base: int, stride: int, step: int, last: int, n: nat)
    ensures
        edge_total(rec, base, stride, step, last, n) == num::series(
            |k: int|
                rec[base + stride * (if k * step < last {
                    k * step
                } else {
                    last
                })] as int,
            n,
        ),
    decreases n,
{
    if n > 0 {
        lemma_edge_series(rec, base, stride, step, last, (n - 1) as nat);
    }
}

/// A rounded mean is the number nearest to the quotient, and of two the larger.
pub proof fn law_mean_is_nearest(sum: nat, count: nat)
    requires
        count > 0,
    ensures
        ({
            let m = rounded_mean(sum, count);
            2 * sum - count < 2 * count * m && 2 * count * m <= 2 * sum + count
        }),
{
    lemma_fundamental_div_mod((sum + count / 2) as int, count as int);
    let (m, r, c) = (
        rounded_mean(sum, count) as int,
        (sum + count / 2) as int % count as int,
        count as int,
    );
    assert(2 * sum - c < 2 * c * m && 2 * c * m <= 2 * sum + c) by (nonlinear_arith)
        requires
            sum + c / 2 == c * m + r,
            0 <= r < c,
            c > 0,
            2 * (c / 2) <= c < 2 * (c / 2) + 2,
    ;
}

/// The prediction of a square block is the mean of the row above it and the column
/// to its left, of the one edge that it has, or the middle value where it has none.
/// Beyond what lies in the frame an edge repeats its last sample.
pub proof fn law_prediction_is_the_mean_of_the_edges(
    rec: Seq<u16>,
    w: int,
    y0: int,
    x0: int,
    bs: int,
    neutral: u16,
    aa: int,
    al: int,
)
    requires
        bs >= 1,
        1 <= aa <= bs,
        1 <= al <= bs,
        y0 >= 0,
        x0 >= 0,
    ensures
        ({
            let above = num::series(
                |k: int|
                    rec[(y0 - 1) * w + x0 + (if k < aa {
                        k
                    } else {
                        aa - 1
                    })] as int,
                bs as nat,
            );
            let left = num::series(
                |k: int|
                    rec[(y0 + (if k < al {
                        k
                    } else {
                        al - 1
                    })) * w + x0 - 1] as int,
                bs as nat,
            );
            let p = dc_value(rec, w, y0, x0, bs, neutral, aa, al);
            &&& y0 > 0 && x0 > 0 ==> above + left - bs < 2 * bs * p <= above + left + bs
            &&& y0 > 0 && x0 == 0 ==> 2 * above - bs < 2 * bs * p <= 2 * above + bs
            &&& y0 == 0 && x0 > 0 ==> 2 * left - bs < 2 * bs * p <= 2 * left + bs
            &&& y0 == 0 && x0 == 0 ==> p == neutral
        }),
{
    let n = bs as nat;
    let ab = |k: int|
        rec[(y0 - 1) * w + x0 + (if k < aa {
            k
        } else {
            aa - 1
        })] as int;
    let le = |k: int|
        rec[(y0 + (if k < al {
            k
        } else {
            al - 1
        })) * w + x0 - 1] as int;
    let (sa, sl) = (
        above_total(rec, w, y0, x0, 1, aa - 1, n),
        left_total(rec, w, y0, x0, 1, al - 1, n),
    );
    let fa = |k: int|
        rec[(y0 - 1) * w + x0 + 1 * (if k * 1 < aa - 1 {
            k * 1
        } else {
            aa - 1
        })] as int;
    let fl = |k: int|
        rec[y0 * w + x0 - 1 + w * (if k * 1 < al - 1 {
            k * 1
        } else {
            al - 1
        })] as int;
    lemma_edge_series(rec, (y0 - 1) * w + x0, 1, 1, aa - 1, n);
    lemma_edge_series(rec, y0 * w + x0 - 1, w, 1, al - 1, n);
    assert(sa == num::series(fa, n));
    assert(sl == num::series(fl, n));
    assert forall|k: int| 0 <= k < n implies #[trigger] fa(k) == ab(k) by {}
    assert forall|k: int| 0 <= k < n implies #[trigger] fl(k) == le(k) by {
        let i = if k < al {
            k
        } else {
            al - 1
        };
        assert((y0 + i) * w == y0 * w + w * i) by (nonlinear_arith);
    }
    num::lemma_series_same(fa, ab, n);
    num::lemma_series_same(fl, le, n);
    law_mean_is_nearest(sa + sl, 2 * n);
    law_mean_is_nearest(sa, n);
    law_mean_is_nearest(sl, n);
    let p = dc_value(rec, w, y0, x0, bs, neutral, aa, al) as int;
    if y0 > 0 && x0 > 0 {
        let s = (sa + sl) as int;
        assert(s - bs < 2 * bs * p <= s + bs) by (nonlinear_arith)
            requires
                2 * s - 2 * n < 2 * (2 * n) * p,
                2 * (2 * n) * p <= 2 * s + 2 * n,
                n == bs,
        ;
    }
}

/// Samples of an edge that lie in a frame, whose sides grow to the multiple `limit`
/// of 8: all of them, those before the limit, and at least one.
pub proof fn law_edge_ends_with_the_frame(start: int, bs: int, frame: int, limit: int)
    requires
        bs >= 1,
        0 <= frame,
        limit % 8 == 0,
        frame <= limit < frame + 8,
    ensures
        ({
            let n = edge_available(start, bs, frame);
            &&& frame == usize::MAX || start + bs <= limit ==> n == bs
            &&& frame != usize::MAX && start < limit < start + bs ==> start + n == limit
            &&& frame != usize::MAX && limit <= start ==> n == 1
        }),
{
    assert((frame + 7) / 8 * 8 == limit);
}

/// Samples of an edge of a rectangle that lie in a plane: all of them, those before
/// its end, and at least one.
pub proof fn law_edge_ends_with_the_plane(start: int, n: int, limit: int)
    requires
        n >= 1,
    ensures
        ({
            let k = plane_available(start, n, limit);
            &&& limit == usize::MAX || start + n <= limit ==> k == n
            &&& limit != usize::MAX && start < limit < start + n ==> start + k == limit
            &&& limit != usize::MAX && limit <= start ==> k == 1
        }),
{
}

/// The sum behind a prediction of a rectangle takes every sample of the row above
/// and of the column to the left, but every other one of an edge longer than 32.
/// As many samples are counted as are summed.
pub proof fn law_long_edges_are_thinned(
    rec: Seq<u16>,
    w: int,
    y0: int,
    x0: int,
    bw: int,
    bh: int,
)
    requires
        bw >= 1,
        bh >= 1,
        y0 >= 0,
        x0 >= 0,
    ensures
        ({
            let (sx, sy) = (
                if bw > 32 {
                    2int
                } else {
                    1int
                },
                if bh > 32 {
                    2int
                } else {
                    1int
                },
            );
            let (nx, ny) = (
                if y0 > 0 {
                    (bw + sx - 1) / sx
                } else {
                    0
                },
                if x0 > 0 {
                    (bh + sy - 1) / sy
                } else {
                    0
                },
            );
            &&& subsampled_total(rec, w, y0, x0, bw, bh) == num::series(
                |k: int| rec[(y0 - 1) * w + x0 + sx * k] as int,
                nx as nat,
            ) + num::series(|k: int| rec[(y0 + sy * k) * w + x0 - 1] as int, ny as nat)
            &&& subsampled_samples(y0, x0, bw, bh) == nx + ny
        }),
{
    let (sx, sy) = (subsampled_step(bw), subsampled_step(bh));
    let (cx, cy) = (subsampled_count(bw), subsampled_count(bh));
    assert(cx == (bw + sx - 1) / sx);
    assert(cy == (bh + sy - 1) / sy);
    lemma_edge_series(rec, (y0 - 1) * w + x0, 1, sx, bw - 1, cx);
    lemma_edge_series(rec, y0 * w + x0 - 1, w, sy, bh - 1, cy);
    let fa = |k: int|
        rec[(y0 - 1) * w + x0 + 1 * (if k * sx < bw - 1 {
            k * sx
        } else {
            bw - 1
        })] as int;
    let ga = |k: int| rec[(y0 - 1) * w + x0 + sx * k] as int;
    let fl = |k: int|
        rec[y0 * w + x0 - 1 + w * (if k * sy < bh - 1 {
            k * sy
        } else {
            bh - 1
        })] as int;
    let gl = |k: int| rec[(y0 + sy * k) * w + x0 - 1] as int;
    assert forall|k: int| 0 <= k < cx implies #[trigger] fa(k) == ga(k) by {
        assert(k * sx == sx * k) by (nonlinear_arith);
    }
    assert forall|k: int| 0 <= k < cy implies #[trigger] fl(k) == gl(k) by {
        assert(k * sy == sy * k) by (nonlinear_arith);
        let i = sy * k;
        assert((y0 + i) * w == y0 * w + w * i) by (nonlinear_arith);
    }
    num::lemma_series_same(fa, ga, cx);
    num::lemma_series_same(fl, gl, cy);
    assert(num::series(ga, 0) == 0);
    assert(num::series(gl, 0) == 0);
}

/// The sum behind a prediction of a rectangle in a plane takes every sample of both
/// edges and repeats the last one that the plane holds. As many samples are counted
/// as are summed.
pub proof fn law_bounded_edges_repeat_their_last(rec: Seq<u16>, r: BoundedIntraRect)
    requires
        r.width >= 1,
        r.height >= 1,
        r.frame_width == usize::MAX || r.frame_width > r.x,
        r.frame_height == usize::MAX || r.frame_height > r.y,
    ensures
        ({
            let (w, y, x) = (r.stride as int, r.y as int, r.x as int);
            let right = |i: int|
                if r.frame_width == usize::MAX || x + i < r.frame_width {
                    x + i
                } else {
                    r.frame_width - 1
                };
            let down = |i: int|
                if r.frame_height == usize::MAX || y + i < r.frame_height {
                    y + i
                } else {
                    r.frame_height - 1
                };
            let (nx, ny) = (
                if y > 0 {
                    r.width as int
                } else {
                    0
                },
                if x > 0 {
                    r.height as int
                } else {
                    0
                },
            );
            &&& bounded_total(rec, r) == num::series(
                |i: int| rec[(y - 1) * w + right(i)] as int,
                nx as nat,
            ) + num::series(|i: int| rec[down(i) * w + x - 1] as int, ny as nat)
            &&& bounded_samples(r) == nx + ny
        }),
{
    let (w, y, x) = (r.stride as int, r.y as int, r.x as int);
    let right = |i: int|
        if r.frame_width == usize::MAX || x + i < r.frame_width {
            x + i
        } else {
            r.frame_width - 1
        };
    let down = |i: int|
        if r.frame_height == usize::MAX || y + i < r.frame_height {
            y + i
        } else {
            r.frame_height - 1
        };
    let aa = plane_available(x, r.width as int, r.frame_width as int);
    let al = plane_available(y, r.height as int, r.frame_height as int);
    lemma_edge_series(rec, (y - 1) * w + x, 1, 1, aa - 1, r.width as nat);
    lemma_edge_series(rec, y * w + x - 1, w, 1, al - 1, r.height as nat);
    let fa = |k: int|
        rec[(y - 1) * w + x + 1 * (if k * 1 < aa - 1 {
            k * 1
        } else {
            aa - 1
        })] as int;
    let ga = |i: int| rec[(y - 1) * w + right(i)] as int;
    let fl = |k: int|
        rec[y * w + x - 1 + w * (if k * 1 < al - 1 {
            k * 1
        } else {
            al - 1
        })] as int;
    let gl = |i: int| rec[down(i) * w + x - 1] as int;
    assert forall|k: int| 0 <= k < r.width implies #[trigger] fa(k) == ga(k) by {}
    assert forall|k: int| 0 <= k < r.height implies #[trigger] fl(k) == gl(k) by {
        let i = down(k) - y;
        assert((y + i) * w == y * w + w * i) by (nonlinear_arith);
    }
    num::lemma_series_same(fa, ga, r.width as nat);
    num::lemma_series_same(fl, gl, r.height as nat);
    assert(num::series(ga, 0) == 0);
    assert(num::series(gl, 0) == 0);
}

/// A value is held at the largest that the bit depth has.
pub proof fn law_held_below_the_top(v: nat, bd: nat)
    ensures
        v < pow2(bd) ==> held(v, bd) == v,
        v >= pow2(bd) ==> held(v, bd) + 1 == pow2(bd),
{
    lemma_pow2_pos(bd);
}

/// The width of a frame ends the row above a block and its height the column to the
/// left, each at the next multiple of 8, of `lw` and `lh` samples.
pub proof fn law_frame_sides_end_their_edges(
    rec: Seq<u16>,
    w: int,
    y0: int,
    x0: int,
    bs: int,
    neutral: u16,
    fw: int,
    fh: int,
    lw: int,
    lh: int,
)
    requires
        bs >= 1,
        0 <= x0 < lw,
        0 <= y0 < lh,
        0 <= fw < usize::MAX,
        0 <= fh < usize::MAX,
        lw % 8 == 0,
        fw <= lw < fw + 8,
        lh % 8 == 0,
        fh <= lh < fh + 8,
    ensures
        frame_prediction(rec, w, y0, x0, bs, neutral, fw, fh) == dc_value(
            rec,
            w,
            y0,
            x0,
            bs,
            neutral,
            if lw - x0 < bs {
                lw - x0
            } else {
                bs
            },
            if lh - y0 < bs {
                lh - y0
            } else {
                bs
            },
        ),
{
    law_edge_ends_with_the_frame(x0, bs, fw, lw);
    law_edge_ends_with_the_frame(y0, bs, fh, lh);
}

/// A prediction from thinned edges is the mean of the samples taken, held at the
/// bit depth, or the middle value where there are no edges.
pub proof fn law_thinned_prediction_is_the_mean(
    rec: Seq<u16>,
    w: int,
    y0: int,
    x0: int,
    bs: int,
    neutral: u16,
    bd: nat,
)
    requires
        bs >= 1,
        y0 >= 0,
        x0 >= 0,
    ensures
        ({
            let p = thinned_prediction(rec, w, y0, x0, bs, neutral, bd);
            let sum = subsampled_total(rec, w, y0, x0, bs, bs);
            let n = subsampled_samples(y0, x0, bs, bs);
            &&& y0 == 0 && x0 == 0 ==> p == neutral
            &&& y0 > 0 || x0 > 0 ==> {
                &&& p < pow2(bd)
                &&& 2 * n * p <= 2 * sum + n
                &&& p + 1 < pow2(bd) ==> 2 * sum - n < 2 * n * p
            }
        }),
{
    lemma_pow2_pos(bd);
    let sum = subsampled_total(rec, w, y0, x0, bs, bs);
    let n = subsampled_samples(y0, x0, bs, bs);
    if y0 > 0 || x0 > 0 {
        law_mean_is_nearest(sum, n);
        let (m, p) = (rounded_mean(sum, n), held(rounded_mean(sum, n), bd));
        assert(2 * n * p <= 2 * n * m) by (nonlinear_arith)
            requires
                p <= m,
                n >= 0,
        ;
    }
}

/// Predictions of rectangles are means too: exactly so, up to rounding, where the
/// number of samples is a power of two.
pub proof fn law_rect_predictions_are_means(
    rec: Seq<u16>,
    r: BoundedIntraRect,
    neutral: u16,
    bd: nat,
    k: nat,
)
    ensures
        ({
            let p = bounded_prediction(rec, r, neutral, bd);
            let q = thinned_rect_prediction(
                rec,
                r.stride as int,
                r.y as int,
                r.x as int,
                r.width as int,
                r.height as int,
                neutral,
                bd,
            );
            let whole = bounded_total(rec, r);
            let thin = subsampled_total(
                rec,
                r.stride as int,
                r.y as int,
                r.x as int,
                r.width as int,
                r.height as int,
            );
            let n = pow2(k);
            &&& r.y == 0 && r.x == 0 ==> p == neutral && q == neutral
            &&& (r.y > 0 || r.x > 0) && bounded_samples(r) == n ==> p == if (whole + n / 2) / n
                < pow2(bd) {
                ((whole + n / 2) / n) as int
            } else {
                pow2(bd) - 1
            }
            &&& (r.y > 0 || r.x > 0) && subsampled_samples(
                r.y as int,
                r.x as int,
                r.width as int,
                r.height as int,
            ) == n ==> q == if (thin + n / 2) / n < pow2(bd) {
                ((thin + n / 2) / n) as int
            } else {
                pow2(bd) - 1
            }
        }),
{
    lemma_pow2_pos(bd);
    law_reciprocal_mean_of_power_of_two(bounded_total(rec, r), k);
    law_reciprocal_mean_of_power_of_two(
        subsampled_total(
            rec,
            r.stride as int,
            r.y as int,
            r.x as int,
            r.width as int,
            r.height as int,
        ),
        k,
    );
}

/// Reciprocals fall with their divisor, from one half to one quarter of 1024, by no
/// more than four at a time.
pub proof fn law_reciprocals_fall(i: int)
    requires
        0 <= i < 128,
    ensures
        DIV_LUT@[i + 1] < DIV_LUT@[i] <= DIV_LUT@[i + 1] + 4,
        DIV_LUT@[0] == 512,
        DIV_LUT@[128] == 256,
{
}

} // verus!
