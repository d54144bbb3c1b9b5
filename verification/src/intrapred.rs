//! Intra predictors of square blocks: the references around a block, PAETH and
//! the three smooth modes.

use crate::num;
use crate::plane;
use vstd::arithmetic::mul::*;
use vstd::arithmetic::power2::*;
use vstd::prelude::*;

verus! {

/// Weights of the near edge by distance, for small, middle and large blocks.
pub const SM_WEIGHTS: [[i32; 64]; 3] = [
    [
        32, 8, 2, 0, 0, 0, 0, 0, 0, 0, 0, 0, 0, 0, 0, 0, 0, 0, 0, 0, 0, 0, 0, 0, 0, 0, 0, 0, 0, 0,
        0, 0, 0, 0, 0, 0, 0, 0, 0, 0, 0, 0, 0, 0, 0, 0, 0, 0, 0, 0, 0, 0, 0, 0, 0, 0, 0, 0, 0, 0, 0,
        0, 0, 0,
    ],
    [
        32, 16, 8, 4, 2, 1, 0, 0, 0, 0, 0, 0, 0, 0, 0, 0, 0, 0, 0, 0, 0, 0, 0, 0, 0, 0, 0, 0, 0, 0,
        0, 0, 0, 0, 0, 0, 0, 0, 0, 0, 0, 0, 0, 0, 0, 0, 0, 0, 0, 0, 0, 0, 0, 0, 0, 0, 0, 0, 0, 0, 0,
        0, 0, 0,
    ],
    [
        32, 32, 16, 16, 8, 8, 4, 4, 2, 2, 1, 1, 0, 0, 0, 0, 0, 0, 0, 0, 0, 0, 0, 0, 0, 0, 0, 0, 0,
        0, 0, 0, 0, 0, 0, 0, 0, 0, 0, 0, 0, 0, 0, 0, 0, 0, 0, 0, 0, 0, 0, 0, 0, 0, 0, 0, 0, 0, 0, 0,
        0, 0, 0, 0,
    ],
];

/// Base-2 logarithm of a block side, rounded down.
pub open spec fn side_log2(bs: nat) -> nat {
    (num::bitlen(bs) - 1) as nat
}

/// Base-2 logarithm of a block side, rounded down.
pub fn blk_size_log2(n: usize) -> (k: u32)
    requires
        n >= 1,
    ensures
        k == side_log2(n as nat),
        k < 64,
{
    proof {
        lemma2_to64();
        lemma2_to64_rest();
        num::lemma_bitlen_bounds(n as nat);
        num::lemma_bitlen_upper(n as nat, 64);
    }
    let v: u64 = n as u64;
    if v <= 0xffff_ffff {
        return num::bit_length(v as u32) - 1;
    }
    let high: u32 = (v / 0x1_0000_0000) as u32;
    proof {
        let b = num::bitlen(high as nat);
        num::lemma_bitlen_bounds(high as nat);
        lemma_pow2_adds((b - 1) as nat, 32);
        lemma_pow2_adds(b, 32);
        assert(pow2((b + 31) as nat) <= v < pow2(b + 32)) by (nonlinear_arith)
            requires
                pow2((b - 1) as nat) * 0x1_0000_0000 == pow2((b + 31) as nat),
                pow2(b) * 0x1_0000_0000 == pow2(b + 32),
                pow2((b - 1) as nat) <= high < pow2(b),
                high * 0x1_0000_0000 <= v < (high + 1) * 0x1_0000_0000,
        ;
        num::lemma_bitlen_lower(n as nat, (b + 31) as nat);
        num::lemma_bitlen_upper(n as nat, b + 32);
    }
    num::bit_length(high) + 31
}

// ---------------------------------------------------------------------------
// PAETH
// ---------------------------------------------------------------------------

/// Distance of two numbers.
pub open spec fn distance(a: int, b: int) -> int {
    if a > b {
        a - b
    } else {
        b - a
    }
}

/// Nearest of left, top and corner to `top + left - corner`; of equally near
/// ones the first of that order.
pub open spec fn paeth_value(left: int, top: int, corner: int) -> int {
    let base = top + left - corner;
    let (l, t, c) = (distance(base, left), distance(base, top), distance(base, corner));
    if l <= t && l <= c {
        left
    } else if t <= c {
        top
    } else {
        corner
    }
}

/// The PAETH value is one of the three references, and none is nearer to
/// `top + left - corner`.
pub proof fn law_paeth_is_nearest(left: int, top: int, corner: int)
    ensures
        ({
            let p = paeth_value(left, top, corner);
            let base = top + left - corner;
            &&& p == left || p == top || p == corner
            &&& distance(base, p) <= distance(base, left)
            &&& distance(base, p) <= distance(base, top)
            &&& distance(base, p) <= distance(base, corner)
        }),
{
}

/// A 16-bit sample, or one beside it.
pub open spec fn is_reference(v: int) -> bool {
    -1 <= v <= 0x1_0000
}

/// All values of an edge are references.
pub open spec fn are_references(s: Seq<i32>) -> bool {
    forall|i: int| 0 <= i < s.len() ==> is_reference(#[trigger] s[i] as int)
}

/// A value that 32 bits hold.
pub open spec fn fits_i32(v: int) -> bool {
    i32::MIN <= v <= i32::MAX
}

/// `top + left - corner` and its distances from the three references fit 32
/// bits.
pub open spec fn paeth_fits(left: int, top: int, corner: int) -> bool {
    let base = top + left - corner;
    &&& fits_i32(base)
    &&& fits_i32(distance(base, left))
    &&& fits_i32(distance(base, top))
    &&& fits_i32(distance(base, corner))
}

/// PAETH value of one sample.
pub fn paeth_single(left: i32, top: i32, corner: i32) -> (p: i32)
    requires
        paeth_fits(left as int, top as int, corner as int),
    ensures
        p == paeth_value(left as int, top as int, corner as int),
{
    let base: i32 = (top as i64 + left as i64 - corner as i64) as i32;
    let l: i32 = if base > left {
        base - left
    } else {
        left - base
    };
    let t: i32 = if base > top {
        base - top
    } else {
        top - base
    };
    let c: i32 = if base > corner {
        base - corner
    } else {
        corner - base
    };
    if l <= t && l <= c {
        left
    } else if t <= c {
        top
    } else {
        corner
    }
}

/// PAETH block, row by row.
pub open spec fn paeth_block(bs: int, above: Seq<i32>, left: Seq<i32>, corner: int) -> Seq<i32> {
    Seq::new(
        (bs * bs) as nat,
        |i: int| paeth_value(left[i / bs] as int, above[i % bs] as int, corner) as i32,
    )
}

/// PAETH prediction of a block, row by row.
pub fn paeth(bs: usize, above: &[i32], left: &[i32], corner: i32) -> (out: Vec<i32>)
    requires
        bs * bs <= usize::MAX,
        above@.len() >= bs,
        left@.len() >= bs,
        forall|r: int, c: int|
            0 <= r < bs && 0 <= c < bs ==> paeth_fits(
                #[trigger] left@[r] as int,
                #[trigger] above@[c] as int,
                corner as int,
            ),
    ensures
        out@ == paeth_block(bs as int, above@, left@, corner as int),
{
    let ghost want = Seq::new(
        (bs * bs) as nat,
        |i: int|
            paeth_value(
                left@[i / bs as int] as int,
                above@[i % bs as int] as int,
                corner as int,
            ) as i32,
    );
    let n: usize = bs * bs;
    let mut out: Vec<i32> = Vec::new();
    let mut i: usize = 0;
    while i < n
        invariant
            i <= n,
            n == bs * bs,
            above@.len() >= bs,
            left@.len() >= bs,
            forall|r: int, c: int|
                0 <= r < bs && 0 <= c < bs ==> paeth_fits(
                    #[trigger] left@[r] as int,
                    #[trigger] above@[c] as int,
                    corner as int,
                ),
            want == Seq::new(
                (bs * bs) as nat,
                |i: int|
                    paeth_value(
                        left@[i / bs as int] as int,
                        above@[i % bs as int] as int,
                        corner as int,
                    ) as i32,
            ),
            out@ =~= want.take(i as int),
        decreases n - i,
    {
        proof {
            if bs == 0 {
                assert(bs * bs == 0) by (nonlinear_arith)
                    requires
                        bs == 0,
                ;
            }
            plane::lemma_block_pos(i as int, bs as int, bs as int);
            let (r, c) = (i as int / bs as int, i as int % bs as int);
            assert(paeth_fits(left@[r] as int, above@[c] as int, corner as int));
        }
        out.push(paeth_single(left[i / bs], above[i % bs], corner));
        i = i + 1;
    }
    assert(want.take(n as int) =~= want);
    out
}

// ---------------------------------------------------------------------------
// Smooth modes
// ---------------------------------------------------------------------------

/// Value between a far and a near reference by distance from the near one,
/// rounded to nearest.
pub open spec fn lean(far: int, near: int, dist: int, bs: int, round: int) -> int {
    far + ((near - far) * (bs - 1 - dist) + round) / pow2(side_log2(bs as nat)) as int
}

/// A value pulled towards the near reference by a weight of 64.
pub open spec fn pull(pred: int, near: int, weight: int) -> int {
    pred + ((near - pred) * weight + 32) / 64
}

/// Row of the weight table for a block side.
pub open spec fn weight_row(bs: int) -> int {
    if bs * bs > 512 {
        2
    } else if bs * bs >= 64 {
        1
    } else {
        0
    }
}

/// Every step of one smooth value fits 32 bits.
pub open spec fn steps_fit(
    far: int,
    near: int,
    dist: int,
    bs: int,
    round: int,
    weight: int,
) -> bool {
    let pred = lean(far, near, dist, bs, round);
    &&& fits_i32(near - far)
    &&& fits_i32((near - far) * (bs - 1 - dist))
    &&& fits_i32((near - far) * (bs - 1 - dist) + round)
    &&& fits_i32(pred)
    &&& fits_i32(near - pred)
    &&& fits_i32((near - pred) * weight)
    &&& fits_i32((near - pred) * weight + 32)
    &&& fits_i32(pull(pred, near, weight))
}

/// Every step of a value of the vertical or the horizontal smooth mode at a
/// distance from its near edge fits 32 bits.
pub open spec fn half_fits(bs: int, near: int, far: int, dist: int) -> bool {
    steps_fit(far, near, dist, bs, bs / 2, SM_WEIGHTS@[weight_row(bs)]@[dist] as int)
}

/// Every step of one direction of the smooth mode fits 32 bits.
pub open spec fn side_fits(bs: int, near: int, far: int, dist: int) -> bool {
    let half = pow2((side_log2(bs as nat) - 1) as nat) as int;
    steps_fit(far, near, dist, bs, half, fading_weight(bs, dist))
}

/// Every step of the smooth mode at a sample fits 32 bits.
pub open spec fn smooth_fits(
    bs: int,
    above: int,
    left: int,
    bottom: int,
    right: int,
    r: int,
    c: int,
) -> bool {
    let sum = smooth_side(bs, above, bottom, r) + smooth_side(bs, left, right, c);
    &&& side_fits(bs, above, bottom, r)
    &&& side_fits(bs, left, right, c)
    &&& fits_i32(sum)
    &&& fits_i32(sum + 1)
}

/// Vertical smooth value at row `r`, from the sample above and the bottom
/// reference.
pub open spec fn smooth_v_value(bs: int, above: int, bottom: int, r: int) -> int {
    pull(lean(bottom, above, r, bs, bs / 2), above, SM_WEIGHTS@[weight_row(bs)]@[r] as int)
}

/// Horizontal smooth value at column `c`, from the sample to the left and the
/// right reference.
pub open spec fn smooth_h_value(bs: int, left: int, right: int, c: int) -> int {
    pull(lean(right, left, c, bs, bs / 2), left, SM_WEIGHTS@[weight_row(bs)]@[c] as int)
}

/// Weight that halves with distance, slower in larger blocks.
pub open spec fn fading_weight(bs: int, dist: int) -> int {
    let scale = ((2 * side_log2(bs as nat) - 2) / 4) as nat;
    let k = plane::least(2 * dist / pow2(scale) as int, 6);
    32int / pow2(k as nat) as int
}

/// One direction of the smooth mode.
pub open spec fn smooth_side(bs: int, near: int, far: int, dist: int) -> int {
    let half = pow2((side_log2(bs as nat) - 1) as nat) as int;
    pull(lean(far, near, dist, bs, half), near, fading_weight(bs, dist))
}

/// Smooth value: the mean of both directions.
pub open spec fn smooth_value(
    bs: int,
    above: int,
    left: int,
    bottom: int,
    right: int,
    r: int,
    c: int,
) -> int {
    (smooth_side(bs, above, bottom, r) + smooth_side(bs, left, right, c) + 1) / 2
}

proof fn lemma_side(bs: nat)
    requires
        2 <= bs <= 64,
    ensures
        1 <= side_log2(bs) <= 6,
        2 <= pow2(side_log2(bs)) <= 64,
        pow2((side_log2(bs) - 1) as nat) * 2 == pow2(side_log2(bs)),
{
    lemma2_to64();
    num::lemma_bitlen_bounds(bs);
    num::lemma_bitlen_upper(bs, 7);
    num::lemma_bitlen_lower(bs, 1);
    let k = side_log2(bs);
    lemma_pow2_unfold(k);
    if k < 6 {
        lemma_pow2_strictly_increases(k, 6);
    }
    if k > 1 {
        lemma_pow2_strictly_increases(1, k);
    }
}

proof fn lemma_steps_fit(far: int, near: int, dist: int, bs: int, round: int, weight: int)
    requires
        1 <= bs <= 64,
        0 <= dist < bs,
        0 <= round <= 64,
        0 <= weight <= 32,
        is_reference(far),
        is_reference(near),
    ensures
        steps_fit(far, near, dist, bs, round, weight),
        -0x1000_0000 <= pull(lean(far, near, dist, bs, round), near, weight) <= 0x1000_0000,
{
    let d = near - far;
    let k = bs - 1 - dist;
    let p = pow2(side_log2(bs as nat)) as int;
    lemma_pow2_pos(side_log2(bs as nat));
    assert(-0x1_0001 * 63 <= d * k <= 0x1_0001 * 63) by (nonlinear_arith)
        requires
            -0x1_0001 <= d <= 0x1_0001,
            0 <= k <= 63,
    ;
    let x = d * k + round;
    assert(-0x40_0000 <= x / p <= 0x40_0000) by (nonlinear_arith)
        requires
            -0x40_0000 <= x <= 0x40_0000,
            p >= 1,
    ;
    let back = near - lean(far, near, dist, bs, round);
    assert(-0x42_0000 * 32 <= back * weight <= 0x42_0000 * 32) by (nonlinear_arith)
        requires
            -0x42_0000 <= back <= 0x42_0000,
            0 <= weight <= 32,
    ;
}

/// Among references built from samples no predictor of a block of up to 64x64
/// leaves 32 bits.
pub proof fn law_references_leave_room(
    bs: int,
    above: int,
    left: int,
    bottom: int,
    right: int,
    corner: int,
    r: int,
    c: int,
)
    requires
        1 <= bs <= 64,
        0 <= r < bs,
        0 <= c < bs,
        is_reference(above),
        is_reference(left),
        is_reference(bottom),
        is_reference(right),
        is_reference(corner),
    ensures
        paeth_fits(left, above, corner),
        half_fits(bs, above, bottom, r),
        half_fits(bs, left, right, c),
        bs >= 2 ==> smooth_fits(bs, above, left, bottom, right, r, c),
{
    lemma_weights(weight_row(bs), r);
    lemma_weights(weight_row(bs), c);
    let (wr, wc) = (SM_WEIGHTS@[weight_row(bs)]@[r] as int, SM_WEIGHTS@[weight_row(bs)]@[c] as int);
    lemma_steps_fit(bottom, above, r, bs, bs / 2, wr);
    lemma_steps_fit(right, left, c, bs, bs / 2, wc);
    if bs >= 2 {
        lemma_side(bs as nat);
        let half = pow2((side_log2(bs as nat) - 1) as nat) as int;
        lemma_fading_bounds(bs, r);
        lemma_fading_bounds(bs, c);
        lemma_steps_fit(bottom, above, r, bs, half, fading_weight(bs, r));
        lemma_steps_fit(right, left, c, bs, half, fading_weight(bs, c));
    }
}

proof fn lemma_fading_bounds(bs: int, dist: int)
    requires
        bs >= 1,
        dist >= 0,
    ensures
        0 <= fading_weight(bs, dist) <= 32,
{
    let scale = ((2 * side_log2(bs as nat) - 2) / 4) as nat;
    lemma_pow2_pos(scale);
    let k = plane::least(2 * dist / pow2(scale) as int, 6);
    lemma_pow2_pos(k as nat);
    let p = pow2(k as nat) as int;
    assert(0 <= 32int / p <= 32) by (nonlinear_arith)
        requires
            p >= 1,
    ;
}

/// One smooth value: a lean between two references, pulled to the near one.
fn smooth_of(near: i32, far: i32, dist: usize, bs: usize, log2: u32, round: i64, weight: i64) -> (v:
    i64)
    requires
        dist < bs <= 0x4000_0000,
        log2 == side_log2(bs as nat),
        log2 < 63,
        -0x1_0000_0000 <= round <= 0x1_0000_0000,
        -0x1_0000_0000 <= weight <= 0x1_0000_0000,
        steps_fit(
            far as int,
            near as int,
            dist as int,
            bs as int,
            round as int,
            weight as int,
        ),
    ensures
        v == pull(
            lean(far as int, near as int, dist as int, bs as int, round as int),
            near as int,
            weight as int,
        ),
        fits_i32(v as int),
{
    proof {
        lemma2_to64();
    }
    let diff: i64 = near as i64 - far as i64;
    let k: i64 = (bs - 1 - dist) as i64;
    let pred: i64 = far as i64 + num::floor_shift(diff * k + round, log2);
    let back: i64 = near as i64 - pred;
    pred + num::floor_shift(back * weight + 32, 6)
}

proof fn lemma_weights(row: int, i: int)
    requires
        0 <= row < 3,
        0 <= i < 64,
    ensures
        0 <= SM_WEIGHTS@[row]@[i] <= 32,
{
}

proof fn lemma_log2_small(bs: nat)
    requires
        1 <= bs <= 0x4000_0000,
    ensures
        side_log2(bs) <= 30,
        bs >= 2 ==> side_log2(bs) >= 1,
{
    lemma2_to64();
    num::lemma_bitlen_bounds(bs);
    num::lemma_bitlen_upper(bs, 31);
    if bs >= 2 {
        num::lemma_bitlen_lower(bs, 1);
    }
}

fn smooth_scale(bs: usize) -> (row: usize)
    requires
        bs <= 64,
    ensures
        row == weight_row(bs as int),
        row <= 2,
{
    assert(bs * bs <= 4096) by (nonlinear_arith)
        requires
            bs <= 64,
    ;
    let area: usize = bs * bs;
    if area > 512 {
        2
    } else if area >= 64 {
        1
    } else {
        0
    }
}

/// What the vertical smooth mode needs: the row above, one reference below the
/// column to the left, and room in 32 bits.
pub open spec fn smooth_v_refs(bs: usize, above: Seq<i32>, left: Seq<i32>) -> bool {
    &&& 1 <= bs <= 64
    &&& above.len() >= bs
    &&& left.len() > bs
    &&& forall|r: int, c: int|
        0 <= r < bs && 0 <= c < bs ==> #[trigger] half_fits(
            bs as int,
            above[c] as int,
            left[bs as int] as int,
            r,
        )
}

/// What the horizontal smooth mode needs: the column to the left, one reference
/// beyond the row above, and room in 32 bits.
pub open spec fn smooth_h_refs(bs: usize, above: Seq<i32>, left: Seq<i32>) -> bool {
    &&& 1 <= bs <= 64
    &&& above.len() > bs
    &&& left.len() >= bs
    &&& forall|r: int, c: int|
        0 <= r < bs && 0 <= c < bs ==> #[trigger] half_fits(
            bs as int,
            left[r] as int,
            above[bs as int] as int,
            c,
        )
}

/// What the smooth mode needs: one reference beyond the block on each edge, and
/// room in 32 bits.
pub open spec fn smooth_refs(bs: usize, above: Seq<i32>, left: Seq<i32>) -> bool {
    &&& 2 <= bs <= 0x4000_0000
    &&& bs * bs <= usize::MAX
    &&& above.len() > bs
    &&& left.len() > bs
    &&& forall|r: int, c: int|
        0 <= r < bs && 0 <= c < bs ==> #[trigger] smooth_fits(
            bs as int,
            above[c] as int,
            left[r] as int,
            left[bs as int] as int,
            above[bs as int] as int,
            r,
            c,
        )
}

/// Edges of references built from samples suit every predictor of a block of
/// 2x2 to 64x64.
pub proof fn law_built_references_suit(bs: usize, above: Seq<i32>, left: Seq<i32>, corner: int)
    requires
        2 <= bs <= 64,
        above.len() > bs,
        left.len() > bs,
        are_references(above),
        are_references(left),
        is_reference(corner),
    ensures
        smooth_refs(bs, above, left),
        smooth_v_refs(bs, above, left),
        smooth_h_refs(bs, above, left),
        forall|r: int, c: int|
            0 <= r < bs && 0 <= c < bs ==> paeth_fits(
                #[trigger] left[r] as int,
                #[trigger] above[c] as int,
                corner,
            ),
{
    let (b, bottom, right) = (bs as int, left[bs as int] as int, above[bs as int] as int);
    assert(b * b <= 4096) by (nonlinear_arith)
        requires
            0 <= b <= 64,
    ;
    assert forall|r: int, c: int| 0 <= r < b && 0 <= c < b implies #[trigger] smooth_fits(
        b,
        above[c] as int,
        left[r] as int,
        bottom,
        right,
        r,
        c,
    ) by {
        law_references_leave_room(b, above[c] as int, left[r] as int, bottom, right, corner, r, c);
    }
    assert forall|r: int, c: int| 0 <= r < b && 0 <= c < b implies #[trigger] half_fits(
        b,
        above[c] as int,
        bottom,
        r,
    ) by {
        law_references_leave_room(b, above[c] as int, left[r] as int, bottom, right, corner, r, c);
    }
    assert forall|r: int, c: int| 0 <= r < b && 0 <= c < b implies #[trigger] half_fits(
        b,
        left[r] as int,
        right,
        c,
    ) by {
        law_references_leave_room(b, above[c] as int, left[r] as int, bottom, right, corner, r, c);
    }
}

/// Vertical smooth block, row by row.
pub open spec fn smooth_v_block(bs: int, above: Seq<i32>, left: Seq<i32>) -> Seq<i32> {
    Seq::new(
        (bs * bs) as nat,
        |i: int| smooth_v_value(bs, above[i % bs] as int, left[bs] as int, i / bs) as i32,
    )
}

/// Vertical smooth prediction, row by row.
pub fn smooth_v(bs: usize, above: &[i32], left: &[i32]) -> (out: Vec<i32>)
    requires
        smooth_v_refs(bs, above@, left@),
    ensures
        out@ == smooth_v_block(bs as int, above@, left@),
{
    proof {
        lemma_log2_small(bs as nat);
    }
    let log2: u32 = blk_size_log2(bs);
    let row: usize = smooth_scale(bs);
    let bottom: i32 = left[bs];
    let ghost want = Seq::new(
        (bs * bs) as nat,
        |i: int|
            smooth_v_value(
                bs as int,
                above@[i % bs as int] as int,
                left@[bs as int] as int,
                i / bs as int,
            ) as i32,
    );
    assert(bs * bs <= 4096) by (nonlinear_arith)
        requires
            bs <= 64,
    ;
    let n: usize = bs * bs;
    let mut out: Vec<i32> = Vec::new();
    let mut i: usize = 0;
    while i < n
        invariant
            i <= n,
            n == bs * bs,
            smooth_v_refs(bs, above@, left@),
            log2 == side_log2(bs as nat),
            row == weight_row(bs as int),
            row <= 2,
            log2 < 63,
            bottom == left@[bs as int],
            want.len() == n,
            forall|k: int|
                0 <= k < n ==> #[trigger] want[k] == smooth_v_value(
                    bs as int,
                    above@[k % bs as int] as int,
                    bottom as int,
                    k / bs as int,
                ) as i32,
            out@ =~= want.take(i as int),
        decreases n - i,
    {
        let r: usize = i / bs;
        let c: usize = i % bs;
        proof {
            plane::lemma_block_pos(i as int, bs as int, bs as int);
            lemma_weights(row as int, r as int);
            assert(half_fits(bs as int, above@[c as int] as int, bottom as int, r as int));
        }
        let weight: i64 = SM_WEIGHTS[row][r] as i64;
        let v: i64 = smooth_of(above[c], bottom, r, bs, log2, (bs / 2) as i64, weight);
        assert(want[i as int] == v as i32);
        out.push(v as i32);
        i = i + 1;
    }
    assert(want.take(n as int) =~= want);
    out
}

/// Horizontal smooth block, row by row.
pub open spec fn smooth_h_block(bs: int, above: Seq<i32>, left: Seq<i32>) -> Seq<i32> {
    Seq::new(
        (bs * bs) as nat,
        |i: int| smooth_h_value(bs, left[i / bs] as int, above[bs] as int, i % bs) as i32,
    )
}

/// Horizontal smooth prediction, row by row.
pub fn smooth_h(bs: usize, above: &[i32], left: &[i32]) -> (out: Vec<i32>)
    requires
        smooth_h_refs(bs, above@, left@),
    ensures
        out@ == smooth_h_block(bs as int, above@, left@),
{
    proof {
        lemma_log2_small(bs as nat);
    }
    let log2: u32 = blk_size_log2(bs);
    let row: usize = smooth_scale(bs);
    let right: i32 = above[bs];
    let ghost want = Seq::new(
        (bs * bs) as nat,
        |i: int|
            smooth_h_value(
                bs as int,
                left@[i / bs as int] as int,
                above@[bs as int] as int,
                i % bs as int,
            ) as i32,
    );
    assert(bs * bs <= 4096) by (nonlinear_arith)
        requires
            bs <= 64,
    ;
    let n: usize = bs * bs;
    let mut out: Vec<i32> = Vec::new();
    let mut i: usize = 0;
    while i < n
        invariant
            i <= n,
            n == bs * bs,
            smooth_h_refs(bs, above@, left@),
            log2 == side_log2(bs as nat),
            row == weight_row(bs as int),
            row <= 2,
            log2 < 63,
            right == above@[bs as int],
            want.len() == n,
            forall|k: int|
                0 <= k < n ==> #[trigger] want[k] == smooth_h_value(
                    bs as int,
                    left@[k / bs as int] as int,
                    right as int,
                    k % bs as int,
                ) as i32,
            out@ =~= want.take(i as int),
        decreases n - i,
    {
        let r: usize = i / bs;
        let c: usize = i % bs;
        proof {
            plane::lemma_block_pos(i as int, bs as int, bs as int);
            lemma_weights(row as int, c as int);
            assert(half_fits(bs as int, left@[r as int] as int, right as int, c as int));
        }
        let weight: i64 = SM_WEIGHTS[row][c] as i64;
        let v: i64 = smooth_of(left[r], right, c, bs, log2, (bs / 2) as i64, weight);
        assert(want[i as int] == v as i32);
        out.push(v as i32);
        i = i + 1;
    }
    assert(want.take(n as int) =~= want);
    out
}

fn fading_weight_of(bs: usize, log2: u32, dist: usize) -> (w: i64)
    requires
        2 <= bs <= 0x4000_0000,
        dist < bs,
        log2 == side_log2(bs as nat),
        1 <= log2 <= 30,
    ensures
        w == fading_weight(bs as int, dist as int),
        0 <= w <= 32,
{
    proof {
        lemma_fading_bounds(bs as int, dist as int);
    }
    let scale: u32 = (2 * log2 - 2) / 4;
    let steps: u64 = num::shift_right(2 * dist as u64, scale);
    let k: u32 = if steps < 6 {
        steps as u32
    } else {
        6
    };
    num::shift_right(32, k) as i64
}

/// Smooth block, row by row.
pub open spec fn smooth_block(bs: int, above: Seq<i32>, left: Seq<i32>) -> Seq<i32> {
    Seq::new(
        (bs * bs) as nat,
        |i: int|
            smooth_value(
                bs,
                above[i % bs] as int,
                left[i / bs] as int,
                left[bs] as int,
                above[bs] as int,
                i / bs,
                i % bs,
            ) as i32,
    )
}

/// Smooth prediction, row by row.
pub fn smooth(bs: usize, above: &[i32], left: &[i32]) -> (out: Vec<i32>)
    requires
        smooth_refs(bs, above@, left@),
    ensures
        out@ == smooth_block(bs as int, above@, left@),
{
    proof {
        lemma_log2_small(bs as nat);
    }
    let log2: u32 = blk_size_log2(bs);
    let bottom: i32 = left[bs];
    let right: i32 = above[bs];
    let ghost want = Seq::new(
        (bs * bs) as nat,
        |i: int|
            smooth_value(
                bs as int,
                above@[i % bs as int] as int,
                left@[i / bs as int] as int,
                left@[bs as int] as int,
                above@[bs as int] as int,
                i / bs as int,
                i % bs as int,
            ) as i32,
    );
    proof {
        lemma2_to64();
        lemma_pow2_strictly_increases((log2 - 1) as nat, 32);
    }
    let half: i64 = num::pow2_u64(log2 - 1) as i64;
    let n: usize = bs * bs;
    let mut out: Vec<i32> = Vec::new();
    let mut i: usize = 0;
    while i < n
        invariant
            i <= n,
            n == bs * bs,
            smooth_refs(bs, above@, left@),
            log2 == side_log2(bs as nat),
            half == pow2((log2 - 1) as nat),
            0 <= half <= 0x1_0000_0000,
            1 <= log2 <= 30,
            bottom == left@[bs as int],
            right == above@[bs as int],
            want.len() == n,
            forall|k: int|
                0 <= k < n ==> #[trigger] want[k] == smooth_value(
                    bs as int,
                    above@[k % bs as int] as int,
                    left@[k / bs as int] as int,
                    bottom as int,
                    right as int,
                    k / bs as int,
                    k % bs as int,
                ) as i32,
            out@ =~= want.take(i as int),
        decreases n - i,
    {
        let r: usize = i / bs;
        let c: usize = i % bs;
        proof {
            plane::lemma_block_pos(i as int, bs as int, bs as int);
            assert(smooth_fits(
                bs as int,
                above@[c as int] as int,
                left@[r as int] as int,
                bottom as int,
                right as int,
                r as int,
                c as int,
            ));
        }
        let wr: i64 = fading_weight_of(bs, log2, r);
        let wc: i64 = fading_weight_of(bs, log2, c);
        let v: i64 = smooth_of(above[c], bottom, r, bs, log2, half, wr);
        let h: i64 = smooth_of(left[r], right, c, bs, log2, half, wc);
        proof {
            lemma2_to64();
        }
        let m: i64 = num::floor_shift(v + h + 1, 1);
        assert(want[i as int] == m as i32);
        out.push(m as i32);
        i = i + 1;
    }
    assert(want.take(n as int) =~= want);
    out
}

/// Among equal references every predictor gives that value.
pub proof fn law_flat_references(bs: int, v: int, r: int, c: int)
    requires
        2 <= bs <= 64,
        0 <= r < bs,
        0 <= c < bs,
    ensures
        paeth_value(v, v, v) == v,
        smooth_v_value(bs, v, v, r) == v,
        smooth_h_value(bs, v, v, c) == v,
        smooth_value(bs, v, v, v, v, r, c) == v,
{
    lemma_side(bs as nat);
    let k = side_log2(bs as nat);
    let p = pow2(k) as int;
    let half = pow2((k - 1) as nat) as int;
    num::lemma_bitlen_bounds(bs as nat);
    lemma_pow2_unfold(k + 1);
    assert forall|d: int, round: int| 0 <= round < p implies #[trigger] lean(v, v, d, bs, round)
        == v by {
        lemma_mul_basics(bs - 1 - d);
        assert(round / p == 0) by (nonlinear_arith)
            requires
                0 <= round < p,
        ;
    }
    assert forall|w: int| #[trigger] pull(v, v, w) == v by {
        lemma_mul_basics(w);
    }
    assert(lean(v, v, r, bs, bs / 2) == v);
    assert(lean(v, v, c, bs, bs / 2) == v);
    assert(lean(v, v, r, bs, half) == v);
    assert(lean(v, v, c, bs, half) == v);
    assert(smooth_side(bs, v, v, r) == v);
    assert(smooth_side(bs, v, v, c) == v);
}

/// On blocks whose side is a power of two from 4 to 64 the smooth mode is the
/// mean of its vertical and its horizontal half.
pub proof fn law_smooth_is_mean_of_halves(
    bs: int,
    above: int,
    left: int,
    bottom: int,
    right: int,
    r: int,
    c: int,
)
    requires
        bs == 4 || bs == 8 || bs == 16 || bs == 32 || bs == 64,
        0 <= r < bs,
        0 <= c < bs,
    ensures
        smooth_value(bs, above, left, bottom, right, r, c) == (smooth_v_value(bs, above, bottom, r)
            + smooth_h_value(bs, left, right, c) + 1) / 2,
{
    lemma2_to64();
    lemma_side(bs as nat);
    num::lemma_bitlen_bounds(bs as nat);
    lemma_power_side(bs);
    lemma_fading(bs, r);
    lemma_fading(bs, c);
}

proof fn lemma_power_side(bs: int)
    requires
        bs == 4 || bs == 8 || bs == 16 || bs == 32 || bs == 64,
    ensures
        pow2(side_log2(bs as nat)) == bs,
        pow2((side_log2(bs as nat) - 1) as nat) == bs / 2,
        side_log2(bs as nat) == if bs == 4 {
            2nat
        } else if bs == 8 {
            3nat
        } else if bs == 16 {
            4nat
        } else if bs == 32 {
            5nat
        } else {
            6nat
        },
{
    lemma2_to64();
    lemma_side(bs as nat);
    let k: nat = if bs == 4 {
        2
    } else if bs == 8 {
        3
    } else if bs == 16 {
        4
    } else if bs == 32 {
        5
    } else {
        6
    };
    num::lemma_bitlen_lower(bs as nat, k);
    num::lemma_bitlen_upper(bs as nat, k + 1);
}

proof fn lemma_fading(bs: int, dist: int)
    requires
        bs == 4 || bs == 8 || bs == 16 || bs == 32 || bs == 64,
        0 <= dist < bs,
    ensures
        fading_weight(bs, dist) == SM_WEIGHTS@[weight_row(bs)]@[dist],
{
    lemma2_to64();
    lemma_power_side(bs);
    let row = if bs == 4 {
        0int
    } else if bs <= 16 {
        1
    } else {
        2
    };
    assert(weight_row(bs) == row) by {
        if bs == 4 {
            assert(4 * 4 == 16int);
        } else if bs == 8 {
            assert(8 * 8 == 64int);
        } else if bs == 16 {
            assert(16 * 16 == 256int);
        } else if bs == 32 {
            assert(32 * 32 == 1024int);
        } else {
            assert(64 * 64 == 4096int);
        }
    }
    let scale = ((2 * side_log2(bs as nat) - 2) / 4) as nat;
    assert(scale == row);
    let steps = 2 * dist / pow2(scale) as int;
    assert(steps == if row == 0 {
        2 * dist
    } else if row == 1 {
        dist
    } else {
        dist / 2
    });
    let k = plane::least(steps, 6);
    assert(fading_weight(bs, dist) == 32int / pow2(k as nat) as int);
    lemma_halvings(k);
}

proof fn lemma_halvings(k: int)
    requires
        0 <= k <= 6,
    ensures
        32int / pow2(k as nat) as int == if k == 0 {
            32int
        } else if k == 1 {
            16
        } else if k == 2 {
            8
        } else if k == 3 {
            4
        } else if k == 4 {
            2
        } else if k == 5 {
            1
        } else {
            0
        },
{
    lemma2_to64();
    if k == 0 {
        assert(32int / 1 == 32);
    } else if k == 1 {
        assert(32int / 2 == 16);
    } else if k == 2 {
        assert(32int / 4 == 8);
    } else if k == 3 {
        assert(32int / 8 == 4);
    } else if k == 4 {
        assert(32int / 16 == 2);
    } else if k == 5 {
        assert(32int / 32 == 1);
    } else {
        assert(32int / 64 == 0);
    }
}

// ---------------------------------------------------------------------------
// References
// ---------------------------------------------------------------------------

/// Where a block lies and which samples around it are available.
#[derive(Clone, Copy, Debug)]
pub struct IntraRefSpec {
    pub stride: usize,
    pub y: usize,
    pub x: usize,
    pub block_size: usize,
    pub have_above: bool,
    pub have_left: bool,
    /// Samples beyond the block to the right of the row above.
    pub top_right: usize,
    /// Samples beyond the block below the column to the left.
    pub bottom_left: usize,
    pub neutral: u16,
    /// Samples of the block's own row above that lie in the frame.
    pub available_above: usize,
    /// Samples of the block's own column to the left that lie in the frame.
    pub available_left: usize,
}

/// Samples of an edge that are read: with the whole block side in the frame, that
/// side and those beyond it that are available, up to one more block side. It is
/// an assumption, not a rule of the format, that an edge of which the frame holds
/// less than a block side is read as far as the frame goes.
pub open spec fn edge_samples(bs: int, available: int, beyond: int) -> int {
    if available < bs {
        available
    } else {
        bs + plane::least(beyond, bs)
    }
}

impl IntraRefSpec {
    /// Samples read from the row above.
    pub open spec fn above_samples(self) -> int {
        edge_samples(self.block_size as int, self.available_above as int, self.top_right as int)
    }

    /// Samples read from the column to the left.
    pub open spec fn left_samples(self) -> int {
        edge_samples(self.block_size as int, self.available_left as int, self.bottom_left as int)
    }

    /// The samples that the block refers to lie in a plane of `len` samples.
    pub open spec fn fits(self, len: nat) -> bool {
        let (w, y, x) = (self.stride as int, self.y as int, self.x as int);
        &&& 1 <= self.block_size
        &&& 2 * self.block_size <= usize::MAX
        &&& self.available_above >= 1
        &&& self.available_left >= 1
        &&& self.have_above ==> y >= 1 && (y - 1) * w + x + self.above_samples() <= len
        &&& self.have_left ==> x >= 1 && (y + self.left_samples() - 1) * w + x <= len
    }
}

/// Reference `i` above a block: from the row above as far as it is available,
/// then its last sample; without a row above, the sample to the left; without
/// both, one less than the middle value.
pub open spec fn above_ref(rec: Seq<u16>, s: IntraRefSpec, i: int) -> int {
    let (w, y, x) = (s.stride as int, s.y as int, s.x as int);
    if s.have_above {
        rec[(y - 1) * w + x + plane::least(i, s.above_samples() - 1)] as int
    } else if s.have_left {
        rec[y * w + x - 1] as int
    } else {
        s.neutral - 1
    }
}

/// Reference `i` to the left of a block, in the same way; without both edges,
/// one more than the middle value.
pub open spec fn left_ref(rec: Seq<u16>, s: IntraRefSpec, i: int) -> int {
    let (w, y, x) = (s.stride as int, s.y as int, s.x as int);
    if s.have_left {
        rec[(y + plane::least(i, s.left_samples() - 1)) * w + x - 1] as int
    } else if s.have_above {
        rec[(y - 1) * w + x] as int
    } else {
        s.neutral + 1
    }
}

/// Corner reference.
pub open spec fn corner_ref(rec: Seq<u16>, s: IntraRefSpec) -> int {
    let (w, y, x) = (s.stride as int, s.y as int, s.x as int);
    if s.have_above && s.have_left {
        rec[(y - 1) * w + x - 1] as int
    } else if s.have_above {
        rec[(y - 1) * w + x] as int
    } else if s.have_left {
        rec[y * w + x - 1] as int
    } else {
        s.neutral as int
    }
}

/// All references above a block: two block sides.
pub open spec fn above_refs(rec: Seq<u16>, s: IntraRefSpec) -> Seq<i32> {
    Seq::new((2 * s.block_size) as nat, |i: int| above_ref(rec, s, i) as i32)
}

/// All references to the left of a block: two block sides.
pub open spec fn left_refs(rec: Seq<u16>, s: IntraRefSpec) -> Seq<i32> {
    Seq::new((2 * s.block_size) as nat, |i: int| left_ref(rec, s, i) as i32)
}

fn least_of(a: usize, b: usize) -> (r: usize)
    ensures
        r == plane::least(a as int, b as int),
{
    if a < b {
        a
    } else {
        b
    }
}

fn edge_samples_of(bs: usize, available: usize, beyond: usize) -> (n: usize)
    requires
        1 <= bs,
        2 * bs <= usize::MAX,
        available >= 1,
    ensures
        n == edge_samples(bs as int, available as int, beyond as int),
        1 <= n <= 2 * bs,
{
    if available < bs {
        available
    } else {
        bs + least_of(beyond, bs)
    }
}

/// References of a block: those above, those to the left, and the corner.
pub fn build_refs(rec: &[u16], spec: &IntraRefSpec) -> (r: (Vec<i32>, Vec<i32>, i32))
    requires
        spec.fits(rec@.len()),
    ensures
        r.0@ == above_refs(rec@, *spec),
        r.1@ == left_refs(rec@, *spec),
        r.2 == corner_ref(rec@, *spec),
        are_references(r.0@),
        are_references(r.1@),
        is_reference(r.2 as int),
{
    let len: usize = rec.len();
    let base: i32 = spec.neutral as i32;
    let bs: usize = spec.block_size;
    let (have_above, have_left) = (spec.have_above, spec.have_left);
    let (pw, y0, x0) = (spec.stride, spec.y, spec.x);
    let last_above: usize = edge_samples_of(bs, spec.available_above, spec.top_right) - 1;
    let last_left: usize = edge_samples_of(bs, spec.available_left, spec.bottom_left) - 1;
    let ghost (w, y, x) = (pw as int, y0 as int, x0 as int);
    proof {
        if have_above {
            assert((y - 1) * w >= 0) by (nonlinear_arith)
                requires
                    y >= 1,
                    w >= 0,
            ;
        }
        if have_left {
            assert(y * w >= 0) by (nonlinear_arith)
                requires
                    y >= 0,
                    w >= 0,
            ;
            assert(y * w <= (y + last_left) * w) by (nonlinear_arith)
                requires
                    last_left >= 0,
                    w >= 0,
            ;
        }
        if have_above && have_left {
            assert((y - 1) * w + w == y * w) by (nonlinear_arith);
        }
    }
    let top_row: usize = if have_above {
        (y0 - 1) * pw + x0
    } else {
        0
    };
    let left_start: usize = if have_left {
        y0 * pw + (x0 - 1)
    } else {
        0
    };
    let mut above: Vec<i32> = Vec::new();
    let mut left: Vec<i32> = Vec::new();
    let mut i: usize = 0;
    while i < 2 * bs
        invariant
            i <= 2 * bs,
            1 <= bs,
            2 * bs <= usize::MAX,
            len == rec@.len(),
            spec.fits(len as nat),
            base == spec.neutral,
            bs == spec.block_size,
            have_above == spec.have_above,
            have_left == spec.have_left,
            pw == spec.stride,
            w == spec.stride,
            y == spec.y,
            x == spec.x,
            last_above == spec.above_samples() - 1,
            last_left == spec.left_samples() - 1,
            have_above ==> top_row == (y - 1) * w + x,
            have_left ==> left_start == y * w + x - 1,
            have_left ==> left_start < len,
            above@.len() == i,
            left@.len() == i,
            forall|k: int| 0 <= k < i ==> #[trigger] above@[k] == above_ref(rec@, *spec, k),
            forall|k: int| 0 <= k < i ==> #[trigger] left@[k] == left_ref(rec@, *spec, k),
            are_references(above@),
            are_references(left@),
        decreases 2 * bs - i,
    {
        let a: i32 = if have_above {
            rec[top_row + least_of(i, last_above)] as i32
        } else if have_left {
            rec[left_start] as i32
        } else {
            base - 1
        };
        let l: i32 = if have_left {
            let k: usize = least_of(i, last_left);
            proof {
                assert((y + k) * w == y * w + k * w) by (nonlinear_arith);
                assert(0 <= k * w && k * w <= last_left * w) by (nonlinear_arith)
                    requires
                        0 <= k <= last_left,
                        w >= 0,
                ;
                assert((y + last_left) * w == y * w + last_left * w) by (nonlinear_arith);
            }
            rec[left_start + k * pw] as i32
        } else if have_above {
            rec[top_row] as i32
        } else {
            base + 1
        };
        above.push(a);
        left.push(l);
        i = i + 1;
    }
    let corner: i32 = if have_above && have_left {
        rec[top_row - 1] as i32
    } else if have_above {
        rec[top_row] as i32
    } else if have_left {
        rec[left_start] as i32
    } else {
        base
    };
    assert(above@ =~= above_refs(rec@, *spec));
    assert(left@ =~= left_refs(rec@, *spec));
    (above, left, corner)
}

/// References above a block are reconstructed samples of the row above it: as many
/// as the block is wide and, where the frame holds all of those, up to as many more
/// to the right as there are. The last of them repeats. Without that row they are
/// all the sample to the left of the block's first, and without both edges one
/// less than the middle value.
pub proof fn law_references_above_are_samples(rec: Seq<u16>, s: IntraRefSpec, i: int)
    requires
        s.block_size >= 1,
        s.available_above >= 1,
        0 <= i < 2 * s.block_size,
    ensures
        ({
            let (bs, row) = (s.block_size as int, (s.y - 1) * s.stride + s.x);
            let r = above_refs(rec, s);
            &&& r.len() == 2 * bs
            &&& s.have_above && s.available_above >= bs ==> {
                &&& i < bs ==> r[i] == rec[row + i]
                &&& i < bs + s.top_right ==> r[i] == rec[row + i]
                &&& i >= bs + s.top_right ==> r[i] == rec[row + bs + s.top_right - 1]
            }
            &&& s.have_above && s.available_above < bs ==> {
                &&& i < s.available_above ==> r[i] == rec[row + i]
                &&& i >= s.available_above ==> r[i] == rec[row + s.available_above - 1]
            }
            &&& !s.have_above && s.have_left ==> r[i] == rec[s.y * s.stride + s.x - 1]
            &&& !s.have_above && !s.have_left ==> r[i] == s.neutral - 1
        }),
{
}

/// References to the left of a block are reconstructed samples of the column
/// beside it: as many as the block is high and, where the frame holds all of those,
/// up to as many more below as there are. The last of them repeats. Without that
/// column they are all the sample above the block's first, and without both edges
/// one more than the middle value.
pub proof fn law_references_to_the_left_are_samples(rec: Seq<u16>, s: IntraRefSpec, i: int)
    requires
        s.block_size >= 1,
        s.available_left >= 1,
        0 <= i < 2 * s.block_size,
    ensures
        ({
            let (bs, w) = (s.block_size as int, s.stride as int);
            let r = left_refs(rec, s);
            &&& r.len() == 2 * bs
            &&& s.have_left && s.available_left >= bs ==> {
                &&& i < bs ==> r[i] == rec[(s.y + i) * w + s.x - 1]
                &&& i < bs + s.bottom_left ==> r[i] == rec[(s.y + i) * w + s.x - 1]
                &&& i >= bs + s.bottom_left ==> r[i] == rec[(s.y + bs + s.bottom_left - 1) * w
                    + s.x - 1]
            }
            &&& s.have_left && s.available_left < bs ==> {
                &&& i < s.available_left ==> r[i] == rec[(s.y + i) * w + s.x - 1]
                &&& i >= s.available_left ==> r[i] == rec[(s.y + s.available_left - 1) * w + s.x
                    - 1]
            }
            &&& !s.have_left && s.have_above ==> r[i] == rec[(s.y - 1) * w + s.x]
            &&& !s.have_left && !s.have_above ==> r[i] == s.neutral + 1
        }),
{
    if s.have_left && s.available_left >= s.block_size {
        let last = s.block_size + s.bottom_left - 1;
        assert(s.y + last == s.y + s.block_size + s.bottom_left - 1);
    }
}

/// The corner reference is the sample diagonally before the block. Without one of
/// the edges it is the first reference of the other, and without both the middle
/// value.
pub proof fn law_corner_joins_the_edges(rec: Seq<u16>, s: IntraRefSpec)
    requires
        s.block_size >= 1,
        s.available_above >= 1,
        s.available_left >= 1,
    ensures
        ({
            let corner = corner_ref(rec, s);
            let (above, left) = (above_refs(rec, s), left_refs(rec, s));
            &&& s.have_above && s.have_left ==> corner == rec[(s.y - 1) * s.stride + s.x - 1]
            &&& s.have_above != s.have_left ==> corner == above[0] && corner == left[0]
            &&& !s.have_above && !s.have_left ==> corner == s.neutral && above[0] + 1 == corner
                && left[0] - 1 == corner
        }),
{
}

// ---------------------------------------------------------------------------
// What the predictors are
// ---------------------------------------------------------------------------

/// Of references that are equally near to `top + left - corner` PAETH takes the left
/// one before the one above, and that before the corner: the left one is the step
/// from the corner to the top away, the one above the step from the corner to the
/// left.
pub proof fn law_paeth_prefers_left_then_top(left: int, top: int, corner: int)
    ensures
        ({
            let (dl, dt, dc) = (
                vstd::math::abs(top - corner),
                vstd::math::abs(left - corner),
                vstd::math::abs(top + left - 2 * corner),
            );
            let p = paeth_value(left, top, corner);
            &&& dl <= dt && dl <= dc ==> p == left
            &&& dt < dl && dt <= dc ==> p == top
            &&& dc < dl && dc < dt ==> p == corner
        }),
{
}

/// Row `r` and column `c` of a predicted block: PAETH and the horizontal mode take
/// the reference to the left of the row, PAETH and the vertical mode that above the
/// column, and the smooth modes the last reference of the other edge.
pub proof fn law_blocks_are_predicted_in_place(
    bs: int,
    above: Seq<i32>,
    left: Seq<i32>,
    corner: int,
    r: int,
    c: int,
)
    requires
        0 <= r < bs,
        0 <= c < bs,
    ensures
        paeth_block(bs, above, left, corner)[r * bs + c] == paeth_value(
            left[r] as int,
            above[c] as int,
            corner,
        ) as i32,
        smooth_v_block(bs, above, left)[r * bs + c] == smooth_v_value(
            bs,
            above[c] as int,
            left[bs] as int,
            r,
        ) as i32,
        smooth_h_block(bs, above, left)[r * bs + c] == smooth_h_value(
            bs,
            left[r] as int,
            above[bs] as int,
            c,
        ) as i32,
        smooth_block(bs, above, left)[r * bs + c] == smooth_value(
            bs,
            above[c] as int,
            left[r] as int,
            left[bs] as int,
            above[bs] as int,
            r,
            c,
        ) as i32,
{
    plane::lemma_in_block(r, c, bs, bs);
    vstd::arithmetic::div_mod::lemma_fundamental_div_mod_converse(r * bs + c, bs, r, c);
}

/// Exchanging both edges transposes the smooth modes: the vertical one becomes the
/// horizontal one, and the mean of both its own mirror.
pub proof fn law_smooth_modes_mirror_each_other(
    bs: int,
    above: Seq<i32>,
    left: Seq<i32>,
    r: int,
    c: int,
)
    requires
        0 <= r < bs,
        0 <= c < bs,
    ensures
        smooth_v_block(bs, above, left)[r * bs + c] == smooth_h_block(bs, left, above)[c * bs + r],
        smooth_block(bs, above, left)[r * bs + c] == smooth_block(bs, left, above)[c * bs + r],
{
    law_blocks_are_predicted_in_place(bs, above, left, 0, r, c);
    law_blocks_are_predicted_in_place(bs, left, above, 0, c, r);
}

/// A value of the vertical or the horizontal smooth mode: on the line from the near
/// reference to the far one, then pulled to the near one by a weight that halves
/// with the distance, every other sample from sides of 32 on and twice as fast on a
/// side of 4.
pub proof fn law_smooth_is_a_pulled_line(bs: int, near: int, far: int, dist: int)
    requires
        bs == 4 || bs == 8 || bs == 16 || bs == 32 || bs == 64,
        0 <= dist < bs,
    ensures
        ({
            let halvings = if bs == 4 {
                2 * dist
            } else if bs <= 16 {
                dist
            } else {
                dist / 2
            };
            let w = if halvings >= 6 {
                0int
            } else {
                32int / pow2(halvings as nat) as int
            };
            let line = far + ((near - far) * (bs - 1 - dist) + bs / 2) / bs;
            let v = line + ((near - line) * w + 32) / 64;
            &&& smooth_v_value(bs, near, far, dist) == v
            &&& smooth_h_value(bs, near, far, dist) == v
        }),
{
    lemma2_to64();
    lemma_power_side(bs);
    lemma_fading(bs, dist);
    let halvings = if bs == 4 {
        2 * dist
    } else if bs <= 16 {
        dist
    } else {
        dist / 2
    };
    let scale = ((2 * side_log2(bs as nat) - 2) / 4) as nat;
    assert(scale == if bs == 4 {
        0int
    } else if bs <= 16 {
        1
    } else {
        2
    });
    let steps = 2 * dist / pow2(scale) as int;
    if bs == 4 {
        assert(pow2(scale) == 1);
    } else if bs <= 16 {
        assert(pow2(scale) == 2);
        assert(2 * dist / 2 == dist);
    } else {
        assert(pow2(scale) == 4);
        assert(2 * dist / 4 == dist / 2);
    }
    assert(steps == halvings);
    lemma_halvings(plane::least(halvings, 6));
}

/// Smooth values stay between the references that they are drawn from.
pub proof fn law_smooth_stays_between(bs: int, near: int, far: int, dist: int)
    requires
        bs == 4 || bs == 8 || bs == 16 || bs == 32 || bs == 64,
        0 <= dist < bs,
    ensures
        near <= far ==> near <= smooth_v_value(bs, near, far, dist) <= far,
        far <= near ==> far <= smooth_v_value(bs, near, far, dist) <= near,
        near <= far ==> near <= smooth_h_value(bs, near, far, dist) <= far,
        far <= near ==> far <= smooth_h_value(bs, near, far, dist) <= near,
{
    law_smooth_is_a_pulled_line(bs, near, far, dist);
    lemma_power_side(bs);
    lemma_fading(bs, dist);
    lemma_weights(weight_row(bs), dist);
    let w = SM_WEIGHTS@[weight_row(bs)]@[dist] as int;
    let (d, k) = (near - far, bs - 1 - dist);
    let q = (d * k + bs / 2) / bs;
    if d >= 0 {
        assert(0 <= q <= d) by (nonlinear_arith)
            requires
                q == (d * k + bs / 2) / bs,
                0 <= k < bs,
                d >= 0,
                bs >= 2,
        ;
        let e = d - q;
        let t = (e * w + 32) / 64;
        assert(0 <= t <= e) by (nonlinear_arith)
            requires
                t == (e * w + 32) / 64,
                0 <= w <= 32,
                e >= 0,
        ;
    } else {
        assert(d <= q <= 0) by (nonlinear_arith)
            requires
                q == (d * k + bs / 2) / bs,
                0 <= k < bs,
                d <= 0,
                bs >= 2,
        ;
        let e = d - q;
        let t = (e * w + 32) / 64;
        assert(e <= t <= 0) by (nonlinear_arith)
            requires
                t == (e * w + 32) / 64,
                0 <= w <= 32,
                e <= 0,
        ;
    }
}

} // verus!
