//! Search of the intra mode of a luma block that is coded in 32x32 transforms.
//!
//! A search lists candidates, scores their predictions and keeps the most
//! promising ones, codes those, takes the cheapest, and codes it again where
//! only the winner gets its levels optimized. Coding and its costs lie with the
//! caller; costs only have to be ordered.

use crate::distortion;
use crate::distortion::{rect_sse, PlaneRect};
use crate::encoder::Speed;
use crate::leaf;
use crate::leaf::{keep_best, luma_keep, luma_leaf_keep, luma_mode_candidates};
use crate::metrics;
use crate::metrics::satd;
use crate::plane;
use crate::plane::put_block;
use vstd::prelude::*;

verus! {

// ---------------------------------------------------------------------------
// Geometry
// ---------------------------------------------------------------------------

/// Luma blocks that share one mode.
#[derive(Clone, Copy, Debug, PartialEq, Eq, Structural)]
pub enum LumaShape {
    /// 64 by 64.
    Superblock,
    /// 64 wide and 32 high.
    Wide,
    /// 32 wide and 64 high.
    Tall,
    /// 32 by 32.
    Single,
}

/// Place of a transform in its block, and its number in the superblock.
#[derive(Clone, Copy, Debug, PartialEq, Eq, Structural)]
pub struct TxSpot {
    pub y: usize,
    pub x: usize,
    pub index: usize,
}

/// Width of a block.
pub open spec fn shape_width(shape: LumaShape) -> int {
    match shape {
        LumaShape::Superblock | LumaShape::Wide => 64,
        LumaShape::Tall | LumaShape::Single => 32,
    }
}

/// Height of a block.
pub open spec fn shape_height(shape: LumaShape) -> int {
    match shape {
        LumaShape::Superblock | LumaShape::Tall => 64,
        LumaShape::Wide | LumaShape::Single => 32,
    }
}

/// Transforms of a block in coding order.
pub open spec fn spots(shape: LumaShape) -> Seq<TxSpot> {
    match shape {
        LumaShape::Superblock => seq![
            TxSpot { y: 0, x: 0, index: 0 },
            TxSpot { y: 0, x: 32, index: 1 },
            TxSpot { y: 32, x: 0, index: 2 },
            TxSpot { y: 32, x: 32, index: 3 },
        ],
        LumaShape::Wide => seq![
            TxSpot { y: 0, x: 0, index: 0 },
            TxSpot { y: 0, x: 32, index: 1 },
        ],
        LumaShape::Tall => seq![
            TxSpot { y: 0, x: 0, index: 0 },
            TxSpot { y: 32, x: 0, index: 2 },
        ],
        LumaShape::Single => seq![TxSpot { y: 0, x: 0, index: 0 }],
    }
}

/// Transforms of a block in coding order.
pub fn transform_spots(shape: LumaShape) -> (out: Vec<TxSpot>)
    ensures
        out@ == spots(shape),
{
    let mut out: Vec<TxSpot> = Vec::new();
    out.push(TxSpot { y: 0, x: 0, index: 0 });
    if shape == LumaShape::Superblock || shape == LumaShape::Wide {
        out.push(TxSpot { y: 0, x: 32, index: 1 });
    }
    if shape == LumaShape::Superblock || shape == LumaShape::Tall {
        out.push(TxSpot { y: 32, x: 0, index: 2 });
    }
    if shape == LumaShape::Superblock {
        out.push(TxSpot { y: 32, x: 32, index: 3 });
    }
    assert(out@ =~= spots(shape));
    out
}

/// A transform holds a sample of its block.
pub open spec fn holds_sample(t: TxSpot, y: int, x: int) -> bool {
    t.y <= y < t.y + 32 && t.x <= x < t.x + 32
}

/// Every sample of a block lies in exactly one of its transforms, and transforms
/// are numbered in raster order.
pub proof fn law_transforms_tile_the_block(shape: LumaShape, y: int, x: int)
    requires
        0 <= y < shape_height(shape),
        0 <= x < shape_width(shape),
    ensures
        exists|i: int| 0 <= i < spots(shape).len() && holds_sample(#[trigger] spots(shape)[i], y, x),
        forall|i: int, j: int|
            0 <= i < spots(shape).len() && 0 <= j < spots(shape).len() && holds_sample(
                #[trigger] spots(shape)[i],
                y,
                x,
            ) && holds_sample(#[trigger] spots(shape)[j], y, x) ==> i == j,
        forall|i: int|
            0 <= i < spots(shape).len() ==> (#[trigger] spots(shape)[i]).index == spots(shape)[i].y
                / 32 * 2 + spots(shape)[i].x / 32,
{
    let s = spots(shape);
    let k = match shape {
        LumaShape::Superblock => 2 * (y / 32) + x / 32,
        LumaShape::Wide => x / 32,
        LumaShape::Tall => y / 32,
        LumaShape::Single => 0,
    };
    assert(holds_sample(s[k], y, x));
}

// ---------------------------------------------------------------------------
// Candidates
// ---------------------------------------------------------------------------

/// Modes that a search tries, with their angles. Only whole superblocks try
/// directions.
pub open spec fn trial_modes(shape: LumaShape, speed: Speed, directional: bool) -> Seq<
    (usize, i32),
> {
    leaf::expanded(
        leaf::base_modes(speed == Speed::Fast, directional && shape == LumaShape::Superblock),
        speed == Speed::Slow,
    )
}

/// Modes that a search tries, with their angles, in order.
pub fn mode_trials(shape: LumaShape, speed: Speed, directional: bool) -> (out: Vec<(usize, i32)>)
    ensures
        out@ == trial_modes(shape, speed, directional),
{
    luma_mode_candidates(speed, directional && shape == LumaShape::Superblock)
}

proof fn lemma_first_candidate(modes: Seq<usize>, all: bool)
    requires
        modes.len() > 0,
        modes[0] < 5,
    ensures
        leaf::expanded(modes, all).len() > 0,
        leaf::expanded(modes, all)[0] == (modes[0], 0i32),
    decreases modes.len(),
{
    if modes.len() > 1 {
        lemma_first_candidate(modes.drop_last(), all);
    } else {
        assert(modes.drop_last() =~= Seq::empty());
        assert(leaf::expanded(modes.drop_last(), all) =~= Seq::empty());
        assert(leaf::expanded(modes, all) =~= leaf::with_angles(modes[0], all));
    }
}

/// The flat prediction is the first candidate of every search.
pub proof fn law_flat_mode_is_tried_first(shape: LumaShape, speed: Speed, directional: bool)
    ensures
        trial_modes(shape, speed, directional).len() > 0,
        trial_modes(shape, speed, directional)[0] == (0usize, 0i32),
{
    lemma_first_candidate(
        leaf::base_modes(speed == Speed::Fast, directional && shape == LumaShape::Superblock),
        speed == Speed::Slow,
    );
}

/// How many candidates are coded, where a search scores them first.
pub open spec fn kept(shape: LumaShape, speed: Speed) -> Option<nat> {
    match shape {
        LumaShape::Superblock => Some(
            if speed == Speed::Slow {
                8
            } else {
                4
            },
        ),
        LumaShape::Single => Some(
            if speed == Speed::Fast {
                2
            } else {
                3
            },
        ),
        LumaShape::Wide | LumaShape::Tall => None,
    }
}

/// Whether `n` candidates are too many to code them all.
pub open spec fn too_many(shape: LumaShape, speed: Speed, n: int) -> bool {
    kept(shape, speed) is Some && n > kept(shape, speed)->0
}

/// Whether `n` candidates have to be scored.
pub fn needs_scores(shape: LumaShape, speed: Speed, n: usize) -> (b: bool)
    ensures
        b == too_many(shape, speed, n as int),
{
    match shape {
        LumaShape::Superblock => n > luma_keep(speed),
        LumaShape::Single => n > luma_leaf_keep(speed),
        LumaShape::Wide | LumaShape::Tall => false,
    }
}

/// The candidates that are coded: the best scored ones in order, or all.
pub open spec fn is_shortlist(
    shape: LumaShape,
    speed: Speed,
    trials: Seq<(usize, i32)>,
    scores: Seq<u64>,
    out: Seq<(usize, i32)>,
) -> bool {
    if too_many(shape, speed, trials.len() as int) {
        exists|order: Seq<usize>|
            #[trigger] leaf::is_ranking(scores, kept(shape, speed)->0, order) && out
                == order.map_values(|i: usize| trials[i as int])
    } else {
        out == trials
    }
}

/// Choose the candidates to code. Scores are only read where there are too many.
pub fn shortlist(
    shape: LumaShape,
    speed: Speed,
    trials: &Vec<(usize, i32)>,
    scores: &[u64],
) -> (out: Vec<(usize, i32)>)
    requires
        too_many(shape, speed, trials@.len() as int) ==> scores@.len() == trials@.len(),
    ensures
        is_shortlist(shape, speed, trials@, scores@, out@),
{
    let mut out: Vec<(usize, i32)> = Vec::new();
    if !needs_scores(shape, speed, trials.len()) {
        let mut i: usize = 0;
        while i < trials.len()
            invariant
                i <= trials@.len(),
                out@ =~= trials@.take(i as int),
            decreases trials@.len() - i,
        {
            out.push(trials[i]);
            i = i + 1;
        }
        assert(trials@.take(i as int) =~= trials@);
        return out;
    }
    let keep: usize = if shape == LumaShape::Superblock {
        luma_keep(speed)
    } else {
        luma_leaf_keep(speed)
    };
    let order = keep_best(scores, keep);
    let ghost want = order@.map_values(|i: usize| trials@[i as int]);
    let mut i: usize = 0;
    while i < order.len()
        invariant
            i <= order@.len(),
            forall|k: int| 0 <= k < order@.len() ==> 0 <= #[trigger] order@[k] < trials@.len(),
            want == order@.map_values(|i: usize| trials@[i as int]),
            out@ =~= want.take(i as int),
        decreases order@.len() - i,
    {
        out.push(trials[order[i]]);
        i = i + 1;
    }
    assert(want.take(i as int) =~= want);
    assert(leaf::is_ranking(scores@, kept(shape, speed)->0, order@));
    out
}

/// What is coded was a candidate, and at least one candidate is coded.
pub proof fn law_shortlist_is_drawn_from_the_candidates(
    shape: LumaShape,
    speed: Speed,
    trials: Seq<(usize, i32)>,
    scores: Seq<u64>,
    out: Seq<(usize, i32)>,
)
    requires
        trials.len() > 0,
        too_many(shape, speed, trials.len() as int) ==> scores.len() == trials.len(),
        is_shortlist(shape, speed, trials, scores, out),
    ensures
        0 < out.len() <= trials.len(),
        forall|i: int| 0 <= i < out.len() ==> trials.contains(#[trigger] out[i]),
{
    if too_many(shape, speed, trials.len() as int) {
        let order = choose|order: Seq<usize>|
            #[trigger] leaf::is_ranking(scores, kept(shape, speed)->0, order) && out
                == order.map_values(|i: usize| trials[i as int]);
        assert forall|i: int| 0 <= i < out.len() implies trials.contains(#[trigger] out[i]) by {
            assert(out[i] == trials[order[i] as int]);
        }
    }
}

// ---------------------------------------------------------------------------
// Choice
// ---------------------------------------------------------------------------

/// Bits that a mode is charged.
pub open spec fn charged(mode: int) -> int {
    if mode == 0 {
        0
    } else if mode < 5 {
        6
    } else {
        9
    }
}

/// Bits that a mode is charged: none for the flat mode, more for directions.
pub fn mode_bits(mode: usize) -> (bits: u32)
    ensures
        bits == charged(mode as int),
{
    if mode == 0 {
        0
    } else if mode < 5 {
        6
    } else {
        9
    }
}

/// `w` is the first of the cheapest candidates.
pub open spec fn is_winner(costs: Seq<u64>, w: int) -> bool {
    &&& 0 <= w < costs.len()
    &&& forall|i: int| 0 <= i < costs.len() ==> costs[w] <= #[trigger] costs[i]
    &&& forall|i: int| 0 <= i < w ==> costs[w] < #[trigger] costs[i]
}

/// Choose the first of the cheapest candidates.
pub fn winner(costs: &[u64]) -> (w: usize)
    requires
        costs@.len() > 0,
    ensures
        is_winner(costs@, w as int),
{
    let mut w: usize = 0;
    let mut i: usize = 1;
    while i < costs.len()
        invariant
            1 <= i <= costs@.len(),
            is_winner(costs@.take(i as int), w as int),
        decreases costs@.len() - i,
    {
        let ghost before = costs@.take(i as int);
        let ghost after = costs@.take(i + 1);
        let ghost was = w as int;
        if costs[i] < costs[w] {
            w = i;
        }
        i = i + 1;
        proof {
            assert forall|k: int| 0 <= k < after.len() implies after[w as int]
                <= #[trigger] after[k] by {
                assert(after[was] == before[was]);
                if k < before.len() {
                    assert(after[k] == before[k]);
                }
            }
            assert forall|k: int| 0 <= k < w implies after[w as int] < #[trigger] after[k] by {
                assert(after[was] == before[was]);
                if k < before.len() {
                    assert(after[k] == before[k]);
                }
            }
        }
    }
    assert(costs@.take(i as int) =~= costs@);
    w
}

/// Levels are optimized for every candidate.
pub open spec fn tunes_early(speed: Speed, optimize: bool) -> bool {
    optimize && speed == Speed::Slow
}

/// Levels are optimized for the winner alone.
pub open spec fn tunes_late(speed: Speed, optimize: bool) -> bool {
    optimize && speed != Speed::Slow
}

/// Whether candidates are coded with optimized levels; where they are not,
/// levels are only rounded.
pub fn optimizes_candidates(speed: Speed, optimize: bool) -> (b: bool)
    ensures
        b == tunes_early(speed, optimize),
{
    optimize && speed.per_candidate_rdoq()
}

/// Whether the winner is coded once more, with optimized levels.
pub fn recodes_winner(speed: Speed, optimize: bool) -> (b: bool)
    ensures
        b == tunes_late(speed, optimize),
{
    optimize && !speed.per_candidate_rdoq()
}

// ---------------------------------------------------------------------------
// Steps
// ---------------------------------------------------------------------------

/// Predictions as samples.
pub open spec fn as_samples(pred: Seq<i32>) -> Seq<u16> {
    pred.map_values(|v: i32| v as u16)
}

/// Hadamard distance of a 32x32 prediction from the source at a position.
pub open spec fn prediction_distance(
    src: Seq<u16>,
    stride: int,
    y: int,
    x: int,
    pred: Seq<i32>,
) -> nat {
    metrics::total(
        metrics::tiles_satd(src.skip(y * stride + x), stride, pred, 32, 8),
        64,
    )
}

/// A 32x32 transform lies in the rows of a plane.
pub open spec fn transform_fits(len: nat, stride: usize, y: usize, x: usize) -> bool {
    plane::rect_in_rows(len, stride as nat, y as nat, x as nat, 32, 32) && y + 32 <= usize::MAX
}

/// Score the prediction of a transform and put it in place of its
/// reconstruction, from which later transforms of the block are predicted.
pub fn score_transform(
    recy: &mut Vec<u16>,
    src: &[u16],
    stride: usize,
    y: usize,
    x: usize,
    pred: &[i32],
) -> (d: u64)
    requires
        transform_fits(old(recy)@.len(), stride, y, x),
        transform_fits(src@.len(), stride, y, x),
        pred@.len() == 1024,
        forall|i: int| 0 <= i < 1024 ==> 0 <= #[trigger] pred@[i] <= 0xffff,
    ensures
        d == prediction_distance(src@, stride as int, y as int, x as int, pred@),
        final(recy)@ == plane::with_rect(
            old(recy)@,
            stride as nat,
            y as nat,
            x as nat,
            32,
            32,
            as_samples(pred@),
        ),
{
    proof {
        lemma_rest_fits(src@.len() as int, stride as int, y as int, x as int);
    }
    let len: usize = src.len();
    let at: usize = y * stride + x;
    let rest = vstd::slice::slice_subrange(src, at, len);
    assert(rest@ =~= src@.skip(y * stride + x));
    proof {
        metrics::lemma_satd_bound(rest@, stride as int, pred@, 32, 8, 64);
        assert(metrics::tiles_of(32) == 8);
        assert(metrics::tiles_of(32) * metrics::tiles_of(32) == 64) by (nonlinear_arith)
            requires
                metrics::tiles_of(32) == 8,
        ;
    }
    let d: u64 = satd(rest, stride, pred, 32, 32, 32);
    let mut block: Vec<u16> = Vec::new();
    let mut i: usize = 0;
    while i < 1024
        invariant
            i <= 1024,
            pred@.len() == 1024,
            forall|i: int| 0 <= i < 1024 ==> 0 <= #[trigger] pred@[i] <= 0xffff,
            block@ =~= as_samples(pred@).take(i as int),
        decreases 1024 - i,
    {
        block.push(pred[i] as u16);
        i = i + 1;
    }
    assert(as_samples(pred@).take(1024) =~= as_samples(pred@));
    put_block(recy, stride, y, x, 32, block.as_slice());
    d
}

proof fn lemma_rest_fits(len: int, stride: int, y: int, x: int)
    requires
        x + 32 <= stride,
        (y + 32) * stride <= len,
        0 <= y,
        0 <= x,
    ensures
        0 <= y * stride,
        y * stride + x + 31 * stride + 32 <= len,
{
    assert((y + 32) * stride == y * stride + 32 * stride) by (nonlinear_arith);
    assert(0 <= y * stride) by (nonlinear_arith)
        requires
            0 <= y,
            0 <= stride,
    ;
}

/// Squared error of a reconstructed transform against the source; the transform
/// takes its place in the plane.
pub fn place_transform(
    recy: &mut Vec<u16>,
    src: &[u16],
    stride: usize,
    y: usize,
    x: usize,
    rec: &[u16],
) -> (d: u64)
    requires
        transform_fits(old(recy)@.len(), stride, y, x),
        transform_fits(src@.len(), stride, y, x),
        rec@.len() == 1024,
    ensures
        d == distortion::rect_error(
            (PlaneRect { plane: src, stride, y, x }),
            (PlaneRect { plane: rec, stride: 32, y: 0, x: 0 }),
            32,
            32,
        ),
        final(recy)@ == plane::with_rect(
            old(recy)@,
            stride as nat,
            y as nat,
            x as nat,
            32,
            32,
            rec@,
        ),
{
    let a = PlaneRect { plane: src, stride, y, x };
    let b = PlaneRect { plane: rec, stride: 32, y: 0, x: 0 };
    proof {
        lemma_rest_fits(src@.len() as int, stride as int, y as int, x as int);
        assert((y + 31) * stride == y * stride + 31 * stride) by (nonlinear_arith);
        distortion::law_rect_error_bound(a, b, 32, 32);
    }
    let d: u64 = rect_sse(&a, &b, 32, 32);
    put_block(recy, stride, y, x, 32, rec);
    d
}

/// Modes tried for a block: directions only for a whole superblock and only where
/// they are allowed, all angles only at the slowest speed, and fewer modes at the
/// fastest.
pub proof fn law_trials_follow_shape_and_speed(
    shape: LumaShape,
    speed: Speed,
    directional: bool,
    mode: usize,
    delta: i32,
)
    ensures
        trial_modes(shape, speed, directional).contains((mode, delta)) <==> {
            &&& mode <= 12
            &&& speed == Speed::Fast ==> mode != 3 && mode != 4
            &&& mode >= 5 ==> directional && shape == LumaShape::Superblock
            &&& if mode >= 5 && speed == Speed::Slow {
                -3 <= delta <= 3
            } else {
                delta == 0
            }
        },
{
    leaf::law_candidates_cover_the_modes(
        speed == Speed::Fast,
        directional && shape == LumaShape::Superblock,
        speed == Speed::Slow,
        mode,
        delta,
    );
}

/// A shortlist has eight candidates of a superblock at the slowest speed and four
/// else, two of a single transform at the fastest speed and three else, and all of
/// those of a half.
pub proof fn law_shortlists_have_their_lengths(shape: LumaShape, speed: Speed, n: int)
    requires
        n >= 0,
    ensures
        shape == LumaShape::Wide || shape == LumaShape::Tall ==> !too_many(shape, speed, n),
        shape == LumaShape::Superblock && speed == Speed::Slow ==> (too_many(shape, speed, n)
            <==> n > 8),
        shape == LumaShape::Superblock && speed != Speed::Slow ==> (too_many(shape, speed, n)
            <==> n > 4),
        shape == LumaShape::Single && speed == Speed::Fast ==> (too_many(shape, speed, n) <==> n
            > 2),
        shape == LumaShape::Single && speed != Speed::Fast ==> (too_many(shape, speed, n) <==> n
            > 3),
{
}

/// The candidates of a shortlist come best first, and none that was left out scores
/// better than one that was kept.
pub proof fn law_shortlist_keeps_the_best(
    shape: LumaShape,
    speed: Speed,
    trials: Seq<(usize, i32)>,
    scores: Seq<u64>,
    out: Seq<(usize, i32)>,
)
    requires
        scores.len() == trials.len(),
        too_many(shape, speed, trials.len() as int),
        is_shortlist(shape, speed, trials, scores, out),
    ensures
        out.len() == kept(shape, speed)->0,
        exists|order: Seq<usize>| #[trigger] leaf::is_ranking(scores, kept(shape, speed)->0, order)
            && order.len() == out.len() && (forall|i: int|
            0 <= i < out.len() ==> 0 <= #[trigger] order[i] < trials.len() && out[i]
                == trials[order[i] as int]) && (forall|i: int, j: int|
            0 <= i < j < out.len() ==> scores[#[trigger] order[i] as int]
                <= scores[#[trigger] order[j] as int]),
{
    let order = choose|order: Seq<usize>|
        #[trigger] leaf::is_ranking(scores, kept(shape, speed)->0, order) && out
            == order.map_values(|i: usize| trials[i as int]);
    assert(order.len() == out.len());
    assert forall|i: int, j: int| 0 <= i < j < out.len() implies scores[#[trigger] order[i] as int]
        <= scores[#[trigger] order[j] as int] by {
        assert(leaf::ranks_before(scores, order[i] as int, order[j] as int));
    }
}

/// The distance of a prediction from the source is zero exactly where the 32x32
/// block at its place equals the prediction.
#[verifier::spinoff_prover]
#[verifier::rlimit(80)]
pub proof fn law_distance_sees_every_difference(
    src: Seq<u16>,
    stride: int,
    y: int,
    x: int,
    pred: Seq<i32>,
)
    requires
        y >= 0,
        0 <= x,
        x + 32 <= stride,
        (y + 32) * stride <= src.len(),
        pred.len() == 1024,
    ensures
        prediction_distance(src, stride, y, x, pred) == 0 <==> forall|r: int, c: int|
            0 <= r < 32 && 0 <= c < 32 ==> #[trigger] src[(y + r) * stride + x + c] == pred[32 * r
                + c],
{
    let at = y * stride + x;
    let s = src.skip(at);
    let f = metrics::tiles_satd(s, stride, pred, 32, 8);
    metrics::lemma_total_zero(f, 64);
    assert(0 <= y * stride) by (nonlinear_arith)
        requires
            y >= 0,
            stride >= 0,
    ;
    assert((y + 32) * stride == y * stride + 32 * stride) by (nonlinear_arith);
    assert forall|r: int, c: int| 0 <= r < 32 && 0 <= c < 32 implies 0 <= r * stride && #[trigger] s[r
        * stride + c] == src[(y + r) * stride + x + c] by {
        assert((y + r) * stride == y * stride + r * stride) by (nonlinear_arith);
        assert(0 <= r * stride && r * stride + stride <= 32 * stride) by (nonlinear_arith)
            requires
                0 <= r <= 31,
                stride >= 0,
        ;
    }
    if forall|i: int| 0 <= i < 64 ==> #[trigger] f(i) == 0 {
        assert forall|r: int, c: int| 0 <= r < 32 && 0 <= c < 32 implies #[trigger] src[(y + r)
            * stride + x + c] == pred[32 * r + c] by {
            let (tr, tc) = (r / 4, c / 4);
            metrics::law_tiles_are_taken_in_place(s, stride, pred, 32, 8, tr, tc);
            assert(f(tr * 8 + tc) == 0);
            let d = |p: int, q: int|
                s[(4 * tr + p) * stride + 4 * tc + q] - pred[(4 * tr + p) * 32 + 4 * tc + q];
            metrics::law_satd_sees_every_difference(d);
            assert(d(r % 4, c % 4) == 0);
            assert(4 * tr + r % 4 == r);
            assert(4 * tc + c % 4 == c);
            assert(s[r * stride + c] == src[(y + r) * stride + x + c]);
        }
    }
    if forall|r: int, c: int|
        0 <= r < 32 && 0 <= c < 32 ==> #[trigger] src[(y + r) * stride + x + c] == pred[32 * r + c] {
        assert forall|i: int| 0 <= i < 64 implies #[trigger] f(i) == 0 by {
            let (tr, tc) = (i / 8, i % 8);
            metrics::law_tiles_are_taken_in_place(s, stride, pred, 32, 8, tr, tc);
            assert(tr * 8 + tc == i);
            let d = |p: int, q: int|
                s[(4 * tr + p) * stride + 4 * tc + q] - pred[(4 * tr + p) * 32 + 4 * tc + q];
            assert forall|p: int, q: int| 0 <= p < 4 && 0 <= q < 4 implies #[trigger] d(p, q)
                == 0 by {
                let (r, c) = (4 * tr + p, 4 * tc + q);
                assert(s[r * stride + c] == src[(y + r) * stride + x + c]);
                assert(src[(y + r) * stride + x + c] == pred[32 * r + c]);
                assert(r * stride + 4 * tc + q == r * stride + c);
                assert(r * 32 + 4 * tc + q == 32 * r + c);
            }
            metrics::law_satd_sees_every_difference(d);
        }
    }
}

/// The flat mode is charged nothing, the other modes without a direction six bits, and
/// the directions nine.
pub proof fn law_directions_are_charged_most(mode: int)
    requires
        0 <= mode <= 12,
    ensures
        mode == 0 ==> charged(mode) == 0,
        1 <= mode <= 4 ==> charged(mode) == 6,
        mode >= 5 ==> charged(mode) == 9,
{
}

/// Levels that are to be optimized are, once: for every candidate at the slowest
/// speed, and for the winner at all others.
pub proof fn law_levels_are_optimized_once(speed: Speed, optimize: bool)
    ensures
        optimize <==> tunes_early(speed, optimize) || tunes_late(speed, optimize),
        !(tunes_early(speed, optimize) && tunes_late(speed, optimize)),
        tunes_early(speed, optimize) ==> speed == Speed::Slow,
        tunes_late(speed, optimize) ==> speed != Speed::Slow,
{
}

} // verus!
