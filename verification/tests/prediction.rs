use maroontre::dcpred::{
    dc_pred, dc_pred_bounded, dc_pred_cfl_subsampled, dc_pred_rect, dc_pred_rect_bounded,
    dc_pred_rect_subsampled, resolve_divisor_32, BoundedIntraRect,
};
use maroontre::intrapred::{
    blk_size_log2, build_refs, paeth, paeth_single, smooth, smooth_h, smooth_v, IntraRefSpec,
};
use maroontre::leaf::{
    keep_best, luma_keep, luma_leaf_keep, luma_mode_candidates, predict_luma, predict_luma_leaf32,
    predict_luma_leaf_tu,
    Direction, LumaLeaf32, LumaLeafPredictSpec, LumaPredictSpec, Predicted,
};
use maroontre::encoder::Speed;

const ABOVE: [i32; 8] = [10, 20, 30, 40, 50, 60, 70, 80];
const LEFT: [i32; 8] = [15, 25, 35, 45, 55, 65, 75, 85];

#[test]
fn paeth_takes_the_nearest_reference() {
    assert_eq!(
        paeth(4, &ABOVE, &LEFT, 12),
        vec![12, 20, 30, 40, 25, 25, 30, 40, 35, 35, 35, 40, 45, 45, 45, 45]
    );
}

#[test]
fn paeth_ties_go_left_first() {
    assert_eq!(paeth_single(8, 11, 10), 8);
    assert_eq!(paeth_single(5, 5, 9), 5);
    assert_eq!(paeth_single(i32::MAX, 0, i32::MAX), 0);
    assert_eq!(paeth_single(2_000_000_000, 1, 2_000_000_000), 1);
}

#[test]
fn smooth_halves_need_one_far_reference() {
    assert_eq!(smooth_v(1, &[40], &[0, 8]), vec![24]);
    assert_eq!(smooth_h(1, &[0, 8], &[40]), vec![24]);
    assert_eq!(blk_size_log2(0x1_0000), 16);
    assert_eq!(blk_size_log2(usize::MAX), usize::BITS - 1);
    let (above, left) = ([1_000_000; 4], [3_000_000; 5]);
    assert_eq!(smooth_v(4, &above, &left)[0], 1_250_000);
}

#[test]
fn smooth_blends_towards_the_far_corners() {
    assert_eq!(
        smooth(4, &ABOVE, &LEFT),
        vec![18, 28, 37, 46, 29, 36, 42, 49, 40, 44, 47, 51, 51, 52, 52, 53]
    );
    assert_eq!(
        smooth_v(4, &ABOVE, &LEFT),
        vec![16, 25, 33, 42, 30, 36, 41, 47, 43, 45, 48, 51, 55, 55, 55, 55]
    );
    assert_eq!(
        smooth_h(4, &ABOVE, &LEFT),
        vec![20, 31, 40, 50, 28, 36, 43, 50, 37, 42, 46, 50, 46, 48, 49, 50]
    );
    let above: Vec<i32> = (0..16).map(|i| 3 * i * i % 97).collect();
    let left: Vec<i32> = (0..16).map(|i| 5 * i + 7).collect();
    assert_eq!(
        smooth(8, &above, &left)[..16],
        [8, 15, 25, 39, 54, 73, 49, 73, 13, 20, 29, 41, 55, 72, 52, 72]
    );
    assert_eq!(smooth_v(8, &above, &left)[8..16], [9, 11, 19, 31, 48, 70, 18, 49]);
    assert_eq!(smooth_h(8, &above, &left)[56..64], [46, 52, 60, 67, 74, 81, 88, 95]);
}

#[test]
fn flat_references_give_flat_blocks() {
    let flat = vec![77i32; 64];
    for bs in [4usize, 8, 16, 32] {
        let want = vec![77i32; bs * bs];
        assert_eq!(paeth(bs, &flat, &flat, 77), want);
        assert_eq!(smooth(bs, &flat, &flat), want);
        assert_eq!(smooth_v(bs, &flat, &flat), want);
        assert_eq!(smooth_h(bs, &flat, &flat), want);
    }
    assert_eq!([4usize, 8, 16, 32, 64].map(|n| blk_size_log2(n)), [2, 3, 4, 5, 6]);
}

fn refs(have_above: bool, have_left: bool) -> IntraRefSpec {
    IntraRefSpec {
        stride: 16,
        y: 4,
        x: 4,
        block_size: 4,
        have_above,
        have_left,
        top_right: 2,
        bottom_left: 0,
        neutral: 128,
        available_above: 4,
        available_left: 4,
    }
}

#[test]
fn references_come_from_what_is_coded() {
    let rec: Vec<u16> = (0..256).map(|i| i as u16).collect();
    let (above, left, corner) = build_refs(&rec, &refs(true, true));
    // row 3 from column 4 on; two more on the right, then the last repeated
    assert_eq!(above, vec![52, 53, 54, 55, 56, 57, 57, 57]);
    assert_eq!(left, vec![67, 83, 99, 115, 115, 115, 115, 115]);
    assert_eq!(corner, 51);
    let (above, left, corner) = build_refs(&rec, &refs(false, false));
    assert_eq!(above, vec![127; 8]);
    assert_eq!(left, vec![129; 8]);
    assert_eq!(corner, 128);
    let (above, left, corner) = build_refs(&rec, &refs(false, true));
    assert_eq!(above, vec![67; 8]);
    assert_eq!(left[..4], [67, 83, 99, 115]);
    assert_eq!(corner, 67);
    let (above, left, corner) = build_refs(&rec, &refs(true, false));
    assert_eq!(above[..4], [52, 53, 54, 55]);
    assert_eq!(left, vec![52; 8]);
    assert_eq!(corner, 52);
}

#[test]
fn dc_is_the_rounded_mean_of_the_edges() {
    let rec: Vec<u16> = (0..64).map(|i| i as u16).collect();
    assert_eq!(dc_pred(&rec, 8, 0, 0, 4, 99), 99);
    // above 28 to 31, left 35, 43, 51, 59: the sum is 306
    assert_eq!(dc_pred(&rec, 8, 4, 4, 4, 99), 38);
    assert_eq!(dc_pred(&rec, 8, 0, 4, 4, 99), 15); // left 3, 11, 19, 27
    assert_eq!(dc_pred(&rec, 8, 4, 0, 4, 99), 26); // above 24 to 27
    assert_eq!(dc_pred_cfl_subsampled(&rec, 8, 4, 4, 4, 99, 8), 38);
    assert_eq!(dc_pred_cfl_subsampled(&rec, 8, 4, 4, 4, 99, 5), 31);
}

#[test]
fn bounded_edges_repeat_the_last_sample() {
    // every sample holds its column; the frame ends after column 15
    let rec: Vec<u16> = (0..24 * 24).map(|i| (i % 24) as u16).collect();
    assert_eq!(dc_pred_bounded(&rec, 24, 8, 8, 16, 0, 10, usize::MAX), 10);
    assert_eq!(dc_pred_bounded(&rec, 24, 8, 8, 16, 0, usize::MAX, usize::MAX), 11);
    assert_eq!(dc_pred(&rec, 24, 8, 8, 16, 0), 11);
}

#[test]
fn rectangles_divide_by_a_reciprocal() {
    assert_eq!([1u32, 3, 12, 24, 300].map(|d| resolve_divisor_32(d)), [
        (512, 9),
        (341, 10),
        (341, 12),
        (341, 13),
        (437, 17)
    ]);
    // an 8x4 block: 8 samples of 7 above, 4 of 100 on the left
    let mut rec = vec![0u16; 16 * 8];
    for c in 0..8 {
        rec[3 * 16 + 4 + c] = 7;
    }
    for r in 0..4 {
        rec[(4 + r) * 16 + 3] = 100;
    }
    assert_eq!(dc_pred_rect_subsampled(&rec, 16, 4, 4, 8, 4, 50, 8), 38);
    assert_eq!(dc_pred_rect(&rec, 16, 4, 4, 8, 4, 50, 8), 38);
    assert_eq!(dc_pred_rect(&rec, 16, 0, 0, 8, 4, 50, 8), 50);
    let rect = BoundedIntraRect {
        stride: 16,
        y: 4,
        x: 4,
        width: 8,
        height: 4,
        frame_width: 16,
        frame_height: 8,
    };
    assert_eq!(dc_pred_rect_bounded(&rec, &rect, 50, 8), 38);
}

#[test]
fn scores_are_ranked_and_cut() {
    assert_eq!(keep_best(&[5, 1, 9, 1, 3], 3), vec![1, 3, 4]);
    assert_eq!(keep_best(&[2, 2, 2], 9), vec![0, 1, 2]);
    assert!(keep_best(&[], 3).is_empty());
    assert!(keep_best(&[1], 0).is_empty());
}

#[test]
fn efforts_choose_the_candidates() {
    let fast = luma_mode_candidates(Speed::Fast, true);
    let medium = luma_mode_candidates(Speed::Medium, true);
    let slow = luma_mode_candidates(Speed::Slow, true);
    assert!(fast.len() < medium.len() && medium.len() < slow.len());
    assert!(fast.iter().all(|c| medium.contains(c)));
    assert!(medium.iter().all(|c| slow.contains(c)));
    assert_eq!(fast[0], (0, 0));
    assert!(luma_mode_candidates(Speed::Slow, false).iter().all(|&(_, d)| d == 0));
    assert!(luma_keep(Speed::Fast) <= luma_keep(Speed::Slow));
    assert_eq!(luma_leaf_keep(Speed::Fast), 2);
    assert_eq!(luma_leaf_keep(Speed::Slow), 3);
}

#[test]
fn luma_modes_predict_a_transform() {
    let rec = vec![60u16; 128 * 128];
    let spec = |mode: usize| LumaPredictSpec {
        stride: 128,
        frame_width: 128,
        frame_height: 128,
        tx_index: 0,
        y: 64,
        x: 64,
        mode,
        angle_delta: 0,
        neutral: 128,
    };
    for mode in 0..5usize {
        match predict_luma(&rec, &spec(mode)) {
            Predicted::Block(b) => assert_eq!(b, vec![60; 32 * 32], "mode {mode}"),
            Predicted::Directional(_) => panic!("mode {mode} is not directional"),
        }
    }
    match predict_luma(&rec, &spec(5)) {
        Predicted::Directional(job) => {
            assert_eq!(job.direction, Direction::V);
            assert!(job.have_top && job.have_left);
            assert_eq!(job.above[..32], [60; 32]);
            assert_eq!(job.corner, 60);
        }
        Predicted::Block(_) => panic!("mode 5 is directional"),
    }
    let leaf = LumaLeaf32 {
        stride: 128,
        mi_cols: 32,
        mi_rows: 32,
        y: 0,
        x: 0,
        tx_index: 0,
        mode: 0,
        neutral: 128,
    };
    let tu = |mode: usize| LumaLeafPredictSpec {
        stride: 128,
        mi_cols: 32,
        mi_rows: 32,
        block_y: 64,
        block_x: 64,
        tx_y: 32,
        tx_x: 0,
        tx_index: 2,
        mode,
        neutral: 128,
        split_leaf: false,
    };
    for mode in 0..5usize {
        match predict_luma_leaf_tu(&rec, &tu(mode)) {
            Predicted::Block(b) => assert_eq!(b, vec![60; 32 * 32], "mode {mode}"),
            Predicted::Directional(_) => panic!("mode {mode} is not directional"),
        }
    }
    match predict_luma_leaf32(&rec, &leaf) {
        Predicted::Block(b) => assert_eq!(b, vec![128; 32 * 32]),
        Predicted::Directional(_) => panic!("DC is not directional"),
    }
}
