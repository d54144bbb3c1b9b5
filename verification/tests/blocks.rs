use maroontre::chroma444::{
    chroma_leaf_residuals, code_444_chroma_leaf, residual_against, ChromaArea, CrossPrediction,
    Presence,
};
use maroontre::contexts::{
    levels_to_coeffs, sb_tu4_chroma_skip, sb_tu4_contexts, sb_tu_contexts, sb_tu_contexts_64x32,
    sb_tu_contexts_rect, stored_level_of, tx16_dc_only, SkipTable, TxbContextSpec, NEUTRAL,
};
use maroontre::core444::{
    chroma_mode_candidates, encode_444_tiled, leaf_plan, luma_candidates, sb_route, FrameRoute,
    SbRoute,
};
use maroontre::encoder::{Av2Encoder, BitDepth, TxPart};
use maroontre::lossless::levels_to_coeffs_4x4;
use maroontre::lossless444::{lossless_sb_residuals, lossless_steps, SbTus, Step};
use maroontre::palette::exact_luma_palette;
use maroontre::partition::{implied_boundary, sb_partition_ops, Op, HORZ, VERT};
use maroontre::plane::{
    extract_subplane_pixels, get_residual, get_residual_rect, pad_plane, pad_plane_pixels,
    put_block_rect, rect_rows, sb_align,
};
use maroontre::quant::{get_q_ctx, qstep};
use maroontre::simple::{EncodeError, PlanarImage};

fn blank(width: usize, height: usize) -> PlanarImage<u8> {
    let plane = vec![0u8; width * height];
    PlanarImage {
        width,
        height,
        bit_depth: BitDepth::Eight,
        planes: [plane.clone(), plane.clone(), plane, Vec::new()],
    }
}

type Leaf = (usize, usize, usize, usize, Option<u32>);

fn leaves(ops: &[Op]) -> Vec<Leaf> {
    ops.iter()
        .filter_map(|op| match op {
            Op::Leaf { mi_row, mi_col, bw_mi, bh_mi, part_cdf } => {
                Some((*mi_row, *mi_col, *bw_mi, *bh_mi, *part_cdf))
            }
            Op::RectType { .. } => None,
        })
        .collect()
}

fn flags(ops: &[Op]) -> Vec<(u32, u32)> {
    ops.iter()
        .filter_map(|op| match op {
            Op::RectType { cdf, val } => Some((*cdf, *val)),
            Op::Leaf { .. } => None,
        })
        .collect()
}

#[test]
fn whole_superblocks_are_one_leaf() {
    let (mut above, mut left) = (vec![0u8; 32], vec![0u8; 16]);
    let ops = sb_partition_ops(0, 0, 16, 16, &mut above, &mut left);
    assert_eq!(leaves(&ops), vec![(0, 0, 16, 16, Some(12276))]);
    assert!(flags(&ops).is_empty());
    assert_eq!(left, vec![48; 16]);
    assert_eq!(above[..16], [48; 16]);
    assert_eq!(above[16..], [0; 16]);
}

#[test]
fn edges_force_cuts() {
    let (mut above, mut left) = (vec![0u8; 26], vec![0u8; 16]);
    let ops = sb_partition_ops(0, 0, 6, 10, &mut above, &mut left);
    assert_eq!(leaves(&ops), vec![(0, 0, 16, 8, Some(12276))]);
    assert_eq!(left[..8], [56; 8]);

    let (mut above, mut left) = (vec![0u8; 18], vec![0u8; 16]);
    let ops = sb_partition_ops(0, 0, 2, 2, &mut above, &mut left);
    assert_eq!(leaves(&ops), vec![(0, 0, 2, 2, Some(4684))]);

    let (mut above, mut left) = (vec![0u8; 20], vec![0u8; 16]);
    let ops = sb_partition_ops(0, 0, 10, 4, &mut above, &mut left);
    assert_eq!(leaves(&ops), vec![(0, 0, 4, 16, Some(8550))]);
    assert_eq!(flags(&ops), vec![(18338, 1)]);
    assert_eq!(above[..4], [60; 4]);
    assert_eq!(implied_boundary(0, 0, 12, 6, 16), Some(HORZ));
    assert_eq!(implied_boundary(0, 0, 12, 16, 6), Some(VERT));
    assert_eq!(implied_boundary(0, 0, 12, 16, 16), None);
}

#[test]
fn leaves_cover_the_frame_once() {
    for (rows, cols) in [(16usize, 20usize), (18, 22), (6, 6), (26, 2), (2, 26)] {
        let mut seen = vec![0u32; rows * cols];
        let mut above = vec![0u8; cols + 16];
        for sb_row in 0..(rows + 15) / 16 {
            let mut left = vec![0u8; 16];
            for sb_col in 0..(cols + 15) / 16 {
                let ops = sb_partition_ops(sb_row, sb_col, rows, cols, &mut above, &mut left);
                for (r, c, w, h, _) in leaves(&ops) {
                    assert!(leaf_plan(w, h).is_some(), "{w}x{h}");
                    for y in r..(r + h).min(rows) {
                        for x in c..(c + w).min(cols) {
                            seen[y * cols + x] += 1;
                        }
                    }
                }
            }
        }
        assert!(seen.iter().all(|&n| n == 1), "{rows}x{cols}");
    }
}

#[test]
fn steps_double_every_octave() {
    assert_eq!(qstep(0), 64);
    assert_eq!(qstep(1), 40);
    assert_eq!(qstep(24), 78);
    assert_eq!(qstep(25), 80);
    assert_eq!(qstep(120), 1248);
    assert_eq!(qstep(255), 61440);
    assert_eq!(qstep(300), 61440);
    for q in 1..232u32 {
        assert_eq!(qstep(q + 24), 2 * qstep(q));
    }
    assert_eq!(
        [0u8, 90, 91, 140, 141, 190, 191, 255].map(|q| get_q_ctx(q)),
        [0, 0, 1, 1, 2, 2, 3, 3]
    );
}

#[test]
fn planes_are_padded_and_cut() {
    assert_eq!((sb_align(1), sb_align(64), sb_align(65)), (64, 64, 128));
    let src = [1u16, 2, 3, 4, 5, 6];
    let padded = pad_plane(&src, 3, 2, 5, 3);
    assert_eq!(padded, vec![1, 2, 3, 3, 3, 4, 5, 6, 6, 6, 4, 5, 6, 6, 6]);
    assert_eq!(pad_plane_pixels(&src, 3, 2, 5, 3), padded);
    assert_eq!(extract_subplane_pixels(&padded, 5, 1, 1, 3, 2), vec![5, 6, 6, 5, 6, 6]);
    assert_eq!(rect_rows(&padded, 5, 0, 1, 2, 2), vec![&[2u16, 3][..], &[5, 6][..]]);
    let mut p = vec![0u16; 12];
    put_block_rect(&mut p, 4, 1, 1, 2, 2, &[7, 8, 9, 10]);
    assert_eq!(p, vec![0, 0, 0, 0, 0, 7, 8, 0, 0, 9, 10, 0]);
    assert_eq!(get_residual_rect(&p, 4, 1, 1, 2, 2, 8), vec![-1, 0, 1, 2]);
    assert_eq!(get_residual(&p, 4, 1, 1, 2, 8), vec![-1, 0, 1, 2]);
}

#[test]
fn palettes_of_few_colors() {
    let mut src = vec![9u16; 64];
    src[3] = 4;
    src[63] = 200;
    let p = exact_luma_palette(&src, 8, 0, 0, 8, 8, 8).unwrap();
    assert_eq!(p.colors, vec![4, 9, 200]);
    assert_eq!((p.map[0], p.map[3], p.map[63]), (1, 0, 2));
    assert_eq!((p.width, p.height, p.map.len()), (8, 8, 64));
    assert!(exact_luma_palette(&vec![9u16; 64], 8, 0, 0, 8, 8, 8).is_none());
    let many: Vec<u16> = (0..64).map(|i| (i % 9) as u16).collect();
    assert!(exact_luma_palette(&many, 8, 0, 0, 8, 8, 8).is_none());
    let eight: Vec<u16> = (0..64).map(|i| (i % 8) as u16).collect();
    assert_eq!(exact_luma_palette(&eight, 8, 0, 0, 8, 8, 8).unwrap().colors.len(), 8);
    assert!(exact_luma_palette(&src, 8, 0, 0, 4, 8, 8).is_none());
}

#[test]
fn levels_become_coefficient_lists() {
    assert_eq!(levels_to_coeffs(&[0, 5, 0, -2]), vec![(1, 5), (3, -2)]);
    assert!(tx16_dc_only(&[7, 0, 0]));
    assert!(!tx16_dc_only(&[7, 0, 1]));
    let mut raster = [0i32; 16];
    raster[0] = 3;
    raster[15] = -1;
    assert_eq!(levels_to_coeffs_4x4(&raster), vec![(0, 3), (15, -1)]);
    raster = [0; 16];
    raster[1] = 1;
    raster[4] = 2;
    let two = levels_to_coeffs_4x4(&raster);
    assert_eq!(two.len(), 2);
    assert!(two.iter().all(|&(k, _)| k == 1 || k == 2));
}

#[test]
fn contexts_see_the_blocks_before() {
    let (mut above, mut left) = (vec![NEUTRAL; 32], vec![NEUTRAL; 32]);
    let tus = [vec![(0usize, 5i32)], vec![], vec![(0, -3)], vec![]];
    let (skip, sign) = sb_tu_contexts(&tus, 0, 0, &mut above, &mut left, 16, 16);
    assert_eq!(skip, [1, 3, 3, 3]);
    // the blocks beside the first one lean to plus, the last one to minus
    assert_eq!(sign, [0, 2, 2, 1]);
    assert_eq!(above[..8], [3; 8]);
    assert_eq!(left[..8], [NEUTRAL; 8]);
    assert_eq!(above[8..], [NEUTRAL; 24]);

    let (mut above, mut left) = (vec![NEUTRAL; 32], vec![NEUTRAL; 32]);
    let halves = [vec![(0usize, 5i32)], vec![]];
    let (skip, sign) = sb_tu_contexts_64x32(&halves, 0, 0, &mut above, &mut left, 16, 16);
    assert_eq!((skip, sign), ([1, 3], [0, 2]));
}

#[test]
fn rectangles_have_their_skip_table() {
    let spec = TxbContextSpec { sb_y: 0, sb_x: 0, mi_cols: 16, mi_rows: 16, block_eq_tx: true };
    let run = |w: usize, h: usize| {
        let (mut above, mut left) = (vec![NEUTRAL; 32], vec![NEUTRAL; 32]);
        sb_tu_contexts_rect(&[(0, 1)], &mut above, &mut left, &spec, w, h).0
    };
    assert_eq!(run(2, 2), SkipTable::Tx8);
    assert_eq!(run(4, 4), SkipTable::Tx16);
    assert_eq!(run(8, 8), SkipTable::Tx32);
}

#[test]
fn four_by_four_contexts() {
    let (mut above, mut left) = (vec![NEUTRAL; 16], vec![NEUTRAL; 16]);
    let tus = vec![vec![(0usize, 2i32)], vec![], vec![], vec![(0usize, -1i32)]];
    let (skip, sign) = sb_tu4_contexts(&tus, 0, 0, &mut above, &mut left, 2, 2);
    assert_eq!(skip, vec![1, 2, 2, 1]);
    assert_eq!(sign, vec![0, 2, 2, 0]);
    assert_eq!(above[..2], [NEUTRAL, 1]);
    let (mut above, mut left) = (vec![0u8; 16], vec![0u8; 16]);
    let u = sb_tu4_chroma_skip(&tus, 0, 0, &mut above, &mut left, false, false, 2, 2);
    assert_eq!(u, vec![6, 7, 7, 6]);
    let (mut above, mut left) = (vec![0u8; 16], vec![0u8; 16]);
    let v = sb_tu4_chroma_skip(&tus, 0, 0, &mut above, &mut left, true, false, 2, 2);
    let (mut above, mut left) = (vec![0u8; 16], vec![0u8; 16]);
    let after = sb_tu4_chroma_skip(&tus, 0, 0, &mut above, &mut left, true, true, 2, 2);
    assert_eq!(v, vec![3, 4, 4, 3]);
    assert_eq!(after, vec![9, 10, 10, 9]);
    assert_eq!(stored_level_of(&[]), 0);
    assert_eq!(stored_level_of(&[(0, 2), (3, -2)]), 4);
    assert_eq!(stored_level_of(&[(0, 100)]), 7);
}

#[test]
fn lossless_frames_are_walked() {
    // a 64x64 frame in one superblock without any coefficient
    let empty = || vec![Vec::new(); 256];
    let sbs = vec![SbTus { y: empty(), u: empty(), v: empty() }];
    let steps = lossless_steps(64, 64, &sbs);
    assert_eq!(steps.len(), 1);
    match &steps[0] {
        Step::Leaf(leaf) => {
            assert_eq!(leaf.part_cdf, Some(12276));
            assert_eq!((leaf.y.len(), leaf.y_skip.len(), leaf.y_sign.len()), (256, 256, 256));
            assert_eq!((leaf.u_skip.len(), leaf.v_skip.len()), (256, 256));
        }
        Step::RectType { .. } => panic!("one leaf"),
    }
    let (config, again) = Av2Encoder::new(0).encode_yuv444_lossless(&blank(64, 64), &sbs).unwrap();
    assert!(config.lossless);
    assert_eq!(again.len(), 1);
}

#[test]
fn lossless_residuals_predict_from_the_source() {
    let src = vec![50u16; 64 * 64];
    let r = lossless_sb_residuals(&src, 64, 0, 0, 128, 2, 3);
    assert_eq!(r.len(), 6);
    assert_eq!(r[0], [50 - 128; 16]);
    assert!(r[1..].iter().all(|b| *b == [0; 16]));
}

#[test]
fn routes_of_frames_and_superblocks() {
    assert_eq!(Av2Encoder::new(0).encode_yuv444(&blank(1000, 1000)), Ok(FrameRoute::Lossless));
    assert_eq!(Av2Encoder::new(9).encode_yuv444(&blank(1000, 1000)), Ok(FrameRoute::Single));
    for (w, h) in [(0, 10), (10, 0), (16384, 10), (10, 20000)] {
        let refused = EncodeError::DimensionsOutOfRange;
        assert_eq!(Av2Encoder::new(9).encode_yuv444(&blank(w, h)), Err(refused));
        let plan = Av2Encoder::new(0).encode_yuv444_lossless(&blank(w, h), &Vec::new());
        assert_eq!(plan.err(), Some(refused));
    }
    assert!(Av2Encoder::new(9).encode_yuv444(&blank(16383, 1)).is_ok());
    assert_eq!(
        Av2Encoder::new(9).with_tiles(2, 4).encode_yuv444(&blank(1000, 1000)),
        Ok(FrameRoute::Tiled { log2c: 1, log2r: 2 })
    );
    assert_eq!(sb_route(0, 0, 128, 128, false, false, 50), SbRoute::Whole);
    assert_eq!(sb_route(0, 0, 128, 128, false, true, 97), SbRoute::MaySplit);
    assert_eq!(sb_route(0, 0, 128, 128, false, true, 98), SbRoute::Whole);
    assert_eq!(sb_route(0, 64, 100, 128, true, true, 50), SbRoute::Walk);
    assert_eq!(sb_route(0, 64, 100, 128, false, true, 50), SbRoute::Whole);
}

#[test]
fn tiles_are_frames_of_their_own() {
    let (w, h) = (176usize, 100usize);
    let y: Vec<u16> = (0..w * h).map(|i| (i % 251) as u16).collect();
    let frame = encode_444_tiled(&y, &y, &y, w, h, 1, 0);
    assert_eq!((frame.sig_w, frame.sig_h), (w, h));
    assert_eq!(frame.tiles.len(), 2);
    let total: usize = frame.tiles.iter().map(|j| j.tw * j.th).sum();
    assert_eq!(total, w * h);
    for j in &frame.tiles {
        assert_eq!(j.y.len(), j.tw * j.th);
        assert_eq!(j.y[j.tw], y[(j.y0 + 1) * w + j.x0]);
        assert_eq!(j.u, j.v);
    }
}

#[test]
fn a_frame_with_an_unsafe_tile_is_padded_whole() {
    let (w, h) = (200usize, 100usize);
    let y: Vec<u16> = (0..w * h).map(|i| (i % 251) as u16).collect();
    let frame = encode_444_tiled(&y, &y, &y, w, h, 1, 0);
    assert_eq!((frame.sig_w, frame.sig_h), (256, 128));
    assert_eq!(frame.tiles.len(), 2);
    let last = &frame.tiles[1];
    assert_eq!((last.x0, last.y0, last.tw, last.th), (128, 0, 128, 128));
    assert_eq!(last.y[71], y[199]);
    assert_eq!(last.y[127], y[199]);
    assert_eq!(last.y[127 * 128], y[99 * w + 128]);
}

#[test]
fn luma_partitions_follow_the_strategy() {
    assert_eq!(luma_candidates(TxPart::ThreeWay, true), (true, true));
    assert_eq!(luma_candidates(TxPart::Rd2, true), (true, false));
    assert_eq!(luma_candidates(TxPart::ThreeWay, false), (false, false));
    assert_eq!(chroma_mode_candidates(true, true), vec![0, 1, 4, 5, 6]);
    assert_eq!(chroma_mode_candidates(false, false), vec![0, 1, 2, 3, 4, 5, 6]);
    assert_eq!(chroma_mode_candidates(false, true).len(), 13);
}

#[test]
fn plans_of_leaves() {
    let p = leaf_plan(16, 8).unwrap();
    assert_eq!((p.tx_w, p.tx_h, p.tus), (32, 32, 2));
    assert_eq!((p.chroma_w, p.chroma_h), (64, 32));
    assert!(p.mode_search && !p.halves && !p.tx_types);
    let p = leaf_plan(4, 16).unwrap();
    assert_eq!((p.tx_w, p.tx_h, p.tus), (16, 64, 1));
    assert!(p.halves && !p.mode_search);
    assert!(leaf_plan(4, 4).unwrap().tx_types);
    assert!(leaf_plan(16, 2).is_none());
    assert!(leaf_plan(1, 1).is_none());
}

#[test]
fn chroma_presence_is_noted() {
    let mut p = Presence::new(16, 16);
    let n = p.neighbors(0, 0, 8, 8);
    assert!(!n.u_above && !n.u_left && !n.v_above && !n.v_left);
    p.note(0, 0, 8, 8, true, false, true);
    let right = p.neighbors(0, 8, 8, 8);
    assert!(right.u_left && !right.u_above && !right.v_left);
    assert_eq!(right.cfl_ctx, 1);
    let below = p.neighbors(8, 0, 8, 8);
    assert!(below.u_above && !below.u_left);
    p.note(0, 8, 8, 8, false, true, true);
    p.note(8, 0, 8, 8, false, true, true);
    let last = p.neighbors(8, 8, 8, 8);
    assert!(!last.u_above && !last.u_left && last.v_above && last.v_left);
    assert_eq!(last.cfl_ctx, 2);
}

#[test]
fn chroma_leaves_are_coded_against_a_prediction() {
    let area = ChromaArea { stride: 16, y: 8, x: 8, w: 8, h: 8 };
    let (up, vp) = (vec![100u16; 256], vec![90u16; 256]);
    let (mut recu, mut recv) = (vec![60u16; 256], vec![60u16; 256]);
    let (ru, rv) = chroma_leaf_residuals(&recu, &recv, &up, &vp, area, 128, 8, None);
    assert_eq!((ru, rv), (vec![40; 64], vec![30; 64]));
    let (pu, pv) = (vec![101i32; 64], vec![80i32; 64]);
    let cross = CrossPrediction { u: &pu, v: &pv };
    let (ru, rv) = chroma_leaf_residuals(&recu, &recv, &up, &vp, area, 128, 8, Some(cross));
    assert_eq!((ru, rv), (vec![-1; 64], vec![10; 64]));
    assert_eq!(residual_against(&up, 16, 0, 0, 2, 2, &[1, 2, 3, 4]), vec![99, 98, 97, 96]);

    let nb = Presence::new(4, 4).neighbors(2, 2, 2, 2);
    let mut lev_u = vec![0i32; 64];
    lev_u[2] = -3;
    let leaf = code_444_chroma_leaf(
        &mut recu,
        &mut recv,
        area,
        &vec![99u16; 64],
        &vec![91u16; 64],
        &lev_u,
        &vec![0i32; 64],
        nb,
    );
    assert_eq!(leaf.u, vec![(2, -3)]);
    assert!(leaf.v.is_empty() && leaf.u_present && !leaf.v_present);
    assert_eq!((leaf.u_skip, leaf.v_skip), (6, 6));
    assert_eq!(recu[8 * 16 + 8], 99);
    assert_eq!(recv[15 * 16 + 15], 91);
    assert_eq!(recu[0], 60);
}
