use maroontre::csc::{gbr_to_ycbcr, ColorMatrix, Weights};
use maroontre::core444::FrameRoute;
use maroontre::distortion::{
    cfl_sse_i32, coeff_abs_rate, pixel_sse_block, pixel_sse_block_const, rect_sse, sum_sumsq,
    tx16_distortion_halves, PlaneRect,
};
use maroontre::encoder::{Av2Encoder, BitDepth, Speed};
use maroontre::estimates::{
    estimate_element, estimate_intra_inter, estimate_shell_class, estimate_single_ref,
    symbol_share, Share,
};
use maroontre::modesearch::{
    mode_bits, mode_trials, needs_scores, optimizes_candidates, place_transform, recodes_winner,
    score_transform, shortlist, transform_spots, winner, LumaShape, TxSpot,
};
use maroontre::partsearch::{partition_probes, LumaPartitionDecision, Probe};
use maroontre::replay::{
    DecisionCursor, DecisionRecord, LeafDecision, Luma420, Sb400, Sb420, SbDecision, WholeChroma,
    WholePart, Whole64Decision,
};
use maroontre::simple::{Check, EncodeError, PlanarImage};
use maroontre::splitcost::{block_cost, split_cost, whole_cost, BlockCost};
use maroontre::syntax::Syntax;

#[test]
fn squared_errors() {
    let a: Vec<u16> = vec![1, 2, 3, 4, 5, 6];
    let b: Vec<u16> = vec![1, 0, 3, 7, 5, 6];
    let ra = PlaneRect { plane: &a, stride: 3, y: 0, x: 0 };
    let rb = PlaneRect { plane: &b, stride: 3, y: 0, x: 0 };
    assert_eq!(rect_sse(&ra, &rb, 3, 2), 4 + 9);
    assert_eq!(rect_sse(&rb, &ra, 3, 2), 13);
    assert_eq!(rect_sse(&ra, &ra, 3, 2), 0);
    let inner = PlaneRect { plane: &a, stride: 3, y: 1, x: 1 };
    assert_eq!(rect_sse(&inner, &rb, 2, 1), 16 + 36);
    assert_eq!(pixel_sse_block(&ra, &b, 3, 3, 2), 13);
    // the second row of the reconstruction is not complete
    assert_eq!(pixel_sse_block(&ra, &b[..5], 3, 3, 2), 4);
    assert_eq!(pixel_sse_block_const(&ra, 3, 2, 4), 9 + 4 + 1 + 0 + 1 + 4);
    assert_eq!(sum_sumsq(&a), (21, 91));
    assert_eq!(coeff_abs_rate(&[3, -4, 0, i32::MIN]), 7 + 0x8000_0000);
}

#[test]
fn chroma_from_luma_errors() {
    // alpha * ac / 2048, halves away from zero: 1.5, -1.5, 0
    let e = cfl_sse_i32(&[12, 8, 10], &[3072, -3072, 0], 1, 10, 255);
    assert_eq!(e, 0);
    // limited to the samples
    assert_eq!(cfl_sse_i32(&[255], &[2048 * 300], 1, 10, 255), 0);
    assert_eq!(cfl_sse_i32(&[10, 20], &[5, 6], 0, 15, 255), 25 + 25);
    // The longer slice is read as far as the shorter one.
    assert_eq!(cfl_sse_i32(&[10, 20], &[5], 0, 15, 255), 25);
    assert_eq!(cfl_sse_i32(&[-70_000], &[0], 3, 70_000, 80_000), 140_000 * 140_000);
}

#[test]
fn ringing_costs_more_than_an_offset() {
    let src = [100u16; 256];
    let flat = vec![102u16; 256];
    assert_eq!(tx16_distortion_halves(&src, &flat), 512 * 4);
    let ringing: Vec<u16> = (0..256).map(|i| if i % 2 == 0 { 102 } else { 98 }).collect();
    // 256 errors of 2 and 15 * 16 horizontal steps of 4
    assert_eq!(tx16_distortion_halves(&src, &ringing), 512 * 4 + 240 * 16);
    assert_eq!(tx16_distortion_halves(&src, &src), 0);
}

#[test]
fn probes_come_in_coding_order() {
    let steps = partition_probes(false);
    assert_eq!(steps.len(), 2 + 4 * (2 + 4));
    assert_eq!(steps[0], Probe::Whole);
    assert_eq!(steps[1], Probe::Block { size: 32, y: 0, x: 0 });
    assert_eq!(steps[2], Probe::Block { size: 16, y: 0, x: 0 });
    assert_eq!(steps[6], Probe::Judge32 { child: 0 });
    assert_eq!(steps[7], Probe::Block { size: 32, y: 0, x: 32 });
    assert_eq!(steps[25], Probe::Judge64);
    let steps = partition_probes(true);
    assert_eq!(steps.len(), 2 + 4 * (2 + 4 * 6));
    assert_eq!(steps[4], Probe::Block { size: 8, y: 0, x: 8 });
    assert_eq!(steps[7], Probe::Judge16 { index: 0 });
    assert!(steps.contains(&Probe::Judge16 { index: 15 }));
}

#[test]
fn cheaper_blocks_are_kept() {
    let mut d = LumaPartitionDecision::new();
    for p in partition_probes(true) {
        let (small, large) = match p {
            Probe::Judge16 { index } => (10, if index == 5 { 11 } else { 10 }),
            Probe::Judge32 { child } => (10, 10 + child as u64),
            Probe::Judge64 => (1, 2),
            _ => (0, 9),
        };
        let kept = d.judge(p, true, small, large);
        if matches!(p, Probe::Whole | Probe::Block { .. }) {
            assert!(!kept);
        }
    }
    assert!(d.split64);
    assert_eq!(d.split32, [false, true, true, true]);
    let marked: Vec<usize> = (0..16).filter(|&i| d.split16[i]).collect();
    assert_eq!(marked, vec![5]);
    let mut d = LumaPartitionDecision::new();
    assert!(!d.judge(Probe::Judge32 { child: 2 }, false, 1, 2));
    assert_eq!(d.split32, [false; 4]);
}

fn leaf(mode_idx: usize) -> LeafDecision {
    LeafDecision { bw_mi: 8, bh_mi: 8, tu: Vec::new(), mode_idx, recon_y: Vec::new() }
}

#[test]
fn decisions_are_replayed_in_order() {
    let mut rec: DecisionRecord<u32> = DecisionRecord::new();
    rec.push(SbDecision::Walk(vec![leaf(1)]));
    rec.push_mhccp(Some(7));
    rec.push_mhccp(None);
    rec.push_part(LumaPartitionDecision::new());
    rec.push_sb400(Sb400::Fallback);
    let mut other: DecisionRecord<u32> = DecisionRecord::new();
    other.push(SbDecision::Whole64(Box::new(Whole64Decision {
        part: WholePart::Vert4,
        tus: [Vec::new(), Vec::new(), Vec::new(), Vec::new()],
        mode_idx: 3,
        angle_delta: -1,
        chroma: WholeChroma::Mode(2),
        recon_y: Vec::new(),
        recon_u: Vec::new(),
        recon_v: Vec::new(),
    })));
    other.push_mhccp(Some(9));
    other.push_chroma422_whole(Some(4));
    other.push_sb420(Sb420::Walk(Vec::new()));
    other.push_luma420(Luma420 {
        tus: [Vec::new(), Vec::new(), Vec::new(), Vec::new()],
        mode_idx: 6,
        adelta: 2,
        recon_y: vec![1, 2],
    });
    assert_eq!((rec.len(), other.len()), (1, 1));
    rec.append(other);
    assert_eq!(rec.len(), 2);

    let mut at = DecisionCursor::new(&rec);
    match at.next() {
        SbDecision::Walk(leaves) => assert_eq!(leaves[0].mode_idx, 1),
        _ => panic!("the walk comes first"),
    }
    match at.next() {
        SbDecision::Whole64(w) => assert_eq!((w.part, w.mode_idx), (WholePart::Vert4, 3)),
        _ => panic!("the whole superblock comes second"),
    }
    assert!(matches!(at.next(), SbDecision::Fallback));
    assert!(matches!(at.next(), SbDecision::Fallback));
    assert_eq!(at.next_mhccp(), Some(&Some(7)));
    assert_eq!(at.next_mhccp(), Some(&None));
    assert_eq!(at.next_mhccp(), Some(&Some(9)));
    assert_eq!(at.next_mhccp(), None);
    assert!(at.next_part().is_some());
    assert!(at.next_part().is_none());
    assert_eq!(at.next_chroma422_whole(), Some(&Some(4)));
    assert_eq!(at.next_chroma422_whole(), None);
    assert!(matches!(at.next_sb400(), Some(Sb400::Fallback)));
    assert!(at.next_sb400().is_none());
    assert!(matches!(at.next_sb420(), Some(Sb420::Walk(_))));
    assert!(at.next_sb420().is_none());
    assert_eq!(at.next_luma420().unwrap().mode_idx, 6);
    assert!(at.next_luma420().is_none());
}

fn matrix() -> ColorMatrix {
    // weights of 0.299, 0.587 and 0.114
    ColorMatrix {
        frac: 13,
        y: Weights { r: 2449, g: 4809, b: 934 },
        cb: Weights { r: -1382, g: -2714, b: 4096 },
        cr: Weights { r: 4096, g: -3430, b: -666 },
    }
}

#[test]
fn colors_are_converted() {
    let img = PlanarImage {
        width: 4,
        height: 1,
        bit_depth: BitDepth::Eight,
        planes: [vec![255u16, 0, 0, 90], vec![255, 0, 255, 90], vec![255, 255, 0, 90], Vec::new()],
    };
    let (y, cb, cr) = gbr_to_ycbcr(&img, &matrix());
    assert_eq!(y, vec![255, 76, 29, 90]);
    assert_eq!(cb, vec![128, 85, 255, 128]);
    assert_eq!(cr, vec![128, 255, 107, 128]);
    let bytes = PlanarImage {
        width: img.width,
        height: img.height,
        bit_depth: img.bit_depth,
        planes: [0, 1, 2, 3].map(|k: usize| img.planes[k].iter().map(|&v| v as u8).collect()),
    };
    assert_eq!(gbr_to_ycbcr(&bytes, &matrix()), (y.clone(), cb.clone(), cr.clone()));
    let out = Av2Encoder::new(0).encode_image_444(&img, &matrix()).unwrap();
    assert_eq!((out.y, out.cb, out.cr), (y, cb, cr));
    assert_eq!(out.route, FrameRoute::Lossless);
    let half = ColorMatrix {
        frac: 1,
        y: Weights { r: 1, g: 1, b: 0 },
        cb: Weights { r: 0, g: 0, b: 0 },
        cr: Weights { r: 2, g: 0, b: 0 },
    };
    let (y, cb, cr) = gbr_to_ycbcr(&img, &half);
    assert_eq!(y, vec![255, 128, 0, 90]);
    assert_eq!((cb, cr), (vec![128; 4], vec![255, 255, 128, 218]));
    for (width, height) in [(0, 1), (1, 0), (20000, 1), (1, 16384)] {
        let out = Av2Encoder::new(9).encode_image_444(&bytes_of(width, height), &matrix());
        assert_eq!(out.err(), Some(EncodeError::DimensionsOutOfRange));
    }
}

#[test]
fn incomplete_planes_are_refused_before_sizes() {
    for k in 0..3usize {
        for (width, height) in [(1, 1), (20000, 3)] {
            let mut img = bytes_of(width, height);
            img.planes[k].pop();
            let refused = EncodeError::Rejected(Check::Plane(k as u8));
            assert_eq!(img.validate_444(), Err(refused));
            let enc = Av2Encoder::new(9);
            assert_eq!(enc.encode_yuv444(&img), Err(refused));
            assert_eq!(enc.encode_image_444(&img, &matrix()).err(), Some(refused));
            assert_eq!(enc.encode_yuv444_lossless(&img, &Vec::new()).err(), Some(refused));
        }
    }
    assert_eq!(bytes_of(3, 2).validate_444(), Ok(()));
    let huge = PlanarImage { width: usize::MAX, height: usize::MAX, ..bytes_of(1, 1) };
    assert_eq!(huge.validate_444(), Err(EncodeError::Rejected(Check::Plane(0))));
}

fn bytes_of(width: usize, height: usize) -> PlanarImage<u8> {
    let plane = vec![1u8; width * height];
    PlanarImage {
        width,
        height,
        bit_depth: BitDepth::Eight,
        planes: [plane.clone(), plane.clone(), plane, Vec::new()],
    }
}

#[test]
fn quarters_stay_whole_without_leave() {
    let mut d = LumaPartitionDecision::new();
    for p in partition_probes(true) {
        let split = d.judge(p, false, 1, 2);
        assert_eq!(split, matches!(p, Probe::Judge16 { .. } | Probe::Judge64));
    }
    assert!(d.split64 && d.split16 == [true; 16] && d.split32 == [false; 4]);
}

#[test]
fn shares_are_the_steps_of_a_table() {
    let cdf = [20000u16, 5000, 5000];
    let all: Vec<u32> = (0..3).map(|s| symbol_share(&cdf, s, 3)).collect();
    assert_eq!(all, vec![12768, 15000, 5000]);
    assert_eq!(all.iter().sum::<u32>(), 32768);
    // an empty step counts as one
    assert_eq!(symbol_share(&cdf, 2, 4), 1);
}

#[test]
fn estimates_without_tables_are_uniform() {
    let cdf = [20000u16];
    assert_eq!(estimate_element(Syntax::Drl, None, 1), Share { num: 1, den: 2 });
    assert_eq!(estimate_element(Syntax::InterSingleMode, None, 2), Share { num: 1, den: 3 });
    assert_eq!(estimate_shell_class(0, None, 7), Share { num: 1, den: 8 });
    assert_eq!(estimate_element(Syntax::Drl, Some(&cdf), 0), Share { num: 12768, den: 32768 });
    assert_eq!(estimate_intra_inter(false, Some(&cdf), 1), Share { num: 1, den: 1 });
    assert_eq!(estimate_intra_inter(true, Some(&cdf), 1), Share { num: 20000, den: 32768 });
    assert_eq!(estimate_single_ref(1, Some(&cdf), 0), Share { num: 1, den: 1 });
    assert_eq!(estimate_single_ref(2, Some(&cdf), 0), Share { num: 20000, den: 32768 });
    assert_eq!(estimate_single_ref(2, Some(&cdf), 1), Share { num: 12768, den: 32768 });
}

#[test]
fn chroma_costs_of_both_ways() {
    let src = vec![10u16; 64 * 64];
    let mut rec = src.clone();
    rec[65] = 13;
    let rect = |p| PlaneRect { plane: p, stride: 64, y: 0, x: 0 };
    let c = block_cost(&rect(&src), &rect(&rec), 64, &[5, 0, -1, 0]);
    assert_eq!(c, BlockCost { error: 9, bits: 8 });
    assert_eq!(whole_cost(&c, &c), BlockCost { error: 72, bits: 16 });
    assert_eq!(split_cost(&[c; 4], &[c; 4]), BlockCost { error: 72, bits: 70 });
    let none = BlockCost { error: 0, bits: 0 };
    assert_eq!(whole_cost(&none, &none), none);
    assert_eq!(split_cost(&[none; 4], &[none; 4]), BlockCost { error: 0, bits: 6 });
}

#[test]
fn transforms_of_luma_blocks() {
    let spot = |y, x, index| TxSpot { y, x, index };
    assert_eq!(
        transform_spots(LumaShape::Superblock),
        vec![spot(0, 0, 0), spot(0, 32, 1), spot(32, 0, 2), spot(32, 32, 3)]
    );
    assert_eq!(transform_spots(LumaShape::Wide), vec![spot(0, 0, 0), spot(0, 32, 1)]);
    assert_eq!(transform_spots(LumaShape::Tall), vec![spot(0, 0, 0), spot(32, 0, 2)]);
    assert_eq!(transform_spots(LumaShape::Single), vec![spot(0, 0, 0)]);
}

#[test]
fn mode_searches_are_pruned_by_score() {
    let modes = |v: &[(usize, i32)]| v.iter().map(|c| c.0).collect::<Vec<usize>>();
    let all = mode_trials(LumaShape::Superblock, Speed::Slow, true);
    assert_eq!(all.len(), 5 + 8 * 7);
    assert_eq!(all[0], (0, 0));
    let single = mode_trials(LumaShape::Single, Speed::Medium, true);
    assert_eq!(modes(&single), vec![0, 1, 2, 3, 4]);
    assert!(needs_scores(LumaShape::Single, Speed::Medium, 5));
    assert!(!needs_scores(LumaShape::Tall, Speed::Medium, 5));
    assert!(!needs_scores(LumaShape::Superblock, Speed::Fast, 4));
    let picked = shortlist(LumaShape::Single, Speed::Medium, &single, &[9, 4, 9, 1, 9]);
    assert_eq!(modes(&picked), vec![3, 1, 0]);
    let picked = shortlist(LumaShape::Wide, Speed::Medium, &single, &[]);
    assert_eq!(modes(&picked), vec![0, 1, 2, 3, 4]);
    assert_eq!(winner(&[7, 3, 5, 3]), 1);
    assert_eq!([0, 1, 4, 5, 12].map(|m| mode_bits(m)), [0, 6, 6, 9, 9]);
    assert!(optimizes_candidates(Speed::Slow, true) && !recodes_winner(Speed::Slow, true));
    assert!(!optimizes_candidates(Speed::Fast, true) && recodes_winner(Speed::Fast, true));
    assert!(!optimizes_candidates(Speed::Slow, false) && !recodes_winner(Speed::Fast, false));
}

#[test]
fn search_steps_write_their_block() {
    let src = vec![100u16; 64 * 64];
    let mut rec = vec![0u16; 64 * 64];
    // a constant difference of 3: sixteen times it in each of 64 tiles
    assert_eq!(score_transform(&mut rec, &src, 64, 32, 0, &[97; 1024]), 64 * 16 * 3);
    assert_eq!((rec[32 * 64], rec[63 * 64 + 31], rec[31 * 64], rec[32 * 64 + 32]), (97, 97, 0, 0));
    assert_eq!(place_transform(&mut rec, &src, 64, 32, 0, &[98; 1024]), 4 * 1024);
    assert_eq!((rec[32 * 64], rec[32 * 64 + 32]), (98, 0));
}
