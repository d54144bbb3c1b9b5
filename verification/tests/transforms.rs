use maroontre::fdct::{fdct_rect, scale_rect2, RectKernels};
use maroontre::itx422::{
    chroma_coeffs, dc_tx_index, dc_tx_scale, dequantize, fill_grid, luma_coeffs,
    reconstruct_luma16_adst, GridSpec, ScanOrder, TxSize,
};
use maroontre::proj::{default_bases, rdoq_truncate_eob, Bases, Basis, ForwardPlan, FwdKind};

const K4: [i8; 16] = [64, 64, 64, 64, 83, 36, -36, -83, 64, -64, -64, 64, 36, -83, 83, -36];

const K8: [i8; 64] = [
    64, 64, 64, 64, 64, 64, 64, 64, 89, 75, 50, 18, -18, -50, -75, -89, 83, 36, -36, -83, -83, -36,
    36, 83, 75, -18, -89, -50, 50, 89, 18, -75, 64, -64, -64, 64, 64, -64, -64, 64, 50, -89, 18,
    75, -75, -18, 89, -50, 36, -83, 83, -36, -36, 83, -83, 36, 18, -50, 75, -89, 89, -75, 50, -18,
];

#[test]
fn square_transforms() {
    let resid: Vec<i32> = (0..16).map(|i| (7 * i * i + 3 * i) % 41 - 20).collect();
    let k = RectKernels { rows: &K4, cols: &K4, shift1: 1, shift2: 6 };
    assert_eq!(
        fdct_rect(&resid, 4, 4, &k),
        vec![896, -3135, -1664, -275, -854, -3135, 0, 589, -384, 0, 0, 0, -74, 589, 0, 2241]
    );
}

#[test]
fn two_to_one_transforms_are_scaled() {
    let resid: Vec<i32> = (0..32).map(|i| (5 * i * i + i) % 61 - 30).collect();
    let k = RectKernels { rows: &K8, cols: &K4, shift1: 2, shift2: 6 };
    assert_eq!(
        fdct_rect(&resid, 8, 4, &k),
        vec![
            -3915, 3546, -528, -5049, -520, -2454, 573, -1591, -4910, -2034, -878, -866, 1791,
            1983, -1577, -1520, -1561, -86, -4356, 3085, 1380, 1380, 238, 3386, 1428, 209, -4338,
            -2428, 775, 1008, 880, -3376
        ]
    );
    assert_eq!(scale_rect2(1000), 1414);
    assert_eq!(scale_rect2(-1000), -1414);
    assert_eq!(scale_rect2(0), 0);
}

#[test]
fn levels_are_dequantized() {
    // (5 * 100 + 4) / 8, then halved by the scale
    assert_eq!(dequantize(5, 100, 0), 63);
    assert_eq!(dequantize(-5, 100, 0), -63);
    assert_eq!(dequantize(5, 100, 1), 31);
    assert_eq!(dequantize(0, 100, 2), 0);
    // products keep 24 bits
    assert_eq!(dequantize(0x100_0001, 8, 0), 1);
    assert_eq!(dc_tx_scale(8, 8), 0);
    assert_eq!(dc_tx_scale(16, 16), 0);
    assert_eq!(dc_tx_scale(32, 32), 1);
    assert_eq!(dc_tx_scale(64, 64), 2);
    assert_eq!(dc_tx_scale(16, 32), 1);
}

#[test]
fn levels_are_placed_by_scan() {
    let spec = GridSpec {
        order: ScanOrder::Rows(4),
        line: 4,
        by_columns: false,
        size: 16,
        qstep: 8,
        scale: 0,
    };
    let scan: Vec<u16> = vec![0, 4, 1, 2];
    let g = fill_grid(&[3, 0, -2, 7], &scan, &spec);
    assert_eq!((g[0], g[1], g[2], g[4]), (3, -2, 7, 0));
    assert_eq!(g.iter().filter(|&&v| v != 0).count(), 3);

    // 8x8 chroma, row scan: coefficients are kept column by column
    let scan: Vec<u16> = (0..64u16).map(|i| (i % 8) * 8 + i / 8).collect();
    let mut lev = vec![0i32; 64];
    lev[1] = 5; // row 1, column 0
    lev[8] = -6; // row 0, column 1
    let g = chroma_coeffs(&lev, 8, &scan, 8, 8);
    assert_eq!((g[1], g[8]), (5, -6));
    assert_eq!(g.iter().filter(|&&v| v != 0).count(), 2);

    let scan: Vec<u16> = (0..256u16).map(|i| (i % 16) * 16 + i / 16).collect();
    let mut lev = vec![0i32; 256];
    lev[1] = 5;
    let g = luma_coeffs(&lev, 8, &scan, 16, 16);
    assert_eq!(g.len(), 256);
    assert_eq!(g[1], 5);
    // levels beyond the transform are not read
    let (mut longer, mut places) = (lev.clone(), scan.clone());
    longer.push(1);
    places.push(0);
    assert_eq!(luma_coeffs(&longer, 8, &places, 16, 16), g);
}

#[test]
fn sine_transforms_are_inverted() {
    let scan: Vec<u16> = (0..256u16).map(|i| (i % 16) * 16 + i / 16).collect();
    let mut lev = vec![0i32; 256];
    lev[0] = 30;
    lev[1] = -7;
    lev[17] = 4;
    let pred = vec![128i32; 256];
    let out = reconstruct_luma16_adst(&pred, &lev, 400, &scan, true, false, 8);
    assert_eq!(
        out[..16],
        [130, 132, 133, 135, 136, 137, 138, 138, 138, 138, 137, 137, 137, 136, 136, 136]
    );
    assert_eq!(
        out[240..],
        [129, 130, 132, 133, 135, 137, 139, 141, 143, 145, 147, 149, 150, 151, 152, 153]
    );
    let out = reconstruct_luma16_adst(&pred, &lev, 400, &scan, true, true, 8);
    assert_eq!(
        out[..16],
        [128, 129, 129, 129, 129, 129, 129, 129, 129, 129, 128, 128, 128, 128, 128, 128]
    );
    let none = vec![0i32; 256];
    assert_eq!(reconstruct_luma16_adst(&pred, &none, 400, &scan, true, true, 8), pred);
}

#[test]
fn settings_follow_depth_and_quantizer() {
    let b = Basis::new();
    assert_eq!((b.max_val, b.qstep, b.fwd), (255, 1248, FwdKind::Proj));
    let mut t = default_bases();
    assert_eq!(t.chroma422.fwd, FwdKind::Dct(32, 64));
    assert_eq!(t.luma16x16_adst_dct.fwd, FwdKind::AdstDct16);
    assert_eq!(t.c4x4.fwd, FwdKind::Dct(4, 4));
    t.set_bit_depth(10);
    let smallest = |t: &Bases| [t.c4x8, t.c8x4, t.c4x4, t.luma16x32, t.luma32x16, t.luma];
    assert_eq!(smallest(&t).map(|b| b.max_val), [1023; 6]);
    assert_eq!(smallest(&t).map(|b| b.qstep), [1248; 6]);
    let t = t.rescaled_to_q(1);
    assert_eq!(smallest(&t).map(|b| b.max_val), [1023; 6]);
    assert_eq!(smallest(&t).map(|b| b.qstep), [40; 6]);
}

#[test]
fn weak_tails_are_dropped() {
    let mut lev = vec![5, 0, 1, 0, -1, 0];
    rdoq_truncate_eob(&mut lev, &[true, false, false, false, true, false]);
    assert_eq!(lev, vec![5, 0, 1, 0, 0, 0]);
    let mut lev = vec![5, 1];
    rdoq_truncate_eob(&mut lev, &[true, true]);
    assert_eq!(lev, vec![0, 0]);
    let mut lev = vec![5, 1, 9];
    rdoq_truncate_eob(&mut lev, &[true, true]);
    assert_eq!(lev, vec![0, 0, 9]);
}

#[test]
fn shapes_name_their_transforms() {
    assert_eq!(dc_tx_index(4, 4), TxSize::Tx4x4);
    assert_eq!(dc_tx_index(64, 4), TxSize::Tx64x4);
    assert_eq!(dc_tx_index(16, 32), TxSize::Tx16x32);
    let b = default_bases();
    assert_eq!(
        b.chroma444.plan(),
        Some(ForwardPlan::Cosine { w: 64, h: 64, coded_width: 32, factor: 32 })
    );
    assert_eq!(
        b.c8x16.plan(),
        Some(ForwardPlan::Cosine { w: 8, h: 16, coded_width: 8, factor: 8 })
    );
    assert_eq!(
        b.luma16x16_adst_dct.plan(),
        Some(ForwardPlan::Mixed { col_adst: true, row_adst: false, factor: 8 })
    );
    assert_eq!(Basis::new().plan(), None);
}
