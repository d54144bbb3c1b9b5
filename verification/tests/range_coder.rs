use maroontre::entropy::RangeEncoder;
use maroontre::syntax::{entries, fixed_bank, live_table, skip_slot, skip_table, Syntax};

const SIX: [u16; 6] = [23989, 17673, 11991, 7865, 4845, 2365];

#[test]
fn nothing_coded_is_one_byte() {
    assert_eq!(RangeEncoder::new().finish(), vec![0x80]);
}

#[test]
fn booleans() {
    let mut e = RangeEncoder::new();
    for i in 0..40 {
        e.encode_bool(16384, (i % 3 == 0) as u32);
    }
    assert_eq!(e.finish(), vec![0x91, 0xdb, 0x6d, 0xb6, 0xdb, 0x80]);
}

#[test]
fn symbols_and_the_escape_symbol() {
    let mut e = RangeEncoder::new();
    for s in [0usize, 6, 3, 1, 5, 2, 4, 6, 6, 0] {
        e.sym_static(&SIX, s, 6);
    }
    assert_eq!(e.finish(), vec![0x42, 0xb1, 0xd3, 0x71]);

    let mut a = RangeEncoder::new();
    let mut b = RangeEncoder::new();
    a.sym_static(&SIX, 6, 6);
    b.encode_symbol_esc(&SIX, 6, 6);
    assert_eq!(a.finish(), b.finish());
    let mut a = RangeEncoder::new();
    let mut b = RangeEncoder::new();
    a.sym_static(&SIX, 2, 6);
    b.encode_symbol(&SIX, 2, 6);
    assert_eq!(a.finish(), b.finish());
}

#[test]
fn equiprobable_bits() {
    let mut e = RangeEncoder::new();
    e.encode_bypass(0x2a, 6);
    e.encode_uniform(3, 5);
    e.encode_uniform(1, 5);
    e.encode_bypass(0x5a5, 11);
    assert_eq!(e.finish(), vec![0xab, 0x36, 0x96]);
}

#[test]
fn live_tables_name_their_alphabet() {
    let mut e = RangeEncoder::new();
    assert_eq!(e.sym_mut_inner(&[20000, 10000, 0, 0], 2, 3), 3);
    assert_eq!(e.sym_mut_inner(&[20000, 10000, 5000, 0], 3, 3), 4);
    assert_eq!(e.finish(), vec![0xfc]);

    let mut e = RangeEncoder::new();
    assert_eq!(e.sym(Some(&[20000, 10000, 5000, 0]), &[], 1, 3), Some(4));
    assert_eq!(e.sym(None, &SIX, 1, 6), None);
    assert_eq!(e.bool_sym(Some(&[20000, 0]), 5, 1), Some(2));
    assert_eq!(e.bool_sym(None, 20000, 1), None);
    assert_eq!(e.emit_live(None, 1, 3), None);
    assert_eq!(e.emit_live(Some(&[20000, 10000, 5000, 0]), 1, 3), Some(4));
}

#[test]
fn a_boolean_is_a_table_of_one_entry() {
    for cdf in [1u16, 127, 128, 9000, 32767] {
        for bit in 0..2u32 {
            let mut a = RangeEncoder::new();
            let mut b = RangeEncoder::new();
            a.encode_bool(cdf as u32, bit);
            b.sym_static(&[cdf], bit as usize, 1);
            assert_eq!(a.finish(), b.finish());
        }
    }
}

#[test]
fn a_sink_codes_nothing() {
    let mut e = RangeEncoder::new();
    e.set_sink(true);
    for s in 0..6usize {
        e.sym_static(&SIX, s, 6);
        e.encode_bool(16384, 1);
        e.encode_bypass(5, 3);
    }
    // live tables still say how they adapt
    let live: &[u16] = &[20000, 9000, 0, 0];
    assert_eq!(e.sym_mut_inner(live, 1, 2), 3);
    assert_eq!(e.code_element(Syntax::Drl, Some(&[20000, 0]), &[], 1, 1), Some(2));
    assert_eq!(e.emit_inter_tx16_dct(0, None), None);
    e.set_sink(false);
    assert_eq!(e.finish(), vec![0x80]);
}

#[test]
fn reference_flags() {
    let live: &[u16] = &[20000, 0];
    let mut e = RangeEncoder::new();
    assert_eq!(e.emit_intra_inter_val(false, Some(live), 1), None);
    assert_eq!(e.emit_intra_inter_val(true, None, 1), None);
    assert_eq!(e.emit_single_ref_rank(1, 0, Some(live)), None);
    assert_eq!(e.finish(), vec![0x80]);

    let mut e = RangeEncoder::new();
    let mut f = RangeEncoder::new();
    assert_eq!(e.emit_single_ref_rank(2, 0, Some(live)), Some(2));
    assert_eq!(e.emit_intra_inter_val(true, Some(live), 0), Some(2));
    f.sym_mut_inner(live, 1, 1);
    f.sym_mut_inner(live, 0, 1);
    assert_eq!(e.finish(), f.finish());
}

#[test]
fn palette_syntax() {
    let mut e = RangeEncoder::new();
    e.sym_palette_y_mode(1);
    e.sym_palette_y_size(3);
    e.sym_palette_identity_row_off(true);
    e.sym_palette_y_color(3, 1, 2);
    e.sym_palette_identity_row_off(false);
    e.sym_palette_y_color(3, 0, 0);
    assert_eq!(e.finish(), vec![0xf1, 0x90]);
}

#[test]
fn cosine_transform_of_an_inter_block() {
    let mut e = RangeEncoder::new();
    assert_eq!(e.emit_inter_tx16_dct(0, None), None);
    assert_eq!(e.finish(), vec![0x10]);
    let mut e = RangeEncoder::new();
    assert_eq!(e.emit_inter_tx16_dct(1, None), None);
    assert_eq!(e.finish(), vec![0x40]);
    let mut e = RangeEncoder::new();
    let set: &[u16] = &[11933, 0];
    let idx: &[u16] = &[31628, 31043, 30444, 18115, 13696, 9150, 4659, 0];
    assert_eq!(e.emit_inter_tx16_dct(0, Some((set, idx))), Some((2, 8)));
    assert_eq!(e.finish(), vec![0x10]);
}

#[test]
fn elements_choose_their_table() {
    assert_eq!(entries(Syntax::Luma8Hf), Some(3));
    assert_eq!(entries(Syntax::Luma32Lf), Some(5));
    assert_eq!(entries(Syntax::CflSign), Some(8));
    assert_eq!(entries(Syntax::MvdShellClass1), Some(7));
    assert_eq!(entries(Syntax::Eob256), None);
    assert_eq!(fixed_bank(Syntax::BaseUv, 3), 3);
    assert_eq!(fixed_bank(Syntax::BaseTx4, 3), 0);
    assert_eq!(live_table(Syntax::EobBin, true), Syntax::EobBinInter);
    assert_eq!(live_table(Syntax::EobBin, false), Syntax::EobBin);
    assert_eq!(live_table(Syntax::Br, true), Syntax::Br);
    assert_eq!(
        [0u8, 1, 2, 3, 4, 5, 6].map(|t| skip_table(t, false)),
        [
            Syntax::TxbSkip,
            Syntax::SkipTx64,
            Syntax::SkipV,
            Syntax::SkipTx16,
            Syntax::SkipTx8,
            Syntax::SkipTx4,
            Syntax::SkipTx16Inter
        ]
    );
    assert_eq!(skip_table(0, true), Syntax::TxbSkipInter);
    assert_eq!(skip_slot(2, 5, (0, 1), true), (Syntax::SkipV, 5));
    assert_eq!(skip_slot(0, 5, (4, 1), true), (Syntax::SkipTx8, 1));
}

#[test]
fn elements_are_coded_with_live_or_fixed_tables() {
    let mut a = RangeEncoder::new();
    let mut b = RangeEncoder::new();
    assert_eq!(a.code_element(Syntax::YSet, None, &[20000, 10000, 5000], 3, 3), None);
    b.sym_static(&[20000, 10000, 5000], 3, 3);
    assert_eq!(
        a.code_element(Syntax::YSet, Some(&[20000, 10000, 5000, 0]), &[], 0, 3),
        Some(4)
    );
    b.sym_mut_inner(&[20000, 10000, 5000, 0], 0, 3);
    // without a live table this one is not coded at all
    assert_eq!(a.code_element(Syntax::Drl, None, &[], 1, 1), None);
    assert_eq!(a.finish(), b.finish());
}

/// A made-up table of `n` entries for a quantizer context and a row.
fn made_up(qc: usize, row: usize, n: usize) -> Vec<u16> {
    (0..n).map(|i| (32000 * (n - i) / (n + 1) + 97 * qc + 13 * row) as u16).collect()
}

fn assert_static_matches_initial_adaptive(e: Syntax, qc: usize, row: usize, n: usize) {
    let banks: Vec<Vec<u16>> = (0..4).map(|q| made_up(q, row, n)).collect();
    let mut live = banks[qc].clone();
    live.extend([0, 0, 0]);
    for s in 0..=n {
        let mut static_enc = RangeEncoder::new();
        let mut adaptive_enc = RangeEncoder::new();
        let fixed = &banks[fixed_bank(e, qc)];
        assert_eq!(static_enc.code_element(e, None, fixed, s, n), None);
        assert_eq!(adaptive_enc.code_element(e, Some(&live), &[], s, n), Some(n + 1));
        for enc in [&mut static_enc, &mut adaptive_enc] {
            enc.encode_bypass(0x5a5, 11);
            enc.encode_bool(9000, 1);
        }
        assert_eq!(static_enc.finish(), adaptive_enc.finish(), "{e:?} qc {qc} row {row} s {s}");
    }
}

#[test]
fn static_tx4_chroma_uses_the_frame_q_context() {
    for qc in 0..4 {
        for ctx in 0..12 {
            assert_static_matches_initial_adaptive(Syntax::BaseLfUv, qc, ctx, 5);
            assert_static_matches_initial_adaptive(Syntax::BaseUv, qc, ctx, 3);
        }
        for ctx in 0..4 {
            assert_static_matches_initial_adaptive(Syntax::BrUv, qc, ctx, 3);
            assert_static_matches_initial_adaptive(Syntax::BaseLfEobUv, qc, ctx, 4);
            assert_static_matches_initial_adaptive(Syntax::BaseEobUv, qc, ctx, 2);
        }
    }
}
