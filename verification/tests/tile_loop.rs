use maroontre::core444::{
    LumaPart, Place, TileAction, TileCoder444, TileEvent, TilePlan,
};
use maroontre::encoder::{Av2Encoder, Speed, TxPart};
use maroontre::partition::{sb_none_do_split_cdf, sb_none_pctx, sb_square_split_ops, Op};
use maroontre::simple::EncodeError;

/// Run a loop to its end and list what it asked for.
fn drive(
    mut tile: TileCoder444,
    mut answer: impl FnMut(TileAction) -> TileEvent,
) -> Vec<TileAction> {
    let mut actions = vec![tile.step(TileEvent::Begin)];
    while *actions.last().unwrap() != TileAction::Done {
        let event = answer(*actions.last().unwrap());
        actions.push(tile.step(event));
    }
    actions
}

/// Costs are equal, nothing wins, and no block has levels.
fn dull(a: TileAction) -> TileEvent {
    match a {
        TileAction::CostChroma { .. } => TileEvent::SplitWins(false),
        TileAction::CostCfl { .. } => TileEvent::CflWins(false),
        TileAction::CostLuma { .. } | TileAction::CostMode { .. } | TileAction::CostLeaf { .. } => {
            TileEvent::Cost(9)
        }
        TileAction::CodeSplit { .. } | TileAction::CodeRect { .. } => TileEvent::Written,
        TileAction::CodeWhole { .. } => TileEvent::BlockCoded { u: false, v: false },
        TileAction::CodeLeaf { .. } => TileEvent::LeafCoded { u: false, v: false, cfl: false },
        TileAction::Done => unreachable!(),
    }
}

fn at(y: usize, x: usize) -> Place {
    Place { y, x }
}

fn plan(mi_cols: usize, mi_rows: usize) -> TilePlan {
    TilePlan {
        width: 4 * mi_cols,
        height: 4 * mi_rows,
        mi_cols,
        mi_rows,
        sb_cols: (mi_cols + 15) / 16,
        sb_rows: (mi_rows + 15) / 16,
        needs_partition: true,
        chroma_split: true,
        base_q_idx: 50,
        txpart: TxPart::ThreeWay,
        cfl: true,
        mhccp: true,
        delta_q: true,
        mode_search: true,
        reduced: true,
        directional: false,
    }
}

/// Blocks that are coded, in units of four pixels: row, column, width, height.
fn blocks(actions: &[TileAction]) -> Vec<(usize, usize, usize, usize)> {
    actions
        .iter()
        .filter_map(|a| match a {
            TileAction::CodeWhole { at, .. } => Some((at.y / 4, at.x / 4, 16, 16)),
            TileAction::CodeLeaf { at, plan, .. } => {
                Some((at.y / 4, at.x / 4, plan.chroma_w / 4, plan.chroma_h / 4))
            }
            _ => None,
        })
        .collect()
}

#[test]
fn sizes_out_of_range_have_no_loop() {
    let enc = Av2Encoder::new(50);
    for (w, h) in [(0, 8), (8, 0), (16384, 8), (8, 16384)] {
        let refused = TileCoder444::new(&enc, w, h, false).err();
        assert_eq!(refused, Some(EncodeError::DimensionsOutOfRange));
    }
    assert!(TileCoder444::new(&enc, 16383, 16383, true).is_ok());
}

#[test]
fn a_whole_superblock_is_costed_then_coded() {
    let enc = Av2Encoder::new(50).with_speed(Speed::Fast);
    let tile = TileCoder444::new(&enc, 64, 64, true).unwrap();
    let mut order = Vec::new();
    let actions = drive(tile, |a| match a {
        TileAction::CostLuma { part, .. } => {
            order.push(part);
            TileEvent::Cost(if part == LumaPart::Split { 5 } else { 4 })
        }
        // modes 1 and 4 cost the same: the first one wins
        TileAction::CostMode { mode, bits, .. } => {
            assert_eq!(bits, if mode == 0 { 0 } else { 2 });
            TileEvent::Cost(if mode == 1 || mode == 4 { 3 } else { 7 })
        }
        a => dull(a),
    });
    assert_eq!(order, vec![LumaPart::Split, LumaPart::Vert4, LumaPart::Horz4]);
    let modes: Vec<usize> = actions
        .iter()
        .filter_map(|a| match a {
            TileAction::CostMode { mode, .. } => Some(*mode),
            _ => None,
        })
        .collect();
    assert_eq!(modes, vec![0, 1, 4, 5, 6]);
    assert_eq!(actions[0], TileAction::CostChroma { at: at(0, 0) });
    // prediction from luma comes before the modes
    assert_eq!(actions[4], TileAction::CostCfl { at: at(0, 0) });
    assert_eq!(actions.len(), 5 + 5 + 2);
    match actions[10] {
        TileAction::CodeWhole { at: place, split_cdf, part, cfl, uv_mode, delta_q, nb } => {
            assert_eq!((place, split_cdf), (at(0, 0), 12276));
            // equal costs keep the earlier partition
            assert_eq!((part, cfl, uv_mode, delta_q), (LumaPart::Vert4, false, 1, true));
            assert!(!nb.u_above && !nb.u_left && nb.cfl_ctx == 0);
        }
        a => panic!("{a:?}"),
    }
}

#[test]
fn forced_partitions_and_cross_prediction_skip_the_search() {
    let enc = Av2Encoder::new(120).with_txpart(TxPart::Horz4);
    let tile = TileCoder444::new(&enc, 64, 64, false).unwrap();
    let actions = drive(tile, |a| match a {
        TileAction::CostLuma { part, .. } => {
            TileEvent::Cost(if part == LumaPart::Split { 1 } else { 100 })
        }
        TileAction::CostCfl { .. } => TileEvent::CflWins(true),
        a => dull(a),
    });
    // quantizer index 120 is beyond the split, and the mode search is left out
    let place = at(0, 0);
    assert_eq!(
        actions[..3],
        [
            TileAction::CostLuma { at: place, part: LumaPart::Split },
            TileAction::CostLuma { at: place, part: LumaPart::Horz4 },
            TileAction::CostCfl { at: place },
        ]
    );
    assert!(matches!(
        actions[3],
        TileAction::CodeWhole { part: LumaPart::Horz4, cfl: true, uv_mode: 0, .. }
    ));
    let enc = enc.with_cfl(false).with_chroma_mode_search(false);
    let tile = TileCoder444::new(&enc, 64, 64, false).unwrap();
    let actions = drive(tile, dull);
    assert!(matches!(actions[2], TileAction::CodeWhole { cfl: false, uv_mode: 0, .. }));
}

#[test]
fn the_cheapest_partition_is_kept_unless_one_is_forced() {
    let pick = |txpart, split: u64, vert: u64, horz: u64| {
        let enc = Av2Encoder::new(120).with_txpart(txpart);
        let tile = TileCoder444::new(&enc, 64, 64, false).unwrap();
        let actions = drive(tile, |a| match a {
            TileAction::CostLuma { part: LumaPart::Split, .. } => TileEvent::Cost(split),
            TileAction::CostLuma { part: LumaPart::Vert4, .. } => TileEvent::Cost(vert),
            TileAction::CostLuma { part: LumaPart::Horz4, .. } => TileEvent::Cost(horz),
            a => dull(a),
        });
        match actions[actions.len() - 2] {
            TileAction::CodeWhole { part, .. } => part,
            a => panic!("{a:?}"),
        }
    };
    assert_eq!(pick(TxPart::ThreeWay, 5, 6, 7), LumaPart::Split);
    assert_eq!(pick(TxPart::ThreeWay, 5, 3, 4), LumaPart::Vert4);
    assert_eq!(pick(TxPart::ThreeWay, 5, 4, 3), LumaPart::Horz4);
    assert_eq!(pick(TxPart::ThreeWay, 5, 5, 5), LumaPart::Split);
    assert_eq!(pick(TxPart::Rd2, 5, 4, 3), LumaPart::Vert4);
    assert_eq!(pick(TxPart::Vert4, 5, 9, 1), LumaPart::Vert4);
    assert_eq!(pick(TxPart::Horz4, 5, 1, 9), LumaPart::Horz4);
    assert_eq!(pick(TxPart::Split, 5, 1, 1), LumaPart::Split);
}

#[test]
fn blocks_see_what_was_noted() {
    let enc = Av2Encoder::new(50);
    let tile = TileCoder444::new(&enc, 128, 128, false).unwrap();
    let mut seen = Vec::new();
    drive(tile, |a| match a {
        TileAction::CostCfl { at } => TileEvent::CflWins(at.y == 0),
        TileAction::CodeWhole { at, nb, .. } => {
            seen.push((nb.u_above, nb.u_left, nb.v_above, nb.v_left, nb.cfl_ctx));
            TileEvent::BlockCoded { u: at.x == 0, v: at.y > 0 }
        }
        a => dull(a),
    });
    assert_eq!(
        seen,
        vec![
            (false, false, false, false, 0),
            (false, true, false, false, 1),
            (true, false, false, false, 1),
            (false, true, false, true, 1),
        ]
    );
}

#[test]
fn a_split_superblock_has_four_quarters() {
    let enc = Av2Encoder::new(50).with_aq(true);
    let tile = TileCoder444::new(&enc, 128, 64, false).unwrap();
    let mut leaves = Vec::new();
    let actions = drive(tile, |a| match a {
        TileAction::CostChroma { at } => TileEvent::SplitWins(at.x == 0),
        TileAction::CodeLeaf { at, quarter, mhccp, delta_q, split_cdf, .. } => {
            assert!(quarter && !mhccp);
            leaves.push((at.y, at.x, delta_q, split_cdf));
            TileEvent::LeafCoded { u: true, v: false, cfl: false }
        }
        a => dull(a),
    });
    assert_eq!(actions[1], TileAction::CodeSplit { at: at(0, 0), split_cdf: 12276 });
    // the delta comes with the first block of the superblock alone
    let places: Vec<_> = leaves.iter().map(|l| (l.0, l.1, l.2)).collect();
    assert_eq!(places, vec![(0, 0, true), (0, 32, false), (32, 0, false), (32, 32, false)]);
    let (mut above, mut left) = (vec![0u8; 48], vec![0u8; 16]);
    assert_eq!(sb_none_do_split_cdf(0, 0, &above, &left), 12276);
    let ops = sb_square_split_ops(0, 0, &mut above, &mut left);
    let cdfs: Vec<_> = ops
        .iter()
        .map(|op| match op {
            Op::Leaf { part_cdf, .. } => part_cdf.unwrap(),
            Op::RectType { .. } => unreachable!(),
        })
        .collect();
    assert_eq!(cdfs, leaves.iter().map(|l| l.3).collect::<Vec<_>>());
    // the next superblock sees smaller blocks to its left
    assert_eq!(sb_none_do_split_cdf(0, 1, &above, &left), 24669);
    match actions[actions.len() - 2] {
        TileAction::CodeWhole { split_cdf, delta_q, nb, .. } => {
            assert_eq!((split_cdf, delta_q, nb.u_left, nb.v_left), (24669, true, true, false));
        }
        a => panic!("{a:?}"),
    }
    sb_none_pctx(0, 0, &mut above, &mut left);
    assert_eq!((above[..17].to_vec(), left), ([vec![48; 16], vec![0]].concat(), vec![48; 16]));
}

#[test]
fn cut_superblocks_are_walked() {
    let actions = drive(TileCoder444::with_plan(plan(24, 16)), dull);
    assert_eq!(blocks(&actions), vec![(0, 0, 16, 16), (0, 16, 8, 16)]);
    match actions[actions.len() - 2] {
        TileAction::CodeLeaf { at: place, form, cfl, mhccp, quarter, delta_q, .. } => {
            assert_eq!((place, form), (at(0, 64), 0));
            assert!(!cfl && !mhccp && !quarter && delta_q);
        }
        a => panic!("{a:?}"),
    }
    // a 16x64 leaf may be halved
    let actions = drive(TileCoder444::with_plan(plan(4, 16)), |a| match a {
        TileAction::CostLeaf { form, .. } => TileEvent::Cost(8 - form as u64),
        a => dull(a),
    });
    assert!(matches!(actions[0], TileAction::CodeRect { val: 1, .. }));
    assert!(matches!(actions[1], TileAction::CostLeaf { form: 0, .. }));
    assert!(matches!(actions[2], TileAction::CostLeaf { form: 1, .. }));
    assert!(matches!(actions[3], TileAction::CodeLeaf { form: 1, .. }));
    // a 16x16 leaf chooses among four transform types, the first of the cheapest
    let actions = drive(TileCoder444::with_plan(plan(4, 4)), |a| match a {
        TileAction::CostLeaf { form, .. } => TileEvent::Cost([6, 5, 4, 4][form]),
        a => dull(a),
    });
    let n = actions.len();
    assert!(actions[n - 6..n - 2].iter().all(|a| matches!(a, TileAction::CostLeaf { .. })));
    assert!(matches!(actions[n - 2], TileAction::CodeLeaf { form: 2, mhccp: true, .. }));
    assert_eq!(blocks(&actions), vec![(0, 0, 4, 4)]);
}

#[test]
fn every_unit_is_coded_once_in_raster_order() {
    for (cols, rows) in [(50, 34), (16, 16), (2, 2), (22, 40), (28, 12), (70, 6)] {
        for split in [false, true] {
            let mut turn = 0;
            let actions = drive(TileCoder444::with_plan(plan(cols, rows)), |a| match a {
                TileAction::CostChroma { .. } => {
                    turn += 1;
                    TileEvent::SplitWins(split && turn % 2 == 1)
                }
                a => dull(a),
            });
            let coded = blocks(&actions);
            for r in 0..rows {
                for c in 0..cols {
                    let n = coded
                        .iter()
                        .filter(|b| b.0 <= r && r < b.0 + b.3 && b.1 <= c && c < b.1 + b.2)
                        .count();
                    assert_eq!(n, 1, "unit ({r}, {c}) of {cols}x{rows}");
                }
            }
            let sbs: Vec<_> = coded.iter().map(|b| (b.0 / 16, b.1 / 16)).collect();
            assert!(sbs.windows(2).all(|w| w[0] <= w[1]));
            let deltas = actions
                .iter()
                .filter(|a| {
                    matches!(
                        a,
                        TileAction::CodeWhole { delta_q: true, .. }
                            | TileAction::CodeLeaf { delta_q: true, .. }
                    )
                })
                .count();
            assert_eq!(deltas, ((cols + 15) / 16) * ((rows + 15) / 16));
        }
    }
}
