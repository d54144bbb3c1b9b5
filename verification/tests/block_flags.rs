use maroontre::lossless::BlockFlagGrid;

#[test]
fn npos_uses_bottom_left_then_above_right() {
    let mut grid = BlockFlagGrid::new(32, 32);
    grid.set_block(11, 7, 1, 1, true); // bottom-left of the 4x4 block at row 8, column 8
    grid.set_block(7, 11, 1, 1, false); // above-right
    grid.set_block(8, 7, 1, 1, true); // directly left: not reached
    grid.set_block(7, 8, 1, 1, true); // directly above: not reached

    assert_eq!(grid.npos_context(8, 8, 4, 4, true), 1);
}

#[test]
fn npos_excludes_previous_superblock_row_but_nposbuf_keeps_it() {
    let mut grid = BlockFlagGrid::new(32, 32);
    grid.set_block(15, 0, 1, 2, true);

    assert_eq!(grid.npos_context(16, 0, 1, 1, false), 0);
    assert_eq!(grid.npos_context(16, 0, 1, 1, true), 2);
}

#[test]
fn block_fill_and_palette_context_share_mi_grid() {
    let mut grid = BlockFlagGrid::new(8, 8);
    grid.set_block(2, 3, 2, 3, true);

    assert_eq!(grid.context(4, 4), 1);
    assert_eq!(grid.context(2, 6), 1);
    assert_eq!(grid.context(0, 0), 0);
}

#[test]
fn joint_mode_context_has_no_direct_neighbor_fallback() {
    let mut grid = BlockFlagGrid::new(16, 16);
    grid.set_block(7, 3, 1, 1, true); // bottom-left
    grid.set_block(3, 7, 1, 1, true); // above-right
    grid.set_block(4, 3, 1, 1, true); // directly left, ignored
    grid.set_block(3, 4, 1, 1, true); // directly above, ignored

    assert_eq!(grid.joint_mode_context(4, 4, 4, 4), 2);

    grid.set_block(7, 3, 1, 1, false);
    grid.set_block(3, 7, 1, 1, false);
    assert_eq!(grid.joint_mode_context(4, 4, 4, 4), 0);
}
