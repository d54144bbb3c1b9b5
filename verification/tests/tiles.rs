use maroontre::tiling::{tile_grid_for, tile_specs, tile_starts};

#[test]
fn uniform_spacing_keeps_partial_final_superblock() {
    // 484 pixels are 122 units: 7 whole superblocks and a partial one. With no
    // whole superblock per tile, all eight get a tile of their own.
    assert_eq!(tile_starts(484, 3), (0usize..=8).collect::<Vec<_>>());
    assert_eq!(tile_grid_for(8, 1, 484, 64), Some((2, 0)));
}

#[test]
fn uniform_spacing_matches_full_sb_remainder_rule() {
    // 4000 pixels are 1000 units: 62 whole superblocks and a partial one, which
    // extends the last tile.
    assert_eq!(tile_starts(4000, 2), vec![0, 16, 32, 47, 63]);
}

#[test]
fn requested_grid_and_emitted_tile_count_stay_in_sync() {
    let grid = tile_grid_for(8, 8, 484, 484).unwrap();
    assert_eq!(grid, (2, 2));
    assert_eq!(tile_specs(484, 484, grid.0, grid.1).len(), 16);
}

#[test]
fn excessive_request_clamps_to_complete_superblocks() {
    let grid = tile_grid_for(8, 8, 453, 604).unwrap();
    assert_eq!(grid, (2, 3));
    let specs = tile_specs(453, 604, grid.0, grid.1);
    assert_eq!(specs.len(), 32);
    assert!(specs.iter().all(|&(_, _, w, h)| w != 0 && h != 0));
}

#[test]
fn single_tiles_have_no_grid() {
    assert_eq!(tile_grid_for(1, 1, 4000, 4000), None);
    assert_eq!(tile_grid_for(8, 8, 64, 64), None);
    assert_eq!(tile_starts(64, 0), vec![0, 1]);
    assert_eq!(tile_specs(100, 60, 0, 0), vec![(0, 0, 100, 60)]);
}

#[test]
fn tiles_cover_the_frame_once() {
    let (w, h) = (484usize, 300usize);
    let (log2c, log2r) = tile_grid_for(4, 2, w, h).unwrap();
    let mut seen = vec![0u8; w * h];
    for (x0, y0, tw, th) in tile_specs(w, h, log2c, log2r) {
        for y in y0..y0 + th {
            for x in x0..x0 + tw {
                seen[y * w + x] += 1;
            }
        }
    }
    assert!(seen.iter().all(|&n| n == 1));
}
