use maroontre::lossless_rd::{
    best_chroma_block, best_luma_block, exact_default_ibc, frame_has_default_ibc,
    sb_needs_ibc_split, IbcBlock, IbcPlane, LosslessBlockRd,
};

fn repeated_plane(width: usize, height: usize) -> Vec<u16> {
    let mut plane = vec![0u16; width * height];
    for y in 0..height {
        for x in 0..320.min(width) {
            plane[y * width + x] = ((y * width + x) & 0xffff) as u16;
        }
        for x in 320..width {
            plane[y * width + x] = plane[y * width + x - 320];
        }
    }
    plane
}

#[test]
fn exact_default_bvp_match_is_selected() {
    let width = 384;
    let height = 64;
    let plane = repeated_plane(width, height);
    let planes = [IbcPlane { data: &plane, stride: width, subsampling_x: 0, subsampling_y: 0 }];

    assert!(exact_default_ibc(
        &planes,
        width,
        height,
        IbcBlock { x: 320, y: 0, width: 32, height: 32 },
    ));
    assert!(frame_has_default_ibc(&planes, width, height));
    assert!(sb_needs_ibc_split(&planes, width, height, 320, 0));
}

#[test]
fn mismatch_and_full_64_square_are_rejected() {
    let width = 384;
    let height = 64;
    let mut plane = repeated_plane(width, height);
    plane[320] += 1;
    let planes = [IbcPlane { data: &plane, stride: width, subsampling_x: 0, subsampling_y: 0 }];

    assert!(!exact_default_ibc(
        &planes,
        width,
        height,
        IbcBlock { x: 320, y: 0, width: 32, height: 32 },
    ));
    assert!(!exact_default_ibc(
        &planes,
        width,
        height,
        IbcBlock { x: 320, y: 0, width: 64, height: 64 },
    ));
}

#[test]
fn all_subsampled_planes_must_match() {
    let width = 384;
    let height = 64;
    let y = repeated_plane(width, height);
    let mut u = repeated_plane(width / 2, height);
    let mut v = repeated_plane(width / 2, height);
    for row in 0..height {
        for col in 160..width / 2 {
            u[row * (width / 2) + col] = u[row * (width / 2) + col - 160];
            v[row * (width / 2) + col] = v[row * (width / 2) + col - 160];
        }
    }
    let block = IbcBlock { x: 320, y: 0, width: 32, height: 32 };
    let planes = [
        IbcPlane { data: &y, stride: width, subsampling_x: 0, subsampling_y: 0 },
        IbcPlane { data: &u, stride: width / 2, subsampling_x: 1, subsampling_y: 0 },
        IbcPlane { data: &v, stride: width / 2, subsampling_x: 1, subsampling_y: 0 },
    ];
    assert!(exact_default_ibc(&planes, width, height, block));

    u[160] += 1;
    let mismatched_planes = [
        IbcPlane { data: &y, stride: width, subsampling_x: 0, subsampling_y: 0 },
        IbcPlane { data: &u, stride: width / 2, subsampling_x: 1, subsampling_y: 0 },
        IbcPlane { data: &v, stride: width / 2, subsampling_x: 1, subsampling_y: 0 },
    ];
    assert!(!exact_default_ibc(&mismatched_planes, width, height, block));
}

#[test]
fn cropped_or_unavailable_reference_is_rejected() {
    let width = 384;
    let height = 64;
    let plane = repeated_plane(width, height);
    let planes = [IbcPlane { data: &plane, stride: width, subsampling_x: 0, subsampling_y: 0 }];

    assert!(!exact_default_ibc(
        &planes,
        width,
        height,
        IbcBlock { x: 32, y: 0, width: 32, height: 32 },
    ));
    assert!(!exact_default_ibc(
        &planes,
        width,
        height,
        IbcBlock { x: 368, y: 0, width: 32, height: 32 },
    ));
}

#[test]
fn narrow_frames_have_no_reference() {
    let plane = repeated_plane(320, 64);
    let planes = [IbcPlane { data: &plane, stride: 320, subsampling_x: 0, subsampling_y: 0 }];
    assert!(!frame_has_default_ibc(&planes, 320, 64));
    let mut other = repeated_plane(384, 64);
    other[320] += 1;
    let planes = [IbcPlane { data: &other, stride: 384, subsampling_x: 0, subsampling_y: 0 }];
    assert!(!frame_has_default_ibc(&planes, 384, 64));
    assert!(!sb_needs_ibc_split(&planes, 384, 64, 320, 0));
    assert!(!sb_needs_ibc_split(&planes, 384, 64, 0, 0));
}

#[test]
fn lossless_blocks_use_dc_residuals() {
    // two 4x4 blocks side by side: 10s, then 30s
    let mut src = vec![0u16; 8 * 4];
    for r in 0..4 {
        for c in 0..8 {
            src[r * 8 + c] = if c < 4 { 10 } else { 30 };
        }
    }
    let block = LosslessBlockRd { y: 0, x: 0, rows: 1, cols: 2, neutral: 128 };
    let res = block.residuals(&src, 8);
    assert_eq!(res.len(), 2);
    assert_eq!(res[0], [10 - 128; 16]);
    assert_eq!(res[1], [20; 16]);

    let mut levels = vec![[0i32; 16], [0i32; 16]];
    levels[1][0] = 7;
    let luma = best_luma_block(&levels);
    assert_eq!(luma.mode_idx, 0);
    assert_eq!(luma.tus, vec![vec![], vec![(0usize, 7i32)]]);

    let chroma = best_chroma_block(&luma.tus, &vec![vec![(3usize, -1i32)]]);
    assert_eq!(chroma.u_tus, luma.tus);
    assert_eq!(chroma.v_tus, vec![vec![(3usize, -1i32)]]);
}
