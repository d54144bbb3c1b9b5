//! Choices of lossless coding: intra block copy, and the transform residuals
//! of a block.

use crate::contexts;
use crate::contexts::Coeff;
use crate::lossless;
use crate::lossless444;
use crate::plane;
use vstd::arithmetic::power2::*;
use vstd::prelude::*;

verus! {

/// One plane that takes part in an intra-block-copy test. Positions and sizes
/// are given in luma pixels and shifted for the plane.
#[derive(Clone, Copy)]
pub struct IbcPlane<'a> {
    pub data: &'a [u16],
    pub stride: usize,
    pub subsampling_x: u8,
    pub subsampling_y: u8,
}

/// Luma-space geometry of a candidate block.
#[derive(Clone, Copy, Debug)]
pub struct IbcBlock {
    pub x: usize,
    pub y: usize,
    pub width: usize,
    pub height: usize,
}

/// Distance of the default reference: one superblock and a delay of 256 pixels.
pub const DEFAULT_IBC_DX: usize = 320;

/// A block that can be copied from the default reference: it starts in the
/// first column that has one, in the first row, has 1 to 32 pixels on each side
/// and lies in the frame.
pub open spec fn ibc_eligible(frame_width: int, frame_height: int, block: IbcBlock) -> bool {
    &&& block.x == DEFAULT_IBC_DX
    &&& block.y == 0
    &&& 1 <= block.width <= 32
    &&& 1 <= block.height <= 32
    &&& block.x + block.width <= frame_width
    &&& block.y + block.height <= frame_height
}

/// Size of a luma length in a plane.
pub open spec fn subsampled(n: int, shift: u8) -> int {
    n / pow2(shift as nat) as int
}

/// The block and its reference lie in a plane.
pub open spec fn ibc_plane_fits(p: &IbcPlane, block: IbcBlock) -> bool {
    &&& p.subsampling_x < 16
    &&& p.subsampling_y < 16
    &&& plane::rect_fits(
        p.data@.len(),
        p.stride as nat,
        0,
        subsampled(320, p.subsampling_x) as nat,
        subsampled(block.width as int, p.subsampling_x) as nat,
        subsampled(block.height as int, p.subsampling_y) as nat,
    )
}

/// The block equals its reference in a plane, sample by sample, and is not
/// lost to subsampling.
pub open spec fn ibc_plane_matches(p: &IbcPlane, block: IbcBlock) -> bool {
    let x = subsampled(320, p.subsampling_x);
    let w = subsampled(block.width as int, p.subsampling_x);
    let h = subsampled(block.height as int, p.subsampling_y);
    &&& w > 0
    &&& h > 0
    &&& forall|r: int, c: int|
        0 <= r < h && 0 <= c < w ==> #[trigger] p.data@[r * p.stride + x + c] == p.data@[r * p.stride
            + c]
}

/// The block equals its reference in every plane.
pub open spec fn ibc_matches(
    planes: Seq<IbcPlane>,
    frame_width: int,
    frame_height: int,
    block: IbcBlock,
) -> bool {
    &&& ibc_eligible(frame_width, frame_height, block)
    &&& forall|i: int| 0 <= i < planes.len() ==> #[trigger] ibc_plane_matches(&planes[i], block)
}

/// All planes hold the block wherever it is eligible.
pub open spec fn ibc_planes_fit(
    planes: Seq<IbcPlane>,
    frame_width: int,
    frame_height: int,
    block: IbcBlock,
) -> bool {
    ibc_eligible(frame_width, frame_height, block) ==> forall|i: int|
        0 <= i < planes.len() ==> #[trigger] ibc_plane_fits(&planes[i], block)
}

fn plane_matches(p: &IbcPlane, block: IbcBlock) -> (r: bool)
    requires
        ibc_plane_fits(p, block),
        block.width <= 32,
        block.height <= 32,
    ensures
        r == ibc_plane_matches(p, block),
{
    let x: usize = crate::num::shift_right(320, p.subsampling_x as u32) as usize;
    let width: usize = crate::num::shift_right(block.width as u64, p.subsampling_x as u32) as usize;
    let height: usize = crate::num::shift_right(
        block.height as u64,
        p.subsampling_y as u32,
    ) as usize;
    proof {
        lemma_pow2_pos(p.subsampling_x as nat);
        lemma_pow2_pos(p.subsampling_y as nat);
        vstd::arithmetic::div_mod::lemma_div_is_ordered_by_denominator(
            320,
            1,
            pow2(p.subsampling_x as nat) as int,
        );
        vstd::arithmetic::div_mod::lemma_div_is_ordered_by_denominator(
            block.width as int,
            1,
            pow2(p.subsampling_x as nat) as int,
        );
        vstd::arithmetic::div_mod::lemma_div_is_ordered_by_denominator(
            block.height as int,
            1,
            pow2(p.subsampling_y as nat) as int,
        );
    }
    if width == 0 || height == 0 {
        return false;
    }
    let len: usize = p.data.len();
    let mut row: usize = 0;
    while row < height
        invariant
            row <= height <= 32,
            0 < width <= 32,
            x <= 320,
            x == subsampled(320, p.subsampling_x),
            width == subsampled(block.width as int, p.subsampling_x),
            height == subsampled(block.height as int, p.subsampling_y),
            len == p.data@.len(),
            (height - 1) * p.stride + x + width <= len,
            forall|r: int, c: int|
                0 <= r < row && 0 <= c < width ==> #[trigger] p.data@[r * p.stride + x + c]
                    == p.data@[r * p.stride + c],
        decreases height - row,
    {
        assert(row * p.stride <= (height - 1) * p.stride) by (nonlinear_arith)
            requires
                row <= height - 1,
                p.stride >= 0,
        ;
        assert(row * p.stride >= 0) by (nonlinear_arith)
            requires
                row >= 0,
                p.stride >= 0,
        ;
        let base: usize = row * p.stride;
        let mut col: usize = 0;
        while col < width
            invariant
                col <= width <= 32,
                row < height,
                x <= 320,
                x == subsampled(320, p.subsampling_x),
                width == subsampled(block.width as int, p.subsampling_x),
                height == subsampled(block.height as int, p.subsampling_y),
                len == p.data@.len(),
                base == row * p.stride,
                base + x + width <= len,
                forall|c: int|
                    0 <= c < col ==> #[trigger] p.data@[row * p.stride + x + c] == p.data@[row
                        * p.stride + c],
            decreases width - col,
        {
            if p.data[base + x + col] != p.data[base + col] {
                proof {
                    assert(p.data@[row * p.stride + x + col] != p.data@[row * p.stride + col]);
                }
                return false;
            }
            col = col + 1;
        }
        row = row + 1;
    }
    true
}

/// Whether a block can be copied from its default reference without any
/// residual: every coded plane has to be sample-exact. Blocks that the frame
/// boundary cuts off are left out.
pub fn exact_default_ibc(
    planes: &[IbcPlane],
    frame_width: usize,
    frame_height: usize,
    block: IbcBlock,
) -> (r: bool)
    requires
        ibc_planes_fit(planes@, frame_width as int, frame_height as int, block),
    ensures
        r == ibc_matches(planes@, frame_width as int, frame_height as int, block),
{
    if block.x != DEFAULT_IBC_DX || block.y != 0 || block.width == 0 || block.height == 0
        || block.width > 32 || block.height > 32 {
        return false;
    }
    if frame_width < DEFAULT_IBC_DX + block.width || frame_height < block.height {
        return false;
    }
    let mut i: usize = 0;
    while i < planes.len()
        invariant
            i <= planes@.len(),
            block.width <= 32,
            block.height <= 32,
            ibc_eligible(frame_width as int, frame_height as int, block),
            ibc_planes_fit(planes@, frame_width as int, frame_height as int, block),
            forall|k: int| 0 <= k < i ==> #[trigger] ibc_plane_matches(&planes@[k], block),
        decreases planes@.len() - i,
    {
        assert(ibc_plane_fits(&planes@[i as int], block));
        if !plane_matches(&planes[i], block) {
            return false;
        }
        i = i + 1;
    }
    true
}

/// The 8x8 block at a position.
pub open spec fn patch(x: int, y: int) -> IbcBlock {
    IbcBlock { x: x as usize, y: y as usize, width: 8, height: 8 }
}

/// Whether any 8x8 patch on the 8-pixel grid from the first column with a
/// reference on equals its reference.
pub fn frame_has_default_ibc(planes: &[IbcPlane], frame_width: usize, frame_height: usize) -> (r:
    bool)
    requires
        ibc_planes_fit(planes@, frame_width as int, frame_height as int, patch(320, 0)),
    ensures
        r <==> exists|i: int, j: int|
            {
                &&& 0 <= 8 * j <= frame_height - 8
                &&& 0 <= 8 * i
                &&& 320 + 8 * i <= frame_width - 8
                &&& #[trigger] ibc_matches(
                    planes@,
                    frame_width as int,
                    frame_height as int,
                    patch(320 + 8 * i, 8 * j),
                )
            },
{
    if frame_width < DEFAULT_IBC_DX + 8 || frame_height < 8 {
        return false;
    }
    // only the patch at the origin of the referenced area can be copied
    let block = IbcBlock { x: DEFAULT_IBC_DX, y: 0, width: 8, height: 8 };
    let r: bool = exact_default_ibc(planes, frame_width, frame_height, block);
    proof {
        let (i, j) = (0int, 0int);
        assert(block == patch(320 + 8 * i, 8 * j));
        assert forall|i: int, j: int|
            0 <= 8 * j <= frame_height - 8 && 0 <= 8 * i && 320 + 8 * i <= frame_width - 8
                && #[trigger] ibc_matches(
                planes@,
                frame_width as int,
                frame_height as int,
                patch(320 + 8 * i, 8 * j),
            ) implies r by {
            assert(i == 0 && j == 0);
        }
    }
    r
}

/// The 32x32 quarter of a superblock.
pub open spec fn quarter(sb_x: int, sb_y: int, dx: int, dy: int) -> IbcBlock {
    IbcBlock { x: (sb_x + dx) as usize, y: (sb_y + dy) as usize, width: 32, height: 32 }
}

/// A whole superblock cannot be copied. It is worth splitting when one of its
/// quarters equals its reference.
pub fn sb_needs_ibc_split(
    planes: &[IbcPlane],
    frame_width: usize,
    frame_height: usize,
    sb_x: usize,
    sb_y: usize,
) -> (r: bool)
    requires
        sb_x + 32 <= usize::MAX,
        sb_y + 32 <= usize::MAX,
        forall|dx: int, dy: int|
            (dx == 0 || dx == 32) && (dy == 0 || dy == 32) ==> ibc_planes_fit(
                planes@,
                frame_width as int,
                frame_height as int,
                #[trigger] quarter(sb_x as int, sb_y as int, dx, dy),
            ),
    ensures
        r <==> exists|dx: int, dy: int|
            (dx == 0 || dx == 32) && (dy == 0 || dy == 32) && ibc_matches(
                planes@,
                frame_width as int,
                frame_height as int,
                #[trigger] quarter(sb_x as int, sb_y as int, dx, dy),
            ),
{
    let ghost (x, y) = (sb_x as int, sb_y as int);
    let b00 = IbcBlock { x: sb_x, y: sb_y, width: 32, height: 32 };
    let b10 = IbcBlock { x: sb_x + 32, y: sb_y, width: 32, height: 32 };
    let b01 = IbcBlock { x: sb_x, y: sb_y + 32, width: 32, height: 32 };
    let b11 = IbcBlock { x: sb_x + 32, y: sb_y + 32, width: 32, height: 32 };
    proof {
        assert(b00 == quarter(x, y, 0, 0));
        assert(b10 == quarter(x, y, 32, 0));
        assert(b01 == quarter(x, y, 0, 32));
        assert(b11 == quarter(x, y, 32, 32));
    }
    exact_default_ibc(planes, frame_width, frame_height, b00) || exact_default_ibc(
        planes,
        frame_width,
        frame_height,
        b10,
    ) || exact_default_ibc(planes, frame_width, frame_height, b01) || exact_default_ibc(
        planes,
        frame_width,
        frame_height,
        b11,
    )
}

/// Place and size of a lossless block: its corner in samples, its size in 4x4
/// blocks, and the prediction of a block without neighbors.
#[derive(Clone, Copy, Debug)]
pub struct LosslessBlockRd {
    pub y: usize,
    pub x: usize,
    pub rows: usize,
    pub cols: usize,
    pub neutral: u16,
}

impl LosslessBlockRd {
    /// Residuals of the 4x4 blocks of a block against their DC predictions, row by
    /// row.
    pub fn residuals(&self, src: &[u16], pw: usize) -> (out: Vec<[i32; 16]>)
        requires
            1 <= self.rows <= 16,
            1 <= self.cols <= 16,
            self.x + 4 * self.cols <= pw,
            (self.y + 4 * self.rows) * pw <= src@.len(),
        ensures
            out@.len() == self.rows * self.cols,
            forall|i: int, k: int|
                0 <= i < out@.len() && 0 <= k < 16 ==> #[trigger] out@[i]@[k]
                    == lossless444::sb_residual(
                    src@,
                    pw as int,
                    self.y as int,
                    self.x as int,
                    self.neutral,
                    self.cols as int,
                    i,
                    k,
                ),
    {
        lossless444::lossless_sb_residuals(
            src,
            pw,
            self.y,
            self.x,
            self.neutral,
            self.rows,
            self.cols,
        )
    }
}

/// Coefficient lists of transformed 4x4 blocks.
pub open spec fn coefficient_lists(levels: Seq<[i32; 16]>) -> Seq<Seq<Coeff>> {
    Seq::new(levels.len(), |i: int| lossless::scanned_levels(levels[i]@, 16))
}

/// Luma choice of a lossless block: the intra mode and the coefficients of its
/// 4x4 blocks.
pub struct LumaBlockCand {
    pub mode_idx: usize,
    pub tus: Vec<Vec<Coeff>>,
}

/// Luma choice of a lossless block whose residuals were transformed. It is always
/// DC prediction: every other mode would form its residuals over more than one
/// transform.
pub fn best_luma_block(levels: &Vec<[i32; 16]>) -> (c: LumaBlockCand)
    ensures
        c.mode_idx == 0,
        contexts::tu_views(c.tus@) == coefficient_lists(levels@),
{
    let mut tus: Vec<Vec<Coeff>> = Vec::new();
    let mut i: usize = 0;
    while i < levels.len()
        invariant
            i <= levels@.len(),
            tus@.len() == i,
            forall|k: int|
                0 <= k < i ==> (#[trigger] tus@[k])@ == lossless::scanned_levels(levels@[k]@, 16),
        decreases levels@.len() - i,
    {
        tus.push(lossless::levels_to_coeffs_4x4(&levels[i]));
        i = i + 1;
    }
    assert(contexts::tu_views(tus@) =~= coefficient_lists(levels@));
    LumaBlockCand { mode_idx: 0, tus }
}

/// Chroma choice of a lossless block: the coefficients of both planes.
pub struct ChromaBlockCand {
    pub u_tus: Vec<Vec<Coeff>>,
    pub v_tus: Vec<Vec<Coeff>>,
}

fn copied(tus: &Vec<Vec<Coeff>>) -> (out: Vec<Vec<Coeff>>)
    ensures
        contexts::tu_views(out@) == contexts::tu_views(tus@),
{
    let mut out: Vec<Vec<Coeff>> = Vec::new();
    let mut i: usize = 0;
    while i < tus.len()
        invariant
            i <= tus@.len(),
            out@.len() == i,
            forall|k: int| 0 <= k < i ==> (#[trigger] out@[k])@ == tus@[k]@,
        decreases tus@.len() - i,
    {
        let tu: &Vec<Coeff> = &tus[i];
        let mut copy: Vec<Coeff> = Vec::new();
        let mut j: usize = 0;
        while j < tu.len()
            invariant
                j <= tu@.len(),
                copy@ == tu@.take(j as int),
            decreases tu@.len() - j,
        {
            copy.push(tu[j]);
            j = j + 1;
            assert(copy@ =~= tu@.take(j as int));
        }
        assert(copy@ =~= tu@);
        out.push(copy);
        i = i + 1;
    }
    assert(contexts::tu_views(out@) =~= contexts::tu_views(tus@));
    out
}

/// Chroma choice of a lossless block: the DC residuals that are there.
pub fn best_chroma_block(base_u: &Vec<Vec<Coeff>>, base_v: &Vec<Vec<Coeff>>) -> (c: ChromaBlockCand)
    ensures
        contexts::tu_views(c.u_tus@) == contexts::tu_views(base_u@),
        contexts::tu_views(c.v_tus@) == contexts::tu_views(base_v@),
{
    ChromaBlockCand { u_tus: copied(base_u), v_tus: copied(base_v) }
}

/// A block that matches can be copied: it lies 320 columns into the first row of the
/// frame, is at most 32 by 32, and every sample of a plane in full resolution, and of
/// one halved in both directions, equals the one 320 columns, or 160, to its left.
pub proof fn law_matching_block_can_be_copied(
    planes: Seq<IbcPlane>,
    frame_width: int,
    frame_height: int,
    block: IbcBlock,
    i: int,
    r: int,
    c: int,
)
    requires
        ibc_matches(planes, frame_width, frame_height, block),
        0 <= i < planes.len(),
        0 <= r,
        0 <= c,
    ensures
        block.x == 320,
        block.y == 0,
        1 <= block.width <= 32,
        1 <= block.height <= 32,
        320 + block.width <= frame_width,
        block.height <= frame_height,
        planes[i].subsampling_x == 0 && planes[i].subsampling_y == 0 && r < block.height && c
            < block.width ==> planes[i].data@[r * planes[i].stride + 320 + c]
            == planes[i].data@[r * planes[i].stride + c],
        planes[i].subsampling_x == 1 && planes[i].subsampling_y == 1 && 2 * r + 1 < block.height
            && 2 * c + 1 < block.width ==> planes[i].data@[r * planes[i].stride + 160 + c]
            == planes[i].data@[r * planes[i].stride + c],
{
    lemma2_to64();
    let p = planes[i];
    assert(ibc_plane_matches(&p, block));
    vstd::arithmetic::div_mod::lemma_div_basics(block.width as int);
    vstd::arithmetic::div_mod::lemma_div_basics(block.height as int);
    assert(subsampled(320, 0) == 320);
    assert(subsampled(320, 1) == 160);
    if p.subsampling_x == 0 && p.subsampling_y == 0 && r < block.height && c < block.width {
        assert(subsampled(block.width as int, 0) == block.width);
        assert(subsampled(block.height as int, 0) == block.height);
        assert(p.data@[r * p.stride + subsampled(320, p.subsampling_x) + c] == p.data@[r * p.stride
            + c]);
    }
    if p.subsampling_x == 1 && p.subsampling_y == 1 && 2 * r + 1 < block.height && 2 * c + 1
        < block.width {
        assert(subsampled(block.width as int, 1) == block.width as int / 2);
        assert(subsampled(block.height as int, 1) == block.height as int / 2);
        assert(p.data@[r * p.stride + subsampled(320, p.subsampling_x) + c] == p.data@[r * p.stride
            + c]);
    }
}

/// A block that a plane has no sample of, for its subsampling, matches nothing.
pub proof fn law_lost_blocks_match_nothing(
    planes: Seq<IbcPlane>,
    frame_width: int,
    frame_height: int,
    block: IbcBlock,
    i: int,
)
    requires
        0 <= i < planes.len(),
        block.width < pow2(planes[i].subsampling_x as nat) || block.height < pow2(
            planes[i].subsampling_y as nat,
        ),
    ensures
        !ibc_matches(planes, frame_width, frame_height, block),
{
    let p = planes[i];
    if block.width < pow2(p.subsampling_x as nat) {
        vstd::arithmetic::div_mod::lemma_basic_div(
            block.width as int,
            pow2(p.subsampling_x as nat) as int,
        );
    } else {
        vstd::arithmetic::div_mod::lemma_basic_div(
            block.height as int,
            pow2(p.subsampling_y as nat) as int,
        );
    }
    assert(ibc_plane_matches(&p, block) ==> false);
}

/// A block of planes in full resolution that lies 320 columns into the first row of the
/// frame, is at most 32 by 32 and equals the samples 320 columns to its left matches.
pub proof fn law_copies_match(
    planes: Seq<IbcPlane>,
    frame_width: int,
    frame_height: int,
    block: IbcBlock,
)
    requires
        block.x == 320,
        block.y == 0,
        1 <= block.width <= 32,
        1 <= block.height <= 32,
        320 + block.width <= frame_width,
        block.height <= frame_height,
        forall|i: int|
            0 <= i < planes.len() ==> (#[trigger] planes[i]).subsampling_x == 0
                && planes[i].subsampling_y == 0,
        forall|i: int, r: int, c: int|
            0 <= i < planes.len() && 0 <= r < block.height && 0 <= c < block.width
                ==> #[trigger] planes[i].data@[r * planes[i].stride + 320 + c]
                == planes[i].data@[r * planes[i].stride + c],
    ensures
        ibc_matches(planes, frame_width, frame_height, block),
{
    lemma2_to64();
    vstd::arithmetic::div_mod::lemma_div_basics(block.width as int);
    vstd::arithmetic::div_mod::lemma_div_basics(block.height as int);
    assert(subsampled(320, 0) == 320);
    assert(subsampled(block.width as int, 0) == block.width);
    assert(subsampled(block.height as int, 0) == block.height);
    assert forall|i: int| 0 <= i < planes.len() implies #[trigger] ibc_plane_matches(
        &planes[i],
        block,
    ) by {
        let p = planes[i];
        assert(p.subsampling_x == 0 && p.subsampling_y == 0);
    }
}

/// The quarters of a superblock lie at its corner and 32 samples right and down.
pub proof fn law_quarters_lie_in_the_superblock(sb_x: int, sb_y: int, dx: int, dy: int)
    requires
        0 <= sb_x,
        0 <= sb_y,
        0 <= dx,
        0 <= dy,
        sb_x + dx <= usize::MAX,
        sb_y + dy <= usize::MAX,
    ensures
        quarter(sb_x, sb_y, dx, dy).x == sb_x + dx,
        quarter(sb_x, sb_y, dx, dy).y == sb_y + dy,
        quarter(sb_x, sb_y, dx, dy).width == 32,
        quarter(sb_x, sb_y, dx, dy).height == 32,
{
}

/// The coefficients of each block are its levels in scan order, each with its place.
pub proof fn law_coefficient_lists_hold_the_levels(levels: Seq<[i32; 16]>, i: int, k: int)
    requires
        0 <= i < levels.len(),
        0 <= k < 16,
    ensures
        coefficient_lists(levels).len() == levels.len(),
        lossless::level_at(coefficient_lists(levels)[i], k)
            == levels[i]@[lossless::SCAN_4X4@[k] as int],
{
    lossless::law_levels_read_back(levels[i]@, 16, k);
}

/// A patch is an 8x8 block at its place.
pub proof fn law_patches_lie_at_their_place(x: int, y: int)
    requires
        0 <= x <= usize::MAX,
        0 <= y <= usize::MAX,
    ensures
        patch(x, y).x == x,
        patch(x, y).y == y,
        patch(x, y).width == 8,
        patch(x, y).height == 8,
{
}

} // verus!
