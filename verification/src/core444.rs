//! The lossy 4:4:4 coding loop: how a frame and a superblock are coded, which
//! leaves occur, and the loop over a tile, which asks for costs and for blocks to
//! be coded, one at a time.

use crate::chroma444;
use crate::chroma444::{ChromaNeighbors, Marks, Presence};
use crate::encoder::{Av2Encoder, Setup, Speed, TxPart};
use crate::frame;
use crate::partition;
use crate::partition::{
    sb_none_do_split_cdf, sb_none_pctx, sb_partition_ops, sb_square_split_ops, Block, Op, Walk,
};
use crate::plane;
use crate::plane::{extract_subplane_pixels, pad_plane, sb_align};
use crate::simple;
use crate::simple::{validate_dims, EncodeError, PlanarImage};
use crate::tiling;
use crate::tiling::{tile_grid_for, tile_specs};
use vstd::arithmetic::power2::*;
use vstd::prelude::*;

verus! {

// ---------------------------------------------------------------------------
// Frames
// ---------------------------------------------------------------------------

/// How a 4:4:4 frame is coded.
#[derive(Clone, Copy, Debug, PartialEq, Eq, Structural)]
pub enum FrameRoute {
    Lossless,
    /// A grid of `2^log2c` by `2^log2r` tiles.
    Tiled { log2c: usize, log2r: usize },
    /// One tile.
    Single,
}

/// Route of a frame: quantizer index 0 is lossless, a tile grid of more than one
/// tile is tiled.
pub open spec fn frame_route(s: Setup, width: nat, height: nat) -> FrameRoute {
    let c = tiling::tile_exponent(s.tune.tile_cols as nat, width);
    let l = tiling::tile_exponent(s.tune.tile_rows as nat, height);
    if s.base_q_idx == 0 {
        FrameRoute::Lossless
    } else if c > 0 || l > 0 {
        FrameRoute::Tiled { log2c: c as usize, log2r: l as usize }
    } else {
        FrameRoute::Single
    }
}

impl Av2Encoder {
    /// Route of a 4:4:4 frame, unless a plane is incomplete or the size is out of
    /// range.
    pub fn encode_yuv444<T>(&self, img: &PlanarImage<T>) -> (r: Result<FrameRoute, EncodeError>)
        ensures
            r == match img.refusal_444() {
                Some(e) => Err::<FrameRoute, EncodeError>(e),
                None => Ok(frame_route(self@, img.width as nat, img.height as nat)),
            },
    {
        let (width, height): (usize, usize) = (img.width, img.height);
        img.validate_444()?;
        validate_dims(width, height)?;
        let tune = self.tuning();
        if self.base_q_idx() == 0 {
            return Ok(FrameRoute::Lossless);
        }
        Ok(
            match tile_grid_for(tune.tile_cols, tune.tile_rows, width, height) {
                Some((log2c, log2r)) => FrameRoute::Tiled { log2c, log2r },
                None => FrameRoute::Single,
            },
        )
    }
}

/// One tile of a frame: its place and its samples, which are coded like a frame
/// of their own.
#[derive(Debug)]
pub struct TileJob {
    pub x0: usize,
    pub y0: usize,
    pub tw: usize,
    pub th: usize,
    pub y: Vec<u16>,
    pub u: Vec<u16>,
    pub v: Vec<u16>,
}

/// Whether a job is tile `i` of a frame.
pub open spec fn is_tile_job(
    job: TileJob,
    y: Seq<u16>,
    u: Seq<u16>,
    v: Seq<u16>,
    width: nat,
    rect: (int, int, int, int),
) -> bool {
    let (x0, y0, tw, th) = rect;
    &&& (job.x0 as int, job.y0 as int, job.tw as int, job.th as int) == rect
    &&& job.y@ == plane::rect_samples(y, width, y0 as nat, x0 as nat, tw as nat, th as nat)
    &&& job.u@ == plane::rect_samples(u, width, y0 as nat, x0 as nat, tw as nat, th as nat)
    &&& job.v@ == plane::rect_samples(v, width, y0 as nat, x0 as nat, tw as nat, th as nat)
}

/// Sizes and exponents that the machine can hold.
pub open spec fn grid_in_range(width: usize, height: usize, log2c: usize, log2r: usize) -> bool {
    &&& 1 <= width && width + 63 <= usize::MAX
    &&& 1 <= height && height + 63 <= usize::MAX
    &&& log2c < usize::BITS && pow2(log2c as nat) <= usize::MAX
    &&& log2r < usize::BITS && pow2(log2r as nat) <= usize::MAX
}

/// Whether jobs are the tiles of a frame, in raster order.
pub open spec fn are_tile_jobs(
    jobs: Seq<TileJob>,
    y: Seq<u16>,
    u: Seq<u16>,
    v: Seq<u16>,
    width: nat,
    height: nat,
    log2c: nat,
    log2r: nat,
) -> bool {
    &&& jobs.len() == tiling::tile_count(width, log2c) * tiling::tile_count(height, log2r)
    &&& forall|i: int|
        0 <= i < jobs.len() ==> is_tile_job(
            #[trigger] jobs[i],
            y,
            u,
            v,
            width,
            tiling::tile_rect(width, height, log2c, log2r, i),
        )
}

/// Whether every tile of a frame can be coded without padding.
pub open spec fn tiles_native(width: nat, height: nat, log2c: nat, log2r: nat) -> bool {
    forall|i: int|
        0 <= i < tiling::tile_count(width, log2c) * tiling::tile_count(height, log2r) ==> ({
            let (x0, y0, tw, th) = #[trigger] tiling::tile_rect(width, height, log2c, log2r, i);
            frame::native_extent(tw, th) is Some
        })
}

/// A frame that is coded tile by tile.
#[derive(Debug)]
pub struct TiledFrame {
    /// Size that the headers signal.
    pub sig_w: usize,
    pub sig_h: usize,
    pub tiles: Vec<TileJob>,
}

/// Cut planes into tiles, in raster order.
fn cut_tiles(
    y: &[u16],
    cb: &[u16],
    cr: &[u16],
    width: usize,
    height: usize,
    log2c: usize,
    log2r: usize,
) -> (jobs: Vec<TileJob>)
    requires
        grid_in_range(width, height, log2c, log2r),
        y@.len() >= width * height,
        cb@.len() >= width * height,
        cr@.len() >= width * height,
    ensures
        are_tile_jobs(
            jobs@,
            y@,
            cb@,
            cr@,
            width as nat,
            height as nat,
            log2c as nat,
            log2r as nat,
        ),
{
    let ghost (w, h, lc, lr) = (width as nat, height as nat, log2c as nat, log2r as nat);
    let specs = tile_specs(width, height, log2c, log2r);
    let mut jobs: Vec<TileJob> = Vec::new();
    let mut i: usize = 0;
    while i < specs.len()
        invariant
            i <= specs@.len(),
            w == width,
            h == height,
            lc == log2c,
            lr == log2r,
            grid_in_range(width, height, log2c, log2r),
            y@.len() >= width * height,
            cb@.len() >= width * height,
            cr@.len() >= width * height,
            specs@.len() == tiling::tile_count(w, lc) * tiling::tile_count(h, lr),
            forall|i: int|
                0 <= i < specs@.len() ==> {
                    let (x, y, tw, th) = #[trigger] specs@[i];
                    (x as int, y as int, tw as int, th as int) == tiling::tile_rect(
                        w,
                        h,
                        lc,
                        lr,
                        i,
                    )
                },
            jobs@.len() == i,
            forall|k: int|
                0 <= k < i ==> is_tile_job(
                    #[trigger] jobs@[k],
                    y@,
                    cb@,
                    cr@,
                    w,
                    tiling::tile_rect(w, h, lc, lr, k),
                ),
        decreases specs@.len() - i,
    {
        let (x0, y0, tw, th) = specs[i];
        proof {
            let _ = specs@[i as int];
            lemma_tile_inside(w, h, lc, lr, i as int);
            assert((y0 + th - 1) * width + x0 + tw <= width * height) by (nonlinear_arith)
                requires
                    y0 + th <= height,
                    x0 + tw <= width,
                    y0 >= 0,
                    th >= 1,
            ;
        }
        jobs.push(
            TileJob {
                x0,
                y0,
                tw,
                th,
                y: extract_subplane_pixels(y, width, x0, y0, tw, th),
                u: extract_subplane_pixels(cb, width, x0, y0, tw, th),
                v: extract_subplane_pixels(cr, width, x0, y0, tw, th),
            },
        );
        i = i + 1;
    }
    jobs
}

/// Cut a 4:4:4 frame into its tiles. Where every tile can be coded without
/// padding, the frame is cut as it is and its real size is signaled. Otherwise
/// the whole frame is padded to superblocks first and the padded size is
/// signaled.
pub fn encode_444_tiled(
    y: &[u16],
    cb: &[u16],
    cr: &[u16],
    width: usize,
    height: usize,
    log2c: usize,
    log2r: usize,
) -> (r: TiledFrame)
    requires
        grid_in_range(width, height, log2c, log2r),
        plane::sb_aligned(width as nat) + 63 <= usize::MAX,
        plane::sb_aligned(height as nat) + 63 <= usize::MAX,
        plane::sb_aligned(width as nat) * plane::sb_aligned(height as nat) <= usize::MAX,
        y@.len() >= width * height,
        cb@.len() >= width * height,
        cr@.len() >= width * height,
    ensures
        ({
            let (w, h) = (width as nat, height as nat);
            let (pw, ph) = (plane::sb_aligned(w), plane::sb_aligned(h));
            if tiles_native(w, h, log2c as nat, log2r as nat) {
                &&& r.sig_w == width
                &&& r.sig_h == height
                &&& are_tile_jobs(
                    r.tiles@,
                    y@,
                    cb@,
                    cr@,
                    w,
                    h,
                    log2c as nat,
                    log2r as nat,
                )
            } else {
                &&& r.sig_w == pw
                &&& r.sig_h == ph
                &&& are_tile_jobs(
                    r.tiles@,
                    plane::grown(y@, w, h, pw, ph),
                    plane::grown(cb@, w, h, pw, ph),
                    plane::grown(cr@, w, h, pw, ph),
                    pw,
                    ph,
                    log2c as nat,
                    log2r as nat,
                )
            }
        }),
{
    let ghost (w, h, lc, lr) = (width as nat, height as nat, log2c as nat, log2r as nat);
    let specs = tile_specs(width, height, log2c, log2r);
    let mut exact = true;
    let mut i: usize = 0;
    while i < specs.len()
        invariant
            i <= specs@.len(),
            w == width,
            h == height,
            lc == log2c,
            lr == log2r,
            grid_in_range(width, height, log2c, log2r),
            specs@.len() == tiling::tile_count(w, lc) * tiling::tile_count(h, lr),
            forall|i: int|
                0 <= i < specs@.len() ==> {
                    let (x, y, tw, th) = #[trigger] specs@[i];
                    (x as int, y as int, tw as int, th as int) == tiling::tile_rect(
                        w,
                        h,
                        lc,
                        lr,
                        i,
                    )
                },
            exact ==> forall|k: int|
                0 <= k < i ==> ({
                    let (x0, y0, tw, th) = #[trigger] tiling::tile_rect(w, h, lc, lr, k);
                    frame::native_extent(tw, th) is Some
                }),
            !exact ==> !tiles_native(w, h, lc, lr),
        decreases specs@.len() - i,
    {
        let (x0, y0, tw, th) = specs[i];
        proof {
            let _ = specs@[i as int];
            let _ = tiling::tile_rect(w, h, lc, lr, i as int);
            lemma_tile_inside(w, h, lc, lr, i as int);
        }
        if frame::lossy_native_mi(tw, th).is_none() {
            exact = false;
        }
        i = i + 1;
    }
    if exact {
        return TiledFrame {
            sig_w: width,
            sig_h: height,
            tiles: cut_tiles(y, cb, cr, width, height, log2c, log2r),
        };
    }
    let pw: usize = sb_align(width);
    let ph: usize = sb_align(height);
    let py = grow(y, width, height, pw, ph);
    let pu = grow(cb, width, height, pw, ph);
    let pv = grow(cr, width, height, pw, ph);
    TiledFrame {
        sig_w: pw,
        sig_h: ph,
        tiles: cut_tiles(py.as_slice(), pu.as_slice(), pv.as_slice(), pw, ph, log2c, log2r),
    }
}

/// A tile lies in its frame and is not empty.
proof fn lemma_tile_inside(w: nat, h: nat, lc: nat, lr: nat, i: int)
    requires
        0 <= i < tiling::tile_count(w, lc) * tiling::tile_count(h, lr),
    ensures
        ({
            let (x0, y0, tw, th) = tiling::tile_rect(w, h, lc, lr, i);
            &&& 0 <= x0 && 1 <= tw && x0 + tw <= w
            &&& 0 <= y0 && 1 <= th && y0 + th <= h
        }),
{
    let cols = tiling::tile_count(w, lc) as int;
    let rows = tiling::tile_count(h, lr) as int;
    if cols == 0 {
        assert(cols * rows == 0) by (nonlinear_arith)
            requires
                cols == 0,
        ;
    }
    plane::lemma_block_pos(i, cols, rows);
    tiling::law_tile_spans(w, lc, i % cols);
    tiling::law_tile_spans(h, lr, i / cols);
}

/// Grow a plane to its padded size.
fn grow(src: &[u16], w: usize, h: usize, pw: usize, ph: usize) -> (out: Vec<u16>)
    requires
        1 <= w <= pw,
        1 <= h <= ph,
        src@.len() >= w * h,
        pw * ph <= usize::MAX,
    ensures
        out@ == plane::grown(src@, w as nat, h as nat, pw as nat, ph as nat),
        out@.len() >= pw * ph,
{
    proof {
        assert(plane::least(h as int, ph as int) * w == w * h) by (nonlinear_arith)
            requires
                plane::least(h as int, ph as int) == h,
        ;
    }
    let out = pad_plane(src, w, h, pw, ph);
    proof {
        if !(pw == w && ph == h) {
            let want = plane::grown(src@, w as nat, h as nat, pw as nat, ph as nat);
            assert forall|i: int| 0 <= i < out@.len() implies out@[i] == want[i] by {
                plane::lemma_block_pos(i, pw as int, ph as int);
                let (r, c) = (i / pw as int, i % pw as int);
                assert(i == r * pw + c) by {
                    vstd::arithmetic::div_mod::lemma_fundamental_div_mod(i, pw as int);
                    assert(pw * r == r * pw) by (nonlinear_arith);
                }
                assert(out@[r * pw + c] == plane::padded_sample(src@, w as nat, h as nat, r, c));
            }
            assert(out@ =~= want);
        }
    }
    out
}

// ---------------------------------------------------------------------------
// Superblocks
// ---------------------------------------------------------------------------

/// How a superblock is coded.
#[derive(Clone, Copy, Debug, PartialEq, Eq, Structural)]
pub enum SbRoute {
    /// By the partition walk that a frame edge forces.
    Walk,
    /// Whole, or as four 32x32 blocks where that is cheaper for chroma.
    MaySplit,
    /// Whole.
    Whole,
}

/// Whether a superblock lies in the frame completely.
pub open spec fn whole_in_frame(sb_y: int, sb_x: int, width: int, height: int) -> bool {
    sb_x + 64 <= width && sb_y + 64 <= height
}

/// Route of a superblock: one that the frame cuts is walked where the frame
/// needs a partition; a complete one may be split up to quantizer index 97.
pub open spec fn route_of(
    whole: bool,
    needs_partition: bool,
    chroma_split: bool,
    base_q_idx: u8,
) -> SbRoute {
    if needs_partition && !whole {
        SbRoute::Walk
    } else if chroma_split && base_q_idx <= 97 && whole {
        SbRoute::MaySplit
    } else {
        SbRoute::Whole
    }
}

/// Route of a superblock.
pub fn sb_route(
    sb_y: usize,
    sb_x: usize,
    width: usize,
    height: usize,
    needs_partition: bool,
    chroma_split: bool,
    base_q_idx: u8,
) -> (r: SbRoute)
    requires
        sb_y + 64 <= usize::MAX,
        sb_x + 64 <= usize::MAX,
    ensures
        r == route_of(
            whole_in_frame(sb_y as int, sb_x as int, width as int, height as int),
            needs_partition,
            chroma_split,
            base_q_idx,
        ),
{
    let whole = sb_x + 64 <= width && sb_y + 64 <= height;
    if needs_partition && !whole {
        SbRoute::Walk
    } else if chroma_split && base_q_idx <= 97 && whole {
        SbRoute::MaySplit
    } else {
        SbRoute::Whole
    }
}

/// Luma transform partition of a whole superblock.
#[derive(Clone, Copy, Debug, PartialEq, Eq, Structural)]
pub enum LumaPart {
    /// Four 32x32 transforms.
    Split,
    /// Four 16x64 transforms.
    Vert4,
    /// Four 64x16 transforms.
    Horz4,
}

/// Whether four 16x64 transforms are tried; never on a superblock that the
/// frame cuts.
pub open spec fn tries_vert4(txpart: TxPart, whole: bool) -> bool {
    whole && (txpart == TxPart::ThreeWay || txpart == TxPart::Rd2 || txpart == TxPart::Vert4)
}

/// Whether four 64x16 transforms are tried.
pub open spec fn tries_horz4(txpart: TxPart, whole: bool) -> bool {
    whole && (txpart == TxPart::ThreeWay || txpart == TxPart::Horz4)
}

/// The partition that is kept. `vert_beats_split`, `horz_beats_split` and
/// `horz_beats_vert` compare the costs of the candidates.
pub open spec fn kept_part(
    txpart: TxPart,
    whole: bool,
    vert_beats_split: bool,
    horz_beats_split: bool,
    horz_beats_vert: bool,
) -> LumaPart {
    let vert = tries_vert4(txpart, whole) && (txpart == TxPart::Vert4 || vert_beats_split);
    let horz = tries_horz4(txpart, whole) && (txpart == TxPart::Horz4 || if vert {
        horz_beats_vert
    } else {
        horz_beats_split
    });
    if horz {
        LumaPart::Horz4
    } else if vert {
        LumaPart::Vert4
    } else {
        LumaPart::Split
    }
}

/// Candidates of the luma transform partition: whether the two four-way cuts are
/// tried.
pub fn luma_candidates(txpart: TxPart, whole: bool) -> (r: (bool, bool))
    ensures
        r == (tries_vert4(txpart, whole), tries_horz4(txpart, whole)),
{
    let vert = match txpart {
        TxPart::ThreeWay | TxPart::Rd2 | TxPart::Vert4 => true,
        _ => false,
    };
    let horz = match txpart {
        TxPart::ThreeWay | TxPart::Horz4 => true,
        _ => false,
    };
    (whole && vert, whole && horz)
}

/// A forced strategy on a complete superblock is followed whatever the costs,
/// and a superblock that the frame cuts always has square transforms.
pub proof fn law_forced_partition(txpart: TxPart, whole: bool, a: bool, b: bool, c: bool)
    ensures
        whole && txpart == TxPart::Vert4 ==> kept_part(txpart, whole, a, b, c) == LumaPart::Vert4,
        whole && txpart == TxPart::Horz4 ==> kept_part(txpart, whole, a, b, c) == LumaPart::Horz4,
        txpart == TxPart::Split || !whole ==> kept_part(txpart, whole, a, b, c) == LumaPart::Split,
{
}

/// Chroma modes that are searched, by effort.
pub open spec fn chroma_modes(reduced: bool, directional: bool) -> Seq<usize> {
    if reduced {
        seq![0, 1, 4, 5, 6]
    } else if directional {
        seq![0, 1, 2, 3, 4, 5, 6, 7, 8, 9, 10, 11, 12]
    } else {
        seq![0, 1, 2, 3, 4, 5, 6]
    }
}

/// List the chroma modes to search.
pub fn chroma_mode_candidates(reduced: bool, directional: bool) -> (modes: Vec<usize>)
    ensures
        modes@ == chroma_modes(reduced, directional),
{
    let mut modes: Vec<usize> = Vec::new();
    modes.push(0);
    modes.push(1);
    if reduced {
        modes.push(4);
        modes.push(5);
        modes.push(6);
        assert(modes@ =~= chroma_modes(reduced, directional));
        return modes;
    }
    modes.push(2);
    modes.push(3);
    modes.push(4);
    modes.push(5);
    modes.push(6);
    if directional {
        modes.push(7);
        modes.push(8);
        modes.push(9);
        modes.push(10);
        modes.push(11);
        modes.push(12);
    }
    assert(modes@ =~= chroma_modes(reduced, directional));
    modes
}

// ---------------------------------------------------------------------------
// Leaves of the lossy walk
// ---------------------------------------------------------------------------

/// Leaf sizes that the lossy coder has a transform for, in units of four pixels.
pub open spec fn lossy_leaf(w: int, h: int) -> bool {
    ||| (w == 16 && (h == 16 || h == 8 || h == 4))
    ||| (w == 8 && (h == 16 || h == 8 || h == 4 || h == 2))
    ||| (w == 4 && (h == 16 || h == 8 || h == 4 || h == 2))
    ||| (w == 2 && (h == 8 || h == 4 || h == 2))
}

/// Blocks that the walk of a superblock meets, by their size and by the units
/// of the frame that are left below and to the right of their origin.
spec fn met(b: int, r: int, c: int) -> bool {
    ||| b == 12
    ||| b == 10 && r > 8 && c <= 8
    ||| b == 11 && r <= 8
    ||| b == 9 && (c == 2 || r == 2 || (r <= 8 && c <= 8))
    ||| b == 23 && r > 8 && c == 4
    ||| b == 24 && r == 4 && c > 8
    ||| b == 7 && r > 4 && (c == 2 || (c == 4 && r <= 8))
    ||| b == 8 && (r == 2 || (r == 4 && c <= 8))
    ||| b == 21 && r > 4 && c == 2
    ||| b == 22 && r == 2 && c > 4
    ||| b == 6 && r <= 4 && c <= 4
    ||| b == 5 && r == 2 && c <= 4
    ||| b == 4 && r == 4 && c == 2
    ||| b == 3 && r == 2 && c == 2
}

proof fn lemma_met_leaves(
    row: int,
    col: int,
    b: int,
    rows: int,
    cols: int,
    w: partition::Walk,
    k: int,
)
    requires
        0 <= row,
        0 <= col,
        rows <= usize::MAX,
        cols <= usize::MAX,
        (rows - row) % 2 == 0,
        (cols - col) % 2 == 0,
        0 <= b < 29,
        rows > row && cols > col ==> met(b, rows - row, cols - col),
        w.ops.len() <= k < partition::walked(row, col, b, rows, cols, w).ops.len(),
    ensures
        partition::walked(row, col, b, rows, cols, w).ops[k] matches partition::Op::Leaf {
            bw_mi,
            bh_mi,
            ..
        } ==> lossy_leaf(bw_mi as int, bh_mi as int),
    decreases partition::area(b),
{
    let node = partition::node(row, col, b, rows, cols);
    if let partition::Node::Cut { dir, flagged } = node {
        let sub = partition::half_size(b, dir);
        partition::lemma_some_cut(b);
        partition::lemma_area_shrinks(b, dir);
        let start = if flagged {
            partition::with_direction(w, row, col, b, dir)
        } else {
            w
        };
        let first = partition::walked(row, col, sub, rows, cols, start);
        partition::lemma_walk_extends(row, col, sub, rows, cols, start);
        let (next_row, next_col) = if dir == partition::HORZ {
            (row + partition::MI_H@[b] as int / 2, col)
        } else {
            (row, col + partition::MI_W@[b] as int / 2)
        };
        partition::lemma_walk_extends(next_row, next_col, sub, rows, cols, first);
        let last = partition::walked(next_row, next_col, sub, rows, cols, first);
        if k < start.ops.len() {
            assert(first.ops[k] == start.ops[k]);
            assert(last.ops[k] == first.ops[k]);
        } else if k < first.ops.len() {
            lemma_met_leaves(row, col, sub, rows, cols, start, k);
            assert(last.ops[k] == first.ops[k]);
        } else {
            lemma_met_leaves(next_row, next_col, sub, rows, cols, first, k);
        }
    }
}

/// The walk of a superblock yields only leaves that the lossy coder has a
/// transform for, whatever the size of the frame.
pub proof fn law_lossy_leaves_are_codable(
    sb_row: int,
    sb_col: int,
    width: int,
    height: int,
    w: partition::Walk,
    k: int,
)
    requires
        0 <= sb_row,
        0 <= sb_col,
        0 <= width,
        0 <= height,
        frame::mi_units(width) <= usize::MAX,
        frame::mi_units(height) <= usize::MAX,
        w.ops.len() <= k < partition::walked(
            16 * sb_row,
            16 * sb_col,
            12,
            frame::mi_units(height),
            frame::mi_units(width),
            w,
        ).ops.len(),
    ensures
        partition::walked(
            16 * sb_row,
            16 * sb_col,
            12,
            frame::mi_units(height),
            frame::mi_units(width),
            w,
        ).ops[k] matches partition::Op::Leaf { bw_mi, bh_mi, .. } ==> lossy_leaf(
            bw_mi as int,
            bh_mi as int,
        ),
{
    lemma_met_leaves(
        16 * sb_row,
        16 * sb_col,
        12,
        frame::mi_units(height),
        frame::mi_units(width),
        w,
        k,
    );
}

/// How a leaf of the lossy walk is transformed. Sizes are in pixels.
#[derive(Clone, Copy, Debug, PartialEq, Eq, Structural)]
pub struct LeafPlan {
    /// Size of a luma transform.
    pub tx_w: usize,
    pub tx_h: usize,
    /// Number of luma transforms; they stand row by row.
    pub tus: usize,
    /// Whether the luma may be cut into two transforms along its long side
    /// instead.
    pub halves: bool,
    /// Whether luma modes are searched; other leaves use DC prediction.
    pub mode_search: bool,
    /// Whether luma chooses among four transform types.
    pub tx_types: bool,
    /// Size of the single transform of each chroma plane.
    pub chroma_w: usize,
    pub chroma_h: usize,
}

/// Plan of a leaf of a size in units of four pixels. Leaves of at least 32
/// pixels on both sides have 32x32 luma transforms, all others one transform.
pub open spec fn plan_of(bw_mi: int, bh_mi: int) -> LeafPlan {
    let (w, h) = (4 * bw_mi, 4 * bh_mi);
    let large = w >= 32 && h >= 32;
    LeafPlan {
        tx_w: if large {
            32
        } else {
            w as usize
        },
        tx_h: if large {
            32
        } else {
            h as usize
        },
        tus: if large {
            (w / 32 * (h / 32)) as usize
        } else {
            1
        },
        halves: (w == 16 && h == 64) || (w == 64 && h == 16),
        mode_search: large,
        tx_types: w == 16 && h == 16,
        chroma_w: w as usize,
        chroma_h: h as usize,
    }
}

fn plan_leaf(bw_mi: usize, bh_mi: usize) -> (p: LeafPlan)
    requires
        lossy_leaf(bw_mi as int, bh_mi as int),
    ensures
        p == plan_of(bw_mi as int, bh_mi as int),
{
    let (w, h): (usize, usize) = (4 * bw_mi, 4 * bh_mi);
    let large = w >= 32 && h >= 32;
    assert((w / 32) * (h / 32) <= 4) by (nonlinear_arith)
        requires
            w <= 64,
            h <= 64,
    ;
    LeafPlan {
        tx_w: if large {
            32
        } else {
            w
        },
        tx_h: if large {
            32
        } else {
            h
        },
        tus: if large {
            w / 32 * (h / 32)
        } else {
            1
        },
        halves: (w == 16 && h == 64) || (w == 64 && h == 16),
        mode_search: large,
        tx_types: w == 16 && h == 16,
        chroma_w: w,
        chroma_h: h,
    }
}

/// How to transform a leaf; nothing for sizes that the walk does not yield.
pub fn leaf_plan(bw_mi: usize, bh_mi: usize) -> (r: Option<LeafPlan>)
    ensures
        r == if lossy_leaf(bw_mi as int, bh_mi as int) {
            Some(plan_of(bw_mi as int, bh_mi as int))
        } else {
            None
        },
{
    let known = match (bw_mi, bh_mi) {
        (16, 16) | (16, 8) | (16, 4) => true,
        (8, 16) | (8, 8) | (8, 4) | (8, 2) => true,
        (4, 16) | (4, 8) | (4, 4) | (4, 2) => true,
        (2, 8) | (2, 4) | (2, 2) => true,
        _ => false,
    };
    if !known {
        return None;
    }
    Some(plan_leaf(bw_mi, bh_mi))
}

/// The luma transforms of a leaf cover it exactly.
pub proof fn law_plan_covers_the_leaf(bw_mi: int, bh_mi: int)
    requires
        lossy_leaf(bw_mi, bh_mi),
    ensures
        ({
            let p = plan_of(bw_mi, bh_mi);
            &&& p.tus * (p.tx_w * p.tx_h) == 4 * bw_mi * (4 * bh_mi)
            &&& (4 * bw_mi) % p.tx_w as int == 0
            &&& (4 * bh_mi) % p.tx_h as int == 0
            &&& 1 <= p.tus <= 4
        }),
{
    let (w, h) = (4 * bw_mi, 4 * bh_mi);
    let p = plan_of(bw_mi, bh_mi);
    if w >= 32 && h >= 32 {
        let (a, b) = (w / 32, h / 32);
        assert(w == 32 * a && h == 32 * b);
        assert(1 <= a * b <= 4) by (nonlinear_arith)
            requires
                1 <= a <= 2,
                1 <= b <= 2,
        ;
        assert((a * b) * 1024 == (32 * a) * (32 * b)) by (nonlinear_arith);
    } else {
        vstd::arithmetic::div_mod::lemma_mod_self_0(w);
        vstd::arithmetic::div_mod::lemma_mod_self_0(h);
        assert(p.tx_w as int == w && p.tx_h as int == h);
    }
}

// ---------------------------------------------------------------------------
// The coding loop of a tile
// ---------------------------------------------------------------------------

/// Place of a block in pixels.
#[derive(Clone, Copy, Debug, PartialEq, Eq, Structural)]
pub struct Place {
    pub y: usize,
    pub x: usize,
}

/// What the coding loop of a tile goes by.
#[derive(Clone, Copy, Debug, PartialEq, Eq, Structural)]
pub struct TilePlan {
    pub width: usize,
    pub height: usize,
    /// Extent in units of four pixels.
    pub mi_cols: usize,
    pub mi_rows: usize,
    /// Extent in superblocks.
    pub sb_cols: usize,
    pub sb_rows: usize,
    /// Superblocks that the frame cuts are walked.
    pub needs_partition: bool,
    /// Complete superblocks may be split for the sake of chroma.
    pub chroma_split: bool,
    pub base_q_idx: u8,
    pub txpart: TxPart,
    /// Chroma may be predicted from luma.
    pub cfl: bool,
    /// Chroma may be predicted from luma and its own neighbors.
    pub mhccp: bool,
    /// Each superblock codes a quantizer delta.
    pub delta_q: bool,
    /// Chroma modes of whole superblocks are searched.
    pub mode_search: bool,
    /// The short list of chroma modes is searched.
    pub reduced: bool,
    /// Directional chroma modes are searched.
    pub directional: bool,
}

impl TilePlan {
    /// The extents fit together and the machine.
    pub open spec fn wf(self) -> bool {
        &&& 64 * self.sb_cols + 128 <= usize::MAX
        &&& 64 * self.sb_rows + 128 <= usize::MAX
        &&& 0 < self.mi_cols && 16 * (self.sb_cols - 1) < self.mi_cols <= 16 * self.sb_cols
        &&& 0 < self.mi_rows && 16 * (self.sb_rows - 1) < self.mi_rows <= 16 * self.sb_rows
        &&& self.mi_cols % 2 == 0
        &&& self.mi_rows % 2 == 0
    }

    /// Whether a superblock lies in the tile completely.
    pub open spec fn whole(self, row: int, col: int) -> bool {
        whole_in_frame(64 * row, 64 * col, self.width as int, self.height as int)
    }

    /// Route of a superblock.
    pub open spec fn route(self, row: int, col: int) -> SbRoute {
        route_of(self.whole(row, col), self.needs_partition, self.chroma_split, self.base_q_idx)
    }

    /// Chroma modes that are searched.
    pub open spec fn modes(self) -> Seq<usize> {
        chroma_modes(self.reduced, self.directional)
    }
}

/// Plan of a tile: one that can be coded without padding has its own extent, any
/// other that of its superblocks. Prediction from luma and quantizer deltas need
/// a quantizer index other than 0.
pub open spec fn tile_plan(s: Setup, width: usize, height: usize, directional: bool) -> TilePlan {
    let (w, h) = (width as int, height as int);
    let (pw, ph) = (plane::sb_aligned(width as nat), plane::sb_aligned(height as nat));
    let native = frame::native_extent(w, h);
    let lossy = s.base_q_idx != 0;
    TilePlan {
        width,
        height,
        mi_cols: match native {
            Some((c, _)) => c as usize,
            None => (pw / 4) as usize,
        },
        mi_rows: match native {
            Some((_, r)) => r as usize,
            None => (ph / 4) as usize,
        },
        sb_cols: (pw / 64) as usize,
        sb_rows: (ph / 64) as usize,
        needs_partition: native is Some && (frame::split_residue(frame::mi_units(w))
            || frame::split_residue(frame::mi_units(h))),
        chroma_split: s.tune.chroma_split,
        base_q_idx: s.base_q_idx,
        txpart: s.tune.txpart,
        cfl: s.tune.cfl && lossy,
        mhccp: s.tune.mhccp && lossy,
        delta_q: s.tune.aq && lossy,
        mode_search: s.tune.chroma_mode_search,
        reduced: s.speed == Speed::Fast,
        directional,
    }
}

/// What the loop asks for next.
#[derive(Clone, Copy, Debug, PartialEq, Eq, Structural)]
pub enum TileAction {
    /// Compare the chroma cost of a superblock in quarters with that of the whole.
    CostChroma { at: Place },
    /// Cost the luma of a superblock with a transform partition.
    CostLuma { at: Place, part: LumaPart },
    /// Compare prediction of chroma from luma with DC prediction.
    CostCfl { at: Place },
    /// Cost the chroma of a superblock with a mode that is charged `bits`.
    CostMode { at: Place, mode: usize, bits: u64 },
    /// Code a superblock as one block.
    CodeWhole {
        at: Place,
        /// Inverse probability of the split flag, which is coded as 0.
        split_cdf: u32,
        part: LumaPart,
        /// Chroma is predicted from luma.
        cfl: bool,
        /// Chroma mode, where chroma is not predicted from luma.
        uv_mode: usize,
        /// The quantizer delta of the superblock comes with this block.
        delta_q: bool,
        nb: ChromaNeighbors,
    },
    /// Code that a superblock is split into quarters: the split flag as 1, then the
    /// flag of the square split as 1.
    CodeSplit { at: Place, split_cdf: u32 },
    /// Code the direction of a cut.
    CodeRect { cdf: u32, val: u32 },
    /// Cost the luma of a leaf in a form.
    CostLeaf { at: Place, plan: LeafPlan, form: usize },
    /// Code a leaf. Its chroma mode is DC.
    CodeLeaf {
        at: Place,
        plan: LeafPlan,
        /// For a leaf that may be halved, 1 to halve it; for one that chooses a
        /// transform type, its number; else 0.
        form: usize,
        /// Inverse probability of the split flag.
        split_cdf: u32,
        /// Chroma is predicted from luma.
        cfl: bool,
        /// Prediction of chroma from luma and neighbors is tried.
        mhccp: bool,
        /// The leaf is a quarter of a split superblock, whose quantizer is adapted
        /// to it; other leaves keep the quantizer and code a delta of 0.
        quarter: bool,
        /// The quantizer delta of the superblock comes with this block.
        delta_q: bool,
        nb: ChromaNeighbors,
    },
    /// The tile is coded.
    Done,
}

/// What came of the last action.
#[derive(Clone, Copy, Debug, PartialEq, Eq, Structural)]
pub enum TileEvent {
    /// Nothing was asked for yet.
    Begin,
    /// Whether the quarters are cheaper.
    SplitWins(bool),
    /// Whether prediction from luma is cheaper.
    CflWins(bool),
    /// A cost, as a number that orders like it; the largest one stands for a cost
    /// without bound.
    Cost(u64),
    /// A flag was coded.
    Written,
    /// A whole superblock was coded, with U levels and with V levels or without.
    BlockCoded { u: bool, v: bool },
    /// A leaf was coded, and whether the stream says that its chroma is predicted
    /// from luma.
    LeafCoded { u: bool, v: bool, cfl: bool },
}

/// What the loop waits for. `next` numbers the syntax elements of the superblock.
#[derive(Clone, Copy, Debug, PartialEq, Eq, Structural)]
pub enum Phase {
    Start,
    Split,
    LumaCost { part: LumaPart, best: LumaPart, key: u64 },
    WholeCfl { part: LumaPart },
    ModeCost { part: LumaPart, index: usize, mode: usize, key: u64 },
    Whole { cfl: bool },
    SplitFlag,
    Rect { next: usize },
    LeafCost { next: usize, form: usize, kept: usize, key: u64 },
    LeafCfl { next: usize, form: usize },
    Leaf { next: usize },
    Done,
}

/// The coding loop of a tile.
pub struct Tile {
    pub plan: TilePlan,
    /// Superblock that is coded.
    pub row: int,
    pub col: int,
    pub marks: Marks,
    /// Partition contexts of the row above and of the column to the left.
    pub above: Seq<u8>,
    pub left: Seq<u8>,
    /// Syntax elements of a superblock that is walked or split.
    pub ops: Seq<Op>,
    pub quarters: bool,
    /// The quantizer delta of the superblock is still to come.
    pub delta_q: bool,
    pub phase: Phase,
}

/// `n` partition contexts without a neighbor.
pub open spec fn no_contexts(n: nat) -> Seq<u8> {
    Seq::new(n, |i: int| 0u8)
}

/// The loop before the first superblock.
pub open spec fn tile_of(plan: TilePlan) -> Tile {
    Tile {
        plan,
        row: 0,
        col: 0,
        marks: chroma444::clear_marks(plan.mi_cols as int, plan.mi_rows as int),
        above: no_contexts((plan.mi_cols + 16) as nat),
        left: no_contexts(16),
        ops: Seq::empty(),
        quarters: false,
        delta_q: false,
        phase: Phase::Start,
    }
}

/// The loop of a tile of an encoder.
pub open spec fn tile_start(s: Setup, width: usize, height: usize, directional: bool) -> Tile {
    tile_of(tile_plan(s, width, height, directional))
}

/// The partition that is costed after another one; none after the last.
pub open spec fn luma_after(txpart: TxPart, whole: bool, part: LumaPart) -> Option<LumaPart> {
    if part == LumaPart::Split && tries_vert4(txpart, whole) {
        Some(LumaPart::Vert4)
    } else if part != LumaPart::Horz4 && tries_horz4(txpart, whole) {
        Some(LumaPart::Horz4)
    } else {
        None
    }
}

/// Whether a strategy takes a partition whatever it costs.
pub open spec fn forces_part(txpart: TxPart, part: LumaPart) -> bool {
    ||| txpart == TxPart::Vert4 && part == LumaPart::Vert4
    ||| txpart == TxPart::Horz4 && part == LumaPart::Horz4
}

/// The best partition once one more is costed: the first one, a forced one, and
/// one that is cheaper than the best so far.
pub open spec fn luma_best(
    txpart: TxPart,
    part: LumaPart,
    cost: u64,
    best: LumaPart,
    key: u64,
) -> (LumaPart, u64) {
    if part == LumaPart::Split || forces_part(txpart, part) || cost < key {
        (part, cost)
    } else {
        (best, key)
    }
}

/// The best candidate once one more is costed: one that is cheaper than the best
/// so far.
pub open spec fn cheaper(candidate: usize, cost: u64, best: usize, key: u64) -> (usize, u64) {
    if cost < key {
        (candidate, cost)
    } else {
        (best, key)
    }
}

/// Bits that a chroma mode is charged: two unless it is DC.
pub open spec fn uv_mode_bits(mode: usize) -> u64 {
    if mode == 0 {
        0
    } else {
        2
    }
}

/// Forms that the luma of a leaf is costed in: whole or halved, four transform
/// types, or one form.
pub open spec fn form_count(plan: LeafPlan) -> int {
    if plan.halves {
        2
    } else if plan.tx_types {
        4
    } else {
        1
    }
}

/// Whether prediction of chroma from luma and neighbors is tried on a leaf: below
/// 64 pixels on both sides, and not on a quarter of a split superblock.
pub open spec fn tries_mhccp(plan: TilePlan, leaf: LeafPlan, quarter: bool) -> bool {
    plan.mhccp && leaf.chroma_w < 64 && leaf.chroma_h < 64 && !quarter
}

/// Inverse probability of the split flag of a leaf. A leaf without one has that
/// of a superblock among whole ones.
pub open spec fn leaf_split_cdf(part_cdf: Option<u32>) -> u32 {
    match part_cdf {
        Some(cdf) => cdf,
        None => 12276,
    }
}

/// Place of a unit.
pub open spec fn unit_place(row: int, col: int) -> Place {
    Place { y: (4 * row) as usize, x: (4 * col) as usize }
}

impl Tile {
    /// Place of the superblock.
    pub open spec fn at(self) -> Place {
        unit_place(16 * self.row, 16 * self.col)
    }

    /// Partition contexts, with no syntax elements yet.
    pub open spec fn walk(self) -> Walk {
        Walk { above: self.above, left: self.left, ops: Seq::empty() }
    }

    /// Inverse probability of the split flag of the superblock.
    pub open spec fn split_cdf(self) -> u32 {
        partition::split_flag_cdf(self.walk(), self.row * 16, self.col * 16, 12)
    }

    /// Take up the superblock.
    pub open spec fn begin(self) -> (Tile, TileAction) {
        let t = Tile { delta_q: self.plan.delta_q, ..self };
        if t.row >= t.plan.sb_rows {
            (Tile { phase: Phase::Done, ..t }, TileAction::Done)
        } else {
            match t.plan.route(t.row, t.col) {
                SbRoute::Walk => t.walked().open_op(0),
                SbRoute::MaySplit => (
                    Tile { phase: Phase::Split, ..t },
                    TileAction::CostChroma { at: t.at() },
                ),
                SbRoute::Whole => t.cost_luma(LumaPart::Split, LumaPart::Split, 0),
            }
        }
    }

    /// Go on with the next superblock in raster order. The contexts to the left
    /// start anew in each row.
    pub open spec fn advance(self) -> (Tile, TileAction) {
        let t = Tile { ops: Seq::empty(), quarters: false, ..self };
        if t.col + 1 < t.plan.sb_cols {
            (Tile { col: t.col + 1, ..t }).begin()
        } else {
            (Tile { row: t.row + 1, col: 0, left: no_contexts(16), ..t }).begin()
        }
    }

    /// The superblock by the walk that its frame edge forces.
    pub open spec fn walked(self) -> Tile {
        let w = partition::walked(
            self.row * 16,
            self.col * 16,
            12,
            self.plan.mi_rows as int,
            self.plan.mi_cols as int,
            self.walk(),
        );
        Tile { above: w.above, left: w.left, ops: w.ops, quarters: false, ..self }
    }

    /// The superblock in quarters.
    pub open spec fn quartered(self) -> Tile {
        let w = partition::quartered(self.walk(), self.row * 16, self.col * 16);
        Tile { above: w.above, left: w.left, ops: w.ops, quarters: true, ..self }
    }

    /// Cost the luma with a partition.
    pub open spec fn cost_luma(self, part: LumaPart, best: LumaPart, key: u64) -> (
        Tile,
        TileAction,
    ) {
        (
            Tile { phase: Phase::LumaCost { part, best, key }, ..self },
            TileAction::CostLuma { at: self.at(), part },
        )
    }

    /// With the luma partition chosen, prediction of chroma from luma comes first.
    pub open spec fn luma_done(self, part: LumaPart) -> (Tile, TileAction) {
        if self.plan.cfl {
            (
                Tile { phase: Phase::WholeCfl { part }, ..self },
                TileAction::CostCfl { at: self.at() },
            )
        } else {
            self.first_mode(part)
        }
    }

    /// Chroma that is not predicted from luma: search its modes, or take DC.
    pub open spec fn first_mode(self, part: LumaPart) -> (Tile, TileAction) {
        if self.plan.mode_search {
            self.cost_mode(part, 0, 0, u64::MAX)
        } else {
            self.code_whole(part, false, 0)
        }
    }

    /// Cost a chroma mode of the list.
    pub open spec fn cost_mode(self, part: LumaPart, index: usize, best: usize, key: u64) -> (
        Tile,
        TileAction,
    ) {
        let mode = self.plan.modes()[index as int];
        (
            Tile { phase: Phase::ModeCost { part, index, mode: best, key }, ..self },
            TileAction::CostMode { at: self.at(), mode, bits: uv_mode_bits(mode) },
        )
    }

    /// Code the superblock as one block.
    pub open spec fn code_whole(self, part: LumaPart, cfl: bool, uv_mode: usize) -> (
        Tile,
        TileAction,
    ) {
        (
            Tile { phase: Phase::Whole { cfl }, ..self },
            TileAction::CodeWhole {
                at: self.at(),
                split_cdf: self.split_cdf(),
                part,
                cfl,
                uv_mode,
                delta_q: self.delta_q,
                nb: self.marks.seen(16 * self.row, 16 * self.col, 16, 16),
            },
        )
    }

    /// The state after a superblock of one block.
    pub open spec fn whole_coded(self, cfl: bool, u: bool, v: bool) -> Tile {
        let w = partition::with_leaf(self.walk(), self.row * 16, self.col * 16, 12, true);
        Tile {
            marks: self.marks.noted(16 * self.row, 16 * self.col, 16, 16, u, v, cfl),
            above: w.above,
            left: w.left,
            ..self
        }
    }

    /// Take up a syntax element.
    pub open spec fn open_op(self, k: usize) -> (Tile, TileAction) {
        match self.ops[k as int] {
            Op::RectType { cdf, val } => (
                Tile { phase: Phase::Rect { next: k }, ..self },
                TileAction::CodeRect { cdf, val },
            ),
            Op::Leaf { bw_mi, bh_mi, .. } => if form_count(
                plan_of(bw_mi as int, bh_mi as int),
            ) > 1 {
                self.cost_leaf(k, 0, 0, u64::MAX)
            } else {
                self.leaf_chroma(k, 0)
            },
        }
    }

    /// Go on with the next syntax element, or the next superblock.
    pub open spec fn next_op(self, k: usize) -> (Tile, TileAction) {
        if k + 1 < self.ops.len() {
            self.open_op((k + 1) as usize)
        } else {
            self.advance()
        }
    }

    /// Cost the luma of a leaf in a form.
    pub open spec fn cost_leaf(self, k: usize, form: usize, best: usize, key: u64) -> (
        Tile,
        TileAction,
    ) {
        let op = self.ops[k as int];
        (
            Tile { phase: Phase::LeafCost { next: k, form, kept: best, key }, ..self },
            TileAction::CostLeaf {
                at: unit_place(op->mi_row as int, op->mi_col as int),
                plan: plan_of(op->bw_mi as int, op->bh_mi as int),
                form,
            },
        )
    }

    /// With the form of a leaf chosen, a leaf of 64x64 may predict chroma from luma.
    pub open spec fn leaf_chroma(self, k: usize, form: usize) -> (Tile, TileAction) {
        let op = self.ops[k as int];
        if self.plan.cfl && op->bw_mi == 16 && op->bh_mi == 16 {
            (
                Tile { phase: Phase::LeafCfl { next: k, form }, ..self },
                TileAction::CostCfl { at: unit_place(op->mi_row as int, op->mi_col as int) },
            )
        } else {
            self.code_leaf(k, form, false)
        }
    }

    /// Code a leaf.
    pub open spec fn code_leaf(self, k: usize, form: usize, cfl: bool) -> (Tile, TileAction) {
        let op = self.ops[k as int];
        let (row, col) = (op->mi_row as int, op->mi_col as int);
        let (bw, bh) = (op->bw_mi as int, op->bh_mi as int);
        let plan = plan_of(bw, bh);
        (
            Tile { phase: Phase::Leaf { next: k }, ..self },
            TileAction::CodeLeaf {
                at: unit_place(row, col),
                plan,
                form,
                split_cdf: leaf_split_cdf(op->part_cdf),
                cfl,
                mhccp: tries_mhccp(self.plan, plan, self.quarters),
                quarter: self.quarters,
                delta_q: self.delta_q,
                nb: self.marks.seen(row, col, bw, bh),
            },
        )
    }

    /// The state after a leaf.
    pub open spec fn leaf_coded(self, k: usize, u: bool, v: bool, cfl: bool) -> Tile {
        let op = self.ops[k as int];
        Tile {
            marks: self.marks.noted(
                op->mi_row as int,
                op->mi_col as int,
                op->bw_mi as int,
                op->bh_mi as int,
                u,
                v,
                cfl,
            ),
            delta_q: false,
            ..self
        }
    }
}

/// Whether an event is an answer to the last action.
pub open spec fn answers(t: Tile, event: TileEvent) -> bool {
    match t.phase {
        Phase::Start => event is Begin,
        Phase::Split => event is SplitWins,
        Phase::LumaCost { .. } => event is Cost,
        Phase::WholeCfl { .. } => event is CflWins,
        Phase::ModeCost { .. } => event is Cost,
        Phase::Whole { .. } => event is BlockCoded,
        Phase::SplitFlag => event is Written,
        Phase::Rect { .. } => event is Written,
        Phase::LeafCost { .. } => event is Cost,
        Phase::LeafCfl { .. } => event is CflWins,
        Phase::Leaf { .. } => event is LeafCoded,
        Phase::Done => false,
    }
}

/// The loop after an event, and what it asks for.
pub open spec fn tile_step(t: Tile, event: TileEvent) -> (Tile, TileAction) {
    match (t.phase, event) {
        (Phase::Start, TileEvent::Begin) => t.begin(),
        (Phase::Split, TileEvent::SplitWins(wins)) => if wins {
            (
                Tile { phase: Phase::SplitFlag, ..t },
                TileAction::CodeSplit { at: t.at(), split_cdf: t.split_cdf() },
            )
        } else {
            t.cost_luma(LumaPart::Split, LumaPart::Split, 0)
        },
        (Phase::LumaCost { part, best, key }, TileEvent::Cost(cost)) => {
            let (b, k) = luma_best(t.plan.txpart, part, cost, best, key);
            match luma_after(t.plan.txpart, t.plan.whole(t.row, t.col), part) {
                Some(next) => t.cost_luma(next, b, k),
                None => t.luma_done(b),
            }
        },
        (Phase::WholeCfl { part }, TileEvent::CflWins(wins)) => if wins {
            t.code_whole(part, true, 0)
        } else {
            t.first_mode(part)
        },
        (Phase::ModeCost { part, index, mode, key }, TileEvent::Cost(cost)) => {
            let (b, k) = cheaper(t.plan.modes()[index as int], cost, mode, key);
            if index + 1 < t.plan.modes().len() {
                t.cost_mode(part, (index + 1) as usize, b, k)
            } else {
                t.code_whole(part, false, b)
            }
        },
        (Phase::Whole { cfl }, TileEvent::BlockCoded { u, v }) => t.whole_coded(
            cfl,
            u,
            v,
        ).advance(),
        (Phase::SplitFlag, TileEvent::Written) => t.quartered().open_op(0),
        (Phase::Rect { next }, TileEvent::Written) => t.next_op(next),
        (Phase::LeafCost { next, form, kept, key }, TileEvent::Cost(cost)) => {
            let op = t.ops[next as int];
            let (b, k) = cheaper(form, cost, kept, key);
            if form + 1 < form_count(plan_of(op->bw_mi as int, op->bh_mi as int)) {
                t.cost_leaf(next, (form + 1) as usize, b, k)
            } else {
                t.leaf_chroma(next, b)
            }
        },
        (Phase::LeafCfl { next, form }, TileEvent::CflWins(wins)) => t.code_leaf(
            next,
            form,
            wins,
        ),
        (Phase::Leaf { next }, TileEvent::LeafCoded { u, v, cfl }) => t.leaf_coded(
            next,
            u,
            v,
            cfl,
        ).next_op(next),
        _ => (t, TileAction::Done),
    }
}

/// Blocks of a superblock in coding order: the leaves of the walk, the quarters,
/// or the superblock itself.
pub open spec fn sb_blocks(plan: TilePlan, row: int, col: int, split: bool) -> Seq<Block> {
    match plan.route(row, col) {
        SbRoute::Walk => partition::leaves_of(
            row * 16,
            col * 16,
            12,
            plan.mi_rows as int,
            plan.mi_cols as int,
        ),
        SbRoute::MaySplit if split => partition::quarter_blocks(row * 16, col * 16),
        _ => seq![Block { row: row * 16, col: col * 16, w: 16, h: 16 }],
    }
}

/// The leaves among syntax elements lie in a superblock and have a size that the
/// lossy coder has a transform for.
pub open spec fn ops_fit(ops: Seq<Op>, row: int, col: int) -> bool {
    forall|i: int|
        0 <= i < ops.len() ==> (#[trigger] ops[i] matches Op::Leaf {
            mi_row,
            mi_col,
            bw_mi,
            bh_mi,
            ..
        } ==> {
            &&& 16 * row <= mi_row && mi_row + bh_mi <= 16 * row + 16
            &&& 16 * col <= mi_col && mi_col + bw_mi <= 16 * col + 16
            &&& lossy_leaf(bw_mi as int, bh_mi as int)
        })
}

impl Tile {
    /// The superblock lies in the tile and the contexts cover the tile.
    pub open spec fn base_wf(self) -> bool {
        &&& self.plan.wf()
        &&& 0 <= self.col < self.plan.sb_cols
        &&& 0 <= self.row <= self.plan.sb_rows
        &&& self.row == self.plan.sb_rows ==> self.col == 0
        &&& self.marks.span(self.plan.mi_cols as int, self.plan.mi_rows as int)
        &&& self.above.len() == self.plan.mi_cols + 16
        &&& self.left.len() == 16
    }

    /// The syntax elements are those of the superblock, and element `k` exists.
    pub open spec fn op_wf(self, k: usize) -> bool {
        &&& k < self.ops.len() < 0x1000
        &&& ops_fit(self.ops, self.row, self.col)
        &&& partition::leaf_blocks(self.ops) == sb_blocks(
            self.plan,
            self.row,
            self.col,
            self.quarters,
        )
        &&& self.plan.route(self.row, self.col) == if self.quarters {
            SbRoute::MaySplit
        } else {
            SbRoute::Walk
        }
    }

    /// The state is one that the loop can be in.
    pub open spec fn wf(self) -> bool {
        &&& self.base_wf()
        &&& self.phase == Phase::Done <==> self.row == self.plan.sb_rows
        &&& match self.phase {
            Phase::Start => self.row == 0 && self.col == 0,
            Phase::Done => true,
            Phase::Split | Phase::SplitFlag => self.plan.route(self.row, self.col)
                == SbRoute::MaySplit,
            Phase::LumaCost { .. } | Phase::WholeCfl { .. } | Phase::Whole { .. } => {
                self.plan.route(self.row, self.col) != SbRoute::Walk
            },
            Phase::ModeCost { index, .. } => {
                &&& self.plan.route(self.row, self.col) != SbRoute::Walk
                &&& index < self.plan.modes().len()
            },
            Phase::Rect { next } => self.op_wf(next) && self.ops[next as int] is RectType,
            Phase::LeafCost { next, form, .. } => {
                &&& self.op_wf(next)
                &&& self.ops[next as int] is Leaf
                &&& form < 4
            },
            Phase::LeafCfl { next, .. } => self.op_wf(next) && self.ops[next as int] is Leaf,
            Phase::Leaf { next } => self.op_wf(next) && self.ops[next as int] is Leaf,
        }
    }
}

/// The coding loop of a lossy 4:4:4 tile. It asks for costs and for blocks to be
/// coded, one at a time, and is told what came of each.
#[derive(Debug)]
pub struct TileCoder444 {
    plan: TilePlan,
    row: usize,
    col: usize,
    presence: Presence,
    above: Vec<u8>,
    left: Vec<u8>,
    ops: Vec<Op>,
    quarters: bool,
    delta_q: bool,
    phase: Phase,
}

impl View for TileCoder444 {
    type V = Tile;

    closed spec fn view(&self) -> Tile {
        Tile {
            plan: self.plan,
            row: self.row as int,
            col: self.col as int,
            marks: self.presence@,
            above: self.above@,
            left: self.left@,
            ops: self.ops@,
            quarters: self.quarters,
            delta_q: self.delta_q,
            phase: self.phase,
        }
    }
}

fn clear_contexts(n: usize) -> (out: Vec<u8>)
    ensures
        out@ == no_contexts(n as nat),
{
    let mut out: Vec<u8> = Vec::new();
    let mut i: usize = 0;
    while i < n
        invariant
            i <= n,
            out@ =~= no_contexts(i as nat),
        decreases n - i,
    {
        out.push(0);
        i = i + 1;
    }
    out
}

proof fn lemma_tile_plan(s: Setup, width: usize, height: usize, directional: bool)
    requires
        simple::dims_in_range(width as int, height as int),
    ensures
        tile_plan(s, width, height, directional).wf(),
        plane::sb_aligned(width as nat) <= 16384,
        plane::sb_aligned(height as nat) <= 16384,
{
}

/// Place of a unit.
fn place_of(row: usize, col: usize) -> (p: Place)
    requires
        4 * row <= usize::MAX,
        4 * col <= usize::MAX,
    ensures
        p == unit_place(row as int, col as int),
{
    Place { y: 4 * row, x: 4 * col }
}

fn form_count_of(plan: &LeafPlan) -> (n: usize)
    ensures
        n == form_count(*plan),
{
    if plan.halves {
        2
    } else if plan.tx_types {
        4
    } else {
        1
    }
}

fn pick_cheaper(candidate: usize, cost: u64, best: usize, key: u64) -> (r: (usize, u64))
    ensures
        r == cheaper(candidate, cost, best, key),
{
    if cost < key {
        (candidate, cost)
    } else {
        (best, key)
    }
}

impl TileCoder444 {
    /// The state is one that the loop can be in.
    pub open spec fn wf(&self) -> bool {
        self@.wf()
    }

    /// The loop of a tile; a size out of range is refused.
    pub fn new(enc: &Av2Encoder, width: usize, height: usize, directional: bool) -> (r: Result<
        TileCoder444,
        EncodeError,
    >)
        ensures
            r is Err <==> !simple::dims_in_range(width as int, height as int),
            r matches Err(e) ==> e == EncodeError::DimensionsOutOfRange,
            r matches Ok(t) ==> t.wf() && t@ == tile_start(enc@, width, height, directional),
    {
        validate_dims(width, height)?;
        proof {
            lemma_tile_plan(enc@, width, height, directional);
        }
        let tune = enc.tuning();
        let q: u8 = enc.base_q_idx();
        let pw: usize = sb_align(width);
        let ph: usize = sb_align(height);
        let native = frame::lossy_native_mi(width, height);
        let (mi_cols, mi_rows): (usize, usize) = match native {
            Some((c, r)) => (c as usize, r as usize),
            None => (pw / 4, ph / 4),
        };
        let needs_partition = native.is_some() && frame::lossy_needs_partition(width, height);
        let plan = TilePlan {
            width,
            height,
            mi_cols,
            mi_rows,
            sb_cols: pw / 64,
            sb_rows: ph / 64,
            needs_partition,
            chroma_split: tune.chroma_split,
            base_q_idx: q,
            txpart: tune.txpart,
            cfl: tune.cfl && q != 0,
            mhccp: tune.mhccp && q != 0,
            delta_q: tune.aq && q != 0,
            mode_search: tune.chroma_mode_search,
            reduced: enc.speed().reduced_modes(),
            directional,
        };
        assert(plan == tile_plan(enc@, width, height, directional));
        Ok(Self::with_plan(plan))
    }

    /// The loop of a tile that is planned already.
    pub fn with_plan(plan: TilePlan) -> (t: TileCoder444)
        requires
            plan.wf(),
        ensures
            t.wf(),
            t@ == tile_of(plan),
    {
        TileCoder444 {
            plan,
            row: 0,
            col: 0,
            presence: Presence::new(plan.mi_cols, plan.mi_rows),
            above: clear_contexts(plan.mi_cols + 16),
            left: clear_contexts(16),
            ops: Vec::new(),
            quarters: false,
            delta_q: false,
            phase: Phase::Start,
        }
    }

    /// Take the answer to the last action, and ask for the next one.
    pub fn step(&mut self, event: TileEvent) -> (a: TileAction)
        requires
            old(self).wf(),
            answers(old(self)@, event),
        ensures
            final(self).wf(),
            (final(self)@, a) == tile_step(old(self)@, event),
    {
        proof {
            lemma_step(self@, event);
        }
        match (self.phase, event) {
            (Phase::Start, TileEvent::Begin) => self.begin(),
            (Phase::Split, TileEvent::SplitWins(wins)) => if wins {
                self.phase = Phase::SplitFlag;
                TileAction::CodeSplit { at: self.at(), split_cdf: self.split_cdf() }
            } else {
                self.cost_luma(LumaPart::Split, LumaPart::Split, 0)
            },
            (Phase::LumaCost { part, best, key }, TileEvent::Cost(cost)) => self.luma_costed(
                part,
                best,
                key,
                cost,
            ),
            (Phase::WholeCfl { part }, TileEvent::CflWins(wins)) => if wins {
                self.code_whole(part, true, 0)
            } else {
                self.first_mode(part)
            },
            (Phase::ModeCost { part, index, mode, key }, TileEvent::Cost(cost)) => {
                let modes = chroma_mode_candidates(self.plan.reduced, self.plan.directional);
                let (b, k) = pick_cheaper(modes[index], cost, mode, key);
                if index + 1 < modes.len() {
                    self.cost_mode(part, index + 1, b, k)
                } else {
                    self.code_whole(part, false, b)
                }
            },
            (Phase::Whole { cfl }, TileEvent::BlockCoded { u, v }) => self.whole_coded(cfl, u, v),
            (Phase::SplitFlag, TileEvent::Written) => {
                proof {
                    lemma_quartered(self@);
                }
                self.ops = sb_square_split_ops(
                    self.row,
                    self.col,
                    &mut self.above,
                    &mut self.left,
                );
                self.quarters = true;
                self.open_op(0)
            },
            (Phase::Rect { next }, TileEvent::Written) => self.next_op(next),
            (Phase::LeafCost { next, form, kept, key }, TileEvent::Cost(cost)) => {
                let (b, k) = pick_cheaper(form, cost, kept, key);
                let plan = self.leaf_at(next).1;
                if form + 1 < form_count_of(&plan) {
                    self.cost_leaf(next, form + 1, b, k)
                } else {
                    self.leaf_chroma(next, b)
                }
            },
            (Phase::LeafCfl { next, form }, TileEvent::CflWins(wins)) => self.code_leaf(
                next,
                form,
                wins,
            ),
            (Phase::Leaf { next }, TileEvent::LeafCoded { u, v, cfl }) => self.leaf_coded(
                next,
                u,
                v,
                cfl,
            ),
            _ => TileAction::Done,
        }
    }

    fn at(&self) -> (p: Place)
        requires
            self@.base_wf(),
        ensures
            p == self@.at(),
    {
        place_of(16 * self.row, 16 * self.col)
    }

    fn split_cdf(&self) -> (cdf: u32)
        requires
            self@.base_wf(),
            self@.row < self@.plan.sb_rows,
        ensures
            cdf == self@.split_cdf(),
    {
        sb_none_do_split_cdf(self.row, self.col, &self.above, &self.left)
    }

    fn begin(&mut self) -> (a: TileAction)
        requires
            old(self)@.base_wf(),
        ensures
            (final(self)@, a) == old(self)@.begin(),
    {
        self.delta_q = self.plan.delta_q;
        if self.row >= self.plan.sb_rows {
            self.phase = Phase::Done;
            return TileAction::Done;
        }
        let route = sb_route(
            64 * self.row,
            64 * self.col,
            self.plan.width,
            self.plan.height,
            self.plan.needs_partition,
            self.plan.chroma_split,
            self.plan.base_q_idx,
        );
        match route {
            SbRoute::Walk => {
                proof {
                    lemma_walked(self@);
                }
                self.ops = sb_partition_ops(
                    self.row,
                    self.col,
                    self.plan.mi_rows,
                    self.plan.mi_cols,
                    &mut self.above,
                    &mut self.left,
                );
                self.quarters = false;
                self.open_op(0)
            },
            SbRoute::MaySplit => {
                self.phase = Phase::Split;
                TileAction::CostChroma { at: self.at() }
            },
            SbRoute::Whole => self.cost_luma(LumaPart::Split, LumaPart::Split, 0),
        }
    }

    fn advance(&mut self) -> (a: TileAction)
        requires
            old(self)@.base_wf(),
            old(self)@.row < old(self)@.plan.sb_rows,
        ensures
            (final(self)@, a) == old(self)@.advance(),
    {
        self.ops = Vec::new();
        self.quarters = false;
        if self.col + 1 < self.plan.sb_cols {
            self.col = self.col + 1;
        } else {
            self.row = self.row + 1;
            self.col = 0;
            self.left = clear_contexts(16);
        }
        self.begin()
    }

    fn cost_luma(&mut self, part: LumaPart, best: LumaPart, key: u64) -> (a: TileAction)
        requires
            old(self)@.base_wf(),
        ensures
            (final(self)@, a) == old(self)@.cost_luma(part, best, key),
    {
        self.phase = Phase::LumaCost { part, best, key };
        TileAction::CostLuma { at: self.at(), part }
    }

    fn luma_costed(&mut self, part: LumaPart, best: LumaPart, key: u64, cost: u64) -> (a:
        TileAction)
        requires
            old(self)@.base_wf(),
            old(self)@.row < old(self)@.plan.sb_rows,
        ensures
            ({
                let t = old(self)@;
                let (b, k) = luma_best(t.plan.txpart, part, cost, best, key);
                (final(self)@, a) == match luma_after(
                    t.plan.txpart,
                    t.plan.whole(t.row, t.col),
                    part,
                ) {
                    Some(next) => t.cost_luma(next, b, k),
                    None => t.luma_done(b),
                }
            }),
    {
        let txpart = self.plan.txpart;
        let whole = 64 * self.col + 64 <= self.plan.width && 64 * self.row + 64
            <= self.plan.height;
        let (try_vert, try_horz) = luma_candidates(txpart, whole);
        let forced = match (txpart, part) {
            (TxPart::Vert4, LumaPart::Vert4) => true,
            (TxPart::Horz4, LumaPart::Horz4) => true,
            _ => false,
        };
        let (b, k) = if part == LumaPart::Split || forced || cost < key {
            (part, cost)
        } else {
            (best, key)
        };
        if part == LumaPart::Split && try_vert {
            self.cost_luma(LumaPart::Vert4, b, k)
        } else if part != LumaPart::Horz4 && try_horz {
            self.cost_luma(LumaPart::Horz4, b, k)
        } else {
            self.luma_done(b)
        }
    }

    fn luma_done(&mut self, part: LumaPart) -> (a: TileAction)
        requires
            old(self)@.base_wf(),
            old(self)@.row < old(self)@.plan.sb_rows,
        ensures
            (final(self)@, a) == old(self)@.luma_done(part),
    {
        if self.plan.cfl {
            self.phase = Phase::WholeCfl { part };
            TileAction::CostCfl { at: self.at() }
        } else {
            self.first_mode(part)
        }
    }

    fn first_mode(&mut self, part: LumaPart) -> (a: TileAction)
        requires
            old(self)@.base_wf(),
            old(self)@.row < old(self)@.plan.sb_rows,
        ensures
            (final(self)@, a) == old(self)@.first_mode(part),
    {
        if self.plan.mode_search {
            self.cost_mode(part, 0, 0, u64::MAX)
        } else {
            self.code_whole(part, false, 0)
        }
    }

    fn cost_mode(&mut self, part: LumaPart, index: usize, best: usize, key: u64) -> (a: TileAction)
        requires
            old(self)@.base_wf(),
            index < old(self)@.plan.modes().len(),
        ensures
            (final(self)@, a) == old(self)@.cost_mode(part, index, best, key),
    {
        let modes = chroma_mode_candidates(self.plan.reduced, self.plan.directional);
        let mode: usize = modes[index];
        let bits: u64 = if mode == 0 {
            0
        } else {
            2
        };
        self.phase = Phase::ModeCost { part, index, mode: best, key };
        TileAction::CostMode { at: self.at(), mode, bits }
    }

    fn code_whole(&mut self, part: LumaPart, cfl: bool, uv_mode: usize) -> (a: TileAction)
        requires
            old(self)@.base_wf(),
            old(self)@.row < old(self)@.plan.sb_rows,
        ensures
            (final(self)@, a) == old(self)@.code_whole(part, cfl, uv_mode),
    {
        self.phase = Phase::Whole { cfl };
        TileAction::CodeWhole {
            at: self.at(),
            split_cdf: self.split_cdf(),
            part,
            cfl,
            uv_mode,
            delta_q: self.delta_q,
            nb: self.presence.neighbors(16 * self.row, 16 * self.col, 16, 16),
        }
    }

    fn whole_coded(&mut self, cfl: bool, u: bool, v: bool) -> (a: TileAction)
        requires
            old(self)@.base_wf(),
            old(self)@.row < old(self)@.plan.sb_rows,
        ensures
            (final(self)@, a) == old(self)@.whole_coded(cfl, u, v).advance(),
    {
        self.presence.note(16 * self.row, 16 * self.col, 16, 16, u, v, cfl);
        sb_none_pctx(self.row, self.col, &mut self.above, &mut self.left);
        self.advance()
    }

    fn leaf_at(&self, k: usize) -> (r: ((usize, usize), LeafPlan, u32))
        requires
            self@.op_wf(k),
            self@.ops[k as int] is Leaf,
        ensures
            ({
                let op = self@.ops[k as int];
                &&& r.0 == (op->mi_row, op->mi_col)
                &&& r.1 == plan_of(op->bw_mi as int, op->bh_mi as int)
                &&& r.2 == leaf_split_cdf(op->part_cdf)
            }),
    {
        match self.ops[k] {
            Op::Leaf { mi_row, mi_col, bw_mi, bh_mi, part_cdf } => {
                let cdf: u32 = match part_cdf {
                    Some(cdf) => cdf,
                    None => 12276,
                };
                ((mi_row, mi_col), plan_leaf(bw_mi, bh_mi), cdf)
            },
            Op::RectType { cdf, .. } => ((0, 0), plan_leaf(16, 16), cdf),
        }
    }

    fn open_op(&mut self, k: usize) -> (a: TileAction)
        requires
            old(self)@.base_wf(),
            old(self)@.row < old(self)@.plan.sb_rows,
            old(self)@.op_wf(k),
        ensures
            (final(self)@, a) == old(self)@.open_op(k),
    {
        match self.ops[k] {
            Op::RectType { cdf, val } => {
                self.phase = Phase::Rect { next: k };
                TileAction::CodeRect { cdf, val }
            },
            Op::Leaf { bw_mi, bh_mi, .. } => {
                let plan = plan_leaf(bw_mi, bh_mi);
                if form_count_of(&plan) > 1 {
                    self.cost_leaf(k, 0, 0, u64::MAX)
                } else {
                    self.leaf_chroma(k, 0)
                }
            },
        }
    }

    fn next_op(&mut self, k: usize) -> (a: TileAction)
        requires
            old(self)@.base_wf(),
            old(self)@.row < old(self)@.plan.sb_rows,
            old(self)@.op_wf(k),
        ensures
            (final(self)@, a) == old(self)@.next_op(k),
    {
        if k + 1 < self.ops.len() {
            self.open_op(k + 1)
        } else {
            self.advance()
        }
    }

    fn cost_leaf(&mut self, k: usize, form: usize, best: usize, key: u64) -> (a: TileAction)
        requires
            old(self)@.base_wf(),
            old(self)@.row < old(self)@.plan.sb_rows,
            old(self)@.op_wf(k),
            old(self)@.ops[k as int] is Leaf,
        ensures
            (final(self)@, a) == old(self)@.cost_leaf(k, form, best, key),
    {
        let ((row, col), plan, _) = self.leaf_at(k);
        self.phase = Phase::LeafCost { next: k, form, kept: best, key };
        TileAction::CostLeaf { at: place_of(row, col), plan, form }
    }

    fn leaf_chroma(&mut self, k: usize, form: usize) -> (a: TileAction)
        requires
            old(self)@.base_wf(),
            old(self)@.row < old(self)@.plan.sb_rows,
            old(self)@.op_wf(k),
            old(self)@.ops[k as int] is Leaf,
        ensures
            (final(self)@, a) == old(self)@.leaf_chroma(k, form),
    {
        let ((row, col), plan, _) = self.leaf_at(k);
        if self.plan.cfl && plan.chroma_w == 64 && plan.chroma_h == 64 {
            self.phase = Phase::LeafCfl { next: k, form };
            TileAction::CostCfl { at: place_of(row, col) }
        } else {
            self.code_leaf(k, form, false)
        }
    }

    fn code_leaf(&mut self, k: usize, form: usize, cfl: bool) -> (a: TileAction)
        requires
            old(self)@.base_wf(),
            old(self)@.row < old(self)@.plan.sb_rows,
            old(self)@.op_wf(k),
            old(self)@.ops[k as int] is Leaf,
        ensures
            (final(self)@, a) == old(self)@.code_leaf(k, form, cfl),
    {
        let ((row, col), plan, split_cdf) = self.leaf_at(k);
        let (bw, bh): (usize, usize) = (plan.chroma_w / 4, plan.chroma_h / 4);
        self.phase = Phase::Leaf { next: k };
        TileAction::CodeLeaf {
            at: place_of(row, col),
            plan,
            form,
            split_cdf,
            cfl,
            mhccp: self.plan.mhccp && plan.chroma_w < 64 && plan.chroma_h < 64 && !self.quarters,
            quarter: self.quarters,
            delta_q: self.delta_q,
            nb: self.presence.neighbors(row, col, bw, bh),
        }
    }

    fn leaf_coded(&mut self, k: usize, u: bool, v: bool, cfl: bool) -> (a: TileAction)
        requires
            old(self)@.base_wf(),
            old(self)@.row < old(self)@.plan.sb_rows,
            old(self)@.op_wf(k),
            old(self)@.ops[k as int] is Leaf,
        ensures
            (final(self)@, a) == old(self)@.leaf_coded(k, u, v, cfl).next_op(k),
    {
        let ((row, col), plan, _) = self.leaf_at(k);
        self.presence.note(row, col, plan.chroma_w / 4, plan.chroma_h / 4, u, v, cfl);
        self.delta_q = false;
        self.next_op(k)
    }
}

// ---------------------------------------------------------------------------
// What the loop codes, and in which order
// ---------------------------------------------------------------------------

/// Block that an action codes.
pub open spec fn action_blocks(a: TileAction) -> Seq<Block> {
    match a {
        TileAction::CodeWhole { at, .. } => seq![
            Block { row: at.y as int / 4, col: at.x as int / 4, w: 16, h: 16 },
        ],
        TileAction::CodeLeaf { at, plan, .. } => seq![
            Block {
                row: at.y as int / 4,
                col: at.x as int / 4,
                w: plan.chroma_w as int / 4,
                h: plan.chroma_h as int / 4,
            },
        ],
        _ => Seq::empty(),
    }
}

/// Blocks that actions code, in order.
pub open spec fn coded_blocks(actions: Seq<TileAction>) -> Seq<Block>
    decreases actions.len(),
{
    if actions.len() == 0 {
        Seq::empty()
    } else {
        coded_blocks(actions.drop_last()) + action_blocks(actions.last())
    }
}

/// The loop after events, and the actions it asked for.
pub open spec fn tile_run(t: Tile, events: Seq<TileEvent>) -> (Tile, Seq<TileAction>)
    decreases events.len(),
{
    if events.len() == 0 {
        (t, Seq::empty())
    } else {
        let (s, actions) = tile_run(t, events.drop_last());
        let (n, a) = tile_step(s, events.last());
        (n, actions.push(a))
    }
}

/// Every event answers the action before it.
pub open spec fn all_answer(t: Tile, events: Seq<TileEvent>) -> bool
    decreases events.len(),
{
    events.len() > 0 ==> {
        &&& all_answer(t, events.drop_last())
        &&& answers(tile_run(t, events.drop_last()).0, events.last())
    }
}

/// Whether blocks are those of the first `n` superblocks in raster order, each
/// superblock with its own blocks in coding order.
pub open spec fn in_order(plan: TilePlan, blocks: Seq<Block>, n: nat) -> bool
    decreases n, 0int,
{
    if n == 0 {
        blocks.len() == 0
    } else {
        ends_with_sb(plan, blocks, (n - 1) as nat, true) || ends_with_sb(
            plan,
            blocks,
            (n - 1) as nat,
            false,
        )
    }
}

/// Whether blocks are those of the first `n` superblocks and of the one after
/// them, split or not.
pub open spec fn ends_with_sb(plan: TilePlan, blocks: Seq<Block>, n: nat, split: bool) -> bool
    decreases n, 1int,
{
    let last = sb_blocks(
        plan,
        n as int / plan.sb_cols as int,
        n as int % plan.sb_cols as int,
        split,
    );
    let k = blocks.len() - last.len();
    &&& k >= 0
    &&& blocks.skip(k) == last
    &&& in_order(plan, blocks.take(k), n)
}

/// Blocks of the superblock that are asked for already.
spec fn partial(t: Tile) -> Seq<Block> {
    match t.phase {
        Phase::Rect { next } => partition::leaf_blocks(t.ops.take(next + 1)),
        Phase::LeafCost { next, .. } => partition::leaf_blocks(t.ops.take(next as int)),
        Phase::LeafCfl { next, .. } => partition::leaf_blocks(t.ops.take(next as int)),
        Phase::Leaf { next } => partition::leaf_blocks(t.ops.take(next + 1)),
        Phase::Whole { .. } => seq![Block { row: t.row * 16, col: t.col * 16, w: 16, h: 16 }],
        _ => Seq::empty(),
    }
}

/// Number of the superblock in raster order.
spec fn number(t: Tile) -> int {
    t.row * t.plan.sb_cols + t.col
}

proof fn lemma_walked(t: Tile)
    requires
        t.base_wf(),
        t.row < t.plan.sb_rows,
        t.plan.route(t.row, t.col) == SbRoute::Walk,
    ensures
        t.walked().base_wf(),
        t.walked().op_wf(0),
{
    let (row, col) = (t.row * 16, t.col * 16);
    let (rows, cols) = (t.plan.mi_rows as int, t.plan.mi_cols as int);
    let w = partition::walked(row, col, 12, rows, cols, t.walk());
    assert(partition::MI_H@[12] == 16 && partition::MI_W@[12] == 16);
    partition::lemma_walk_extends(row, col, 12, rows, cols, t.walk());
    partition::lemma_walk_length(row, col, 12, rows, cols, t.walk());
    partition::law_walk_appends_leaves(row, col, 12, rows, cols, t.walk());
    partition::law_leaves_tile_the_block(row, col, 12, rows, cols, t.walk(), row, col);
    assert(partition::leaf_blocks(w.ops) =~= partition::leaves_of(row, col, 12, rows, cols));
    assert forall|i: int| 0 <= i < w.ops.len() implies (#[trigger] w.ops[i] matches Op::Leaf {
        mi_row,
        mi_col,
        bw_mi,
        bh_mi,
        ..
    } ==> {
        &&& 16 * t.row <= mi_row && mi_row + bh_mi <= 16 * t.row + 16
        &&& 16 * t.col <= mi_col && mi_col + bw_mi <= 16 * t.col + 16
        &&& lossy_leaf(bw_mi as int, bh_mi as int)
    }) by {
        partition::law_leaves_start_inside(row, col, 12, rows, cols, t.walk(), i);
        lemma_met_leaves(row, col, 12, rows, cols, t.walk(), i);
    }
}

proof fn lemma_quartered(t: Tile)
    requires
        t.base_wf(),
        t.row < t.plan.sb_rows,
        t.plan.route(t.row, t.col) == SbRoute::MaySplit,
    ensures
        t.quartered().base_wf(),
        t.quartered().op_wf(0),
        forall|i: int|
            0 <= i < t.quartered().ops.len() ==> #[trigger] t.quartered().ops[i] is Leaf,
{
    let (row, col) = (t.row * 16, t.col * 16);
    partition::lemma_quartered_leaves(t.walk(), row, col);
    assert(partition::MI_H@[9] == 8 && partition::MI_W@[9] == 8);
}

proof fn lemma_leaf_blocks_next(ops: Seq<Op>, k: int)
    requires
        0 <= k < ops.len(),
    ensures
        partition::leaf_blocks(ops.take(k + 1)) == partition::leaf_blocks(ops.take(k))
            + partition::op_blocks(ops[k]),
{
    assert(ops.take(k + 1).drop_last() =~= ops.take(k));
}

proof fn lemma_code_leaf(t: Tile, k: usize, form: usize, cfl: bool)
    requires
        t.base_wf(),
        t.row < t.plan.sb_rows,
        t.op_wf(k),
        t.ops[k as int] is Leaf,
    ensures
        ({
            let (n, a) = t.code_leaf(k, form, cfl);
            &&& n.wf()
            &&& partial(n) == partition::leaf_blocks(t.ops.take(k as int)) + action_blocks(a)
        }),
{
    lemma_leaf_blocks_next(t.ops, k as int);
    let a = t.code_leaf(k, form, cfl).1;
    assert(action_blocks(a) =~= partition::op_blocks(t.ops[k as int]));
}

proof fn lemma_leaf_chroma(t: Tile, k: usize, form: usize)
    requires
        t.base_wf(),
        t.row < t.plan.sb_rows,
        t.op_wf(k),
        t.ops[k as int] is Leaf,
    ensures
        ({
            let (n, a) = t.leaf_chroma(k, form);
            &&& n.wf()
            &&& n.plan == t.plan && n.row == t.row && n.col == t.col
            &&& partial(n) == partition::leaf_blocks(t.ops.take(k as int)) + action_blocks(a)
        }),
{
    lemma_code_leaf(t, k, form, false);
    let (n, a) = t.leaf_chroma(k, form);
    assert(partial(n) =~= partition::leaf_blocks(t.ops.take(k as int)) + action_blocks(a));
}

proof fn lemma_open_op(t: Tile, k: usize)
    requires
        t.base_wf(),
        t.row < t.plan.sb_rows,
        t.op_wf(k),
    ensures
        ({
            let (n, a) = t.open_op(k);
            &&& n.wf()
            &&& n.plan == t.plan && n.row == t.row && n.col == t.col
            &&& partial(n) == partition::leaf_blocks(t.ops.take(k as int)) + action_blocks(a)
        }),
{
    let (n, a) = t.open_op(k);
    lemma_leaf_blocks_next(t.ops, k as int);
    if t.ops[k as int] is Leaf {
        lemma_leaf_chroma(t, k, 0);
    }
    assert(partial(n) =~= partition::leaf_blocks(t.ops.take(k as int)) + action_blocks(a));
}

proof fn lemma_begin(t: Tile)
    requires
        t.base_wf(),
    ensures
        ({
            let (n, a) = t.begin();
            &&& n.wf()
            &&& n.plan == t.plan && n.row == t.row && n.col == t.col
            &&& partial(n) == action_blocks(a)
        }),
{
    if t.row < t.plan.sb_rows && t.plan.route(t.row, t.col) == SbRoute::Walk {
        let s = Tile { delta_q: t.plan.delta_q, ..t };
        lemma_walked(s);
        lemma_open_op(s.walked(), 0);
        let (n, a) = t.begin();
        assert(s.walked().ops.take(0) =~= Seq::<Op>::empty());
        assert(partial(n) =~= action_blocks(a));
    }
}

proof fn lemma_advance(t: Tile)
    requires
        t.base_wf(),
        t.row < t.plan.sb_rows,
    ensures
        ({
            let (n, a) = t.advance();
            &&& n.wf()
            &&& n.plan == t.plan
            &&& number(n) == number(t) + 1
            &&& partial(n) == action_blocks(a)
        }),
{
    let s = Tile { ops: Seq::empty(), quarters: false, ..t };
    let cols = t.plan.sb_cols as int;
    if t.col + 1 < cols {
        lemma_begin(Tile { col: t.col + 1, ..s });
    } else {
        lemma_begin(Tile { row: t.row + 1, col: 0, left: no_contexts(16), ..s });
        assert((t.row + 1) * cols == t.row * cols + cols) by (nonlinear_arith);
    }
}

/// The superblock of a state is finished by its last block.
spec fn finished(t: Tile) -> bool {
    ||| partial(t) == sb_blocks(t.plan, t.row, t.col, true)
    ||| partial(t) == sb_blocks(t.plan, t.row, t.col, false)
}

/// A step stays in its superblock and adds the block of its action, or it has
/// finished the superblock and opens the next one.
spec fn goes_on(t: Tile, n: Tile, a: TileAction) -> bool {
    &&& n.plan == t.plan
    &&& {
        ||| number(n) == number(t) && partial(n) == partial(t) + action_blocks(a)
        ||| number(n) == number(t) + 1 && partial(n) == action_blocks(a) && finished(t)
    }
}

proof fn lemma_next_op(t: Tile, k: usize)
    requires
        t.base_wf(),
        t.row < t.plan.sb_rows,
        t.op_wf(k),
    ensures
        ({
            let (n, a) = t.next_op(k);
            let done = partition::leaf_blocks(t.ops.take(k + 1));
            &&& n.wf()
            &&& n.plan == t.plan
            &&& {
                ||| number(n) == number(t) && partial(n) == done + action_blocks(a)
                ||| number(n) == number(t) + 1 && partial(n) == action_blocks(a) && done
                    == sb_blocks(t.plan, t.row, t.col, t.quarters)
            }
        }),
{
    if k + 1 < t.ops.len() {
        lemma_open_op(t, (k + 1) as usize);
    } else {
        lemma_advance(t);
        assert(t.ops.take(k + 1) =~= t.ops);
    }
}

proof fn lemma_step_op(t: Tile, e: TileEvent)
    requires
        t.wf(),
        answers(t, e),
        t.phase is Rect || t.phase is LeafCost || t.phase is LeafCfl || t.phase is Leaf,
    ensures
        tile_step(t, e).0.wf(),
        goes_on(t, tile_step(t, e).0, tile_step(t, e).1),
{
    let (n, a) = tile_step(t, e);
    match t.phase {
        Phase::Rect { next } => {
            lemma_next_op(t, next);
        },
        Phase::LeafCost { next, form, kept, key } => {
            let op = t.ops[next as int];
            let best = cheaper(form, e->Cost_0, kept, key).0;
            if form + 1 >= form_count(plan_of(op->bw_mi as int, op->bh_mi as int)) {
                lemma_leaf_chroma(t, next, best);
            }
            assert(partial(n) =~= partial(t) + action_blocks(a));
        },
        Phase::LeafCfl { next, form } => {
            lemma_code_leaf(t, next, form, e->CflWins_0);
        },
        Phase::Leaf { next } => {
            let s = t.leaf_coded(next, e->LeafCoded_u, e->LeafCoded_v, e->cfl);
            assert(s.base_wf() && s.op_wf(next));
            lemma_next_op(s, next);
        },
        _ => {},
    }
}

proof fn lemma_step_sb(t: Tile, e: TileEvent)
    requires
        t.wf(),
        answers(t, e),
        t.phase is Start || t.phase is Whole || t.phase is SplitFlag,
    ensures
        tile_step(t, e).0.wf(),
        goes_on(t, tile_step(t, e).0, tile_step(t, e).1),
{
    let (n, a) = tile_step(t, e);
    match t.phase {
        Phase::Start => {
            lemma_begin(t);
            assert(partial(n) =~= partial(t) + action_blocks(a));
        },
        Phase::Whole { cfl } => {
            let s = t.whole_coded(cfl, e->BlockCoded_u, e->BlockCoded_v);
            assert(s.base_wf());
            lemma_advance(s);
            assert(finished(t));
        },
        Phase::SplitFlag => {
            lemma_quartered(t);
            lemma_open_op(t.quartered(), 0);
            assert(t.quartered().ops.take(0) =~= Seq::<Op>::empty());
            assert(partial(n) =~= partial(t) + action_blocks(a));
        },
        _ => {},
    }
}

proof fn lemma_code_whole(t: Tile, part: LumaPart, cfl: bool, uv_mode: usize)
    requires
        t.base_wf(),
        t.row < t.plan.sb_rows,
        t.plan.route(t.row, t.col) != SbRoute::Walk,
    ensures
        ({
            let (n, a) = t.code_whole(part, cfl, uv_mode);
            &&& n.wf()
            &&& number(n) == number(t) && n.plan == t.plan
            &&& partial(n) == action_blocks(a)
        }),
{
    let (n, a) = t.code_whole(part, cfl, uv_mode);
    assert(partial(n) =~= action_blocks(a));
}

proof fn lemma_first_mode(t: Tile, part: LumaPart)
    requires
        t.base_wf(),
        t.row < t.plan.sb_rows,
        t.plan.route(t.row, t.col) != SbRoute::Walk,
    ensures
        ({
            let (n, a) = t.first_mode(part);
            &&& n.wf()
            &&& number(n) == number(t) && n.plan == t.plan
            &&& partial(n) == action_blocks(a)
        }),
{
    lemma_code_whole(t, part, false, 0);
}

proof fn lemma_step(t: Tile, e: TileEvent)
    requires
        t.wf(),
        answers(t, e),
    ensures
        tile_step(t, e).0.wf(),
        goes_on(t, tile_step(t, e).0, tile_step(t, e).1),
{
    let (n, a) = tile_step(t, e);
    let none = Seq::<Block>::empty();
    assert(none + action_blocks(a) =~= action_blocks(a));
    match t.phase {
        Phase::Split => {},
        Phase::LumaCost { part, best, key } => {
            let kept = luma_best(t.plan.txpart, part, e->Cost_0, best, key).0;
            lemma_first_mode(t, kept);
        },
        Phase::WholeCfl { part } => {
            lemma_code_whole(t, part, true, 0);
            lemma_first_mode(t, part);
        },
        Phase::ModeCost { part, index, mode, key } => {
            let best = cheaper(t.plan.modes()[index as int], e->Cost_0, mode, key).0;
            lemma_code_whole(t, part, false, best);
        },
        Phase::Start | Phase::Whole { .. } | Phase::SplitFlag => {
            lemma_step_sb(t, e);
        },
        _ => {
            lemma_step_op(t, e);
        },
    }
}

/// What the loop has coded so far: the superblocks before this one, and a part
/// of this one.
spec fn progress(t: Tile, blocks: Seq<Block>) -> bool {
    let k = blocks.len() - partial(t).len();
    &&& k >= 0
    &&& number(t) >= 0
    &&& blocks.skip(k) == partial(t)
    &&& in_order(t.plan, blocks.take(k), number(t) as nat)
}

proof fn lemma_progress(t: Tile, e: TileEvent, blocks: Seq<Block>)
    requires
        t.wf(),
        answers(t, e),
        progress(t, blocks),
    ensures
        progress(tile_step(t, e).0, blocks + action_blocks(tile_step(t, e).1)),
{
    lemma_step(t, e);
    let (n, a) = tile_step(t, e);
    let more = blocks + action_blocks(a);
    let k = blocks.len() - partial(t).len();
    let m = more.len() - partial(n).len();
    if number(n) == number(t) && partial(n) == partial(t) + action_blocks(a) {
        assert(more.skip(m) =~= partial(n));
        assert(more.take(m) =~= blocks.take(k));
    } else {
        assert(more.skip(m) =~= partial(n));
        assert(more.take(m) =~= blocks);
        let cols = t.plan.sb_cols as int;
        vstd::arithmetic::div_mod::lemma_fundamental_div_mod_converse(
            number(t),
            cols,
            t.row,
            t.col,
        );
        assert(ends_with_sb(t.plan, blocks, number(t) as nat, true) || ends_with_sb(
            t.plan,
            blocks,
            number(t) as nat,
            false,
        ));
    }
}

proof fn lemma_run(plan: TilePlan, events: Seq<TileEvent>)
    requires
        plan.wf(),
        all_answer(tile_of(plan), events),
    ensures
        ({
            let (t, actions) = tile_run(tile_of(plan), events);
            &&& t.wf()
            &&& t.plan == plan
            &&& progress(t, coded_blocks(actions))
        }),
    decreases events.len(),
{
    let start = tile_of(plan);
    if events.len() == 0 {
        let blocks = coded_blocks(Seq::empty());
        assert(blocks.take(0) =~= blocks);
        assert(blocks.skip(0) =~= partial(start));
    } else {
        lemma_run(plan, events.drop_last());
        let (s, actions) = tile_run(start, events.drop_last());
        let (n, a) = tile_step(s, events.last());
        lemma_step(s, events.last());
        lemma_progress(s, events.last(), coded_blocks(actions));
        assert(actions.push(a).drop_last() =~= actions);
    }
}

/// Once a tile is coded, its blocks are those of its superblocks in raster order,
/// and those of a superblock in the order of its walk or of its quarters,
/// whatever the costs were.
pub proof fn law_tile_is_coded_in_order(plan: TilePlan, events: Seq<TileEvent>)
    requires
        plan.wf(),
        all_answer(tile_of(plan), events),
        tile_run(tile_of(plan), events).0.phase == Phase::Done,
    ensures
        in_order(
            plan,
            coded_blocks(tile_run(tile_of(plan), events).1),
            (plan.sb_rows * plan.sb_cols) as nat,
        ),
{
    lemma_run(plan, events);
    let (t, actions) = tile_run(tile_of(plan), events);
    let blocks = coded_blocks(actions);
    assert(blocks.take(blocks.len() as int) =~= blocks);
}

proof fn lemma_sb_holds(plan: TilePlan, row: int, col: int, split: bool, r: int, c: int)
    requires
        plan.wf(),
        0 <= row < plan.sb_rows,
        0 <= col < plan.sb_cols,
        0 <= r < plan.mi_rows,
        0 <= c < plan.mi_cols,
    ensures
        partition::hold_count(sb_blocks(plan, row, col, split), r, c) == if r / 16 == row && c / 16
            == col {
            1nat
        } else {
            0nat
        },
{
    assert(partition::MI_H@[12] == 16 && partition::MI_W@[12] == 16);
    let (y, x) = (row * 16, col * 16);
    partition::law_leaves_hold_each_unit_once(
        y,
        x,
        12,
        plan.mi_rows as int,
        plan.mi_cols as int,
        r,
        c,
    );
    partition::law_quarters_hold_each_unit_once(y, x, r, c);
    let one = seq![Block { row: y, col: x, w: 16, h: 16 }];
    assert(one.drop_last() =~= Seq::<Block>::empty());
    reveal_with_fuel(partition::hold_count, 2);
}

proof fn lemma_order_holds(plan: TilePlan, blocks: Seq<Block>, n: nat, r: int, c: int)
    requires
        plan.wf(),
        n <= plan.sb_rows * plan.sb_cols,
        in_order(plan, blocks, n),
        0 <= r < plan.mi_rows,
        0 <= c < plan.mi_cols,
    ensures
        partition::hold_count(blocks, r, c) == if r / 16 * plan.sb_cols + c / 16 < n {
            1nat
        } else {
            0nat
        },
    decreases n,
{
    let cols = plan.sb_cols as int;
    let (row, col) = (r / 16, c / 16);
    assert(row * cols >= 0) by (nonlinear_arith)
        requires
            row >= 0,
            cols >= 0,
    ;
    if n > 0 {
        let i = n - 1;
        let split = ends_with_sb(plan, blocks, i as nat, true);
        assert(ends_with_sb(plan, blocks, i as nat, split));
        let last = sb_blocks(plan, i / cols, i % cols, split);
        let k = blocks.len() - last.len();
        assert(blocks =~= blocks.take(k) + blocks.skip(k));
        partition::lemma_hold_count_append(blocks.take(k), last, r, c);
        lemma_order_holds(plan, blocks.take(k), i as nat, r, c);
        assert(plan.sb_rows * cols == cols * plan.sb_rows) by (nonlinear_arith);
        plane::lemma_block_pos(i, cols, plan.sb_rows as int);
        lemma_sb_holds(plan, i / cols, i % cols, split, r, c);
        vstd::arithmetic::div_mod::lemma_fundamental_div_mod(i, cols);
        assert(cols * (i / cols) == (i / cols) * cols) by (nonlinear_arith);
        if row * cols + col == i {
            vstd::arithmetic::div_mod::lemma_fundamental_div_mod_converse(i, cols, row, col);
        }
    }
}

/// Once a tile is coded, every unit of it was coded exactly once, whatever the
/// costs were.
pub proof fn law_every_unit_is_coded_once(
    plan: TilePlan,
    events: Seq<TileEvent>,
    r: int,
    c: int,
)
    requires
        plan.wf(),
        all_answer(tile_of(plan), events),
        tile_run(tile_of(plan), events).0.phase == Phase::Done,
        0 <= r < plan.mi_rows,
        0 <= c < plan.mi_cols,
    ensures
        partition::hold_count(coded_blocks(tile_run(tile_of(plan), events).1), r, c) == 1,
{
    law_tile_is_coded_in_order(plan, events);
    let cols = plan.sb_cols as int;
    let n = plan.sb_rows * plan.sb_cols;
    assert(n >= 0) by (nonlinear_arith)
        requires
            n == plan.sb_rows * plan.sb_cols,
    ;
    lemma_order_holds(plan, coded_blocks(tile_run(tile_of(plan), events).1), n as nat, r, c);
    let row = r / 16;
    assert(row * cols + cols <= plan.sb_rows * cols) by (nonlinear_arith)
        requires
            row + 1 <= plan.sb_rows,
            cols >= 0,
    ;
}

/// The luma partition that is left once all candidates are costed is the one that
/// the strategy keeps.
pub proof fn law_cheapest_partition_is_kept(
    txpart: TxPart,
    whole: bool,
    split: u64,
    vert: u64,
    horz: u64,
)
    ensures
        ({
            let first = luma_best(txpart, LumaPart::Split, split, LumaPart::Split, 0);
            let second = if tries_vert4(txpart, whole) {
                luma_best(txpart, LumaPart::Vert4, vert, first.0, first.1)
            } else {
                first
            };
            let third = if tries_horz4(txpart, whole) {
                luma_best(txpart, LumaPart::Horz4, horz, second.0, second.1)
            } else {
                second
            };
            third.0 == kept_part(txpart, whole, vert < split, horz < split, horz < vert)
        }),
{
}

/// The best of the first `n` candidates, costed one after the other.
pub open spec fn best_of(candidates: Seq<usize>, costs: Seq<u64>, n: nat) -> (usize, u64)
    decreases n,
{
    if n == 0 {
        (0, u64::MAX)
    } else {
        let (best, key) = best_of(candidates, costs, (n - 1) as nat);
        cheaper(candidates[n - 1], costs[n - 1], best, key)
    }
}

/// Among candidates costed one after the other the first of the cheapest wins.
pub proof fn law_first_of_the_cheapest_wins(
    candidates: Seq<usize>,
    costs: Seq<u64>,
    n: nat,
    i: int,
)
    requires
        n <= candidates.len(),
        n <= costs.len(),
        0 <= i < n,
        costs[i] < u64::MAX,
        forall|k: int| 0 <= k < n ==> costs[i] <= #[trigger] costs[k],
        forall|k: int| 0 <= k < i ==> costs[i] < #[trigger] costs[k],
    ensures
        best_of(candidates, costs, n) == (candidates[i], costs[i]),
{
    lemma_best_before(candidates, costs, i as nat, costs[i]);
    lemma_best_after(candidates, costs, i, n);
}

proof fn lemma_best_before(candidates: Seq<usize>, costs: Seq<u64>, n: nat, bound: u64)
    requires
        n <= costs.len(),
        bound < u64::MAX,
        forall|k: int| 0 <= k < n ==> bound < #[trigger] costs[k],
    ensures
        bound < best_of(candidates, costs, n).1,
    decreases n,
{
    if n > 0 {
        lemma_best_before(candidates, costs, (n - 1) as nat, bound);
    }
}

proof fn lemma_best_after(candidates: Seq<usize>, costs: Seq<u64>, i: int, n: nat)
    requires
        n <= costs.len(),
        0 <= i < n,
        costs[i] < best_of(candidates, costs, i as nat).1,
        forall|k: int| 0 <= k < n ==> costs[i] <= #[trigger] costs[k],
    ensures
        best_of(candidates, costs, n) == (candidates[i], costs[i]),
    decreases n,
{
    if n > i + 1 {
        lemma_best_after(candidates, costs, i, (n - 1) as nat);
        assert(costs[i] <= costs[n - 1]);
    }
}

// ---------------------------------------------------------------------------
// The end of the loop
// ---------------------------------------------------------------------------

/// Steps that a superblock can still take at most.
spec fn steps_in_sb(t: Tile) -> int {
    match t.phase {
        Phase::Start => 0xffff,
        Phase::Split => 0x9000,
        Phase::SplitFlag => 0x8fff,
        Phase::LumaCost { part, .. } => match part {
            LumaPart::Split => 0x43,
            LumaPart::Vert4 => 0x42,
            LumaPart::Horz4 => 0x41,
        },
        Phase::WholeCfl { .. } => 0x40,
        Phase::ModeCost { index, .. } => 0x3f - index,
        Phase::Whole { .. } => 1,
        Phase::Rect { next } => 8 * (0x1000 - next) + 7,
        Phase::LeafCost { next, form, .. } => 8 * (0x1000 - next) + 7 - form,
        Phase::LeafCfl { next, .. } => 8 * (0x1000 - next) + 3,
        Phase::Leaf { next } => 8 * (0x1000 - next) + 2,
        Phase::Done => 0,
    }
}

spec fn steps_left(t: Tile) -> int {
    (t.plan.sb_rows * t.plan.sb_cols - number(t)) * 0x1_0000 + steps_in_sb(t)
}

proof fn lemma_steps_bound(t: Tile)
    requires
        t.wf(),
    ensures
        0 <= steps_in_sb(t) <= 0xffff,
        !(t.phase is Start) ==> steps_in_sb(t) <= 0x9000,
        number(t) <= t.plan.sb_rows * t.plan.sb_cols,
{
    let (rows, cols) = (t.plan.sb_rows as int, t.plan.sb_cols as int);
    if t.row < rows {
        assert(t.row * cols + cols <= rows * cols) by (nonlinear_arith)
            requires
                t.row + 1 <= rows,
                cols >= 0,
        ;
    }
}

proof fn lemma_open_op_steps(t: Tile, k: usize)
    requires
        t.op_wf(k),
    ensures
        steps_in_sb(t.open_op(k).0) <= 8 * (0x1000 - k) + 7,
        !(t.open_op(k).0.phase is Start),
{
}

proof fn lemma_begin_goes_on(t: Tile)
    requires
        t.base_wf(),
    ensures
        !(t.begin().0.phase is Start),
{
    if t.row < t.plan.sb_rows && t.plan.route(t.row, t.col) == SbRoute::Walk {
        let s = Tile { delta_q: t.plan.delta_q, ..t };
        lemma_walked(s);
        lemma_open_op_steps(s.walked(), 0);
    }
}

proof fn lemma_advance_goes_on(t: Tile)
    requires
        t.base_wf(),
        t.row < t.plan.sb_rows,
    ensures
        !(t.advance().0.phase is Start),
{
    let s = Tile { ops: Seq::empty(), quarters: false, ..t };
    if t.col + 1 < t.plan.sb_cols {
        lemma_begin_goes_on(Tile { col: t.col + 1, ..s });
    } else {
        lemma_begin_goes_on(Tile { row: t.row + 1, col: 0, left: no_contexts(16), ..s });
    }
}

proof fn lemma_next_op_steps(t: Tile, k: usize)
    requires
        t.base_wf(),
        t.row < t.plan.sb_rows,
        t.op_wf(k),
    ensures
        !(t.next_op(k).0.phase is Start),
        number(t.next_op(k).0) == number(t) + 1 || (number(t.next_op(k).0) == number(t)
            && steps_in_sb(t.next_op(k).0) < 8 * (0x1000 - k)),
{
    if k + 1 < t.ops.len() {
        lemma_open_op_steps(t, (k + 1) as usize);
        lemma_open_op(t, (k + 1) as usize);
    } else {
        lemma_advance(t);
        lemma_advance_goes_on(t);
    }
}

/// A step is taken in the same superblock with fewer to go, or in the next one.
proof fn lemma_step_counts_down(t: Tile, e: TileEvent)
    requires
        t.wf(),
        answers(t, e),
    ensures
        !(tile_step(t, e).0.phase is Start),
        number(tile_step(t, e).0) == number(t) + 1 || (number(tile_step(t, e).0) == number(t)
            && steps_in_sb(tile_step(t, e).0) < steps_in_sb(t)),
{
    let n = tile_step(t, e).0;
    match t.phase {
        Phase::Start => {
            lemma_begin(t);
            lemma_begin_goes_on(t);
            lemma_steps_bound(n);
        },
        Phase::Whole { cfl } => {
            let s = t.whole_coded(cfl, e->BlockCoded_u, e->BlockCoded_v);
            lemma_advance(s);
            lemma_advance_goes_on(s);
        },
        Phase::SplitFlag => {
            lemma_quartered(t);
            lemma_open_op(t.quartered(), 0);
            lemma_open_op_steps(t.quartered(), 0);
        },
        Phase::Rect { next } => {
            lemma_next_op_steps(t, next);
        },
        Phase::Leaf { next } => {
            let s = t.leaf_coded(next, e->LeafCoded_u, e->LeafCoded_v, e->cfl);
            assert(s.base_wf() && s.op_wf(next));
            lemma_next_op_steps(s, next);
        },
        Phase::LeafCost { .. } => {},
        Phase::LeafCfl { .. } => {},
        Phase::LumaCost { .. } => {},
        Phase::WholeCfl { .. } => {},
        Phase::ModeCost { .. } => {},
        Phase::Split => {},
        Phase::Done => {},
    }
}

/// The loop ends: no more events than a bound that depends on the number of
/// superblocks alone can be answers, whatever they are.
pub proof fn law_the_loop_ends(plan: TilePlan, events: Seq<TileEvent>)
    requires
        plan.wf(),
        all_answer(tile_of(plan), events),
    ensures
        events.len() <= plan.sb_rows * plan.sb_cols * 0x1_0000 + 0xffff,
{
    lemma_run_counts_down(plan, events);
    lemma_run(plan, events);
    lemma_steps_bound(tile_run(tile_of(plan), events).0);
}

proof fn lemma_run_counts_down(plan: TilePlan, events: Seq<TileEvent>)
    requires
        plan.wf(),
        all_answer(tile_of(plan), events),
    ensures
        events.len() + steps_left(tile_run(tile_of(plan), events).0) <= plan.sb_rows * plan.sb_cols
            * 0x1_0000 + 0xffff,
    decreases events.len(),
{
    if events.len() > 0 {
        lemma_run_counts_down(plan, events.drop_last());
        lemma_run(plan, events.drop_last());
        let s = tile_run(tile_of(plan), events.drop_last()).0;
        let e = events.last();
        lemma_step(s, e);
        lemma_step_counts_down(s, e);
        lemma_steps_bound(s);
        lemma_steps_bound(tile_step(s, e).0);
    }
}

// ---------------------------------------------------------------------------
// Quantizer deltas
// ---------------------------------------------------------------------------

/// Blocks among actions that come with the quantizer delta of their superblock.
pub open spec fn delta_count(actions: Seq<TileAction>) -> nat
    decreases actions.len(),
{
    if actions.len() == 0 {
        0
    } else {
        delta_count(actions.drop_last()) + deltas(actions.last())
    }
}

/// 1 for a block that comes with a quantizer delta.
pub open spec fn deltas(a: TileAction) -> nat {
    match a {
        TileAction::CodeWhole { delta_q: true, .. } => 1,
        TileAction::CodeLeaf { delta_q: true, .. } => 1,
        _ => 0,
    }
}

/// Deltas of the superblock that are asked for already.
spec fn deltas_so_far(t: Tile) -> nat {
    match t.phase {
        Phase::Whole { .. } | Phase::Leaf { .. } => 1,
        Phase::Rect { .. } | Phase::LeafCost { .. } | Phase::LeafCfl { .. } => if t.delta_q {
            0
        } else {
            1
        },
        _ => 0,
    }
}

/// The delta is still to come as long as no block of the superblock was coded.
spec fn delta_wf(t: Tile) -> bool {
    match t.phase {
        Phase::Start | Phase::Done => true,
        Phase::Rect { next } => t.delta_q <==> partition::leaf_blocks(t.ops.take(next as int)).len()
            == 0,
        Phase::LeafCost { next, .. } => t.delta_q <==> partition::leaf_blocks(
            t.ops.take(next as int),
        ).len() == 0,
        Phase::LeafCfl { next, .. } => t.delta_q <==> partition::leaf_blocks(
            t.ops.take(next as int),
        ).len() == 0,
        Phase::Leaf { next } => t.delta_q <==> partition::leaf_blocks(t.ops.take(next as int)).len()
            == 0,
        _ => t.delta_q,
    }
}

/// What a step leaves of the deltas.
spec fn delta_step(t: Tile, n: Tile, a: TileAction) -> bool {
    &&& delta_wf(n)
    &&& number(n) + deltas_so_far(n) == number(t) + deltas_so_far(t) + deltas(a)
}

proof fn lemma_open_op_delta(t: Tile, k: usize)
    requires
        t.op_wf(k),
        t.delta_q <==> partition::leaf_blocks(t.ops.take(k as int)).len() == 0,
    ensures
        ({
            let (n, a) = t.open_op(k);
            &&& delta_wf(n)
            &&& number(n) == number(t)
            &&& deltas_so_far(n) == deltas(a) + if t.delta_q {
                0nat
            } else {
                1nat
            }
        }),
{
}

proof fn lemma_begin_delta(t: Tile)
    requires
        t.base_wf(),
        t.plan.delta_q,
    ensures
        ({
            let (n, a) = t.begin();
            &&& delta_wf(n)
            &&& number(n) == number(t)
            &&& deltas_so_far(n) == deltas(a)
        }),
{
    if t.row < t.plan.sb_rows && t.plan.route(t.row, t.col) == SbRoute::Walk {
        let s = Tile { delta_q: t.plan.delta_q, ..t };
        lemma_walked(s);
        assert(s.walked().ops.take(0) =~= Seq::<Op>::empty());
        lemma_open_op_delta(s.walked(), 0);
    }
}

proof fn lemma_advance_delta(t: Tile)
    requires
        t.base_wf(),
        t.row < t.plan.sb_rows,
        t.plan.delta_q,
    ensures
        ({
            let (n, a) = t.advance();
            &&& delta_wf(n)
            &&& number(n) == number(t) + 1
            &&& deltas_so_far(n) == deltas(a)
        }),
{
    lemma_advance(t);
    let s = Tile { ops: Seq::empty(), quarters: false, ..t };
    if t.col + 1 < t.plan.sb_cols {
        lemma_begin_delta(Tile { col: t.col + 1, ..s });
    } else {
        lemma_begin_delta(Tile { row: t.row + 1, col: 0, left: no_contexts(16), ..s });
    }
}

proof fn lemma_next_op_delta(t: Tile, k: usize)
    requires
        t.base_wf(),
        t.row < t.plan.sb_rows,
        t.op_wf(k),
        t.plan.delta_q,
        t.delta_q <==> partition::leaf_blocks(t.ops.take(k + 1)).len() == 0,
    ensures
        ({
            let (n, a) = t.next_op(k);
            &&& delta_wf(n)
            &&& number(n) + deltas_so_far(n) == number(t) + deltas(a) + if t.delta_q {
                0nat
            } else {
                1nat
            }
        }),
{
    if k + 1 < t.ops.len() {
        lemma_open_op_delta(t, (k + 1) as usize);
    } else {
        lemma_advance_delta(t);
        assert(t.ops.take(k + 1) =~= t.ops);
        lemma_sb_holds(t.plan, t.row, t.col, t.quarters, 16 * t.row, 16 * t.col);
        assert(sb_blocks(t.plan, t.row, t.col, t.quarters).len() > 0);
    }
}

proof fn lemma_step_delta(t: Tile, e: TileEvent)
    requires
        t.wf(),
        answers(t, e),
        t.plan.delta_q,
        delta_wf(t),
    ensures
        delta_step(t, tile_step(t, e).0, tile_step(t, e).1),
{
    match t.phase {
        Phase::Start => {
            lemma_begin_delta(t);
        },
        Phase::Whole { cfl } => {
            lemma_advance_delta(t.whole_coded(cfl, e->BlockCoded_u, e->BlockCoded_v));
        },
        Phase::SplitFlag => {
            lemma_quartered(t);
            assert(t.quartered().ops.take(0) =~= Seq::<Op>::empty());
            lemma_open_op_delta(t.quartered(), 0);
        },
        Phase::Rect { next } => {
            lemma_leaf_blocks_next(t.ops, next as int);
            lemma_next_op_delta(t, next);
        },
        Phase::Leaf { next } => {
            let s = t.leaf_coded(next, e->LeafCoded_u, e->LeafCoded_v, e->cfl);
            assert(s.base_wf() && s.op_wf(next));
            lemma_leaf_blocks_next(t.ops, next as int);
            lemma_next_op_delta(s, next);
        },
        Phase::LeafCost { .. } => {},
        Phase::LeafCfl { .. } => {},
        Phase::LumaCost { .. } => {},
        Phase::WholeCfl { .. } => {},
        Phase::ModeCost { .. } => {},
        Phase::Split => {},
        Phase::Done => {},
    }
}

proof fn lemma_run_delta(plan: TilePlan, events: Seq<TileEvent>)
    requires
        plan.wf(),
        plan.delta_q,
        all_answer(tile_of(plan), events),
    ensures
        ({
            let (t, actions) = tile_run(tile_of(plan), events);
            &&& delta_wf(t)
            &&& delta_count(actions) == number(t) + deltas_so_far(t)
        }),
    decreases events.len(),
{
    if events.len() > 0 {
        lemma_run(plan, events.drop_last());
        lemma_run_delta(plan, events.drop_last());
        let (s, actions) = tile_run(tile_of(plan), events.drop_last());
        let (n, a) = tile_step(s, events.last());
        lemma_step_delta(s, events.last());
        assert(actions.push(a).drop_last() =~= actions);
        assert(actions.push(a).last() == a);
    } else {
        let cols = plan.sb_cols as int;
        assert(0 * cols == 0) by (nonlinear_arith);
        assert(delta_count(Seq::empty()) == 0);
    }
}

/// Where superblocks code quantizer deltas, a coded tile has exactly one for each
/// superblock, however they were cut.
pub proof fn law_one_delta_per_superblock(plan: TilePlan, events: Seq<TileEvent>)
    requires
        plan.wf(),
        plan.delta_q,
        all_answer(tile_of(plan), events),
        tile_run(tile_of(plan), events).0.phase == Phase::Done,
    ensures
        delta_count(tile_run(tile_of(plan), events).1) == plan.sb_rows * plan.sb_cols,
{
    lemma_run(plan, events);
    lemma_run_delta(plan, events);
}

/// The number of workers enters no decision on a frame: neither its route, nor
/// its headers, nor what the loop of a tile asks for.
pub proof fn law_workers_change_no_decision(
    a: Setup,
    b: Setup,
    width: usize,
    height: usize,
    directional: bool,
    events: Seq<TileEvent>,
)
    requires
        a == (Setup { threads: a.threads, ..b }),
    ensures
        frame_route(a, width as nat, height as nat) == frame_route(b, width as nat, height as nat),
        crate::encoder::frame_config(a, crate::layout::Layout::I444)
            == crate::encoder::frame_config(b, crate::layout::Layout::I444),
        tile_run(tile_start(a, width, height, directional), events) == tile_run(
            tile_start(b, width, height, directional),
            events,
        ),
{
}

/// A tile of an encoder never needs the walk: it has its own extent only where no
/// edge forces a split. The walk is for tiles that are planned otherwise.
pub proof fn law_planned_tiles_force_no_split(
    s: Setup,
    width: usize,
    height: usize,
    directional: bool,
    row: int,
    col: int,
)
    ensures
        !tile_plan(s, width, height, directional).needs_partition,
        tile_plan(s, width, height, directional).route(row, col) != SbRoute::Walk,
{
    frame::law_boundary_safe_sides_force_no_split(width as int);
    frame::law_boundary_safe_sides_force_no_split(height as int);
}

/// Whether an event is of the kind that an action is answered by.
pub open spec fn replies(a: TileAction, event: TileEvent) -> bool {
    match a {
        TileAction::CostChroma { .. } => event is SplitWins,
        TileAction::CostLuma { .. } => event is Cost,
        TileAction::CostCfl { .. } => event is CflWins,
        TileAction::CostMode { .. } => event is Cost,
        TileAction::CostLeaf { .. } => event is Cost,
        TileAction::CodeSplit { .. } => event is Written,
        TileAction::CodeRect { .. } => event is Written,
        TileAction::CodeWhole { .. } => event is BlockCoded,
        TileAction::CodeLeaf { .. } => event is LeafCoded,
        TileAction::Done => false,
    }
}

proof fn lemma_begin_replies(t: Tile, reply: TileEvent)
    ensures
        answers(t.begin().0, reply) <==> replies(t.begin().1, reply),
{
}

proof fn lemma_next_op_replies(t: Tile, k: usize, reply: TileEvent)
    ensures
        answers(t.next_op(k).0, reply) <==> replies(t.next_op(k).1, reply),
        answers(t.advance().0, reply) <==> replies(t.advance().1, reply),
{
    let s = Tile { ops: Seq::empty(), quarters: false, ..t };
    lemma_begin_replies(Tile { col: t.col + 1, ..s }, reply);
    lemma_begin_replies(
        Tile { row: t.row + 1, col: 0, left: no_contexts(16), ..s },
        reply,
    );
}

/// The action alone tells which events answer it; nothing answers the last one.
pub proof fn law_actions_tell_their_replies(t: Tile, event: TileEvent, reply: TileEvent)
    requires
        t.wf(),
        answers(t, event),
    ensures
        answers(tile_step(t, event).0, reply) <==> replies(tile_step(t, event).1, reply),
{
    match t.phase {
        Phase::Start => {
            lemma_begin_replies(t, reply);
        },
        Phase::Whole { cfl } => {
            let s = t.whole_coded(cfl, event->BlockCoded_u, event->BlockCoded_v);
            lemma_next_op_replies(s, 0, reply);
        },
        Phase::Rect { next } => {
            lemma_next_op_replies(t, next, reply);
        },
        Phase::Leaf { next } => {
            let s = t.leaf_coded(next, event->LeafCoded_u, event->LeafCoded_v, event->cfl);
            lemma_next_op_replies(s, next, reply);
        },
        _ => {},
    }
}

// ---------------------------------------------------------------------------
// What is decided
// ---------------------------------------------------------------------------

/// A frame is lossless exactly where its index is 0, and else cut into the tiles that
/// its width and its height allow of those asked for, columns and rows each by their
/// own side.
pub proof fn law_frame_routes(s: Setup, width: nat, height: nat)
    ensures
        ({
            let (c, l) = (
                tiling::tile_exponent(s.tune.tile_cols as nat, width),
                tiling::tile_exponent(s.tune.tile_rows as nat, height),
            );
            let r = frame_route(s, width, height);
            &&& r == FrameRoute::Lossless <==> s.base_q_idx == 0
            &&& s.base_q_idx > 0 && c == 0 && l == 0 ==> r == FrameRoute::Single
            &&& s.base_q_idx > 0 && (c > 0 || l > 0) ==> r == (FrameRoute::Tiled {
                log2c: c as usize,
                log2r: l as usize,
            })
        }),
{
}

/// A superblock is whole where its 64 columns lie in the width and its 64 rows in the
/// height. One that is not is walked where the frame needs partitions; a whole one may
/// be split where that is on, up to index 97; and all others are coded whole.
pub proof fn law_superblock_routes(
    row: int,
    col: int,
    width: int,
    height: int,
    needs_partition: bool,
    chroma_split: bool,
    q: u8,
)
    ensures
        ({
            let whole = whole_in_frame(64 * row, 64 * col, width, height);
            let r = route_of(whole, needs_partition, chroma_split, q);
            &&& whole <==> 64 * (row + 1) <= height && 64 * (col + 1) <= width
            &&& r == SbRoute::Walk <==> needs_partition && !whole
            &&& r == SbRoute::MaySplit <==> whole && chroma_split && q <= 97
        }),
{
}

/// Partitions of luma that are tried: the fourfold ones only in whole superblocks, the
/// vertical one by three of the ways to choose and the horizontal one by two.
pub proof fn law_partitions_that_are_tried(txpart: TxPart, whole: bool)
    ensures
        !whole ==> !tries_vert4(txpart, whole) && !tries_horz4(txpart, whole),
        tries_vert4(TxPart::ThreeWay, true) && tries_horz4(TxPart::ThreeWay, true),
        tries_vert4(TxPart::Rd2, true) && !tries_horz4(TxPart::Rd2, true),
        tries_vert4(TxPart::Vert4, true) && !tries_horz4(TxPart::Vert4, true),
        !tries_vert4(TxPart::Horz4, true) && tries_horz4(TxPart::Horz4, true),
        !tries_vert4(TxPart::Split, true) && !tries_horz4(TxPart::Split, true),
        luma_after(txpart, whole, LumaPart::Split) == if tries_vert4(txpart, whole) {
            Some(LumaPart::Vert4)
        } else if tries_horz4(txpart, whole) {
            Some(LumaPart::Horz4)
        } else {
            None
        },
        luma_after(txpart, whole, LumaPart::Vert4) == if tries_horz4(txpart, whole) {
            Some(LumaPart::Horz4)
        } else {
            None
        },
        luma_after(txpart, whole, LumaPart::Horz4) is None,
{
}

/// Of three costs the kept partition has the least, and of equal ones it is the split
/// before the vertical and that before the horizontal one.
pub proof fn law_kept_partition_costs_least(split: u64, vert: u64, horz: u64)
    ensures
        ({
            let kept = kept_part(TxPart::ThreeWay, true, vert < split, horz < split, horz < vert);
            &&& kept == LumaPart::Split ==> split <= vert && split <= horz
            &&& kept == LumaPart::Vert4 ==> vert < split && vert <= horz
            &&& kept == LumaPart::Horz4 ==> horz < split && horz < vert
        }),
{
}

/// Chroma modes that are tried: at the fastest speed the flat, the smooth, PAETH and
/// the two straight ones, and else all, but the slanted ones only where directions are
/// allowed.
pub proof fn law_chroma_modes_that_are_tried(reduced: bool, directional: bool, mode: usize)
    ensures
        chroma_modes(reduced, directional).contains(mode) <==> if reduced {
            mode == 0 || mode == 1 || mode == 4 || mode == 5 || mode == 6
        } else if directional {
            mode <= 12
        } else {
            mode <= 6
        },
        chroma_modes(reduced, directional)[0] == 0,
{
    let m = chroma_modes(reduced, directional);
    if reduced {
        assert(m[0] == 0 && m[1] == 1 && m[2] == 4 && m[3] == 5 && m[4] == 6);
    } else if mode < m.len() {
        assert(m[mode as int] == mode);
    }
}

/// What a leaf is coded with: 32x32 transforms, and a search of modes, where both
/// sides have at least 32 pixels, and else one transform of its own size; two forms
/// of it on the longest leaves and four on 16x16; and chroma of its own size.
pub proof fn law_leaf_plans(bw: int, bh: int)
    requires
        lossy_leaf(bw, bh),
    ensures
        ({
            let p = plan_of(bw, bh);
            let (w, h) = (4 * bw, 4 * bh);
            &&& p.chroma_w == w && p.chroma_h == h
            &&& w >= 32 && h >= 32 ==> p.tx_w == 32 && p.tx_h == 32 && p.mode_search
            &&& w < 32 || h < 32 ==> p.tx_w == w && p.tx_h == h && p.tus == 1 && !p.mode_search
            &&& p.halves <==> (w == 16 && h == 64) || (w == 64 && h == 16)
            &&& p.tx_types <==> w == 16 && h == 16
            &&& form_count(p) == if p.halves {
                2int
            } else if p.tx_types {
                4
            } else {
                1
            }
        }),
{
}

/// A tile is planned with the options of its encoder: chroma from luma, with or
/// without neighbors, and changes of the quantizer only where the frame is lossy,
/// fewer modes only at the fastest speed, and the units of its own size where it is coded at that,
/// else of the padded size.
pub proof fn law_tile_plans(s: Setup, width: usize, height: usize, directional: bool)
    requires
        1 <= width <= 16383,
        1 <= height <= 16383,
    ensures
        ({
            let p = tile_plan(s, width, height, directional);
            let (cols, rows) = ((width + 63) / 64, (height + 63) / 64);
            let native = frame::native_extent(width as int, height as int);
            &&& p.width == width && p.height == height
            &&& p.sb_cols == cols && p.sb_rows == rows
            &&& native is None ==> p.mi_cols == 16 * cols && p.mi_rows == 16 * rows
            &&& native matches Some((c, r)) ==> p.mi_cols == c && p.mi_rows == r
            &&& p.base_q_idx == s.base_q_idx
            &&& p.chroma_split == s.tune.chroma_split
            &&& p.txpart == s.tune.txpart
            &&& p.cfl <==> s.tune.cfl && s.base_q_idx > 0
            &&& p.mhccp <==> s.tune.mhccp && s.base_q_idx > 0
            &&& p.delta_q <==> s.tune.aq && s.base_q_idx > 0
            &&& p.mode_search == s.tune.chroma_mode_search
            &&& p.reduced <==> s.speed == Speed::Fast
            &&& p.directional == directional
        }),
{
}

/// A superblock is coded whole at its own place, with what it sees of its neighbors,
/// with chroma from luma exactly where that won, and else with the mode that cost
/// least so far.
pub proof fn law_whole_superblocks_take_what_won(
    t: Tile,
    part: LumaPart,
    index: usize,
    mode: usize,
    key: u64,
    cost: u64,
)
    requires
        t.wf(),
        t.row < t.plan.sb_rows,
        index < t.plan.modes().len(),
    ensures
        ({
            let a = tile_step(
                Tile { phase: Phase::WholeCfl { part }, ..t },
                TileEvent::CflWins(true),
            ).1;
            a matches TileAction::CodeWhole { at, part: p, cfl, uv_mode, nb, delta_q, .. } && at.y
                == 64 * t.row && at.x == 64 * t.col && p == part && cfl && uv_mode == 0 && nb
                == t.marks.seen(16 * t.row, 16 * t.col, 16, 16) && delta_q == t.delta_q
        }),
        index + 1 == t.plan.modes().len() ==> {
            let a = tile_step(
                Tile { phase: Phase::ModeCost { part, index, mode, key }, ..t },
                TileEvent::Cost(cost),
            ).1;
            a matches TileAction::CodeWhole { at, part: p, cfl, uv_mode, .. } && at.y == 64 * t.row
                && at.x == 64 * t.col && p == part && !cfl && uv_mode == if cost < key {
                t.plan.modes()[index as int]
            } else {
                mode
            }
        },
        index + 1 < t.plan.modes().len() ==> {
            let next = tile_step(
                Tile { phase: Phase::ModeCost { part, index, mode, key }, ..t },
                TileEvent::Cost(cost),
            );
            &&& next.1 matches TileAction::CostMode { mode: m, .. } && m == t.plan.modes()[index
                + 1]
            &&& next.0.phase matches Phase::ModeCost { key: k, .. } && k == if cost < key {
                cost
            } else {
                key
            }
        },
{
}

/// A coded superblock leaves its marks in all its units, and the next one starts in
/// the next column, or in the first of the next row.
pub proof fn law_coded_superblocks_leave_their_marks(t: Tile, cfl: bool, u: bool, v: bool)
    requires
        t.wf(),
        t.row < t.plan.sb_rows,
    ensures
        ({
            let n = tile_step(
                Tile { phase: Phase::Whole { cfl }, ..t },
                TileEvent::BlockCoded { u, v },
            ).0;
            &&& n.marks == t.marks.noted(16 * t.row, 16 * t.col, 16, 16, u, v, cfl)
            &&& t.col + 1 < t.plan.sb_cols ==> n.row == t.row && n.col == t.col + 1
            &&& t.col + 1 >= t.plan.sb_cols ==> n.row == t.row + 1 && n.col == 0
        }),
{
}

/// A leaf is coded at its own place and size, in the form that cost least, with
/// chroma from luma exactly where that won, and with what it sees of its neighbors;
/// luma with neighbors is tried only on leaves of less than 64 pixels a side that are
/// no quarters. Then it leaves its marks in its units and no further change of the
/// quantizer.
pub proof fn law_leaves_take_what_won(
    t: Tile,
    k: usize,
    form: usize,
    wins: bool,
    u: bool,
    v: bool,
    cfl: bool,
)
    requires
        t.wf(),
        t.op_wf(k),
        t.ops[k as int] is Leaf,
    ensures
        ({
            let op = t.ops[k as int];
            let (row, col) = (op->mi_row as int, op->mi_col as int);
            let (bw, bh) = (op->bw_mi as int, op->bh_mi as int);
            let a = tile_step(
                Tile { phase: Phase::LeafCfl { next: k, form }, ..t },
                TileEvent::CflWins(wins),
            ).1;
            &&& a matches TileAction::CodeLeaf {
                at,
                plan,
                form: f,
                cfl: c,
                mhccp,
                quarter,
                delta_q,
                nb,
                ..
            } && at.y == 4 * row && at.x == 4 * col && plan.chroma_w == 4 * bw && plan.chroma_h == 4
                * bh && f == form && c == wins && (mhccp <==> t.plan.mhccp && bw < 16 && bh < 16
                && !t.quarters) && quarter == t.quarters && delta_q == t.delta_q && nb
                == t.marks.seen(row, col, bw, bh)
            &&& t.leaf_coded(k, u, v, cfl).marks == t.marks.noted(row, col, bw, bh, u, v, cfl)
            &&& !t.leaf_coded(k, u, v, cfl).delta_q
        }),
{
    assert(ops_fit(t.ops, t.row, t.col));
    let op = t.ops[k as int];
    assert(lossy_leaf(op->bw_mi as int, op->bh_mi as int));
}

/// The quarters of a superblock are coded only after its split won, and it is coded
/// whole where the split lost.
pub proof fn law_split_superblocks_code_their_quarters(t: Tile)
    requires
        t.wf(),
        t.phase == Phase::Split,
    ensures
        tile_step(t, TileEvent::SplitWins(true)).1 matches TileAction::CodeSplit { at, .. } && at.y
            == 64 * t.row && at.x == 64 * t.col,
        tile_step(t, TileEvent::SplitWins(true)).0.phase == Phase::SplitFlag,
        tile_step(t, TileEvent::SplitWins(false)).1 == (TileAction::CostLuma {
            at: t.at(),
            part: LumaPart::Split,
        }),
{
}

/// Tiles are cut out of each plane at their own place.
pub proof fn law_tiles_hold_their_samples(
    jobs: Seq<TileJob>,
    y: Seq<u16>,
    u: Seq<u16>,
    v: Seq<u16>,
    width: nat,
    height: nat,
    log2c: nat,
    log2r: nat,
    i: int,
    r: int,
    c: int,
)
    requires
        are_tile_jobs(jobs, y, u, v, width, height, log2c, log2r),
        0 <= i < jobs.len(),
        0 <= r < jobs[i].th,
        0 <= c < jobs[i].tw,
    ensures
        ({
            let job = jobs[i];
            let (x0, y0, tw, th) = tiling::tile_rect(width, height, log2c, log2r, i);
            let (at, from) = (r * job.tw + c, (y0 + r) * width + x0 + c);
            &&& job.x0 == x0 && job.y0 == y0 && job.tw == tw && job.th == th
            &&& job.y@[at] == y[from]
            &&& job.u@[at] == u[from]
            &&& job.v@[at] == v[from]
        }),
{
    let job = jobs[i];
    let (x0, y0, tw, th) = tiling::tile_rect(width, height, log2c, log2r, i);
    assert(is_tile_job(job, y, u, v, width, (x0, y0, tw, th)));
    plane::law_rect_is_read_by_rows(
        y,
        width,
        y0 as nat,
        x0 as nat,
        tw as nat,
        th as nat,
        r,
        c,
    );
    plane::law_rect_is_read_by_rows(
        u,
        width,
        y0 as nat,
        x0 as nat,
        tw as nat,
        th as nat,
        r,
        c,
    );
    plane::law_rect_is_read_by_rows(
        v,
        width,
        y0 as nat,
        x0 as nat,
        tw as nat,
        th as nat,
        r,
        c,
    );
}

/// The flat chroma mode costs nothing to name and every other one two bits.
pub proof fn law_chroma_modes_cost_their_bits(t: Tile, part: LumaPart, index: usize)
    requires
        index < t.plan.modes().len(),
    ensures
        t.cost_mode(part, index, 0, u64::MAX).1 matches TileAction::CostMode { at, mode, bits }
            && at.y == (64 * t.row) as usize && at.x == (64 * t.col) as usize && mode
            == t.plan.modes()[index as int] && bits == (if mode == 0 {
            0int
        } else {
            2
        }),
{
}

/// After its luma a superblock tries chroma from luma where the tile has it, then the
/// modes where they are searched, and else takes the flat one.
pub proof fn law_chroma_is_tried_in_turn(t: Tile, part: LumaPart)
    requires
        t.wf(),
        t.row < t.plan.sb_rows,
    ensures
        t.plan.cfl ==> t.luma_done(part).1 == (TileAction::CostCfl { at: t.at() })
            && t.luma_done(part).0.phase == (Phase::WholeCfl { part }),
        !t.plan.cfl && t.plan.mode_search ==> t.luma_done(part).1 is CostMode
            && t.luma_done(part).0.phase == (Phase::ModeCost {
            part,
            index: 0,
            mode: 0,
            key: u64::MAX,
        }),
        !t.plan.cfl && !t.plan.mode_search ==> (t.luma_done(part).1 matches TileAction::CodeWhole {
            part: p,
            cfl,
            uv_mode,
            ..
        } && p == part && !cfl && uv_mode == 0),
        t.at().y == 64 * t.row && t.at().x == 64 * t.col,
{
}

/// Leaves try chroma from luma only where they fill a superblock and the tile has it,
/// and leaves with several forms try each, from the first.
pub proof fn law_leaves_try_what_they_may(t: Tile, k: usize, form: usize)
    requires
        t.wf(),
        t.op_wf(k),
        t.ops[k as int] is Leaf,
    ensures
        ({
            let op = t.ops[k as int];
            let (bw, bh) = (op->bw_mi as int, op->bh_mi as int);
            let several = (bw == 4 && (bh == 4 || bh == 16)) || (bw == 16 && bh == 4);
            &&& t.leaf_chroma(k, form).1 is CostCfl <==> t.plan.cfl && bw == 16 && bh == 16
            &&& t.leaf_chroma(k, form).1 is CodeLeaf <==> !(t.plan.cfl && bw == 16 && bh == 16)
            &&& several ==> (t.open_op(k).1 matches TileAction::CostLeaf { at, form: f, .. } && f
                == 0 && at.y == 4 * op->mi_row && at.x == 4 * op->mi_col)
            &&& !several ==> t.open_op(k) == t.leaf_chroma(k, 0)
        }),
{
    assert(ops_fit(t.ops, t.row, t.col));
    let op = t.ops[k as int];
    assert(lossy_leaf(op->bw_mi as int, op->bh_mi as int));
}

/// Going on to the next superblock keeps the partition contexts in a row of them and
/// clears those to the left in a new one; every superblock starts with its change of
/// the quantizer due where the tile has them.
pub proof fn law_rows_of_superblocks_start_anew(t: Tile)
    requires
        t.wf(),
        t.row < t.plan.sb_rows,
        !t.plan.needs_partition,
    ensures
        ({
            let n = t.advance().0;
            &&& n.above == t.above
            &&& t.col + 1 < t.plan.sb_cols ==> n.left == t.left
            &&& t.col + 1 >= t.plan.sb_cols ==> n.left.len() == 16 && forall|i: int|
                0 <= i < 16 ==> #[trigger] n.left[i] == 0
            &&& n.delta_q == t.plan.delta_q
            &&& n.marks == t.marks
        }),
{
}

} // verus!
