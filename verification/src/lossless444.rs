//! Lossless 4:4:4 frames: residuals of the 4x4 blocks, and the coding order of
//! a frame with the contexts of every block.

use crate::contexts;
use crate::contexts::{sb_tu4_chroma_skip, sb_tu4_contexts, stored_level_of, Coeff};
use crate::dcpred;
use crate::dcpred::dc_pred;
use crate::encoder;
use crate::encoder::Av2Encoder;
use crate::frame;
use crate::frame::mi_extent;
use crate::headers::Config;
use crate::layout::Layout;
use crate::partition;
use crate::partition::{sb_partition_ops, Op};
use crate::plane;
use crate::simple;
use crate::simple::{validate_dims, EncodeError, PlanarImage};
use vstd::prelude::*;

verus! {

// ---------------------------------------------------------------------------
// Residuals
// ---------------------------------------------------------------------------

/// Residual of sample `k` of a 4x4 block against its DC prediction. A lossless
/// reconstruction is the source, so the source predicts itself.
pub open spec fn residual4(src: Seq<u16>, pw: int, y: int, x: int, neutral: u16, k: int) -> int {
    src[(y + k / 4) * pw + x + k % 4] - dcpred::dc_value(src, pw, y, x, 4, neutral, 4, 4)
}

/// Residuals of one 4x4 block.
fn block_residual(src: &[u16], pw: usize, y: usize, x: usize, neutral: u16) -> (r: [i32; 16])
    requires
        pw >= 4,
        x + 4 <= pw,
        (y + 4) * pw <= src@.len(),
    ensures
        forall|k: int|
            0 <= k < 16 ==> #[trigger] r@[k] == residual4(
                src@,
                pw as int,
                y as int,
                x as int,
                neutral,
                k,
            ),
{
    let len: usize = src.len();
    proof {
        let (yy, w) = (y as int, pw as int);
        assert((yy + 4) * w == yy * w + 4 * w) by (nonlinear_arith);
        assert((yy + 3) * w == yy * w + 3 * w) by (nonlinear_arith);
        assert((yy - 1) * w == yy * w - w) by (nonlinear_arith);
        assert(yy * w >= 0) by (nonlinear_arith)
            requires
                yy >= 0,
                w >= 0,
        ;
    }
    let pred: u16 = dc_pred(src, pw, y, x, 4, neutral);
    let mut r: [i32; 16] = [0; 16];
    let mut k: usize = 0;
    while k < 16
        invariant
            k <= 16,
            pw >= 4,
            x + 4 <= pw,
            (y + 4) * pw <= len,
            len == src@.len(),
            pred == dcpred::dc_value(src@, pw as int, y as int, x as int, 4, neutral, 4, 4),
            forall|j: int|
                0 <= j < k ==> #[trigger] r@[j] == residual4(
                    src@,
                    pw as int,
                    y as int,
                    x as int,
                    neutral,
                    j,
                ),
        decreases 16 - k,
    {
        proof {
            let (yy, w, i) = (y as int, pw as int, k as int / 4);
            assert((yy + i) * w + w <= (yy + 4) * w) by (nonlinear_arith)
                requires
                    i <= 3,
                    w >= 0,
            ;
            assert((yy + i) * w >= 0) by (nonlinear_arith)
                requires
                    yy >= 0,
                    i >= 0,
                    w >= 0,
            ;
            assert(yy + i <= (yy + i) * w) by (nonlinear_arith)
                requires
                    yy >= 0,
                    i >= 0,
                    w >= 1,
            ;
        }
        r[k] = src[(y + k / 4) * pw + x + k % 4] as i32 - pred as i32;
        k = k + 1;
    }
    r
}

/// Residual of sample `k` of block `i` of a superblock whose part in the frame is
/// `cols` blocks wide.
pub open spec fn sb_residual(
    src: Seq<u16>,
    pw: int,
    sb_y: int,
    sb_x: int,
    neutral: u16,
    cols: int,
    i: int,
    k: int,
) -> int {
    residual4(src, pw, sb_y + 4 * (i / cols), sb_x + 4 * (i % cols), neutral, k)
}

/// Residuals of the 4x4 blocks of a superblock, in raster order of the part
/// that lies in the frame.
pub fn lossless_sb_residuals(
    src: &[u16],
    pw: usize,
    sb_y: usize,
    sb_x: usize,
    neutral: u16,
    rem_rows: usize,
    rem_cols: usize,
) -> (out: Vec<[i32; 16]>)
    requires
        1 <= rem_rows <= 16,
        1 <= rem_cols <= 16,
        sb_x + 4 * rem_cols <= pw,
        (sb_y + 4 * rem_rows) * pw <= src@.len(),
    ensures
        out@.len() == rem_rows * rem_cols,
        forall|i: int, k: int|
            0 <= i < out@.len() && 0 <= k < 16 ==> #[trigger] out@[i]@[k] == sb_residual(
                src@,
                pw as int,
                sb_y as int,
                sb_x as int,
                neutral,
                rem_cols as int,
                i,
                k,
            ),
{
    let len: usize = src.len();
    let n: usize = rem_rows * rem_cols;
    let mut out: Vec<[i32; 16]> = Vec::new();
    let mut i: usize = 0;
    while i < n
        invariant
            i <= n,
            n == rem_rows * rem_cols,
            1 <= rem_rows <= 16,
            1 <= rem_cols <= 16,
            sb_x + 4 * rem_cols <= pw,
            (sb_y + 4 * rem_rows) * pw <= len,
            len == src@.len(),
            out@.len() == i,
            forall|j: int, k: int|
                0 <= j < i && 0 <= k < 16 ==> #[trigger] out@[j]@[k] == residual4(
                    src@,
                    pw as int,
                    sb_y + 4 * (j / rem_cols as int),
                    sb_x + 4 * (j % rem_cols as int),
                    neutral,
                    k,
                ),
        decreases n - i,
    {
        proof {
            assert(rem_rows * rem_cols == rem_cols * rem_rows) by (nonlinear_arith);
            plane::lemma_block_pos(i as int, rem_cols as int, rem_rows as int);
            let (by, yy, w) = (i as int / rem_cols as int, sb_y as int, pw as int);
            assert((yy + 4 * by + 4) * w <= (yy + 4 * rem_rows) * w) by (nonlinear_arith)
                requires
                    by + 1 <= rem_rows,
                    w >= 0,
            ;
            assert(yy + 4 * rem_rows <= (yy + 4 * rem_rows) * w) by (nonlinear_arith)
                requires
                    yy >= 0,
                    rem_rows >= 0,
                    w >= 1,
            ;
        }
        let y: usize = sb_y + 4 * (i / rem_cols);
        let x: usize = sb_x + 4 * (i % rem_cols);
        out.push(block_residual(src, pw, y, x, neutral));
        i = i + 1;
    }
    out
}

// ---------------------------------------------------------------------------
// Coding order
// ---------------------------------------------------------------------------

/// Coefficients of the 4x4 blocks of a superblock, per plane, in raster order of
/// the part that lies in the frame.
#[derive(Debug)]
pub struct SbTus {
    pub y: Vec<Vec<Coeff>>,
    pub u: Vec<Vec<Coeff>>,
    pub v: Vec<Vec<Coeff>>,
}

/// The coefficients of a superblock.
pub struct SbModel {
    pub y: Seq<Seq<Coeff>>,
    pub u: Seq<Seq<Coeff>>,
    pub v: Seq<Seq<Coeff>>,
}

impl View for SbTus {
    type V = SbModel;

    open spec fn view(&self) -> SbModel {
        SbModel {
            y: contexts::tu_views(self.y@),
            u: contexts::tu_views(self.u@),
            v: contexts::tu_views(self.v@),
        }
    }
}

/// Context rows of the three planes.
#[derive(Debug)]
pub struct ContextRows {
    pub y_above: Vec<u8>,
    pub y_left: Vec<u8>,
    pub u_above: Vec<u8>,
    pub u_left: Vec<u8>,
    pub v_above: Vec<u8>,
    pub v_left: Vec<u8>,
}

/// Contexts of the three planes.
pub struct Grids {
    pub y: contexts::Neighbors,
    pub u: contexts::Neighbors,
    pub v: contexts::Neighbors,
}

impl View for ContextRows {
    type V = Grids;

    open spec fn view(&self) -> Grids {
        Grids {
            y: contexts::Neighbors { above: self.y_above@, left: self.y_left@ },
            u: contexts::Neighbors { above: self.u_above@, left: self.u_left@ },
            v: contexts::Neighbors { above: self.v_above@, left: self.v_left@ },
        }
    }
}

/// A block to code: its split flag, then the luma, U and V coefficients with
/// the contexts of their skip flags and luma signs.
#[derive(Debug)]
pub struct LeafStep {
    pub part_cdf: Option<u32>,
    pub y: Vec<Vec<Coeff>>,
    pub y_skip: Vec<usize>,
    pub y_sign: Vec<usize>,
    pub u: Vec<Vec<Coeff>>,
    pub u_skip: Vec<usize>,
    pub v: Vec<Vec<Coeff>>,
    pub v_skip: Vec<usize>,
}

/// What is coded of a block.
#[verifier::ext_equal]
pub struct LeafModel {
    pub part_cdf: Option<u32>,
    pub y: Seq<Seq<Coeff>>,
    pub y_skip: Seq<usize>,
    pub y_sign: Seq<usize>,
    pub u: Seq<Seq<Coeff>>,
    pub u_skip: Seq<usize>,
    pub v: Seq<Seq<Coeff>>,
    pub v_skip: Seq<usize>,
}

impl View for LeafStep {
    type V = LeafModel;

    open spec fn view(&self) -> LeafModel {
        LeafModel {
            part_cdf: self.part_cdf,
            y: contexts::tu_views(self.y@),
            y_skip: self.y_skip@,
            y_sign: self.y_sign@,
            u: contexts::tu_views(self.u@),
            u_skip: self.u_skip@,
            v: contexts::tu_views(self.v@),
            v_skip: self.v_skip@,
        }
    }
}

/// A syntax element of a frame, in coding order.
#[derive(Debug)]
pub enum Step {
    RectType { cdf: u32, val: u32 },
    Leaf(LeafStep),
}

/// What a syntax element is.
pub enum StepModel {
    RectType { cdf: u32, val: u32 },
    Leaf(LeafModel),
}

impl View for Step {
    type V = StepModel;

    open spec fn view(&self) -> StepModel {
        match *self {
            Step::RectType { cdf, val } => StepModel::RectType { cdf, val },
            Step::Leaf(leaf) => StepModel::Leaf(leaf@),
        }
    }
}

/// What a list of steps is.
pub open spec fn step_views(steps: Seq<Step>) -> Seq<StepModel> {
    steps.map_values(|s: Step| s@)
}

/// A superblock in a frame: its position, and the units of it that lie in the
/// frame.
pub struct Place {
    pub row: int,
    pub col: int,
    pub rr: int,
    pub rc: int,
}

/// The superblock at a position of a frame.
pub open spec fn place_at(row: int, col: int, mi_rows: int, mi_cols: int) -> Place {
    Place {
        row,
        col,
        rr: plane::least(mi_rows - 16 * row, 16),
        rc: plane::least(mi_cols - 16 * col, 16),
    }
}

/// A leaf of a superblock: position and size in units, clipped to the frame.
pub struct LeafArea {
    /// Position in the superblock.
    pub lr: int,
    pub lc: int,
    pub rows: int,
    pub cols: int,
}

/// The part of a leaf that lies in the frame.
pub open spec fn leaf_area(p: Place, mi_row: int, mi_col: int, bw: int, bh: int) -> LeafArea {
    let lr = mi_row - 16 * p.row;
    let lc = mi_col - 16 * p.col;
    LeafArea {
        lr,
        lc,
        rows: plane::least(bh, p.rr - lr),
        cols: plane::least(bw, p.rc - lc),
    }
}

/// The blocks of a leaf, out of those of its superblock.
pub open spec fn leaf_blocks(tus: Seq<Seq<Coeff>>, rc: int, a: LeafArea) -> Seq<Seq<Coeff>> {
    Seq::new(
        (a.rows * a.cols) as nat,
        |i: int| tus[(a.lr + i / a.cols) * rc + a.lc + i % a.cols],
    )
}

/// Cells of the blocks of a leaf.
pub open spec fn leaf_cells(p: Place, a: LeafArea) -> spec_fn(int) -> contexts::Cell {
    contexts::cells4(64 * p.row + 4 * a.lr, 64 * p.col + 4 * a.lc, a.cols)
}

/// Whether the last block of a list has levels.
pub open spec fn last_has_levels(tus: Seq<Seq<Coeff>>) -> bool {
    tus.len() > 0 && contexts::level_sum(tus.last()) > 0
}

/// What is coded of a leaf.
pub open spec fn leaf_model(
    g: Grids,
    sb: SbModel,
    p: Place,
    a: LeafArea,
    part_cdf: Option<u32>,
) -> LeafModel {
    let n = (a.rows * a.cols) as nat;
    let cells = leaf_cells(p, a);
    let y = leaf_blocks(sb.y, p.rc, a);
    let u = leaf_blocks(sb.u, p.rc, a);
    let v = leaf_blocks(sb.v, p.rc, a);
    let u_last = last_has_levels(u);
    LeafModel {
        part_cdf,
        y,
        y_skip: Seq::new(
            n,
            |i: int|
                contexts::skip_context(
                    contexts::after_blocks(g.y, y, cells, i as nat),
                    cells(i),
                ) as usize,
        ),
        y_sign: Seq::new(
            n,
            |i: int|
                contexts::sign_context(
                    contexts::after_blocks(g.y, y, cells, i as nat),
                    cells(i),
                ) as usize,
        ),
        u,
        u_skip: Seq::new(
            n,
            |i: int|
                contexts::chroma_skip(
                    contexts::after_chroma(g.u, u, cells, i as nat),
                    cells(i),
                    false,
                    false,
                ) as usize,
        ),
        v,
        v_skip: Seq::new(
            n,
            |i: int|
                contexts::chroma_skip(
                    contexts::after_chroma(g.v, v, cells, i as nat),
                    cells(i),
                    true,
                    u_last,
                ) as usize,
        ),
    }
}

/// The contexts after a leaf.
pub open spec fn leaf_grids(g: Grids, sb: SbModel, p: Place, a: LeafArea) -> Grids {
    let n = (a.rows * a.cols) as nat;
    let cells = leaf_cells(p, a);
    Grids {
        y: contexts::after_blocks(g.y, leaf_blocks(sb.y, p.rc, a), cells, n),
        u: contexts::after_chroma(g.u, leaf_blocks(sb.u, p.rc, a), cells, n),
        v: contexts::after_chroma(g.v, leaf_blocks(sb.v, p.rc, a), cells, n),
    }
}

/// The contexts after one element of the partition.
pub open spec fn op_grids(g: Grids, sb: SbModel, p: Place, op: Op) -> Grids {
    match op {
        Op::RectType { .. } => g,
        Op::Leaf { mi_row, mi_col, bw_mi, bh_mi, .. } => leaf_grids(
            g,
            sb,
            p,
            leaf_area(p, mi_row as int, mi_col as int, bw_mi as int, bh_mi as int),
        ),
    }
}

/// What is coded for one element of the partition.
pub open spec fn op_step(g: Grids, sb: SbModel, p: Place, op: Op) -> StepModel {
    match op {
        Op::RectType { cdf, val } => StepModel::RectType { cdf, val },
        Op::Leaf { mi_row, mi_col, bw_mi, bh_mi, part_cdf } => StepModel::Leaf(
            leaf_model(
                g,
                sb,
                p,
                leaf_area(p, mi_row as int, mi_col as int, bw_mi as int, bh_mi as int),
                part_cdf,
            ),
        ),
    }
}

/// The contexts after the first `k` elements of a superblock.
pub open spec fn grids_after(g: Grids, sb: SbModel, p: Place, ops: Seq<Op>, k: nat) -> Grids
    decreases k,
{
    if k == 0 {
        g
    } else {
        op_grids(grids_after(g, sb, p, ops, (k - 1) as nat), sb, p, ops[k - 1])
    }
}

/// The steps of a superblock.
pub open spec fn sb_steps(g: Grids, sb: SbModel, p: Place, ops: Seq<Op>) -> Seq<StepModel> {
    Seq::new(
        ops.len(),
        |k: int| op_step(grids_after(g, sb, p, ops, k as nat), sb, p, ops[k]),
    )
}

/// State of the coding order between superblocks.
pub struct FrameState {
    pub grids: Grids,
    /// Partition contexts.
    pub above: Seq<u8>,
    pub left: Seq<u8>,
    pub steps: Seq<StepModel>,
}

/// `n` zero bytes.
pub open spec fn zeros(n: nat) -> Seq<u8> {
    Seq::new(n, |i: int| 0u8)
}

/// Contexts at the start of a frame of padded size: luma is neutral, chroma zero.
pub open spec fn initial_grids(pw: nat, ph: nat) -> Grids {
    let (w, h) = ((pw / 4 + 16) as nat, (ph / 4 + 16) as nat);
    Grids {
        y: contexts::Neighbors {
            above: Seq::new(w, |i: int| contexts::NEUTRAL),
            left: Seq::new(h, |i: int| contexts::NEUTRAL),
        },
        u: contexts::Neighbors { above: zeros(w), left: zeros(h) },
        v: contexts::Neighbors { above: zeros(w), left: zeros(h) },
    }
}

/// The state after one superblock. The left partition contexts start anew in
/// each row of superblocks.
pub open spec fn after_sb(
    s: FrameState,
    sb: SbModel,
    row: int,
    col: int,
    mi_rows: int,
    mi_cols: int,
) -> FrameState {
    let left = if col == 0 {
        zeros(16)
    } else {
        s.left
    };
    let w = partition::walked(
        row * 16,
        col * 16,
        12,
        mi_rows,
        mi_cols,
        partition::Walk { above: s.above, left, ops: Seq::empty() },
    );
    let p = place_at(row, col, mi_rows, mi_cols);
    FrameState {
        grids: grids_after(s.grids, sb, p, w.ops, w.ops.len()),
        above: w.above,
        left: w.left,
        steps: s.steps + sb_steps(s.grids, sb, p, w.ops),
    }
}

/// The state after the first `k` superblocks of a frame, in raster order.
pub open spec fn frame_state(width: nat, height: nat, sbs: Seq<SbTus>, k: nat) -> FrameState
    decreases k,
{
    let mi_cols = frame::mi_units(width as int);
    let mi_rows = frame::mi_units(height as int);
    let sb_cols = plane::sb_aligned(width) as int / 64;
    if k == 0 {
        FrameState {
            grids: initial_grids(plane::sb_aligned(width), plane::sb_aligned(height)),
            above: zeros((mi_cols + 16) as nat),
            left: zeros(16),
            steps: Seq::empty(),
        }
    } else {
        after_sb(
            frame_state(width, height, sbs, (k - 1) as nat),
            sbs[k - 1]@,
            (k - 1) / sb_cols,
            (k - 1) % sb_cols,
            mi_rows,
            mi_cols,
        )
    }
}

/// The coding order of a frame.
pub open spec fn frame_steps(width: nat, height: nat, sbs: Seq<SbTus>) -> Seq<StepModel> {
    frame_state(width, height, sbs, sbs.len()).steps
}

/// Every block of a superblock that lies in the frame has its coefficients.
pub open spec fn sb_complete(sb: SbTus, p: Place) -> bool {
    &&& sb.y@.len() == p.rr * p.rc
    &&& sb.u@.len() == p.rr * p.rc
    &&& sb.v@.len() == p.rr * p.rc
}

// ---------------------------------------------------------------------------
// Code
// ---------------------------------------------------------------------------

fn copy_coeffs(tu: &Vec<Coeff>) -> (out: Vec<Coeff>)
    ensures
        out@ == tu@,
{
    let mut out: Vec<Coeff> = Vec::new();
    let mut i: usize = 0;
    while i < tu.len()
        invariant
            i <= tu@.len(),
            out@ == tu@.take(i as int),
        decreases tu@.len() - i,
    {
        out.push(tu[i]);
        i = i + 1;
        assert(tu@.take(i as int) =~= tu@.take(i - 1).push(tu@[i - 1]));
    }
    assert(tu@.take(i as int) =~= tu@);
    out
}

/// Take the blocks of a leaf out of those of its superblock.
fn slice_blocks(
    tus: &Vec<Vec<Coeff>>,
    rr: usize,
    rc: usize,
    lr: usize,
    lc: usize,
    rows: usize,
    cols: usize,
) -> (out: Vec<Vec<Coeff>>)
    requires
        rr <= 16,
        rc <= 16,
        tus@.len() == rr * rc,
        1 <= rows,
        1 <= cols,
        lr + rows <= rr,
        lc + cols <= rc,
    ensures
        out@.len() == rows * cols,
        contexts::tu_views(out@) == leaf_blocks(
            contexts::tu_views(tus@),
            rc as int,
            (LeafArea { lr: lr as int, lc: lc as int, rows: rows as int, cols: cols as int }),
        ),
{
    let ghost a = LeafArea { lr: lr as int, lc: lc as int, rows: rows as int, cols: cols as int };
    assert(rows * cols <= 256) by (nonlinear_arith)
        requires
            rows <= 16,
            cols <= 16,
    ;
    let n: usize = rows * cols;
    let mut out: Vec<Vec<Coeff>> = Vec::new();
    let mut i: usize = 0;
    while i < n
        invariant
            i <= n,
            n == rows * cols,
            rr <= 16,
            rc <= 16,
            tus@.len() == rr * rc,
            1 <= rows,
            1 <= cols,
            lr + rows <= rr,
            lc + cols <= rc,
            out@.len() == i,
            forall|k: int|
                0 <= k < i ==> (#[trigger] out@[k])@ == tus@[(lr + k / cols as int) * rc + lc + k
                    % cols as int]@,
        decreases n - i,
    {
        proof {
            assert(rows * cols == cols * rows) by (nonlinear_arith);
            assert(rr * rc == rc * rr) by (nonlinear_arith);
            plane::lemma_block_pos(i as int, cols as int, rows as int);
            let r = lr + i as int / cols as int;
            let c = lc + i as int % cols as int;
            plane::lemma_in_block(r, c, rc as int, rr as int);
            assert(0 <= r * rc <= 256) by (nonlinear_arith)
                requires
                    0 <= r <= 16,
                    0 <= rc <= 16,
            ;
        }
        let r: usize = lr + i / cols;
        let at: usize = r * rc + lc + i % cols;
        out.push(copy_coeffs(&tus[at]));
        i = i + 1;
    }
    assert(contexts::tu_views(out@) =~= leaf_blocks(contexts::tu_views(tus@), rc as int, a)) by {
        assert forall|k: int| 0 <= k < n implies #[trigger] contexts::tu_views(out@)[k]
            == leaf_blocks(contexts::tu_views(tus@), rc as int, a)[k] by {
            assert(rows * cols == cols * rows) by (nonlinear_arith);
            assert(rr * rc == rc * rr) by (nonlinear_arith);
            plane::lemma_block_pos(k, cols as int, rows as int);
            let r = lr + k / cols as int;
            let c = lc + k % cols as int;
            plane::lemma_in_block(r, c, rc as int, rr as int);
            assert(out@[k]@ == tus@[r * rc + lc + k % cols as int]@);
        }
    }
    out
}

/// The context rows reach over a superblock.
pub open spec fn grids_reach(g: Grids, p: Place) -> bool {
    &&& g.y.above.len() >= 16 * p.col + p.rc
    &&& g.u.above.len() >= 16 * p.col + p.rc
    &&& g.v.above.len() >= 16 * p.col + p.rc
    &&& g.y.left.len() >= 16 * p.row + p.rr
    &&& g.u.left.len() >= 16 * p.row + p.rr
    &&& g.v.left.len() >= 16 * p.row + p.rr
}

/// Rows of two grids have the same lengths.
pub open spec fn same_extent(a: Grids, b: Grids) -> bool {
    &&& a.y.above.len() == b.y.above.len()
    &&& a.u.above.len() == b.u.above.len()
    &&& a.v.above.len() == b.v.above.len()
    &&& a.y.left.len() == b.y.left.len()
    &&& a.u.left.len() == b.u.left.len()
    &&& a.v.left.len() == b.v.left.len()
}

/// Contexts of one leaf.
fn code_leaf(
    rows_of: &mut ContextRows,
    sb: &SbTus,
    row: usize,
    col: usize,
    rr: usize,
    rc: usize,
    lr: usize,
    lc: usize,
    rows: usize,
    cols: usize,
    part_cdf: Option<u32>,
) -> (leaf: LeafStep)
    requires
        rr <= 16,
        rc <= 16,
        64 * row + 64 <= usize::MAX,
        64 * col + 64 <= usize::MAX,
        sb_complete(*sb, (Place { row: row as int, col: col as int, rr: rr as int, rc: rc as int })),
        1 <= rows,
        1 <= cols,
        lr + rows <= rr,
        lc + cols <= rc,
        grids_reach(
            old(rows_of)@,
            (Place { row: row as int, col: col as int, rr: rr as int, rc: rc as int }),
        ),
    ensures
        ({
            let p = Place { row: row as int, col: col as int, rr: rr as int, rc: rc as int };
            let a = LeafArea {
                lr: lr as int,
                lc: lc as int,
                rows: rows as int,
                cols: cols as int,
            };
            &&& leaf@ == leaf_model(old(rows_of)@, sb@, p, a, part_cdf)
            &&& final(rows_of)@ == leaf_grids(old(rows_of)@, sb@, p, a)
            &&& same_extent(old(rows_of)@, final(rows_of)@)
        }),
{
    let ghost g = rows_of@;
    let ghost p = Place { row: row as int, col: col as int, rr: rr as int, rc: rc as int };
    let ghost a = LeafArea { lr: lr as int, lc: lc as int, rows: rows as int, cols: cols as int };
    let y: Vec<Vec<Coeff>> = slice_blocks(&sb.y, rr, rc, lr, lc, rows, cols);
    let u: Vec<Vec<Coeff>> = slice_blocks(&sb.u, rr, rc, lr, lc, rows, cols);
    let v: Vec<Vec<Coeff>> = slice_blocks(&sb.v, rr, rc, lr, lc, rows, cols);
    let ly: usize = 64 * row + 4 * lr;
    let lx: usize = 64 * col + 4 * lc;
    assert(rows * cols >= 1) by (nonlinear_arith)
        requires
            rows >= 1,
            cols >= 1,
    ;
    let (y_skip, y_sign) = sb_tu4_contexts(
        y.as_slice(),
        ly,
        lx,
        &mut rows_of.y_above,
        &mut rows_of.y_left,
        rows,
        cols,
    );
    let u_skip: Vec<usize> = sb_tu4_chroma_skip(
        u.as_slice(),
        ly,
        lx,
        &mut rows_of.u_above,
        &mut rows_of.u_left,
        false,
        false,
        rows,
        cols,
    );
    let u_last: bool = stored_level_of(u[u.len() - 1].as_slice()) > 0;
    let v_skip: Vec<usize> = sb_tu4_chroma_skip(
        v.as_slice(),
        ly,
        lx,
        &mut rows_of.v_above,
        &mut rows_of.v_left,
        true,
        u_last,
        rows,
        cols,
    );
    let leaf = LeafStep { part_cdf, y, y_skip, y_sign, u, u_skip, v, v_skip };
    proof {
        let m = leaf_model(g, sb@, p, a, part_cdf);
        let n = (rows * cols) as nat;
        let cells = leaf_cells(p, a);
        assert(contexts::tu_views(u@).last() == u@.last()@);
        assert(u_last == last_has_levels(m.u));
        assert(leaf@.y == m.y && leaf@.u == m.u && leaf@.v == m.v);
        assert(leaf@.y_skip =~= m.y_skip);
        assert(leaf@.y_sign =~= m.y_sign);
        assert(leaf@.u_skip =~= m.u_skip);
        assert(leaf@.v_skip =~= m.v_skip);
        lemma_blocks_extent(g.y, m.y, cells, n);
        lemma_chroma_extent(g.u, m.u, cells, n);
        lemma_chroma_extent(g.v, m.v, cells, n);
    }
    leaf
}

proof fn lemma_blocks_extent(
    nb: contexts::Neighbors,
    tus: Seq<Seq<Coeff>>,
    cells: spec_fn(int) -> contexts::Cell,
    k: nat,
)
    ensures
        contexts::after_blocks(nb, tus, cells, k).above.len() == nb.above.len(),
        contexts::after_blocks(nb, tus, cells, k).left.len() == nb.left.len(),
    decreases k,
{
    if k > 0 {
        lemma_blocks_extent(nb, tus, cells, (k - 1) as nat);
    }
}

proof fn lemma_chroma_extent(
    nb: contexts::Neighbors,
    tus: Seq<Seq<Coeff>>,
    cells: spec_fn(int) -> contexts::Cell,
    k: nat,
)
    ensures
        contexts::after_chroma(nb, tus, cells, k).above.len() == nb.above.len(),
        contexts::after_chroma(nb, tus, cells, k).left.len() == nb.left.len(),
    decreases k,
{
    if k > 0 {
        lemma_chroma_extent(nb, tus, cells, (k - 1) as nat);
    }
}

/// The leaves of a list lie in a superblock and start in the frame.
pub open spec fn leaves_inside(ops: Seq<Op>, p: Place) -> bool {
    forall|k: int|
        0 <= k < ops.len() ==> (#[trigger] ops[k] matches Op::Leaf {
            mi_row,
            mi_col,
            bw_mi,
            bh_mi,
            ..
        } ==> {
            &&& 16 * p.row <= mi_row < 16 * p.row + p.rr
            &&& 16 * p.col <= mi_col < 16 * p.col + p.rc
            &&& bw_mi >= 1
            &&& bh_mi >= 1
        })
}

/// Steps of one superblock.
fn code_sb(
    rows_of: &mut ContextRows,
    sb: &SbTus,
    row: usize,
    col: usize,
    rr: usize,
    rc: usize,
    ops: &Vec<Op>,
    steps: &mut Vec<Step>,
)
    requires
        1 <= rr <= 16,
        1 <= rc <= 16,
        64 * row + 64 <= usize::MAX,
        64 * col + 64 <= usize::MAX,
        sb_complete(*sb, (Place { row: row as int, col: col as int, rr: rr as int, rc: rc as int })),
        grids_reach(
            old(rows_of)@,
            (Place { row: row as int, col: col as int, rr: rr as int, rc: rc as int }),
        ),
        leaves_inside(
            ops@,
            (Place { row: row as int, col: col as int, rr: rr as int, rc: rc as int }),
        ),
    ensures
        ({
            let p = Place { row: row as int, col: col as int, rr: rr as int, rc: rc as int };
            &&& step_views(final(steps)@) == step_views(old(steps)@) + sb_steps(
                old(rows_of)@,
                sb@,
                p,
                ops@,
            )
            &&& final(rows_of)@ == grids_after(old(rows_of)@, sb@, p, ops@, ops@.len())
            &&& same_extent(old(rows_of)@, final(rows_of)@)
        }),
{
    let ghost g = rows_of@;
    let ghost p = Place { row: row as int, col: col as int, rr: rr as int, rc: rc as int };
    let ghost before = step_views(steps@);
    let ghost model = sb_steps(g, sb@, p, ops@);
    let mut k: usize = 0;
    assert(model.take(0) =~= Seq::<StepModel>::empty());
    assert(before =~= before + model.take(0));
    while k < ops.len()
        invariant
            k <= ops@.len(),
            1 <= rr <= 16,
            1 <= rc <= 16,
            64 * row + 64 <= usize::MAX,
            64 * col + 64 <= usize::MAX,
            p == (Place { row: row as int, col: col as int, rr: rr as int, rc: rc as int }),
            sb_complete(*sb, p),
            grids_reach(g, p),
            leaves_inside(ops@, p),
            same_extent(g, rows_of@),
            model == sb_steps(g, sb@, p, ops@),
            rows_of@ == grids_after(g, sb@, p, ops@, k as nat),
            step_views(steps@) == before + model.take(k as int),
        decreases ops@.len() - k,
    {
        let op = ops[k];
        assert(ops@[k as int] == op);
        let ghost now = rows_of@;
        let ghost steps0 = steps@;
        let step = match op {
            Op::RectType { cdf, val } => Step::RectType { cdf, val },
            Op::Leaf { mi_row, mi_col, bw_mi, bh_mi, part_cdf } => {
                let lr: usize = mi_row - 16 * row;
                let lc: usize = mi_col - 16 * col;
                let rows: usize = if bh_mi < rr - lr {
                    bh_mi
                } else {
                    rr - lr
                };
                let cols: usize = if bw_mi < rc - lc {
                    bw_mi
                } else {
                    rc - lc
                };
                let leaf = code_leaf(rows_of, sb, row, col, rr, rc, lr, lc, rows, cols, part_cdf);
                Step::Leaf(leaf)
            },
        };
        proof {
            assert(step@ == op_step(now, sb@, p, op));
            assert(model[k as int] == step@);
            assert(model.take(k + 1) =~= model.take(k as int).push(step@));
        }
        steps.push(step);
        assert(step_views(steps@) =~= step_views(steps0).push(step@));
        k = k + 1;
    }
    assert(model.take(k as int) =~= model);
}

/// A vector of `n` copies of a byte.
fn bytes(n: usize, v: u8) -> (out: Vec<u8>)
    ensures
        out@ == Seq::new(n as nat, |i: int| v),
{
    let mut out: Vec<u8> = Vec::new();
    let mut i: usize = 0;
    while i < n
        invariant
            i <= n,
            out@ == Seq::new(i as nat, |k: int| v),
        decreases n - i,
    {
        out.push(v);
        i = i + 1;
        assert(out@ =~= Seq::new(i as nat, |k: int| v));
    }
    out
}

/// Superblocks of a frame: `rows` by `cols`.
pub open spec fn frame_sbs(width: nat, height: nat) -> (nat, nat) {
    (plane::sb_aligned(height) / 64, plane::sb_aligned(width) / 64)
}

/// Every superblock of a frame has its coefficients.
pub open spec fn frame_complete(width: nat, height: nat, sbs: Seq<SbTus>) -> bool {
    let (rows, cols) = frame_sbs(width, height);
    &&& sbs.len() == rows * cols
    &&& forall|k: int|
        0 <= k < sbs.len() ==> sb_complete(
            #[trigger] sbs[k],
            place_at(
                k / cols as int,
                k % cols as int,
                frame::mi_units(height as int),
                frame::mi_units(width as int),
            ),
        )
}

proof fn lemma_frame_units(dim: nat, i: int)
    requires
        1 <= dim,
        0 <= i < plane::sb_aligned(dim) / 64,
    ensures
        16 * i < frame::mi_units(dim as int) <= plane::sb_aligned(dim) / 4,
        16 * i + plane::least(frame::mi_units(dim as int) - 16 * i, 16)
            <= plane::sb_aligned(dim) / 4,
{
}

/// The steps that code a frame losslessly, in order, given the coefficients of
/// each superblock in raster order.
pub fn lossless_steps(width: usize, height: usize, sbs: &Vec<SbTus>) -> (steps: Vec<Step>)
    requires
        1 <= width && width + 63 <= usize::MAX,
        1 <= height && height + 63 <= usize::MAX,
        frame_complete(width as nat, height as nat, sbs@),
    ensures
        step_views(steps@) == frame_steps(width as nat, height as nat, sbs@),
{
    let ghost (w, h) = (width as nat, height as nat);
    let pw: usize = plane::sb_align(width);
    let ph: usize = plane::sb_align(height);
    let sb_cols: usize = pw / 64;
    let sb_rows: usize = ph / 64;
    let mi_cols: usize = mi_extent(width);
    let mi_rows: usize = mi_extent(height);
    let mut rows_of = ContextRows {
        y_above: bytes(pw / 4 + 16, contexts::NEUTRAL),
        y_left: bytes(ph / 4 + 16, contexts::NEUTRAL),
        u_above: bytes(pw / 4 + 16, 0),
        u_left: bytes(ph / 4 + 16, 0),
        v_above: bytes(pw / 4 + 16, 0),
        v_left: bytes(ph / 4 + 16, 0),
    };
    let mut above_pctx: Vec<u8> = bytes(mi_cols + 16, 0);
    let mut left_pctx: Vec<u8> = bytes(16, 0);
    let mut steps: Vec<Step> = Vec::new();
    let ghost start = initial_grids(pw as nat, ph as nat);
    proof {
        assert(rows_of@.y.above =~= start.y.above);
        assert(rows_of@.y.left =~= start.y.left);
        assert(rows_of@.u.above =~= start.u.above);
        assert(rows_of@.u.left =~= start.u.left);
        assert(rows_of@.v.above =~= start.v.above);
        assert(rows_of@.v.left =~= start.v.left);
        assert(above_pctx@ =~= zeros((mi_cols + 16) as nat));
        assert(left_pctx@ =~= zeros(16));
        assert(step_views(steps@) =~= Seq::<StepModel>::empty());
    }
    let mut k: usize = 0;
    while k < sbs.len()
        invariant
            k <= sbs@.len(),
            1 <= width && width + 63 <= usize::MAX,
            1 <= height && height + 63 <= usize::MAX,
            w == width,
            h == height,
            pw == plane::sb_aligned(w),
            ph == plane::sb_aligned(h),
            sb_cols == pw / 64,
            sb_rows == ph / 64,
            sb_cols >= 1,
            mi_cols == frame::mi_units(width as int),
            mi_rows == frame::mi_units(height as int),
            mi_cols + 128 <= usize::MAX,
            mi_rows + 128 <= usize::MAX,
            frame_complete(w, h, sbs@),
            start == initial_grids(pw as nat, ph as nat),
            same_extent(start, rows_of@),
            above_pctx@.len() == mi_cols + 16,
            left_pctx@.len() == 16,
            (FrameState {
                grids: rows_of@,
                above: above_pctx@,
                left: left_pctx@,
                steps: step_views(steps@),
            }) == frame_state(w, h, sbs@, k as nat),
        decreases sbs@.len() - k,
    {
        let row: usize = k / sb_cols;
        let col: usize = k % sb_cols;
        proof {
            assert(sb_rows * sb_cols == sb_cols * sb_rows) by (nonlinear_arith);
            plane::lemma_block_pos(k as int, sb_cols as int, sb_rows as int);
            lemma_frame_units(w, col as int);
            lemma_frame_units(h, row as int);
        }
        let ghost p = place_at(row as int, col as int, mi_rows as int, mi_cols as int);
        let rr: usize = if mi_rows - 16 * row < 16 {
            mi_rows - 16 * row
        } else {
            16
        };
        let rc: usize = if mi_cols - 16 * col < 16 {
            mi_cols - 16 * col
        } else {
            16
        };
        if col == 0 {
            left_pctx = bytes(16, 0);
            assert(left_pctx@ =~= zeros(16));
        }
        let ghost walk0 = partition::Walk {
            above: above_pctx@,
            left: left_pctx@,
            ops: Seq::empty(),
        };
        let ops: Vec<Op> = sb_partition_ops(
            row,
            col,
            mi_rows,
            mi_cols,
            &mut above_pctx,
            &mut left_pctx,
        );
        proof {
            let (r, c) = (row * 16, col * 16);
            partition::lemma_walk_extends(r, c, 12, mi_rows as int, mi_cols as int, walk0);
            assert forall|i: int| 0 <= i < ops@.len() implies (#[trigger] ops@[i] matches Op::Leaf {
                mi_row,
                mi_col,
                bw_mi,
                bh_mi,
                ..
            } ==> {
                &&& 16 * p.row <= mi_row < 16 * p.row + p.rr
                &&& 16 * p.col <= mi_col < 16 * p.col + p.rc
                &&& bw_mi >= 1
                &&& bh_mi >= 1
            }) by {
                partition::law_leaves_start_inside(
                    r,
                    c,
                    12,
                    mi_rows as int,
                    mi_cols as int,
                    walk0,
                    i,
                );
                assert(partition::MI_H@[12] == 16 && partition::MI_W@[12] == 16);
            }
            assert(leaves_inside(ops@, p));
            assert(sb_complete(sbs@[k as int], p));
            assert(grids_reach(rows_of@, p));
        }
        code_sb(&mut rows_of, &sbs[k], row, col, rr, rc, &ops, &mut steps);
        k = k + 1;
    }
    steps
}

impl Av2Encoder {
    /// Plan of a lossless 4:4:4 frame: its header configuration, and the steps
    /// that code it. An image with an incomplete plane or a size out of range is
    /// refused.
    pub fn encode_yuv444_lossless<T>(&self, img: &PlanarImage<T>, sbs: &Vec<SbTus>) -> (r: Result<
        (Config, Vec<Step>),
        EncodeError,
    >)
        requires
            img.refusal_444() is None ==> frame_complete(
                img.width as nat,
                img.height as nat,
                sbs@,
            ),
        ensures
            match img.refusal_444() {
                Some(e) => r matches Err(found) && found == e,
                None => r matches Ok((config, steps)) && {
                    &&& config == encoder::frame_config(self@, Layout::I444)
                    &&& step_views(steps@) == frame_steps(
                        img.width as nat,
                        img.height as nat,
                        sbs@,
                    )
                },
            },
    {
        img.validate_444()?;
        validate_dims(img.width, img.height)?;
        Ok((self.config(Layout::I444), lossless_steps(img.width, img.height, sbs)))
    }
}

/// Adding the prediction back to the residuals of a block gives the source samples
/// in their places: residual `4 * r + c` belongs to row `r` and column `c`.
pub proof fn law_residual_restores_the_block(
    src: Seq<u16>,
    pw: int,
    y: int,
    x: int,
    neutral: u16,
    r: int,
    c: int,
)
    requires
        0 <= r < 4,
        0 <= c < 4,
    ensures
        residual4(src, pw, y, x, neutral, 4 * r + c) + dcpred::dc_value(
            src,
            pw,
            y,
            x,
            4,
            neutral,
            4,
            4,
        ) == src[(y + r) * pw + x + c],
{
    assert((4 * r + c) / 4 == r);
    assert((4 * r + c) % 4 == c);
}

/// The residuals of a superblock restore every sample of its part in the frame:
/// the block in row `br` and column `bc` of blocks is number `br * cols + bc`.
pub proof fn law_residuals_restore_the_superblock(
    src: Seq<u16>,
    pw: int,
    sb_y: int,
    sb_x: int,
    neutral: u16,
    cols: int,
    y: int,
    x: int,
)
    requires
        cols >= 1,
        0 <= y,
        0 <= x < 4 * cols,
    ensures
        ({
            let (br, bc) = (y / 4, x / 4);
            let (r, c) = (y % 4, x % 4);
            sb_residual(src, pw, sb_y, sb_x, neutral, cols, br * cols + bc, 4 * r + c)
                + dcpred::dc_value(src, pw, sb_y + 4 * br, sb_x + 4 * bc, 4, neutral, 4, 4)
                == src[(sb_y + y) * pw + sb_x + x]
        }),
{
    let (br, bc) = (y / 4, x / 4);
    vstd::arithmetic::div_mod::lemma_fundamental_div_mod_converse(br * cols + bc, cols, br, bc);
    law_residual_restores_the_block(
        src,
        pw,
        sb_y + 4 * br,
        sb_x + 4 * bc,
        neutral,
        y % 4,
        x % 4,
    );
    assert(sb_y + 4 * br + y % 4 == sb_y + y);
}

/// A superblock has sixteen units a side, or what is left of the frame, rows by its
/// height and columns by its width.
pub proof fn law_superblocks_end_with_the_frame(row: int, col: int, mi_rows: int, mi_cols: int)
    ensures
        ({
            let p = place_at(row, col, mi_rows, mi_cols);
            &&& p.row == row && p.col == col
            &&& 16 * (row + 1) <= mi_rows ==> p.rr == 16
            &&& 16 * (row + 1) > mi_rows ==> 16 * row + p.rr == mi_rows
            &&& 16 * (col + 1) <= mi_cols ==> p.rc == 16
            &&& 16 * (col + 1) > mi_cols ==> 16 * col + p.rc == mi_cols
        }),
{
}

/// A leaf lies where it starts in its superblock and ends with it.
pub proof fn law_leaves_end_with_the_superblock(
    p: Place,
    mi_row: int,
    mi_col: int,
    bw: int,
    bh: int,
)
    ensures
        ({
            let a = leaf_area(p, mi_row, mi_col, bw, bh);
            &&& 16 * p.row + a.lr == mi_row
            &&& 16 * p.col + a.lc == mi_col
            &&& a.lr + bh <= p.rr ==> a.rows == bh
            &&& a.lr + bh > p.rr ==> a.lr + a.rows == p.rr
            &&& a.lc + bw <= p.rc ==> a.cols == bw
            &&& a.lc + bw > p.rc ==> a.lc + a.cols == p.rc
        }),
{
}

/// The blocks of a leaf are those of its superblock at its place: the one in row `r`
/// and column `c` of the leaf lies that far from the leaf's own.
pub proof fn law_leaf_blocks_are_taken_in_place(
    tus: Seq<Seq<Coeff>>,
    rc: int,
    a: LeafArea,
    r: int,
    c: int,
)
    requires
        0 <= r < a.rows,
        0 <= c < a.cols,
    ensures
        leaf_blocks(tus, rc, a).len() == a.rows * a.cols,
        leaf_blocks(tus, rc, a)[r * a.cols + c] == tus[(a.lr + r) * rc + a.lc + c],
{
    plane::lemma_in_block(r, c, a.cols, a.rows);
    assert(a.rows * a.cols == a.cols * a.rows) by (nonlinear_arith);
    vstd::arithmetic::div_mod::lemma_fundamental_div_mod_converse(r * a.cols + c, a.cols, r, c);
}

/// A leaf codes the blocks of each plane from that plane, and the contexts of its
/// first blocks are what the neighbors of the same plane give at its corner; V also
/// asks whether the last block of U has levels.
pub proof fn law_leaf_codes_each_plane_by_itself(
    g: Grids,
    sb: SbModel,
    p: Place,
    a: LeafArea,
    part_cdf: Option<u32>,
)
    requires
        a.rows >= 1,
        a.cols >= 1,
    ensures
        ({
            let m = leaf_model(g, sb, p, a, part_cdf);
            let corner = contexts::Cell {
                cy: 16 * p.row + a.lr,
                cx: 16 * p.col + a.lc,
                wu: 1,
                hu: 1,
                mi_rows: 16 * p.row + a.lr + 1,
                mi_cols: 16 * p.col + a.lc + 1,
            };
            let u = leaf_blocks(sb.u, p.rc, a);
            &&& m.part_cdf == part_cdf
            &&& m.y == leaf_blocks(sb.y, p.rc, a)
            &&& m.u == u
            &&& m.v == leaf_blocks(sb.v, p.rc, a)
            &&& m.y_skip.len() == a.rows * a.cols
            &&& m.y_sign.len() == a.rows * a.cols
            &&& m.u_skip.len() == a.rows * a.cols
            &&& m.v_skip.len() == a.rows * a.cols
            &&& m.y_skip[0] == contexts::skip_context(g.y, corner)
            &&& m.y_sign[0] == contexts::sign_context(g.y, corner)
            &&& 0 <= 16 * p.col + a.lc < g.u.above.len() && 0 <= 16 * p.row + a.lr
                < g.u.left.len() ==> m.u_skip[0] == contexts::chroma_skip(
                g.u,
                corner,
                false,
                false,
            )
            &&& 0 <= 16 * p.col + a.lc < g.v.above.len() && 0 <= 16 * p.row + a.lr
                < g.v.left.len() ==> m.v_skip[0] == contexts::chroma_skip(
                g.v,
                corner,
                true,
                contexts::level_sum(u[a.rows * a.cols - 1]) > 0,
            )
        }),
{
    let n = a.rows * a.cols;
    assert(n >= 1) by (nonlinear_arith)
        requires
            n == a.rows * a.cols,
            a.rows >= 1,
            a.cols >= 1,
    ;
    let cells = leaf_cells(p, a);
    assert(0int / a.cols == 0) by (nonlinear_arith)
        requires
            a.cols >= 1,
    ;
    assert(0int % a.cols == 0) by (nonlinear_arith)
        requires
            a.cols >= 1,
    ;
    assert((64 * p.row + 4 * a.lr) / 4 == 16 * p.row + a.lr);
    assert((64 * p.col + 4 * a.lc) / 4 == 16 * p.col + a.lc);
    contexts::law_contexts_in_range(g.y, cells(0));
    let u = leaf_blocks(sb.u, p.rc, a);
    assert(u.last() == u[n - 1]);
}

/// The steps of a frame are those of its superblocks, one after the other, and
/// those of the first ones do not change with the ones that follow.
pub proof fn law_steps_are_appended(width: nat, height: nat, sbs: Seq<SbTus>, more: Seq<SbTus>)
    requires
        more.len() >= sbs.len(),
        more.take(sbs.len() as int) == sbs,
    ensures
        frame_steps(width, height, sbs).is_prefix_of(frame_steps(width, height, more)),
    decreases more.len(),
{
    lemma_frame_state_same(width, height, sbs, more, sbs.len());
    lemma_steps_grow(width, height, more, sbs.len(), more.len());
}

proof fn lemma_frame_state_same(
    width: nat,
    height: nat,
    sbs: Seq<SbTus>,
    more: Seq<SbTus>,
    k: nat,
)
    requires
        more.len() >= sbs.len(),
        more.take(sbs.len() as int) == sbs,
        k <= sbs.len(),
    ensures
        frame_state(width, height, sbs, k) == frame_state(width, height, more, k),
    decreases k,
{
    if k > 0 {
        lemma_frame_state_same(width, height, sbs, more, (k - 1) as nat);
        assert(more.take(sbs.len() as int)[k - 1] == more[k - 1]);
    }
}

proof fn lemma_steps_grow(width: nat, height: nat, sbs: Seq<SbTus>, k: nat, n: nat)
    requires
        k <= n,
    ensures
        frame_state(width, height, sbs, k).steps.is_prefix_of(
            frame_state(width, height, sbs, n).steps,
        ),
    decreases n,
{
    if k < n {
        lemma_steps_grow(width, height, sbs, k, (n - 1) as nat);
        let (a, b, c) = (
            frame_state(width, height, sbs, k).steps,
            frame_state(width, height, sbs, (n - 1) as nat).steps,
            frame_state(width, height, sbs, n).steps,
        );
        assert(b =~= c.take(b.len() as int));
        assert(a =~= c.take(a.len() as int));
    } else {
        let a = frame_state(width, height, sbs, k).steps;
        assert(a =~= a.take(a.len() as int));
    }
}

/// A frame starts with neutral contexts for luma and none for chroma, sixteen units
/// more than it has, and with no partition contexts.
pub proof fn law_frames_start_blank(width: nat, height: nat, sbs: Seq<SbTus>, i: int)
    ensures
        ({
            let s = frame_state(width, height, sbs, 0);
            let (w, h) = (
                plane::sb_aligned(width) as int / 4 + 16,
                plane::sb_aligned(height) as int / 4 + 16,
            );
            &&& s.steps.len() == 0
            &&& s.grids.y.above.len() == w && s.grids.u.above.len() == w && s.grids.v.above.len()
                == w
            &&& s.grids.y.left.len() == h && s.grids.u.left.len() == h && s.grids.v.left.len() == h
            &&& 0 <= i < w ==> s.grids.y.above[i] == 64 && s.grids.u.above[i] == 0
                && s.grids.v.above[i] == 0
            &&& 0 <= i < h ==> s.grids.y.left[i] == 64 && s.grids.u.left[i] == 0
                && s.grids.v.left[i] == 0
            &&& 0 <= i < 16 ==> s.left[i] == 0
        }),
{
}

/// A frame has as many superblocks as its sides reach into, rows by its height and
/// columns by its width.
pub proof fn law_superblocks_of_a_frame(width: nat, height: nat)
    ensures
        64 * (frame_sbs(width, height).0 - 1) < height <= 64 * frame_sbs(width, height).0
            || height == 0 && frame_sbs(width, height).0 == 0,
        64 * (frame_sbs(width, height).1 - 1) < width <= 64 * frame_sbs(width, height).1
            || width == 0 && frame_sbs(width, height).1 == 0,
{
}

/// The contexts of each plane follow the blocks of that plane alone.
pub proof fn law_planes_keep_their_own_contexts(
    g: Grids,
    h: Grids,
    a: SbModel,
    b: SbModel,
    p: Place,
    area: LeafArea,
)
    ensures
        g.y == h.y && a.y == b.y ==> leaf_grids(g, a, p, area).y == leaf_grids(h, b, p, area).y,
        g.u == h.u && a.u == b.u ==> leaf_grids(g, a, p, area).u == leaf_grids(h, b, p, area).u,
        g.v == h.v && a.v == b.v ==> leaf_grids(g, a, p, area).v == leaf_grids(h, b, p, area).v,
{
}

} // verus!
