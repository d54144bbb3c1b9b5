//! Luma prediction of 32x32 transform blocks: which references a block may use,
//! the prediction by mode, and the modes that a search tries.

use crate::dcpred;
use crate::dcpred::{dc_pred, dc_pred_bounded};
use crate::encoder::Speed;
use crate::frame;
use crate::frame::mi_extent;
use crate::intrapred;
use crate::intrapred::{build_refs, paeth, smooth, smooth_h, smooth_v, IntraRefSpec};
use vstd::prelude::*;

verus! {

// ---------------------------------------------------------------------------
// Reference availability
// ---------------------------------------------------------------------------

/// Samples from a block edge to the frame edge, as far as a 32x32 block can use
/// them: at least one, at most 32.
pub open spec fn in_frame(limit: int, start: int) -> int {
    if limit - start < 1 {
        1
    } else if limit - start > 32 {
        32
    } else {
        limit - start
    }
}

/// Samples beyond a 32x32 block, up to 32; none where they are not allowed.
pub open spec fn beyond(allowed: bool, left_over: int) -> int {
    if !allowed || left_over <= 0 {
        0
    } else if left_over > 32 {
        32
    } else {
        left_over
    }
}

fn in_frame_of(limit: i64, start: usize) -> (n: usize)
    requires
        0 <= limit <= 0x4000_0000_0000_0000,
        start <= 0x4000_0000_0000_0000,
    ensures
        n == in_frame(limit as int, start as int),
        1 <= n <= 32,
{
    let d: i64 = limit - start as i64;
    if d < 1 {
        1
    } else if d > 32 {
        32
    } else {
        d as usize
    }
}

fn beyond_of(allowed: bool, left_over: i64) -> (n: usize)
    ensures
        n == beyond(allowed, left_over as int),
        n <= 32,
{
    if !allowed || left_over <= 0 {
        0
    } else if left_over > 32 {
        32
    } else {
        left_over as usize
    }
}

/// Geometry and mode of a 32x32 luma prediction in a superblock.
#[derive(Clone, Copy, Debug)]
pub struct LumaPredictSpec {
    pub stride: usize,
    pub frame_width: usize,
    pub frame_height: usize,
    /// Number of the transform in its superblock, in raster order.
    pub tx_index: usize,
    pub y: usize,
    pub x: usize,
    pub mode: usize,
    pub angle_delta: i32,
    pub neutral: u16,
}

impl LumaPredictSpec {
    /// Sizes whose fourfold a 64-bit integer holds.
    pub open spec fn in_range(self) -> bool {
        &&& self.frame_width + 7 <= usize::MAX
        &&& self.frame_height + 7 <= usize::MAX
        &&& self.frame_width <= 0x1000_0000_0000_0000
        &&& self.frame_height <= 0x1000_0000_0000_0000
        &&& self.y <= 0x1000_0000_0000_0000
        &&& self.x <= 0x1000_0000_0000_0000
    }

    /// References of the block. The frame reaches to whole 8-pixel blocks. All
    /// transforms but the last of a superblock may use samples to the top right,
    /// the first one also samples to the bottom left.
    pub open spec fn refs(self) -> IntraRefSpec {
        let right = 4 * frame::mi_units(self.frame_width as int);
        let bottom = 4 * frame::mi_units(self.frame_height as int);
        let (y, x) = (self.y as int, self.x as int);
        IntraRefSpec {
            stride: self.stride,
            y: self.y,
            x: self.x,
            block_size: 32,
            have_above: y > 0,
            have_left: x > 0,
            top_right: beyond(self.tx_index <= 2 && y > 0, right - x - 32) as usize,
            bottom_left: beyond(self.tx_index == 0 && x > 0, bottom - y - 32) as usize,
            neutral: self.neutral,
            available_above: in_frame(right, x) as usize,
            available_left: in_frame(bottom, y) as usize,
        }
    }

    fn build(&self) -> (r: IntraRefSpec)
        requires
            self.in_range(),
        ensures
            r == self.refs(),
    {
        let right: i64 = 4 * mi_extent(self.frame_width) as i64;
        let bottom: i64 = 4 * mi_extent(self.frame_height) as i64;
        let have_above = self.y > 0;
        let have_left = self.x > 0;
        IntraRefSpec {
            stride: self.stride,
            y: self.y,
            x: self.x,
            block_size: 32,
            have_above,
            have_left,
            top_right: beyond_of(self.tx_index <= 2 && have_above, right - self.x as i64 - 32),
            bottom_left: beyond_of(self.tx_index == 0 && have_left, bottom - self.y as i64 - 32),
            neutral: self.neutral,
            available_above: in_frame_of(right, self.x),
            available_left: in_frame_of(bottom, self.y),
        }
    }
}

/// Geometry and mode of one 32x32 transform in a split luma leaf.
#[derive(Clone, Copy, Debug)]
pub struct LumaLeafPredictSpec {
    pub stride: usize,
    pub mi_cols: i64,
    pub mi_rows: i64,
    pub block_y: usize,
    pub block_x: usize,
    pub tx_y: usize,
    pub tx_x: usize,
    pub tx_index: usize,
    pub mode: usize,
    pub neutral: u16,
    /// The leaf is one of the four of a split superblock.
    pub split_leaf: bool,
}

/// Modes that read samples to the top right: smooth, horizontal smooth and the
/// directions between 45 and 67 degrees.
pub open spec fn needs_top_right(mode: int) -> bool {
    mode == 1 || mode == 3 || mode == 7 || mode >= 12
}

/// Modes that read samples to the bottom left: smooth, vertical smooth and the
/// direction of 203 degrees.
pub open spec fn needs_bottom_left(mode: int) -> bool {
    mode == 1 || mode == 2 || mode == 11
}

impl LumaLeafPredictSpec {
    /// Sizes whose fourfold a 64-bit integer holds.
    pub open spec fn in_range(self) -> bool {
        &&& 0 <= self.mi_cols <= 0x1000_0000_0000_0000
        &&& 0 <= self.mi_rows <= 0x1000_0000_0000_0000
        &&& self.block_y + self.tx_y <= usize::MAX
        &&& self.block_x + self.tx_x <= usize::MAX
        &&& self.block_y <= 0x1000_0000_0000_0000
        &&& self.block_x <= 0x1000_0000_0000_0000
        &&& self.tx_y <= 0x1000_0000_0000_0000
        &&& self.tx_x <= 0x1000_0000_0000_0000
    }

    /// Whether the top right of the transform is coded already: its superblock
    /// row above is, so only transforms in the lower half lack it.
    pub open spec fn top_right_coded(self) -> bool {
        let y = self.block_y + self.tx_y;
        &&& y % 64 < 32
        &&& self.block_x as int / 4 + self.tx_x as int / 4 + 8 < self.mi_cols
    }

    /// Whether the bottom left of the transform is coded already: that of the
    /// upper left one, and of the upper right one of a split superblock.
    pub open spec fn bottom_left_coded(self) -> bool {
        let (y, x) = (self.block_y + self.tx_y, self.block_x + self.tx_x);
        y % 64 < 32 && if x % 64 < 32 {
            self.block_y as int / 4 + self.tx_y as int / 4 + 8 < self.mi_rows
        } else {
            self.split_leaf
        }
    }

    /// References of the transform.
    pub open spec fn refs(self) -> IntraRefSpec {
        let (y, x) = (self.block_y + self.tx_y, self.block_x + self.tx_x);
        let right = 4 * (self.mi_cols - self.block_x as int / 4) - 32 - self.tx_x;
        let down = 4 * (self.mi_rows - self.block_y as int / 4) - 32 - self.tx_y;
        let mode = self.mode as int;
        IntraRefSpec {
            stride: self.stride,
            y: y as usize,
            x: x as usize,
            block_size: 32,
            have_above: y > 0,
            have_left: x > 0,
            top_right: beyond(
                needs_top_right(mode) && self.tx_index <= 2 && y > 0 && self.top_right_coded(),
                right,
            ) as usize,
            bottom_left: beyond(
                needs_bottom_left(mode) && self.tx_index == 0 && x > 0 && self.bottom_left_coded(),
                down,
            ) as usize,
            neutral: self.neutral,
            available_above: in_frame(4 * self.mi_cols, x) as usize,
            available_left: in_frame(4 * self.mi_rows, y) as usize,
        }
    }

    fn build(&self) -> (r: IntraRefSpec)
        requires
            self.in_range(),
        ensures
            r == self.refs(),
    {
        let y: usize = self.block_y + self.tx_y;
        let x: usize = self.block_x + self.tx_x;
        let is_right = x % 64 >= 32;
        let is_bottom = y % 64 >= 32;
        let mi_col: i64 = (self.block_x / 4) as i64;
        let mi_row: i64 = (self.block_y / 4) as i64;
        let col_off: i64 = (self.tx_x / 4) as i64;
        let row_off: i64 = (self.tx_y / 4) as i64;
        let xr: i64 = 4 * (self.mi_cols - mi_col) - 32 - self.tx_x as i64;
        let yd: i64 = 4 * (self.mi_rows - mi_row) - 32 - self.tx_y as i64;
        let tr_avail = !is_bottom && mi_col + col_off + 8 < self.mi_cols;
        let bl_avail = !is_right && !is_bottom && mi_row + row_off + 8 < self.mi_rows;
        let m: usize = self.mode;
        let need_tr = m == 1 || m == 3 || m == 7 || m >= 12;
        let need_bl = m == 1 || m == 2 || m == 11;
        let have_above = y > 0;
        let have_left = x > 0;
        IntraRefSpec {
            stride: self.stride,
            y,
            x,
            block_size: 32,
            have_above,
            have_left,
            top_right: beyond_of(need_tr && self.tx_index <= 2 && have_above && tr_avail, xr),
            bottom_left: beyond_of(
                need_bl && self.tx_index == 0 && have_left && (bl_avail || (self.split_leaf
                    && is_right && !is_bottom)),
                yd,
            ),
            neutral: self.neutral,
            available_above: in_frame_of(4 * self.mi_cols, x),
            available_left: in_frame_of(4 * self.mi_rows, y),
        }
    }
}

/// Geometry of one of the two transforms of a 64x32 luma leaf.
#[derive(Clone, Copy, Debug)]
pub struct LumaLeaf32 {
    pub stride: usize,
    pub mi_cols: i64,
    pub mi_rows: i64,
    pub y: usize,
    pub x: usize,
    /// 0 for the left transform, 1 for the right one.
    pub tx_index: usize,
    pub mode: usize,
    pub neutral: u16,
}

impl LumaLeaf32 {
    /// Sizes whose fourfold a 64-bit integer holds.
    pub open spec fn in_range(self) -> bool {
        &&& 0 <= self.mi_cols <= 0x1000_0000_0000_0000
        &&& 0 <= self.mi_rows <= 0x1000_0000_0000_0000
        &&& self.y <= 0x1000_0000_0000_0000
        &&& self.x <= 0x1000_0000_0000_0000
        &&& self.x + 32 <= usize::MAX
        &&& self.tx_index <= 1
    }

    /// References of the transform; nothing below the leaf is coded.
    pub open spec fn refs(self) -> IntraRefSpec {
        let (y, x) = (self.y as int, self.x + 32 * self.tx_index);
        let right = 4 * (self.mi_cols - self.x as int / 4) - 32 - 32 * self.tx_index;
        IntraRefSpec {
            stride: self.stride,
            y: self.y,
            x: x as usize,
            block_size: 32,
            have_above: y > 0,
            have_left: x > 0,
            top_right: beyond(y > 0, right) as usize,
            bottom_left: 0,
            neutral: self.neutral,
            available_above: in_frame(4 * self.mi_cols, x) as usize,
            available_left: in_frame(4 * self.mi_rows, y) as usize,
        }
    }

    fn build(&self) -> (r: IntraRefSpec)
        requires
            self.in_range(),
        ensures
            r == self.refs(),
    {
        let x: usize = self.x + 32 * self.tx_index;
        let mi_col: i64 = (self.x / 4) as i64;
        let xr: i64 = 4 * (self.mi_cols - mi_col) - 32 - 32 * self.tx_index as i64;
        let have_above = self.y > 0;
        let right_available = mi_col + 8 * self.tx_index as i64 + 8 < self.mi_cols;
        IntraRefSpec {
            stride: self.stride,
            y: self.y,
            x,
            block_size: 32,
            have_above,
            have_left: x > 0,
            top_right: beyond_of(have_above && right_available, xr),
            bottom_left: 0,
            neutral: self.neutral,
            available_above: in_frame_of(4 * self.mi_cols, x),
            available_left: in_frame_of(4 * self.mi_rows, self.y),
        }
    }
}

// ---------------------------------------------------------------------------
// Prediction
// ---------------------------------------------------------------------------

/// Directions of the directional modes.
#[derive(Clone, Copy, Debug, PartialEq, Eq, Structural)]
pub enum Direction {
    V,
    H,
    D45,
    D135,
    D113,
    D157,
    D203,
    D67,
}

/// Direction of a mode from 5 on.
pub open spec fn direction_of(mode: int) -> Direction {
    if mode == 5 {
        Direction::V
    } else if mode == 6 {
        Direction::H
    } else if mode == 7 {
        Direction::D45
    } else if mode == 8 {
        Direction::D135
    } else if mode == 9 {
        Direction::D113
    } else if mode == 10 {
        Direction::D157
    } else if mode == 11 {
        Direction::D203
    } else {
        Direction::D67
    }
}

/// What a directional predictor works on.
#[derive(Debug)]
pub struct DirectionalJob {
    pub direction: Direction,
    pub angle_delta: i32,
    pub above: Vec<i32>,
    pub left: Vec<i32>,
    pub corner: i32,
    pub have_top: bool,
    pub have_left: bool,
    pub max_width: i32,
    pub max_height: i32,
}

/// A prediction, or what the directional predictor needs for it.
#[derive(Debug)]
pub enum Predicted {
    Block(Vec<i32>),
    Directional(DirectionalJob),
}

/// A block of one value.
pub open spec fn flat32(v: nat) -> Seq<i32> {
    Seq::new(1024, |i: int| v as i32)
}

/// Whether a prediction is a block of one value.
pub open spec fn is_flat(p: Predicted, v: nat) -> bool {
    p matches Predicted::Block(b) && b@ == flat32(v)
}

/// The samples that a mode from 1 to 4 predicts from the references.
pub open spec fn mode_block(mode: int, rec: Seq<u16>, refs: IntraRefSpec) -> Seq<i32> {
    let above = intrapred::above_refs(rec, refs);
    let left = intrapred::left_refs(rec, refs);
    let corner = intrapred::corner_ref(rec, refs);
    Seq::new(
        1024,
        |i: int|
            {
                let (r, c) = (i / 32, i % 32);
                let (a, l) = (above[c] as int, left[r] as int);
                let (bottom, right) = (left[32] as int, above[32] as int);
                (if mode == 1 {
                    intrapred::smooth_value(32, a, l, bottom, right, r, c)
                } else if mode == 2 {
                    intrapred::smooth_v_value(32, a, bottom, r)
                } else if mode == 3 {
                    intrapred::smooth_h_value(32, l, right, c)
                } else {
                    intrapred::paeth_value(l, a, corner)
                }) as i32
            },
    )
}

/// What a mode from 1 on predicts.
pub open spec fn is_prediction(
    p: Predicted,
    mode: int,
    angle_delta: i32,
    rec: Seq<u16>,
    refs: IntraRefSpec,
) -> bool {
    match p {
        Predicted::Block(b) => mode <= 4 && b@ == mode_block(mode, rec, refs),
        Predicted::Directional(j) => {
            &&& mode > 4
            &&& j.direction == direction_of(mode)
            &&& j.angle_delta == angle_delta
            &&& j.above@ == intrapred::above_refs(rec, refs)
            &&& j.left@ == intrapred::left_refs(rec, refs)
            &&& j.corner == intrapred::corner_ref(rec, refs)
            &&& j.have_top == refs.have_above
            &&& j.have_left == refs.have_left
            &&& j.max_width == 32 + refs.top_right
            &&& j.max_height == 32 + refs.bottom_left
        },
    }
}

/// Predict a 32x32 block from its references by mode.
fn dispatch_intra_pred(mode: usize, angle_delta: i32, rec: &[u16], refs: &IntraRefSpec) -> (p:
    Predicted)
    requires
        mode >= 1,
        refs.block_size == 32,
        refs.top_right <= 32,
        refs.bottom_left <= 32,
        refs.fits(rec@.len()),
    ensures
        is_prediction(p, mode as int, angle_delta, rec@, *refs),
{
    let (above, left, corner) = build_refs(rec, refs);
    let ghost want = mode_block(mode as int, rec@, *refs);
    proof {
        intrapred::law_built_references_suit(32, above@, left@, corner as int);
    }
    if mode <= 4 {
        let block: Vec<i32> = if mode == 1 {
            smooth(32, above.as_slice(), left.as_slice())
        } else if mode == 2 {
            smooth_v(32, above.as_slice(), left.as_slice())
        } else if mode == 3 {
            smooth_h(32, above.as_slice(), left.as_slice())
        } else {
            paeth(32, above.as_slice(), left.as_slice(), corner)
        };
        assert(block@ =~= want);
        return Predicted::Block(block);
    }
    let direction = match mode {
        5 => Direction::V,
        6 => Direction::H,
        7 => Direction::D45,
        8 => Direction::D135,
        9 => Direction::D113,
        10 => Direction::D157,
        11 => Direction::D203,
        _ => Direction::D67,
    };
    Predicted::Directional(
        DirectionalJob {
            direction,
            angle_delta,
            above,
            left,
            corner,
            have_top: refs.have_above,
            have_left: refs.have_left,
            max_width: 32 + refs.top_right as i32,
            max_height: 32 + refs.bottom_left as i32,
        },
    )
}

fn flat_block(v: u16) -> (out: Vec<i32>)
    ensures
        out@ == flat32(v as nat),
{
    let mut out: Vec<i32> = Vec::new();
    let mut i: usize = 0;
    while i < 1024
        invariant
            i <= 1024,
            out@ =~= flat32(v as nat).take(i as int),
        decreases 1024 - i,
    {
        out.push(v as i32);
        i = i + 1;
    }
    assert(flat32(v as nat).take(1024) =~= flat32(v as nat));
    out
}

impl LumaPredictSpec {
    /// Value of the flat mode.
    pub open spec fn flat_value(self, rec: Seq<u16>) -> nat {
        dcpred::frame_prediction(
            rec,
            self.stride as int,
            self.y as int,
            self.x as int,
            32,
            self.neutral,
            self.frame_width as int,
            self.frame_height as int,
        )
    }
}

impl LumaLeaf32 {
    /// Value of the flat mode.
    pub open spec fn flat_value(self, rec: Seq<u16>) -> nat {
        dcpred::dc_value(
            rec,
            self.stride as int,
            self.y as int,
            self.x + 32 * self.tx_index,
            32,
            self.neutral,
            32,
            32,
        )
    }
}

impl LumaLeafPredictSpec {
    /// Value of the flat mode.
    pub open spec fn flat_value(self, rec: Seq<u16>) -> nat {
        dcpred::dc_value(
            rec,
            self.stride as int,
            self.block_y + self.tx_y,
            self.block_x + self.tx_x,
            32,
            self.neutral,
            32,
            32,
        )
    }
}

/// Predict a 32x32 transform of a superblock. Mode 0 is the DC of the edge
/// samples in the frame.
pub fn predict_luma(recy: &[u16], spec: &LumaPredictSpec) -> (p: Predicted)
    requires
        spec.in_range(),
        spec.mode > 0 ==> spec.refs().fits(recy@.len()),
        spec.mode == 0 ==> dcpred::edges_fit(
            recy@.len(),
            spec.stride as int,
            spec.y as int,
            spec.x as int,
            dcpred::edge_available(spec.x as int, 32, spec.frame_width as int),
            dcpred::edge_available(spec.y as int, 32, spec.frame_height as int),
        ),
    ensures
        spec.mode == 0 ==> is_flat(p, spec.flat_value(recy@)),
        spec.mode > 0 ==> is_prediction(
            p,
            spec.mode as int,
            spec.angle_delta,
            recy@,
            spec.refs(),
        ),
{
    if spec.mode == 0 {
        let v: u16 = dc_pred_bounded(
            recy,
            spec.stride,
            spec.y,
            spec.x,
            32,
            spec.neutral,
            spec.frame_width,
            spec.frame_height,
        );
        return Predicted::Block(flat_block(v));
    }
    let refs = spec.build();
    dispatch_intra_pred(spec.mode, spec.angle_delta, recy, &refs)
}

/// Predict one of the two transforms of a 64x32 leaf.
pub fn predict_luma_leaf32(recy: &[u16], spec: &LumaLeaf32) -> (p: Predicted)
    requires
        spec.in_range(),
        spec.mode > 0 ==> spec.refs().fits(recy@.len()),
        spec.mode == 0 ==> dcpred::edges_fit(
            recy@.len(),
            spec.stride as int,
            spec.y as int,
            spec.x + 32 * spec.tx_index,
            32,
            32,
        ),
    ensures
        spec.mode == 0 ==> is_flat(p, spec.flat_value(recy@)),
        spec.mode > 0 ==> is_prediction(p, spec.mode as int, 0, recy@, spec.refs()),
{
    if spec.mode == 0 {
        let x: usize = spec.x + 32 * spec.tx_index;
        let v: u16 = dc_pred(recy, spec.stride, spec.y, x, 32, spec.neutral);
        return Predicted::Block(flat_block(v));
    }
    let refs = spec.build();
    dispatch_intra_pred(spec.mode, 0, recy, &refs)
}

/// Predict one 32x32 transform of a split leaf.
pub fn predict_luma_leaf_tu(recy: &[u16], spec: &LumaLeafPredictSpec) -> (p: Predicted)
    requires
        spec.in_range(),
        spec.mode > 0 ==> spec.refs().fits(recy@.len()),
        spec.mode == 0 ==> dcpred::edges_fit(
            recy@.len(),
            spec.stride as int,
            spec.block_y + spec.tx_y,
            spec.block_x + spec.tx_x,
            32,
            32,
        ),
    ensures
        spec.mode == 0 ==> is_flat(p, spec.flat_value(recy@)),
        spec.mode > 0 ==> is_prediction(p, spec.mode as int, 0, recy@, spec.refs()),
{
    if spec.mode == 0 {
        let y: usize = spec.block_y + spec.tx_y;
        let x: usize = spec.block_x + spec.tx_x;
        let v: u16 = dc_pred(recy, spec.stride, y, x, 32, spec.neutral);
        return Predicted::Block(flat_block(v));
    }
    let refs = spec.build();
    dispatch_intra_pred(spec.mode, 0, recy, &refs)
}

// ---------------------------------------------------------------------------
// Mode search
// ---------------------------------------------------------------------------

/// Luma modes that are tried, by effort and by whether directions are allowed.
pub open spec fn base_modes(reduced: bool, directional: bool) -> Seq<usize> {
    if reduced {
        if directional {
            seq![0, 1, 2, 5, 6, 7, 8, 9, 10, 11, 12]
        } else {
            seq![0, 1, 2]
        }
    } else if directional {
        seq![0, 1, 2, 3, 4, 5, 6, 7, 8, 9, 10, 11, 12]
    } else {
        seq![0, 1, 2, 3, 4]
    }
}

/// Angle offsets of a directional mode.
pub open spec fn angle_deltas(all: bool) -> Seq<int> {
    if all {
        seq![0int, -1, 1, -2, 2, -3, 3]
    } else {
        seq![0int]
    }
}

/// A mode with each of its angles; modes below 5 have none but 0.
pub open spec fn with_angles(mode: usize, all: bool) -> Seq<(usize, i32)> {
    if mode >= 5 {
        angle_deltas(all).map_values(|d: int| (mode, d as i32))
    } else {
        seq![(mode, 0i32)]
    }
}

/// Modes with their angles, in order.
pub open spec fn expanded(modes: Seq<usize>, all: bool) -> Seq<(usize, i32)>
    decreases modes.len(),
{
    if modes.len() == 0 {
        Seq::empty()
    } else {
        expanded(modes.drop_last(), all) + with_angles(modes.last(), all)
    }
}

fn push_range(out: &mut Vec<usize>, from: usize, to: usize)
    requires
        from <= to,
    ensures
        final(out)@ == old(out)@ + Seq::new((to - from) as nat, |i: int| (from + i) as usize),
{
    let ghost before = out@;
    let ghost tail = Seq::new((to - from) as nat, |i: int| (from + i) as usize);
    let mut k: usize = from;
    while k < to
        invariant
            from <= k <= to,
            tail == Seq::new((to - from) as nat, |i: int| (from + i) as usize),
            out@ =~= before + tail.take(k - from),
        decreases to - k,
    {
        out.push(k);
        k = k + 1;
    }
    assert(tail.take(to - from) =~= tail);
}

/// Candidates of a luma mode search: modes with their angles, in the order in
/// which they are tried.
pub fn luma_mode_candidates(speed: Speed, directional: bool) -> (out: Vec<(usize, i32)>)
    ensures
        out@ == expanded(base_modes(speed == Speed::Fast, directional), speed == Speed::Slow),
{
    let reduced = speed.reduced_modes();
    let all = speed.try_angle_deltas();
    let mut modes: Vec<usize> = Vec::new();
    if reduced {
        push_range(&mut modes, 0, 3);
    } else {
        push_range(&mut modes, 0, 5);
    }
    if directional {
        push_range(&mut modes, 5, 13);
    }
    assert(modes@ =~= base_modes(reduced, directional));
    let mut out: Vec<(usize, i32)> = Vec::new();
    let mut i: usize = 0;
    while i < modes.len()
        invariant
            i <= modes@.len(),
            out@ == expanded(modes@.take(i as int), all),
        decreases modes@.len() - i,
    {
        let m: usize = modes[i];
        let ghost before = out@;
        assert(modes@.take(i + 1).drop_last() =~= modes@.take(i as int));
        out.push((m, 0));
        if m >= 5 && all {
            out.push((m, -1));
            out.push((m, 1));
            out.push((m, -2));
            out.push((m, 2));
            out.push((m, -3));
            out.push((m, 3));
        }
        assert(out@ =~= before + with_angles(m, all));
        i = i + 1;
    }
    assert(modes@.take(i as int) =~= modes@);
    out
}

/// Candidates that get the full search in a superblock.
pub fn luma_keep(speed: Speed) -> (n: usize)
    ensures
        n == if speed == Speed::Slow {
            8int
        } else {
            4int
        },
{
    if speed.try_angle_deltas() {
        8
    } else {
        4
    }
}

/// Candidates that get the full search in a single 32x32 leaf.
pub fn luma_leaf_keep(speed: Speed) -> (n: usize)
    ensures
        n == if speed == Speed::Fast {
            2int
        } else {
            3int
        },
{
    if speed.reduced_modes() {
        2
    } else {
        3
    }
}

/// Order of candidates: by score, equal ones by position.
pub open spec fn ranks_before(scores: Seq<u64>, a: int, b: int) -> bool {
    scores[a] < scores[b] || (scores[a] == scores[b] && a < b)
}

/// Whether a list holds the best candidates in order: as many as are kept, each
/// before the next, and all others after them.
pub open spec fn is_ranking(scores: Seq<u64>, keep: nat, out: Seq<usize>) -> bool {
    &&& out.len() == if scores.len() < keep {
        scores.len()
    } else {
        keep
    }
    &&& forall|i: int| 0 <= i < out.len() ==> 0 <= #[trigger] out[i] < scores.len()
    &&& forall|i: int, j: int|
        0 <= i < j < out.len() ==> ranks_before(
            scores,
            #[trigger] out[i] as int,
            #[trigger] out[j] as int,
        )
    &&& forall|k: int, i: int|
        #![trigger scores[k], out[i]]
        0 <= k < scores.len() && !out.contains(k as usize) && 0 <= i < out.len() ==> ranks_before(
            scores,
            out[i] as int,
            k,
        )
}

/// Whether a candidate comes after a given one.
spec fn comes_after(scores: Seq<u64>, after: Option<usize>, k: int) -> bool {
    match after {
        Some(a) => ranks_before(scores, a as int, k),
        None => true,
    }
}

/// Whether `r` is the best of the first `n` candidates that come after a given
/// one.
spec fn is_next(scores: Seq<u64>, after: Option<usize>, n: int, r: Option<usize>) -> bool {
    match r {
        Some(b) => {
            &&& b < n
            &&& comes_after(scores, after, b as int)
            &&& forall|k: int|
                #![trigger scores[k]]
                0 <= k < n && k != b && comes_after(scores, after, k) ==> ranks_before(
                    scores,
                    b as int,
                    k,
                )
        },
        None => forall|k: int| #![trigger scores[k]] 0 <= k < n ==> !comes_after(scores, after, k),
    }
}

fn next_best(scores: &[u64], after: Option<usize>) -> (r: Option<usize>)
    requires
        after matches Some(a) ==> a < scores@.len(),
    ensures
        is_next(scores@, after, scores@.len() as int, r),
{
    let mut best: Option<usize> = None;
    let mut i: usize = 0;
    while i < scores.len()
        invariant
            i <= scores@.len(),
            after matches Some(a) ==> a < scores@.len(),
            is_next(scores@, after, i as int, best),
        decreases scores@.len() - i,
    {
        let s: u64 = scores[i];
        let eligible = match after {
            Some(a) => scores[a] < s || (scores[a] == s && a < i),
            None => true,
        };
        if eligible {
            let better = match best {
                Some(b) => s < scores[b],
                None => true,
            };
            if better {
                best = Some(i);
            }
        }
        i = i + 1;
    }
    best
}

/// Rank candidates by score and keep the best; equal scores keep their order.
pub fn keep_best(scores: &[u64], keep: usize) -> (out: Vec<usize>)
    ensures
        is_ranking(scores@, keep as nat, out@),
{
    let mut out: Vec<usize> = Vec::new();
    let mut last: Option<usize> = None;
    while out.len() < keep && out.len() < scores.len()
        invariant
            out@.len() <= keep,
            out@.len() <= scores@.len(),
            match last {
                Some(a) => out@.len() > 0 && a == out@.last() && a < scores@.len(),
                None => out@.len() == 0,
            },
            forall|i: int| 0 <= i < out@.len() ==> 0 <= #[trigger] out@[i] < scores@.len(),
            forall|i: int, j: int|
                0 <= i < j < out@.len() ==> ranks_before(
                    scores@,
                    #[trigger] out@[i] as int,
                    #[trigger] out@[j] as int,
                ),
            forall|k: int, i: int|
                #![trigger scores@[k], out@[i]]
                0 <= k < scores@.len() && !out@.contains(k as usize) && 0 <= i < out@.len()
                    ==> ranks_before(scores@, out@[i] as int, k),
        decreases scores@.len() - out@.len(),
    {
        let n = next_best(scores, last);
        match n {
            Some(b) => {
                let ghost before = out@;
                out.push(b);
                proof {
                    assert forall|k: int, i: int|
                        #![trigger scores@[k], out@[i]]
                        0 <= k < scores@.len() && !out@.contains(k as usize) && 0 <= i
                            < out@.len() implies ranks_before(scores@, out@[i] as int, k) by {
                        assert(out@[out@.len() - 1] == b);
                        assert(!before.contains(k as usize)) by {
                            if before.contains(k as usize) {
                                let j = before.index_of(k as usize);
                                assert(out@[j] == k as usize);
                            }
                        }
                        if i == out@.len() - 1 {
                            assert(k != b);
                            match last {
                                Some(a) => {
                                    assert(before[before.len() - 1] == a);
                                    assert(ranks_before(scores@, a as int, k));
                                    assert(comes_after(scores@, last, k));
                                },
                                None => {},
                            }
                            assert(ranks_before(scores@, b as int, k));
                        } else {
                            assert(before[i] == out@[i]);
                        }
                    }
                    assert forall|i: int, j: int| 0 <= i < j < out@.len() implies ranks_before(
                        scores@,
                        #[trigger] out@[i] as int,
                        #[trigger] out@[j] as int,
                    ) by {
                        if j == out@.len() - 1 {
                            let a = last->0;
                            assert(before[before.len() - 1] == a);
                            if i < before.len() - 1 {
                                assert(ranks_before(scores@, before[i] as int, a as int));
                            }
                        } else {
                            assert(before[i] == out@[i] && before[j] == out@[j]);
                        }
                    }
                }
                last = Some(b);
            },
            None => {
                proof {
                    lemma_room_left(scores@, out@);
                    let k = choose|k: usize| k < scores@.len() && !#[trigger] out@.contains(k);
                    let kk = k as int;
                    assert(scores@[kk] >= 0);
                    assert(!comes_after(scores@, last, kk));
                    assert(out@[out@.len() - 1] == last->0);
                    assert(ranks_before(scores@, last->0 as int, kk));
                }
            },
        }
        if n.is_none() {
            return out;
        }
    }
    out
}

/// A list without repetition that is shorter than the candidates misses one.
proof fn lemma_room_left(scores: Seq<u64>, out: Seq<usize>)
    requires
        out.len() < scores.len(),
        scores.len() <= usize::MAX,
        forall|i: int| 0 <= i < out.len() ==> 0 <= #[trigger] out[i] < scores.len(),
    ensures
        exists|k: usize| k < scores.len() && !#[trigger] out.contains(k),
    decreases out.len(),
{
    let all = Set::new(|k: usize| k < scores.len());
    let seen = out.to_set();
    vstd::seq_lib::seq_to_set_is_finite(out);
    out.lemma_cardinality_of_set();
    if forall|k: usize| k < scores.len() ==> #[trigger] out.contains(k) {
        lemma_range_len(scores.len());
        assert(all.subset_of(seen)) by {
            assert forall|k: usize| all.contains(k) implies seen.contains(k) by {
                assert(out.contains(k));
            }
        }
        vstd::set_lib::lemma_len_subset(all, seen);
    }
}

proof fn lemma_range_len(n: nat)
    requires
        n <= usize::MAX,
    ensures
        Set::new(|k: usize| k < n).finite(),
        Set::new(|k: usize| k < n).len() == n,
    decreases n,
{
    let s = Set::new(|k: usize| k < n);
    if n == 0 {
        assert(s =~= Set::empty());
    } else {
        let m = (n - 1) as nat;
        lemma_range_len(m);
        let t = Set::new(|k: usize| k < m);
        assert(s =~= t.insert(m as usize));
    }
}

/// Every direction has its own mode.
pub proof fn law_directions_have_their_own_modes(a: int, b: int)
    requires
        5 <= a <= 12,
        5 <= b <= 12,
    ensures
        direction_of(a) == direction_of(b) ==> a == b,
        direction_of(5) == Direction::V,
        direction_of(6) == Direction::H,
        direction_of(7) == Direction::D45,
        direction_of(12) == Direction::D67,
{
}

/// A sample of a mode's block: the smooth modes 1 to 3 in both directions, down and
/// across, and PAETH for mode 4, from the references above its column and to the
/// left of its row.
pub proof fn law_modes_predict_in_place(
    rec: Seq<u16>,
    refs: IntraRefSpec,
    r: int,
    c: int,
)
    requires
        0 <= r < 32,
        0 <= c < 32,
    ensures
        ({
            let (above, left) = (
                intrapred::above_refs(rec, refs),
                intrapred::left_refs(rec, refs),
            );
            let corner = intrapred::corner_ref(rec, refs);
            let at = 32 * r + c;
            &&& mode_block(1, rec, refs)[at] == intrapred::smooth_block(32, above, left)[at]
            &&& mode_block(2, rec, refs)[at] == intrapred::smooth_v_block(32, above, left)[at]
            &&& mode_block(3, rec, refs)[at] == intrapred::smooth_h_block(32, above, left)[at]
            &&& mode_block(4, rec, refs)[at] == intrapred::paeth_block(32, above, left, corner)[at]
        }),
{
    let (above, left) = (intrapred::above_refs(rec, refs), intrapred::left_refs(rec, refs));
    let corner = intrapred::corner_ref(rec, refs);
    intrapred::law_blocks_are_predicted_in_place(32, above, left, corner, r, c);
    assert((32 * r + c) / 32 == r);
    assert((32 * r + c) % 32 == c);
    assert(r * 32 + c == 32 * r + c);
}

/// What a 32x32 transform of a superblock may refer to: the row above it from the
/// second row of the frame on and the column to its left from the second column on,
/// up to the end of the frame, whose sides grow to the multiples `right` and
/// `bottom` of 8. Beyond its own side it sees what the frame has to the right, but
/// for the last transform of the superblock, and below only for the first.
pub proof fn law_superblock_references(s: LumaPredictSpec, right: int, bottom: int)
    requires
        s.in_range(),
        right % 8 == 0,
        s.frame_width <= right < s.frame_width + 8,
        bottom % 8 == 0,
        s.frame_height <= bottom < s.frame_height + 8,
        s.x < right,
        s.y < bottom,
    ensures
        ({
            let r = s.refs();
            let (past, under) = (right - s.x - 32, bottom - s.y - 32);
            &&& r.stride == s.stride && r.y == s.y && r.x == s.x && r.block_size == 32
            &&& r.neutral == s.neutral
            &&& r.have_above <==> s.y > 0
            &&& r.have_left <==> s.x > 0
            &&& past >= 0 ==> r.available_above == 32
            &&& past < 0 ==> r.x + r.available_above == right
            &&& under >= 0 ==> r.available_left == 32
            &&& under < 0 ==> r.y + r.available_left == bottom
            &&& s.y == 0 || s.tx_index > 2 || past <= 0 ==> r.top_right == 0
            &&& s.y > 0 && s.tx_index <= 2 && past >= 32 ==> r.top_right == 32
            &&& s.y > 0 && s.tx_index <= 2 && 0 < past < 32 ==> r.top_right == past
            &&& s.x == 0 || s.tx_index > 0 || under <= 0 ==> r.bottom_left == 0
            &&& s.x > 0 && s.tx_index == 0 && under >= 32 ==> r.bottom_left == 32
            &&& s.x > 0 && s.tx_index == 0 && 0 < under < 32 ==> r.bottom_left == under
        }),
{
    assert(4 * frame::mi_units(s.frame_width as int) == right);
    assert(4 * frame::mi_units(s.frame_height as int) == bottom);
}

/// What a 32x32 transform of a leaf may refer to: as in a superblock, but only the
/// modes that look there see beyond its own side, and only where the samples there
/// are coded before it.
pub proof fn law_leaf_references(s: LumaLeafPredictSpec)
    requires
        s.in_range(),
        s.block_y % 4 == 0,
        s.block_x % 4 == 0,
        s.block_y + s.tx_y < 4 * s.mi_rows,
        s.block_x + s.tx_x < 4 * s.mi_cols,
    ensures
        ({
            let r = s.refs();
            let (y, x) = (s.block_y + s.tx_y, s.block_x + s.tx_x);
            let (past, under) = (4 * s.mi_cols - x - 32, 4 * s.mi_rows - y - 32);
            &&& r.stride == s.stride && r.y == y && r.x == x && r.block_size == 32
            &&& r.neutral == s.neutral
            &&& r.have_above <==> y > 0
            &&& r.have_left <==> x > 0
            &&& past >= 0 ==> r.available_above == 32
            &&& past < 0 ==> x + r.available_above == 4 * s.mi_cols
            &&& under >= 0 ==> r.available_left == 32
            &&& under < 0 ==> y + r.available_left == 4 * s.mi_rows
            &&& r.top_right > 0 ==> y > 0 && s.tx_index <= 2 && needs_top_right(s.mode as int)
                && s.top_right_coded() && r.top_right <= past
            &&& y > 0 && s.tx_index <= 2 && needs_top_right(s.mode as int) && s.top_right_coded()
                && past > 0 ==> r.top_right == if past < 32 {
                past
            } else {
                32
            }
            &&& r.bottom_left > 0 ==> x > 0 && s.tx_index == 0 && needs_bottom_left(s.mode as int)
                && s.bottom_left_coded() && r.bottom_left <= under
            &&& x > 0 && s.tx_index == 0 && needs_bottom_left(s.mode as int)
                && s.bottom_left_coded() && under > 0 ==> r.bottom_left == if under < 32 {
                under
            } else {
                32
            }
        }),
{
    assert(4 * (s.block_x as int / 4) == s.block_x);
    assert(4 * (s.block_y as int / 4) == s.block_y);
}

/// The modes that look to the right of the row above are the smooth ones across and
/// those of less than a right angle; those that look below the column to the left
/// are the smooth ones down and the steepest.
pub proof fn law_modes_look_beyond_their_edges(mode: int)
    requires
        0 <= mode <= 12,
    ensures
        needs_top_right(mode) <==> mode == 1 || mode == 3 || (mode >= 5 && (direction_of(mode)
            == Direction::D45 || direction_of(mode) == Direction::D67)),
        needs_bottom_left(mode) <==> mode == 1 || mode == 2 || (mode >= 5 && direction_of(mode)
            == Direction::D203),
{
}

/// What the left or the right 32x32 transform of a 64x32 leaf may refer to: it lies
/// 32 columns further for the right one, sees what the frame has to the right, and
/// nothing below.
pub proof fn law_half_leaf_references(s: LumaLeaf32)
    requires
        s.in_range(),
        s.x % 4 == 0,
        s.y < 4 * s.mi_rows,
        s.x + 32 * s.tx_index < 4 * s.mi_cols,
    ensures
        ({
            let r = s.refs();
            let x = s.x + 32 * s.tx_index;
            let (past, under) = (4 * s.mi_cols - x - 32, 4 * s.mi_rows - s.y - 32);
            &&& r.stride == s.stride && r.y == s.y && r.x == x && r.block_size == 32
            &&& r.neutral == s.neutral
            &&& r.have_above <==> s.y > 0
            &&& r.have_left <==> x > 0
            &&& past >= 0 ==> r.available_above == 32
            &&& past < 0 ==> x + r.available_above == 4 * s.mi_cols
            &&& under >= 0 ==> r.available_left == 32
            &&& under < 0 ==> s.y + r.available_left == 4 * s.mi_rows
            &&& s.y == 0 || past <= 0 ==> r.top_right == 0
            &&& s.y > 0 && past >= 32 ==> r.top_right == 32
            &&& s.y > 0 && 0 < past < 32 ==> r.top_right == past
            &&& r.bottom_left == 0
        }),
{
    assert(4 * (s.x as int / 4) == s.x);
}

proof fn lemma_expanded(modes: Seq<usize>, all: bool, mode: usize, delta: i32)
    ensures
        expanded(modes, all).contains((mode, delta)) <==> modes.contains(mode) && with_angles(
            mode,
            all,
        ).contains((mode, delta)),
    decreases modes.len(),
{
    if modes.len() == 0 {
        assert(!modes.contains(mode));
    } else {
        let (head, last) = (modes.drop_last(), modes.last());
        lemma_expanded(head, all, mode, delta);
        let (a, b) = (expanded(head, all), with_angles(last, all));
        let t = (mode, delta);
        if a.contains(t) {
            let i = choose|i: int| 0 <= i < a.len() && a[i] == t;
            assert((a + b)[i] == t);
        }
        if b.contains(t) {
            let i = choose|i: int| 0 <= i < b.len() && b[i] == t;
            assert((a + b)[a.len() + i] == t);
            assert(last == mode);
            assert(modes[modes.len() - 1] == mode);
        }
        if (a + b).contains(t) {
            let i = choose|i: int| 0 <= i < (a + b).len() && (a + b)[i] == t;
            if i < a.len() {
                assert(a[i] == t);
            } else {
                assert(b[i - a.len()] == t);
            }
        }
        if modes.contains(mode) && last != mode {
            let i = choose|i: int| 0 <= i < modes.len() && modes[i] == mode;
            assert(head[i] == mode);
        }
        if head.contains(mode) {
            let i = choose|i: int| 0 <= i < head.len() && head[i] == mode;
            assert(modes[i] == mode);
        }
    }
}

/// Candidates of a search: every mode but, where modes are reduced, the horizontal
/// smooth one and PAETH; directions only where they are allowed; and each direction
/// with up to three steps to both sides only where all angles are tried.
pub proof fn law_candidates_cover_the_modes(
    reduced: bool,
    directional: bool,
    all: bool,
    mode: usize,
    delta: i32,
)
    ensures
        expanded(base_modes(reduced, directional), all).contains((mode, delta)) <==> {
            &&& mode <= 12
            &&& reduced ==> mode != 3 && mode != 4
            &&& mode >= 5 ==> directional
            &&& if mode >= 5 && all {
                -3 <= delta <= 3
            } else {
                delta == 0
            }
        },
{
    let modes = base_modes(reduced, directional);
    lemma_expanded(modes, all, mode, delta);
    lemma_base_modes(reduced, directional, mode);
    let w = with_angles(mode, all);
    if mode < 5 {
        assert(w[0] == (mode, 0i32));
    } else {
        assert(w[0] == (mode, 0i32));
        if all {
            assert(w[1] == (mode, -1i32));
            assert(w[2] == (mode, 1i32));
            assert(w[3] == (mode, -2i32));
            assert(w[4] == (mode, 2i32));
            assert(w[5] == (mode, -3i32));
            assert(w[6] == (mode, 3i32));
        }
    }
}

proof fn lemma_base_modes(reduced: bool, directional: bool, mode: usize)
    ensures
        base_modes(reduced, directional).contains(mode) <==> mode <= 12 && (reduced ==> mode != 3
            && mode != 4) && (mode >= 5 ==> directional),
{
    let m = base_modes(reduced, directional);
    let at = if reduced && mode >= 5 {
        mode - 2
    } else {
        mode as int
    };
    if mode <= 12 && (reduced ==> mode != 3 && mode != 4) && (mode >= 5 ==> directional) {
        assert(m[at] == mode);
    }
}

/// Samples beyond a transform of a leaf are coded before it in the upper half of a
/// superblock: those to the right where the frame goes on there, and those below on
/// the left where the frame goes on there, on the right where the leaf is split.
pub proof fn law_upper_half_sees_beyond(s: LumaLeafPredictSpec)
    requires
        s.block_y % 4 == 0,
        s.block_x % 4 == 0,
        s.tx_y % 4 == 0,
        s.tx_x % 4 == 0,
    ensures
        ({
            let (y, x) = (s.block_y + s.tx_y, s.block_x + s.tx_x);
            &&& s.top_right_coded() <==> y % 64 < 32 && x + 32 < 4 * s.mi_cols
            &&& x % 64 < 32 ==> (s.bottom_left_coded() <==> y % 64 < 32 && y + 32 < 4 * s.mi_rows)
            &&& x % 64 >= 32 ==> (s.bottom_left_coded() <==> y % 64 < 32 && s.split_leaf)
        }),
{
}

/// A flat prediction is one value in all of its 1024 samples.
pub proof fn law_flat_predictions_are_flat(p: Predicted, v: u16, r: int, c: int)
    requires
        is_flat(p, v as nat),
        0 <= r < 32,
        0 <= c < 32,
    ensures
        p is Block,
        p->Block_0@.len() == 1024,
        p->Block_0@[32 * r + c] == v,
{
}

/// A prediction of a mode up to 4 is its block; that of any other is left to the
/// directional predictor with the references of the block, its direction and its
/// angle, and as far as each edge goes.
pub proof fn law_predictions_follow_their_mode(
    p: Predicted,
    mode: int,
    angle_delta: i32,
    rec: Seq<u16>,
    refs: IntraRefSpec,
)
    requires
        is_prediction(p, mode, angle_delta, rec, refs),
        mode >= 1,
    ensures
        p is Block <==> mode <= 4,
        p matches Predicted::Block(b) ==> b@ == mode_block(mode, rec, refs),
        p matches Predicted::Directional(j) ==> {
            &&& j.direction == direction_of(mode)
            &&& j.angle_delta == angle_delta
            &&& j.above@ == intrapred::above_refs(rec, refs)
            &&& j.left@ == intrapred::left_refs(rec, refs)
            &&& j.corner == intrapred::corner_ref(rec, refs)
            &&& j.have_top == refs.have_above
            &&& j.have_left == refs.have_left
            &&& j.max_width == 32 + refs.top_right
            &&& j.max_height == 32 + refs.bottom_left
        },
{
}

/// The flat mode takes the mean around the transform that the references are of; in a
/// superblock its edges end with the frame, whose sides grow to the multiples `lw` and
/// `lh` of 8.
pub proof fn law_flat_mode_is_the_mean_around_the_transform(
    s: LumaPredictSpec,
    half: LumaLeaf32,
    tu: LumaLeafPredictSpec,
    rec: Seq<u16>,
    lw: int,
    lh: int,
)
    requires
        s.frame_width < usize::MAX,
        s.frame_height < usize::MAX,
        lw % 8 == 0,
        s.frame_width <= lw < s.frame_width + 8,
        lh % 8 == 0,
        s.frame_height <= lh < s.frame_height + 8,
        s.x < lw,
        s.y < lh,
        half.in_range(),
        tu.in_range(),
    ensures
        s.flat_value(rec) == dcpred::dc_value(
            rec,
            s.stride as int,
            s.y as int,
            s.x as int,
            32,
            s.neutral,
            if lw - s.x < 32 {
                lw - s.x
            } else {
                32
            },
            if lh - s.y < 32 {
                lh - s.y
            } else {
                32
            },
        ),
        half.flat_value(rec) == dcpred::dc_value(
            rec,
            half.refs().stride as int,
            half.refs().y as int,
            half.refs().x as int,
            32,
            half.refs().neutral,
            32,
            32,
        ),
        tu.flat_value(rec) == dcpred::dc_value(
            rec,
            tu.refs().stride as int,
            tu.refs().y as int,
            tu.refs().x as int,
            32,
            tu.refs().neutral,
            32,
            32,
        ),
{
    dcpred::law_frame_sides_end_their_edges(
        rec,
        s.stride as int,
        s.y as int,
        s.x as int,
        32,
        s.neutral,
        s.frame_width as int,
        s.frame_height as int,
        lw,
        lh,
    );
}

} // verus!
