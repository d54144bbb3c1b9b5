//! Partition of a superblock at the frame boundary.
//!
//! Block sizes are numbered as in the bitstream:
//! 0 4x4, 1 4x8, 2 8x4, 3 8x8, 4 8x16, 5 16x8, 6 16x16, 7 16x32, 8 32x16,
//! 9 32x32, 10 32x64, 11 64x32, 12 64x64, 13 64x128, 14 128x64, 15 128x128,
//! 16 128x256, 17 256x128, 18 256x256, 19 4x16, 20 16x4, 21 8x32, 22 32x8,
//! 23 16x64, 24 64x16, 25 4x32, 26 32x4, 27 8x64, 28 64x8. Positions and sizes
//! are in units of four pixels.

use vstd::prelude::*;

verus! {

/// Stands for a block size that does not exist.
pub const INV: u8 = 0xff;

/// Cut by a horizontal line.
pub const HORZ: u8 = 0;

/// Cut by a vertical line.
pub const VERT: u8 = 1;

/// Width of each block size.
pub const MI_W: [usize; 29] = [
    1, 1, 2, 2, 2, 4, 4, 4, 8, 8, 8, 16, 16, 16, 32, 32, 32, 64, 64, 1, 4, 2, 8, 4, 16, 1, 8, 2, 16,
];

/// Height of each block size.
pub const MI_H: [usize; 29] = [
    1, 2, 1, 2, 4, 2, 4, 8, 4, 8, 16, 8, 16, 32, 16, 32, 64, 32, 64, 4, 1, 8, 2, 16, 4, 8, 1, 16, 2,
];

/// Base-2 logarithm of the width.
pub const MI_WL: [usize; 29] = [
    0, 0, 1, 1, 1, 2, 2, 2, 3, 3, 3, 4, 4, 4, 5, 5, 5, 6, 6, 0, 2, 1, 3, 2, 4, 0, 3, 1, 4,
];

/// Base-2 logarithm of the height.
pub const MI_HL: [usize; 29] = [
    0, 1, 0, 1, 2, 1, 2, 3, 2, 3, 4, 3, 4, 5, 4, 5, 6, 5, 6, 2, 0, 3, 1, 4, 2, 3, 0, 4, 1,
];

/// Context group of the split flag.
pub const BSIZE_MAP: [usize; 25] = [
    0, 0, 0, 0, 1, 1, 1, 2, 2, 2, 3, 3, 3, 4, 5, 6, 7, 8, 9, 10, 11, 12, 13, 14, 15,
];

/// Context group of the direction flag.
pub const BSIZE_RECT_MAP: [usize; 25] = [
    0, 0, 0, 0, 1, 2, 0, 1, 2, 3, 4, 5, 6, 7, 8, 9, 10, 11, 12, 13, 14, 13, 14, 13, 14,
];

/// Context that a block leaves for the blocks below it.
pub const PCTX_ABOVE: [u8; 29] = [
    63, 63, 62, 62, 62, 60, 60, 60, 56, 56, 56, 48, 48, 48, 32, 32, 32, 0, 0, 63, 60, 62, 56, 60,
    48, 63, 56, 62, 48,
];

/// Context that a block leaves for the blocks to its right.
pub const PCTX_LEFT: [u8; 29] = [
    63, 62, 63, 62, 60, 62, 60, 56, 60, 56, 48, 56, 48, 32, 48, 32, 0, 32, 0, 60, 63, 56, 62, 48,
    60, 56, 63, 48, 62,
];

/// Size of either half of a horizontal cut.
pub const SUBSIZE_HORZ: [u8; 29] = [
    255, 0, 255, 2, 3, 20, 5, 6, 22, 8, 9, 24, 11, 12, 255, 14, 15, 255, 17, 1, 255, 4, 26, 7, 28,
    19, 255, 21, 255,
];

/// Size of either half of a vertical cut.
pub const SUBSIZE_VERT: [u8; 29] = [
    255, 255, 0, 1, 19, 3, 4, 21, 6, 7, 23, 9, 10, 255, 12, 13, 255, 15, 16, 255, 2, 25, 5, 27, 8,
    255, 20, 255, 22,
];

/// Inverse probability of the split flag per context.
pub const DO_SPLIT_CDF0: [u32; 64] = [
    4684, 9013, 9134, 13400, 7807, 17827, 16614, 26863, 10834, 22328, 20784, 29294, 12276, 25805,
    24669, 31239, 8651, 24897, 9164, 24339, 5412, 10327, 23871, 25957, 15176, 27120, 27429, 31686,
    6625, 21389, 12626, 25367, 6533, 9094, 20327, 22286, 12105, 28576, 27494, 32055, 4513, 5398,
    9241, 11778, 6041, 11581, 7444, 14930, 6632, 16177, 12930, 22163, 9854, 20159, 21427, 28212,
    8550, 19709, 17390, 26910, 11124, 25001, 24459, 31081,
];

/// Inverse probability of the direction flag per context.
pub const RECT_TYPE_CDF0: [u32; 64] = [
    18124, 22595, 14239, 16697, 12505, 19955, 6156, 9491, 22174, 25768, 12766, 19879, 18914, 22018,
    14388, 15263, 18338, 21214, 12690, 13671, 17490, 22631, 10847, 18147, 13438, 16847, 6550, 8450,
    16384, 16384, 16384, 16384, 16384, 16384, 16384, 16384, 16702, 23543, 9919, 17951, 16384,
    16384, 16384, 16384, 16384, 16384, 16384, 16384, 14225, 19558, 8401, 14351, 8067, 16384, 16384,
    16384, 16384, 16384, 16384, 16384, 16384, 16384, 16384, 16384,
];

/// A syntax element of the partition, in coding order: the direction of a cut,
/// or a block that is not cut any further.
#[derive(Clone, Copy, Debug)]
pub enum Op {
    RectType { cdf: u32, val: u32 },
    Leaf { mi_row: usize, mi_col: usize, bw_mi: usize, bh_mi: usize, part_cdf: Option<u32> },
}

/// What becomes of a block.
pub enum Node {
    /// It lies outside the frame.
    Outside,
    /// It is coded whole, with a split flag or without.
    Leaf { flagged: bool },
    /// It is cut in two, with a direction flag or without.
    Cut { dir: u8, flagged: bool },
}

/// Blocks that can be cut.
pub open spec fn can_be_cut(b: int) -> bool {
    0 < b < 25
}

/// Direction that the shape of a block leaves as the only one.
pub open spec fn only_direction(b: int) -> Option<u8> {
    if b == 1 || b == 13 || b == 16 || b == 19 {
        Some(HORZ)
    } else if b == 2 || b == 14 || b == 17 || b == 20 {
        Some(VERT)
    } else {
        None
    }
}

/// Whether a cut in direction `dir` exists for a block.
pub open spec fn cut_exists(b: int, dir: u8) -> bool {
    if dir == HORZ {
        SUBSIZE_HORZ@[b] != INV && only_direction(b) != Some(VERT)
    } else {
        SUBSIZE_VERT@[b] != INV && only_direction(b) != Some(HORZ)
    }
}

/// More than the upper half of the block lies in the frame.
pub open spec fn has_rows(row: int, b: int, rows: int) -> bool {
    row + MI_H@[b] as int / 2 < rows
}

/// More than the left half of the block lies in the frame.
pub open spec fn has_cols(col: int, b: int, cols: int) -> bool {
    col + MI_W@[b] as int / 2 < cols
}

/// Cut that the frame boundary forces: a square is cut along the boundary it
/// crosses, an oblong across its long side if that side is cut off or if three
/// quarters of its short side are.
pub open spec fn forced_cut(row: int, col: int, b: int, rows: int, cols: int) -> Option<u8> {
    let w = MI_W@[b] as int;
    let h = MI_H@[b] as int;
    let r = has_rows(row, b, rows);
    let c = has_cols(col, b, cols);
    if r && c {
        None
    } else if w == h {
        if r {
            Some(VERT)
        } else {
            Some(HORZ)
        }
    } else if h > w {
        if !r || (w >= 4 && col + w / 4 >= cols) {
            Some(HORZ)
        } else {
            None
        }
    } else {
        if !c || (h >= 4 && row + h / 4 >= rows) {
            Some(VERT)
        } else {
            None
        }
    }
}

/// Decision on a block: what the boundary forces, else no cut where that is
/// possible, else the only cut there is, else the cut along the boundary.
pub open spec fn node(row: int, col: int, b: int, rows: int, cols: int) -> Node {
    let forced = forced_cut(row, col, b, rows, cols);
    if row >= rows || col >= cols {
        Node::Outside
    } else if !can_be_cut(b) {
        Node::Leaf { flagged: false }
    } else if forced is Some && cut_exists(b, forced->0) {
        Node::Cut { dir: forced->0, flagged: false }
    } else if has_rows(row, b, rows) && has_cols(col, b, cols) {
        Node::Leaf { flagged: true }
    } else if !cut_exists(b, VERT) {
        Node::Cut { dir: HORZ, flagged: false }
    } else if !cut_exists(b, HORZ) {
        Node::Cut { dir: VERT, flagged: false }
    } else {
        Node::Cut {
            dir: if has_rows(row, b, rows) {
                VERT
            } else {
                HORZ
            },
            flagged: true,
        }
    }
}

/// Size of the halves of a cut.
pub open spec fn half_size(b: int, dir: u8) -> int {
    if dir == HORZ {
        SUBSIZE_HORZ@[b] as int
    } else {
        SUBSIZE_VERT@[b] as int
    }
}

/// Area of a block.
pub open spec fn area(b: int) -> nat {
    MI_W@[b] as nat * MI_H@[b] as nat
}

/// The halves of a cut have half the height, or half the width, of the block.
proof fn lemma_half_size(b: int, dir: u8)
    requires
        can_be_cut(b),
        cut_exists(b, dir),
    ensures
        0 <= half_size(b, dir) < 29,
        dir == HORZ ==> MI_W@[half_size(b, dir)] == MI_W@[b] && 2 * MI_H@[half_size(b, dir)]
            == MI_H@[b],
        dir != HORZ ==> MI_H@[half_size(b, dir)] == MI_H@[b] && 2 * MI_W@[half_size(b, dir)]
            == MI_W@[b],
        1 <= MI_W@[b] <= 64,
        1 <= MI_H@[b] <= 64,
{
}

/// Every block that can be cut has a cut that exists, and one that is left as
/// the only one exists.
pub proof fn lemma_some_cut(b: int)
    requires
        can_be_cut(b),
    ensures
        cut_exists(b, HORZ) || cut_exists(b, VERT),
{
}

proof fn lemma_block_size(b: int)
    requires
        0 <= b < 29,
    ensures
        1 <= MI_W@[b] <= 64,
        1 <= MI_H@[b] <= 64,
        MI_WL@[b] <= 6,
        MI_HL@[b] <= 6,
        b < 25 ==> BSIZE_MAP@[b] <= 15,
        b < 25 ==> BSIZE_RECT_MAP@[b] <= 14,
{
}

/// The halves of a cut are smaller than the block.
pub proof fn lemma_area_shrinks(b: int, dir: u8)
    requires
        can_be_cut(b),
        cut_exists(b, dir),
    ensures
        0 <= half_size(b, dir) < 29,
        area(half_size(b, dir)) < area(b),
{
    lemma_half_size(b, dir);
    let s = half_size(b, dir);
    let (w, h) = (MI_W@[s] as int, MI_H@[s] as int);
    lemma_block_size(s);
    assert(w * h < w * (2 * h)) by (nonlinear_arith)
        requires
            w >= 1,
            h >= 1,
    ;
    assert(w * h < (2 * w) * h) by (nonlinear_arith)
        requires
            w >= 1,
            h >= 1,
    ;
}

/// Neighbor contexts and the syntax elements so far. `above` covers the frame
/// width, `left` the sixteen rows of a superblock.
pub struct Walk {
    pub above: Seq<u8>,
    pub left: Seq<u8>,
    pub ops: Seq<Op>,
}

/// Bit of a neighbor context that tells whether the neighbor is smaller.
pub open spec fn context_bit(ctx: u8, log2: nat) -> nat {
    let k = if log2 == 0 {
        0
    } else {
        (log2 - 1) as nat
    };
    ctx as nat / vstd::arithmetic::power2::pow2(k) % 2
}

/// Partition context of a block: twice the left bit plus the above bit.
pub open spec fn partition_context(w: Walk, row: int, col: int, b: int) -> nat {
    2 * context_bit(w.left[row % 16], MI_HL@[b] as nat) + context_bit(
        w.above[col],
        MI_WL@[b] as nat,
    )
}

/// `s` with the entries from `from` up to `to` set to `v`.
pub open spec fn filled(s: Seq<u8>, from: int, to: int, v: u8) -> Seq<u8> {
    Seq::new(
        s.len(),
        |i: int|
            if from <= i < to {
                v
            } else {
                s[i]
            },
    )
}

/// The state after a block that is not cut.
pub open spec fn with_leaf(w: Walk, row: int, col: int, b: int, flagged: bool) -> Walk {
    Walk {
        above: filled(w.above, col, col + MI_W@[b], PCTX_ABOVE@[b]),
        left: filled(
            w.left,
            row % 16,
            if row % 16 + MI_H@[b] < 16 {
                row % 16 + MI_H@[b]
            } else {
                16
            },
            PCTX_LEFT@[b],
        ),
        ops: w.ops.push(
            Op::Leaf {
                mi_row: row as usize,
                mi_col: col as usize,
                bw_mi: MI_W@[b],
                bh_mi: MI_H@[b],
                part_cdf: if flagged {
                    Some(
                        DO_SPLIT_CDF0@[(partition_context(w, row, col, b) + 4
                            * BSIZE_MAP@[b]) as int],
                    )
                } else {
                    None
                },
            },
        ),
    }
}

/// The state after the direction of a cut.
pub open spec fn with_direction(w: Walk, row: int, col: int, b: int, dir: u8) -> Walk {
    Walk {
        above: w.above,
        left: w.left,
        ops: w.ops.push(
            Op::RectType {
                cdf: RECT_TYPE_CDF0@[(partition_context(w, row, col, b) + 4
                    * BSIZE_RECT_MAP@[b]) as int],
                val: dir as u32,
            },
        ),
    }
}

/// The state after a whole block: its decision, and for a cut the upper or left
/// half and then the other one.
pub open spec fn walked(row: int, col: int, b: int, rows: int, cols: int, w: Walk) -> Walk
    decreases area(b),
    when 0 <= b < 29
{
    match node(row, col, b, rows, cols) {
        Node::Outside => w,
        Node::Leaf { flagged } => with_leaf(w, row, col, b, flagged),
        Node::Cut { dir, flagged } => {
            let sub = half_size(b, dir);
            proof {
                lemma_some_cut(b);
                lemma_area_shrinks(b, dir);
            }
            let start = if flagged {
                with_direction(w, row, col, b, dir)
            } else {
                w
            };
            let first = walked(row, col, sub, rows, cols, start);
            if dir == HORZ {
                walked(row + MI_H@[b] as int / 2, col, sub, rows, cols, first)
            } else {
                walked(row, col + MI_W@[b] as int / 2, sub, rows, cols, first)
            }
        },
    }
}

/// A cut that a block decides for exists.
proof fn lemma_node_cut(row: int, col: int, b: int, rows: int, cols: int)
    requires
        0 <= b < 29,
    ensures
        node(row, col, b, rows, cols) matches Node::Cut { dir, .. } ==> can_be_cut(b)
            && cut_exists(b, dir),
{
    if can_be_cut(b) {
        lemma_some_cut(b);
    }
}

/// A walk keeps the lengths of the contexts and appends to the elements.
pub proof fn lemma_walk_extends(row: int, col: int, b: int, rows: int, cols: int, w: Walk)
    requires
        0 <= b < 29,
    ensures
        walked(row, col, b, rows, cols, w).above.len() == w.above.len(),
        walked(row, col, b, rows, cols, w).left.len() == w.left.len(),
        w.ops.is_prefix_of(walked(row, col, b, rows, cols, w).ops),
    decreases area(b),
{
    lemma_node_cut(row, col, b, rows, cols);
    match node(row, col, b, rows, cols) {
        Node::Cut { dir, flagged } => {
            lemma_area_shrinks(b, dir);
            let sub = half_size(b, dir);
            let start = if flagged {
                with_direction(w, row, col, b, dir)
            } else {
                w
            };
            lemma_walk_extends(row, col, sub, rows, cols, start);
            let first = walked(row, col, sub, rows, cols, start);
            if dir == HORZ {
                lemma_walk_extends(row + MI_H@[b] as int / 2, col, sub, rows, cols, first);
            } else {
                lemma_walk_extends(row, col + MI_W@[b] as int / 2, sub, rows, cols, first);
            }
        },
        _ => {},
    }
}

/// A walk appends fewer than two elements per unit of the block.
pub proof fn lemma_walk_length(row: int, col: int, b: int, rows: int, cols: int, w: Walk)
    requires
        0 <= b < 29,
    ensures
        walked(row, col, b, rows, cols, w).ops.len() < w.ops.len() + 2 * area(b),
        area(b) <= 4096,
    decreases area(b),
{
    lemma_node_cut(row, col, b, rows, cols);
    lemma_block_size(b);
    assert(1 <= area(b) <= 4096) by (nonlinear_arith)
        requires
            1 <= MI_W@[b] <= 64,
            1 <= MI_H@[b] <= 64,
            area(b) == MI_W@[b] as nat * MI_H@[b] as nat,
    ;
    match node(row, col, b, rows, cols) {
        Node::Cut { dir, flagged } => {
            lemma_area_shrinks(b, dir);
            lemma_half_size(b, dir);
            let sub = half_size(b, dir);
            let (sw, sh) = (MI_W@[sub] as nat, MI_H@[sub] as nat);
            assert(2 * (sw * sh) == (2 * sw) * sh && 2 * (sw * sh) == sw * (2 * sh))
                by (nonlinear_arith);
            let start = if flagged {
                with_direction(w, row, col, b, dir)
            } else {
                w
            };
            lemma_walk_length(row, col, sub, rows, cols, start);
            let first = walked(row, col, sub, rows, cols, start);
            if dir == HORZ {
                lemma_walk_length(row + MI_H@[b] as int / 2, col, sub, rows, cols, first);
            } else {
                lemma_walk_length(row, col + MI_W@[b] as int / 2, sub, rows, cols, first);
            }
        },
        _ => {},
    }
}

// ---------------------------------------------------------------------------
// Code
// ---------------------------------------------------------------------------

fn is_partition_point(b: usize) -> (r: bool)
    ensures
        r == can_be_cut(b as int),
{
    b != 0 && b < 25
}

fn rect_type_implied(b: usize) -> (r: Option<u8>)
    ensures
        r == only_direction(b as int),
{
    match b {
        1 | 13 | 16 | 19 => Some(HORZ),
        2 | 14 | 17 | 20 => Some(VERT),
        _ => None,
    }
}

/// Cut forced by the frame boundary.
pub fn implied_boundary(mi_row: usize, mi_col: usize, b: usize, mi_rows: usize, mi_cols: usize) -> (r:
    Option<u8>)
    requires
        b < 29,
        mi_row + 64 <= usize::MAX,
        mi_col + 64 <= usize::MAX,
    ensures
        r == forced_cut(
            mi_row as int,
            mi_col as int,
            b as int,
            mi_rows as int,
            mi_cols as int,
        ),
{
    proof {
        lemma_block_size(b as int);
    }
    let w: usize = MI_W[b];
    let h: usize = MI_H[b];
    let has_rows: bool = mi_row + h / 2 < mi_rows;
    let has_cols: bool = mi_col + w / 2 < mi_cols;
    if has_rows && has_cols {
        return None;
    }
    if w == h {
        return if has_rows {
            Some(VERT)
        } else {
            Some(HORZ)
        };
    }
    if h > w {
        if !has_rows || (w >= 4 && mi_col + w / 4 >= mi_cols) {
            Some(HORZ)
        } else {
            None
        }
    } else {
        if !has_cols || (h >= 4 && mi_row + h / 4 >= mi_rows) {
            Some(VERT)
        } else {
            None
        }
    }
}

fn context_bit_of(ctx: u8, log2: usize) -> (r: usize)
    requires
        log2 <= 6,
    ensures
        r == context_bit(ctx, log2 as nat),
        r <= 1,
{
    let k: u32 = if log2 == 0 {
        0
    } else {
        log2 as u32 - 1
    };
    (crate::num::shift_right(ctx as u64, k) % 2) as usize
}

fn raw_ctx(above: &Vec<u8>, left: &Vec<u8>, mi_row: usize, mi_col: usize, b: usize) -> (ctx: usize)
    requires
        b < 29,
        mi_col < above@.len(),
        left@.len() >= 16,
    ensures
        forall|ops: Seq<Op>|
            ctx == #[trigger] partition_context(
                (Walk { above: above@, left: left@, ops }),
                mi_row as int,
                mi_col as int,
                b as int,
            ),
        ctx <= 3,
{
    proof {
        lemma_block_size(b as int);
    }
    let a: usize = context_bit_of(above[mi_col], MI_WL[b]);
    let l: usize = context_bit_of(left[mi_row % 16], MI_HL[b]);
    2 * l + a
}

fn fill_range(s: &mut Vec<u8>, from: usize, to: usize, v: u8)
    requires
        from <= to,
    ensures
        final(s)@ == filled(old(s)@, from as int, to as int, v),
{
    let ghost before = s@;
    let mut i: usize = from;
    while i < to && i < s.len()
        invariant
            from <= i <= to,
            s@.len() == before.len(),
            s@ =~= filled(before, from as int, i as int, v),
        decreases to - i,
    {
        s.set(i, v);
        i = i + 1;
    }
}

fn update_pctx(above: &mut Vec<u8>, left: &mut Vec<u8>, mi_row: usize, mi_col: usize, b: usize)
    requires
        b < 29,
        mi_col + 64 <= usize::MAX,
    ensures
        forall|w: Walk, flagged: bool|
            w.above == old(above)@ && w.left == old(left)@ ==> {
                let n = #[trigger] with_leaf(w, mi_row as int, mi_col as int, b as int, flagged);
                final(above)@ == n.above && final(left)@ == n.left
            },
{
    proof {
        lemma_block_size(b as int);
    }
    fill_range(above, mi_col, mi_col + MI_W[b], PCTX_ABOVE[b]);
    let base: usize = mi_row % 16;
    let end: usize = if base + MI_H[b] < 16 {
        base + MI_H[b]
    } else {
        16
    };
    fill_range(left, base, end, PCTX_LEFT[b]);
}

/// Direction of a cut that nothing forces: the only one there is, or the one
/// along the boundary together with its flag.
fn decide_signaled(
    mi_row: usize,
    mi_col: usize,
    b: usize,
    has_rows: bool,
    horz_valid: bool,
    vert_valid: bool,
    above: &Vec<u8>,
    left: &Vec<u8>,
    out: &mut Vec<Op>,
) -> (dir: u8)
    requires
        can_be_cut(b as int),
        mi_col < above@.len(),
        left@.len() >= 16,
    ensures
        !vert_valid ==> dir == HORZ && final(out)@ == old(out)@,
        vert_valid && !horz_valid ==> dir == VERT && final(out)@ == old(out)@,
        vert_valid && horz_valid ==> {
            &&& dir == if has_rows {
                VERT
            } else {
                HORZ
            }
            &&& final(out)@ == with_direction(
                (Walk { above: above@, left: left@, ops: old(out)@ }),
                mi_row as int,
                mi_col as int,
                b as int,
                dir,
            ).ops
        },
{
    if !vert_valid {
        HORZ
    } else if !horz_valid {
        VERT
    } else {
        let dir: u8 = if has_rows {
            VERT
        } else {
            HORZ
        };
        proof {
            lemma_block_size(b as int);
        }
        let ctx: usize = raw_ctx(above, left, mi_row, mi_col, b) + 4 * BSIZE_RECT_MAP[b];
        out.push(Op::RectType { cdf: RECT_TYPE_CDF0[ctx], val: dir as u32 });
        dir
    }
}

fn walk(
    mi_row: usize,
    mi_col: usize,
    b: usize,
    mi_rows: usize,
    mi_cols: usize,
    above: &mut Vec<u8>,
    left: &mut Vec<u8>,
    out: &mut Vec<Op>,
)
    requires
        b < 29,
        mi_rows + 128 <= usize::MAX,
        mi_cols + 128 <= usize::MAX,
        old(above)@.len() >= mi_cols,
        old(left)@.len() >= 16,
    ensures
        (Walk { above: final(above)@, left: final(left)@, ops: final(out)@ }) == walked(
            mi_row as int,
            mi_col as int,
            b as int,
            mi_rows as int,
            mi_cols as int,
            (Walk { above: old(above)@, left: old(left)@, ops: old(out)@ }),
        ),
    decreases area(b as int),
{
    let ghost w0 = Walk { above: above@, left: left@, ops: out@ };
    let ghost (r, c, bb, rr, cc) = (
        mi_row as int,
        mi_col as int,
        b as int,
        mi_rows as int,
        mi_cols as int,
    );
    if mi_row >= mi_rows || mi_col >= mi_cols {
        return;
    }
    proof {
        lemma_block_size(bb);
        lemma_node_cut(r, c, bb, rr, cc);
    }
    let w: usize = MI_W[b];
    let h: usize = MI_H[b];
    if !is_partition_point(b) {
        out.push(Op::Leaf { mi_row, mi_col, bw_mi: w, bh_mi: h, part_cdf: None });
        update_pctx(above, left, mi_row, mi_col, b);
        proof {
            let n = with_leaf(w0, r, c, bb, false);
            assert(out@ == n.ops);
        }
        return;
    }
    let has_rows: bool = mi_row + h / 2 < mi_rows;
    let has_cols: bool = mi_col + w / 2 < mi_cols;
    let implied: Option<u8> = rect_type_implied(b);
    let horz_valid: bool = SUBSIZE_HORZ[b] != INV && !matches!(implied, Some(d) if d == VERT);
    let vert_valid: bool = SUBSIZE_VERT[b] != INV && !matches!(implied, Some(d) if d == HORZ);
    let forced: Option<u8> = implied_boundary(mi_row, mi_col, b, mi_rows, mi_cols);
    let dir: u8;
    let forced_dir: Option<u8> = match forced {
        Some(d) => if (d == HORZ && horz_valid) || (d != HORZ && vert_valid) {
            Some(d)
        } else {
            None
        },
        None => None,
    };
    match forced_dir {
        Some(d) => {
            dir = d;
        },
        None => {
            if has_rows && has_cols {
                let ctx: usize = raw_ctx(above, left, mi_row, mi_col, b) + 4 * BSIZE_MAP[b];
                out.push(
                    Op::Leaf {
                        mi_row,
                        mi_col,
                        bw_mi: w,
                        bh_mi: h,
                        part_cdf: Some(DO_SPLIT_CDF0[ctx]),
                    },
                );
                update_pctx(above, left, mi_row, mi_col, b);
                proof {
                    let n = with_leaf(w0, r, c, bb, true);
                    assert(out@ == n.ops);
                }
                return;
            }
            dir = decide_signaled(
                mi_row,
                mi_col,
                b,
                has_rows,
                horz_valid,
                vert_valid,
                above,
                left,
                out,
            );
        },
    }
    let ghost w1 = Walk { above: above@, left: left@, ops: out@ };
    proof {
        let n = node(r, c, bb, rr, cc);
        assert(n is Cut && n->dir == dir);
        assert(w1 == if n->Cut_flagged {
            with_direction(w0, r, c, bb, dir)
        } else {
            w0
        });
        lemma_area_shrinks(bb, dir);
        lemma_half_size(bb, dir);
    }
    let sub: usize = if dir == HORZ {
        SUBSIZE_HORZ[b] as usize
    } else {
        SUBSIZE_VERT[b] as usize
    };
    walk(mi_row, mi_col, sub, mi_rows, mi_cols, above, left, out);
    proof {
        lemma_walk_extends(r, c, sub as int, rr, cc, w1);
    }
    if dir == HORZ {
        walk(mi_row + h / 2, mi_col, sub, mi_rows, mi_cols, above, left, out);
    } else {
        walk(mi_row, mi_col + w / 2, sub, mi_rows, mi_cols, above, left, out);
    }
}

/// Syntax elements of one superblock in coding order. `above_pctx` covers the
/// frame width and persists down the columns; `left_pctx` has sixteen entries
/// and is cleared by the caller at the start of each superblock row.
pub fn sb_partition_ops(
    sb_row: usize,
    sb_col: usize,
    mi_rows: usize,
    mi_cols: usize,
    above_pctx: &mut Vec<u8>,
    left_pctx: &mut Vec<u8>,
) -> (ops: Vec<Op>)
    requires
        mi_rows + 128 <= usize::MAX,
        mi_cols + 128 <= usize::MAX,
        sb_row * 16 <= usize::MAX,
        sb_col * 16 <= usize::MAX,
        old(above_pctx)@.len() >= mi_cols,
        old(left_pctx)@.len() >= 16,
    ensures
        (Walk { above: final(above_pctx)@, left: final(left_pctx)@, ops: ops@ }) == walked(
            sb_row * 16,
            sb_col * 16,
            12,
            mi_rows as int,
            mi_cols as int,
            (Walk { above: old(above_pctx)@, left: old(left_pctx)@, ops: Seq::empty() }),
        ),
{
    let mut out: Vec<Op> = Vec::new();
    walk(sb_row * 16, sb_col * 16, 12, mi_rows, mi_cols, above_pctx, left_pctx, &mut out);
    out
}

// ---------------------------------------------------------------------------
// Superblocks that no boundary cuts
// ---------------------------------------------------------------------------

/// Inverse probability of the split flag of a block, from its partition context.
pub open spec fn split_flag_cdf(w: Walk, row: int, col: int, b: int) -> u32 {
    DO_SPLIT_CDF0@[(partition_context(w, row, col, b) + 4 * BSIZE_MAP@[b]) as int]
}

/// The state after the four 32x32 quarters of a 64x64 block, row by row. Each of
/// them codes that it is not split.
pub open spec fn quartered(w: Walk, row: int, col: int) -> Walk {
    let first = with_leaf(w, row, col, 9, true);
    let second = with_leaf(first, row, col + 8, 9, true);
    let third = with_leaf(second, row + 8, col, 9, true);
    with_leaf(third, row + 8, col + 8, 9, true)
}

/// Inverse probability of the split flag of a superblock.
pub fn sb_none_do_split_cdf(
    sb_row: usize,
    sb_col: usize,
    above_pctx: &Vec<u8>,
    left_pctx: &Vec<u8>,
) -> (cdf: u32)
    requires
        sb_row * 16 <= usize::MAX,
        sb_col * 16 < above_pctx@.len(),
        left_pctx@.len() >= 16,
    ensures
        cdf == split_flag_cdf(
            (Walk { above: above_pctx@, left: left_pctx@, ops: Seq::empty() }),
            sb_row * 16,
            sb_col * 16,
            12,
        ),
{
    let cols: usize = above_pctx.len();
    let ctx: usize = raw_ctx(above_pctx, left_pctx, sb_row * 16, sb_col * 16, 12);
    proof {
        lemma_block_size(12);
        let w = Walk { above: above_pctx@, left: left_pctx@, ops: Seq::empty() };
        assert(ctx == partition_context(w, sb_row * 16, sb_col * 16, 12));
    }
    DO_SPLIT_CDF0[ctx + 4 * BSIZE_MAP[12]]
}

/// Leave the partition contexts of a superblock that is one block.
pub fn sb_none_pctx(
    sb_row: usize,
    sb_col: usize,
    above_pctx: &mut Vec<u8>,
    left_pctx: &mut Vec<u8>,
)
    requires
        sb_row * 16 <= usize::MAX,
        sb_col * 16 + 64 <= usize::MAX,
    ensures
        ({
            let w = with_leaf(
                (Walk { above: old(above_pctx)@, left: old(left_pctx)@, ops: Seq::empty() }),
                sb_row * 16,
                sb_col * 16,
                12,
                true,
            );
            final(above_pctx)@ == w.above && final(left_pctx)@ == w.left
        }),
{
    let ghost w = Walk { above: above_pctx@, left: left_pctx@, ops: Seq::empty() };
    update_pctx(above_pctx, left_pctx, sb_row * 16, sb_col * 16, 12);
    assert(with_leaf(w, sb_row * 16, sb_col * 16, 12, true).above == above_pctx@);
}

/// Append a block that codes that it is not split.
fn flagged_leaf(
    mi_row: usize,
    mi_col: usize,
    b: usize,
    above: &mut Vec<u8>,
    left: &mut Vec<u8>,
    out: &mut Vec<Op>,
)
    requires
        b < 25,
        mi_col < old(above)@.len(),
        mi_col + 64 <= usize::MAX,
        old(left)@.len() >= 16,
    ensures
        (Walk { above: final(above)@, left: final(left)@, ops: final(out)@ }) == with_leaf(
            (Walk { above: old(above)@, left: old(left)@, ops: old(out)@ }),
            mi_row as int,
            mi_col as int,
            b as int,
            true,
        ),
        final(above)@.len() == old(above)@.len(),
        final(left)@.len() == old(left)@.len(),
{
    let ghost w = Walk { above: above@, left: left@, ops: out@ };
    let ghost n = with_leaf(w, mi_row as int, mi_col as int, b as int, true);
    proof {
        lemma_block_size(b as int);
    }
    let ctx: usize = raw_ctx(above, left, mi_row, mi_col, b);
    assert(ctx == partition_context(w, mi_row as int, mi_col as int, b as int));
    out.push(
        Op::Leaf {
            mi_row,
            mi_col,
            bw_mi: MI_W[b],
            bh_mi: MI_H[b],
            part_cdf: Some(DO_SPLIT_CDF0[ctx + 4 * BSIZE_MAP[b]]),
        },
    );
    update_pctx(above, left, mi_row, mi_col, b);
    assert(n.above == above@ && n.left == left@);
}

/// The four quarters of a superblock, in coding order.
pub fn sb_square_split_ops(
    sb_row: usize,
    sb_col: usize,
    above_pctx: &mut Vec<u8>,
    left_pctx: &mut Vec<u8>,
) -> (ops: Vec<Op>)
    requires
        sb_row * 16 + 8 <= usize::MAX,
        sb_col * 16 + 8 < old(above_pctx)@.len(),
        sb_col * 16 + 72 <= usize::MAX,
        old(left_pctx)@.len() >= 16,
    ensures
        (Walk { above: final(above_pctx)@, left: final(left_pctx)@, ops: ops@ }) == quartered(
            (Walk { above: old(above_pctx)@, left: old(left_pctx)@, ops: Seq::empty() }),
            sb_row * 16,
            sb_col * 16,
        ),
{
    let mut out: Vec<Op> = Vec::new();
    let (r, c): (usize, usize) = (sb_row * 16, sb_col * 16);
    flagged_leaf(r, c, 9, above_pctx, left_pctx, &mut out);
    flagged_leaf(r, c + 8, 9, above_pctx, left_pctx, &mut out);
    flagged_leaf(r + 8, c, 9, above_pctx, left_pctx, &mut out);
    flagged_leaf(r + 8, c + 8, 9, above_pctx, left_pctx, &mut out);
    out
}

// ---------------------------------------------------------------------------
// Blocks
// ---------------------------------------------------------------------------

/// A rectangle of units.
pub struct Block {
    pub row: int,
    pub col: int,
    pub w: int,
    pub h: int,
}

impl Block {
    /// Whether the rectangle holds a unit.
    pub open spec fn holds(self, r: int, c: int) -> bool {
        self.row <= r < self.row + self.h && self.col <= c < self.col + self.w
    }
}

/// How many blocks of a list hold a unit.
pub open spec fn hold_count(blocks: Seq<Block>, r: int, c: int) -> nat
    decreases blocks.len(),
{
    if blocks.len() == 0 {
        0
    } else {
        hold_count(blocks.drop_last(), r, c) + if blocks.last().holds(r, c) {
            1nat
        } else {
            0nat
        }
    }
}

pub proof fn lemma_hold_count_append(a: Seq<Block>, b: Seq<Block>, r: int, c: int)
    ensures
        hold_count(a + b, r, c) == hold_count(a, r, c) + hold_count(b, r, c),
    decreases b.len(),
{
    if b.len() == 0 {
        assert(a + b =~= a);
    } else {
        lemma_hold_count_append(a, b.drop_last(), r, c);
        assert((a + b).drop_last() =~= a + b.drop_last());
    }
}

/// Blocks that are coded for a syntax element: one for a leaf.
pub open spec fn op_blocks(op: Op) -> Seq<Block> {
    match op {
        Op::Leaf { mi_row, mi_col, bw_mi, bh_mi, .. } => seq![
            Block { row: mi_row as int, col: mi_col as int, w: bw_mi as int, h: bh_mi as int },
        ],
        Op::RectType { .. } => Seq::empty(),
    }
}

/// The leaves among syntax elements, in order.
pub open spec fn leaf_blocks(ops: Seq<Op>) -> Seq<Block>
    decreases ops.len(),
{
    if ops.len() == 0 {
        Seq::empty()
    } else {
        leaf_blocks(ops.drop_last()) + op_blocks(ops.last())
    }
}

/// The leaves of a block in walk order. They depend on the frame alone, not on
/// the contexts.
pub open spec fn leaves_of(row: int, col: int, b: int, rows: int, cols: int) -> Seq<Block>
    decreases area(b),
    when 0 <= b < 29
{
    match node(row, col, b, rows, cols) {
        Node::Outside => Seq::empty(),
        Node::Leaf { .. } => seq![Block { row, col, w: MI_W@[b] as int, h: MI_H@[b] as int }],
        Node::Cut { dir, .. } => {
            let sub = half_size(b, dir);
            proof {
                lemma_some_cut(b);
                lemma_area_shrinks(b, dir);
            }
            leaves_of(row, col, sub, rows, cols) + if dir == HORZ {
                leaves_of(row + MI_H@[b] as int / 2, col, sub, rows, cols)
            } else {
                leaves_of(row, col + MI_W@[b] as int / 2, sub, rows, cols)
            }
        },
    }
}

/// A walk appends the leaves of its block, whatever the contexts.
pub proof fn law_walk_appends_leaves(row: int, col: int, b: int, rows: int, cols: int, w: Walk)
    requires
        0 <= b < 29,
        0 <= row,
        0 <= col,
        rows <= usize::MAX,
        cols <= usize::MAX,
    ensures
        leaf_blocks(walked(row, col, b, rows, cols, w).ops) == leaf_blocks(w.ops) + leaves_of(
            row,
            col,
            b,
            rows,
            cols,
        ),
    decreases area(b),
{
    lemma_node_cut(row, col, b, rows, cols);
    match node(row, col, b, rows, cols) {
        Node::Outside => {},
        Node::Leaf { flagged } => {
            let n = with_leaf(w, row, col, b, flagged);
            assert(n.ops.drop_last() =~= w.ops);
        },
        Node::Cut { dir, flagged } => {
            lemma_area_shrinks(b, dir);
            lemma_half_size(b, dir);
            let sub = half_size(b, dir);
            let start = if flagged {
                with_direction(w, row, col, b, dir)
            } else {
                w
            };
            if flagged {
                assert(start.ops.drop_last() =~= w.ops);
            }
            assert(leaf_blocks(start.ops) =~= leaf_blocks(w.ops));
            law_walk_appends_leaves(row, col, sub, rows, cols, start);
            let first = walked(row, col, sub, rows, cols, start);
            if dir == HORZ {
                let next = row + MI_H@[b] as int / 2;
                law_walk_appends_leaves(next, col, sub, rows, cols, first);
            } else {
                let next = col + MI_W@[b] as int / 2;
                law_walk_appends_leaves(row, next, sub, rows, cols, first);
            }
        },
    }
}

proof fn lemma_hold_count_leaves(ops: Seq<Op>, r: int, c: int)
    ensures
        hold_count(leaf_blocks(ops), r, c) == cover_count(ops, r, c),
    decreases ops.len(),
{
    if ops.len() > 0 {
        let (before, last) = (ops.drop_last(), ops.last());
        lemma_hold_count_leaves(before, r, c);
        lemma_hold_count_append(leaf_blocks(before), op_blocks(last), r, c);
        reveal_with_fuel(hold_count, 2);
    }
}

/// The leaves of a block hold each of its units inside the frame exactly once,
/// and nothing outside the block.
pub proof fn law_leaves_hold_each_unit_once(
    row: int,
    col: int,
    b: int,
    rows: int,
    cols: int,
    r: int,
    c: int,
)
    requires
        0 <= b < 29,
        0 <= row,
        0 <= col,
        rows <= usize::MAX,
        cols <= usize::MAX,
    ensures
        !in_block(row, col, b, r, c) ==> hold_count(leaves_of(row, col, b, rows, cols), r, c) == 0,
        in_block(row, col, b, r, c) && r < rows && c < cols ==> hold_count(
            leaves_of(row, col, b, rows, cols),
            r,
            c,
        ) == 1,
{
    let w = Walk { above: Seq::empty(), left: Seq::empty(), ops: Seq::empty() };
    law_walk_appends_leaves(row, col, b, rows, cols, w);
    law_leaves_tile_the_block(row, col, b, rows, cols, w, r, c);
    lemma_hold_count_leaves(walked(row, col, b, rows, cols, w).ops, r, c);
    assert(leaf_blocks(w.ops) + leaves_of(row, col, b, rows, cols) =~= leaves_of(
        row,
        col,
        b,
        rows,
        cols,
    ));
}

/// The quarters of a superblock in coding order.
pub open spec fn quarter_blocks(row: int, col: int) -> Seq<Block> {
    seq![
        Block { row, col, w: 8, h: 8 },
        Block { row, col: col + 8, w: 8, h: 8 },
        Block { row: row + 8, col, w: 8, h: 8 },
        Block { row: row + 8, col: col + 8, w: 8, h: 8 },
    ]
}

/// Quartering appends the quarters, whatever the contexts.
pub proof fn lemma_quartered_leaves(w: Walk, row: int, col: int)
    requires
        0 <= row && row + 8 <= usize::MAX,
        0 <= col && col + 8 <= usize::MAX,
        w.ops.len() == 0,
    ensures
        leaf_blocks(quartered(w, row, col).ops) == quarter_blocks(row, col),
        quartered(w, row, col).ops.len() == 4,
        quartered(w, row, col).above.len() == w.above.len(),
        quartered(w, row, col).left.len() == w.left.len(),
{
    let first = with_leaf(w, row, col, 9, true);
    let second = with_leaf(first, row, col + 8, 9, true);
    let third = with_leaf(second, row + 8, col, 9, true);
    let last = with_leaf(third, row + 8, col + 8, 9, true);
    assert(first.ops.drop_last() =~= w.ops);
    assert(second.ops.drop_last() =~= first.ops);
    assert(third.ops.drop_last() =~= second.ops);
    assert(last.ops.drop_last() =~= third.ops);
    assert(MI_W@[9] == 8 && MI_H@[9] == 8);
    let q = quarter_blocks(row, col);
    assert(leaf_blocks(first.ops) =~= q.take(1)) by {
        reveal_with_fuel(leaf_blocks, 2);
    }
    assert(leaf_blocks(second.ops) =~= q.take(2));
    assert(leaf_blocks(third.ops) =~= q.take(3));
    assert(leaf_blocks(last.ops) =~= q);
}

/// The quarters hold each unit of the superblock exactly once, and nothing else.
pub proof fn law_quarters_hold_each_unit_once(row: int, col: int, r: int, c: int)
    ensures
        hold_count(quarter_blocks(row, col), r, c) == if in_block(row, col, 12, r, c) {
            1nat
        } else {
            0nat
        },
{
    let q = quarter_blocks(row, col);
    let (q3, q2, q1) = (q.take(3), q.take(2), q.take(1));
    assert(q.drop_last() =~= q3);
    assert(q3.drop_last() =~= q2);
    assert(q2.drop_last() =~= q1);
    assert(q1.drop_last() =~= Seq::<Block>::empty());
    assert(q3.last() == q[2] && q2.last() == q[1] && q1.last() == q[0]);
    reveal_with_fuel(hold_count, 5);
}

// ---------------------------------------------------------------------------
// Coverage
// ---------------------------------------------------------------------------

/// Whether a leaf covers a position.
pub open spec fn covers(op: Op, r: int, c: int) -> bool {
    match op {
        Op::Leaf { mi_row, mi_col, bw_mi, bh_mi, .. } => mi_row <= r < mi_row + bh_mi && mi_col
            <= c < mi_col + bw_mi,
        Op::RectType { .. } => false,
    }
}

/// How many leaves cover a position.
pub open spec fn cover_count(ops: Seq<Op>, r: int, c: int) -> nat
    decreases ops.len(),
{
    if ops.len() == 0 {
        0
    } else {
        cover_count(ops.drop_last(), r, c) + if covers(ops.last(), r, c) {
            1nat
        } else {
            0nat
        }
    }
}

/// Whether a position lies in a block.
pub open spec fn in_block(row: int, col: int, b: int, r: int, c: int) -> bool {
    row <= r < row + MI_H@[b] && col <= c < col + MI_W@[b]
}

/// The leaves of a block cover each of its positions inside the frame exactly
/// once, and nothing outside the block.
pub proof fn law_leaves_tile_the_block(
    row: int,
    col: int,
    b: int,
    rows: int,
    cols: int,
    w: Walk,
    r: int,
    c: int,
)
    requires
        0 <= b < 29,
        0 <= row,
        0 <= col,
        rows <= usize::MAX,
        cols <= usize::MAX,
    ensures
        !in_block(row, col, b, r, c) ==> cover_count(walked(row, col, b, rows, cols, w).ops, r, c)
            == cover_count(w.ops, r, c),
        in_block(row, col, b, r, c) && r < rows && c < cols ==> cover_count(
            walked(row, col, b, rows, cols, w).ops,
            r,
            c,
        ) == cover_count(w.ops, r, c) + 1,
    decreases area(b),
{
    lemma_node_cut(row, col, b, rows, cols);
    lemma_block_size(b);
    match node(row, col, b, rows, cols) {
        Node::Outside => {},
        Node::Leaf { flagged } => {
            let n = with_leaf(w, row, col, b, flagged);
            assert(n.ops.drop_last() =~= w.ops);
        },
        Node::Cut { dir, flagged } => {
            lemma_area_shrinks(b, dir);
            lemma_half_size(b, dir);
            let sub = half_size(b, dir);
            let start = if flagged {
                with_direction(w, row, col, b, dir)
            } else {
                w
            };
            if flagged {
                assert(start.ops.drop_last() =~= w.ops);
            }
            law_leaves_tile_the_block(row, col, sub, rows, cols, start, r, c);
            let first = walked(row, col, sub, rows, cols, start);
            if dir == HORZ {
                let next = row + MI_H@[b] as int / 2;
                law_leaves_tile_the_block(next, col, sub, rows, cols, first, r, c);
            } else {
                let next = col + MI_W@[b] as int / 2;
                law_leaves_tile_the_block(row, next, sub, rows, cols, first, r, c);
            }
        },
    }
}

/// Every leaf of a block starts inside the frame and lies inside the block.
pub proof fn law_leaves_start_inside(
    row: int,
    col: int,
    b: int,
    rows: int,
    cols: int,
    w: Walk,
    k: int,
)
    requires
        0 <= b < 29,
        0 <= row,
        0 <= col,
        rows <= usize::MAX,
        cols <= usize::MAX,
        w.ops.len() <= k < walked(row, col, b, rows, cols, w).ops.len(),
    ensures
        walked(row, col, b, rows, cols, w).ops[k] matches Op::Leaf {
            mi_row,
            mi_col,
            bw_mi,
            bh_mi,
            ..
        } ==> {
            &&& row <= mi_row < rows
            &&& col <= mi_col < cols
            &&& bw_mi >= 1
            &&& bh_mi >= 1
            &&& mi_row + bh_mi <= row + MI_H@[b]
            &&& mi_col + bw_mi <= col + MI_W@[b]
        },
    decreases area(b),
{
    lemma_node_cut(row, col, b, rows, cols);
    lemma_block_size(b);
    match node(row, col, b, rows, cols) {
        Node::Outside => {},
        Node::Leaf { flagged } => {},
        Node::Cut { dir, flagged } => {
            lemma_area_shrinks(b, dir);
            lemma_half_size(b, dir);
            let sub = half_size(b, dir);
            let start = if flagged {
                with_direction(w, row, col, b, dir)
            } else {
                w
            };
            let first = walked(row, col, sub, rows, cols, start);
            lemma_walk_extends(row, col, sub, rows, cols, start);
            let (next_row, next_col) = if dir == HORZ {
                (row + MI_H@[b] as int / 2, col)
            } else {
                (row, col + MI_W@[b] as int / 2)
            };
            lemma_walk_extends(next_row, next_col, sub, rows, cols, first);
            let last = walked(next_row, next_col, sub, rows, cols, first);
            if k < start.ops.len() {
                assert(first.ops[k] == start.ops[k]);
                assert(last.ops[k] == first.ops[k]);
            } else if k < first.ops.len() {
                law_leaves_start_inside(row, col, sub, rows, cols, start, k);
                assert(last.ops[k] == first.ops[k]);
            } else {
                law_leaves_start_inside(next_row, next_col, sub, rows, cols, first, k);
            }
        },
    }
}

// ---------------------------------------------------------------------------
// What a walk does
// ---------------------------------------------------------------------------

/// A square block is cut without a flag where it leaves the frame: across where its
/// lower half does, down where only its right half does, and not at all where the
/// frame goes on behind its middle in both directions.
pub proof fn law_squares_are_cut_where_the_frame_ends(
    row: int,
    col: int,
    b: int,
    rows: int,
    cols: int,
)
    requires
        0 <= b < 29,
        MI_W@[b] == MI_H@[b],
    ensures
        ({
            let half = MI_W@[b] as int / 2;
            let cut = forced_cut(row, col, b, rows, cols);
            &&& row + half < rows && col + half < cols ==> cut is None
            &&& row + half >= rows ==> cut == Some(HORZ)
            &&& row + half < rows && col + half >= cols ==> cut == Some(VERT)
        }),
{
}

/// A tall block that leaves the frame is only ever cut across without a flag, and a
/// wide one only down: where its longer side ends beyond its middle, or its shorter
/// one beyond a quarter.
pub proof fn law_long_blocks_are_cut_across(row: int, col: int, b: int, rows: int, cols: int)
    requires
        0 <= b < 29,
    ensures
        ({
            let (w, h) = (MI_W@[b] as int, MI_H@[b] as int);
            let cut = forced_cut(row, col, b, rows, cols);
            &&& h > w ==> cut != Some(VERT)
            &&& w > h ==> cut != Some(HORZ)
            &&& h > w && row + h / 2 >= rows ==> cut == Some(HORZ)
            &&& w > h && col + w / 2 >= cols ==> cut == Some(VERT)
            &&& row + h / 2 < rows && col + w / 2 < cols ==> cut is None
        }),
{
}

/// A leaf leaves the context of its width above the columns that it covers and that
/// of its height beside its rows within the superblock, and nothing anywhere else. It
/// is appended with its place and its size, and with a flag where it has one.
pub proof fn law_leaf_leaves_its_contexts(
    w: Walk,
    row: int,
    col: int,
    b: int,
    flagged: bool,
    i: int,
)
    requires
        0 <= b < 29,
        0 <= row <= usize::MAX,
        0 <= col <= usize::MAX,
    ensures
        ({
            let after = with_leaf(w, row, col, b, flagged);
            let (bw, bh) = (MI_W@[b] as int, MI_H@[b] as int);
            let r = row % 16;
            &&& after.above.len() == w.above.len()
            &&& after.left.len() == w.left.len()
            &&& 0 <= i < w.above.len() ==> after.above[i] == if col <= i < col + bw {
                PCTX_ABOVE@[b]
            } else {
                w.above[i]
            }
            &&& 0 <= i < w.left.len() ==> after.left[i] == if r <= i < r + bh && i < 16 {
                PCTX_LEFT@[b]
            } else {
                w.left[i]
            }
            &&& after.ops.len() == w.ops.len() + 1
            &&& after.ops.drop_last() == w.ops
            &&& after.ops.last() matches Op::Leaf { mi_row, mi_col, bw_mi, bh_mi, part_cdf }
                && mi_row == row && mi_col == col && bw_mi == bw && bh_mi == bh && (part_cdf is Some
                <==> flagged)
        }),
{
    assert(with_leaf(w, row, col, b, flagged).ops.drop_last() =~= w.ops);
}

/// The contexts of a flag tell of each neighbor whether it is at most half as wide,
/// or as high, as the block: the one to the left counts two, the one above one.
pub proof fn law_contexts_tell_of_smaller_neighbors(n: int, b: int)
    requires
        0 <= n < 29,
        0 <= b < 29,
    ensures
        MI_W@[b] >= 2 ==> (context_bit(PCTX_ABOVE@[n], MI_WL@[b] as nat) == 1 <==> 2 * MI_W@[n]
            <= MI_W@[b]),
        MI_H@[b] >= 2 ==> (context_bit(PCTX_LEFT@[n], MI_HL@[b] as nat) == 1 <==> 2 * MI_H@[n]
            <= MI_H@[b]),
        context_bit(PCTX_ABOVE@[n], MI_WL@[b] as nat) <= 1,
        context_bit(PCTX_LEFT@[n], MI_HL@[b] as nat) <= 1,
{
    vstd::arithmetic::power2::lemma2_to64();
    lemma_size_logs(n);
    lemma_size_logs(b);
    lemma_context_of_size(PCTX_ABOVE@[n], MI_W@[n] as int, MI_WL@[b] as nat, MI_W@[b] as int);
    lemma_context_of_size(PCTX_LEFT@[n], MI_H@[n] as int, MI_HL@[b] as nat, MI_H@[b] as int);
}

spec fn is_extent(n: int) -> bool {
    n == 1 || n == 2 || n == 4 || n == 8 || n == 16 || n == 32 || n == 64
}

spec fn extent_log(n: int) -> nat {
    if n == 1 {
        0
    } else if n == 2 {
        1
    } else if n == 4 {
        2
    } else if n == 8 {
        3
    } else if n == 16 {
        4
    } else if n == 32 {
        5
    } else {
        6
    }
}

proof fn lemma_size_logs(b: int)
    requires
        0 <= b < 29,
    ensures
        is_extent(MI_W@[b] as int),
        is_extent(MI_H@[b] as int),
        MI_WL@[b] == extent_log(MI_W@[b] as int),
        MI_HL@[b] == extent_log(MI_H@[b] as int),
        PCTX_ABOVE@[b] + MI_W@[b] == 64,
        PCTX_LEFT@[b] + MI_H@[b] == 64,
{
}

proof fn lemma_context_of_size(ctx: u8, n: int, log2: nat, m: int)
    requires
        is_extent(n),
        is_extent(m),
        ctx + n == 64,
        log2 == extent_log(m),
    ensures
        m >= 2 ==> (context_bit(ctx, log2) == 1 <==> 2 * n <= m),
        context_bit(ctx, log2) <= 1,
{
    vstd::arithmetic::power2::lemma2_to64();
    let c = ctx as nat;
    let k: nat = if log2 == 0 {
        0
    } else {
        (log2 - 1) as nat
    };
    let p = vstd::arithmetic::power2::pow2(k);
    assert(p == 1 || p == 2 || p == 4 || p == 8 || p == 16 || p == 32);
    assert(m >= 2 ==> m == 2 * p);
    let q = c / p;
    if p == 1 {
        assert(q == c / 1);
    } else if p == 2 {
        assert(q == c / 2);
    } else if p == 4 {
        assert(q == c / 4);
    } else if p == 8 {
        assert(q == c / 8);
    } else if p == 16 {
        assert(q == c / 16);
    } else {
        assert(q == c / 32);
    }
}

/// The first leaf of a block that starts in the frame starts with it: a cut block
/// has its upper, or its left, half first.
pub proof fn law_first_leaf_starts_with_the_block(
    row: int,
    col: int,
    b: int,
    rows: int,
    cols: int,
)
    requires
        0 <= b < 29,
        0 <= row < rows,
        0 <= col < cols,
    ensures
        ({
            let leaves = leaves_of(row, col, b, rows, cols);
            leaves.len() > 0 && leaves[0].row == row && leaves[0].col == col
        }),
    decreases area(b),
{
    match node(row, col, b, rows, cols) {
        Node::Cut { dir, .. } => {
            lemma_some_cut(b);
            lemma_area_shrinks(b, dir);
            lemma_node_cut(row, col, b, rows, cols);
            law_first_leaf_starts_with_the_block(row, col, half_size(b, dir), rows, cols);
        },
        _ => {},
    }
}

/// The context of a flag, from what the neighbors left: two where the one to the left
/// is at most half as high as the block, and one where the one above is at most half
/// as wide. A leaf's flag takes its table entry by that and by its size.
pub proof fn law_flags_go_by_both_neighbors(
    w: Walk,
    row: int,
    col: int,
    b: int,
    beside: int,
    over: int,
)
    requires
        0 <= b < 25,
        0 <= beside < 29,
        0 <= over < 29,
        MI_W@[b] >= 2,
        MI_H@[b] >= 2,
        w.left[row % 16] == PCTX_LEFT@[beside],
        w.above[col] == PCTX_ABOVE@[over],
    ensures
        ({
            let ctx = (if 2 * MI_H@[beside] <= MI_H@[b] {
                2int
            } else {
                0
            }) + (if 2 * MI_W@[over] <= MI_W@[b] {
                1int
            } else {
                0
            });
            &&& partition_context(w, row, col, b) == ctx
            &&& split_flag_cdf(w, row, col, b) == DO_SPLIT_CDF0@[ctx + 4 * BSIZE_MAP@[b]]
            &&& with_leaf(w, row, col, b, true).ops.last()->part_cdf == Some(
                DO_SPLIT_CDF0@[ctx + 4 * BSIZE_MAP@[b]],
            )
            &&& with_leaf(w, row, col, b, false).ops.last()->part_cdf is None
        }),
{
    law_contexts_tell_of_smaller_neighbors(beside, b);
    law_contexts_tell_of_smaller_neighbors(over, b);
}

/// A direction that is not implied is coded by its number, and changes no context.
pub proof fn law_directions_are_coded_by_number(w: Walk, row: int, col: int, b: int, dir: u8)
    ensures
        ({
            let after = with_direction(w, row, col, b, dir);
            &&& after.above == w.above
            &&& after.left == w.left
            &&& after.ops.len() == w.ops.len() + 1
            &&& after.ops.last() matches Op::RectType { val, .. } && val == dir
            &&& after.ops.drop_last() == w.ops
        }),
{
    assert(with_direction(w, row, col, b, dir).ops.drop_last() =~= w.ops);
}

/// A block outside the frame is nothing; one that lies in it with both its halves is a
/// leaf, with a flag where it could be cut; and one that leaves it is cut.
pub proof fn law_blocks_are_leaves_inside_the_frame(
    row: int,
    col: int,
    b: int,
    rows: int,
    cols: int,
)
    requires
        0 <= b < 29,
    ensures
        ({
            let (w, h) = (MI_W@[b] as int, MI_H@[b] as int);
            let n = node(row, col, b, rows, cols);
            let inside = row + h / 2 < rows && col + w / 2 < cols;
            &&& n == Node::Outside <==> row >= rows || col >= cols
            &&& row < rows && col < cols && (b == 0 || b >= 25) ==> n == (Node::Leaf {
                flagged: false,
            })
            &&& row < rows && col < cols && inside && 0 < b < 25 ==> n == (Node::Leaf {
                flagged: true,
            })
            &&& row < rows && col < cols && !inside && 0 < b < 25 ==> n is Cut
        }),
{
    if row < rows && col < cols && 0 < b < 25 {
        law_long_blocks_are_cut_across(row, col, b, rows, cols);
        if MI_W@[b] == MI_H@[b] {
            law_squares_are_cut_where_the_frame_ends(row, col, b, rows, cols);
        }
    }
}

} // verus!
