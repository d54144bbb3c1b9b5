//! Dequantization, and the exact 16x16 inverse transform of the sine and mixed
//! types.

use crate::num;
use crate::plane;
use vstd::arithmetic::mul::*;
use vstd::arithmetic::power2::*;
use vstd::prelude::*;

verus! {

/// Inverse 16-point sine transform: entry `16 * k + j` weighs coefficient `k` in
/// sample `j`.
pub const AVM_ADST16_INV: [i16; 256] = [
    8, 17, 25, 33, 41, 48, 55, 62, 67, 73, 77, 81, 84, 87, 88, 89,
    25, 48, 67, 81, 88, 88, 81, 67, 48, 25, 0, -25, -48, -67, -81, -88,
    41, 73, 88, 84, 62, 25, -17, -55, -81, -89, -77, -48, -8, 33, 67, 87,
    55, 87, 81, 41, -17, -67, -89, -73, -25, 33, 77, 88, 62, 8, -48, -84,
    67, 88, 48, -25, -81, -81, -25, 48, 88, 67, 0, -67, -88, -48, 25, 81,
    77, 77, 0, -77, -77, 0, 77, 77, 0, -77, -77, 0, 77, 77, 0, -77,
    84, 55, -48, -87, -8, 81, 62, -41, -88, -17, 77, 67, -33, -89, -25, 73,
    88, 25, -81, -48, 67, 67, -48, -81, 25, 88, 0, -88, -25, 81, 48, -67,
    89, -8, -88, 17, 87, -25, -84, 33, 81, -41, -77, 48, 73, -55, -67, 62,
    87, -41, -67, 73, 33, -88, 8, 84, -48, -62, 77, 25, -89, 17, 81, -55,
    81, -67, -25, 88, -48, -48, 88, -25, -67, 81, 0, -81, 67, 25, -88, 48,
    73, -84, 25, 55, -89, 48, 33, -87, 67, 8, -77, 81, -17, -62, 88, -41,
    62, -89, 67, -8, -55, 88, -73, 17, 48, -87, 77, -25, -41, 84, -81, 33,
    48, -81, 88, -67, 25, 25, -67, 88, -81, 48, 0, -48, 81, -88, 67, -25,
    33, -62, 81, -89, 84, -67, 41, -8, -25, 55, -77, 88, -87, 73, -48, 17,
    17, -33, 48, -62, 73, -81, 87, -89, 88, -84, 77, -67, 55, -41, 25, -8,
];

/// Inverse 16-point cosine transform, in the same layout.
pub const AVM_DCT16_INV: [i16; 256] = [
    64, 64, 64, 64, 64, 64, 64, 64, 64, 64, 64, 64, 64, 64, 64, 64,
    90, 87, 80, 70, 57, 43, 26, 9, -9, -26, -43, -57, -70, -80, -87, -90,
    89, 75, 50, 18, -18, -50, -75, -89, -89, -75, -50, -18, 18, 50, 75, 89,
    87, 57, 9, -43, -80, -90, -70, -26, 26, 70, 90, 80, 43, -9, -57, -87,
    83, 35, -35, -83, -83, -35, 35, 83, 83, 35, -35, -83, -83, -35, 35, 83,
    80, 9, -70, -87, -26, 57, 90, 43, -43, -90, -57, 26, 87, 70, -9, -80,
    75, -18, -89, -50, 50, 89, 18, -75, -75, 18, 89, 50, -50, -89, -18, 75,
    70, -43, -87, 9, 90, 26, -80, -57, 57, 80, -26, -90, -9, 87, 43, -70,
    64, -64, -64, 64, 64, -64, -64, 64, 64, -64, -64, 64, 64, -64, -64, 64,
    57, -80, -26, 90, -9, -87, 43, 70, -70, -43, 87, 9, -90, 26, 80, -57,
    50, -89, 18, 75, -75, -18, 89, -50, -50, 89, -18, -75, 75, 18, -89, 50,
    43, -90, 57, 26, -87, 70, 9, -80, 80, -9, -70, 87, -26, -57, 90, -43,
    35, -83, 83, -35, -35, 83, -83, 35, 35, -83, 83, -35, -35, 83, -83, 35,
    26, -70, 90, -80, 43, 9, -57, 87, -87, 57, -9, -43, 80, -90, 70, -26,
    18, -50, 75, -89, 89, -75, 50, -18, -18, 50, -75, 89, -89, 75, -50, 18,
    9, -26, 43, -57, 70, -80, 87, -90, 90, -87, 80, -70, 57, -43, 26, -9,
];

// ---------------------------------------------------------------------------
// Dequantization
// ---------------------------------------------------------------------------

/// Sides of a transform.
pub open spec fn tx_side(n: int) -> bool {
    n == 4 || n == 8 || n == 16 || n == 32 || n == 64
}

/// Base-2 logarithm of a transform side.
pub open spec fn side_exponent(n: int) -> int {
    if n == 4 {
        2
    } else if n == 8 {
        3
    } else if n == 16 {
        4
    } else if n == 32 {
        5
    } else {
        6
    }
}

/// Bits by which large transforms scale their coefficients down.
pub open spec fn tx_scale(w: int, h: int) -> int {
    let s = side_exponent(w) + side_exponent(h);
    if s <= 8 {
        0
    } else {
        (s - 7) / 2
    }
}

fn side_exponent_of(n: usize) -> (k: u32)
    requires
        tx_side(n as int),
    ensures
        k == side_exponent(n as int),
        2 <= k <= 6,
{
    if n == 4 {
        2
    } else if n == 8 {
        3
    } else if n == 16 {
        4
    } else if n == 32 {
        5
    } else {
        6
    }
}

/// Scale bits of a transform.
pub fn dc_tx_scale(w: usize, h: usize) -> (s: u32)
    requires
        tx_side(w as int),
        tx_side(h as int),
    ensures
        s == tx_scale(w as int, h as int),
        s <= 2,
{
    let s: u32 = side_exponent_of(w) + side_exponent_of(h);
    if s <= 8 {
        0
    } else {
        (s - 7) / 2
    }
}

/// Transforms by width and height.
#[derive(Clone, Copy, Debug, PartialEq, Eq, Structural)]
pub enum TxSize {
    Tx4x4,
    Tx8x8,
    Tx16x16,
    Tx32x32,
    Tx64x64,
    Tx4x8,
    Tx8x4,
    Tx8x16,
    Tx16x8,
    Tx16x32,
    Tx32x16,
    Tx32x64,
    Tx64x32,
    Tx4x16,
    Tx16x4,
    Tx8x32,
    Tx32x8,
    Tx16x64,
    Tx64x16,
    Tx4x32,
    Tx32x4,
    Tx8x64,
    Tx64x8,
    Tx4x64,
    Tx64x4,
}

/// Width and height of a transform.
pub open spec fn extent(tx: TxSize) -> (int, int) {
    match tx {
        TxSize::Tx4x4 => (4, 4),
        TxSize::Tx8x8 => (8, 8),
        TxSize::Tx16x16 => (16, 16),
        TxSize::Tx32x32 => (32, 32),
        TxSize::Tx64x64 => (64, 64),
        TxSize::Tx4x8 => (4, 8),
        TxSize::Tx8x4 => (8, 4),
        TxSize::Tx8x16 => (8, 16),
        TxSize::Tx16x8 => (16, 8),
        TxSize::Tx16x32 => (16, 32),
        TxSize::Tx32x16 => (32, 16),
        TxSize::Tx32x64 => (32, 64),
        TxSize::Tx64x32 => (64, 32),
        TxSize::Tx4x16 => (4, 16),
        TxSize::Tx16x4 => (16, 4),
        TxSize::Tx8x32 => (8, 32),
        TxSize::Tx32x8 => (32, 8),
        TxSize::Tx16x64 => (16, 64),
        TxSize::Tx64x16 => (64, 16),
        TxSize::Tx4x32 => (4, 32),
        TxSize::Tx32x4 => (32, 4),
        TxSize::Tx8x64 => (8, 64),
        TxSize::Tx64x8 => (64, 8),
        TxSize::Tx4x64 => (4, 64),
        TxSize::Tx64x4 => (64, 4),
    }
}

/// The transform of a width and a height.
pub fn dc_tx_index(w: usize, h: usize) -> (tx: TxSize)
    requires
        tx_side(w as int),
        tx_side(h as int),
    ensures
        extent(tx) == (w as int, h as int),
{
    match (w, h) {
        (4, 4) => TxSize::Tx4x4,
        (8, 8) => TxSize::Tx8x8,
        (16, 16) => TxSize::Tx16x16,
        (32, 32) => TxSize::Tx32x32,
        (64, 64) => TxSize::Tx64x64,
        (4, 8) => TxSize::Tx4x8,
        (8, 4) => TxSize::Tx8x4,
        (8, 16) => TxSize::Tx8x16,
        (16, 8) => TxSize::Tx16x8,
        (16, 32) => TxSize::Tx16x32,
        (32, 16) => TxSize::Tx32x16,
        (32, 64) => TxSize::Tx32x64,
        (64, 32) => TxSize::Tx64x32,
        (4, 16) => TxSize::Tx4x16,
        (16, 4) => TxSize::Tx16x4,
        (8, 32) => TxSize::Tx8x32,
        (32, 8) => TxSize::Tx32x8,
        (16, 64) => TxSize::Tx16x64,
        (64, 16) => TxSize::Tx64x16,
        (4, 32) => TxSize::Tx4x32,
        (32, 4) => TxSize::Tx32x4,
        (8, 64) => TxSize::Tx8x64,
        (64, 8) => TxSize::Tx64x8,
        (4, 64) => TxSize::Tx4x64,
        _ => TxSize::Tx64x4,
    }
}

/// No two transforms have the same width and height, and their sides are those
/// of transforms.
pub proof fn law_transforms_differ_in_extent(a: TxSize, b: TxSize)
    ensures
        extent(a) == extent(b) <==> a == b,
        tx_side(extent(a).0),
        tx_side(extent(a).1),
{
}

/// A level times the quantizer step, in 24 bits, divided by eight with
/// rounding, scaled down and with the sign of the level.
pub open spec fn dequantized(level: int, qstep: int, scale: nat) -> int {
    let magnitude = if level < 0 {
        -level
    } else {
        level
    };
    let d = ((magnitude * qstep) % 0x100_0000 + 4) / 8 / pow2(scale) as int;
    if level < 0 {
        -d
    } else {
        d
    }
}

/// Dequantize a level.
pub fn dequantize(level: i32, qstep: i32, scale: u32) -> (d: i32)
    requires
        qstep >= 0,
        scale <= 2,
    ensures
        d == dequantized(level as int, qstep as int, scale as nat),
        -0x20_0000 <= d <= 0x20_0000,
{
    let magnitude: u64 = if level < 0 {
        (-(level as i64)) as u64
    } else {
        level as u64
    };
    assert(0 <= magnitude * qstep <= 0x8000_0000 * 0x8000_0000) by (nonlinear_arith)
        requires
            0 <= magnitude <= 0x8000_0000,
            0 <= qstep <= 0x8000_0000,
    ;
    let rounded: u64 = ((magnitude * qstep as u64) % 0x100_0000 + 4) / 8;
    let d: u64 = num::shift_right(rounded, scale);
    proof {
        lemma2_to64();
        let p = pow2(scale as nat) as int;
        let x = rounded as int;
        lemma_pow2_pos(scale as nat);
        assert(0 <= x / p <= x) by (nonlinear_arith)
            requires
                x >= 0,
                p >= 1,
        ;
    }
    if level < 0 {
        -(d as i32)
    } else {
        d as i32
    }
}

/// Dequantization is odd: levels of opposite sign give opposite coefficients,
/// and level 0 gives 0.
pub proof fn law_dequantization_is_odd(level: int, qstep: int, scale: nat)
    ensures
        dequantized(-level, qstep, scale) == -dequantized(level, qstep, scale),
        dequantized(0, qstep, scale) == 0,
{
    lemma_pow2_pos(scale);
    let p = pow2(scale) as int;
    lemma_mul_basics(qstep);
    assert(0int / p == 0) by (nonlinear_arith)
        requires
            p > 0,
    ;
}

/// How a scan table numbers positions.
#[derive(Clone, Copy, Debug, PartialEq, Eq, Structural)]
pub enum ScanOrder {
    /// Row by row, in rows of a width.
    Rows(usize),
    /// Column by column, in columns of 32.
    Columns32,
}

/// Row and column of a scan position.
pub open spec fn scan_place(order: ScanOrder, rc: int) -> (int, int) {
    match order {
        ScanOrder::Rows(w) => (rc / w as int, rc % w as int),
        ScanOrder::Columns32 => (rc % 32, rc / 32),
    }
}

/// Order of a scan table: one that starts a row with its second position
/// numbers rows of the coded width.
pub open spec fn order_of(scan: Seq<u16>, cw: usize) -> ScanOrder {
    if scan.len() > 1 && scan[1] == cw {
        ScanOrder::Rows(cw)
    } else {
        ScanOrder::Columns32
    }
}

fn scan_order(scan: &[u16], cw: usize) -> (o: ScanOrder)
    ensures
        o == order_of(scan@, cw),
{
    if scan.len() > 1 && scan[1] as usize == cw {
        ScanOrder::Rows(cw)
    } else {
        ScanOrder::Columns32
    }
}

/// Where a level goes: a grid of columns of `ch`, or of rows of `ch`.
#[derive(Clone, Copy, Debug)]
pub struct GridSpec {
    pub order: ScanOrder,
    /// Entries of a column, or of a row.
    pub line: usize,
    /// The grid is stored column by column.
    pub by_columns: bool,
    /// Entries of the grid.
    pub size: usize,
    pub qstep: i32,
    pub scale: u32,
}

impl GridSpec {
    /// Index of a scan position in the grid.
    pub open spec fn index(self, rc: int) -> int {
        let (row, col) = scan_place(self.order, rc);
        if self.by_columns {
            col * self.line + row
        } else {
            row * self.line + col
        }
    }

    /// Every level has a place in the grid.
    pub open spec fn fits(self, lev: Seq<i32>, scan: Seq<u16>) -> bool {
        &&& self.qstep >= 0
        &&& self.scale <= 2
        &&& 1 <= self.line <= 64
        &&& (self.order matches ScanOrder::Rows(w) ==> w >= 1)
        &&& forall|k: int|
            0 <= k < lev.len() && k < scan.len() && lev[k] != 0 ==> self.index(
                #[trigger] scan[k] as int,
            ) < self.size
    }
}

/// The grid after the first `k` levels in scan order.
pub open spec fn grid_after(spec: GridSpec, lev: Seq<i32>, scan: Seq<u16>, k: nat) -> Seq<i32>
    decreases k,
{
    if k == 0 {
        Seq::new(spec.size as nat, |i: int| 0i32)
    } else {
        let g = grid_after(spec, lev, scan, (k - 1) as nat);
        if lev[k - 1] != 0 {
            g.update(
                spec.index(scan[k - 1] as int),
                dequantized(lev[k - 1] as int, spec.qstep as int, spec.scale as nat) as i32,
            )
        } else {
            g
        }
    }
}

/// Levels that have a scan position.
pub open spec fn scanned(lev: Seq<i32>, scan: Seq<u16>) -> nat {
    if lev.len() < scan.len() {
        lev.len()
    } else {
        scan.len()
    }
}

/// Dequantize levels in scan order into a coefficient grid.
pub fn fill_grid(lev: &[i32], scan: &[u16], spec: &GridSpec) -> (g: Vec<i32>)
    requires
        spec.fits(lev@, scan@),
    ensures
        g@ == grid_after(*spec, lev@, scan@, scanned(lev@, scan@)),
        g@.len() == spec.size,
        forall|i: int| 0 <= i < g@.len() ==> -0x20_0000 <= #[trigger] g@[i] <= 0x20_0000,
{
    let mut g: Vec<i32> = Vec::new();
    let mut i: usize = 0;
    while i < spec.size
        invariant
            i <= spec.size,
            g@ =~= Seq::new(i as nat, |k: int| 0i32),
        decreases spec.size - i,
    {
        g.push(0);
        i = i + 1;
    }
    let mut k: usize = 0;
    while k < lev.len() && k < scan.len()
        invariant
            k <= lev@.len(),
            k <= scan@.len(),
            spec.fits(lev@, scan@),
            g@.len() == spec.size,
            g@ == grid_after(*spec, lev@, scan@, k as nat),
            forall|i: int| 0 <= i < g@.len() ==> -0x20_0000 <= #[trigger] g@[i] <= 0x20_0000,
        decreases lev@.len() - k,
    {
        let l: i32 = lev[k];
        if l != 0 {
            let rc: usize = scan[k] as usize;
            assert(spec.index(scan@[k as int] as int) < spec.size);
            let (row, col): (usize, usize) = match spec.order {
                ScanOrder::Rows(w) => (rc / w, rc % w),
                ScanOrder::Columns32 => (rc % 32, rc / 32),
            };
            proof {
                assert(row <= rc && col <= rc) by {
                    if let ScanOrder::Rows(w) = spec.order {
                        assert(rc as int / w as int <= rc) by (nonlinear_arith)
                            requires
                                w >= 1,
                                rc >= 0,
                        ;
                        assert(rc as int % w as int <= rc) by (nonlinear_arith)
                            requires
                                w >= 1,
                                rc >= 0,
                        ;
                    }
                }
                assert(0 <= col * spec.line <= 0xffff * 64 && 0 <= row * spec.line <= 0xffff * 64)
                    by (nonlinear_arith)
                    requires
                        0 <= col <= 0xffff,
                        0 <= row <= 0xffff,
                        1 <= spec.line <= 64,
                ;
            }
            let at: usize = if spec.by_columns {
                col * spec.line + row
            } else {
                row * spec.line + col
            };
            g.set(at, dequantize(l, spec.qstep, spec.scale));
        }
        k = k + 1;
    }
    g
}

/// Coded side of a transform: at most 32.
pub open spec fn coded_side(n: int) -> int {
    plane::least(n, 32)
}

/// Coefficients of a chroma transform: its low 32 by 32 frequencies, column by
/// column.
pub open spec fn chroma_grid(scan: Seq<u16>, qstep: i32, w: int, h: int) -> GridSpec {
    let (cw, ch) = (coded_side(w), coded_side(h));
    GridSpec {
        order: order_of(scan, cw as usize),
        line: ch as usize,
        by_columns: true,
        size: (cw * ch) as usize,
        qstep,
        scale: tx_scale(w, h) as u32,
    }
}

/// Dequantize a chroma transform for the inverse transform.
pub fn chroma_coeffs(lev: &[i32], qstep: i32, scan: &[u16], w: usize, h: usize) -> (g: Vec<i32>)
    requires
        tx_side(w as int),
        tx_side(h as int),
        chroma_grid(scan@, qstep, w as int, h as int).fits(lev@, scan@),
    ensures
        g@ == grid_after(
            chroma_grid(scan@, qstep, w as int, h as int),
            lev@,
            scan@,
            scanned(lev@, scan@),
        ),
{
    let cw: usize = if w < 32 {
        w
    } else {
        32
    };
    let ch: usize = if h < 32 {
        h
    } else {
        32
    };
    assert(0 <= cw * ch <= 1024) by (nonlinear_arith)
        requires
            0 <= cw <= 32,
            0 <= ch <= 32,
    ;
    let spec = GridSpec {
        order: scan_order(scan, cw),
        line: ch,
        by_columns: true,
        size: cw * ch,
        qstep,
        scale: dc_tx_scale(w, h),
    };
    fill_grid(lev, scan, &spec)
}

/// Grid of a luma transform: 16x16 in the order of the scan, 64x16 in rows of
/// 32, 16x64 in rows of 16, and 32x32 in columns of 32.
pub open spec fn luma_grid(scan: Seq<u16>, qstep: i32, w: int, h: int) -> GridSpec {
    let order = if w == 16 && h == 16 {
        order_of(scan, 16)
    } else if w == 64 {
        ScanOrder::Rows(32)
    } else if h == 64 {
        ScanOrder::Rows(16)
    } else {
        ScanOrder::Columns32
    };
    GridSpec {
        order,
        line: coded_side(h) as usize,
        by_columns: true,
        size: (coded_side(w) * coded_side(h)) as usize,
        qstep,
        scale: tx_scale(w, h) as u32,
    }
}

/// Luma transforms with a coefficient grid.
pub open spec fn luma_tx(w: int, h: int) -> bool {
    ||| (w == 16 && h == 16)
    ||| (w == 64 && h == 16)
    ||| (w == 16 && h == 64)
    ||| (w == 32 && h == 32)
}

/// Copy the first `n` levels and their places.
fn first_levels(lev: &[i32], scan: &[u16], n: usize) -> (r: (Vec<i32>, Vec<u16>))
    requires
        lev@.len() >= n,
        scan@.len() >= n,
    ensures
        r.0@ == lev@.take(n as int),
        r.1@ == scan@.take(n as int),
{
    let mut levels: Vec<i32> = Vec::new();
    let mut places: Vec<u16> = Vec::new();
    let mut i: usize = 0;
    while i < n
        invariant
            i <= n,
            lev@.len() >= n,
            scan@.len() >= n,
            levels@ =~= lev@.take(i as int),
            places@ =~= scan@.take(i as int),
        decreases n - i,
    {
        levels.push(lev[i]);
        places.push(scan[i]);
        i = i + 1;
    }
    (levels, places)
}

/// Coefficients of a luma transform: 256, 512 or 1024.
pub open spec fn luma_count(w: int, h: int) -> int {
    coded_side(w) * coded_side(h)
}

/// Dequantize a luma transform of 16x16, 64x16, 16x64 or 32x32 for the inverse
/// transform. Levels beyond those of the transform are not read.
pub fn luma_coeffs(lev: &[i32], qstep: i32, scan: &[u16], w: usize, h: usize) -> (g: Vec<i32>)
    requires
        luma_tx(w as int, h as int),
        lev@.len() >= luma_count(w as int, h as int),
        scan@.len() >= luma_count(w as int, h as int),
        luma_grid(scan@, qstep, w as int, h as int).fits(
            lev@.take(luma_count(w as int, h as int)),
            scan@.take(luma_count(w as int, h as int)),
        ),
    ensures
        g@ == grid_after(
            luma_grid(scan@, qstep, w as int, h as int),
            lev@.take(luma_count(w as int, h as int)),
            scan@.take(luma_count(w as int, h as int)),
            luma_count(w as int, h as int) as nat,
        ),
{
    let order = if w == 16 && h == 16 {
        scan_order(scan, 16)
    } else if w == 64 {
        ScanOrder::Rows(32)
    } else if h == 64 {
        ScanOrder::Rows(16)
    } else {
        ScanOrder::Columns32
    };
    let (line, size): (usize, usize) = if w == 16 && h == 16 {
        (16, 256)
    } else if w == 64 {
        (16, 512)
    } else if h == 64 {
        (32, 512)
    } else {
        (32, 1024)
    };
    let spec = GridSpec { order, line, by_columns: true, size, qstep, scale: dc_tx_scale(w, h) };
    assert(spec == luma_grid(scan@, qstep, w as int, h as int)) by {
        assert(16 * 16 == 256int && 32 * 16 == 512int && 16 * 32 == 512int && 32 * 32 == 1024int);
    }
    let (levels, places) = first_levels(lev, scan, size);
    fill_grid(levels.as_slice(), places.as_slice(), &spec)
}

// ---------------------------------------------------------------------------
// 16x16 inverse
// ---------------------------------------------------------------------------

/// Sum of the first `n` products of row `i` of a 16x16 block and column `j` of a
/// matrix.
pub open spec fn dot16(src: Seq<i32>, mat: Seq<i16>, i: int, j: int, n: nat) -> int
    decreases n,
{
    if n == 0 {
        0
    } else {
        dot16(src, mat, i, j, (n - 1) as nat) + src[16 * i + n - 1] * mat[16 * (n - 1) + j]
    }
}

/// A number held in a range.
pub open spec fn clamped(v: int, lo: int, hi: int) -> int {
    if v < lo {
        lo
    } else if v > hi {
        hi
    } else {
        v
    }
}

/// One pass of the inverse: the block times the matrix, rounded, held in
/// `-limit..limit` and transposed.
pub open spec fn pass16(src: Seq<i32>, mat: Seq<i16>, shift: nat, limit: int) -> Seq<i32> {
    Seq::new(
        256,
        |p: int|
            clamped(
                (dot16(src, mat, p % 16, p / 16, 16) + pow2((shift - 1) as nat)) / pow2(
                    shift,
                ) as int,
                -limit,
                limit - 1,
            ) as i32,
    )
}

/// Entries of a transform matrix.
pub open spec fn matrix_ok(mat: Seq<i16>) -> bool {
    &&& mat.len() == 256
    &&& forall|i: int| 0 <= i < 256 ==> -90 <= #[trigger] mat[i] <= 90
}

fn adst16_pass(src: &Vec<i32>, mat: &[i16; 256], shift: u32, limit: i32) -> (dst: Vec<i32>)
    requires
        src@.len() == 256,
        forall|i: int| 0 <= i < 256 ==> -0x8_0000 <= #[trigger] src@[i] <= 0x8_0000,
        matrix_ok(mat@),
        1 <= shift <= 13,
        1 <= limit <= 0x8_0000,
    ensures
        dst@ == pass16(src@, mat@, shift as nat, limit as int),
        forall|i: int| 0 <= i < 256 ==> -limit <= #[trigger] dst@[i] <= limit - 1,
{
    let ghost want = pass16(src@, mat@, shift as nat, limit as int);
    proof {
        lemma2_to64();
        lemma_pow2_strictly_increases((shift - 1) as nat, 13);
    }
    let add: i64 = num::pow2_u64(shift - 1) as i64;
    let mut dst: Vec<i32> = Vec::new();
    let mut p: usize = 0;
    while p < 256
        invariant
            p <= 256,
            src@.len() == 256,
            forall|i: int| 0 <= i < 256 ==> -0x8_0000 <= #[trigger] src@[i] <= 0x8_0000,
            matrix_ok(mat@),
            1 <= shift <= 13,
            1 <= limit <= 0x8_0000,
            add == pow2((shift - 1) as nat),
            0 <= add <= 0x2000,
            want == pass16(src@, mat@, shift as nat, limit as int),
            dst@ =~= want.take(p as int),
            forall|i: int| 0 <= i < p ==> -limit <= #[trigger] dst@[i] <= limit - 1,
        decreases 256 - p,
    {
        let i: usize = p % 16;
        let j: usize = p / 16;
        let mut sum: i64 = 0;
        let mut k: usize = 0;
        while k < 16
            invariant
                k <= 16,
                i < 16,
                j < 16,
                src@.len() == 256,
                forall|i: int| 0 <= i < 256 ==> -0x8_0000 <= #[trigger] src@[i] <= 0x8_0000,
                matrix_ok(mat@),
                sum == dot16(src@, mat@, i as int, j as int, k as nat),
                -47185920 * k <= sum <= 47185920 * k,
            decreases 16 - k,
        {
            let s: i64 = src[16 * i + k] as i64;
            let m: i64 = mat[16 * k + j] as i64;
            assert(src@[16 * i + k] == s && mat@[16 * k + j] == m);
            assert(-47185920 <= s * m <= 47185920) by (nonlinear_arith)
                requires
                    -0x8_0000 <= s <= 0x8_0000,
                    -90 <= m <= 90,
            ;
            sum = sum + s * m;
            k = k + 1;
        }
        let v: i64 = num::floor_shift(sum + add, shift);
        let lo: i64 = -(limit as i64);
        let hi: i64 = limit as i64 - 1;
        let c: i64 = if v < lo {
            lo
        } else if v > hi {
            hi
        } else {
            v
        };
        assert(want[p as int] == c as i32);
        dst.push(c as i32);
        p = p + 1;
    }
    assert(want.take(256) =~= want);
    dst
}

/// Grid of a 16x16 block whose inverse is computed here: stored row by row.
pub open spec fn luma16_grid(scan: Seq<u16>, qstep: i32) -> GridSpec {
    GridSpec {
        order: order_of(scan, 16),
        line: 16,
        by_columns: false,
        size: 256,
        qstep,
        scale: 0,
    }
}

/// Coefficients held in the range that a decoder works with.
pub open spec fn held_grid(g: Seq<i32>, limit: int) -> Seq<i32> {
    g.map_values(|v: i32| clamped(v as int, -limit, limit - 1) as i32)
}

/// Matrix of a direction.
pub open spec fn matrix_of(sine: bool) -> Seq<i16> {
    if sine {
        AVM_ADST16_INV@
    } else {
        AVM_DCT16_INV@
    }
}

/// Residual of a 16x16 block: rows first, then columns.
pub open spec fn residual16(grid: Seq<i32>, row_adst: bool, col_adst: bool, bd: nat) -> Seq<i32> {
    let limit = pow2(bd + 7) as int;
    let rows = pass16(held_grid(grid, limit), matrix_of(row_adst), 6, limit);
    pass16(rows, matrix_of(col_adst), 13, pow2(bd) as int)
}

/// A 16x16 block reconstructed from its prediction and its levels.
pub open spec fn reconstructed16(
    pred: Seq<i32>,
    lev: Seq<i32>,
    qstep: i32,
    scan: Seq<u16>,
    row_adst: bool,
    col_adst: bool,
    bd: nat,
) -> Seq<i32> {
    let grid = grid_after(luma16_grid(scan, qstep), lev.take(256), scan.take(256), 256);
    Seq::new(
        256,
        |i: int|
            clamped(
                pred[i] + residual16(grid, row_adst, col_adst, bd)[i],
                0,
                pow2(bd) - 1,
            ) as i32,
    )
}

proof fn lemma_matrices()
    ensures
        matrix_ok(AVM_ADST16_INV@),
        matrix_ok(AVM_DCT16_INV@),
{
}

/// Reconstruct a 16x16 luma block of a sine or mixed transform type: dequantize,
/// invert, add the prediction and hold the samples in range.
pub fn reconstruct_luma16_adst(
    pred: &[i32],
    lev: &[i32],
    qstep: i32,
    scan: &[u16],
    row_adst: bool,
    col_adst: bool,
    bd: u32,
) -> (out: Vec<i32>)
    requires
        8 <= bd <= 12,
        pred@.len() == 256,
        lev@.len() >= 256,
        scan@.len() >= 256,
        forall|i: int| 0 <= i < 256 ==> -0x10_0000 <= #[trigger] pred@[i] <= 0x10_0000,
        luma16_grid(scan@, qstep).fits(lev@.take(256), scan@.take(256)),
    ensures
        out@ == reconstructed16(pred@, lev@, qstep, scan@, row_adst, col_adst, bd as nat),
{
    let (levels, places) = first_levels(lev, scan, 256);
    let spec = GridSpec {
        order: scan_order(scan, 16),
        line: 16,
        by_columns: false,
        size: 256,
        qstep,
        scale: 0,
    };
    let mut block: Vec<i32> = fill_grid(levels.as_slice(), places.as_slice(), &spec);
    let ghost grid = block@;
    proof {
        lemma2_to64();
        lemma_pow2_strictly_increases((bd + 7) as nat, 20);
        if bd < 12 {
            lemma_pow2_strictly_increases(bd as nat, 12);
        }
        lemma_pow2_pos(bd as nat);
        lemma_pow2_pos((bd + 7) as nat);
        if bd < 12 {
            lemma_pow2_strictly_increases((bd + 7) as nat, 19);
        }
        lemma_matrices();
    }
    let limit: i32 = num::pow2_u32(bd + 7) as i32;
    let ghost held = held_grid(grid, limit as int);
    let mut k: usize = 0;
    while k < 256
        invariant
            k <= 256,
            1 <= limit <= 0x8_0000,
            block@.len() == 256,
            grid.len() == 256,
            held == held_grid(grid, limit as int),
            forall|i: int| 0 <= i < k ==> #[trigger] block@[i] == held[i],
            forall|i: int| k <= i < 256 ==> #[trigger] block@[i] == grid[i],
        decreases 256 - k,
    {
        let v: i32 = block[k];
        let c: i32 = if v < -limit {
            -limit
        } else if v > limit - 1 {
            limit - 1
        } else {
            v
        };
        block.set(k, c);
        k = k + 1;
    }
    assert(block@ =~= held);
    let adst = AVM_ADST16_INV;
    let dct = AVM_DCT16_INV;
    let col_limit: i32 = num::pow2_u32(bd) as i32;
    let tmp: Vec<i32> = if row_adst {
        adst16_pass(&block, &adst, 6, limit)
    } else {
        adst16_pass(&block, &dct, 6, limit)
    };
    let res: Vec<i32> = if col_adst {
        adst16_pass(&tmp, &adst, 13, col_limit)
    } else {
        adst16_pass(&tmp, &dct, 13, col_limit)
    };
    let ghost residual = residual16(grid, row_adst, col_adst, bd as nat);
    assert(res@ == residual);
    let pmax: i32 = col_limit - 1;
    let ghost want = Seq::new(
        256,
        |i: int| clamped(pred@[i] + residual[i], 0, pow2(bd as nat) - 1) as i32,
    );
    let mut out: Vec<i32> = Vec::new();
    let mut p: usize = 0;
    while p < 256
        invariant
            p <= 256,
            pred@.len() == 256,
            forall|i: int| 0 <= i < 256 ==> -0x10_0000 <= #[trigger] pred@[i] <= 0x10_0000,
            res@.len() == 256,
            res@ == residual,
            pmax == pow2(bd as nat) - 1,
            0 <= pmax <= 0xfff,
            col_limit == pmax + 1,
            forall|i: int| 0 <= i < 256 ==> -col_limit <= #[trigger] res@[i] <= col_limit - 1,
            want == Seq::new(
                256,
                |i: int| clamped(pred@[i] + residual[i], 0, pow2(bd as nat) - 1) as i32,
            ),
            out@ =~= want.take(p as int),
        decreases 256 - p,
    {
        let v: i32 = pred[p] + res[p];
        let c: i32 = if v < 0 {
            0
        } else if v > pmax {
            pmax
        } else {
            v
        };
        assert(want[p as int] == c);
        out.push(c);
        p = p + 1;
    }
    assert(want.take(256) =~= want);
    out
}

proof fn lemma_dot_zero(src: Seq<i32>, mat: Seq<i16>, i: int, j: int, n: nat)
    requires
        0 <= i < 16,
        0 <= j < 16,
        n <= 16,
        src.len() == 256,
        forall|k: int| 0 <= k < 256 ==> #[trigger] src[k] == 0,
    ensures
        dot16(src, mat, i, j, n) == 0,
    decreases n,
{
    if n > 0 {
        lemma_dot_zero(src, mat, i, j, (n - 1) as nat);
        assert(src[16 * i + n - 1] == 0);
        lemma_mul_basics(mat[16 * (n - 1) + j] as int);
    }
}

/// A block without coefficients has no residual.
pub proof fn law_no_coefficients_no_residual(
    grid: Seq<i32>,
    row_adst: bool,
    col_adst: bool,
    bd: nat,
    i: int,
)
    requires
        grid.len() == 256,
        forall|k: int| 0 <= k < 256 ==> #[trigger] grid[k] == 0,
        0 <= i < 256,
    ensures
        residual16(grid, row_adst, col_adst, bd)[i] == 0,
{
    lemma2_to64();
    lemma_pow2_pos(bd);
    lemma_pow2_pos(bd + 7);
    let limit = pow2(bd + 7) as int;
    let held = held_grid(grid, limit);
    assert forall|k: int| 0 <= k < 256 implies #[trigger] held[k] == 0 by {
        assert(grid[k] == 0);
    }
    let rows = pass16(held, matrix_of(row_adst), 6, limit);
    assert forall|k: int| 0 <= k < 256 implies #[trigger] rows[k] == 0 by {
        lemma_dot_zero(held, matrix_of(row_adst), k % 16, k / 16, 16);
    }
    lemma_dot_zero(rows, matrix_of(col_adst), i % 16, i / 16, 16);
}

// ---------------------------------------------------------------------------
// What reconstruction is
// ---------------------------------------------------------------------------

/// A dequantized level is its product with the step, eight times as fine and
/// scaled down: below 24 bits it is the only number whose product with
/// `8 * 2^scale` misses that of level and step, after rounding, by less than
/// itself once.
pub proof fn law_dequantization_inverts_the_step(level: int, qstep: int, scale: nat)
    requires
        level >= 0,
        qstep >= 0,
        level * qstep < 0x100_0000,
    ensures
        ({
            let unit = 8 * pow2(scale);
            let d = dequantized(level, qstep, scale);
            0 <= level * qstep + 4 - unit * d < unit
        }),
{
    lemma_pow2_pos(scale);
    let p = pow2(scale) as int;
    let x = level * qstep;
    assert(x >= 0) by (nonlinear_arith)
        requires
            level >= 0,
            qstep >= 0,
            x == level * qstep,
    ;
    vstd::arithmetic::div_mod::lemma_small_mod(x as nat, 0x100_0000);
    let q = (x + 4) / 8;
    vstd::arithmetic::div_mod::lemma_fundamental_div_mod(q, p);
    let d = q / p;
    assert(8 * p * d <= x + 4 < 8 * p * d + 8 * p) by (nonlinear_arith)
        requires
            q == p * d + q % p,
            0 <= q % p < p,
            8 * q <= x + 4 < 8 * q + 8,
    ;
}

/// Larger transforms of the same shape are scaled down by as much as their gain
/// grows: doubling both sides adds one bit from 16x16 on, the sides can change
/// places, and up to 256 samples nothing is scaled.
pub proof fn law_scale_follows_the_area(w: int, h: int)
    requires
        tx_side(w),
        tx_side(h),
    ensures
        tx_scale(w, h) == tx_scale(h, w),
        w * h <= 256 ==> tx_scale(w, h) == 0,
        256 < w * h <= 1024 ==> tx_scale(w, h) == 1,
        w * h > 1024 ==> tx_scale(w, h) == 2,
{
    assert(4 * 4 == 16int && 4 * 8 == 32int && 4 * 16 == 64int && 4 * 32 == 128int && 4 * 64
        == 256int);
    assert(8 * 8 == 64int && 8 * 16 == 128int && 8 * 32 == 256int && 8 * 64 == 512int);
    assert(16 * 16 == 256int && 16 * 32 == 512int && 16 * 64 == 1024int);
    assert(32 * 32 == 1024int && 32 * 64 == 2048int && 64 * 64 == 4096int);
    assert(w * h == h * w) by (nonlinear_arith);
}

/// Every level lands on its own place with its dequantized value, and everything
/// else stays zero.
pub proof fn law_levels_land_on_their_places(
    spec: GridSpec,
    lev: Seq<i32>,
    scan: Seq<u16>,
    n: nat,
    k: int,
    at: int,
)
    requires
        n <= lev.len(),
        n <= scan.len(),
        0 <= at < spec.size,
        0 <= k < n,
        forall|i: int|
            0 <= i < n ==> 0 <= spec.index(#[trigger] scan[i] as int) < spec.size,
        forall|i: int, j: int|
            0 <= i < j < n ==> spec.index(#[trigger] scan[i] as int) != spec.index(
                #[trigger] scan[j] as int,
            ),
        spec.qstep >= 0,
        spec.scale <= 2,
    ensures
        grid_after(spec, lev, scan, n)[spec.index(scan[k] as int)] == dequantized(
            lev[k] as int,
            spec.qstep as int,
            spec.scale as nat,
        ) as i32,
        (forall|i: int| 0 <= i < n ==> spec.index(#[trigger] scan[i] as int) != at)
            ==> grid_after(spec, lev, scan, n)[at] == 0,
    decreases n,
{
    let m = (n - 1) as nat;
    lemma_grid_len(spec, lev, scan, m);
    law_dequantization_is_odd(0, spec.qstep as int, spec.scale as nat);
    assert(spec.index(scan[m as int] as int) < spec.size);
    let g = grid_after(spec, lev, scan, m);
    if k < m {
        law_levels_land_on_their_places(spec, lev, scan, m, k, at);
        assert(spec.index(scan[k] as int) != spec.index(scan[m as int] as int));
    } else {
        lemma_untouched(spec, lev, scan, m, spec.index(scan[k] as int));
    }
    if forall|i: int| 0 <= i < n ==> spec.index(#[trigger] scan[i] as int) != at {
        lemma_untouched(spec, lev, scan, n, at);
    }
}

proof fn lemma_grid_len(spec: GridSpec, lev: Seq<i32>, scan: Seq<u16>, n: nat)
    requires
        n <= scan.len(),
        forall|i: int|
            0 <= i < n ==> 0 <= spec.index(#[trigger] scan[i] as int) < spec.size,
    ensures
        grid_after(spec, lev, scan, n).len() == spec.size,
    decreases n,
{
    if n > 0 {
        lemma_grid_len(spec, lev, scan, (n - 1) as nat);
        let last = scan[n - 1];
        assert(spec.index(last as int) < spec.size);
    }
}

proof fn lemma_untouched(spec: GridSpec, lev: Seq<i32>, scan: Seq<u16>, n: nat, at: int)
    requires
        n <= scan.len(),
        0 <= at < spec.size,
        forall|i: int|
            0 <= i < n ==> 0 <= spec.index(#[trigger] scan[i] as int) < spec.size,
        forall|i: int| 0 <= i < n ==> spec.index(#[trigger] scan[i] as int) != at,
    ensures
        grid_after(spec, lev, scan, n)[at] == 0,
    decreases n,
{
    if n > 0 {
        lemma_grid_len(spec, lev, scan, (n - 1) as nat);
        lemma_untouched(spec, lev, scan, (n - 1) as nat, at);
        let last = scan[n - 1];
        assert(spec.index(last as int) != at);
    }
}

proof fn lemma_index(g: GridSpec, w: int, line: int, row: int, col: int)
    requires
        g.line == line,
        0 <= row < 32,
        0 <= col,
        g.order matches ScanOrder::Rows(n) ==> n == w && 1 <= w && col < w,
    ensures
        g.order is Rows ==> g.index(w * row + col) == if g.by_columns {
            col * line + row
        } else {
            row * line + col
        },
        g.order is Columns32 ==> g.index(32 * col + row) == if g.by_columns {
            col * line + row
        } else {
            row * line + col
        },
{
    if g.order is Rows {
        vstd::arithmetic::div_mod::lemma_fundamental_div_mod_converse(w * row + col, w, row, col);
    }
}

/// Where a scan position lies in the coefficients of each luma transform. The
/// 16x16 block that is inverted here keeps its rows. The grids for other inverse
/// transforms hold their columns one after the other: a scan of 32 runs down the
/// columns already, a row scan is transposed.
pub proof fn law_luma_scan_places(scan: Seq<u16>, qstep: i32, row: int, col: int)
    requires
        scan.len() > 1,
        0 <= row < 32,
        0 <= col < 32,
    ensures
        scan[1] == 16 && col < 16 ==> luma16_grid(scan, qstep).index(16 * row + col) == 16 * row
            + col,
        scan[1] != 16 ==> luma16_grid(scan, qstep).index(32 * col + row) == 16 * row + col,
        scan[1] == 16 && col < 16 ==> luma_grid(scan, qstep, 16, 16).index(16 * row + col) == 16
            * col + row,
        scan[1] != 16 ==> luma_grid(scan, qstep, 16, 16).index(32 * col + row) == 16 * col + row,
        col < 16 ==> luma_grid(scan, qstep, 16, 64).index(16 * row + col) == 32 * col + row,
        luma_grid(scan, qstep, 64, 16).index(32 * row + col) == 16 * col + row,
        luma_grid(scan, qstep, 32, 32).index(32 * col + row) == 32 * col + row,
{
    if scan[1] != 16 || col < 16 {
        lemma_index(luma16_grid(scan, qstep), 16, 16, row, col);
        lemma_index(luma_grid(scan, qstep, 16, 16), 16, 16, row, col);
    }
    if col < 16 {
        lemma_index(luma_grid(scan, qstep, 16, 64), 16, 32, row, col);
    }
    lemma_index(luma_grid(scan, qstep, 64, 16), 32, 16, row, col);
    lemma_index(luma_grid(scan, qstep, 32, 32), 32, 32, row, col);
}

/// Where a scan position lies in the coefficients of a chroma transform: column
/// after column, whichever way the scan is numbered, of at most 32 of each side.
pub proof fn law_chroma_scan_places(
    scan: Seq<u16>,
    qstep: i32,
    w: int,
    h: int,
    row: int,
    col: int,
)
    requires
        scan.len() > 1,
        tx_side(w),
        tx_side(h),
        0 <= row < 32,
        0 <= col < 32,
        col < w,
    ensures
        ({
            let cw = if w == 64 {
                32
            } else {
                w
            };
            let ch = if h == 64 {
                32
            } else {
                h
            };
            let g = chroma_grid(scan, qstep, w, h);
            &&& g.size == cw * ch
            &&& scan[1] == cw ==> g.index(cw * row + col) == col * ch + row
            &&& scan[1] != cw ==> g.index(32 * col + row) == col * ch + row
        }),
{
    let cw = coded_side(w);
    let ch = coded_side(h);
    assert(0 <= cw * ch <= 1024) by (nonlinear_arith)
        requires
            0 <= cw <= 32,
            0 <= ch <= 32,
    ;
    lemma_index(chroma_grid(scan, qstep, w, h), cw, ch, row, col);
}

proof fn lemma_dot_series(src: Seq<i32>, mat: Seq<i16>, i: int, j: int, n: nat)
    ensures
        dot16(src, mat, i, j, n) == num::series(
            |k: int| src[16 * i + k] * mat[16 * k + j],
            n,
        ),
    decreases n,
{
    if n > 0 {
        lemma_dot_series(src, mat, i, j, (n - 1) as nat);
    }
}

/// The inverse of a 16x16 block, sample by sample. Each row of coefficients, held
/// in the range of the decoder, becomes a row of intermediate values by the
/// horizontal matrix, which follows `row_adst` alone. Each column of those becomes
/// a column of residuals by the vertical matrix, which follows `col_adst` alone.
pub proof fn law_inverse_is_separable(
    grid: Seq<i32>,
    row_adst: bool,
    col_adst: bool,
    bd: nat,
    y: int,
    x: int,
)
    requires
        grid.len() == 256,
        0 <= y < 16,
        0 <= x < 16,
        bd <= 16,
    ensures
        ({
            let top = pow2((bd + 7) as nat) as int;
            let edge = pow2(bd) as int;
            let across = if row_adst {
                AVM_ADST16_INV@
            } else {
                AVM_DCT16_INV@
            };
            let down = if col_adst {
                AVM_ADST16_INV@
            } else {
                AVM_DCT16_INV@
            };
            let held = |r: int, c: int|
                if grid[16 * r + c] < -top {
                    -top
                } else if grid[16 * r + c] >= top {
                    top - 1
                } else {
                    grid[16 * r + c] as int
                };
            let mid = |r: int|
                ({
                    let v = (num::series(|c: int| held(r, c) * across[16 * c + x], 16) + 32) / 64;
                    if v < -top {
                        -top
                    } else if v >= top {
                        top - 1
                    } else {
                        v
                    }
                });
            let v = (num::series(|r: int| mid(r) * down[16 * r + y], 16) + 4096) / 8192;
            residual16(grid, row_adst, col_adst, bd)[16 * y + x] == if v < -edge {
                -edge
            } else if v >= edge {
                edge - 1
            } else {
                v
            }
        }),
{
    lemma2_to64();
    lemma_pow2_pos(bd);
    lemma_pow2_pos((bd + 7) as nat);
    lemma_pow2_strictly_increases(bd, 24);
    lemma_pow2_strictly_increases((bd + 7) as nat, 24);
    let top = pow2((bd + 7) as nat) as int;
    let across = matrix_of(row_adst);
    let down = matrix_of(col_adst);
    let g = held_grid(grid, top);
    let t = pass16(g, across, 6, top);
    let held = |r: int, c: int|
        if grid[16 * r + c] < -top {
            -top
        } else if grid[16 * r + c] >= top {
            top - 1
        } else {
            grid[16 * r + c] as int
        };
    let mid = |r: int|
        ({
            let v = (num::series(|c: int| held(r, c) * across[16 * c + x], 16) + 32) / 64;
            if v < -top {
                -top
            } else if v >= top {
                top - 1
            } else {
                v
            }
        });
    assert forall|r: int| 0 <= r < 16 implies #[trigger] t[16 * x + r] == mid(r) by {
        lemma_dot_series(g, across, r, x, 16);
        num::lemma_series_same(
            |k: int| g[16 * r + k] * across[16 * k + x],
            |c: int| held(r, c) * across[16 * c + x],
            16,
        );
    }
    lemma_dot_series(t, down, x, y, 16);
    num::lemma_series_same(
        |k: int| t[16 * x + k] * down[16 * k + y],
        |r: int| mid(r) * down[16 * r + y],
        16,
    );
}

/// Whatever goes along the columns, a block of cosine rows whose coefficients all
/// stand in the first column has equal residuals along each row.
pub proof fn law_flat_rows_stay_flat(
    grid: Seq<i32>,
    col_adst: bool,
    bd: nat,
    y: int,
    x: int,
    x2: int,
)
    requires
        grid.len() == 256,
        bd <= 16,
        0 <= y < 16,
        0 <= x < 16,
        0 <= x2 < 16,
        forall|r: int, c: int| 0 <= r < 16 && 1 <= c < 16 ==> #[trigger] grid[16 * r + c] == 0,
    ensures
        residual16(grid, false, col_adst, bd)[16 * y + x] == residual16(
            grid,
            false,
            col_adst,
            bd,
        )[16 * y + x2],
{
    lemma2_to64();
    lemma_pow2_pos(bd);
    lemma_pow2_pos((bd + 7) as nat);
    lemma_pow2_strictly_increases((bd + 7) as nat, 24);
    let top = pow2((bd + 7) as nat) as int;
    let g = held_grid(grid, top);
    let dct = matrix_of(false);
    let other = matrix_of(col_adst);
    let t = pass16(g, dct, 6, top);
    assert forall|r: int| 0 <= r < 16 implies #[trigger] t[16 * x + r] == t[16 * x2 + r] by {
        assert forall|c: int| 1 <= c < 16 implies #[trigger] g[16 * r + c] == 0 by {
            assert(grid[16 * r + c] == 0);
        }
        lemma_first_only(g, dct, r, x);
        lemma_first_only(g, dct, r, x2);
    }
    lemma_dot_series(t, other, x, y, 16);
    lemma_dot_series(t, other, x2, y, 16);
    let f = |k: int| t[16 * x + k] * other[16 * k + y];
    let f2 = |k: int| t[16 * x2 + k] * other[16 * k + y];
    assert forall|k: int| 0 <= k < 16 implies #[trigger] f(k) == f2(k) by {
        assert(t[16 * x + k] == t[16 * x2 + k]);
    }
    num::lemma_series_same(f, f2, 16);
}

/// Whatever goes along the rows, a block of cosine columns whose coefficients all
/// stand in the first row has equal residuals down each column.
pub proof fn law_flat_columns_stay_flat(
    grid: Seq<i32>,
    row_adst: bool,
    bd: nat,
    y: int,
    y2: int,
    x: int,
)
    requires
        grid.len() == 256,
        bd <= 16,
        0 <= y < 16,
        0 <= y2 < 16,
        0 <= x < 16,
        forall|r: int, c: int| 1 <= r < 16 && 0 <= c < 16 ==> #[trigger] grid[16 * r + c] == 0,
    ensures
        residual16(grid, row_adst, false, bd)[16 * y + x] == residual16(
            grid,
            row_adst,
            false,
            bd,
        )[16 * y2 + x],
{
    lemma2_to64();
    lemma_pow2_pos(bd);
    lemma_pow2_pos((bd + 7) as nat);
    lemma_pow2_strictly_increases((bd + 7) as nat, 24);
    let top = pow2((bd + 7) as nat) as int;
    let g = held_grid(grid, top);
    let other = matrix_of(row_adst);
    let t = pass16(g, other, 6, top);
    assert forall|r: int| 1 <= r < 16 implies #[trigger] t[16 * x + r] == 0 by {
        assert forall|c: int| 0 <= c < 16 implies #[trigger] g[16 * r + c] == 0 by {
            assert(grid[16 * r + c] == 0);
        }
        lemma_dot_zero_row(g, other, r, x, 16);
    }
    lemma_first_only(t, matrix_of(false), x, y);
    lemma_first_only(t, matrix_of(false), x, y2);
}

proof fn lemma_dot_zero_row(src: Seq<i32>, mat: Seq<i16>, i: int, j: int, n: nat)
    requires
        n <= 16,
        forall|k: int| 0 <= k < 16 ==> #[trigger] src[16 * i + k] == 0,
    ensures
        dot16(src, mat, i, j, n) == 0,
    decreases n,
{
    if n > 0 {
        lemma_dot_zero_row(src, mat, i, j, (n - 1) as nat);
        assert(src[16 * i + (n - 1)] == 0);
        lemma_mul_basics(mat[16 * (n - 1) + j] as int);
    }
}

/// With the first entry of a row alone, every cosine sample has the same weight.
proof fn lemma_first_only(src: Seq<i32>, mat: Seq<i16>, i: int, j: int)
    requires
        src.len() == 256,
        mat == AVM_DCT16_INV@,
        0 <= i < 16,
        0 <= j < 16,
        forall|k: int| 1 <= k < 16 ==> #[trigger] src[16 * i + k] == 0,
    ensures
        dot16(src, mat, i, j, 16) == src[16 * i] * 64,
{
    lemma_dot_series(src, mat, i, j, 16);
    let f = |k: int| src[16 * i + k] * mat[16 * k + j];
    assert forall|k: int| 1 <= k < 16 implies #[trigger] f(k) == 0 by {
        lemma_mul_basics(mat[16 * k + j] as int);
        assert(src[16 * i + k] == 0);
    }
    num::lemma_series_first(f, 16);
    assert(mat[j] == 64);
}

/// Reconstruction adds the residual to the prediction and holds the sum in the
/// samples of the bit depth; without levels it is the prediction itself.
pub proof fn law_reconstruction_adds_to_the_prediction(
    pred: Seq<i32>,
    lev: Seq<i32>,
    qstep: i32,
    scan: Seq<u16>,
    row_adst: bool,
    col_adst: bool,
    bd: nat,
    i: int,
)
    requires
        0 <= i < 256,
        bd <= 16,
        pred.len() == 256,
        lev.len() >= 256,
        scan.len() >= 256,
        0 <= pred[i] < pow2(bd),
        luma16_grid(scan, qstep).fits(lev.take(256), scan.take(256)),
    ensures
        ({
            let out = reconstructed16(pred, lev, qstep, scan, row_adst, col_adst, bd);
            let grid = grid_after(luma16_grid(scan, qstep), lev.take(256), scan.take(256), 256);
            let sum = pred[i] + residual16(grid, row_adst, col_adst, bd)[i];
            &&& out.len() == 256
            &&& 0 <= out[i] < pow2(bd)
            &&& 0 <= sum < pow2(bd) ==> out[i] == sum
            &&& sum < 0 ==> out[i] == 0
            &&& sum >= pow2(bd) ==> out[i] == pow2(bd) - 1
            &&& (forall|k: int| 0 <= k < 256 ==> #[trigger] lev[k] == 0) ==> out[i] == pred[i]
        }),
{
    lemma2_to64();
    lemma_pow2_pos(bd);
    lemma_pow2_strictly_increases(bd, 24);
    let spec = luma16_grid(scan, qstep);
    let grid = grid_after(spec, lev.take(256), scan.take(256), 256);
    if forall|k: int| 0 <= k < 256 ==> #[trigger] lev[k] == 0 {
        lemma_all_zero(spec, lev.take(256), scan.take(256), 256);
        law_no_coefficients_no_residual(grid, row_adst, col_adst, bd, i);
    }
}

proof fn lemma_all_zero(spec: GridSpec, lev: Seq<i32>, scan: Seq<u16>, n: nat)
    requires
        n <= lev.len(),
        forall|k: int| 0 <= k < n ==> #[trigger] lev[k] == 0,
    ensures
        grid_after(spec, lev, scan, n) == Seq::new(spec.size as nat, |i: int| 0i32),
    decreases n,
{
    if n > 0 {
        lemma_all_zero(spec, lev, scan, (n - 1) as nat);
        assert(lev[n - 1] == 0);
    }
}

/// Rows of the cosine matrix are mirrored: those of an even frequency are even and
/// those of an odd one odd, and the lowest is flat.
pub proof fn law_cosine_rows_are_mirrored(k: int, j: int)
    requires
        0 <= k < 16,
        0 <= j < 16,
    ensures
        k % 2 == 0 ==> AVM_DCT16_INV@[16 * k + 15 - j] == AVM_DCT16_INV@[16 * k + j],
        k % 2 == 1 ==> AVM_DCT16_INV@[16 * k + 15 - j] == -AVM_DCT16_INV@[16 * k + j],
        AVM_DCT16_INV@[j] == 64,
{
}

/// As many levels are placed as have a scan position, and of a luma transform as many
/// as it has coefficients: at most 32 of each side.
pub proof fn law_levels_are_counted_by_the_scan(lev: Seq<i32>, scan: Seq<u16>)
    ensures
        lev.len() <= scan.len() ==> scanned(lev, scan) == lev.len(),
        lev.len() >= scan.len() ==> scanned(lev, scan) == scan.len(),
        luma_count(16, 16) == 256,
        luma_count(64, 16) == 512,
        luma_count(16, 64) == 512,
        luma_count(32, 32) == 1024,
        forall|w: int, h: int|
            tx_side(w) && tx_side(h) ==> #[trigger] luma_count(w, h) == luma_count(h, w),
{
    assert(16 * 16 == 256int && 32 * 32 == 1024int);
    assert forall|w: int, h: int| tx_side(w) && tx_side(h) implies #[trigger] luma_count(w, h)
        == luma_count(h, w) by {
        assert(coded_side(w) * coded_side(h) == coded_side(h) * coded_side(w))
            by (nonlinear_arith);
    }
}

} // verus!
