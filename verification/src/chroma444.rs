//! Chroma of lossy 4:4:4 leaves: what a block sees of its neighbors, its
//! residuals, and what its levels leave behind.

use crate::contexts;
use crate::contexts::{levels_to_coeffs, stored_level_of, Coeff};
use crate::dcpred;
use crate::dcpred::dc_pred_rect;
use crate::num;
use crate::plane;
use crate::plane::{extract_subplane_pixels, get_residual_rect, put_block_rect};
use vstd::arithmetic::power2::*;
use vstd::prelude::*;

verus! {

// ---------------------------------------------------------------------------
// Neighbors
// ---------------------------------------------------------------------------

/// Per unit of four pixels along the top and the left: whether the last chroma
/// block over it had U levels, had V levels, and was predicted from luma.
#[derive(Debug)]
pub struct Presence {
    pub u_above: Vec<bool>,
    pub v_above: Vec<bool>,
    pub cfl_above: Vec<bool>,
    pub u_left: Vec<bool>,
    pub v_left: Vec<bool>,
    pub cfl_left: Vec<bool>,
}

/// What is noted per unit along the top and the left.
pub struct Marks {
    pub u_above: Seq<bool>,
    pub v_above: Seq<bool>,
    pub cfl_above: Seq<bool>,
    pub u_left: Seq<bool>,
    pub v_left: Seq<bool>,
    pub cfl_left: Seq<bool>,
}

impl View for Presence {
    type V = Marks;

    open spec fn view(&self) -> Marks {
        Marks {
            u_above: self.u_above@,
            v_above: self.v_above@,
            cfl_above: self.cfl_above@,
            u_left: self.u_left@,
            v_left: self.v_left@,
            cfl_left: self.cfl_left@,
        }
    }
}

/// Nothing noted over `cols` by `rows` units and a superblock more.
pub open spec fn clear_marks(cols: int, rows: int) -> Marks {
    let across = Seq::new((cols + 16) as nat, |i: int| false);
    let down = Seq::new((rows + 16) as nat, |i: int| false);
    Marks {
        u_above: across,
        v_above: across,
        cfl_above: across,
        u_left: down,
        v_left: down,
        cfl_left: down,
    }
}

impl Marks {
    /// The rows cover `cols` by `rows` units and a superblock more.
    pub open spec fn span(self, cols: int, rows: int) -> bool {
        &&& self.u_above.len() == cols + 16
        &&& self.v_above.len() == cols + 16
        &&& self.cfl_above.len() == cols + 16
        &&& self.u_left.len() == rows + 16
        &&& self.v_left.len() == rows + 16
        &&& self.cfl_left.len() == rows + 16
    }

    /// What a block of `bw` by `bh` units sees. There is nothing above the first
    /// row and left of the first column.
    pub open spec fn seen(self, row: int, col: int, bw: int, bh: int) -> ChromaNeighbors {
        ChromaNeighbors {
            u_above: row > 0 && any_set(self.u_above, col, bw),
            v_above: row > 0 && any_set(self.v_above, col, bw),
            u_left: col > 0 && any_set(self.u_left, row, bh),
            v_left: col > 0 && any_set(self.v_left, row, bh),
            cfl_ctx: ((if row > 0 && self.cfl_above[col] {
                1int
            } else {
                0int
            }) + (if col > 0 && self.cfl_left[row] {
                1int
            } else {
                0int
            })) as usize,
        }
    }

    /// The marks after a block of `bw` by `bh` units.
    pub open spec fn noted(
        self,
        row: int,
        col: int,
        bw: int,
        bh: int,
        u: bool,
        v: bool,
        cfl: bool,
    ) -> Marks {
        Marks {
            u_above: set_units(self.u_above, col, bw, u),
            v_above: set_units(self.v_above, col, bw, v),
            cfl_above: set_units(self.cfl_above, col, bw, cfl),
            u_left: set_units(self.u_left, row, bh, u),
            v_left: set_units(self.v_left, row, bh, v),
            cfl_left: set_units(self.cfl_left, row, bh, cfl),
        }
    }
}

/// Whether any of `n` units from `at` on is set.
pub open spec fn any_set(s: Seq<bool>, at: int, n: int) -> bool {
    exists|i: int| at <= i < at + n && #[trigger] s[i]
}

/// `s` with `n` units from `at` on set to `v`.
pub open spec fn set_units(s: Seq<bool>, at: int, n: int, v: bool) -> Seq<bool> {
    Seq::new(
        s.len(),
        |i: int|
            if at <= i < at + n {
                v
            } else {
                s[i]
            },
    )
}

fn any_set_in(s: &Vec<bool>, at: usize, n: usize) -> (b: bool)
    requires
        at + n <= s@.len(),
    ensures
        b == any_set(s@, at as int, n as int),
{
    let len: usize = s.len();
    let mut i: usize = 0;
    while i < n
        invariant
            i <= n,
            at + n <= len,
            len == s@.len(),
            forall|k: int| at <= k < at + i ==> !(#[trigger] s@[k]),
        decreases n - i,
    {
        if s[at + i] {
            return true;
        }
        i = i + 1;
    }
    false
}

fn set_units_in(s: &mut Vec<bool>, at: usize, n: usize, v: bool)
    requires
        at + n <= old(s)@.len(),
    ensures
        final(s)@ == set_units(old(s)@, at as int, n as int, v),
{
    let ghost before = s@;
    let len: usize = s.len();
    let mut i: usize = 0;
    while i < n
        invariant
            i <= n,
            at + n <= len,
            len == s@.len(),
            s@ =~= set_units(before, at as int, i as int, v),
        decreases n - i,
    {
        s.set(at + i, v);
        i = i + 1;
    }
}

/// What a chroma block sees of its neighbors.
#[derive(Clone, Copy, Debug, PartialEq, Eq, Structural)]
pub struct ChromaNeighbors {
    pub u_above: bool,
    pub u_left: bool,
    pub v_above: bool,
    pub v_left: bool,
    /// How many of the two neighbors are predicted from luma.
    pub cfl_ctx: usize,
}

fn one_if(b: bool) -> (n: usize)
    ensures
        n == if b {
            1int
        } else {
            0int
        },
{
    if b {
        1
    } else {
        0
    }
}

impl Presence {
    /// The units of a block lie in the rows.
    pub open spec fn reaches(&self, row: int, col: int, bw: int, bh: int) -> bool {
        &&& col + bw <= self.u_above@.len()
        &&& col + bw <= self.v_above@.len()
        &&& col + bw <= self.cfl_above@.len()
        &&& row + bh <= self.u_left@.len()
        &&& row + bh <= self.v_left@.len()
        &&& row + bh <= self.cfl_left@.len()
    }

    /// Rows of a frame of `mi_cols` by `mi_rows` units, with nothing coded yet.
    pub fn new(mi_cols: usize, mi_rows: usize) -> (p: Presence)
        requires
            mi_cols + 16 <= usize::MAX,
            mi_rows + 16 <= usize::MAX,
        ensures
            p@ == clear_marks(mi_cols as int, mi_rows as int),
    {
        Presence {
            u_above: clear_row(mi_cols + 16),
            v_above: clear_row(mi_cols + 16),
            cfl_above: clear_row(mi_cols + 16),
            u_left: clear_row(mi_rows + 16),
            v_left: clear_row(mi_rows + 16),
            cfl_left: clear_row(mi_rows + 16),
        }
    }

    /// Neighbors of a block of `bw` by `bh` units. There are none above the
    /// first row and left of the first column.
    pub fn neighbors(&self, row: usize, col: usize, bw: usize, bh: usize) -> (c: ChromaNeighbors)
        requires
            self.reaches(row as int, col as int, bw as int, bh as int),
            bw >= 1,
            bh >= 1,
        ensures
            c == self@.seen(row as int, col as int, bw as int, bh as int),
    {
        let cols: usize = self.cfl_above.len();
        let rows: usize = self.cfl_left.len();
        ChromaNeighbors {
            u_above: row > 0 && any_set_in(&self.u_above, col, bw),
            v_above: row > 0 && any_set_in(&self.v_above, col, bw),
            u_left: col > 0 && any_set_in(&self.u_left, row, bh),
            v_left: col > 0 && any_set_in(&self.v_left, row, bh),
            cfl_ctx: one_if(row > 0 && self.cfl_above[col]) + one_if(col > 0 && self.cfl_left[row]),
        }
    }

    /// Note what a block of `bw` by `bh` units was coded with.
    pub fn note(
        &mut self,
        row: usize,
        col: usize,
        bw: usize,
        bh: usize,
        u: bool,
        v: bool,
        cfl: bool,
    )
        requires
            old(self).reaches(row as int, col as int, bw as int, bh as int),
        ensures
            final(self)@ == old(self)@.noted(
                row as int,
                col as int,
                bw as int,
                bh as int,
                u,
                v,
                cfl,
            ),
    {
        set_units_in(&mut self.u_above, col, bw, u);
        set_units_in(&mut self.v_above, col, bw, v);
        set_units_in(&mut self.cfl_above, col, bw, cfl);
        set_units_in(&mut self.u_left, row, bh, u);
        set_units_in(&mut self.v_left, row, bh, v);
        set_units_in(&mut self.cfl_left, row, bh, cfl);
    }
}

fn clear_row(n: usize) -> (out: Vec<bool>)
    ensures
        out@ == Seq::new(n as nat, |i: int| false),
{
    let mut out: Vec<bool> = Vec::new();
    let mut i: usize = 0;
    while i < n
        invariant
            i <= n,
            out@ =~= Seq::new(i as nat, |k: int| false),
        decreases n - i,
    {
        out.push(false);
        i = i + 1;
    }
    out
}

/// The block below or to the right of a block sees what was noted of it.
pub proof fn law_noted_block_is_seen(s: Seq<bool>, at: int, n: int, v: bool, from: int, count: int)
    requires
        0 <= at,
        at + n <= s.len(),
        at <= from,
        from + count <= at + n,
        count >= 1,
    ensures
        any_set(set_units(s, at, n, v), from, count) == v,
{
    let t = set_units(s, at, n, v);
    assert(t[from] == v);
}

/// Context of the U skip flag.
pub open spec fn u_skip_context(nb: ChromaNeighbors) -> int {
    6 + (if nb.u_above {
        1int
    } else {
        0
    }) + (if nb.u_left {
        1int
    } else {
        0
    })
}

/// Context of the V skip flag, which depends on whether U has levels.
pub open spec fn v_skip_context(nb: ChromaNeighbors, u_present: bool) -> int {
    (if u_present {
        6int
    } else {
        0
    }) + (if nb.v_above {
        1int
    } else {
        0
    }) + (if nb.v_left {
        1int
    } else {
        0
    })
}

// ---------------------------------------------------------------------------
// Residuals
// ---------------------------------------------------------------------------

/// Difference of a rectangle of samples and a predicted block, row by row.
pub open spec fn block_difference(
    src: Seq<u16>,
    stride: nat,
    y: nat,
    x: nat,
    w: nat,
    h: nat,
    pred: Seq<i32>,
) -> Seq<i32> {
    let s = plane::rect_samples(src, stride, y, x, w, h);
    Seq::new(w * h, |i: int| (s[i] - pred[i]) as i32)
}

/// Residual of a block against a predicted block.
pub fn residual_against(
    src: &[u16],
    stride: usize,
    y: usize,
    x: usize,
    w: usize,
    h: usize,
    pred: &[i32],
) -> (r: Vec<i32>)
    requires
        plane::rect_fits(src@.len(), stride as nat, y as nat, x as nat, w as nat, h as nat),
        y + h <= usize::MAX,
        pred@.len() >= w * h,
        forall|i: int| 0 <= i < pred@.len() ==> 0 <= #[trigger] pred@[i] <= 0xffff,
    ensures
        r@ == block_difference(
            src@,
            stride as nat,
            y as nat,
            x as nat,
            w as nat,
            h as nat,
            pred@,
        ),
{
    let samples: Vec<u16> = extract_subplane_pixels(src, stride, x, y, w, h);
    let ghost want = block_difference(
        src@,
        stride as nat,
        y as nat,
        x as nat,
        w as nat,
        h as nat,
        pred@,
    );
    let mut r: Vec<i32> = Vec::new();
    let mut i: usize = 0;
    while i < samples.len()
        invariant
            i <= samples@.len(),
            samples@.len() == want.len(),
            want.len() <= pred@.len(),
            forall|k: int| 0 <= k < want.len() ==> #[trigger] want[k] == (samples@[k] - pred@[k]) as i32,
            forall|i: int| 0 <= i < pred@.len() ==> 0 <= #[trigger] pred@[i] <= 0xffff,
            r@ =~= want.take(i as int),
        decreases samples@.len() - i,
    {
        let d: i32 = samples[i] as i32 - pred[i];
        assert(want[i as int] == d);
        r.push(d);
        i = i + 1;
    }
    assert(want.take(want.len() as int) =~= want);
    r
}

/// Geometry of a chroma leaf.
#[derive(Clone, Copy, Debug)]
pub struct ChromaArea {
    pub stride: usize,
    pub y: usize,
    pub x: usize,
    pub w: usize,
    pub h: usize,
}

impl ChromaArea {
    /// The leaf lies in planes of `len` samples.
    pub open spec fn fits(self, len: nat) -> bool {
        &&& 1 <= self.w <= 64
        &&& 1 <= self.h <= 64
        &&& plane::rect_in_rows(
            len,
            self.stride as nat,
            self.y as nat,
            self.x as nat,
            self.w as nat,
            self.h as nat,
        )
        &&& self.y + self.h <= usize::MAX
    }
}

/// DC prediction of a chroma leaf.
pub open spec fn leaf_dc(rec: Seq<u16>, a: ChromaArea, neutral: u16, bd: u32) -> nat {
    if a.y > 0 || a.x > 0 {
        let rect = dcpred::BoundedIntraRect {
            stride: a.stride,
            y: a.y,
            x: a.x,
            width: a.w,
            height: a.h,
            frame_width: usize::MAX,
            frame_height: usize::MAX,
        };
        dcpred::held(
            dcpred::reciprocal_mean(
                dcpred::bounded_total(rec, rect),
                dcpred::bounded_samples(rect),
            ),
            bd as nat,
        )
    } else {
        neutral as nat
    }
}

/// Residual of one plane of a chroma leaf: against a given prediction, else
/// against its DC prediction.
pub open spec fn leaf_residual(
    rec: Seq<u16>,
    src: Seq<u16>,
    a: ChromaArea,
    neutral: u16,
    bd: u32,
    pred: Option<Seq<i32>>,
) -> Seq<i32> {
    let (s, y, x, w, h) = (a.stride as nat, a.y as nat, a.x as nat, a.w as nat, a.h as nat);
    match pred {
        Some(p) => block_difference(src, s, y, x, w, h, p),
        None => plane::residual_of(src, s, y, x, w, h, leaf_dc(rec, a, neutral, bd) as int),
    }
}

/// A prediction that multi-hypothesis search found for both planes.
#[derive(Clone, Copy, Debug)]
pub struct CrossPrediction<'a> {
    pub u: &'a [i32],
    pub v: &'a [i32],
}

/// Samples of a block of prediction.
pub open spec fn prediction_fits(p: Seq<i32>, a: ChromaArea) -> bool {
    &&& p.len() >= a.w * a.h
    &&& forall|i: int| 0 <= i < p.len() ==> 0 <= #[trigger] p[i] <= 0xffff
}

proof fn lemma_edges(len: nat, a: ChromaArea)
    requires
        a.fits(len),
    ensures
        plane::rect_fits(len, a.stride as nat, a.y as nat, a.x as nat, a.w as nat, a.h as nat),
        dcpred::edges_fit(
            len,
            a.stride as int,
            a.y as int,
            a.x as int,
            a.w as int,
            a.h as int,
        ),
{
    let (s, y, x, w, h) = (a.stride as int, a.y as int, a.x as int, a.w as int, a.h as int);
    assert((y + h - 1) * s + s == (y + h) * s) by (nonlinear_arith);
    assert((y - 1) * s + s == y * s) by (nonlinear_arith);
    assert(y * s <= (y + h) * s) by (nonlinear_arith)
        requires
            h >= 0,
            s >= 0,
    ;
}

/// Residuals of the two planes of a chroma leaf: against the cross-component
/// prediction where there is one, else against the DC prediction of each plane.
pub fn chroma_leaf_residuals(
    recu: &[u16],
    recv: &[u16],
    up: &[u16],
    vp: &[u16],
    area: ChromaArea,
    neutral: u16,
    bd: u32,
    cross: Option<CrossPrediction>,
) -> (r: (Vec<i32>, Vec<i32>))
    requires
        bd <= 16,
        area.fits(recu@.len()),
        area.fits(recv@.len()),
        area.fits(up@.len()),
        area.fits(vp@.len()),
        cross matches Some(c) ==> prediction_fits(c.u@, area) && prediction_fits(c.v@, area),
    ensures
        r.0@ == leaf_residual(
            recu@,
            up@,
            area,
            neutral,
            bd,
            match cross {
                Some(c) => Some(c.u@),
                None => None,
            },
        ),
        r.1@ == leaf_residual(
            recv@,
            vp@,
            area,
            neutral,
            bd,
            match cross {
                Some(c) => Some(c.v@),
                None => None,
            },
        ),
{
    let (s, y, x, w, h) = (area.stride, area.y, area.x, area.w, area.h);
    proof {
        lemma_edges(recu@.len(), area);
        lemma_edges(recv@.len(), area);
        lemma_edges(up@.len(), area);
        lemma_edges(vp@.len(), area);
    }
    match cross {
        Some(c) => (
            residual_against(up, s, y, x, w, h, c.u),
            residual_against(vp, s, y, x, w, h, c.v),
        ),
        None => {
            let pu: u16 = dc_pred_rect(recu, s, y, x, w, h, neutral, bd);
            let pv: u16 = dc_pred_rect(recv, s, y, x, w, h, neutral, bd);
            (
                get_residual_rect(up, s, y, x, w, h, pu),
                get_residual_rect(vp, s, y, x, w, h, pv),
            )
        },
    }
}

// ---------------------------------------------------------------------------
// Coding
// ---------------------------------------------------------------------------

/// What is coded of a chroma leaf, U before V.
#[derive(Debug)]
pub struct ChromaLeaf {
    pub u: Vec<Coeff>,
    pub v: Vec<Coeff>,
    pub u_skip: usize,
    pub v_skip: usize,
    pub u_present: bool,
    pub v_present: bool,
    /// Base-2 logarithm of the coded width, which is at most 32.
    pub width_log2: u32,
}

/// Whether a block has levels.
pub open spec fn has_levels(lev: Seq<i32>) -> bool {
    exists|i: int| 0 <= i < lev.len() && #[trigger] lev[i] != 0
}

proof fn lemma_has_levels(lev: Seq<i32>)
    ensures
        has_levels(lev) <==> contexts::level_sum(contexts::nonzero_coeffs(lev)) > 0,
    decreases lev.len(),
{
    if lev.len() > 0 {
        let head = lev.drop_last();
        lemma_has_levels(head);
        let c = contexts::nonzero_coeffs(head);
        if lev.last() != 0 {
            let all = c.push(((lev.len() - 1) as usize, lev.last()));
            assert(all.drop_last() =~= c);
            assert(lev[lev.len() - 1] != 0);
        } else {
            if has_levels(lev) {
                let i = choose|i: int| 0 <= i < lev.len() && #[trigger] lev[i] != 0;
                assert(head[i] != 0);
            }
            if has_levels(head) {
                let i = choose|i: int| 0 <= i < head.len() && #[trigger] head[i] != 0;
                assert(lev[i] != 0);
            }
        }
    }
}

/// Put the reconstruction of a chroma leaf into the planes, and derive what is
/// coded of it from the levels in scan order.
pub fn code_444_chroma_leaf(
    recu: &mut Vec<u16>,
    recv: &mut Vec<u16>,
    area: ChromaArea,
    recon_u: &[u16],
    recon_v: &[u16],
    lev_u: &[i32],
    lev_v: &[i32],
    nb: ChromaNeighbors,
) -> (leaf: ChromaLeaf)
    requires
        area.fits(old(recu)@.len()),
        area.fits(old(recv)@.len()),
        recon_u@.len() >= area.w * area.h,
        recon_v@.len() >= area.w * area.h,
    ensures
        final(recu)@ == plane::with_rect(
            old(recu)@,
            area.stride as nat,
            area.y as nat,
            area.x as nat,
            area.w as nat,
            area.h as nat,
            recon_u@,
        ),
        final(recv)@ == plane::with_rect(
            old(recv)@,
            area.stride as nat,
            area.y as nat,
            area.x as nat,
            area.w as nat,
            area.h as nat,
            recon_v@,
        ),
        leaf.u@ == contexts::nonzero_coeffs(lev_u@),
        leaf.v@ == contexts::nonzero_coeffs(lev_v@),
        leaf.u_present == has_levels(lev_u@),
        leaf.v_present == has_levels(lev_v@),
        leaf.u_skip == u_skip_context(nb),
        leaf.v_skip == v_skip_context(nb, leaf.u_present),
        leaf.width_log2 == num::bitlen(plane::least(area.w as int, 32) as nat) - 1,
{
    put_block_rect(recu, area.stride, area.y, area.x, area.w, area.h, recon_u);
    put_block_rect(recv, area.stride, area.y, area.x, area.w, area.h, recon_v);
    let u: Vec<Coeff> = levels_to_coeffs(lev_u);
    let v: Vec<Coeff> = levels_to_coeffs(lev_v);
    proof {
        lemma_has_levels(lev_u@);
        lemma_has_levels(lev_v@);
    }
    let u_present: bool = stored_level_of(u.as_slice()) > 0;
    let v_present: bool = stored_level_of(v.as_slice()) > 0;
    let u_skip: usize = 6 + one_if(nb.u_above) + one_if(nb.u_left);
    let v_skip: usize = 6 * one_if(u_present) + one_if(nb.v_above) + one_if(nb.v_left);
    let coded: u32 = if area.w < 32 {
        area.w as u32
    } else {
        32
    };
    proof {
        num::lemma_bitlen_bounds(coded as nat);
    }
    let width_log2: u32 = num::bit_length(coded) - 1;
    ChromaLeaf { u, v, u_skip, v_skip, u_present, v_present, width_log2 }
}

/// A block that was noted is what the blocks below it and to its right see: one that
/// starts under it, within its columns, sees its marks above, and one that starts
/// beside it, within its rows, sees them to the left. Each plane has its own marks.
pub proof fn law_noted_marks_are_seen_by_the_next(
    m: Marks,
    cols: int,
    rows: int,
    row: int,
    col: int,
    bw: int,
    bh: int,
    u: bool,
    v: bool,
    cfl: bool,
    n: int,
)
    requires
        m.span(cols, rows),
        0 <= row,
        0 <= col,
        1 <= bw,
        1 <= bh,
        col + bw <= cols + 16,
        row + bh <= rows + 16,
        1 <= n,
    ensures
        ({
            let after = m.noted(row, col, bw, bh, u, v, cfl);
            let below = after.seen(row + bh, col, n, 1);
            let beside = after.seen(row, col + bw, 1, n);
            &&& after.span(cols, rows)
            &&& n <= bw ==> below.u_above == u && below.v_above == v
            &&& n <= bh ==> beside.u_left == u && beside.v_left == v
            &&& col == 0 ==> below.cfl_ctx == if cfl {
                1int
            } else {
                0
            }
            &&& row == 0 ==> beside.cfl_ctx == if cfl {
                1int
            } else {
                0
            }
        }),
{
    if n <= bw {
        law_noted_block_is_seen(m.u_above, col, bw, u, col, n);
        law_noted_block_is_seen(m.v_above, col, bw, v, col, n);
    }
    if n <= bh {
        law_noted_block_is_seen(m.u_left, row, bh, u, row, n);
        law_noted_block_is_seen(m.v_left, row, bh, v, row, n);
    }
}

/// Noting a block leaves the marks of all other columns and rows.
pub proof fn law_noting_touches_its_own_units(
    m: Marks,
    row: int,
    col: int,
    bw: int,
    bh: int,
    u: bool,
    v: bool,
    cfl: bool,
    i: int,
)
    ensures
        ({
            let after = m.noted(row, col, bw, bh, u, v, cfl);
            &&& 0 <= i < m.u_above.len() && !(col <= i < col + bw) ==> after.u_above[i]
                == m.u_above[i]
            &&& 0 <= i < m.v_above.len() && !(col <= i < col + bw) ==> after.v_above[i]
                == m.v_above[i]
            &&& 0 <= i < m.cfl_above.len() && !(col <= i < col + bw) ==> after.cfl_above[i]
                == m.cfl_above[i]
            &&& 0 <= i < m.u_left.len() && !(row <= i < row + bh) ==> after.u_left[i]
                == m.u_left[i]
            &&& 0 <= i < m.v_left.len() && !(row <= i < row + bh) ==> after.v_left[i]
                == m.v_left[i]
            &&& 0 <= i < m.cfl_left.len() && !(row <= i < row + bh) ==> after.cfl_left[i]
                == m.cfl_left[i]
        }),
{
}

/// Nothing is seen across the edges of the frame, nor before anything was noted.
pub proof fn law_edges_of_the_frame_are_blank(
    m: Marks,
    cols: int,
    rows: int,
    row: int,
    col: int,
    bw: int,
    bh: int,
)
    requires
        0 <= row,
        0 <= col,
        1 <= bw,
        1 <= bh,
        col + bw <= cols + 16,
        row + bh <= rows + 16,
    ensures
        !m.seen(0, col, bw, bh).u_above,
        !m.seen(0, col, bw, bh).v_above,
        !m.seen(row, 0, bw, bh).u_left,
        !m.seen(row, 0, bw, bh).v_left,
        m.seen(0, 0, bw, bh).cfl_ctx == 0,
        ({
            let first = clear_marks(cols, rows).seen(row, col, bw, bh);
            &&& !first.u_above
            &&& !first.v_above
            &&& !first.u_left
            &&& !first.v_left
            &&& first.cfl_ctx == 0
        }),
{
}

/// The context of a chroma skip flag counts the neighbors of its own plane that have
/// levels, from 6 for U, and for V from 6 where the U of the block has levels and
/// from 0 where it has none.
pub proof fn law_chroma_contexts_count_their_plane(
    nb: ChromaNeighbors,
    other: ChromaNeighbors,
    u_present: bool,
)
    ensures
        nb.u_above == other.u_above && nb.u_left == other.u_left ==> u_skip_context(nb)
            == u_skip_context(other),
        nb.v_above == other.v_above && nb.v_left == other.v_left ==> v_skip_context(nb, u_present)
            == v_skip_context(other, u_present),
        !nb.u_above && !nb.u_left ==> u_skip_context(nb) == 6,
        nb.u_above != nb.u_left ==> u_skip_context(nb) == 7,
        nb.u_above && nb.u_left ==> u_skip_context(nb) == 8,
        !nb.v_above && !nb.v_left ==> v_skip_context(nb, false) == 0,
        nb.v_above != nb.v_left ==> v_skip_context(nb, false) == 1,
        nb.v_above && nb.v_left ==> v_skip_context(nb, false) == 2,
        v_skip_context(nb, true) == v_skip_context(nb, false) + 6,
{
}

/// A chroma residual and its prediction make the source sample. The prediction is
/// that from luma where there is one, else the mean around the block in the
/// reconstruction of the same plane.
pub proof fn law_chroma_residual_restores_the_source(
    rec: Seq<u16>,
    src: Seq<u16>,
    a: ChromaArea,
    neutral: u16,
    bd: u32,
    pred: Option<Seq<i32>>,
    r: int,
    c: int,
)
    requires
        bd <= 16,
        0 <= r < a.h,
        0 <= c < a.w,
        pred matches Some(p) ==> prediction_fits(p, a),
    ensures
        ({
            let out = leaf_residual(rec, src, a, neutral, bd, pred);
            let own = match pred {
                Some(p) => p[r * a.w + c] as int,
                None => dcpred::bounded_prediction(
                    rec,
                    (dcpred::BoundedIntraRect {
                        stride: a.stride,
                        y: a.y,
                        x: a.x,
                        width: a.w,
                        height: a.h,
                        frame_width: usize::MAX,
                        frame_height: usize::MAX,
                    }),
                    neutral,
                    bd as nat,
                ) as int,
            };
            &&& out.len() == a.w * a.h
            &&& out[r * a.w + c] + own == src[(a.y + r) * a.stride + a.x + c]
        }),
{
    lemma2_to64();
    let (s, y, x, w, h) = (a.stride as nat, a.y as nat, a.x as nat, a.w as nat, a.h as nat);
    plane::law_rect_is_read_by_rows(src, s, y, x, w, h, r, c);
    plane::lemma_in_block(r, c, w as int, h as int);
    match pred {
        Some(p) => {
            assert(0 <= p[r * a.w + c] <= 0xffff);
        },
        None => {
            let dc = leaf_dc(rec, a, neutral, bd);
            lemma_pow2_pos(bd as nat);
            if bd < 16 {
                lemma_pow2_strictly_increases(bd as nat, 16);
            }
            assert(dc <= 0xffff);
        },
    }
}

/// A block has levels unless all of them are zero.
pub proof fn law_blocks_have_levels_unless_all_are_zero(lev: Seq<i32>)
    ensures
        !has_levels(lev) <==> forall|i: int| 0 <= i < lev.len() ==> #[trigger] lev[i] == 0,
{
}

} // verus!
