//! Forward-transform settings by block shape.
//!
//! Every block shape has a forward transform, a quantizer step and the largest
//! sample value of its reconstruction.

use crate::itx422;
use crate::quant;
use vstd::arithmetic::power2::*;
use vstd::prelude::*;

verus! {

/// Forward transform of a block.
#[derive(Clone, Copy, Debug, PartialEq, Eq, Structural)]
pub enum FwdKind {
    /// None set.
    Proj,
    /// Cosine transform of a width and a height.
    Dct(usize, usize),
    /// 16x16, sine on both axes.
    AdstAdst16,
    /// 16x16, sine in columns and cosine in rows.
    AdstDct16,
    /// 16x16, cosine in columns and sine in rows.
    DctAdst16,
}

/// Settings of one block shape.
#[derive(Clone, Copy, Debug)]
pub struct Basis {
    /// Largest reconstructed sample.
    pub max_val: u32,
    /// Quantizer step.
    pub qstep: i32,
    /// Forward transform.
    pub fwd: FwdKind,
}

/// Settings before a bit depth and a quantizer are chosen: 8-bit samples and the
/// step of the calibration index.
pub open spec fn initial_basis(fwd: FwdKind) -> Basis {
    Basis { max_val: 255, qstep: quant::step_of(quant::BASE_Q as nat) as i32, fwd }
}

impl Basis {
    /// Settings with no transform chosen.
    pub fn new() -> (b: Basis)
        ensures
            b == initial_basis(FwdKind::Proj),
    {
        Basis { max_val: 255, qstep: quant::qstep(quant::BASE_Q) as i32, fwd: FwdKind::Proj }
    }

    fn with_fwd(fwd: FwdKind) -> (b: Basis)
        ensures
            b == initial_basis(fwd),
    {
        let mut b = Basis::new();
        b.fwd = fwd;
        b
    }
}

/// How a residual is transformed and scaled before it is quantized.
#[derive(Clone, Copy, Debug, PartialEq, Eq, Structural)]
pub enum ForwardPlan {
    /// Cosine transform; rows of coefficients are `coded_width` long.
    Cosine { w: usize, h: usize, coded_width: usize, factor: u32 },
    /// 16x16 transform that takes the sine in columns, in rows or in both.
    Mixed { col_adst: bool, row_adst: bool, factor: u32 },
}

/// Plan of a forward transform. Coefficients are eight times as fine as the
/// quantizer, and finer still by the bits that large transforms scale down.
pub open spec fn plan_of(fwd: FwdKind) -> Option<ForwardPlan> {
    match fwd {
        FwdKind::Proj => None,
        FwdKind::Dct(w, h) => Some(
            ForwardPlan::Cosine {
                w,
                h,
                coded_width: if w < 32 {
                    w
                } else {
                    32
                },
                factor: pow2((3 + itx422::tx_scale(w as int, h as int)) as nat) as u32,
            },
        ),
        FwdKind::AdstAdst16 => Some(
            ForwardPlan::Mixed { col_adst: true, row_adst: true, factor: 8 },
        ),
        FwdKind::AdstDct16 => Some(
            ForwardPlan::Mixed { col_adst: true, row_adst: false, factor: 8 },
        ),
        FwdKind::DctAdst16 => Some(
            ForwardPlan::Mixed { col_adst: false, row_adst: true, factor: 8 },
        ),
    }
}

/// The sides of a cosine transform are those of transforms.
pub open spec fn sides_known(fwd: FwdKind) -> bool {
    fwd matches FwdKind::Dct(w, h) ==> itx422::tx_side(w as int) && itx422::tx_side(h as int)
}

impl Basis {
    /// Plan of the forward transform; none before a transform is chosen.
    pub fn plan(&self) -> (p: Option<ForwardPlan>)
        requires
            sides_known(self.fwd),
        ensures
            p == plan_of(self.fwd),
    {
        match self.fwd {
            FwdKind::Proj => None,
            FwdKind::Dct(w, h) => {
                let scale: u32 = itx422::dc_tx_scale(w, h);
                let coded_width: usize = if w < 32 {
                    w
                } else {
                    32
                };
                Some(
                    ForwardPlan::Cosine { w, h, coded_width, factor: crate::num::pow2_u32(3 + scale) },
                )
            },
            FwdKind::AdstAdst16 => Some(
                ForwardPlan::Mixed { col_adst: true, row_adst: true, factor: 8 },
            ),
            FwdKind::AdstDct16 => Some(
                ForwardPlan::Mixed { col_adst: true, row_adst: false, factor: 8 },
            ),
            FwdKind::DctAdst16 => Some(
                ForwardPlan::Mixed { col_adst: false, row_adst: true, factor: 8 },
            ),
        }
    }
}

/// Settings of every block shape. The name of a field gives width and height;
/// `c` stands for chroma.
#[derive(Clone, Copy, Debug)]
pub struct Bases {
    /// 32x32 luma.
    pub luma: Basis,
    /// 4:2:0 chroma of a whole superblock.
    pub chroma420: Basis,
    /// 4:2:2 chroma of a whole superblock, 32 wide and 64 high.
    pub chroma422: Basis,
    /// 4:4:4 chroma of a whole superblock.
    pub chroma444: Basis,
    /// 4:4:4 chroma of a leaf at the bottom edge.
    pub chroma444_64x32: Basis,
    /// Luma leaf, 16 wide and 64 high.
    pub luma16x64: Basis,
    /// Luma leaf, 64 wide and 16 high.
    pub luma64x16: Basis,
    /// 16x16 luma, cosine on both axes.
    pub luma16x16: Basis,
    /// 16x16 luma, sine on both axes.
    pub luma16x16_adst: Basis,
    /// 16x16 luma, sine in columns and cosine in rows.
    pub luma16x16_adst_dct: Basis,
    /// 16x16 luma, cosine in columns and sine in rows.
    pub luma16x16_dct_adst: Basis,
    pub luma8x32: Basis,
    pub luma32x8: Basis,
    pub luma16x32: Basis,
    pub luma32x16: Basis,
    pub c16x32: Basis,
    pub c8x64: Basis,
    pub c32x16: Basis,
    pub c8x16: Basis,
    pub c8x8: Basis,
    pub c4x32: Basis,
    pub c4x16: Basis,
    pub c4x8: Basis,
    pub c8x4: Basis,
    pub c16x4: Basis,
    pub c4x4: Basis,
    pub c16x8: Basis,
}

/// Largest sample of a bit depth.
pub open spec fn ceiling(bit_depth: u8) -> u32 {
    (pow2(bit_depth as nat) - 1) as u32
}

/// The same settings with another ceiling.
pub open spec fn with_ceiling(b: Basis, max_val: u32) -> Basis {
    Basis { max_val, ..b }
}

/// The same settings with another quantizer step.
pub open spec fn with_qstep(b: Basis, qstep: i32) -> Basis {
    Basis { qstep, ..b }
}

/// The table for 8-bit samples at the calibration index.
pub open spec fn initial_bases() -> Bases {
    Bases {
        luma: initial_basis(FwdKind::Dct(32, 32)),
        chroma420: initial_basis(FwdKind::Dct(32, 32)),
        chroma422: initial_basis(FwdKind::Dct(32, 64)),
        chroma444: initial_basis(FwdKind::Dct(64, 64)),
        chroma444_64x32: initial_basis(FwdKind::Dct(64, 32)),
        luma16x64: initial_basis(FwdKind::Dct(16, 64)),
        luma64x16: initial_basis(FwdKind::Dct(64, 16)),
        luma16x16: initial_basis(FwdKind::Dct(16, 16)),
        luma16x16_adst: initial_basis(FwdKind::AdstAdst16),
        luma16x16_adst_dct: initial_basis(FwdKind::AdstDct16),
        luma16x16_dct_adst: initial_basis(FwdKind::DctAdst16),
        luma8x32: initial_basis(FwdKind::Dct(8, 32)),
        luma32x8: initial_basis(FwdKind::Dct(32, 8)),
        luma16x32: initial_basis(FwdKind::Dct(16, 32)),
        luma32x16: initial_basis(FwdKind::Dct(32, 16)),
        c16x32: initial_basis(FwdKind::Dct(16, 32)),
        c8x64: initial_basis(FwdKind::Dct(8, 64)),
        c32x16: initial_basis(FwdKind::Dct(32, 16)),
        c8x16: initial_basis(FwdKind::Dct(8, 16)),
        c8x8: initial_basis(FwdKind::Dct(8, 8)),
        c4x32: initial_basis(FwdKind::Dct(4, 32)),
        c4x16: initial_basis(FwdKind::Dct(4, 16)),
        c4x8: initial_basis(FwdKind::Dct(4, 8)),
        c8x4: initial_basis(FwdKind::Dct(8, 4)),
        c16x4: initial_basis(FwdKind::Dct(16, 4)),
        c4x4: initial_basis(FwdKind::Dct(4, 4)),
        c16x8: initial_basis(FwdKind::Dct(16, 8)),
    }
}

/// Settings of every block shape for 8-bit samples at the calibration index.
pub fn default_bases() -> (b: Bases)
    ensures
        b == initial_bases(),
{
    Bases {
        luma: Basis::with_fwd(FwdKind::Dct(32, 32)),
        chroma420: Basis::with_fwd(FwdKind::Dct(32, 32)),
        chroma422: Basis::with_fwd(FwdKind::Dct(32, 64)),
        chroma444: Basis::with_fwd(FwdKind::Dct(64, 64)),
        chroma444_64x32: Basis::with_fwd(FwdKind::Dct(64, 32)),
        luma16x64: Basis::with_fwd(FwdKind::Dct(16, 64)),
        luma64x16: Basis::with_fwd(FwdKind::Dct(64, 16)),
        luma16x16: Basis::with_fwd(FwdKind::Dct(16, 16)),
        luma16x16_adst: Basis::with_fwd(FwdKind::AdstAdst16),
        luma16x16_adst_dct: Basis::with_fwd(FwdKind::AdstDct16),
        luma16x16_dct_adst: Basis::with_fwd(FwdKind::DctAdst16),
        luma8x32: Basis::with_fwd(FwdKind::Dct(8, 32)),
        luma32x8: Basis::with_fwd(FwdKind::Dct(32, 8)),
        luma16x32: Basis::with_fwd(FwdKind::Dct(16, 32)),
        luma32x16: Basis::with_fwd(FwdKind::Dct(32, 16)),
        c16x32: Basis::with_fwd(FwdKind::Dct(16, 32)),
        c8x64: Basis::with_fwd(FwdKind::Dct(8, 64)),
        c32x16: Basis::with_fwd(FwdKind::Dct(32, 16)),
        c8x16: Basis::with_fwd(FwdKind::Dct(8, 16)),
        c8x8: Basis::with_fwd(FwdKind::Dct(8, 8)),
        c4x32: Basis::with_fwd(FwdKind::Dct(4, 32)),
        c4x16: Basis::with_fwd(FwdKind::Dct(4, 16)),
        c4x8: Basis::with_fwd(FwdKind::Dct(4, 8)),
        c8x4: Basis::with_fwd(FwdKind::Dct(8, 4)),
        c16x4: Basis::with_fwd(FwdKind::Dct(16, 4)),
        c4x4: Basis::with_fwd(FwdKind::Dct(4, 4)),
        c16x8: Basis::with_fwd(FwdKind::Dct(16, 8)),
    }
}

/// A table after a bit depth is set: every shape has the ceiling of the depth.
pub open spec fn at_depth(b: Bases, bit_depth: u8) -> Bases {
    let mv = ceiling(bit_depth);
    Bases {
        luma: with_ceiling(b.luma, mv),
        chroma420: with_ceiling(b.chroma420, mv),
        chroma422: with_ceiling(b.chroma422, mv),
        chroma444: with_ceiling(b.chroma444, mv),
        chroma444_64x32: with_ceiling(b.chroma444_64x32, mv),
        luma16x64: with_ceiling(b.luma16x64, mv),
        luma64x16: with_ceiling(b.luma64x16, mv),
        luma16x16: with_ceiling(b.luma16x16, mv),
        luma16x16_adst: with_ceiling(b.luma16x16_adst, mv),
        luma16x16_adst_dct: with_ceiling(b.luma16x16_adst_dct, mv),
        luma16x16_dct_adst: with_ceiling(b.luma16x16_dct_adst, mv),
        luma8x32: with_ceiling(b.luma8x32, mv),
        luma32x8: with_ceiling(b.luma32x8, mv),
        luma16x32: with_ceiling(b.luma16x32, mv),
        luma32x16: with_ceiling(b.luma32x16, mv),
        c16x32: with_ceiling(b.c16x32, mv),
        c8x64: with_ceiling(b.c8x64, mv),
        c32x16: with_ceiling(b.c32x16, mv),
        c8x16: with_ceiling(b.c8x16, mv),
        c8x8: with_ceiling(b.c8x8, mv),
        c4x32: with_ceiling(b.c4x32, mv),
        c4x16: with_ceiling(b.c4x16, mv),
        c4x8: with_ceiling(b.c4x8, mv),
        c8x4: with_ceiling(b.c8x4, mv),
        c16x4: with_ceiling(b.c16x4, mv),
        c4x4: with_ceiling(b.c4x4, mv),
        c16x8: with_ceiling(b.c16x8, mv),
    }
}

/// A table at a quantizer index: every shape has the step of the index.
pub open spec fn at_quantizer(b: Bases, base_q_idx: nat) -> Bases {
    let qs = quant::step_of(base_q_idx) as i32;
    Bases {
        luma: with_qstep(b.luma, qs),
        chroma420: with_qstep(b.chroma420, qs),
        chroma422: with_qstep(b.chroma422, qs),
        chroma444: with_qstep(b.chroma444, qs),
        chroma444_64x32: with_qstep(b.chroma444_64x32, qs),
        luma16x64: with_qstep(b.luma16x64, qs),
        luma64x16: with_qstep(b.luma64x16, qs),
        luma16x16: with_qstep(b.luma16x16, qs),
        luma16x16_adst: with_qstep(b.luma16x16_adst, qs),
        luma16x16_adst_dct: with_qstep(b.luma16x16_adst_dct, qs),
        luma16x16_dct_adst: with_qstep(b.luma16x16_dct_adst, qs),
        luma8x32: with_qstep(b.luma8x32, qs),
        luma32x8: with_qstep(b.luma32x8, qs),
        luma16x32: with_qstep(b.luma16x32, qs),
        luma32x16: with_qstep(b.luma32x16, qs),
        c16x32: with_qstep(b.c16x32, qs),
        c8x64: with_qstep(b.c8x64, qs),
        c32x16: with_qstep(b.c32x16, qs),
        c8x16: with_qstep(b.c8x16, qs),
        c8x8: with_qstep(b.c8x8, qs),
        c4x32: with_qstep(b.c4x32, qs),
        c4x16: with_qstep(b.c4x16, qs),
        c4x8: with_qstep(b.c4x8, qs),
        c8x4: with_qstep(b.c8x4, qs),
        c16x4: with_qstep(b.c16x4, qs),
        c4x4: with_qstep(b.c4x4, qs),
        c16x8: with_qstep(b.c16x8, qs),
    }
}

impl Bases {
    /// Set the reconstruction ceiling from the bit depth.
    pub fn set_bit_depth(&mut self, bit_depth: u8)
        requires
            bit_depth < 32,
        ensures
            *final(self) == at_depth(*old(self), bit_depth),
    {
        proof {
            lemma_pow2_pos(bit_depth as nat);
        }
        let mv: u32 = crate::num::pow2_u32(bit_depth as u32) - 1;
        self.luma.max_val = mv;
        self.chroma420.max_val = mv;
        self.chroma422.max_val = mv;
        self.chroma444.max_val = mv;
        self.chroma444_64x32.max_val = mv;
        self.luma16x64.max_val = mv;
        self.luma64x16.max_val = mv;
        self.luma16x16.max_val = mv;
        self.luma16x16_adst.max_val = mv;
        self.luma16x16_adst_dct.max_val = mv;
        self.luma16x16_dct_adst.max_val = mv;
        self.luma8x32.max_val = mv;
        self.luma32x8.max_val = mv;
        self.luma16x32.max_val = mv;
        self.luma32x16.max_val = mv;
        self.c16x32.max_val = mv;
        self.c8x64.max_val = mv;
        self.c32x16.max_val = mv;
        self.c8x16.max_val = mv;
        self.c8x8.max_val = mv;
        self.c4x32.max_val = mv;
        self.c4x16.max_val = mv;
        self.c4x8.max_val = mv;
        self.c8x4.max_val = mv;
        self.c16x4.max_val = mv;
        self.c4x4.max_val = mv;
        self.c16x8.max_val = mv;
    }

    /// The table at a quantizer index.
    pub fn rescaled_to_q(self, base_q_idx: u32) -> (b: Bases)
        ensures
            b == at_quantizer(self, base_q_idx as nat),
    {
        let qs: i32 = quant::qstep(base_q_idx) as i32;
        let mut b = self;
        b.luma.qstep = qs;
        b.chroma420.qstep = qs;
        b.chroma422.qstep = qs;
        b.chroma444.qstep = qs;
        b.chroma444_64x32.qstep = qs;
        b.luma16x64.qstep = qs;
        b.luma64x16.qstep = qs;
        b.luma16x16.qstep = qs;
        b.luma16x16_adst.qstep = qs;
        b.luma16x16_adst_dct.qstep = qs;
        b.luma16x16_dct_adst.qstep = qs;
        b.luma8x32.qstep = qs;
        b.luma32x8.qstep = qs;
        b.luma16x32.qstep = qs;
        b.luma32x16.qstep = qs;
        b.c16x32.qstep = qs;
        b.c8x64.qstep = qs;
        b.c32x16.qstep = qs;
        b.c8x16.qstep = qs;
        b.c8x8.qstep = qs;
        b.c4x32.qstep = qs;
        b.c4x16.qstep = qs;
        b.c4x8.qstep = qs;
        b.c8x4.qstep = qs;
        b.c16x4.qstep = qs;
        b.c4x4.qstep = qs;
        b.c16x8.qstep = qs;
        b
    }
}

/// Settings of all block shapes.
pub open spec fn shapes(b: Bases) -> Seq<Basis> {
    seq![
        b.luma,
        b.chroma420,
        b.chroma422,
        b.chroma444,
        b.chroma444_64x32,
        b.luma16x64,
        b.luma64x16,
        b.luma16x16,
        b.luma16x16_adst,
        b.luma16x16_adst_dct,
        b.luma16x16_dct_adst,
        b.luma8x32,
        b.luma32x8,
        b.luma16x32,
        b.luma32x16,
        b.c16x32,
        b.c8x64,
        b.c32x16,
        b.c8x16,
        b.c8x8,
        b.c4x32,
        b.c4x16,
        b.c4x8,
        b.c8x4,
        b.c16x4,
        b.c4x4,
        b.c16x8,
    ]
}

/// A bit depth and a quantizer reach every block shape, and no shape is left
/// without a forward transform.
pub proof fn law_settings_reach_every_shape(bit_depth: u8, base_q_idx: nat, i: int)
    requires
        0 <= i < shapes(initial_bases()).len(),
    ensures
        ({
            let b = shapes(at_quantizer(at_depth(initial_bases(), bit_depth), base_q_idx))[i];
            &&& b.max_val == ceiling(bit_depth)
            &&& b.qstep == quant::step_of(base_q_idx) as i32
            &&& b.fwd == shapes(initial_bases())[i].fwd
            &&& sides_known(b.fwd)
            &&& plan_of(b.fwd) is Some
        }),
{
}

/// Bit depth and quantizer can be set in either order, and no transform changes.
pub proof fn law_depth_and_quantizer_are_independent(b: Bases, bit_depth: u8, base_q_idx: nat)
    ensures
        at_depth(at_quantizer(b, base_q_idx), bit_depth) == at_quantizer(
            at_depth(b, bit_depth),
            base_q_idx,
        ),
{
}

/// Whether a level is dropped: it and every later one is zero or weak.
pub open spec fn dropped(levels: Seq<i32>, weak: Seq<bool>, k: int) -> bool {
    forall|j: int|
        k <= j < levels.len() && j < weak.len() ==> #[trigger] levels[j] == 0 || weak[j]
}

/// The levels after truncation of the tail. Entries without a magnitude stay.
pub open spec fn truncated(levels: Seq<i32>, weak: Seq<bool>) -> Seq<i32> {
    Seq::new(
        levels.len(),
        |k: int|
            if k < weak.len() && dropped(levels, weak, k) {
                0
            } else {
                levels[k]
            },
    )
}

/// Drop weak levels from the end of a scan up to the last one worth keeping.
/// `weak` tells for each level whether its magnitude before rounding lies below
/// the threshold.
pub fn rdoq_truncate_eob(levels: &mut Vec<i32>, weak: &[bool])
    ensures
        final(levels)@ == truncated(old(levels)@, weak@),
{
    let n: usize = if levels.len() < weak.len() {
        levels.len()
    } else {
        weak.len()
    };
    let len: usize = levels.len();
    let mut k: usize = n;
    while k > 0
        invariant
            k <= n,
            n <= len,
            n <= weak@.len(),
            n == len || n == weak@.len(),
            len == old(levels)@.len(),
            levels@.len() == len,
            forall|j: int| k <= j < n ==> old(levels)@[j] == 0 || #[trigger] weak@[j],
            forall|j: int| k <= j < n ==> #[trigger] levels@[j] == 0,
            forall|j: int| 0 <= j < k || n <= j < len ==> #[trigger] levels@[j] == old(levels)@[j],
        decreases k,
    {
        if levels[k - 1] != 0 {
            if weak[k - 1] {
                levels.set(k - 1, 0);
            } else {
                proof {
                    assert forall|i: int| 0 <= i < len implies #[trigger] levels@[i] == truncated(
                        old(levels)@,
                        weak@,
                    )[i] by {
                        if i < k {
                            assert(old(levels)@[k - 1] != 0 && !weak@[k - 1]);
                        } else if i < n {
                            assert forall|j: int| i <= j < len && j < weak@.len() implies #[trigger] old(
                                levels,
                            )@[j] == 0 || weak@[j] by {}
                        }
                    }
                    assert(levels@ =~= truncated(old(levels)@, weak@));
                }
                return;
            }
        }
        k = k - 1;
    }
    proof {
        assert forall|i: int| 0 <= i < len implies #[trigger] levels@[i] == truncated(
            old(levels)@,
            weak@,
        )[i] by {
            assert(i < n ==> dropped(old(levels)@, weak@, i));
        }
        assert(levels@ =~= truncated(old(levels)@, weak@));
    }
}

/// Truncation keeps the last level that is worth keeping and all before it.
pub proof fn law_truncation_keeps_the_head(levels: Seq<i32>, weak: Seq<bool>, last: int)
    requires
        0 <= last < levels.len(),
        last < weak.len(),
        levels[last] != 0,
        !weak[last],
    ensures
        forall|k: int| 0 <= k <= last ==> #[trigger] truncated(levels, weak)[k] == levels[k],
{
    assert forall|k: int| 0 <= k <= last implies #[trigger] truncated(levels, weak)[k]
        == levels[k] by {
        assert(!dropped(levels, weak, k));
    }
}

/// Truncating twice is truncating once.
pub proof fn law_truncation_is_idempotent(levels: Seq<i32>, weak: Seq<bool>)
    ensures
        truncated(truncated(levels, weak), weak) == truncated(levels, weak),
{
    let t = truncated(levels, weak);
    assert forall|k: int| 0 <= k < levels.len() implies #[trigger] truncated(t, weak)[k] == t[k] by {
        if k < weak.len() && !dropped(levels, weak, k) {
            let j = choose|j: int|
                k <= j < levels.len() && j < weak.len() && #[trigger] levels[j] != 0 && !weak[j];
            assert(!dropped(levels, weak, j));
            assert(t[j] == levels[j]);
            assert(!dropped(t, weak, k));
        }
    }
    assert(truncated(t, weak) =~= t);
}

/// A forward transform is scaled by eight, and by twice or four times that where it
/// has more than 256 or 1024 samples; at most 32 columns of it are coded. The mixed
/// ones name the columns first: each direction is a sine one where its kind says so.
pub proof fn law_plans_follow_their_kind(w: usize, h: usize)
    requires
        itx422::tx_side(w as int),
        itx422::tx_side(h as int),
    ensures
        plan_of(FwdKind::Proj) is None,
        plan_of(FwdKind::Dct(w, h)) matches Some(ForwardPlan::Cosine {
            w: pw,
            h: ph,
            coded_width,
            factor,
        }) && pw == w && ph == h && coded_width == (if w == 64 {
            32int
        } else {
            w as int
        }) && factor == (if w * h <= 256 {
            8int
        } else if w * h <= 1024 {
            16
        } else {
            32
        }),
        plan_of(FwdKind::AdstAdst16) == Some(
            ForwardPlan::Mixed { col_adst: true, row_adst: true, factor: 8 },
        ),
        plan_of(FwdKind::AdstDct16) == Some(
            ForwardPlan::Mixed { col_adst: true, row_adst: false, factor: 8 },
        ),
        plan_of(FwdKind::DctAdst16) == Some(
            ForwardPlan::Mixed { col_adst: false, row_adst: true, factor: 8 },
        ),
{
    lemma2_to64();
    itx422::law_scale_follows_the_area(w as int, h as int);
}

/// Every shape is transformed with the sides, and the 16x16 ones with the kinds,
/// that it is named after; the chroma of a superblock has the sides of its format.
pub proof fn law_shapes_have_their_sides()
    ensures
        ({
            let b = initial_bases();
            &&& b.luma.fwd == FwdKind::Dct(32, 32) && b.chroma420.fwd == FwdKind::Dct(32, 32)
            &&& b.chroma422.fwd == FwdKind::Dct(32, 64) && b.chroma444.fwd == FwdKind::Dct(64, 64)
            &&& b.chroma444_64x32.fwd == FwdKind::Dct(64, 32)
            &&& b.luma16x64.fwd == FwdKind::Dct(16, 64) && b.luma64x16.fwd == FwdKind::Dct(64, 16)
            &&& b.luma16x16.fwd == FwdKind::Dct(16, 16)
            &&& b.luma16x16_adst.fwd == FwdKind::AdstAdst16
            &&& b.luma16x16_adst_dct.fwd == FwdKind::AdstDct16
            &&& b.luma16x16_dct_adst.fwd == FwdKind::DctAdst16
            &&& b.luma8x32.fwd == FwdKind::Dct(8, 32) && b.luma32x8.fwd == FwdKind::Dct(32, 8)
            &&& b.luma16x32.fwd == FwdKind::Dct(16, 32) && b.luma32x16.fwd == FwdKind::Dct(32, 16)
            &&& b.c16x32.fwd == FwdKind::Dct(16, 32) && b.c8x64.fwd == FwdKind::Dct(8, 64)
            &&& b.c32x16.fwd == FwdKind::Dct(32, 16) && b.c8x16.fwd == FwdKind::Dct(8, 16)
            &&& b.c8x8.fwd == FwdKind::Dct(8, 8) && b.c4x32.fwd == FwdKind::Dct(4, 32)
            &&& b.c4x16.fwd == FwdKind::Dct(4, 16) && b.c4x8.fwd == FwdKind::Dct(4, 8)
            &&& b.c8x4.fwd == FwdKind::Dct(8, 4) && b.c16x4.fwd == FwdKind::Dct(16, 4)
            &&& b.c4x4.fwd == FwdKind::Dct(4, 4) && b.c16x8.fwd == FwdKind::Dct(16, 8)
        }),
{
}

/// The ceiling is the largest sample of a bit depth.
pub proof fn law_ceiling_is_the_largest_sample(bit_depth: u8)
    requires
        bit_depth < 32,
    ensures
        ceiling(bit_depth) + 1 == pow2(bit_depth as nat),
{
    lemma2_to64();
    lemma_pow2_pos(bit_depth as nat);
    lemma_pow2_strictly_increases(bit_depth as nat, 32);
}

/// Truncation drops a level exactly where it and all after it that are judged are
/// weak or zero; levels beyond those that are judged stay.
pub proof fn law_truncation_drops_the_weak_tail(levels: Seq<i32>, weak: Seq<bool>, k: int)
    requires
        0 <= k < levels.len(),
    ensures
        truncated(levels, weak).len() == levels.len(),
        k >= weak.len() ==> truncated(levels, weak)[k] == levels[k],
        k < weak.len() && (forall|j: int|
            k <= j < levels.len() && j < weak.len() ==> #[trigger] levels[j] == 0 || weak[j])
            ==> truncated(levels, weak)[k] == 0,
        truncated(levels, weak)[k] != levels[k] ==> truncated(levels, weak)[k] == 0 && weak[k],
{
    if k < weak.len() && dropped(levels, weak, k) {
        assert(levels[k] == 0 || weak[k]);
    }
}

} // verus!
