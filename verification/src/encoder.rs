//! Encoder settings and what follows from them for a frame.

use crate::headers::{Config, GuidedDeblock};
use crate::layout::Layout;
use vstd::prelude::*;

verus! {

/// Coded sample depth.
#[derive(Clone, Copy, Debug, PartialEq, Eq, Structural)]
pub enum BitDepth {
    Eight,
    Ten,
    Twelve,
}

impl BitDepth {
    /// Bits of a sample.
    pub open spec fn value(self) -> u8 {
        match self {
            BitDepth::Eight => 8,
            BitDepth::Ten => 10,
            BitDepth::Twelve => 12,
        }
    }

    pub fn bits(self) -> (n: u8)
        ensures
            n == self.value(),
    {
        match self {
            BitDepth::Eight => 8,
            BitDepth::Ten => 10,
            BitDepth::Twelve => 12,
        }
    }
}

/// Chroma sampling of a coded picture.
#[derive(Clone, Copy, Debug, PartialEq, Eq, Structural)]
pub enum ChromaFormat {
    Monochrome,
    Yuv420,
    Yuv422,
    Yuv444,
}

/// Search effort.
#[derive(Clone, Copy, Debug, PartialEq, Eq, Structural)]
pub enum Speed {
    Slow,
    Medium,
    Fast,
}

impl Speed {
    /// Whether the fastest effort cuts down the intra modes that are tried.
    pub fn reduced_modes(self) -> (b: bool)
        ensures
            b == (self == Speed::Fast),
    {
        self == Speed::Fast
    }

    /// Whether the levels of every candidate are optimized; otherwise only those
    /// of the winner are.
    pub fn per_candidate_rdoq(self) -> (b: bool)
        ensures
            b == (self == Speed::Slow),
    {
        self == Speed::Slow
    }

    /// Whether directional modes are tried at all their angles.
    pub fn try_angle_deltas(self) -> (b: bool)
        ensures
            b == (self == Speed::Slow),
    {
        self == Speed::Slow
    }
}

/// Color description: the default one of sRGB content in YCbCr, or explicit
/// code points.
#[derive(Clone, Copy, Debug, PartialEq, Eq, Structural)]
pub enum Cicp {
    SrgbYcbcr,
    Coded { primaries: u16, transfer: u16, matrix: u16, full_range: bool },
}

/// Luma transform-partition strategy for a 64x64 superblock.
#[derive(Clone, Copy, Debug, PartialEq, Eq, Structural)]
pub enum TxPart {
    /// Choose among four 32x32, four 16x64 and four 64x16 transforms.
    ThreeWay,
    /// Choose between four 32x32 and four 16x64 transforms.
    Rd2,
    /// Force four 32x32 transforms.
    Split,
    /// Force four 16x64 transforms.
    Vert4,
    /// Force four 64x16 transforms.
    Horz4,
}

impl Default for TxPart {
    fn default() -> (t: TxPart)
        ensures
            t == TxPart::ThreeWay,
    {
        TxPart::ThreeWay
    }
}

/// Encoder knobs that are whole numbers or switches. Strengths that scale a
/// rate-distortion trade-off belong to the search that applies them.
#[derive(Clone, Copy, Debug)]
pub struct Tuning {
    /// Requested tile columns, at least 1.
    pub tile_cols: usize,
    /// Requested tile rows, at least 1.
    pub tile_rows: usize,
    /// Luma transform-partition strategy.
    pub txpart: TxPart,
    /// Enable the in-loop deblocking filter.
    pub deblock: bool,
    /// Enable deblocking of the chroma planes.
    pub chroma_deblock: bool,
    /// Enable cross-component sample offset.
    pub ccso: bool,
    /// Luma deblock threshold offset; `i32::MIN` derives it from the quantizer.
    pub db_delta_y: i32,
    /// Chroma deblock threshold offset.
    pub db_delta_uv: i32,
    /// Enable the in-loop directional de-ringing filter.
    pub cdef: bool,
    /// Chroma-from-luma prediction.
    pub cfl: bool,
    /// Multi-hypothesis cross-component prediction.
    pub mhccp: bool,
    /// Per-superblock adaptive quantization.
    pub aq: bool,
    /// Selectivity of adaptive quantization, 1 to 8.
    pub vb_octile: u8,
    /// Adaptive quantization only lowers the quantizer.
    pub vb_boost_only: bool,
    /// Search the chroma modes besides chroma-from-luma.
    pub chroma_mode_search: bool,
    /// Allow four 32x32 chroma blocks in place of one 64x64.
    pub chroma_split: bool,
    /// Adapt the symbol tables while coding.
    pub updating_cdf: bool,
}

/// The shipping defaults.
pub open spec fn default_tuning() -> Tuning {
    Tuning {
        tile_cols: 1,
        tile_rows: 1,
        txpart: TxPart::ThreeWay,
        deblock: true,
        chroma_deblock: true,
        ccso: false,
        db_delta_y: i32::MIN,
        db_delta_uv: 0,
        cdef: false,
        cfl: true,
        mhccp: true,
        aq: true,
        vb_octile: 6,
        vb_boost_only: false,
        chroma_mode_search: true,
        chroma_split: true,
        updating_cdf: true,
    }
}

impl Default for Tuning {
    fn default() -> (t: Tuning)
        ensures
            t == default_tuning(),
    {
        Tuning {
            tile_cols: 1,
            tile_rows: 1,
            txpart: TxPart::ThreeWay,
            deblock: true,
            chroma_deblock: true,
            ccso: false,
            db_delta_y: i32::MIN,
            db_delta_uv: 0,
            cdef: false,
            cfl: true,
            mhccp: true,
            aq: true,
            vb_octile: 6,
            vb_boost_only: false,
            chroma_mode_search: true,
            chroma_split: true,
            updating_cdf: true,
        }
    }
}

/// A reusable still-image encoder set up for one quality.
#[derive(Clone, Copy, Debug)]
pub struct Av2Encoder {
    base_q_idx: u8,
    bit_depth: u8,
    tune: Tuning,
    speed: Speed,
    threads: usize,
}

/// The settings of an encoder.
pub struct Setup {
    pub base_q_idx: u8,
    pub bit_depth: u8,
    pub tune: Tuning,
    pub speed: Speed,
    /// Worker threads; 0 stands for all that the machine has.
    pub threads: usize,
}

/// Settings of a new encoder.
pub open spec fn initial_setup(base_q_idx: u8, bit_depth: u8) -> Setup {
    Setup {
        base_q_idx,
        bit_depth,
        tune: default_tuning(),
        speed: Speed::Slow,
        threads: 1,
    }
}

impl View for Av2Encoder {
    type V = Setup;

    closed spec fn view(&self) -> Setup {
        Setup {
            base_q_idx: self.base_q_idx,
            bit_depth: self.bit_depth,
            tune: self.tune,
            speed: self.speed,
            threads: self.threads,
        }
    }
}

/// Luma deblock offset in effect: the chosen one, or one that follows the quantizer.
pub open spec fn luma_deblock_delta(s: Setup) -> i32 {
    if s.tune.db_delta_y != i32::MIN {
        s.tune.db_delta_y
    } else if s.base_q_idx >= 48 {
        1
    } else {
        0
    }
}

/// Directional filter strength: one step per eight quantizer steps above 120,
/// at most eleven.
pub open spec fn cdef_step(base_q_idx: u8) -> int {
    if base_q_idx < 128 {
        0
    } else if base_q_idx >= 208 {
        11
    } else {
        (base_q_idx - 120) / 8
    }
}

/// Directional filter parameters: luma and chroma strength and damping, or
/// none where the quantizer is fine.
pub open spec fn cdef_setting(s: Setup) -> Option<(u8, u8, u8)> {
    let step = cdef_step(s.base_q_idx);
    if s.tune.cdef && step > 0 {
        Some(((4 * step) as u8, (4 * step) as u8, 3))
    } else {
        None
    }
}

/// What the settings say of a frame's headers. Quantizer index 0 is lossless
/// and turns off chroma-from-luma, adaptive quantization and table updates.
pub open spec fn frame_config(s: Setup, layout: Layout) -> Config {
    let dy = luma_deblock_delta(s);
    let duv = s.tune.db_delta_uv;
    let luma = s.tune.deblock;
    let chroma = s.tune.deblock && s.tune.chroma_deblock;
    let lossy = s.base_q_idx != 0;
    Config {
        layout,
        base_q: s.base_q_idx as u32,
        deblock: luma,
        db_apply: (luma, luma, chroma, chroma),
        db_delta: (dy, dy, duv, duv),
        tx_switchable: true,
        guided_deblock: None,
        cdef: cdef_setting(s),
        ccso: None,
        bit_depth: s.bit_depth,
        lossless: !lossy,
        cfl: s.tune.cfl && lossy,
        updating_cdf: s.tune.updating_cdf && lossy,
        aq: s.tune.aq && lossy,
        aq_res_log2: 2,
    }
}

/// Whether blocks may use multi-hypothesis cross-component prediction.
pub open spec fn mhccp_enabled(s: Setup, layout: Layout) -> bool {
    s.tune.mhccp && s.base_q_idx != 0 && layout != Layout::Monochrome
}

impl Av2Encoder {
    #[verifier::type_invariant]
    spec fn depth_known(self) -> bool {
        self.bit_depth == 8 || self.bit_depth == 10 || self.bit_depth == 12
    }

    /// Build an 8-bit encoder for `base_q_idx` with the default tuning.
    pub fn new(base_q_idx: u8) -> (e: Av2Encoder)
        ensures
            e@ == initial_setup(base_q_idx, 8),
    {
        Self::with_bit_depth(base_q_idx, 8)
    }

    /// Build an encoder for `base_q_idx` at a coded bit depth of 8, 10 or 12.
    pub fn with_bit_depth(base_q_idx: u8, bit_depth: u8) -> (e: Av2Encoder)
        requires
            bit_depth == 8 || bit_depth == 10 || bit_depth == 12,
        ensures
            e@ == initial_setup(base_q_idx, bit_depth),
    {
        Av2Encoder {
            base_q_idx,
            bit_depth,
            tune: Tuning::default(),
            speed: Speed::Slow,
            threads: 1,
        }
    }

    /// Replace the whole tuning.
    pub fn with_tuning(self, tune: Tuning) -> (e: Av2Encoder)
        ensures
            e@ == (Setup { tune, ..self@ }),
    {
        proof {
            use_type_invariant(&self);
        }
        Av2Encoder { tune, ..self }
    }

    /// Set the worker-thread budget.
    pub fn with_threads(self, threads: usize) -> (e: Av2Encoder)
        ensures
            e@ == (Setup { threads, ..self@ }),
    {
        proof {
            use_type_invariant(&self);
        }
        Av2Encoder { threads, ..self }
    }

    /// Set the search effort.
    pub fn with_speed(self, speed: Speed) -> (e: Av2Encoder)
        ensures
            e@ == (Setup { speed, ..self@ }),
    {
        proof {
            use_type_invariant(&self);
        }
        Av2Encoder { speed, ..self }
    }

    /// Request a tile grid; a side is at least one tile.
    pub fn with_tiles(self, cols: usize, rows: usize) -> (e: Av2Encoder)
        ensures
            e@ == (Setup {
                tune: (Tuning {
                    tile_cols: if cols == 0 {
                        1
                    } else {
                        cols
                    },
                    tile_rows: if rows == 0 {
                        1
                    } else {
                        rows
                    },
                    ..self@.tune
                }),
                ..self@
            }),
    {
        let tile_cols: usize = if cols == 0 {
            1
        } else {
            cols
        };
        let tile_rows: usize = if rows == 0 {
            1
        } else {
            rows
        };
        self.with_tuning(Tuning { tile_cols, tile_rows, ..self.tune })
    }

    /// Select the luma transform-partition strategy.
    pub fn with_txpart(self, txpart: TxPart) -> (e: Av2Encoder)
        ensures
            e@ == (Setup { tune: (Tuning { txpart, ..self@.tune }), ..self@ }),
    {
        self.with_tuning(Tuning { txpart, ..self.tune })
    }

    /// Enable the in-loop deblocking filter.
    pub fn with_deblock(self, on: bool) -> (e: Av2Encoder)
        ensures
            e@ == (Setup { tune: (Tuning { deblock: on, ..self@.tune }), ..self@ }),
    {
        self.with_tuning(Tuning { deblock: on, ..self.tune })
    }

    /// Enable the in-loop directional filter.
    pub fn with_cdef(self, on: bool) -> (e: Av2Encoder)
        ensures
            e@ == (Setup { tune: (Tuning { cdef: on, ..self@.tune }), ..self@ }),
    {
        self.with_tuning(Tuning { cdef: on, ..self.tune })
    }

    /// Enable chroma-from-luma prediction.
    pub fn with_cfl(self, on: bool) -> (e: Av2Encoder)
        ensures
            e@ == (Setup { tune: (Tuning { cfl: on, ..self@.tune }), ..self@ }),
    {
        self.with_tuning(Tuning { cfl: on, ..self.tune })
    }

    /// Enable per-superblock adaptive quantization.
    pub fn with_aq(self, on: bool) -> (e: Av2Encoder)
        ensures
            e@ == (Setup { tune: (Tuning { aq: on, ..self@.tune }), ..self@ }),
    {
        self.with_tuning(Tuning { aq: on, ..self.tune })
    }

    /// Set the selectivity of adaptive quantization, held to 1..=8, and whether
    /// it only lowers the quantizer.
    pub fn with_variance_boost(self, octile: u8, boost_only: bool) -> (e: Av2Encoder)
        ensures
            e@ == (Setup {
                tune: (Tuning {
                    vb_octile: if octile < 1 {
                        1
                    } else if octile > 8 {
                        8
                    } else {
                        octile
                    },
                    vb_boost_only: boost_only,
                    ..self@.tune
                }),
                ..self@
            }),
    {
        let vb_octile: u8 = if octile < 1 {
            1
        } else if octile > 8 {
            8
        } else {
            octile
        };
        self.with_tuning(Tuning { vb_octile, vb_boost_only: boost_only, ..self.tune })
    }

    /// Enable the chroma mode search.
    pub fn with_chroma_mode_search(self, on: bool) -> (e: Av2Encoder)
        ensures
            e@ == (Setup { tune: (Tuning { chroma_mode_search: on, ..self@.tune }), ..self@ }),
    {
        self.with_tuning(Tuning { chroma_mode_search: on, ..self.tune })
    }

    /// Enable cross-component sample offset.
    pub fn with_ccso(self, on: bool) -> (e: Av2Encoder)
        ensures
            e@ == (Setup { tune: (Tuning { ccso: on, ..self@.tune }), ..self@ }),
    {
        self.with_tuning(Tuning { ccso: on, ..self.tune })
    }

    /// Enable multi-hypothesis cross-component prediction.
    pub fn with_mhccp(self, on: bool) -> (e: Av2Encoder)
        ensures
            e@ == (Setup { tune: (Tuning { mhccp: on, ..self@.tune }), ..self@ }),
    {
        self.with_tuning(Tuning { mhccp: on, ..self.tune })
    }

    /// Enable symbol-table adaptation.
    pub fn with_updating_cdf(self, on: bool) -> (e: Av2Encoder)
        ensures
            e@ == (Setup { tune: (Tuning { updating_cdf: on, ..self@.tune }), ..self@ }),
    {
        self.with_tuning(Tuning { updating_cdf: on, ..self.tune })
    }

    /// Current tuning.
    pub fn tuning(&self) -> (t: Tuning)
        ensures
            t == self@.tune,
    {
        self.tune
    }

    /// The quantizer index this encoder is set up for.
    pub fn base_q_idx(&self) -> (q: u8)
        ensures
            q == self@.base_q_idx,
    {
        self.base_q_idx
    }

    /// Coded bit depth.
    pub fn bit_depth(&self) -> (b: u8)
        ensures
            b == self@.bit_depth,
            b == 8 || b == 10 || b == 12,
    {
        proof {
            use_type_invariant(self);
        }
        self.bit_depth
    }

    /// Search effort.
    pub fn speed(&self) -> (s: Speed)
        ensures
            s == self@.speed,
    {
        self.speed
    }

    /// Worker-thread budget.
    pub fn threads(&self) -> (n: usize)
        ensures
            n == self@.threads,
    {
        self.threads
    }

    /// Header configuration of a frame in a layout.
    pub fn config(&self, layout: Layout) -> (c: Config)
        ensures
            c == frame_config(self@, layout),
    {
        let q: u8 = self.base_q_idx;
        let tune = self.tune;
        let dy: i32 = if tune.db_delta_y != i32::MIN {
            tune.db_delta_y
        } else if q >= 48 {
            1
        } else {
            0
        };
        let lossy = q != 0;
        let chroma = tune.deblock && tune.chroma_deblock;
        let step: u8 = if q < 128 {
            0
        } else if q >= 208 {
            11
        } else {
            (q - 120) / 8
        };
        let cdef: Option<(u8, u8, u8)> = if tune.cdef && step > 0 {
            Some((4 * step, 4 * step, 3))
        } else {
            None
        };
        let guided: Option<GuidedDeblock> = None;
        Config {
            layout,
            base_q: q as u32,
            deblock: tune.deblock,
            db_apply: (tune.deblock, tune.deblock, chroma, chroma),
            db_delta: (dy, dy, tune.db_delta_uv, tune.db_delta_uv),
            tx_switchable: true,
            guided_deblock: guided,
            cdef,
            ccso: None,
            bit_depth: self.bit_depth,
            lossless: !lossy,
            cfl: tune.cfl && lossy,
            updating_cdf: tune.updating_cdf && lossy,
            aq: tune.aq && lossy,
            aq_res_log2: 2,
        }
    }

    /// Whether blocks of a frame may use multi-hypothesis cross-component
    /// prediction: lossy frames with chroma, where it is tuned on.
    pub fn uses_mhccp(&self, layout: Layout) -> (on: bool)
        ensures
            on == mhccp_enabled(self@, layout),
    {
        self.tune.mhccp && self.base_q_idx != 0 && layout.has_chroma()
    }

    /// Prediction of the first block: the middle of the sample range.
    pub fn dc_neutral(&self) -> (n: u16)
        ensures
            n == match self@.bit_depth {
                8u8 => 128u16,
                10u8 => 512u16,
                _ => 2048u16,
            },
            2 * n == vstd::arithmetic::power2::pow2(self@.bit_depth as nat),
    {
        proof {
            use_type_invariant(self);
            vstd::arithmetic::power2::lemma2_to64();
        }
        if self.bit_depth == 8 {
            128
        } else if self.bit_depth == 10 {
            512
        } else {
            2048
        }
    }

    /// Resolve a thread budget: 0 takes what the machine offers, or one where
    /// that is unknown; any other number stands for itself.
    pub fn resolve_threads(threads: usize, available: Option<usize>) -> (n: usize)
        ensures
            n == if threads != 0 {
                threads
            } else {
                match available {
                    Some(a) => a,
                    None => 1,
                }
            },
    {
        if threads != 0 {
            threads
        } else {
            match available {
                Some(a) => a,
                None => 1,
            }
        }
    }
}

// ---------------------------------------------------------------------------
// Quality
// ---------------------------------------------------------------------------

/// Quantizer index of a quality: linear from 254 at quality 1 down, held to
/// at least 1.
pub open spec fn quality_index(quality: int) -> int {
    let q = (100 - quality) * 254 / 99;
    if q < 1 {
        1
    } else {
        q
    }
}

/// Map quality 1 to 100 to a quantizer index.
pub fn av2_map_quality(quality: u8) -> (q: u8)
    requires
        1 <= quality <= 100,
    ensures
        q == quality_index(quality as int),
        1 <= q <= 254,
{
    let q: u32 = (100 - quality as u32) * 254 / 99;
    if q < 1 {
        1
    } else {
        q as u8
    }
}

/// A better quality has a finer quantizer, and no quality is lossless.
pub proof fn law_quality_is_antitone(a: int, b: int)
    requires
        1 <= a <= b <= 100,
    ensures
        1 <= quality_index(b) <= quality_index(a) <= 254,
        a < b ==> quality_index(b) < quality_index(a),
{
}

/// A lossless frame uses none of the tools that need a quantizer, whatever
/// the tuning.
pub proof fn law_lossless_turns_tools_off(s: Setup, layout: Layout)
    requires
        s.base_q_idx == 0,
    ensures
        frame_config(s, layout).lossless,
        !frame_config(s, layout).cfl,
        !frame_config(s, layout).aq,
        !frame_config(s, layout).updating_cdf,
        !mhccp_enabled(s, layout),
        frame_config(s, layout).cdef is None,
{
}

/// The quality scale is linear: 100 is the finest index, 1, and 1 the coarsest,
/// 254, and between them the index is `254 / 99` for each step, rounded down.
pub proof fn law_quality_is_linear(quality: int)
    requires
        1 <= quality <= 100,
    ensures
        quality == 100 ==> quality_index(quality) == 1,
        quality < 100 ==> 99 * quality_index(quality) <= 254 * (100 - quality) < 99
            * quality_index(quality) + 99,
{
}

/// A frame has the index, the bit depth and the layout that were asked for, and is
/// lossless exactly where the index is 0. Chroma from luma, adaptive tables and
/// adaptive quantization are on where they were asked for and the frame is lossy.
pub proof fn law_frame_has_what_was_asked_for(s: Setup, layout: Layout)
    ensures
        ({
            let c = frame_config(s, layout);
            &&& c.layout == layout
            &&& c.base_q == s.base_q_idx
            &&& c.bit_depth == s.bit_depth
            &&& c.lossless <==> s.base_q_idx == 0
            &&& s.base_q_idx > 0 ==> c.cfl == s.tune.cfl && c.updating_cdf == s.tune.updating_cdf
                && c.aq == s.tune.aq
            &&& c.aq_res_log2 == 2
            &&& c.tx_switchable
            &&& c.guided_deblock is None
            &&& c.ccso is None
            &&& mhccp_enabled(s, layout) <==> s.tune.mhccp && s.base_q_idx > 0
                && layout != Layout::Monochrome
        }),
{
}

/// Deblocking filters both directions of luma where it is on, and the chroma planes
/// only where that of chroma is on too. Luma takes its own strength, or one by the
/// quantizer where it has none, and chroma that of chroma.
pub proof fn law_deblocking_follows_its_options(s: Setup, layout: Layout)
    ensures
        ({
            let c = frame_config(s, layout);
            let t = s.tune;
            &&& c.deblock == t.deblock
            &&& c.db_apply.0 == t.deblock && c.db_apply.1 == t.deblock
            &&& c.db_apply.2 == (t.deblock && t.chroma_deblock) && c.db_apply.3 == c.db_apply.2
            &&& c.db_delta.0 == c.db_delta.1
            &&& t.db_delta_y != i32::MIN ==> c.db_delta.0 == t.db_delta_y
            &&& t.db_delta_y == i32::MIN && s.base_q_idx < 48 ==> c.db_delta.0 == 0
            &&& t.db_delta_y == i32::MIN && s.base_q_idx >= 48 ==> c.db_delta.0 == 1
            &&& c.db_delta.2 == t.db_delta_uv && c.db_delta.3 == t.db_delta_uv
        }),
{
}

/// The directional filter is on only where it was asked for and from index 128 on.
/// Both its strengths are the same, four for each eight steps above 120, up to 44,
/// so that a coarser frame is never filtered less.
pub proof fn law_directional_filter_follows_the_quantizer(s: Setup, layout: Layout)
    ensures
        ({
            let f = frame_config(s, layout).cdef;
            &&& f is Some <==> s.tune.cdef && s.base_q_idx >= 128
            &&& f matches Some(v) ==> {
                &&& v.0 == v.1
                &&& v.2 == 3
                &&& v.0 % 4 == 0
                &&& s.base_q_idx < 208 ==> 2 * v.0 <= s.base_q_idx - 120 < 2 * v.0 + 8
                &&& s.base_q_idx >= 208 ==> v.0 == 44
            }
        }),
{
}

/// Bit depths are named by their bits.
pub proof fn law_bit_depths_are_named_by_their_bits(a: BitDepth, b: BitDepth)
    ensures
        a.value() == 8 <==> a == BitDepth::Eight,
        a.value() == 10 <==> a == BitDepth::Ten,
        a.value() == 12 <==> a == BitDepth::Twelve,
        a.value() == b.value() ==> a == b,
{
}

/// The shipping defaults: one tile, all partitions of luma, deblocking of all planes,
/// prediction of chroma from luma with and without neighbors, adaptive quantization
/// and adaptive tables on; the directional filter and the sample offsets off; and the
/// slowest speed on one worker.
pub proof fn law_shipping_defaults(base_q_idx: u8, bit_depth: u8)
    ensures
        ({
            let s = initial_setup(base_q_idx, bit_depth);
            let t = s.tune;
            &&& s.base_q_idx == base_q_idx && s.bit_depth == bit_depth
            &&& s.speed == Speed::Slow && s.threads == 1
            &&& t.tile_cols == 1 && t.tile_rows == 1
            &&& t.txpart == TxPart::ThreeWay
            &&& t.deblock && t.chroma_deblock
            &&& t.db_delta_y == i32::MIN && t.db_delta_uv == 0
            &&& !t.cdef && !t.ccso
            &&& t.cfl && t.mhccp && t.chroma_mode_search && t.chroma_split
            &&& t.aq && t.vb_octile == 6 && !t.vb_boost_only
            &&& t.updating_cdf
        }),
{
}

} // verus!
