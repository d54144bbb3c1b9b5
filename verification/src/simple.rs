//! One call per pixel format: check the request and say how to encode it.
//!
//! Each function takes an image, the encoding options and the verdicts of the
//! input checks, and returns either the first reason to refuse or the job: the
//! encoder to run, on which samples, and what the container declares.

use crate::encoder;
use crate::encoder::{av2_map_quality, Av2Encoder, BitDepth, ChromaFormat, Cicp, Speed, TxPart};
use crate::frame::{Av2Frame, Container, ContentLightLevel, Orientation};
use vstd::prelude::*;

verus! {

/// Sample of a plane.
pub trait Pixel: Copy {
    /// The sample as a number.
    spec fn value(self) -> int;

    /// The sample as a number.
    fn to_i32(self) -> (v: i32)
        ensures
            v == self.value(),
            0 <= v <= 0xffff,
    ;
}

impl Pixel for u8 {
    open spec fn value(self) -> int {
        self as int
    }

    fn to_i32(self) -> (v: i32) {
        self as i32
    }
}

impl Pixel for u16 {
    open spec fn value(self) -> int {
        self as int
    }

    fn to_i32(self) -> (v: i32) {
        self as i32
    }
}

/// Samples of a plane as numbers.
pub open spec fn samples<T: Pixel>(plane: Seq<T>) -> Seq<int> {
    plane.map_values(|v: T| v.value())
}

/// A planar image: up to four planes, the last of them alpha where there are
/// color planes, the second where there is one gray plane.
#[derive(Debug)]
pub struct PlanarImage<T> {
    pub width: usize,
    pub height: usize,
    pub bit_depth: BitDepth,
    pub planes: [Vec<T>; 4],
}

/// Encoding options.
#[derive(Debug)]
pub struct EncodeConfig {
    /// 1 to 100, or 0 for lossless.
    pub quality: u8,
    pub chroma: ChromaFormat,
    pub speed: Speed,
    /// Worker threads; 0 stands for all that the machine has.
    pub threads: usize,
    pub adaptive_quant: bool,
    pub color_encoding: Option<Cicp>,
    pub icc: Option<Vec<u8>>,
    pub exif: Option<Vec<u8>>,
    pub orientation: Orientation,
    pub content_light_level: Option<ContentLightLevel>,
}

impl EncodeConfig {
    /// Set the quality: 1 to 100, or 0 for lossless.
    pub fn with_quality(self, quality: u8) -> (c: EncodeConfig)
        ensures
            c == (EncodeConfig { quality, ..self }),
    {
        EncodeConfig { quality, ..self }
    }

    /// Set the chroma format.
    pub fn with_chroma(self, chroma: ChromaFormat) -> (c: EncodeConfig)
        ensures
            c == (EncodeConfig { chroma, ..self }),
    {
        EncodeConfig { chroma, ..self }
    }

    /// Set the color description.
    pub fn with_cicp(self, cicp: Cicp) -> (c: EncodeConfig)
        ensures
            c == (EncodeConfig { color_encoding: Some(cicp), ..self }),
    {
        EncodeConfig { color_encoding: Some(cicp), ..self }
    }
}

/// A property of the input that is checked before encoding.
#[derive(Clone, Copy, Debug, PartialEq, Eq, Structural)]
pub enum Check {
    /// The options are valid.
    Config,
    /// A plane holds the samples of the picture size.
    Plane(u8),
    /// The planes have the sizes of the chroma format.
    Sampling,
}

/// Why a request is refused.
#[derive(Clone, Copy, Debug, PartialEq, Eq, Structural)]
pub enum EncodeError {
    /// The image does not have the bit depth of the function.
    UnsupportedChromaBitDepth(BitDepth),
    /// A side of the picture is zero or longer than [`MAX_SIDE`].
    DimensionsOutOfRange,
    /// A check of the library failed.
    Rejected(Check),
    /// A check of the caller failed; the number is its own.
    Invalid(u32),
}

/// Verdicts of the input checks: each came out well, or with an error.
#[derive(Clone, Copy, Debug)]
pub struct Checks {
    pub config: Result<(), EncodeError>,
    pub planes: [Result<(), EncodeError>; 4],
    pub sampling: Result<(), EncodeError>,
}

/// Longest side of a picture.
pub const MAX_SIDE: usize = 16383;

/// Both sides of a picture are in range.
pub open spec fn dims_in_range(width: int, height: int) -> bool {
    1 <= width <= MAX_SIDE && 1 <= height <= MAX_SIDE
}

/// Refuse a picture whose sides are out of range.
pub fn validate_dims(width: usize, height: usize) -> (r: Result<(), EncodeError>)
    ensures
        r == if dims_in_range(width as int, height as int) {
            Ok::<(), EncodeError>(())
        } else {
            Err(EncodeError::DimensionsOutOfRange)
        },
{
    if width == 0 || width > MAX_SIDE || height == 0 || height > MAX_SIDE {
        Err(EncodeError::DimensionsOutOfRange)
    } else {
        Ok(())
    }
}

impl<T> PlanarImage<T> {
    /// Whether a plane holds the samples of the picture.
    pub open spec fn plane_complete(self, k: int) -> bool {
        self.planes@[k]@.len() == self.width * self.height
    }

    /// Why the image is no 4:4:4 image: the first of three planes that does not
    /// hold the samples of the picture.
    pub open spec fn plane_refusal(self) -> Option<EncodeError> {
        if !self.plane_complete(0) {
            Some(EncodeError::Rejected(Check::Plane(0)))
        } else if !self.plane_complete(1) {
            Some(EncodeError::Rejected(Check::Plane(1)))
        } else if !self.plane_complete(2) {
            Some(EncodeError::Rejected(Check::Plane(2)))
        } else {
            None
        }
    }

    /// Refuse an image with a color plane that does not hold `width * height`
    /// samples.
    pub fn validate_444(&self) -> (r: Result<(), EncodeError>)
        ensures
            r == match self.plane_refusal() {
                Some(e) => Err::<(), EncodeError>(e),
                None => Ok(()),
            },
    {
        let (w, h): (u128, u128) = (self.width as u128, self.height as u128);
        proof {
            assert(w * h <= u128::MAX) by (nonlinear_arith)
                requires
                    0 <= w <= 0xffff_ffff_ffff_ffff,
                    0 <= h <= 0xffff_ffff_ffff_ffff,
            ;
        }
        let n: u128 = w * h;
        if self.planes[0].len() as u128 != n {
            Err(EncodeError::Rejected(Check::Plane(0)))
        } else if self.planes[1].len() as u128 != n {
            Err(EncodeError::Rejected(Check::Plane(1)))
        } else if self.planes[2].len() as u128 != n {
            Err(EncodeError::Rejected(Check::Plane(2)))
        } else {
            Ok(())
        }
    }

    /// Why the image is refused for 4:4:4 coding: its planes come first, then its
    /// size.
    pub open spec fn refusal_444(self) -> Option<EncodeError> {
        if self.plane_refusal() is Some {
            self.plane_refusal()
        } else if !dims_in_range(self.width as int, self.height as int) {
            Some(EncodeError::DimensionsOutOfRange)
        } else {
            None
        }
    }
}

impl Checks {
    /// Verdict of a check.
    pub open spec fn of(self, check: Check) -> Result<(), EncodeError> {
        match check {
            Check::Config => self.config,
            Check::Plane(k) => self.planes@[k as int],
            Check::Sampling => self.sampling,
        }
    }

    fn verdict(&self, check: Check) -> (r: Result<(), EncodeError>)
        requires
            check matches Check::Plane(k) ==> k < 4,
        ensures
            r == self.of(check),
    {
        match check {
            Check::Config => self.config,
            Check::Plane(k) => self.planes[k as usize],
            Check::Sampling => self.sampling,
        }
    }
}

/// The error of the first check of a list that failed.
pub open spec fn first_failure(checks: Checks, list: Seq<Check>) -> Option<EncodeError>
    decreases list.len(),
{
    if list.len() == 0 {
        None
    } else {
        match checks.of(list[0]) {
            Err(e) => Some(e),
            Ok(_) => first_failure(checks, list.drop_first()),
        }
    }
}

/// Why an image is refused: a wrong bit depth comes first, then a size out of
/// range, then the checks in their order, with that of the options before those
/// of the planes. A check refuses with its own error.
pub open spec fn refusal(
    depth: BitDepth,
    want: BitDepth,
    size: (usize, usize),
    checks: Checks,
    planes: Seq<Check>,
) -> Option<EncodeError> {
    if depth != want {
        Some(EncodeError::UnsupportedChromaBitDepth(depth))
    } else if !dims_in_range(size.0 as int, size.1 as int) {
        Some(EncodeError::DimensionsOutOfRange)
    } else {
        first_failure(checks, seq![Check::Config] + planes)
    }
}

/// Samples that a frame encoder takes.
#[derive(Clone, Copy, Debug, PartialEq, Eq, Structural)]
pub enum Entry {
    /// Planes in GBR order, or a gray plane, to be converted to a format.
    Image(ChromaFormat),
    /// Planes that are in the format already.
    Yuv(ChromaFormat),
}

/// Plane that holds alpha.
#[derive(Clone, Copy, Debug, PartialEq, Eq, Structural)]
pub enum AlphaPlane {
    Second,
    Fourth,
}

/// How to encode alpha.
#[derive(Clone, Copy, Debug)]
pub struct AlphaJob {
    pub encoder: Av2Encoder,
    pub plane: AlphaPlane,
}

/// How to encode an image and what the container declares.
#[derive(Clone, Copy, Debug)]
pub struct Job<'a> {
    pub encoder: Av2Encoder,
    pub entry: Entry,
    pub color: Cicp,
    pub alpha: Option<AlphaJob>,
    pub icc: Option<&'a [u8]>,
    pub exif: Option<&'a [u8]>,
    pub orientation: Orientation,
    pub clli: Option<ContentLightLevel>,
}

/// Color description in effect.
pub open spec fn color_of(cfg: &EncodeConfig) -> Cicp {
    match cfg.color_encoding {
        Some(c) => c,
        None => Cicp::SrgbYcbcr,
    }
}

/// Quantizer index of the options: 0 for lossless, else by quality.
pub open spec fn index_of(cfg: &EncodeConfig) -> u8 {
    if cfg.quality == 0 {
        0
    } else {
        encoder::quality_index(cfg.quality as int) as u8
    }
}

/// Settings of the color encoder.
pub open spec fn color_setup(depth: BitDepth, cfg: &EncodeConfig) -> encoder::Setup {
    encoder::Setup {
        base_q_idx: index_of(cfg),
        bit_depth: depth.value(),
        tune: encoder::Tuning {
            tile_cols: 8,
            tile_rows: 8,
            aq: cfg.adaptive_quant,
            ..encoder::default_tuning()
        },
        speed: cfg.speed,
        threads: cfg.threads,
    }
}

/// Settings of the alpha encoder.
pub open spec fn alpha_setup(depth: BitDepth, cfg: &EncodeConfig) -> encoder::Setup {
    encoder::Setup { threads: cfg.threads, ..encoder::initial_setup(0, depth.value()) }
}

/// Bytes of an optional buffer.
pub open spec fn bytes_of(b: Option<Vec<u8>>) -> Option<Seq<u8>> {
    match b {
        Some(v) => Some(v@),
        None => None,
    }
}

/// Bytes of an optional slice.
pub open spec fn slice_bytes(b: Option<&[u8]>) -> Option<Seq<u8>> {
    match b {
        Some(v) => Some(v@),
        None => None,
    }
}

/// The job that the options ask for.
pub open spec fn is_job(
    job: Job,
    depth: BitDepth,
    cfg: &EncodeConfig,
    entry: Entry,
    alpha: Option<AlphaPlane>,
) -> bool {
    &&& job.encoder@ == color_setup(depth, cfg)
    &&& job.entry == entry
    &&& job.color == color_of(cfg)
    &&& slice_bytes(job.icc) == bytes_of(cfg.icc)
    &&& slice_bytes(job.exif) == bytes_of(cfg.exif)
    &&& job.orientation == cfg.orientation
    &&& job.clli == cfg.content_light_level
    &&& match alpha {
        Some(plane) => {
            &&& job.alpha matches Some(a)
            &&& a.plane == plane
            &&& a.encoder@ == alpha_setup(depth, cfg)
        },
        None => job.alpha is None,
    }
}

/// What a function of this module returns.
pub open spec fn is_outcome(
    r: Result<Job, EncodeError>,
    refused: Option<EncodeError>,
    depth: BitDepth,
    cfg: &EncodeConfig,
    entry: Entry,
    alpha: Option<AlphaPlane>,
) -> bool {
    match refused {
        Some(e) => r matches Err(found) && found == e,
        None => r matches Ok(job) && is_job(job, depth, cfg, entry, alpha),
    }
}

/// Valid options have a quality of at most 100.
pub open spec fn config_sound(cfg: &EncodeConfig, checks: &Checks) -> bool {
    checks.config is Ok ==> cfg.quality <= 100
}

/// The planes of a color image.
pub open spec fn color_planes() -> Seq<Check> {
    seq![Check::Plane(0), Check::Plane(1), Check::Plane(2)]
}

/// Alpha is coded without loss, whatever the quality of the color planes.
pub proof fn law_alpha_is_lossless(depth: BitDepth, cfg: &EncodeConfig)
    ensures
        encoder::frame_config(alpha_setup(depth, cfg), crate::layout::Layout::Monochrome).lossless,
{
}

/// Two sets of options that differ in nothing but the quality.
pub open spec fn same_but_quality(a: &EncodeConfig, b: &EncodeConfig) -> bool {
    *a == (EncodeConfig { quality: a.quality, ..*b })
}

/// Two sets of options that differ in nothing but the number of workers.
pub open spec fn same_but_threads(a: &EncodeConfig, b: &EncodeConfig) -> bool {
    *a == (EncodeConfig { threads: a.threads, ..*b })
}

/// The alpha job of a request does not depend on its quality: both requests are
/// refused alike, or both jobs encode the same plane with the same settings.
pub proof fn law_alpha_ignores_quality(
    r1: Result<Job, EncodeError>,
    r2: Result<Job, EncodeError>,
    refused: Option<EncodeError>,
    depth: BitDepth,
    cfg1: &EncodeConfig,
    cfg2: &EncodeConfig,
    entry: Entry,
    alpha: Option<AlphaPlane>,
)
    requires
        same_but_quality(cfg1, cfg2),
        is_outcome(r1, refused, depth, cfg1, entry, alpha),
        is_outcome(r2, refused, depth, cfg2, entry, alpha),
    ensures
        r1 is Ok <==> r2 is Ok,
        r1 is Ok ==> (r1->Ok_0.alpha is Some <==> r2->Ok_0.alpha is Some),
        r1 is Ok && r1->Ok_0.alpha is Some ==> {
            &&& r1->Ok_0.alpha->0.plane == r2->Ok_0.alpha->0.plane
            &&& r1->Ok_0.alpha->0.encoder@ == r2->Ok_0.alpha->0.encoder@
        },
{
}

/// The number of workers changes nothing of a job but itself: the samples, the
/// settings and so the headers of both encoders, and what the container declares
/// stay the same.
pub proof fn law_workers_change_nothing_else(
    r1: Result<Job, EncodeError>,
    r2: Result<Job, EncodeError>,
    refused: Option<EncodeError>,
    depth: BitDepth,
    cfg1: &EncodeConfig,
    cfg2: &EncodeConfig,
    entry: Entry,
    alpha: Option<AlphaPlane>,
    layout: crate::layout::Layout,
)
    requires
        same_but_threads(cfg1, cfg2),
        is_outcome(r1, refused, depth, cfg1, entry, alpha),
        is_outcome(r2, refused, depth, cfg2, entry, alpha),
    ensures
        r1 is Ok <==> r2 is Ok,
        r1 is Err ==> r1->Err_0 == r2->Err_0,
        r1 is Ok ==> {
            let (a, b) = (r1->Ok_0, r2->Ok_0);
            &&& a.encoder@ == (encoder::Setup { threads: cfg1.threads, ..b.encoder@ })
            &&& encoder::frame_config(a.encoder@, layout) == encoder::frame_config(
                b.encoder@,
                layout,
            )
            &&& a.entry == b.entry
            &&& a.color == b.color
            &&& slice_bytes(a.icc) == slice_bytes(b.icc)
            &&& slice_bytes(a.exif) == slice_bytes(b.exif)
            &&& a.orientation == b.orientation
            &&& a.clli == b.clli
            &&& a.alpha is Some <==> b.alpha is Some
            &&& a.alpha is Some ==> {
                &&& a.alpha->0.plane == b.alpha->0.plane
                &&& a.alpha->0.encoder@ == (encoder::Setup {
                    threads: cfg1.threads,
                    ..b.alpha->0.encoder@
                })
            }
        },
{
}

/// A request is lossless exactly where its quality is 0.
pub proof fn law_quality_zero_is_lossless(
    depth: BitDepth,
    cfg: &EncodeConfig,
    layout: crate::layout::Layout,
)
    requires
        cfg.quality <= 100,
    ensures
        encoder::frame_config(color_setup(depth, cfg), layout).lossless <==> cfg.quality == 0,
{
    if cfg.quality > 0 {
        encoder::law_quality_is_antitone(1, cfg.quality as int);
        encoder::law_quality_is_antitone(cfg.quality as int, 100);
    }
}

fn resolve_color(cfg: &EncodeConfig) -> (c: Cicp)
    ensures
        c == color_of(cfg),
{
    match cfg.color_encoding {
        Some(c) => c,
        None => Cicp::SrgbYcbcr,
    }
}

fn optional_slice(b: &Option<Vec<u8>>) -> (s: Option<&[u8]>)
    ensures
        slice_bytes(s) == bytes_of(*b),
{
    match b {
        Some(v) => Some(v.as_slice()),
        None => None,
    }
}

/// Enforce the bit depth, the size and the options, and set up the color encoder.
fn prepare_lossless_capable(
    bit_depth: BitDepth,
    want: BitDepth,
    size: (usize, usize),
    cfg: &EncodeConfig,
    checks: &Checks,
) -> (r: Result<Av2Encoder, EncodeError>)
    requires
        config_sound(cfg, checks),
    ensures
        match refusal(bit_depth, want, size, *checks, Seq::empty()) {
            Some(e) => r matches Err(found) && found == e,
            None => r matches Ok(enc) && enc@ == color_setup(bit_depth, cfg),
        },
{
    proof {
        lemma_first_failure_empty(*checks);
    }
    if bit_depth != want {
        return Err(EncodeError::UnsupportedChromaBitDepth(bit_depth));
    }
    validate_dims(size.0, size.1)?;
    checks.verdict(Check::Config)?;
    let q: u8 = if cfg.quality == 0 {
        0
    } else {
        av2_map_quality(cfg.quality)
    };
    let enc = Av2Encoder::with_bit_depth(q, bit_depth.bits());
    let enc = enc.with_tiles(8, 8).with_txpart(TxPart::ThreeWay);
    Ok(enc.with_speed(cfg.speed).with_threads(cfg.threads).with_aq(cfg.adaptive_quant))
}

/// The same with chroma-from-luma prediction asked for, which the tuning has on
/// from the start.
fn prepare(
    bit_depth: BitDepth,
    want: BitDepth,
    size: (usize, usize),
    cfg: &EncodeConfig,
    checks: &Checks,
) -> (r: Result<Av2Encoder, EncodeError>)
    requires
        config_sound(cfg, checks),
    ensures
        match refusal(bit_depth, want, size, *checks, Seq::empty()) {
            Some(e) => r matches Err(found) && found == e,
            None => r matches Ok(enc) && enc@ == color_setup(bit_depth, cfg),
        },
{
    match prepare_lossless_capable(bit_depth, want, size, cfg, checks) {
        Ok(enc) => Ok(enc.with_cfl(true)),
        Err(e) => Err(e),
    }
}

proof fn lemma_first_failure_empty(checks: Checks)
    ensures
        first_failure(checks, seq![Check::Config] + Seq::<Check>::empty()) == match checks.config {
            Err(e) => Some(e),
            Ok(_) => None,
        },
{
    let list = seq![Check::Config] + Seq::<Check>::empty();
    assert(list.drop_first() =~= Seq::<Check>::empty());
    reveal_with_fuel(first_failure, 2);
}

/// With the size and the options in order, the planes decide.
proof fn lemma_refusal(
    depth: BitDepth,
    want: BitDepth,
    size: (usize, usize),
    checks: Checks,
    planes: Seq<Check>,
)
    ensures
        refusal(depth, want, size, checks, planes) == match refusal(
            depth,
            want,
            size,
            checks,
            Seq::empty(),
        ) {
            Some(e) => Some(e),
            None => first_failure(checks, planes),
        },
{
    lemma_first_failure_empty(checks);
    let list = seq![Check::Config] + planes;
    assert(list.drop_first() =~= planes);
    reveal_with_fuel(first_failure, 2);
}

/// Run the checks of the planes, in order.
fn check_planes(checks: &Checks, list: &[Check]) -> (r: Result<(), EncodeError>)
    requires
        forall|i: int| 0 <= i < list@.len() ==> (#[trigger] list@[i] matches Check::Plane(k) ==> k < 4),
    ensures
        r == match first_failure(*checks, list@) {
            Some(e) => Err::<(), EncodeError>(e),
            None => Ok(()),
        },
{
    let mut i: usize = 0;
    assert(list@.skip(0) =~= list@);
    while i < list.len()
        invariant
            i <= list@.len(),
            forall|i: int|
                0 <= i < list@.len() ==> (#[trigger] list@[i] matches Check::Plane(k) ==> k < 4),
            first_failure(*checks, list@) == first_failure(*checks, list@.skip(i as int)),
        decreases list@.len() - i,
    {
        let check = list[i];
        let ghost rest = list@.skip(i as int);
        assert(rest[0] == check);
        assert(rest.drop_first() =~= list@.skip(i + 1));
        checks.verdict(check)?;
        i = i + 1;
    }
    Ok(())
}

/// Put a job together.
fn job_of<'a>(
    enc: Av2Encoder,
    depth: BitDepth,
    cfg: &'a EncodeConfig,
    entry: Entry,
    alpha: Option<AlphaPlane>,
) -> (job: Job<'a>)
    requires
        enc@ == color_setup(depth, cfg),
    ensures
        is_job(job, depth, cfg, entry, alpha),
{
    let alpha = match alpha {
        Some(plane) => Some(
            AlphaJob {
                encoder: Av2Encoder::with_bit_depth(0, depth.bits()).with_threads(cfg.threads),
                plane,
            },
        ),
        None => None,
    };
    Job {
        encoder: enc,
        entry,
        color: resolve_color(cfg),
        alpha,
        icc: optional_slice(&cfg.icc),
        exif: optional_slice(&cfg.exif),
        orientation: cfg.orientation,
        clli: cfg.content_light_level,
    }
}

/// What comes of a request with color planes.
pub open spec fn rgb_outcome(
    r: Result<Job, EncodeError>,
    depth: BitDepth,
    want: BitDepth,
    size: (usize, usize),
    checks: Checks,
    cfg: &EncodeConfig,
) -> bool {
    is_outcome(
        r,
        refusal(depth, want, size, checks, color_planes()),
        want,
        cfg,
        Entry::Image(cfg.chroma),
        None,
    )
}

/// What comes of a request with color planes and an alpha plane that is dropped.
pub open spec fn rgba_dropped_outcome(
    r: Result<Job, EncodeError>,
    depth: BitDepth,
    want: BitDepth,
    size: (usize, usize),
    checks: Checks,
    cfg: &EncodeConfig,
) -> bool {
    is_outcome(
        r,
        refusal(depth, want, size, checks, color_planes().push(Check::Plane(3))),
        want,
        cfg,
        Entry::Image(cfg.chroma),
        None,
    )
}

/// What comes of a request with color planes and an alpha plane.
pub open spec fn rgba_outcome(
    r: Result<Job, EncodeError>,
    depth: BitDepth,
    want: BitDepth,
    size: (usize, usize),
    checks: Checks,
    cfg: &EncodeConfig,
) -> bool {
    is_outcome(
        r,
        refusal(depth, want, size, checks, color_planes().push(Check::Plane(3))),
        want,
        cfg,
        Entry::Image(cfg.chroma),
        Some(AlphaPlane::Fourth),
    )
}

/// What comes of a request with a gray plane.
pub open spec fn gray_outcome(
    r: Result<Job, EncodeError>,
    depth: BitDepth,
    want: BitDepth,
    size: (usize, usize),
    checks: Checks,
    cfg: &EncodeConfig,
) -> bool {
    is_outcome(
        r,
        refusal(depth, want, size, checks, seq![Check::Plane(0)]),
        want,
        cfg,
        Entry::Image(ChromaFormat::Monochrome),
        None,
    )
}

/// What comes of a request with planes in YCbCr.
pub open spec fn yuv_outcome(
    r: Result<Job, EncodeError>,
    depth: BitDepth,
    want: BitDepth,
    size: (usize, usize),
    checks: Checks,
    cfg: &EncodeConfig,
) -> bool {
    is_outcome(
        r,
        refusal(depth, want, size, checks, seq![Check::Sampling]),
        want,
        cfg,
        Entry::Yuv(cfg.chroma),
        None,
    )
}

/// What comes of a request with planes in YCbCr and an alpha plane.
pub open spec fn yuva_outcome(
    r: Result<Job, EncodeError>,
    depth: BitDepth,
    want: BitDepth,
    size: (usize, usize),
    checks: Checks,
    cfg: &EncodeConfig,
) -> bool {
    is_outcome(
        r,
        refusal(depth, want, size, checks, seq![Check::Sampling, Check::Plane(3)]),
        want,
        cfg,
        Entry::Yuv(cfg.chroma),
        Some(AlphaPlane::Fourth),
    )
}

/// What comes of a request with a gray plane and an alpha plane.
pub open spec fn gray_alpha_outcome(
    r: Result<Job, EncodeError>,
    depth: BitDepth,
    want: BitDepth,
    size: (usize, usize),
    checks: Checks,
    cfg: &EncodeConfig,
) -> bool {
    is_outcome(
        r,
        refusal(depth, want, size, checks, seq![Check::Plane(0), Check::Plane(1)]),
        want,
        cfg,
        Entry::Image(ChromaFormat::Monochrome),
        Some(AlphaPlane::Second),
    )
}

/// Color planes alone.
fn rgb_core<'a, T>(
    img: &PlanarImage<T>,
    cfg: &'a EncodeConfig,
    checks: &Checks,
    want: BitDepth,
) -> (r: Result<Job<'a>, EncodeError>)
    requires
        config_sound(cfg, checks),
    ensures
        rgb_outcome(r, img.bit_depth, want, (img.width, img.height), *checks, cfg),
{
    proof {
        lemma_refusal(img.bit_depth, want, (img.width, img.height), *checks, color_planes());
    }
    let enc = prepare(img.bit_depth, want, (img.width, img.height), cfg, checks)?;
    let list = [Check::Plane(0), Check::Plane(1), Check::Plane(2)];
    assert(list@ =~= color_planes());
    check_planes(checks, list.as_slice())?;
    Ok(job_of(enc, img.bit_depth, cfg, Entry::Image(cfg.chroma), None))
}

/// Color planes with an alpha plane that is dropped.
fn rgba_drop_core<'a, T>(
    img: &PlanarImage<T>,
    cfg: &'a EncodeConfig,
    checks: &Checks,
    want: BitDepth,
) -> (r: Result<Job<'a>, EncodeError>)
    requires
        config_sound(cfg, checks),
    ensures
        rgba_dropped_outcome(r, img.bit_depth, want, (img.width, img.height), *checks, cfg),
{
    proof {
        lemma_refusal(
            img.bit_depth,
            want,
            (img.width, img.height),
            *checks,
            color_planes().push(Check::Plane(3)),
        );
    }
    let enc = prepare(img.bit_depth, want, (img.width, img.height), cfg, checks)?;
    let list = [Check::Plane(0), Check::Plane(1), Check::Plane(2), Check::Plane(3)];
    assert(list@ =~= color_planes().push(Check::Plane(3)));
    check_planes(checks, list.as_slice())?;
    Ok(job_of(enc, img.bit_depth, cfg, Entry::Image(cfg.chroma), None))
}

/// Color planes with an alpha plane.
fn rgba_alpha_core<'a, T>(
    img: &PlanarImage<T>,
    cfg: &'a EncodeConfig,
    checks: &Checks,
    want: BitDepth,
) -> (r: Result<Job<'a>, EncodeError>)
    requires
        config_sound(cfg, checks),
    ensures
        rgba_outcome(r, img.bit_depth, want, (img.width, img.height), *checks, cfg),
{
    proof {
        lemma_refusal(
            img.bit_depth,
            want,
            (img.width, img.height),
            *checks,
            color_planes().push(Check::Plane(3)),
        );
    }
    let enc = prepare(img.bit_depth, want, (img.width, img.height), cfg, checks)?;
    let list = [Check::Plane(0), Check::Plane(1), Check::Plane(2), Check::Plane(3)];
    assert(list@ =~= color_planes().push(Check::Plane(3)));
    check_planes(checks, list.as_slice())?;
    Ok(job_of(enc, img.bit_depth, cfg, Entry::Image(cfg.chroma), Some(AlphaPlane::Fourth)))
}

/// A gray plane.
fn gray_core<'a, T>(
    img: &PlanarImage<T>,
    cfg: &'a EncodeConfig,
    checks: &Checks,
    want: BitDepth,
) -> (r: Result<Job<'a>, EncodeError>)
    requires
        config_sound(cfg, checks),
    ensures
        gray_outcome(r, img.bit_depth, want, (img.width, img.height), *checks, cfg),
{
    proof {
        lemma_refusal(img.bit_depth, want, (img.width, img.height), *checks, seq![Check::Plane(0)]);
    }
    let enc = prepare_lossless_capable(img.bit_depth, want, (img.width, img.height), cfg, checks)?;
    let list = [Check::Plane(0)];
    assert(list@ =~= seq![Check::Plane(0)]);
    check_planes(checks, list.as_slice())?;
    Ok(job_of(enc, img.bit_depth, cfg, Entry::Image(ChromaFormat::Monochrome), None))
}

/// Planes in YCbCr.
fn yuv_core<'a, T>(
    img: &PlanarImage<T>,
    cfg: &'a EncodeConfig,
    checks: &Checks,
    want: BitDepth,
) -> (r: Result<Job<'a>, EncodeError>)
    requires
        config_sound(cfg, checks),
    ensures
        yuv_outcome(r, img.bit_depth, want, (img.width, img.height), *checks, cfg),
{
    proof {
        lemma_refusal(img.bit_depth, want, (img.width, img.height), *checks, seq![Check::Sampling]);
    }
    let enc = match cfg.chroma {
        ChromaFormat::Yuv444 | ChromaFormat::Monochrome => prepare_lossless_capable(
            img.bit_depth,
            want,
            (img.width, img.height),
            cfg,
            checks,
        )?,
        _ => prepare(img.bit_depth, want, (img.width, img.height), cfg, checks)?,
    };
    let list = [Check::Sampling];
    assert(list@ =~= seq![Check::Sampling]);
    check_planes(checks, list.as_slice())?;
    Ok(job_of(enc, img.bit_depth, cfg, Entry::Yuv(cfg.chroma), None))
}

/// Planes in YCbCr with an alpha plane.
fn yuva_alpha_core<'a, T>(
    img: &PlanarImage<T>,
    cfg: &'a EncodeConfig,
    checks: &Checks,
    want: BitDepth,
) -> (r: Result<Job<'a>, EncodeError>)
    requires
        config_sound(cfg, checks),
    ensures
        yuva_outcome(r, img.bit_depth, want, (img.width, img.height), *checks, cfg),
{
    proof {
        lemma_refusal(
            img.bit_depth,
            want,
            (img.width, img.height),
            *checks,
            seq![Check::Sampling, Check::Plane(3)],
        );
    }
    let enc = match cfg.chroma {
        ChromaFormat::Yuv444 | ChromaFormat::Monochrome => prepare_lossless_capable(
            img.bit_depth,
            want,
            (img.width, img.height),
            cfg,
            checks,
        )?,
        _ => prepare(img.bit_depth, want, (img.width, img.height), cfg, checks)?,
    };
    let list = [Check::Sampling, Check::Plane(3)];
    assert(list@ =~= seq![Check::Sampling, Check::Plane(3)]);
    check_planes(checks, list.as_slice())?;
    Ok(job_of(enc, img.bit_depth, cfg, Entry::Yuv(cfg.chroma), Some(AlphaPlane::Fourth)))
}

/// A gray plane with an alpha plane.
fn gray_alpha_core<'a, T>(
    img: &PlanarImage<T>,
    cfg: &'a EncodeConfig,
    checks: &Checks,
    want: BitDepth,
) -> (r: Result<Job<'a>, EncodeError>)
    requires
        config_sound(cfg, checks),
    ensures
        gray_alpha_outcome(r, img.bit_depth, want, (img.width, img.height), *checks, cfg),
{
    proof {
        lemma_refusal(
            img.bit_depth,
            want,
            (img.width, img.height),
            *checks,
            seq![Check::Plane(0), Check::Plane(1)],
        );
    }
    let enc = prepare_lossless_capable(img.bit_depth, want, (img.width, img.height), cfg, checks)?;
    let list = [Check::Plane(0), Check::Plane(1)];
    assert(list@ =~= seq![Check::Plane(0), Check::Plane(1)]);
    check_planes(checks, list.as_slice())?;
    Ok(job_of(enc, img.bit_depth, cfg, Entry::Image(ChromaFormat::Monochrome), Some(AlphaPlane::Second)))
}

/// Encode an 8-bit RGB image (GBR planes).
pub fn encode_rgb8<'a>(
    img: &PlanarImage<u8>,
    cfg: &'a EncodeConfig,
    checks: &Checks,
) -> (r: Result<Job<'a>, EncodeError>)
    requires
        config_sound(cfg, checks),
    ensures
        rgb_outcome(r, img.bit_depth, BitDepth::Eight, (img.width, img.height), *checks, cfg),
{
    rgb_core(img, cfg, checks, BitDepth::Eight)
}

/// Encode a 10-bit RGB image (GBR planes).
pub fn encode_rgb10<'a>(
    img: &PlanarImage<u16>,
    cfg: &'a EncodeConfig,
    checks: &Checks,
) -> (r: Result<Job<'a>, EncodeError>)
    requires
        config_sound(cfg, checks),
    ensures
        rgb_outcome(r, img.bit_depth, BitDepth::Ten, (img.width, img.height), *checks, cfg),
{
    rgb_core(img, cfg, checks, BitDepth::Ten)
}

/// Encode a 12-bit RGB image (GBR planes).
pub fn encode_rgb12<'a>(
    img: &PlanarImage<u16>,
    cfg: &'a EncodeConfig,
    checks: &Checks,
) -> (r: Result<Job<'a>, EncodeError>)
    requires
        config_sound(cfg, checks),
    ensures
        rgb_outcome(r, img.bit_depth, BitDepth::Twelve, (img.width, img.height), *checks, cfg),
{
    rgb_core(img, cfg, checks, BitDepth::Twelve)
}

/// Encode an 8-bit RGBA image; the alpha plane is dropped.
pub fn encode_rgba8<'a>(
    img: &PlanarImage<u8>,
    cfg: &'a EncodeConfig,
    checks: &Checks,
) -> (r: Result<Job<'a>, EncodeError>)
    requires
        config_sound(cfg, checks),
    ensures
        rgba_dropped_outcome(r, img.bit_depth, BitDepth::Eight, (img.width, img.height), *checks, cfg),
{
    rgba_drop_core(img, cfg, checks, BitDepth::Eight)
}

/// Encode a 10-bit RGBA image; the alpha plane is dropped.
pub fn encode_rgba10<'a>(
    img: &PlanarImage<u16>,
    cfg: &'a EncodeConfig,
    checks: &Checks,
) -> (r: Result<Job<'a>, EncodeError>)
    requires
        config_sound(cfg, checks),
    ensures
        rgba_dropped_outcome(r, img.bit_depth, BitDepth::Ten, (img.width, img.height), *checks, cfg),
{
    rgba_drop_core(img, cfg, checks, BitDepth::Ten)
}

/// Encode a 12-bit RGBA image; the alpha plane is dropped.
pub fn encode_rgba12<'a>(
    img: &PlanarImage<u16>,
    cfg: &'a EncodeConfig,
    checks: &Checks,
) -> (r: Result<Job<'a>, EncodeError>)
    requires
        config_sound(cfg, checks),
    ensures
        rgba_dropped_outcome(r, img.bit_depth, BitDepth::Twelve, (img.width, img.height), *checks, cfg),
{
    rgba_drop_core(img, cfg, checks, BitDepth::Twelve)
}

/// Encode an 8-bit RGBA image with a lossless alpha item.
pub fn encode_rgba8_with_alpha<'a>(
    img: &PlanarImage<u8>,
    cfg: &'a EncodeConfig,
    checks: &Checks,
) -> (r: Result<Job<'a>, EncodeError>)
    requires
        config_sound(cfg, checks),
    ensures
        rgba_outcome(r, img.bit_depth, BitDepth::Eight, (img.width, img.height), *checks, cfg),
{
    rgba_alpha_core(img, cfg, checks, BitDepth::Eight)
}

/// Encode a 10-bit RGBA image with a lossless alpha item.
pub fn encode_rgba10_with_alpha<'a>(
    img: &PlanarImage<u16>,
    cfg: &'a EncodeConfig,
    checks: &Checks,
) -> (r: Result<Job<'a>, EncodeError>)
    requires
        config_sound(cfg, checks),
    ensures
        rgba_outcome(r, img.bit_depth, BitDepth::Ten, (img.width, img.height), *checks, cfg),
{
    rgba_alpha_core(img, cfg, checks, BitDepth::Ten)
}

/// Encode a 12-bit RGBA image with a lossless alpha item.
pub fn encode_rgba12_with_alpha<'a>(
    img: &PlanarImage<u16>,
    cfg: &'a EncodeConfig,
    checks: &Checks,
) -> (r: Result<Job<'a>, EncodeError>)
    requires
        config_sound(cfg, checks),
    ensures
        rgba_outcome(r, img.bit_depth, BitDepth::Twelve, (img.width, img.height), *checks, cfg),
{
    rgba_alpha_core(img, cfg, checks, BitDepth::Twelve)
}

/// Encode an 8-bit gray image.
pub fn encode_gray8<'a>(
    img: &PlanarImage<u8>,
    cfg: &'a EncodeConfig,
    checks: &Checks,
) -> (r: Result<Job<'a>, EncodeError>)
    requires
        config_sound(cfg, checks),
    ensures
        gray_outcome(r, img.bit_depth, BitDepth::Eight, (img.width, img.height), *checks, cfg),
{
    gray_core(img, cfg, checks, BitDepth::Eight)
}

/// Encode a 10-bit gray image.
pub fn encode_gray10<'a>(
    img: &PlanarImage<u16>,
    cfg: &'a EncodeConfig,
    checks: &Checks,
) -> (r: Result<Job<'a>, EncodeError>)
    requires
        config_sound(cfg, checks),
    ensures
        gray_outcome(r, img.bit_depth, BitDepth::Ten, (img.width, img.height), *checks, cfg),
{
    gray_core(img, cfg, checks, BitDepth::Ten)
}

/// Encode a 12-bit gray image.
pub fn encode_gray12<'a>(
    img: &PlanarImage<u16>,
    cfg: &'a EncodeConfig,
    checks: &Checks,
) -> (r: Result<Job<'a>, EncodeError>)
    requires
        config_sound(cfg, checks),
    ensures
        gray_outcome(r, img.bit_depth, BitDepth::Twelve, (img.width, img.height), *checks, cfg),
{
    gray_core(img, cfg, checks, BitDepth::Twelve)
}

/// Encode an 8-bit YCbCr image.
pub fn encode_yuv8<'a>(
    img: &PlanarImage<u8>,
    cfg: &'a EncodeConfig,
    checks: &Checks,
) -> (r: Result<Job<'a>, EncodeError>)
    requires
        config_sound(cfg, checks),
    ensures
        yuv_outcome(r, img.bit_depth, BitDepth::Eight, (img.width, img.height), *checks, cfg),
{
    yuv_core(img, cfg, checks, BitDepth::Eight)
}

/// Encode a 10-bit YCbCr image.
pub fn encode_yuv10<'a>(
    img: &PlanarImage<u16>,
    cfg: &'a EncodeConfig,
    checks: &Checks,
) -> (r: Result<Job<'a>, EncodeError>)
    requires
        config_sound(cfg, checks),
    ensures
        yuv_outcome(r, img.bit_depth, BitDepth::Ten, (img.width, img.height), *checks, cfg),
{
    yuv_core(img, cfg, checks, BitDepth::Ten)
}

/// Encode a 12-bit YCbCr image.
pub fn encode_yuv12<'a>(
    img: &PlanarImage<u16>,
    cfg: &'a EncodeConfig,
    checks: &Checks,
) -> (r: Result<Job<'a>, EncodeError>)
    requires
        config_sound(cfg, checks),
    ensures
        yuv_outcome(r, img.bit_depth, BitDepth::Twelve, (img.width, img.height), *checks, cfg),
{
    yuv_core(img, cfg, checks, BitDepth::Twelve)
}

/// Encode an 8-bit YCbCr image with a lossless alpha item.
pub fn encode_yuva8_with_alpha<'a>(
    img: &PlanarImage<u8>,
    cfg: &'a EncodeConfig,
    checks: &Checks,
) -> (r: Result<Job<'a>, EncodeError>)
    requires
        config_sound(cfg, checks),
    ensures
        yuva_outcome(r, img.bit_depth, BitDepth::Eight, (img.width, img.height), *checks, cfg),
{
    yuva_alpha_core(img, cfg, checks, BitDepth::Eight)
}

/// Encode a 10-bit YCbCr image with a lossless alpha item.
pub fn encode_yuva10_with_alpha<'a>(
    img: &PlanarImage<u16>,
    cfg: &'a EncodeConfig,
    checks: &Checks,
) -> (r: Result<Job<'a>, EncodeError>)
    requires
        config_sound(cfg, checks),
    ensures
        yuva_outcome(r, img.bit_depth, BitDepth::Ten, (img.width, img.height), *checks, cfg),
{
    yuva_alpha_core(img, cfg, checks, BitDepth::Ten)
}

/// Encode a 12-bit YCbCr image with a lossless alpha item.
pub fn encode_yuva12_with_alpha<'a>(
    img: &PlanarImage<u16>,
    cfg: &'a EncodeConfig,
    checks: &Checks,
) -> (r: Result<Job<'a>, EncodeError>)
    requires
        config_sound(cfg, checks),
    ensures
        yuva_outcome(r, img.bit_depth, BitDepth::Twelve, (img.width, img.height), *checks, cfg),
{
    yuva_alpha_core(img, cfg, checks, BitDepth::Twelve)
}

/// Encode an 8-bit gray image with a lossless alpha item.
pub fn encode_gray_alpha8<'a>(
    img: &PlanarImage<u8>,
    cfg: &'a EncodeConfig,
    checks: &Checks,
) -> (r: Result<Job<'a>, EncodeError>)
    requires
        config_sound(cfg, checks),
    ensures
        gray_alpha_outcome(r, img.bit_depth, BitDepth::Eight, (img.width, img.height), *checks, cfg),
{
    gray_alpha_core(img, cfg, checks, BitDepth::Eight)
}

/// Encode a 10-bit gray image with a lossless alpha item.
pub fn encode_gray_alpha10<'a>(
    img: &PlanarImage<u16>,
    cfg: &'a EncodeConfig,
    checks: &Checks,
) -> (r: Result<Job<'a>, EncodeError>)
    requires
        config_sound(cfg, checks),
    ensures
        gray_alpha_outcome(r, img.bit_depth, BitDepth::Ten, (img.width, img.height), *checks, cfg),
{
    gray_alpha_core(img, cfg, checks, BitDepth::Ten)
}

/// Encode a 12-bit gray image with a lossless alpha item.
pub fn encode_gray_alpha12<'a>(
    img: &PlanarImage<u16>,
    cfg: &'a EncodeConfig,
    checks: &Checks,
) -> (r: Result<Job<'a>, EncodeError>)
    requires
        config_sound(cfg, checks),
    ensures
        gray_alpha_outcome(r, img.bit_depth, BitDepth::Twelve, (img.width, img.height), *checks, cfg),
{
    gray_alpha_core(img, cfg, checks, BitDepth::Twelve)
}

impl<'a> Job<'a> {
    /// Describe the coded frames for the container.
    pub fn container(&self, color: &Av2Frame, alpha: Option<&'a Av2Frame>) -> (c: Container<'a>)
        ensures
            c == (Container {
                format: crate::frame::container_format(color.info()),
                color: crate::frame::container_color(color.info(), self.icc),
                alpha: c.alpha,
                exif: self.exif,
                orientation: self.orientation,
                clli: self.clli,
            }),
            match alpha {
                Some(frame) => c.alpha matches Some(item) && crate::frame::is_alpha_item(
                    item,
                    frame.info(),
                ),
                None => c.alpha is None,
            },
    {
        match alpha {
            Some(alpha) => Av2Encoder::wrap_avif_alpha(
                color,
                alpha,
                self.icc,
                self.exif,
                self.orientation,
                self.clli,
            ),
            None => Av2Encoder::wrap_avif(
                color,
                self.icc,
                self.exif,
                self.orientation,
                self.clli,
            ),
        }
    }
}

/// A granted request is encoded as it asks for: with the color description of its
/// options, sRGB YCbCr only where they have none, with its metadata, and with the
/// bit depth, the speed, the workers and the adaptive quantization of its options.
pub proof fn law_granted_requests_keep_their_options(
    r: Result<Job, EncodeError>,
    refused: Option<EncodeError>,
    depth: BitDepth,
    cfg: &EncodeConfig,
    entry: Entry,
    alpha: Option<AlphaPlane>,
)
    requires
        is_outcome(r, refused, depth, cfg, entry, alpha),
        r is Ok,
    ensures
        ({
            let job = r->Ok_0;
            let bits = match depth {
                BitDepth::Eight => 8int,
                BitDepth::Ten => 10,
                BitDepth::Twelve => 12,
            };
            &&& refused is None
            &&& cfg.color_encoding matches Some(c) ==> job.color == c
            &&& cfg.color_encoding is None ==> job.color == Cicp::SrgbYcbcr
            &&& cfg.icc is Some <==> job.icc is Some
            &&& cfg.icc is Some ==> job.icc->0@ == cfg.icc->0@
            &&& cfg.exif is Some <==> job.exif is Some
            &&& cfg.exif is Some ==> job.exif->0@ == cfg.exif->0@
            &&& job.orientation == cfg.orientation
            &&& job.clli == cfg.content_light_level
            &&& job.entry == entry
            &&& job.encoder@.bit_depth == bits
            &&& job.encoder@.speed == cfg.speed
            &&& job.encoder@.threads == cfg.threads
            &&& job.encoder@.tune.aq == cfg.adaptive_quant
            &&& alpha is Some <==> job.alpha is Some
            &&& alpha is Some ==> {
                let a = job.alpha->0;
                &&& a.plane == alpha->0
                &&& a.encoder@.bit_depth == bits
                &&& a.encoder@.threads == cfg.threads
                &&& a.encoder@.base_q_idx == 0
            }
        }),
{
}

/// Requests with different color descriptions have different job colors.
pub proof fn law_colors_stay_apart(
    r1: Result<Job, EncodeError>,
    r2: Result<Job, EncodeError>,
    refused: Option<EncodeError>,
    depth: BitDepth,
    cfg1: &EncodeConfig,
    cfg2: &EncodeConfig,
    entry: Entry,
    alpha: Option<AlphaPlane>,
)
    requires
        is_outcome(r1, refused, depth, cfg1, entry, alpha),
        is_outcome(r2, refused, depth, cfg2, entry, alpha),
        r1 is Ok,
        cfg1.color_encoding is Some,
        cfg2.color_encoding is Some,
        cfg1.color_encoding != cfg2.color_encoding,
    ensures
        r1->Ok_0.color != r2->Ok_0.color,
{
}

/// A request is refused for its bit depth whatever else is wrong with it, then for
/// its size, then for its options, then for the first of its planes; and it is
/// granted where none of these is wrong.
pub proof fn law_refusals_come_in_order(
    depth: BitDepth,
    want: BitDepth,
    size: (usize, usize),
    checks: Checks,
    planes: Seq<Check>,
    k: int,
)
    requires
        0 <= k < planes.len(),
    ensures
        ({
            let found = refusal(depth, want, size, checks, planes);
            let sized = 1 <= size.0 <= 16383 && 1 <= size.1 <= 16383;
            &&& depth != want ==> found == Some(EncodeError::UnsupportedChromaBitDepth(depth))
            &&& depth == want && !sized ==> found == Some(EncodeError::DimensionsOutOfRange)
            &&& depth == want && sized ==> {
                &&& checks.config matches Err(e) ==> found == Some(e)
                &&& checks.config is Ok && checks.of(planes[k]) is Err && (forall|j: int|
                    0 <= j < k ==> checks.of(#[trigger] planes[j]) is Ok) ==> found == Some(
                    checks.of(planes[k])->Err_0,
                )
                &&& checks.config is Ok && (forall|j: int|
                    0 <= j < planes.len() ==> checks.of(#[trigger] planes[j]) is Ok)
                    ==> found is None
            }
        }),
{
    lemma_refusal(depth, want, size, checks, planes);
    lemma_first_failure_empty(checks);
    lemma_first_failure(checks, planes, k);
}

proof fn lemma_first_failure(checks: Checks, list: Seq<Check>, k: int)
    requires
        0 <= k < list.len(),
    ensures
        checks.of(list[k]) is Err && (forall|j: int|
            0 <= j < k ==> checks.of(#[trigger] list[j]) is Ok) ==> first_failure(checks, list)
            == Some(checks.of(list[k])->Err_0),
        (forall|j: int| 0 <= j < list.len() ==> checks.of(#[trigger] list[j]) is Ok)
            ==> first_failure(checks, list) is None,
    decreases list.len(),
{
    let rest = list.drop_first();
    assert(forall|j: int| 0 <= j < rest.len() ==> #[trigger] rest[j] == list[j + 1]);
    if k > 0 {
        lemma_first_failure(checks, rest, k - 1);
        assert(rest[k - 1] == list[k]);
    } else if rest.len() > 0 {
        lemma_first_failure(checks, rest, 0);
    } else {
        assert(rest =~= Seq::<Check>::empty());
    }
}

/// The verdict of a check is that of the plane, the options or the format that it
/// names.
pub proof fn law_checks_have_their_own_verdicts(checks: Checks)
    ensures
        checks.of(Check::Config) == checks.config,
        checks.of(Check::Sampling) == checks.sampling,
        forall|k: u8| k < 4 ==> #[trigger] checks.of(Check::Plane(k)) == checks.planes@[k as int],
{
}

/// An image is fit for 4:4:4 coding exactly where its sides are from 1 to 16383
/// samples and each color plane holds their product; of several planes that do not,
/// the first is named, before the size.
pub proof fn law_images_are_refused_by_their_first_fault<T>(img: PlanarImage<T>)
    ensures
        ({
            let n = img.width * img.height;
            let found = img.refusal_444();
            let whole = |k: int| img.planes@[k]@.len() == n;
            &&& found is None <==> 1 <= img.width <= 16383 && 1 <= img.height <= 16383 && whole(0)
                && whole(1) && whole(2)
            &&& !whole(0) ==> found == Some(EncodeError::Rejected(Check::Plane(0)))
            &&& whole(0) && !whole(1) ==> found == Some(EncodeError::Rejected(Check::Plane(1)))
            &&& whole(0) && whole(1) && !whole(2) ==> found == Some(
                EncodeError::Rejected(Check::Plane(2)),
            )
            &&& whole(0) && whole(1) && whole(2) && found is Some ==> found == Some(
                EncodeError::DimensionsOutOfRange,
            )
        }),
{
}

/// A color image is granted exactly where its size and its options are in order and
/// each of its three color planes is; of several planes that are not, the first
/// decides.
pub proof fn law_every_color_plane_counts(
    depth: BitDepth,
    size: (usize, usize),
    checks: Checks,
)
    requires
        1 <= size.0 <= 16383,
        1 <= size.1 <= 16383,
        checks.config is Ok,
    ensures
        ({
            let found = refusal(depth, depth, size, checks, color_planes());
            let p = checks.planes@;
            &&& found is None <==> p[0] is Ok && p[1] is Ok && p[2] is Ok
            &&& p[0] is Err ==> found == Some(p[0]->Err_0)
            &&& p[0] is Ok && p[1] is Err ==> found == Some(p[1]->Err_0)
            &&& p[0] is Ok && p[1] is Ok && p[2] is Err ==> found == Some(p[2]->Err_0)
        }),
{
    let list = color_planes();
    law_refusals_come_in_order(depth, depth, size, checks, list, 0);
    law_refusals_come_in_order(depth, depth, size, checks, list, 1);
    law_refusals_come_in_order(depth, depth, size, checks, list, 2);
    assert(checks.of(list[0]) == checks.planes@[0]);
    assert(checks.of(list[1]) == checks.planes@[1]);
    assert(checks.of(list[2]) == checks.planes@[2]);
}

/// A granted request is encoded in up to eight by eight tiles and else with the
/// shipping defaults, at the index of its quality; its alpha in one tile, without
/// loss.
pub proof fn law_granted_requests_take_the_defaults(
    r: Result<Job, EncodeError>,
    refused: Option<EncodeError>,
    depth: BitDepth,
    cfg: &EncodeConfig,
    entry: Entry,
    alpha: Option<AlphaPlane>,
)
    requires
        is_outcome(r, refused, depth, cfg, entry, alpha),
        r is Ok,
        1 <= cfg.quality <= 100,
    ensures
        ({
            let s = r->Ok_0.encoder@;
            let d = encoder::default_tuning();
            &&& s.tune == (encoder::Tuning {
                tile_cols: 8,
                tile_rows: 8,
                aq: cfg.adaptive_quant,
                ..d
            })
            &&& cfg.quality == 100 ==> s.base_q_idx == 1
            &&& cfg.quality < 100 ==> 99 * s.base_q_idx <= 254 * (100 - cfg.quality) < 99
                * s.base_q_idx + 99
            &&& r->Ok_0.alpha is Some ==> r->Ok_0.alpha->0.encoder@.tune == d
        }),
{
    encoder::law_quality_is_linear(cfg.quality as int);
    encoder::law_quality_is_antitone(1, cfg.quality as int);
    encoder::law_quality_is_antitone(cfg.quality as int, 100);
}

proof fn lemma_two_checks(checks: Checks, a: Check, b: Check)
    ensures
        first_failure(checks, seq![a]) is None <==> checks.of(a) is Ok,
        first_failure(checks, seq![a, b]) is None <==> checks.of(a) is Ok && checks.of(b) is Ok,
{
    reveal_with_fuel(first_failure, 3);
    let (one, two) = (seq![a], seq![a, b]);
    assert(one.drop_first() =~= Seq::<Check>::empty());
    assert(two.drop_first() =~= seq![b]);
    assert(seq![b].drop_first() =~= Seq::<Check>::empty());
}

proof fn lemma_four_planes(checks: Checks)
    ensures
        first_failure(checks, color_planes().push(Check::Plane(3))) is None <==> checks.planes@[0] is Ok
            && checks.planes@[1] is Ok && checks.planes@[2] is Ok && checks.planes@[3] is Ok,
{
    let list = color_planes().push(Check::Plane(3));
    assert(list[0] == Check::Plane(0) && list[1] == Check::Plane(1) && list[2] == Check::Plane(2)
        && list[3] == Check::Plane(3));
    lemma_first_failure(checks, list, 0);
    lemma_first_failure(checks, list, 1);
    lemma_first_failure(checks, list, 2);
    lemma_first_failure(checks, list, 3);
    if checks.planes@[0] is Ok && checks.planes@[1] is Ok && checks.planes@[2] is Ok
        && checks.planes@[3] is Ok {
        assert forall|j: int| 0 <= j < list.len() implies checks.of(#[trigger] list[j]) is Ok by {
            assert(j == 0 || j == 1 || j == 2 || j == 3);
        }
    }
}

/// Images with color planes are converted to the chroma format asked for, those with
/// planes in YCbCr are taken as they are, and gray ones stay gray. Alpha is encoded
/// from the fourth plane beside color and from the second beside gray, and not at all
/// where it is dropped.
pub proof fn law_requests_take_their_planes(
    r: Result<Job, EncodeError>,
    depth: BitDepth,
    want: BitDepth,
    size: (usize, usize),
    checks: Checks,
    cfg: &EncodeConfig,
)
    requires
        r is Ok,
    ensures
        ({
            let job = r->Ok_0;
            let color = job.entry == Entry::Image(cfg.chroma);
            let gray = job.entry == Entry::Image(ChromaFormat::Monochrome);
            let yuv = job.entry == Entry::Yuv(cfg.chroma);
            let none = job.alpha is None;
            let fourth = job.alpha matches Some(a) && a.plane == AlphaPlane::Fourth;
            let second = job.alpha matches Some(a) && a.plane == AlphaPlane::Second;
            &&& rgb_outcome(r, depth, want, size, checks, cfg) ==> color && none
            &&& rgba_dropped_outcome(r, depth, want, size, checks, cfg) ==> color && none
            &&& rgba_outcome(r, depth, want, size, checks, cfg) ==> color && fourth
            &&& gray_outcome(r, depth, want, size, checks, cfg) ==> gray && none
            &&& yuv_outcome(r, depth, want, size, checks, cfg) ==> yuv && none
            &&& yuva_outcome(r, depth, want, size, checks, cfg) ==> yuv && fourth
            &&& gray_alpha_outcome(r, depth, want, size, checks, cfg) ==> gray && second
        }),
{
}

/// With the bit depth, the size and the options in order a request is granted exactly
/// where each plane that it has is, an alpha plane too even where it is dropped; of
/// planes in YCbCr the sampling stands for all.
pub proof fn law_requests_need_each_of_their_planes(
    r: Result<Job, EncodeError>,
    depth: BitDepth,
    size: (usize, usize),
    checks: Checks,
    cfg: &EncodeConfig,
)
    requires
        1 <= size.0 <= 16383,
        1 <= size.1 <= 16383,
        checks.config is Ok,
    ensures
        ({
            let p = checks.planes@;
            let color = p[0] is Ok && p[1] is Ok && p[2] is Ok;
            let yuv = checks.sampling is Ok;
            &&& rgb_outcome(r, depth, depth, size, checks, cfg) ==> (r is Ok <==> color)
            &&& rgba_dropped_outcome(r, depth, depth, size, checks, cfg) ==> (r is Ok <==> color
                && p[3] is Ok)
            &&& rgba_outcome(r, depth, depth, size, checks, cfg) ==> (r is Ok <==> color
                && p[3] is Ok)
            &&& gray_outcome(r, depth, depth, size, checks, cfg) ==> (r is Ok <==> p[0] is Ok)
            &&& yuv_outcome(r, depth, depth, size, checks, cfg) ==> (r is Ok <==> yuv)
            &&& yuva_outcome(r, depth, depth, size, checks, cfg) ==> (r is Ok <==> yuv
                && p[3] is Ok)
            &&& gray_alpha_outcome(r, depth, depth, size, checks, cfg) ==> (r is Ok <==> p[0] is Ok
                && p[1] is Ok)
        }),
{
    law_every_color_plane_counts(depth, size, checks);
    lemma_first_failure_empty(checks);
    lemma_refusal(depth, depth, size, checks, color_planes().push(Check::Plane(3)));
    lemma_refusal(depth, depth, size, checks, seq![Check::Plane(0)]);
    lemma_refusal(depth, depth, size, checks, seq![Check::Sampling]);
    lemma_refusal(depth, depth, size, checks, seq![Check::Sampling, Check::Plane(3)]);
    lemma_refusal(depth, depth, size, checks, seq![Check::Plane(0), Check::Plane(1)]);
    lemma_four_planes(checks);
    lemma_two_checks(checks, Check::Plane(0), Check::Plane(1));
    lemma_two_checks(checks, Check::Sampling, Check::Plane(3));
}

/// A request of another bit depth than the function encodes is refused for it.
pub proof fn law_other_bit_depths_are_refused(
    r: Result<Job, EncodeError>,
    depth: BitDepth,
    want: BitDepth,
    size: (usize, usize),
    checks: Checks,
    cfg: &EncodeConfig,
)
    requires
        depth != want,
        rgb_outcome(r, depth, want, size, checks, cfg) || rgba_outcome(
            r,
            depth,
            want,
            size,
            checks,
            cfg,
        ) || rgba_dropped_outcome(r, depth, want, size, checks, cfg) || gray_outcome(
            r,
            depth,
            want,
            size,
            checks,
            cfg,
        ) || yuv_outcome(r, depth, want, size, checks, cfg) || yuva_outcome(
            r,
            depth,
            want,
            size,
            checks,
            cfg,
        ) || gray_alpha_outcome(r, depth, want, size, checks, cfg),
    ensures
        r is Err,
        r->Err_0 == EncodeError::UnsupportedChromaBitDepth(depth),
{
}

} // verus!
