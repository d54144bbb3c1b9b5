//! The coded frame: its extent in mode-info units, the OBU stream and the
//! description that a container needs.

use crate::bits;
use crate::encoder::{Av2Encoder, ChromaFormat, Cicp};
use crate::entropy;
use crate::entropy::RangeEncoder;
use crate::headers;
use crate::headers::{frame_header, obu, sequence_header, CcsoConfig, CcsoPlane, Config};
use crate::layout::Layout;
use crate::tiling;
use vstd::prelude::*;

verus! {

// ---------------------------------------------------------------------------
// Extent in mode-info units
// ---------------------------------------------------------------------------

/// Mode-info units (4 pixels) that a dimension takes: it is rounded up to
/// whole 8-pixel blocks first.
pub open spec fn mi_units(dim: int) -> int {
    (dim + 7) / 8 * 2
}

/// Mode-info units of a dimension.
pub fn mi_extent(dim: usize) -> (n: usize)
    requires
        dim + 7 <= usize::MAX,
    ensures
        n == mi_units(dim as int),
{
    (dim + 7) / 8 * 2
}

/// An extent whose last superblock lies in the frame completely, or by more
/// than half: no split is forced at its edge.
pub open spec fn boundary_safe(m: int) -> bool {
    m % 16 == 0 || m % 16 > 8
}

/// Extent of a frame that is coded without padding; none where a side is not
/// boundary-safe.
pub open spec fn native_extent(width: int, height: int) -> Option<(i64, i64)> {
    if boundary_safe(mi_units(width)) && boundary_safe(mi_units(height)) {
        Some((mi_units(width) as i64, mi_units(height) as i64))
    } else {
        None
    }
}

/// Mode-info extent of a frame that is coded without padding; `None` where the
/// last superblock of a side has at most half of its units in the frame. Such a
/// frame is padded.
pub fn lossy_native_mi(width: usize, height: usize) -> (mi: Option<(i64, i64)>)
    requires
        width + 7 <= usize::MAX,
        height + 7 <= usize::MAX,
    ensures
        mi == native_extent(width as int, height as int),
{
    let mc: usize = mi_extent(width);
    let mr: usize = mi_extent(height);
    let (c, r): (usize, usize) = (mc % 16, mr % 16);
    if !((c == 0 || c > 8) && (r == 0 || r > 8)) {
        return None;
    }
    Some((mc as i64, mr as i64))
}

/// Edge residues, in mode-info units of a superblock, that 4:2:0 codes without
/// padding.
pub open spec fn native_420_residue(m: int) -> bool {
    m % 16 == 0 || m % 16 >= 6 || m % 16 == 4 || m % 16 == 2
}

/// Every dimension has a residue that 4:2:0 codes without padding, since the
/// extent is an even number of units.
pub proof fn law_every_420_dimension_is_native(dim: int)
    requires
        dim >= 0,
    ensures
        native_420_residue(mi_units(dim)),
{
}

/// Mode-info extent of a 4:2:0 frame, which is never padded.
pub fn native_420_mi(width: usize, height: usize) -> (mi: Option<(i64, i64)>)
    requires
        width + 7 <= usize::MAX,
        height + 7 <= usize::MAX,
    ensures
        mi == Some((mi_units(width as int) as i64, mi_units(height as int) as i64)),
{
    let mc: usize = mi_extent(width);
    let mr: usize = mi_extent(height);
    proof {
        law_every_420_dimension_is_native(width as int);
        law_every_420_dimension_is_native(height as int);
    }
    let (c, r): (usize, usize) = (mc % 16, mr % 16);
    let native_c = c == 0 || c >= 6 || c == 4 || c == 2;
    let native_r = r == 0 || r >= 6 || r == 4 || r == 2;
    if !(native_c && native_r) {
        return None;
    }
    Some((mc as i64, mr as i64))
}

/// Mode-info extent of a 4:2:2 frame that is coded without padding.
pub fn native_422_mi(width: usize, height: usize) -> (mi: Option<(i64, i64)>)
    requires
        width + 7 <= usize::MAX,
        height + 7 <= usize::MAX,
    ensures
        mi == native_extent(width as int, height as int),
{
    lossy_native_mi(width, height)
}

/// A side either is boundary-safe or forces a split at its edge, never both.
pub proof fn law_boundary_safe_sides_force_no_split(dim: int)
    requires
        dim >= 0,
    ensures
        boundary_safe(mi_units(dim)) <==> !split_residue(mi_units(dim)),
{
}

/// Edge residues that need a forced split: at most half of the last
/// superblock lies in the frame.
pub open spec fn split_residue(m: int) -> bool {
    0 < m % 16 <= 8
}

/// Whether a frame needs the partition walk at an edge. Other frames consist
/// of whole 64x64 leaves.
pub fn lossy_needs_partition(width: usize, height: usize) -> (b: bool)
    requires
        width + 7 <= usize::MAX,
        height + 7 <= usize::MAX,
    ensures
        b == (split_residue(mi_units(width as int)) || split_residue(mi_units(height as int))),
{
    let c: usize = mi_extent(width) % 16;
    let r: usize = mi_extent(height) % 16;
    let part_c = c == 6 || c == 8 || c == 4 || c == 2;
    let part_r = r == 6 || r == 8 || r == 4 || r == 2;
    part_c || part_r
}

// ---------------------------------------------------------------------------
// The coded frame
// ---------------------------------------------------------------------------

/// Result of an encode: the OBU stream plus what is needed to interpret it.
#[derive(Debug)]
pub struct Av2Frame {
    data: Vec<u8>,
    width: usize,
    height: usize,
    coded_width: usize,
    coded_height: usize,
    bit_depth: u8,
    color: Cicp,
    chroma_format: ChromaFormat,
}

/// What a coded frame consists of.
pub struct FrameInfo {
    /// The OBU stream.
    pub data: Seq<u8>,
    /// Display size.
    pub width: usize,
    pub height: usize,
    /// Size that the headers signal, which is what a decoder puts out. Where it
    /// exceeds the display size a container crops.
    pub coded_width: usize,
    pub coded_height: usize,
    pub bit_depth: u8,
    pub color: Cicp,
    pub chroma_format: ChromaFormat,
}

impl Av2Frame {
    pub closed spec fn info(&self) -> FrameInfo {
        FrameInfo {
            data: self.data@,
            width: self.width,
            height: self.height,
            coded_width: self.coded_width,
            coded_height: self.coded_height,
            bit_depth: self.bit_depth,
            color: self.color,
            chroma_format: self.chroma_format,
        }
    }

    /// The OBU stream.
    pub fn view(&self) -> (bytes: &[u8])
        ensures
            bytes@ == self.info().data,
    {
        self.data.as_slice()
    }

    /// Display size.
    pub fn size(&self) -> (s: (usize, usize))
        ensures
            s == (self.info().width, self.info().height),
    {
        (self.width, self.height)
    }

    /// Size that the headers signal.
    pub fn coded_size(&self) -> (s: (usize, usize))
        ensures
            s == (self.info().coded_width, self.info().coded_height),
    {
        (self.coded_width, self.coded_height)
    }
}

/// Payload of the frame OBU: the header, byte aligned, and the tile data.
pub open spec fn frame_payload(
    config: Config,
    width: nat,
    height: nat,
    tiles: (nat, nat, nat),
    tile_data: Seq<u8>,
) -> Seq<u8> {
    bits::bits_bytes(
        headers::frame_header_bits(&config, width, height, tiles.0, tiles.1, tiles.2),
    ) + tile_data
}

/// Payload of the sequence OBU.
pub open spec fn sequence_payload(config: Config, width: nat, height: nat) -> Seq<u8> {
    bits::bits_bytes(headers::sequence_header_bits(&config, width, height))
}

/// The stream of a still picture: temporal delimiter, sequence header, frame.
pub open spec fn still_stream(
    config: Config,
    width: nat,
    height: nat,
    tiles: (nat, nat, nat),
    tile_data: Seq<u8>,
) -> Seq<u8> {
    headers::obu_bytes(2, Seq::empty()) + headers::obu_bytes(
        1,
        sequence_payload(config, width, height),
    ) + headers::obu_bytes(4, frame_payload(config, width, height, tiles, tile_data))
}

/// What a reader takes for the OBU at the front of `s`: its type byte, its
/// payload and the rest of the stream.
pub open spec fn read_obu(s: Seq<u8>) -> (u8, Seq<u8>, Seq<u8>) {
    let (size, n) = headers::read_leb128(s);
    (s[n as int], s.subrange(n as int + 1, n as int + size), s.skip(n as int + size))
}

/// A reader gets the three OBUs of a still picture back from its stream.
pub proof fn law_stream_reads_back(
    config: Config,
    width: nat,
    height: nat,
    tiles: (nat, nat, nat),
    tile_data: Seq<u8>,
)
    ensures
        ({
            let s = still_stream(config, width, height, tiles, tile_data);
            let (t0, p0, s1) = read_obu(s);
            let (t1, p1, s2) = read_obu(s1);
            let (t2, p2, s3) = read_obu(s2);
            &&& t0 == 8 && p0 == Seq::<u8>::empty()
            &&& t1 == 4 && p1 == sequence_payload(config, width, height)
            &&& t2 == 16 && p2 == frame_payload(config, width, height, tiles, tile_data)
            &&& s3 == Seq::<u8>::empty()
        }),
{
    let a = headers::obu_bytes(2, Seq::empty());
    let p1 = sequence_payload(config, width, height);
    let b = headers::obu_bytes(1, p1);
    let p2 = frame_payload(config, width, height, tiles, tile_data);
    let c = headers::obu_bytes(4, p2);
    let s = still_stream(config, width, height, tiles, tile_data);
    assert(s =~= a + (b + c));
    lemma_read_obu(2, Seq::empty(), b + c);
    lemma_read_obu(1, p1, c);
    assert(c =~= c + Seq::<u8>::empty());
    lemma_read_obu(4, p2, Seq::empty());
}

proof fn lemma_read_obu(obu_type: u8, payload: Seq<u8>, rest: Seq<u8>)
    requires
        obu_type < 64,
    ensures
        read_obu(headers::obu_bytes(obu_type, payload) + rest) == ((4 * obu_type) as u8, payload, rest),
{
    let s = headers::obu_bytes(obu_type, payload) + rest;
    headers::law_obu_is_self_delimiting(obu_type, payload, rest);
    let head = headers::leb128_bytes(payload.len() + 1);
    let tail = seq![((4 * obu_type) % 256) as u8] + payload + rest;
    assert(s =~= head + tail);
    headers::law_leb128_round_trip(payload.len() + 1, tail);
    assert(s[head.len() as int] == tail[0]);
}

/// Build the stream of a still picture around its tile data.
fn build_stream(
    config: &Config,
    width: u32,
    height: u32,
    tiles: (usize, usize, usize),
    tile_data: Vec<u8>,
) -> (data: Vec<u8>)
    requires
        width >= 1,
        height >= 1,
        headers::config_valid(config),
        headers::multi_tile(tiles.0 as nat, tiles.1 as nat) ==> tiles.2 >= 1,
    ensures
        data@ == still_stream(
            *config,
            width as nat,
            height as nat,
            (tiles.0 as nat, tiles.1 as nat, tiles.2 as nat),
            tile_data@,
        ),
{
    let mut tile_data = tile_data;
    let ghost tile_bytes = tile_data@;
    let mut payload: Vec<u8> = frame_header(config, width, height, tiles);
    let sequence: Vec<u8> = sequence_header(config, width, height);
    proof {
        bits::law_bytes_round_trip(payload@);
        bits::law_bytes_round_trip(sequence@);
    }
    payload.append(&mut tile_data);
    let empty: Vec<u8> = Vec::new();
    let mut data: Vec<u8> = obu(2, empty.as_slice());
    let mut second: Vec<u8> = obu(1, sequence.as_slice());
    let mut third: Vec<u8> = obu(4, payload.as_slice());
    data.append(&mut second);
    data.append(&mut third);
    proof {
        let tiles = (tiles.0 as nat, tiles.1 as nat, tiles.2 as nat);
        assert(empty@ =~= Seq::<u8>::empty());
        assert(payload@ =~= frame_payload(*config, width as nat, height as nat, tiles, tile_bytes));
        assert(data@ =~= still_stream(*config, width as nat, height as nat, tiles, tile_bytes));
    }
    data
}

/// A configuration with the offset parameters that were found for the chroma
/// planes; without any it stays as it is.
pub open spec fn is_with_ccso(
    config: Config,
    u: Option<CcsoPlane>,
    v: Option<CcsoPlane>,
    out: Config,
) -> bool {
    &&& u is None && v is None ==> out == config
    &&& u is Some || v is Some ==> {
        &&& out == (Config { ccso: out.ccso, ..config })
        &&& out.ccso matches Some(c)
        &&& c.enable@ == seq![false, u is Some, v is Some]
        &&& c.planes@ == seq![None, u, v]
    }
}

/// Parameters that the frame header can express.
pub open spec fn chroma_offsets_valid(p: Option<CcsoPlane>) -> bool {
    p matches Some(p) ==> headers::ccso_plane_valid(p)
}

/// Fold the chroma offset parameters into a configuration.
fn with_ccso(config: Config, u: Option<CcsoPlane>, v: Option<CcsoPlane>) -> (out: Config)
    requires
        headers::config_valid(&config),
        chroma_offsets_valid(u),
        chroma_offsets_valid(v),
    ensures
        is_with_ccso(config, u, v, out),
        headers::config_valid(&out),
{
    let has_u = u.is_some();
    let has_v = v.is_some();
    if !has_u && !has_v {
        return config;
    }
    let ccso = CcsoConfig { enable: [false, has_u, has_v], planes: [None, u, v] };
    Config {
        layout: config.layout,
        base_q: config.base_q,
        deblock: config.deblock,
        db_apply: config.db_apply,
        db_delta: config.db_delta,
        tx_switchable: config.tx_switchable,
        guided_deblock: config.guided_deblock,
        cdef: config.cdef,
        ccso: Some(ccso),
        bit_depth: config.bit_depth,
        lossless: config.lossless,
        cfl: config.cfl,
        updating_cdf: config.updating_cdf,
        aq: config.aq,
        aq_res_log2: config.aq_res_log2,
    }
}

/// Chroma sampling of a layout.
pub open spec fn format_of(layout: Layout) -> ChromaFormat {
    match layout {
        Layout::Monochrome => ChromaFormat::Monochrome,
        Layout::I420 => ChromaFormat::Yuv420,
        Layout::I422 => ChromaFormat::Yuv422,
        Layout::I444 => ChromaFormat::Yuv444,
    }
}

fn chroma_format_of(layout: Layout) -> (f: ChromaFormat)
    ensures
        f == format_of(layout),
{
    match layout {
        Layout::Monochrome => ChromaFormat::Monochrome,
        Layout::I420 => ChromaFormat::Yuv420,
        Layout::I422 => ChromaFormat::Yuv422,
        Layout::I444 => ChromaFormat::Yuv444,
    }
}

/// Whether the real size of a frame is signaled: lossless and 4:2:0 frames
/// signal it always, others where both sides are boundary-safe.
pub open spec fn signals_real_size(config: Config, width: int, height: int) -> bool {
    config.lossless || config.layout == Layout::I420 || native_extent(width, height) is Some
}

/// Size that the headers signal: the real one, or the padded one.
pub open spec fn signaled_size(config: Config, size: (usize, usize), padded: (usize, usize)) -> (
    usize,
    usize,
) {
    if signals_real_size(config, size.0 as int, size.1 as int) {
        size
    } else {
        padded
    }
}

impl Av2Encoder {
    /// Finish a single-tile frame: flush the coder, write the headers and wrap
    /// everything in OBUs. `pw` and `ph` are the padded dimensions, which are
    /// signaled where the real ones cannot be; a container then crops.
    /// `ccso_u` and `ccso_v` are the offset parameters found for the chroma planes.
    pub fn finish(
        &self,
        enc: RangeEncoder,
        config: Config,
        pw: usize,
        ph: usize,
        width: usize,
        height: usize,
        color: Cicp,
        ccso_u: Option<CcsoPlane>,
        ccso_v: Option<CcsoPlane>,
    ) -> (frame: Av2Frame)
        requires
            enc.wf(),
            1 <= width <= u32::MAX - 7,
            1 <= height <= u32::MAX - 7,
            1 <= pw <= u32::MAX,
            1 <= ph <= u32::MAX,
            headers::config_valid(&config),
            chroma_offsets_valid(ccso_u),
            chroma_offsets_valid(ccso_v),
        ensures
            exists|tile: Seq<u8>, coded: Config|
                {
                    &&& #[trigger] entropy::is_payload(enc@, tile)
                    &&& #[trigger] is_with_ccso(config, ccso_u, ccso_v, coded)
                    &&& frame.info() == ({
                        let (sw, sh) = signaled_size(config, (width, height), (pw, ph));
                        FrameInfo {
                            data: still_stream(coded, sw as nat, sh as nat, (0, 0, 1), tile),
                            width,
                            height,
                            coded_width: sw,
                            coded_height: sh,
                            bit_depth: self@.bit_depth,
                            color,
                            chroma_format: format_of(config.layout),
                        }
                    })
                },
    {
        let tile: Vec<u8> = enc.finish();
        let aligned = mi_extent(width) % 16 == 0 && mi_extent(height) % 16 == 0;
        let lossy_native = !config.lossless && match config.layout {
            Layout::I444 => lossy_native_mi(width, height).is_some(),
            Layout::I422 => native_422_mi(width, height).is_some(),
            Layout::I420 => native_420_mi(width, height).is_some(),
            Layout::Monochrome => lossy_native_mi(width, height).is_some(),
        };
        let exact = config.lossless || aligned || lossy_native;
        let (sw, sh): (usize, usize) = if exact {
            (width, height)
        } else {
            (pw, ph)
        };
        let config = with_ccso(config, ccso_u, ccso_v);
        let ghost tile_bytes = tile@;
        let data: Vec<u8> = build_stream(&config, sw as u32, sh as u32, (0, 0, 1), tile);
        proof {
            assert(entropy::is_payload(enc@, tile_bytes));
        }
        Av2Frame {
            data,
            width,
            height,
            coded_width: sw,
            coded_height: sh,
            bit_depth: self.bit_depth(),
            color,
            chroma_format: chroma_format_of(config.layout),
        }
    }
}

/// The byte strings of a list of tiles.
pub open spec fn tile_views(tiles: Seq<Vec<u8>>) -> Seq<Seq<u8>> {
    tiles.map_values(|t: Vec<u8>| t@)
}

/// Put the tiles one after the other, each but the last behind its size.
fn join_tiles(tiles: &Vec<Vec<u8>>) -> (out: Vec<u8>)
    requires
        forall|i: int| 0 <= i < tiles@.len() - 1 ==> (#[trigger] tiles@[i])@.len() >= 1,
    ensures
        out@ == tiling::tile_group(tile_views(tiles@)),
{
    let n: usize = tiles.len();
    let mut out: Vec<u8> = Vec::new();
    let mut i: usize = n;
    let ghost views = tile_views(tiles@);
    assert(views.skip(n as int) =~= Seq::<Seq<u8>>::empty());
    while i > 0
        invariant
            i <= n,
            n == tiles@.len(),
            views == tile_views(tiles@),
            forall|i: int| 0 <= i < tiles@.len() - 1 ==> (#[trigger] tiles@[i])@.len() >= 1,
            out@ == tiling::tile_group(views.skip(i as int)),
        decreases i,
    {
        i = i - 1;
        let mut part: Vec<u8> = Vec::new();
        if i + 1 < n {
            assert(tiles@[i as int]@.len() >= 1);
            let v: usize = tiles[i].len() - 1;
            part.push((v % 256) as u8);
            part.push((v / 0x100 % 256) as u8);
            part.push((v / 0x1_0000 % 256) as u8);
            part.push((v / 0x100_0000 % 256) as u8);
            assert(part@ =~= tiling::size_bytes(v as nat));
        }
        let ghost head = part@;
        let mut k: usize = 0;
        while k < tiles[i].len()
            invariant
                i < n,
                n == tiles@.len(),
                k <= tiles@[i as int]@.len(),
                part@ == head + tiles@[i as int]@.take(k as int),
            decreases tiles@[i as int]@.len() - k,
        {
            part.push(tiles[i][k]);
            k = k + 1;
            assert(tiles@[i as int]@.take(k as int) =~= tiles@[i as int]@.take(k - 1).push(
                tiles@[i as int]@[k - 1],
            ));
        }
        let ghost rest = out@;
        let ghost this = tiles@[i as int]@;
        assert(this.take(k as int) =~= this);
        part.append(&mut out);
        out = part;
        proof {
            let s = views.skip(i as int);
            assert(s[0] == this);
            assert(s.drop_first() =~= views.skip(i + 1));
            if i + 1 == n {
                assert(s.len() == 1);
                assert(views.skip(i + 1) =~= Seq::<Seq<u8>>::empty());
                assert(rest =~= Seq::<u8>::empty());
                assert(out@ =~= this);
            } else {
                assert(out@ =~= head + this + rest);
            }
        }
    }
    assert(views.skip(0) =~= views);
    out
}

/// Wrap encoded tiles, in raster order, into one frame with a tile grid of
/// `2^log2c` by `2^log2r`. A tile size takes four bytes.
pub fn assemble_multitile(
    config: &Config,
    sig_w: usize,
    sig_h: usize,
    disp_w: usize,
    disp_h: usize,
    color: Cicp,
    log2c: usize,
    log2r: usize,
    bit_depth: u8,
    chroma_format: ChromaFormat,
    tiles_bytes: &Vec<Vec<u8>>,
) -> (frame: Av2Frame)
    requires
        1 <= sig_w <= u32::MAX,
        1 <= sig_h <= u32::MAX,
        headers::config_valid(config),
        forall|i: int| 0 <= i < tiles_bytes@.len() - 1 ==> (#[trigger] tiles_bytes@[i])@.len() >= 1,
    ensures
        frame.info() == (FrameInfo {
            data: still_stream(
                *config,
                sig_w as nat,
                sig_h as nat,
                (log2c as nat, log2r as nat, 4),
                tiling::tile_group(tile_views(tiles_bytes@)),
            ),
            width: disp_w,
            height: disp_h,
            coded_width: sig_w,
            coded_height: sig_h,
            bit_depth,
            color,
            chroma_format,
        }),
{
    let tile_data: Vec<u8> = join_tiles(tiles_bytes);
    let data: Vec<u8> = build_stream(
        config,
        sig_w as u32,
        sig_h as u32,
        (log2c, log2r, 4),
        tile_data,
    );
    Av2Frame {
        data,
        width: disp_w,
        height: disp_h,
        coded_width: sig_w,
        coded_height: sig_h,
        bit_depth,
        color,
        chroma_format,
    }
}

// ---------------------------------------------------------------------------
// Container description
// ---------------------------------------------------------------------------

/// Sample format that a container declares.
#[derive(Clone, Copy, Debug, PartialEq, Eq, Structural)]
pub struct Av2Format {
    pub bit_depth: u8,
    pub monochrome: bool,
    pub chroma_sub_x: bool,
    pub chroma_sub_y: bool,
}

/// Color description that a container declares.
#[derive(Clone, Copy, Debug)]
pub enum Av2Color<'a> {
    Cicp(Cicp),
    Both { cicp: Cicp, icc: &'a [u8] },
}

/// Format of a frame: subsampled columns in 4:2:2 and 4:2:0, subsampled rows
/// in 4:2:0 alone.
pub open spec fn container_format(frame: FrameInfo) -> Av2Format {
    let f = frame.chroma_format;
    Av2Format {
        bit_depth: frame.bit_depth,
        monochrome: f == ChromaFormat::Monochrome,
        chroma_sub_x: f == ChromaFormat::Yuv422 || f == ChromaFormat::Yuv420,
        chroma_sub_y: f == ChromaFormat::Yuv420,
    }
}

/// Picture orientation, as metadata codes it.
#[derive(Clone, Copy, Debug, PartialEq, Eq, Structural)]
pub struct Orientation {
    pub code: u8,
}

/// Content light level: brightest sample and brightest frame average.
#[derive(Clone, Copy, Debug, PartialEq, Eq, Structural)]
pub struct ContentLightLevel {
    pub max_content: u16,
    pub max_average: u16,
}

/// The alpha item of a container: a monochrome frame beside the color frame.
#[derive(Clone, Copy, Debug)]
pub struct AlphaItem<'a> {
    /// The OBU stream.
    pub data: &'a [u8],
    /// Display size.
    pub width: usize,
    pub height: usize,
    /// Size that the headers signal.
    pub coded_width: usize,
    pub coded_height: usize,
    pub bit_depth: u8,
}

/// Whether an item carries a frame.
pub open spec fn is_alpha_item(item: AlphaItem, frame: FrameInfo) -> bool {
    &&& item.data@ == frame.data
    &&& item.width == frame.width
    &&& item.height == frame.height
    &&& item.coded_width == frame.coded_width
    &&& item.coded_height == frame.coded_height
    &&& item.bit_depth == frame.bit_depth
}

/// Everything that a container declares beside the color frame.
#[derive(Clone, Copy, Debug)]
pub struct Container<'a> {
    pub format: Av2Format,
    pub color: Av2Color<'a>,
    pub alpha: Option<AlphaItem<'a>>,
    pub exif: Option<&'a [u8]>,
    pub orientation: Orientation,
    pub clli: Option<ContentLightLevel>,
}

/// Color description of a frame: its code points, beside the profile where
/// there is one.
pub open spec fn container_color<'a>(frame: FrameInfo, icc: Option<&'a [u8]>) -> Av2Color<'a> {
    match icc {
        Some(icc) => (Av2Color::Both { cicp: frame.color, icc }),
        None => Av2Color::Cicp(frame.color),
    }
}

impl Av2Encoder {
    /// Describe a frame for a container.
    pub fn wrap_avif<'a>(
        frame: &Av2Frame,
        icc_profile: Option<&'a [u8]>,
        exif: Option<&'a [u8]>,
        orientation: Orientation,
        clli: Option<ContentLightLevel>,
    ) -> (c: Container<'a>)
        ensures
            c == (Container {
                format: container_format(frame.info()),
                color: container_color(frame.info(), icc_profile),
                alpha: None,
                exif,
                orientation,
                clli,
            }),
    {
        let f = frame.chroma_format;
        let format = Av2Format {
            bit_depth: frame.bit_depth,
            monochrome: f == ChromaFormat::Monochrome,
            chroma_sub_x: f == ChromaFormat::Yuv422 || f == ChromaFormat::Yuv420,
            chroma_sub_y: f == ChromaFormat::Yuv420,
        };
        let color = match icc_profile {
            Some(icc) => Av2Color::Both { cicp: frame.color, icc },
            None => Av2Color::Cicp(frame.color),
        };
        Container { format, color, alpha: None, exif, orientation, clli }
    }

    /// Describe a frame and the alpha item that goes with it.
    pub fn wrap_avif_alpha<'a>(
        frame: &Av2Frame,
        alpha: &'a Av2Frame,
        icc_profile: Option<&'a [u8]>,
        exif: Option<&'a [u8]>,
        orientation: Orientation,
        clli: Option<ContentLightLevel>,
    ) -> (c: Container<'a>)
        ensures
            c == (Container {
                format: container_format(frame.info()),
                color: container_color(frame.info(), icc_profile),
                alpha: c.alpha,
                exif,
                orientation,
                clli,
            }),
            c.alpha matches Some(item) && is_alpha_item(item, alpha.info()),
    {
        let item = AlphaItem {
            data: alpha.data.as_slice(),
            width: alpha.width,
            height: alpha.height,
            coded_width: alpha.coded_width,
            coded_height: alpha.coded_height,
            bit_depth: alpha.bit_depth,
        };
        let plain = Self::wrap_avif(frame, icc_profile, exif, orientation, clli);
        Container { alpha: Some(item), ..plain }
    }
}

/// The units of a side reach the next multiple of eight pixels.
pub proof fn law_units_reach_the_next_block(dim: int)
    requires
        dim >= 0,
    ensures
        dim <= 4 * mi_units(dim) < dim + 8,
        4 * mi_units(dim) % 8 == 0,
{
}

/// A frame is coded at its own size where both its sides end in the second half of a
/// superblock or with one; the extent is that of the width, then of the height.
pub proof fn law_native_frames_end_in_a_second_half(width: int, height: int)
    requires
        0 <= width <= 0xffff_ffff,
        0 <= height <= 0xffff_ffff,
    ensures
        ({
            let safe = |n: int| ((n + 7) / 8 * 8) % 64 == 0 || ((n + 7) / 8 * 8) % 64 > 32;
            &&& native_extent(width, height) is Some <==> safe(width) && safe(height)
            &&& native_extent(width, height) matches Some((w, h)) ==> 4 * w == (width + 7) / 8 * 8
                && 4 * h == (height + 7) / 8 * 8
        }),
{
}

/// The header gives the size of the picture for lossless and for 4:2:0 frames and
/// for those coded at their own size, and the padded size for all others.
pub proof fn law_other_frames_signal_the_padded_size(
    config: Config,
    size: (usize, usize),
    padded: (usize, usize),
)
    ensures
        config.lossless ==> signaled_size(config, size, padded) == size,
        config.layout == Layout::I420 ==> signaled_size(config, size, padded) == size,
        native_extent(size.0 as int, size.1 as int) is Some ==> signaled_size(config, size, padded)
            == size,
        !config.lossless && config.layout != Layout::I420 && native_extent(
            size.0 as int,
            size.1 as int,
        ) is None ==> signaled_size(config, size, padded) == padded,
{
}

/// The container declares the sampling of the chroma format: none for gray, both
/// halved for 4:2:0, only the columns for 4:2:2, and neither for 4:4:4; and the
/// bit depth of the frame.
pub proof fn law_container_declares_the_sampling(frame: FrameInfo)
    ensures
        ({
            let f = container_format(frame);
            &&& f.bit_depth == frame.bit_depth
            &&& f.monochrome <==> frame.chroma_format == ChromaFormat::Monochrome
            &&& frame.chroma_format == ChromaFormat::Yuv420 ==> f.chroma_sub_x && f.chroma_sub_y
            &&& frame.chroma_format == ChromaFormat::Yuv422 ==> f.chroma_sub_x && !f.chroma_sub_y
            &&& frame.chroma_format == ChromaFormat::Yuv444 ==> !f.chroma_sub_x && !f.chroma_sub_y
            &&& frame.chroma_format == ChromaFormat::Monochrome ==> !f.chroma_sub_x
                && !f.chroma_sub_y
        }),
{
}

/// The container always declares the color description of the frame, and the
/// profile beside it where there is one.
pub proof fn law_container_keeps_color_and_profile<'a>(frame: FrameInfo, icc: Option<&'a [u8]>)
    ensures
        icc matches Some(p) ==> container_color(frame, icc) == (Av2Color::Both {
            cicp: frame.color,
            icc: p,
        }),
        icc is None ==> container_color(frame, icc) == Av2Color::<'a>::Cicp(frame.color),
{
}

/// Layouts and chroma formats name each other.
pub proof fn law_formats_follow_layouts(a: Layout, b: Layout)
    ensures
        format_of(a) == format_of(b) ==> a == b,
        format_of(a) == ChromaFormat::Monochrome <==> a == Layout::Monochrome,
        format_of(a) == ChromaFormat::Yuv420 <==> a == Layout::I420,
        format_of(a) == ChromaFormat::Yuv422 <==> a == Layout::I422,
{
}

/// Offsets of U and V are declared for their own planes, and none for luma.
pub proof fn law_offsets_stay_with_their_plane(
    config: Config,
    u: Option<CcsoPlane>,
    v: Option<CcsoPlane>,
    out: Config,
)
    requires
        is_with_ccso(config, u, v, out),
        u is Some || v is Some,
    ensures
        out.ccso is Some,
        ({
            let c = out.ccso->0;
            &&& !c.enable@[0] && c.planes@[0] is None
            &&& c.enable@[1] == u is Some && c.planes@[1] == u
            &&& c.enable@[2] == v is Some && c.planes@[2] == v
        }),
        out.base_q == config.base_q && out.lossless == config.lossless && out.layout
            == config.layout && out.bit_depth == config.bit_depth,
{
}

/// The alpha item of a container is the alpha frame: its data, its size and its bit
/// depth.
pub proof fn law_alpha_item_is_the_alpha_frame(item: AlphaItem, frame: FrameInfo)
    requires
        is_alpha_item(item, frame),
    ensures
        item.data@ == frame.data,
        (item.width, item.height) == (frame.width, frame.height),
        (item.coded_width, item.coded_height) == (frame.coded_width, frame.coded_height),
        item.bit_depth == frame.bit_depth,
{
}

/// The tile data follows the frame header.
pub proof fn law_tile_data_follows_the_header(
    config: Config,
    width: nat,
    height: nat,
    tiles: (nat, nat, nat),
    tile_data: Seq<u8>,
)
    ensures
        ({
            let p = frame_payload(config, width, height, tiles, tile_data);
            let n = headers::frame_header_bits(
                &config,
                width,
                height,
                tiles.0,
                tiles.1,
                tiles.2,
            ).len() as int / 8;
            &&& p.len() == n + tile_data.len()
            &&& p.skip(n) == tile_data
        }),
{
    let h = bits::bits_bytes(
        headers::frame_header_bits(&config, width, height, tiles.0, tiles.1, tiles.2),
    );
    let p = frame_payload(config, width, height, tiles, tile_data);
    assert(p.skip(h.len() as int) =~= tile_data);
}

} // verus!
