//! OBU framing and the uncompressed sequence and frame headers.

use crate::bits;
use crate::bits::ByteWriter;
use crate::layout::Layout;
use crate::num;
use vstd::arithmetic::power2::*;
use vstd::prelude::*;

verus! {

/// Optional guided-deblock-filter parameters.
#[derive(Clone, Copy, Debug, PartialEq, Eq)]
pub struct GuidedDeblock {
    pub qp_offset: u32,
    pub scale_minus_one: u32,
}

/// CCSO (cross-component sample offset) parameters of one plane.
#[derive(Debug)]
pub struct CcsoPlane {
    /// `false` is the edge-classified mode, `true` the band-offset-only mode.
    pub bo_only: bool,
    pub scale_idx: u8,
    pub quant_idx: u8,
    pub ext_filter_support: u8,
    pub edge_clf: u8,
    pub max_band_log2: u8,
    /// Raw offset per table entry: entry `16 * band` in the band-offset-only
    /// mode, entry `16 * band + 4 * c0 + c1` in the edge mode.
    pub offsets: Vec<i32>,
}

/// CCSO parameters of a frame.
#[derive(Debug)]
pub struct CcsoConfig {
    /// Per-plane enable: index 0 is Y, 1 is U, 2 is V.
    pub enable: [bool; 3],
    /// Per-plane parameters, present where the plane is enabled.
    pub planes: [Option<CcsoPlane>; 3],
}

/// Encoder configuration shared by the header builders.
#[derive(Debug)]
pub struct Config {
    pub layout: Layout,
    pub base_q: u32,
    pub deblock: bool,
    pub db_apply: (bool, bool, bool, bool),
    pub db_delta: (i32, i32, i32, i32),
    pub tx_switchable: bool,
    pub guided_deblock: Option<GuidedDeblock>,
    /// In-loop CDEF: luma strength, chroma strength, damping.
    pub cdef: Option<(u8, u8, u8)>,
    /// CCSO (cross-component sample offset).
    pub ccso: Option<CcsoConfig>,
    /// Coded bit depth: 8, 10 or 12.
    pub bit_depth: u8,
    pub lossless: bool,
    pub cfl: bool,
    pub updating_cdf: bool,
    pub aq: bool,
    pub aq_res_log2: u8,
}

/// The base-128 digits of `v`, least significant first, with the continuation
/// flag on every digit but the last.
pub open spec fn leb128_bytes(v: nat) -> Seq<u8>
    decreases v,
{
    if v < 128 {
        seq![v as u8]
    } else {
        seq![(v % 128 + 128) as u8] + leb128_bytes(v / 128)
    }
}

/// What a reader takes for a length at the front of `s`: the value and the
/// number of bytes it spans.
pub open spec fn read_leb128(s: Seq<u8>) -> (nat, nat)
    decreases s.len(),
{
    if s.len() == 0 {
        (0, 0)
    } else if s[0] < 128 {
        (s[0] as nat, 1)
    } else {
        let (v, n) = read_leb128(s.drop_first());
        ((s[0] - 128) as nat + 128 * v, n + 1)
    }
}

/// A coded length reads back as the value written, whatever follows it.
pub proof fn law_leb128_round_trip(v: nat, rest: Seq<u8>)
    ensures
        read_leb128(leb128_bytes(v) + rest) == (v, leb128_bytes(v).len()),
    decreases v,
{
    let s = leb128_bytes(v) + rest;
    if v >= 128 {
        law_leb128_round_trip(v / 128, rest);
        assert(s.drop_first() =~= leb128_bytes(v / 128) + rest);
        assert(s[0] == (v % 128 + 128) as u8);
    } else {
        assert(s[0] == v as u8);
    }
}

/// The bytes of an OBU: size, header byte, payload.
pub open spec fn obu_bytes(obu_type: u8, payload: Seq<u8>) -> Seq<u8> {
    leb128_bytes(payload.len() + 1) + seq![((4 * obu_type) % 256) as u8] + payload
}

/// An OBU in a stream can be cut out by its size field: the size counts the
/// header byte and the payload, and what follows the OBU starts right after.
pub proof fn law_obu_is_self_delimiting(obu_type: u8, payload: Seq<u8>, rest: Seq<u8>)
    ensures
        ({
            let s = obu_bytes(obu_type, payload) + rest;
            let (size, n) = read_leb128(s);
            &&& size == payload.len() + 1
            &&& s.subrange(n as int + 1, n as int + size) == payload
            &&& s.skip(n as int + size) == rest
        }),
{
    let s = obu_bytes(obu_type, payload) + rest;
    let head = leb128_bytes(payload.len() + 1);
    let tail = seq![((4 * obu_type) % 256) as u8] + payload + rest;
    assert(s =~= head + tail);
    law_leb128_round_trip(payload.len() + 1, tail);
    let n = head.len();
    assert(s.subrange(n as int + 1, n as int + payload.len() + 1) =~= payload);
    assert(s.skip(n as int + payload.len() + 1) =~= rest);
}

/// LEB128-encode an unsigned value.
pub fn leb128(value: u64) -> (out: Vec<u8>)
    ensures
        out@ == leb128_bytes(value as nat),
{
    let mut out: Vec<u8> = Vec::new();
    let mut rest: u64 = value;
    while rest >= 128
        invariant
            out@ + leb128_bytes(rest as nat) == leb128_bytes(value as nat),
        decreases rest,
    {
        let ghost before = out@;
        let byte: u8 = (rest % 128 + 128) as u8;
        out.push(byte);
        proof {
            let tail = leb128_bytes((rest / 128) as nat);
            assert(leb128_bytes(rest as nat) == seq![byte] + tail);
            assert(before.push(byte) + tail =~= before + (seq![byte] + tail));
        }
        rest = rest / 128;
    }
    let ghost before = out@;
    out.push(rest as u8);
    assert(out@ =~= before + leb128_bytes(rest as nat));
    out
}

/// Wrap a payload in an OBU with a size field.
pub fn obu(obu_type: u8, payload: &[u8]) -> (out: Vec<u8>)
    ensures
        out@ == obu_bytes(obu_type, payload@),
{
    let header: u8 = ((obu_type as u32 * 4) % 256) as u8;
    let mut body: Vec<u8> = Vec::new();
    body.push(header);
    let mut i: usize = 0;
    while i < payload.len()
        invariant
            i <= payload@.len(),
            body@ == seq![header] + payload@.take(i as int),
        decreases payload@.len() - i,
    {
        body.push(payload[i]);
        i = i + 1;
        assert(payload@.take(i as int) =~= payload@.take(i - 1).push(payload@[i - 1]));
    }
    assert(payload@.take(payload@.len() as int) =~= payload@);
    let mut out: Vec<u8> = leb128(body.len() as u64);
    out.append(&mut body);
    assert(out@ =~= obu_bytes(obu_type, payload@));
    out
}

/// `n` one bits.
pub open spec fn one_bits(n: nat) -> Seq<bool> {
    Seq::new(n, |i: int| true)
}

/// A one-bit field that is present only under a condition.
pub open spec fn bit_if(present: bool, bit: bool) -> Seq<bool> {
    if present {
        seq![bit]
    } else {
        Seq::empty()
    }
}

/// The least `k` with `2^k >= n`.
pub open spec fn ceil_log2(n: nat) -> nat {
    if n <= 1 {
        0
    } else {
        num::bitlen((n - 1) as nat)
    }
}

/// `ceil_log2(n)` is the least exponent that reaches `n`.
pub proof fn lemma_ceil_log2(n: nat)
    requires
        n >= 1,
    ensures
        pow2(ceil_log2(n)) >= n,
        ceil_log2(n) > 0 ==> pow2((ceil_log2(n) - 1) as nat) < n,
{
    lemma2_to64();
    if n > 1 {
        num::lemma_bitlen_bounds((n - 1) as nat);
    }
}

// ---------------------------------------------------------------------------
// Sequence header
// ---------------------------------------------------------------------------

/// Code of a bit depth: 10 bits are coded 0, 8 bits 1, 12 bits 2.
pub open spec fn bit_depth_code(bit_depth: u8) -> nat {
    if bit_depth == 10 {
        0
    } else if bit_depth == 12 {
        2
    } else {
        1
    }
}

/// Bits that a dimension takes in the sequence header: `dim - 1` needs them,
/// and at least one is written.
pub open spec fn dimension_width(dim: nat) -> nat {
    if dim <= 1 {
        1
    } else {
        num::bitlen((dim - 1) as nat)
    }
}

/// Frame size: the two field widths less one, then the two sizes less one.
pub open spec fn dimension_bits(width: nat, height: nat) -> Seq<bool> {
    let wb = dimension_width(width);
    let hb = dimension_width(height);
    bits::value_bits((wb - 1) as nat, 4) + bits::value_bits((hb - 1) as nat, 4)
        + bits::value_bits((width - 1) as nat, wb) + bits::value_bits((height - 1) as nat, hb)
}

/// Start of the sequence header: sequence id 0, profile, single-picture flag,
/// level 31 (unconstrained), layout and bit depth.
pub open spec fn sequence_id_bits(layout: Layout, bit_depth: u8) -> Seq<bool> {
    bits::uvlc_bits(0) + bits::value_bits(layout.profile_idc(), 5) + seq![true] + bits::value_bits(
        31,
        5,
    ) + bits::uvlc_bits(layout.code()) + bits::uvlc_bits(bit_depth_code(bit_depth))
}

/// No cropping, 64x64 superblocks, and no partition, segmentation or intra
/// tool but chroma-from-luma, whose flag comes last; then, with chroma, its
/// downsampling filter 0.
pub open spec fn intra_tool_bits(chroma: bool, cfl: bool) -> Seq<bool> {
    bits::zero_bits(3) + bit_if(chroma, false) + bits::zero_bits(7) + seq![cfl] + bits::zero_bits(
        if chroma {
            2
        } else {
            0
        },
    )
}

/// Neither multi-hypothesis prediction nor boundary prediction, the reference
/// configuration, no transform tool, and one quantizer for AC and DC. With
/// chroma the base chroma offset 23 stands for a delta of zero.
pub open spec fn transform_tool_bits(chroma: bool) -> Seq<bool> {
    bits::zero_bits(3) + seq![true] + bits::uniform_bits(0, 3) + bits::zero_bits(6) + bit_if(
        chroma,
        false,
    ) + bits::zero_bits(1) + bit_if(chroma, false) + bits::zero_bits(2) + bit_if(chroma, false)
        + seq![true] + if chroma {
        bits::value_bits(23, 5) + seq![false]
    } else {
        Seq::empty()
    }
}

/// In-loop filter tools: loop filters may cross tiles, the CDEF flag, guided
/// deblocking, no restoration, and CCSO in units of one superblock.
pub open spec fn filter_tool_bits(cdef: bool, guided: bool, ccso: bool) -> Seq<bool> {
    seq![false, cdef, guided] + bit_if(guided, false) + seq![false, ccso] + bit_if(ccso, true)
        + bits::zero_bits(5)
}

/// All syntax elements of the sequence header.
pub open spec fn sequence_header_syntax(config: &Config, width: nat, height: nat) -> Seq<bool> {
    let chroma = config.layout != Layout::Monochrome;
    sequence_id_bits(config.layout, config.bit_depth) + dimension_bits(width, height)
        + intra_tool_bits(chroma, config.cfl) + transform_tool_bits(chroma) + filter_tool_bits(
        config.cdef is Some,
        config.guided_deblock is Some,
        config.ccso is Some,
    )
}

/// The sequence header with its trailing one bit and zero padding.
pub open spec fn sequence_header_bits(config: &Config, width: nat, height: nat) -> Seq<bool> {
    let s = sequence_header_syntax(config, width, height);
    s.push(true) + bits::zero_bits(bits::padding(s.len() + 1))
}

fn write_sequence_id(b: &mut ByteWriter, layout: Layout, bit_depth: u8)
    requires
        old(b).wf(),
    ensures
        final(b).wf(),
        final(b)@ == old(b)@ + sequence_id_bits(layout, bit_depth),
{
    b.write_uvlc(0);
    b.write_bits(layout.profile(), 5);
    b.write_bit(1);
    b.write_bits(31, 5);
    b.write_uvlc(layout.header_uvlc());
    let depth_code: u32 = match bit_depth {
        10 => 0,
        12 => 2,
        _ => 1,
    };
    b.write_uvlc(depth_code);
    assert(b@ =~= old(b)@ + sequence_id_bits(layout, bit_depth));
}

/// Bits of the field that holds `dim - 1`.
fn dimension_field_width(dim: u32) -> (n: u32)
    requires
        dim >= 1,
    ensures
        n == dimension_width(dim as nat),
        1 <= n <= 32,
{
    if dim == 1 {
        1
    } else {
        proof {
            num::lemma_bitlen_bounds((dim - 1) as nat);
        }
        num::bit_length(dim - 1)
    }
}

fn write_dimensions(b: &mut ByteWriter, width: u32, height: u32)
    requires
        old(b).wf(),
        width >= 1,
        height >= 1,
    ensures
        final(b).wf(),
        final(b)@ == old(b)@ + dimension_bits(width as nat, height as nat),
{
    let width_bits: u32 = dimension_field_width(width);
    let height_bits: u32 = dimension_field_width(height);
    b.write_bits(width_bits - 1, 4);
    b.write_bits(height_bits - 1, 4);
    b.write_bits(width - 1, width_bits);
    b.write_bits(height - 1, height_bits);
    assert(b@ =~= old(b)@ + dimension_bits(width as nat, height as nat));
}

/// Append a flag.
fn write_flag(b: &mut ByteWriter, flag: bool)
    requires
        old(b).wf(),
    ensures
        final(b).wf(),
        final(b)@ == old(b)@.push(flag),
{
    if flag {
        b.write_bit(1);
    } else {
        b.write_bit(0);
    }
}

fn write_intra_tools(b: &mut ByteWriter, chroma: bool, cfl: bool)
    requires
        old(b).wf(),
    ensures
        final(b).wf(),
        final(b)@ == old(b)@ + intra_tool_bits(chroma, cfl),
{
    b.write_zeros(3);
    if chroma {
        b.write_bit(0);
    }
    b.write_zeros(7);
    write_flag(b, cfl);
    if chroma {
        b.write_zeros(2);
    }
    assert(b@ =~= old(b)@ + intra_tool_bits(chroma, cfl));
}

fn write_transform_tools(b: &mut ByteWriter, chroma: bool)
    requires
        old(b).wf(),
    ensures
        final(b).wf(),
        final(b)@ == old(b)@ + transform_tool_bits(chroma),
{
    b.write_zeros(3);
    b.write_bit(1);
    proof {
        lemma2_to64();
        num::lemma_bitlen_upper(3, 2);
        num::lemma_bitlen_lower(3, 1);
    }
    b.write_uniform(0, 3);
    b.write_zeros(6);
    if chroma {
        b.write_bit(0);
    }
    b.write_zeros(1);
    if chroma {
        b.write_bit(0);
    }
    b.write_zeros(2);
    if chroma {
        b.write_bit(0);
    }
    b.write_bit(1);
    if chroma {
        b.write_bits(23, 5);
        b.write_bit(0);
    }
    assert(b@ =~= old(b)@ + transform_tool_bits(chroma));
}

fn write_filter_tools(b: &mut ByteWriter, cdef: bool, guided: bool, ccso: bool)
    requires
        old(b).wf(),
    ensures
        final(b).wf(),
        final(b)@ == old(b)@ + filter_tool_bits(cdef, guided, ccso),
{
    b.write_bit(0);
    write_flag(b, cdef);
    write_flag(b, guided);
    if guided {
        b.write_bit(0);
    }
    b.write_bit(0);
    write_flag(b, ccso);
    if ccso {
        b.write_bit(1);
    }
    b.write_zeros(5);
    assert(b@ =~= old(b)@ + filter_tool_bits(cdef, guided, ccso));
}

/// The bytes of a writer that stopped at a byte boundary hold all its bits.
fn whole_bytes(b: ByteWriter) -> (out: Vec<u8>)
    requires
        b.wf(),
        b@.len() % 8 == 0,
    ensures
        bits::bytes_bits(out@) == b@,
{
    assert(b@.take(8 * (b@.len() / 8) as int) =~= b@);
    b.into_bytes()
}

/// Build the sequence header OBU payload.
pub fn sequence_header(config: &Config, width: u32, height: u32) -> (out: Vec<u8>)
    requires
        width >= 1,
        height >= 1,
    ensures
        bits::bytes_bits(out@) == sequence_header_bits(config, width as nat, height as nat),
{
    let chroma: bool = config.layout.has_chroma();
    let mut b = ByteWriter::new();
    write_sequence_id(&mut b, config.layout, config.bit_depth);
    write_dimensions(&mut b, width, height);
    write_intra_tools(&mut b, chroma, config.cfl);
    write_transform_tools(&mut b, chroma);
    write_filter_tools(
        &mut b,
        config.cdef.is_some(),
        config.guided_deblock.is_some(),
        config.ccso.is_some(),
    );
    assert(b@ =~= sequence_header_syntax(config, width as nat, height as nat));
    b.align_with_one();
    whole_bytes(b)
}

/// A reader that knows the two field widths gets both dimensions back. The
/// field widths are four bits wide, so this holds up to 65536 in each direction.
pub proof fn law_dimensions_round_trip(width: nat, height: nat, rest: Seq<bool>)
    requires
        1 <= width <= 0x10000,
        1 <= height <= 0x10000,
    ensures
        ({
            let s = dimension_bits(width, height) + rest;
            let wb = bits::bits_value(s.subrange(0, 4)) as int + 1;
            let hb = bits::bits_value(s.subrange(4, 8)) as int + 1;
            &&& bits::bits_value(s.subrange(8, 8 + wb)) + 1 == width
            &&& bits::bits_value(s.subrange(8 + wb, 8 + wb + hb)) + 1 == height
        }),
{
    lemma2_to64();
    let s = dimension_bits(width, height) + rest;
    let wb = dimension_width(width);
    let hb = dimension_width(height);
    if width > 1 {
        num::lemma_bitlen_bounds((width - 1) as nat);
        num::lemma_bitlen_upper((width - 1) as nat, 16);
    }
    if height > 1 {
        num::lemma_bitlen_bounds((height - 1) as nat);
        num::lemma_bitlen_upper((height - 1) as nat, 16);
    }
    bits::lemma_value_bits_round_trip((wb - 1) as nat, 4);
    bits::lemma_value_bits_round_trip((hb - 1) as nat, 4);
    bits::lemma_value_bits_round_trip((width - 1) as nat, wb);
    bits::lemma_value_bits_round_trip((height - 1) as nat, hb);
    assert(s.subrange(0, 4) =~= bits::value_bits((wb - 1) as nat, 4));
    assert(s.subrange(4, 8) =~= bits::value_bits((hb - 1) as nat, 4));
    assert(s.subrange(8, 8 + wb as int) =~= bits::value_bits((width - 1) as nat, wb));
    assert(s.subrange(8 + wb as int, 8 + wb as int + hb) =~= bits::value_bits(
        (height - 1) as nat,
        hb,
    ));
}

// ---------------------------------------------------------------------------
// Frame header
// ---------------------------------------------------------------------------

/// Whether a tile grid given by its two base-2 logarithms has several tiles.
pub open spec fn multi_tile(log2_cols: nat, log2_rows: nat) -> bool {
    log2_cols > 0 || log2_rows > 0
}

/// Largest tile-count exponent along a side of `dim` pixels.
pub open spec fn max_tile_log2(dim: nat) -> nat {
    let sbs = (dim + 63) / 64;
    ceil_log2(if sbs < 64 {
        sbs
    } else {
        64
    })
}

/// One exponent of the tile grid: a one for every step, then a zero unless the
/// exponent is the largest one.
pub open spec fn tile_log2_bits(log2: nat, max_log2: nat) -> Seq<bool> {
    one_bits(log2) + bit_if(log2 < max_log2, false)
}

/// Tile layout: uniform spacing, the two exponents, and with several tiles the
/// width of the tile size fields.
pub open spec fn tile_info_bits(
    width: nat,
    height: nat,
    log2_cols: nat,
    log2_rows: nat,
    tile_size_bytes: nat,
) -> Seq<bool> {
    seq![true] + tile_log2_bits(log2_cols, max_tile_log2(width)) + tile_log2_bits(
        log2_rows,
        max_tile_log2(height),
    ) + if multi_tile(log2_cols, log2_rows) {
        bits::value_bits((tile_size_bytes - 1) as nat, 2)
    } else {
        Seq::empty()
    }
}

/// Quantizer: its index in 8 bits, or 9 for more than 8 bits per sample, no
/// segmentation, no matrices, and the resolution of adaptive quantization.
pub open spec fn quant_bits(config: &Config) -> Seq<bool> {
    let q = if config.lossless {
        0
    } else {
        config.base_q as nat
    };
    bits::value_bits(
        q,
        if config.bit_depth > 8 {
            9
        } else {
            8
        },
    ) + bits::zero_bits(2) + if config.aq && !config.lossless {
        seq![true] + bits::value_bits(config.aq_res_log2 as nat, 2)
    } else {
        seq![false]
    }
}

/// A filter delta that is on: zero in one bit, else a flag and two bits.
pub open spec fn delta_bits(on: bool, delta: int) -> Seq<bool> {
    if !on {
        Seq::empty()
    } else if delta != 0 {
        seq![true] + bits::value_bits(((delta + 2) % 4) as nat, 2)
    } else {
        seq![false]
    }
}

/// Which edges are filtered, and with `uv` which chroma planes.
pub open spec fn deblock_flag_bits(v: bool, h: bool, uv: bool, u: bool, w: bool) -> Seq<bool> {
    seq![v, h] + bit_if(uv, u) + bit_if(uv, w)
}

/// Deblocking: the edge flags, the chroma flags where luma is filtered, and the
/// deltas of what is filtered.
pub open spec fn deblock_bits(config: &Config) -> Seq<bool> {
    if config.deblock {
        let (v, h, u, w) = config.db_apply;
        let (dy0, dy1, du, dv) = config.db_delta;
        let uv = config.layout != Layout::Monochrome && (v || h);
        deblock_flag_bits(v, h, uv, u, w) + delta_bits(v, dy0 as int) + delta_bits(h, dy1 as int)
            + delta_bits(uv && u, du as int) + delta_bits(uv && w, dv as int)
    } else {
        seq![false, false]
    }
}

/// Guided deblocking parameters.
pub open spec fn guided_bits(guided: Option<GuidedDeblock>) -> Seq<bool> {
    match guided {
        Some(g) => seq![false] + bits::value_bits(g.qp_offset as nat, 2) + bits::value_bits(
            g.scale_minus_one as nat,
            2,
        ),
        None => Seq::empty(),
    }
}

/// A CDEF strength: short form below 4, else six bits.
pub open spec fn cdef_strength_bits(s: nat) -> Seq<bool> {
    if s < 4 {
        seq![true] + bits::value_bits(s, 2)
    } else {
        seq![false] + bits::value_bits(s, 6)
    }
}

/// CDEF: damping less three, one strength pair, not on skipped blocks.
pub open spec fn cdef_bits(cdef: Option<(u8, u8, u8)>, chroma: bool) -> Seq<bool> {
    match cdef {
        Some((y, uv, damping)) => bits::value_bits(
            if damping < 3 {
                0
            } else {
                ((damping - 3) % 4) as nat
            },
            2,
        ) + bits::zero_bits(4) + cdef_strength_bits(y as nat) + if chroma {
            cdef_strength_bits(uv as nat)
        } else {
            Seq::empty()
        },
        None => Seq::empty(),
    }
}

/// Place of a raw CCSO offset in the table of codable offsets; what is not in
/// the table counts as zero.
pub open spec fn ccso_offset_index(raw: int) -> nat {
    if raw == 1 {
        1
    } else if raw == -1 {
        2
    } else if raw == 3 {
        3
    } else if raw == -3 {
        4
    } else if raw == 7 {
        5
    } else if raw == -7 {
        6
    } else if raw == -10 {
        7
    } else {
        0
    }
}

/// A CCSO offset in unary, cut at seven ones.
pub open spec fn ccso_offset_bits(raw: int) -> Seq<bool> {
    let k = ccso_offset_index(raw);
    one_bits(k) + bit_if(k < 7, false)
}

/// Entry `i` of an offset table; entries past its end are zero.
pub open spec fn offset_entry(offsets: Seq<i32>, i: int) -> int {
    if 0 <= i < offsets.len() {
        offsets[i] as int
    } else {
        0
    }
}

/// Offsets of the first `bands` bands of one edge class.
pub open spec fn band_offset_bits(offsets: Seq<i32>, class: int, bands: nat) -> Seq<bool>
    decreases bands,
{
    if bands == 0 {
        Seq::empty()
    } else {
        band_offset_bits(offsets, class, (bands - 1) as nat) + ccso_offset_bits(
            offset_entry(offsets, 16 * (bands - 1) + class),
        )
    }
}

/// Offsets of the first `pairs` pairs of edge classes out of `n * n`, row by row.
pub open spec fn edge_offset_bits(offsets: Seq<i32>, n: nat, bands: nat, pairs: nat) -> Seq<bool>
    decreases pairs,
{
    if pairs == 0 {
        Seq::empty()
    } else {
        let j = (pairs - 1) as nat;
        edge_offset_bits(offsets, n, bands, j) + band_offset_bits(
            offsets,
            (4 * (j / n) + j % n) as int,
            bands,
        )
    }
}

/// Edge classes per direction.
pub open spec fn edge_classes(edge_clf: u8) -> nat {
    if edge_clf == 0 {
        3
    } else {
        2
    }
}

/// Parameters of an enabled CCSO plane. The edge classifier is implied where
/// scale 0 meets quantizer 3, whose step is zero.
pub open spec fn ccso_plane_bits(p: CcsoPlane) -> Seq<bool> {
    let bands = pow2(p.max_band_log2 as nat);
    seq![p.bo_only] + bits::value_bits(p.scale_idx as nat, 2) + if p.bo_only {
        bits::value_bits(p.max_band_log2 as nat, 3) + band_offset_bits(p.offsets@, 0, bands)
    } else {
        let n = edge_classes(p.edge_clf);
        bits::value_bits(p.quant_idx as nat, 2) + bits::value_bits(p.ext_filter_support as nat, 3)
            + bit_if(!(p.scale_idx == 0 && p.quant_idx == 3), p.edge_clf % 2 == 1)
            + bits::value_bits(p.max_band_log2 as nat, 2) + edge_offset_bits(
            p.offsets@,
            n,
            bands,
            n * n,
        )
    }
}

/// Flags and parameters of the first `planes` planes.
pub open spec fn ccso_bits(ccso: CcsoConfig, planes: nat) -> Seq<bool>
    decreases planes,
{
    if planes == 0 {
        Seq::empty()
    } else {
        let i = planes - 1;
        ccso_bits(ccso, (planes - 1) as nat) + seq![ccso.enable@[i]] + if ccso.enable@[i] {
            ccso_plane_bits(ccso.planes@[i]->0)
        } else {
            Seq::empty()
        }
    }
}

/// Number of planes of a layout.
pub open spec fn plane_count(chroma: bool) -> nat {
    if chroma {
        3
    } else {
        1
    }
}

/// In-loop filters and transform mode of a lossy frame.
pub open spec fn lossy_bits(config: &Config) -> Seq<bool> {
    let chroma = config.layout != Layout::Monochrome;
    deblock_bits(config) + guided_bits(config.guided_deblock) + cdef_bits(config.cdef, chroma)
        + match config.ccso {
        Some(ccso) => ccso_bits(ccso, plane_count(chroma)),
        None => Seq::empty(),
    } + seq![config.tx_switchable]
}

/// Start of the frame header: a shown key frame of header set 0, and whether
/// the symbol statistics stay as they are.
pub open spec fn frame_start_bits(updating_cdf: bool) -> Seq<bool> {
    seq![true] + bits::uvlc_bits(0) + bits::uvlc_bits(0) + seq![false, false, !updating_cdf]
}

/// End of the frame header: the full transform set, and with several tiles
/// that they all follow in one group.
pub open spec fn frame_tail_bits(multi: bool) -> Seq<bool> {
    bits::zero_bits(2) + bit_if(multi, false)
}

/// All syntax elements of the frame header. A lossless frame codes no filter
/// and no transform mode.
pub open spec fn frame_header_syntax(
    config: &Config,
    width: nat,
    height: nat,
    log2_cols: nat,
    log2_rows: nat,
    tile_size_bytes: nat,
) -> Seq<bool> {
    frame_start_bits(config.updating_cdf) + tile_info_bits(
        width,
        height,
        log2_cols,
        log2_rows,
        tile_size_bytes,
    ) + quant_bits(config) + if config.lossless {
        Seq::empty()
    } else {
        lossy_bits(config)
    } + frame_tail_bits(multi_tile(log2_cols, log2_rows))
}

/// The frame header with its zero padding.
pub open spec fn frame_header_bits(
    config: &Config,
    width: nat,
    height: nat,
    log2_cols: nat,
    log2_rows: nat,
    tile_size_bytes: nat,
) -> Seq<bool> {
    let s = frame_header_syntax(config, width, height, log2_cols, log2_rows, tile_size_bytes);
    s + bits::zero_bits(bits::padding(s.len()))
}

/// What the header syntax can express of one plane's CCSO parameters: scale,
/// quantizer and classifier within their tables, and offsets that can be
/// addressed.
pub open spec fn ccso_plane_valid(p: CcsoPlane) -> bool {
    &&& 16 * pow2(p.max_band_log2 as nat) <= usize::MAX + 1
    &&& !p.bo_only ==> p.scale_idx < 4 && p.quant_idx < 4 && p.edge_clf < 2
}

/// Every coded and enabled plane carries valid parameters.
pub open spec fn ccso_valid(ccso: CcsoConfig, planes: nat) -> bool {
    forall|i: int|
        0 <= i < planes && #[trigger] ccso.enable@[i] ==> ccso.planes@[i] is Some
            && ccso_plane_valid(ccso.planes@[i]->0)
}

/// What the frame header needs of a configuration.
pub open spec fn config_valid(config: &Config) -> bool {
    !config.lossless ==> match config.ccso {
        Some(ccso) => ccso_valid(ccso, plane_count(config.layout != Layout::Monochrome)),
        None => true,
    }
}

/// Smallest exponent whose power of two reaches `n`.
fn ceil_log2_small(n: u32) -> (k: u32)
    ensures
        k == ceil_log2(n as nat),
        k <= 32,
{
    if n <= 1 {
        0
    } else {
        num::bit_length(n - 1)
    }
}

fn write_tile_log2(b: &mut ByteWriter, log2: usize, dim: u32)
    requires
        old(b).wf(),
    ensures
        final(b).wf(),
        final(b)@ == old(b)@ + tile_log2_bits(log2 as nat, max_tile_log2(dim as nat)),
{
    let sbs: u32 = dim / 64 + (if dim % 64 == 0 {
        0
    } else {
        1
    });
    let max_log2: u32 = ceil_log2_small(if sbs < 64 {
        sbs
    } else {
        64
    });
    let mut i: usize = 0;
    while i < log2
        invariant
            i <= log2,
            b.wf(),
            b@ =~= old(b)@ + one_bits(i as nat),
        decreases log2 - i,
    {
        b.write_bit(1);
        i = i + 1;
    }
    if log2 < max_log2 as usize {
        b.write_bit(0);
    }
    assert(b@ =~= old(b)@ + tile_log2_bits(log2 as nat, max_tile_log2(dim as nat)));
}

fn write_tile_info(
    b: &mut ByteWriter,
    width: u32,
    height: u32,
    log2_cols: usize,
    log2_rows: usize,
    tile_size_bytes: usize,
)
    requires
        old(b).wf(),
        multi_tile(log2_cols as nat, log2_rows as nat) ==> tile_size_bytes >= 1,
    ensures
        final(b).wf(),
        final(b)@ == old(b)@ + tile_info_bits(
            width as nat,
            height as nat,
            log2_cols as nat,
            log2_rows as nat,
            tile_size_bytes as nat,
        ),
{
    b.write_bit(1);
    write_tile_log2(b, log2_cols, width);
    write_tile_log2(b, log2_rows, height);
    if log2_cols > 0 || log2_rows > 0 {
        let field: u32 = ((tile_size_bytes - 1) % 4) as u32;
        proof {
            lemma_two_bits((tile_size_bytes - 1) as nat);
        }
        b.write_bits(field, 2);
    }
    assert(b@ =~= old(b)@ + tile_info_bits(
        width as nat,
        height as nat,
        log2_cols as nat,
        log2_rows as nat,
        tile_size_bytes as nat,
    ));
}

/// A two-bit field holds a value modulo four.
proof fn lemma_two_bits(v: nat)
    ensures
        bits::value_bits(v % 4, 2) == bits::value_bits(v, 2),
{
    lemma2_to64();
    let s = bits::value_bits(v % 4, 2);
    let t = bits::value_bits(v, 2);
    assert(s[0] == bits::bit_at(v % 4, 1) && t[0] == bits::bit_at(v, 1));
    assert(s[1] == bits::bit_at(v % 4, 0) && t[1] == bits::bit_at(v, 0));
    assert(((v % 4) / 2) % 2 == (v / 2) % 2);
    assert(((v % 4) / 1) % 2 == (v / 1) % 2);
    assert(s =~= t);
}

fn write_quant(b: &mut ByteWriter, config: &Config)
    requires
        old(b).wf(),
    ensures
        final(b).wf(),
        final(b)@ == old(b)@ + quant_bits(config),
{
    let q: u32 = if config.lossless {
        0
    } else {
        config.base_q
    };
    let q_bits: u32 = if config.bit_depth > 8 {
        9
    } else {
        8
    };
    b.write_bits(q, q_bits);
    b.write_zeros(2);
    if config.aq && !config.lossless {
        b.write_bit(1);
        b.write_bits(config.aq_res_log2 as u32, 2);
    } else {
        b.write_bit(0);
    }
    assert(b@ =~= old(b)@ + quant_bits(config));
}

fn write_delta(b: &mut ByteWriter, on: bool, delta: i32)
    requires
        old(b).wf(),
    ensures
        final(b).wf(),
        final(b)@ == old(b)@ + delta_bits(on, delta as int),
{
    if on {
        if delta != 0 {
            b.write_bit(1);
            let field: u32 = ((delta as i64 + 0x8000_0002) % 4) as u32;
            b.write_bits(field, 2);
        } else {
            b.write_bit(0);
        }
    }
    assert(b@ =~= old(b)@ + delta_bits(on, delta as int));
}

fn write_deblock(b: &mut ByteWriter, config: &Config)
    requires
        old(b).wf(),
    ensures
        final(b).wf(),
        final(b)@ == old(b)@ + deblock_bits(config),
{
    if config.deblock {
        let (v, h, u, w) = config.db_apply;
        let (dy0, dy1, du, dv) = config.db_delta;
        let uv: bool = config.layout.has_chroma() && (v || h);
        write_flag(b, v);
        write_flag(b, h);
        if uv {
            write_flag(b, u);
            write_flag(b, w);
        }
        let ghost flags = deblock_flag_bits(v, h, uv, u, w);
        assert(b@ =~= old(b)@ + flags);
        let ghost d0 = delta_bits(v, dy0 as int);
        let ghost d1 = delta_bits(h, dy1 as int);
        let ghost d2 = delta_bits(uv && u, du as int);
        let ghost d3 = delta_bits(uv && w, dv as int);
        proof {
            lemma_concat5(old(b)@, flags, d0, d1, d2, d3);
        }
        write_delta(b, v, dy0);
        write_delta(b, h, dy1);
        write_delta(b, uv && u, du);
        write_delta(b, uv && w, dv);
    } else {
        b.write_bit(0);
        b.write_bit(0);
        assert(b@ =~= old(b)@ + deblock_bits(config));
    }
}

proof fn lemma_concat5(
    s: Seq<bool>,
    a: Seq<bool>,
    b: Seq<bool>,
    c: Seq<bool>,
    d: Seq<bool>,
    e: Seq<bool>,
)
    ensures
        s + a + b + c + d + e == s + (a + b + c + d + e),
{
    assert(s + a + b + c + d + e =~= s + (a + b + c + d + e));
}

fn write_guided(b: &mut ByteWriter, guided: Option<GuidedDeblock>)
    requires
        old(b).wf(),
    ensures
        final(b).wf(),
        final(b)@ == old(b)@ + guided_bits(guided),
{
    if let Some(g) = guided {
        b.write_bit(0);
        b.write_bits(g.qp_offset, 2);
        b.write_bits(g.scale_minus_one, 2);
    }
    assert(b@ =~= old(b)@ + guided_bits(guided));
}

fn write_cdef_strength(b: &mut ByteWriter, s: u8)
    requires
        old(b).wf(),
    ensures
        final(b).wf(),
        final(b)@ == old(b)@ + cdef_strength_bits(s as nat),
{
    if s < 4 {
        b.write_bit(1);
        b.write_bits(s as u32, 2);
    } else {
        b.write_bit(0);
        b.write_bits(s as u32, 6);
    }
    assert(b@ =~= old(b)@ + cdef_strength_bits(s as nat));
}

fn write_cdef(b: &mut ByteWriter, cdef: Option<(u8, u8, u8)>, chroma: bool)
    requires
        old(b).wf(),
    ensures
        final(b).wf(),
        final(b)@ == old(b)@ + cdef_bits(cdef, chroma),
{
    if let Some((y, uv, damping)) = cdef {
        let field: u32 = if damping < 3 {
            0
        } else {
            (damping as u32 - 3) % 4
        };
        b.write_bits(field, 2);
        b.write_zeros(4);
        write_cdef_strength(b, y);
        if chroma {
            write_cdef_strength(b, uv);
        }
    }
    assert(b@ =~= old(b)@ + cdef_bits(cdef, chroma));
}

fn write_ccso_offset(b: &mut ByteWriter, raw: i32)
    requires
        old(b).wf(),
    ensures
        final(b).wf(),
        final(b)@ == old(b)@ + ccso_offset_bits(raw as int),
{
    let index: u32 = match raw {
        1 => 1,
        -1 => 2,
        3 => 3,
        -3 => 4,
        7 => 5,
        -7 => 6,
        -10 => 7,
        _ => 0,
    };
    let mut i: u32 = 0;
    while i < index
        invariant
            i <= index,
            b.wf(),
            b@ =~= old(b)@ + one_bits(i as nat),
        decreases index - i,
    {
        b.write_bit(1);
        i = i + 1;
    }
    if index < 7 {
        b.write_bit(0);
    }
    assert(b@ =~= old(b)@ + ccso_offset_bits(raw as int));
}

fn write_band_offsets(b: &mut ByteWriter, offsets: &Vec<i32>, class: usize, bands: usize)
    requires
        old(b).wf(),
        class < 16,
        16 * bands <= usize::MAX + 1,
    ensures
        final(b).wf(),
        final(b)@ == old(b)@ + band_offset_bits(offsets@, class as int, bands as nat),
{
    let mut band: usize = 0;
    assert(b@ =~= old(b)@ + band_offset_bits(offsets@, class as int, 0));
    while band < bands
        invariant
            band <= bands,
            16 * bands <= usize::MAX + 1,
            class < 16,
            b.wf(),
            b@ == old(b)@ + band_offset_bits(offsets@, class as int, band as nat),
        decreases bands - band,
    {
        let entry: usize = 16 * band + class;
        let raw: i32 = if entry < offsets.len() {
            offsets[entry]
        } else {
            0
        };
        write_ccso_offset(b, raw);
        band = band + 1;
        assert(b@ =~= old(b)@ + band_offset_bits(offsets@, class as int, band as nat));
    }
}

fn write_edge_offsets(b: &mut ByteWriter, offsets: &Vec<i32>, n: usize, bands: usize)
    requires
        old(b).wf(),
        1 <= n <= 3,
        16 * bands <= usize::MAX + 1,
    ensures
        final(b).wf(),
        final(b)@ == old(b)@ + edge_offset_bits(
            offsets@,
            n as nat,
            bands as nat,
            (n * n) as nat,
        ),
{
    assert(n * n <= 9) by (nonlinear_arith)
        requires
            1 <= n <= 3,
    ;
    let pairs: usize = n * n;
    let mut j: usize = 0;
    assert(b@ =~= old(b)@ + edge_offset_bits(offsets@, n as nat, bands as nat, 0));
    while j < pairs
        invariant
            j <= pairs <= 9,
            1 <= n <= 3,
            16 * bands <= usize::MAX + 1,
            pairs == n * n,
            b.wf(),
            b@ == old(b)@ + edge_offset_bits(offsets@, n as nat, bands as nat, j as nat),
        decreases pairs - j,
    {
        assert(j / n < n) by (nonlinear_arith)
            requires
                j < n * n,
                n >= 1,
        ;
        let class: usize = 4 * (j / n) + j % n;
        write_band_offsets(b, offsets, class, bands);
        j = j + 1;
        assert(b@ =~= old(b)@ + edge_offset_bits(offsets@, n as nat, bands as nat, j as nat));
    }
}

fn write_ccso_plane(b: &mut ByteWriter, p: &CcsoPlane)
    requires
        old(b).wf(),
        ccso_plane_valid(*p),
    ensures
        final(b).wf(),
        final(b)@ == old(b)@ + ccso_plane_bits(*p),
{
    write_flag(b, p.bo_only);
    b.write_bits(p.scale_idx as u32, 2);
    proof {
        lemma2_to64();
        lemma2_to64_rest();
        if p.max_band_log2 > 60 {
            lemma_pow2_strictly_increases(60, p.max_band_log2 as nat);
        }
    }
    let bands: usize = num::pow2_u64(p.max_band_log2 as u32) as usize;
    if p.bo_only {
        b.write_bits(p.max_band_log2 as u32, 3);
        write_band_offsets(b, &p.offsets, 0, bands);
    } else {
        b.write_bits(p.quant_idx as u32, 2);
        b.write_bits(p.ext_filter_support as u32, 3);
        if !(p.scale_idx == 0 && p.quant_idx == 3) {
            b.write_bit(p.edge_clf as u32);
        }
        b.write_bits(p.max_band_log2 as u32, 2);
        let n: usize = if p.edge_clf == 0 {
            3
        } else {
            2
        };
        write_edge_offsets(b, &p.offsets, n, bands);
    }
    assert(b@ =~= old(b)@ + ccso_plane_bits(*p));
}

fn write_ccso(b: &mut ByteWriter, ccso: &CcsoConfig, chroma: bool)
    requires
        old(b).wf(),
        ccso_valid(*ccso, plane_count(chroma)),
    ensures
        final(b).wf(),
        final(b)@ == old(b)@ + ccso_bits(*ccso, plane_count(chroma)),
{
    let planes: usize = if chroma {
        3
    } else {
        1
    };
    let mut i: usize = 0;
    assert(b@ =~= old(b)@ + ccso_bits(*ccso, 0));
    while i < planes
        invariant
            i <= planes <= 3,
            planes == plane_count(chroma),
            ccso_valid(*ccso, plane_count(chroma)),
            b.wf(),
            b@ == old(b)@ + ccso_bits(*ccso, i as nat),
        decreases planes - i,
    {
        let enabled: bool = ccso.enable[i];
        write_flag(b, enabled);
        if enabled {
            assert(ccso.enable@[i as int]);
            if let Some(p) = &ccso.planes[i] {
                write_ccso_plane(b, p);
            }
        }
        i = i + 1;
        assert(b@ =~= old(b)@ + ccso_bits(*ccso, i as nat));
    }
}

fn write_lossy(b: &mut ByteWriter, config: &Config)
    requires
        old(b).wf(),
        config_valid(config),
        !config.lossless,
    ensures
        final(b).wf(),
        final(b)@ == old(b)@ + lossy_bits(config),
{
    let chroma: bool = config.layout.has_chroma();
    let ghost deblock = deblock_bits(config);
    let ghost guided = guided_bits(config.guided_deblock);
    let ghost cdef = cdef_bits(config.cdef, chroma);
    let ghost offsets = match &config.ccso {
        Some(ccso) => ccso_bits(*ccso, plane_count(chroma)),
        None => Seq::empty(),
    };
    proof {
        lemma_concat5(old(b)@, deblock, guided, cdef, offsets, seq![config.tx_switchable]);
    }
    write_deblock(b, config);
    write_guided(b, config.guided_deblock);
    write_cdef(b, config.cdef, chroma);
    if let Some(ccso) = &config.ccso {
        write_ccso(b, ccso, chroma);
    } else {
        assert(b@ =~= b@ + Seq::<bool>::empty());
    }
    let ghost body = b@;
    write_flag(b, config.tx_switchable);
    assert(b@ =~= body + seq![config.tx_switchable]);
}

fn write_frame_start(b: &mut ByteWriter, updating_cdf: bool)
    requires
        old(b).wf(),
    ensures
        final(b).wf(),
        final(b)@ == old(b)@ + frame_start_bits(updating_cdf),
{
    b.write_bit(1);
    b.write_uvlc(0);
    b.write_uvlc(0);
    b.write_bit(0);
    b.write_bit(0);
    write_flag(b, !updating_cdf);
    assert(b@ =~= old(b)@ + frame_start_bits(updating_cdf));
}

fn write_frame_tail(b: &mut ByteWriter, multi: bool)
    requires
        old(b).wf(),
    ensures
        final(b).wf(),
        final(b)@ == old(b)@ + frame_tail_bits(multi),
{
    b.write_zeros(2);
    if multi {
        b.write_bit(0);
    }
    assert(b@ =~= old(b)@ + frame_tail_bits(multi));
}

/// Build the key-frame header OBU payload; the tile data is appended by the
/// caller. `tiles` holds the two grid exponents and the bytes of a tile size.
pub fn frame_header(
    config: &Config,
    width: u32,
    height: u32,
    tiles: (usize, usize, usize),
) -> (out: Vec<u8>)
    requires
        config_valid(config),
        multi_tile(tiles.0 as nat, tiles.1 as nat) ==> tiles.2 >= 1,
    ensures
        bits::bytes_bits(out@) == frame_header_bits(
            config,
            width as nat,
            height as nat,
            tiles.0 as nat,
            tiles.1 as nat,
            tiles.2 as nat,
        ),
{
    let (log2_cols, log2_rows, tile_size_bytes) = tiles;
    let mut b = ByteWriter::new();
    write_frame_start(&mut b, config.updating_cdf);
    assert(b@ =~= frame_start_bits(config.updating_cdf));
    write_tile_info(&mut b, width, height, log2_cols, log2_rows, tile_size_bytes);
    write_quant(&mut b, config);
    if !config.lossless {
        write_lossy(&mut b, config);
    } else {
        assert(b@ =~= b@ + Seq::<bool>::empty());
    }
    write_frame_tail(&mut b, log2_cols > 0 || log2_rows > 0);
    b.align_with_zero();
    whole_bytes(b)
}

/// What a reader takes for a tile exponent at the front of `s`, given the
/// largest one: the exponent and the bits it spans.
pub open spec fn read_tile_log2(s: Seq<bool>, max_log2: nat) -> (nat, nat)
    decreases max_log2,
{
    if max_log2 == 0 || s.len() == 0 {
        (0, 0)
    } else if !s[0] {
        (0, 1)
    } else {
        let (k, n) = read_tile_log2(s.drop_first(), (max_log2 - 1) as nat);
        (k + 1, n + 1)
    }
}

/// A tile exponent within its limit reads back as written, whatever follows.
pub proof fn law_tile_log2_round_trip(log2: nat, max_log2: nat, rest: Seq<bool>)
    requires
        log2 <= max_log2,
    ensures
        read_tile_log2(tile_log2_bits(log2, max_log2) + rest, max_log2) == (
            log2,
            tile_log2_bits(log2, max_log2).len(),
        ),
    decreases log2,
{
    let s = tile_log2_bits(log2, max_log2) + rest;
    if log2 > 0 {
        law_tile_log2_round_trip((log2 - 1) as nat, (max_log2 - 1) as nat, rest);
        assert(s.drop_first() =~= tile_log2_bits((log2 - 1) as nat, (max_log2 - 1) as nat) + rest);
        assert(s[0]);
    } else if max_log2 > 0 {
        assert(!s[0]);
    }
}

// ---------------------------------------------------------------------------
// What a reader finds
// ---------------------------------------------------------------------------

/// Lengths are written lowest digit first, in base 128, and every digit but the last
/// has its highest bit set.
pub proof fn law_lengths_are_written_lowest_digit_first(v: nat)
    ensures
        ({
            let s = leb128_bytes(v);
            &&& s.len() >= 1
            &&& s[0] as int % 128 == v % 128
            &&& s[0] >= 128 <==> v >= 128
            &&& v >= 128 ==> s.drop_first() == leb128_bytes(v / 128)
        }),
    decreases v,
{
    if v >= 128 {
        assert(leb128_bytes(v).drop_first() =~= leb128_bytes(v / 128));
    }
}

/// The rounded-up logarithm of a number is the least whose power of two reaches it.
pub proof fn law_log_is_the_least_that_reaches(n: nat)
    requires
        n >= 1,
    ensures
        n <= pow2(ceil_log2(n)),
        ceil_log2(n) > 0 ==> pow2((ceil_log2(n) - 1) as nat) < n,
{
    lemma2_to64();
    if n > 1 {
        num::lemma_bitlen_bounds((n - 1) as nat);
    }
}

/// The bit depth is coded 1 for 8 bits, 0 for 10 and 2 for 12.
pub proof fn law_bit_depth_codes(bit_depth: u8)
    requires
        bit_depth == 8 || bit_depth == 10 || bit_depth == 12,
    ensures
        bit_depth_code(bit_depth) == 1 <==> bit_depth == 8,
        bit_depth_code(bit_depth) == 0 <==> bit_depth == 10,
        bit_depth_code(bit_depth) == 2 <==> bit_depth == 12,
{
}

/// A reader of the start of a sequence header finds the profile of the layout, then
/// the codes of the layout and of the bit depth.
pub proof fn law_sequence_header_names_the_format(layout: Layout, bit_depth: u8, rest: Seq<bool>)
    ensures
        ({
            let s = sequence_id_bits(layout, bit_depth) + rest;
            let (format, n) = bits::read_uvlc(s.skip(12));
            let (depth, m) = bits::read_uvlc(s.skip(12 + n as int));
            &&& bits::bits_value(s.subrange(1, 6)) == layout.profile_idc()
            &&& format == layout.code()
            &&& depth == bit_depth_code(bit_depth)
            &&& s.skip(12 + n as int + m as int) == rest
        }),
{
    lemma2_to64();
    let s = sequence_id_bits(layout, bit_depth) + rest;
    let (a, b) = (bits::uvlc_bits(layout.code()), bits::uvlc_bits(bit_depth_code(bit_depth)));
    num::lemma_bitlen_lower(1, 0);
    num::lemma_bitlen_upper(1, 1);
    assert(bits::uvlc_bits(0).len() == 1);
    bits::lemma_value_bits_round_trip(layout.profile_idc(), 5);
    assert(s.subrange(1, 6) =~= bits::value_bits(layout.profile_idc(), 5));
    assert(s.skip(12) =~= a + (b + rest));
    bits::law_uvlc_round_trip(layout.code(), b + rest);
    assert(s.skip(12 + a.len() as int) =~= b + rest);
    bits::law_uvlc_round_trip(bit_depth_code(bit_depth), rest);
    assert(s.skip(12 + a.len() as int + b.len() as int) =~= rest);
}

/// A reader of the tool flags finds chroma from luma, the directional filter, the
/// guided filter and the sample offsets each at its own place.
pub proof fn law_tool_flags_are_in_place(
    chroma: bool,
    cfl: bool,
    cdef: bool,
    guided: bool,
    ccso: bool,
)
    ensures
        ({
            let s = intra_tool_bits(chroma, cfl);
            let at: int = if chroma {
                11
            } else {
                10
            };
            &&& s.len() == (if chroma {
                14int
            } else {
                11
            })
            &&& s[at] == cfl
            &&& forall|i: int| 0 <= i < s.len() && i != at ==> !#[trigger] s[i]
        }),
        ({
            let s = filter_tool_bits(cdef, guided, ccso);
            let at: int = if guided {
                5
            } else {
                4
            };
            &&& !s[0]
            &&& s[1] == cdef
            &&& s[2] == guided
            &&& s[at] == ccso
            &&& s.len() == at + (if ccso {
                7int
            } else {
                6
            })
        }),
{
}

/// A reader of the tile description finds the columns, as far as the width allows
/// them, then the rows, as far as the height does, and with several tiles the bytes
/// of their sizes.
pub proof fn law_tile_description_reads_back(
    width: nat,
    height: nat,
    log2_cols: nat,
    log2_rows: nat,
    size_bytes: nat,
    rest: Seq<bool>,
)
    requires
        log2_cols <= max_tile_log2(width),
        log2_rows <= max_tile_log2(height),
        1 <= size_bytes <= 4,
    ensures
        ({
            let s = tile_info_bits(width, height, log2_cols, log2_rows, size_bytes) + rest;
            let (cols, n) = read_tile_log2(s.skip(1), max_tile_log2(width));
            let (rows, m) = read_tile_log2(s.skip(1 + n as int), max_tile_log2(height));
            let at = 1 + n as int + m as int;
            &&& cols == log2_cols
            &&& rows == log2_rows
            &&& cols > 0 || rows > 0 ==> bits::bits_value(s.subrange(at, at + 2)) + 1 == size_bytes
            &&& cols == 0 && rows == 0 ==> s.skip(at) == rest
        }),
{
    lemma2_to64();
    let s = tile_info_bits(width, height, log2_cols, log2_rows, size_bytes) + rest;
    let (a, b) = (
        tile_log2_bits(log2_cols, max_tile_log2(width)),
        tile_log2_bits(log2_rows, max_tile_log2(height)),
    );
    let c = if multi_tile(log2_cols, log2_rows) {
        bits::value_bits((size_bytes - 1) as nat, 2)
    } else {
        Seq::empty()
    };
    assert(s.skip(1) =~= a + (b + (c + rest)));
    law_tile_log2_round_trip(log2_cols, max_tile_log2(width), b + (c + rest));
    assert(s.skip(1 + a.len() as int) =~= b + (c + rest));
    law_tile_log2_round_trip(log2_rows, max_tile_log2(height), c + rest);
    let at = 1 + a.len() as int + b.len() as int;
    if multi_tile(log2_cols, log2_rows) {
        bits::lemma_value_bits_round_trip((size_bytes - 1) as nat, 2);
        assert(s.subrange(at, at + 2) =~= c);
    } else {
        assert(s.skip(at) =~= rest);
    }
}

/// The tiles of a side are limited by its superblocks, rounded up, and by 64.
pub proof fn law_tiles_are_limited(dim: nat, sbs: nat)
    requires
        1 <= sbs,
        64 * (sbs - 1) < dim <= 64 * sbs,
    ensures
        ({
            let most = if sbs < 64 {
                sbs
            } else {
                64
            };
            &&& most <= pow2(max_tile_log2(dim))
            &&& max_tile_log2(dim) > 0 ==> pow2((max_tile_log2(dim) - 1) as nat) < most
        }),
{
    assert((dim + 63) / 64 == sbs);
    law_log_is_the_least_that_reaches(
        if sbs < 64 {
            sbs
        } else {
            64
        },
    );
}

/// A reader of the quantizer finds the index, or 0 where the frame is lossless, in
/// eight bits, nine from 10-bit samples on, and whether superblocks change it, and
/// by which steps.
pub proof fn law_quantizer_reads_back(config: &Config, rest: Seq<bool>)
    requires
        config.base_q < 256,
        config.aq_res_log2 < 4,
    ensures
        ({
            let s = quant_bits(config) + rest;
            let n: int = if config.bit_depth > 8 {
                9
            } else {
                8
            };
            &&& bits::bits_value(s.subrange(0, n)) == if config.lossless {
                0
            } else {
                config.base_q as int
            }
            &&& !s[n] && !s[n + 1]
            &&& s[n + 2] == (config.aq && !config.lossless)
            &&& s[n + 2] ==> bits::bits_value(s.subrange(n + 3, n + 5)) == config.aq_res_log2
                && s.skip(n + 5) == rest
            &&& !s[n + 2] ==> s.skip(n + 3) == rest
        }),
{
    lemma2_to64();
    let s = quant_bits(config) + rest;
    let n: nat = if config.bit_depth > 8 {
        9
    } else {
        8
    };
    let q = if config.lossless {
        0
    } else {
        config.base_q as nat
    };
    bits::lemma_value_bits_round_trip(q, n);
    assert(s.subrange(0, n as int) =~= bits::value_bits(q, n));
    if config.aq && !config.lossless {
        bits::lemma_value_bits_round_trip(config.aq_res_log2 as nat, 2);
        assert(s.subrange(n as int + 3, n as int + 5) =~= bits::value_bits(config.aq_res_log2 as nat, 2));
        assert(s.skip(n as int + 5) =~= rest);
    } else {
        assert(s.skip(n as int + 3) =~= rest);
    }
}

/// A deblocking offset from -2 to 1 reads back: a flag whether there is one, then
/// two more than it in two bits. Where the direction is off nothing is written.
pub proof fn law_deblock_offset_reads_back(delta: int, rest: Seq<bool>)
    requires
        -2 <= delta <= 1,
    ensures
        ({
            let s = delta_bits(true, delta) + rest;
            &&& s[0] <==> delta != 0
            &&& s[0] ==> bits::bits_value(s.subrange(1, 3)) - 2 == delta && s.skip(3) == rest
            &&& !s[0] ==> s.skip(1) == rest
        }),
        delta_bits(false, delta).len() == 0,
{
    lemma2_to64();
    let s = delta_bits(true, delta) + rest;
    if delta != 0 {
        bits::lemma_value_bits_round_trip((delta + 2) as nat, 2);
        assert(s.subrange(1, 3) =~= bits::value_bits((delta + 2) as nat, 2));
        assert(s.skip(3) =~= rest);
    } else {
        assert(s.skip(1) =~= rest);
    }
}

/// A reader of the deblocking flags finds those of the vertical and the horizontal
/// edges of luma first, and those of both chroma planes only where luma is filtered
/// and there is chroma.
pub proof fn law_deblock_flags_are_in_place(config: &Config)
    ensures
        ({
            let s = deblock_bits(config);
            let a = config.db_apply;
            &&& s.len() >= 2
            &&& s[0] == (config.deblock && a.0)
            &&& s[1] == (config.deblock && a.1)
            &&& config.deblock && (a.0 || a.1) && config.layout != Layout::Monochrome ==> s.len()
                >= 4 && s[2] == a.2 && s[3] == a.3
            &&& !config.deblock || (!a.0 && !a.1) ==> s.len() == 2
        }),
{
}

/// A filter strength reads back: a flag for those below 4, which take two bits, and
/// six bits for the others.
pub proof fn law_filter_strength_reads_back(strength: nat, rest: Seq<bool>)
    requires
        strength < 64,
    ensures
        ({
            let s = cdef_strength_bits(strength) + rest;
            let n: int = if s[0] {
                2
            } else {
                6
            };
            &&& s[0] <==> strength < 4
            &&& bits::bits_value(s.subrange(1, 1 + n)) == strength
            &&& s.skip(1 + n) == rest
        }),
{
    lemma2_to64();
    let s = cdef_strength_bits(strength) + rest;
    let n: nat = if strength < 4 {
        2
    } else {
        6
    };
    bits::lemma_value_bits_round_trip(strength, n);
    assert(s.subrange(1, 1 + n as int) =~= bits::value_bits(strength, n));
    assert(s.skip(1 + n as int) =~= rest);
}

/// A reader of the directional filter finds three less than its damping, then its
/// strength for luma and, where there is chroma, that for chroma.
pub proof fn law_directional_filter_reads_back(
    y: u8,
    uv: u8,
    damping: u8,
    chroma: bool,
    rest: Seq<bool>,
)
    requires
        y < 64,
        uv < 64,
        3 <= damping <= 6,
    ensures
        ({
            let s = cdef_bits(Some((y, uv, damping)), chroma) + rest;
            &&& bits::bits_value(s.subrange(0, 2)) + 3 == damping
            &&& s.skip(6) == cdef_strength_bits(y as nat) + (if chroma {
                cdef_strength_bits(uv as nat) + rest
            } else {
                rest
            })
        }),
        cdef_bits(None, chroma).len() == 0,
{
    lemma2_to64();
    let s = cdef_bits(Some((y, uv, damping)), chroma) + rest;
    bits::lemma_value_bits_round_trip((damping - 3) as nat, 2);
    assert(s.subrange(0, 2) =~= bits::value_bits((damping - 3) as nat, 2));
    assert(s.skip(6) =~= cdef_strength_bits(y as nat) + (if chroma {
        cdef_strength_bits(uv as nat) + rest
    } else {
        rest
    }));
}

/// Sample offsets are coded by their place in a row of eight, in unary: as many ones
/// as the place, and a zero but for the last.
pub proof fn law_sample_offsets_are_coded_by_place(k: nat)
    requires
        k < 8,
    ensures
        ({
            let row = seq![0int, 1, -1, 3, -3, 7, -7, -10];
            let s = ccso_offset_bits(row[k as int]);
            &&& ccso_offset_index(row[k as int]) == k
            &&& s.len() == (if k < 7 {
                k + 1
            } else {
                7
            })
            &&& forall|i: int| 0 <= i < k ==> #[trigger] s[i]
            &&& k < 7 ==> !s[k as int]
        }),
{
}

/// A frame header is its start, the tile description, the quantizer and, where the
/// frame is lossy, the filters and whether transforms may change; the start tells
/// whether tables stay as they are. Zeros fill the last byte.
pub proof fn law_frame_header_parts_come_in_order(
    config: &Config,
    width: nat,
    height: nat,
    cols: nat,
    rows: nat,
    size_bytes: nat,
)
    ensures
        ({
            let s = frame_header_bits(config, width, height, cols, rows, size_bytes);
            let tiles = tile_info_bits(width, height, cols, rows, size_bytes);
            let quant = quant_bits(config);
            let at = 6 + tiles.len() as int;
            let after = at + quant.len() as int;
            &&& s[0]
            &&& s[5] == !config.updating_cdf
            &&& s.subrange(6, at) == tiles
            &&& s.subrange(at, after) == quant
            &&& !config.lossless ==> s.subrange(after, after + deblock_bits(config).len() as int)
                == deblock_bits(config)
            &&& s.len() % 8 == 0
        }),
{
    lemma2_to64();
    num::lemma_bitlen_lower(1, 0);
    num::lemma_bitlen_upper(1, 1);
    let s = frame_header_bits(config, width, height, cols, rows, size_bytes);
    let syntax = frame_header_syntax(config, width, height, cols, rows, size_bytes);
    let start = frame_start_bits(config.updating_cdf);
    let tiles = tile_info_bits(width, height, cols, rows, size_bytes);
    let quant = quant_bits(config);
    let at = 6 + tiles.len() as int;
    let after = at + quant.len() as int;
    assert(start.len() == 6);
    assert(start[5] == !config.updating_cdf);
    assert(s[0] == start[0]);
    assert(s[5] == start[5]);
    assert(s.subrange(6, at) =~= tiles);
    assert(s.subrange(at, after) =~= quant);
    if !config.lossless {
        let d = deblock_bits(config);
        assert(lossy_bits(config).take(d.len() as int) =~= d);
        assert(s.subrange(after, after + d.len() as int) =~= d);
    }
    let n = syntax.len();
    assert((n + bits::padding(n)) % 8 == 0);
}

/// A sequence header is its format, the size, and the tools in the order of their use;
/// a one and zeros fill the last byte.
pub proof fn law_sequence_header_parts_come_in_order(config: &Config, width: nat, height: nat)
    ensures
        ({
            let s = sequence_header_bits(config, width, height);
            let chroma = config.layout != Layout::Monochrome;
            let id = sequence_id_bits(config.layout, config.bit_depth);
            let size = dimension_bits(width, height);
            let intra = intra_tool_bits(chroma, config.cfl);
            let transform = transform_tool_bits(chroma);
            let filter = filter_tool_bits(
                config.cdef is Some,
                config.guided_deblock is Some,
                config.ccso is Some,
            );
            let a = id.len() as int;
            let b = a + size.len();
            let c = b + intra.len();
            let d = c + transform.len();
            let e = d + filter.len();
            &&& s.subrange(0, a) == id
            &&& s.subrange(a, b) == size
            &&& s.subrange(b, c) == intra
            &&& s.subrange(c, d) == transform
            &&& s.subrange(d, e) == filter
            &&& s[e]
            &&& s.len() % 8 == 0
        }),
{
    let s = sequence_header_bits(config, width, height);
    let chroma = config.layout != Layout::Monochrome;
    let id = sequence_id_bits(config.layout, config.bit_depth);
    let size = dimension_bits(width, height);
    let intra = intra_tool_bits(chroma, config.cfl);
    let transform = transform_tool_bits(chroma);
    let filter = filter_tool_bits(
        config.cdef is Some,
        config.guided_deblock is Some,
        config.ccso is Some,
    );
    let a = id.len() as int;
    let b = a + size.len();
    let c = b + intra.len();
    let d = c + transform.len();
    let e = d + filter.len();
    assert(s.subrange(0, a) =~= id);
    assert(s.subrange(a, b) =~= size);
    assert(s.subrange(b, c) =~= intra);
    assert(s.subrange(c, d) =~= transform);
    assert(s.subrange(d, e) =~= filter);
    let n = sequence_header_syntax(config, width, height).len() + 1;
    assert((n + bits::padding(n)) % 8 == 0);
}

/// The filters of a lossy frame come in the order of their use, and after them whether
/// transforms may change.
pub proof fn law_filters_come_in_order(config: &Config)
    ensures
        ({
            let s = lossy_bits(config);
            let chroma = config.layout != Layout::Monochrome;
            let (db, guided, cdef) = (
                deblock_bits(config),
                guided_bits(config.guided_deblock),
                cdef_bits(config.cdef, chroma),
            );
            let a = db.len() as int;
            let b = a + guided.len();
            let c = b + cdef.len();
            &&& s.subrange(0, a) == db
            &&& s.subrange(a, b) == guided
            &&& s.subrange(b, c) == cdef
            &&& s.last() == config.tx_switchable
            &&& config.ccso is None ==> s.len() == c + 1
            &&& config.ccso matches Some(ccso) ==> s.subrange(c, s.len() - 1) == ccso_bits(
                ccso,
                if chroma {
                    3
                } else {
                    1
                },
            )
        }),
{
    let s = lossy_bits(config);
    let chroma = config.layout != Layout::Monochrome;
    let (db, guided, cdef) = (
        deblock_bits(config),
        guided_bits(config.guided_deblock),
        cdef_bits(config.cdef, chroma),
    );
    let a = db.len() as int;
    let b = a + guided.len();
    let c = b + cdef.len();
    assert(s.subrange(0, a) =~= db);
    assert(s.subrange(a, b) =~= guided);
    assert(s.subrange(b, c) =~= cdef);
    match config.ccso {
        Some(ccso) => {
            assert(s.subrange(c, s.len() - 1) =~= ccso_bits(ccso, plane_count(chroma)));
        },
        None => {},
    }
}

/// The guided filter is named by its offset, then by its scale, two bits each.
pub proof fn law_guided_filter_reads_back(g: GuidedDeblock)
    requires
        g.qp_offset < 4,
        g.scale_minus_one < 4,
    ensures
        ({
            let s = guided_bits(Some(g));
            &&& s.len() == 5
            &&& !s[0]
            &&& bits::bits_value(s.subrange(1, 3)) == g.qp_offset
            &&& bits::bits_value(s.subrange(3, 5)) == g.scale_minus_one
        }),
        guided_bits(None).len() == 0,
{
    lemma2_to64();
    let s = guided_bits(Some(g));
    bits::lemma_value_bits_round_trip(g.qp_offset as nat, 2);
    bits::lemma_value_bits_round_trip(g.scale_minus_one as nat, 2);
    assert(s.subrange(1, 3) =~= bits::value_bits(g.qp_offset as nat, 2));
    assert(s.subrange(3, 5) =~= bits::value_bits(g.scale_minus_one as nat, 2));
}

/// The offsets of a plane start with the way they are found and their scale. Those by
/// bands then name the bands; those by edges name their threshold, the samples they
/// look at, which edges count, except where only one way is left, and the bands.
pub proof fn law_offset_parameters_read_back(p: CcsoPlane)
    requires
        p.scale_idx < 4,
        p.quant_idx < 4,
        p.ext_filter_support < 8,
        p.max_band_log2 < 4,
        p.edge_clf < 2,
    ensures
        ({
            let s = ccso_plane_bits(p);
            let named = !(p.scale_idx == 0 && p.quant_idx == 3);
            let at: int = if named {
                9
            } else {
                8
            };
            &&& s[0] == p.bo_only
            &&& bits::bits_value(s.subrange(1, 3)) == p.scale_idx
            &&& p.bo_only ==> bits::bits_value(s.subrange(3, 6)) == p.max_band_log2
            &&& !p.bo_only ==> {
                &&& bits::bits_value(s.subrange(3, 5)) == p.quant_idx
                &&& bits::bits_value(s.subrange(5, 8)) == p.ext_filter_support
                &&& named ==> s[8] == (p.edge_clf == 1)
                &&& bits::bits_value(s.subrange(at, at + 2)) == p.max_band_log2
            }
        }),
{
    lemma2_to64();
    let s = ccso_plane_bits(p);
    bits::lemma_value_bits_round_trip(p.scale_idx as nat, 2);
    bits::lemma_value_bits_round_trip(p.quant_idx as nat, 2);
    bits::lemma_value_bits_round_trip(p.ext_filter_support as nat, 3);
    bits::lemma_value_bits_round_trip(p.max_band_log2 as nat, 3);
    assert(s.subrange(1, 3) =~= bits::value_bits(p.scale_idx as nat, 2));
    if p.bo_only {
        assert(s.subrange(3, 6) =~= bits::value_bits(p.max_band_log2 as nat, 3));
    } else {
        bits::lemma_value_bits_round_trip(p.max_band_log2 as nat, 2);
        assert(s.subrange(3, 5) =~= bits::value_bits(p.quant_idx as nat, 2));
        assert(s.subrange(5, 8) =~= bits::value_bits(p.ext_filter_support as nat, 3));
        let at: int = if !(p.scale_idx == 0 && p.quant_idx == 3) {
            9
        } else {
            8
        };
        assert(s.subrange(at, at + 2) =~= bits::value_bits(p.max_band_log2 as nat, 2));
    }
}

/// Offsets of bands are coded band after band, sixteen entries apart; those of edges
/// class after class, of three by three or two by two, each with all its bands.
pub proof fn law_offsets_are_coded_band_by_band(
    offsets: Seq<i32>,
    class: int,
    bands: nat,
    pairs: nat,
)
    requires
        offsets.len() > 16 * bands + class,
        0 <= class,
    ensures
        band_offset_bits(offsets, class, 0).len() == 0,
        band_offset_bits(offsets, class, bands + 1) == band_offset_bits(offsets, class, bands)
            + ccso_offset_bits(offsets[16 * bands + class] as int),
        edge_offset_bits(offsets, 3, bands, 0).len() == 0,
        edge_offset_bits(offsets, 3, bands, pairs + 1) == edge_offset_bits(offsets, 3, bands, pairs)
            + band_offset_bits(offsets, (4 * (pairs / 3) + pairs % 3) as int, bands),
        edge_offset_bits(offsets, 2, bands, pairs + 1) == edge_offset_bits(offsets, 2, bands, pairs)
            + band_offset_bits(offsets, (4 * (pairs / 2) + pairs % 2) as int, bands),
        edge_classes(0) == 3,
        edge_classes(1) == 2,
{
}

} // verus!
