//! Luma palettes: an exact palette of a block, and its syntax elements.

use crate::entropy;
use crate::entropy::RangeEncoder;
use crate::plane;
use vstd::prelude::*;

verus! {

/// Inverse probabilities of the palette sizes 2 to 8.
pub const PALETTE_SIZE_CDF: [u16; 6] = [23989, 17673, 11991, 7865, 4845, 2365];

/// Inverse probabilities of the color indices per palette size and context.
pub const PALETTE_COLOR_CDF: [[[u16; 7]; 5]; 7] = [
    [
        [4628, 0, 0, 0, 0, 0, 0],
        [16384, 0, 0, 0, 0, 0, 0],
        [24186, 0, 0, 0, 0, 0, 0],
        [5355, 0, 0, 0, 0, 0, 0],
        [2339, 0, 0, 0, 0, 0, 0],
    ],
    [
        [7418, 3742, 0, 0, 0, 0, 0],
        [21405, 7495, 0, 0, 0, 0, 0],
        [25927, 4189, 0, 0, 0, 0, 0],
        [11418, 6756, 0, 0, 0, 0, 0],
        [2195, 1122, 0, 0, 0, 0, 0],
    ],
    [
        [9062, 5806, 3708, 0, 0, 0, 0],
        [22792, 10252, 5386, 0, 0, 0, 0],
        [26077, 7308, 3534, 0, 0, 0, 0],
        [13859, 8843, 4365, 0, 0, 0, 0],
        [2460, 1692, 950, 0, 0, 0, 0],
    ],
    [
        [8652, 5811, 4282, 2827, 0, 0, 0],
        [23200, 12296, 8474, 3826, 0, 0, 0],
        [27062, 7525, 4728, 2362, 0, 0, 0],
        [12663, 9786, 5744, 3857, 0, 0, 0],
        [1871, 1426, 1002, 569, 0, 0, 0],
    ],
    [
        [11944, 8541, 6842, 5309, 3502, 0, 0],
        [24627, 13779, 11169, 6586, 4192, 0, 0],
        [27516, 8428, 6318, 4330, 2143, 0, 0],
        [13249, 10073, 7181, 5796, 4345, 0, 0],
        [2385, 1878, 1521, 1115, 618, 0, 0],
    ],
    [
        [11140, 8256, 6895, 5714, 4637, 3229, 0],
        [24740, 14504, 12155, 7344, 5656, 3862, 0],
        [26279, 10526, 8307, 6374, 4418, 2258, 0],
        [10720, 8339, 5778, 4824, 4351, 3194, 0],
        [1967, 1563, 1296, 1040, 763, 463, 0],
    ],
    [
        [10297, 7685, 6784, 5875, 5114, 4018, 2865],
        [25226, 15711, 13617, 9218, 7309, 5702, 3964],
        [25186, 12331, 10040, 8146, 6253, 4189, 2136],
        [10666, 8624, 5852, 4617, 3922, 3556, 2615],
        [2244, 1881, 1612, 1375, 1142, 857, 487],
    ],
];

/// The palette of one coding block. The colors are kept sorted, so each map
/// entry is also the index used by the decoder.
#[derive(Debug)]
pub struct LumaPalette {
    pub colors: Vec<u16>,
    pub map: Vec<u8>,
    pub width: usize,
    pub height: usize,
}

/// The table row that codes the color indices of a palette.
pub open spec fn color_row(size: int, ctx: int) -> Seq<u16> {
    PALETTE_COLOR_CDF@[size - 2]@[ctx]@
}

/// Table that tells whether a row repeats the one above; the first row of a
/// block has its own.
pub open spec fn row_flag_table(first_row: bool) -> Seq<u16> {
    if first_row {
        seq![19769u16, 12u16]
    } else {
        seq![10253u16, 7017u16]
    }
}

proof fn lemma_color_row(size: int, ctx: int)
    requires
        2 <= size <= 8,
        0 <= ctx < 5,
    ensures
        entropy::icdf_valid(color_row(size, ctx), size - 1),
{
    let t = color_row(size, ctx);
    assert(forall|i: int, j: int| 0 <= i <= j < size - 1 ==> t[j] <= t[i]);
}

proof fn lemma_fixed_codable(range: nat, icdf: Seq<u16>, n: int, s: int)
    requires
        0x8000 <= range < 0x1_0000,
        1 <= n <= 7,
        entropy::icdf_valid(icdf, n),
        0 <= s <= n,
    ensures
        entropy::codable(range, entropy::fixed_table(icdf, s, n), n - 1, s),
{
    let t = entropy::fixed_table(icdf, s, n);
    assert(entropy::icdf_valid(t, n)) by {
        assert(forall|i: int| 0 <= i < n ==> t[i] == icdf[i]);
    }
    entropy::law_every_symbol_codable(range, t, n, s);
}

impl RangeEncoder {
    /// Code whether a block has a palette.
    pub fn sym_palette_y_mode(&mut self, val: usize)
        requires
            old(self).wf(),
            val <= 1,
        ensures
            final(self).wf(),
            final(self).discards() == old(self).discards(),
            final(self)@ == if old(self).discards() {
                old(self)@
            } else {
                entropy::code_symbol(
                    old(self)@,
                    entropy::fixed_table(seq![2723u16], val as int, 1),
                    0,
                    val as int,
                )
            },
    {
        let table: [u16; 1] = [2723];
        proof {
            self.lemma_wf();
            assert(table@ =~= seq![2723u16]);
            lemma_fixed_codable(self@.range, table@, 1, val as int);
        }
        self.sym_static(table.as_slice(), val, 1);
    }

    /// Code the size of a palette.
    pub fn sym_palette_y_size(&mut self, size: usize)
        requires
            old(self).wf(),
            2 <= size <= 8,
        ensures
            final(self).wf(),
            final(self).discards() == old(self).discards(),
            final(self)@ == if old(self).discards() {
                old(self)@
            } else {
                entropy::code_symbol(
                    old(self)@,
                    entropy::fixed_table(PALETTE_SIZE_CDF@, size - 2, 6),
                    5,
                    size - 2,
                )
            },
    {
        let table: [u16; 6] = PALETTE_SIZE_CDF;
        proof {
            self.lemma_wf();
            let t = table@;
            assert(t[0] == 23989 && t[1] == 17673 && t[2] == 11991 && t[3] == 7865 && t[4] == 4845
                && t[5] == 2365);
            lemma_fixed_codable(self@.range, t, 6, size - 2);
        }
        self.sym_static(table.as_slice(), size - 2, 6);
    }

    /// Code that a row of the color map is coded by itself.
    pub fn sym_palette_identity_row_off(&mut self, first_row: bool)
        requires
            old(self).wf(),
        ensures
            final(self).wf(),
            final(self).discards() == old(self).discards(),
            final(self)@ == if old(self).discards() {
                old(self)@
            } else {
                entropy::code_symbol(old(self)@, row_flag_table(first_row), 1, 0)
            },
    {
        let table: [u16; 2] = if first_row {
            [19769, 12]
        } else {
            [10253, 7017]
        };
        proof {
            self.lemma_wf();
            assert(table@ =~= row_flag_table(first_row));
            lemma_fixed_codable(self@.range, table@, 2, 0);
        }
        self.sym_static(table.as_slice(), 0, 2);
    }

    /// Code a color index of a palette.
    pub fn sym_palette_y_color(&mut self, size: usize, ctx: usize, val: usize)
        requires
            old(self).wf(),
            2 <= size <= 8,
            ctx < 5,
            val < size,
        ensures
            final(self).wf(),
            final(self).discards() == old(self).discards(),
            final(self)@ == if old(self).discards() {
                old(self)@
            } else {
                entropy::code_symbol(
                    old(self)@,
                    entropy::fixed_table(
                        color_row(size as int, ctx as int),
                        val as int,
                        size - 1,
                    ),
                    size - 2,
                    val as int,
                )
            },
    {
        let table: [u16; 7] = PALETTE_COLOR_CDF[size - 2][ctx];
        proof {
            self.lemma_wf();
            lemma_color_row(size as int, ctx as int);
            lemma_fixed_codable(self@.range, table@, size - 1, val as int);
        }
        self.sym_static(table.as_slice(), val, size - 1);
    }
}

/// Colors in strictly rising order.
pub open spec fn rising(colors: Seq<u16>) -> bool {
    forall|i: int, j: int| 0 <= i < j < colors.len() ==> colors[i] < colors[j]
}

/// A palette of 2 to 8 rising colors that reproduces a string of samples.
pub open spec fn reproduces(p: &LumaPalette, samples: Seq<u16>) -> bool {
    &&& rising(p.colors@)
    &&& p.colors@.to_set() == samples.to_set()
    &&& p.map@.len() == samples.len()
    &&& forall|i: int|
        0 <= i < samples.len() ==> {
            &&& #[trigger] p.map@[i] < p.colors@.len()
            &&& p.colors@[p.map@[i] as int] == samples[i]
        }
}

/// Sizes of blocks that can have a palette.
pub open spec fn palette_size_allowed(width: int, height: int) -> bool {
    8 <= width <= 64 && 8 <= height <= 64
}

proof fn lemma_rising_is_unique(colors: Seq<u16>)
    requires
        rising(colors),
    ensures
        colors.no_duplicates(),
        colors.to_set().len() == colors.len(),
        colors.to_set().finite(),
{
    colors.unique_seq_to_set();
    vstd::seq_lib::seq_to_set_is_finite(colors);
}

/// Where `v` stands, or belongs, among rising colors.
fn color_position(colors: &Vec<u16>, v: u16) -> (pos: usize)
    requires
        rising(colors@),
    ensures
        pos <= colors@.len(),
        forall|i: int| 0 <= i < pos ==> colors@[i] < v,
        forall|i: int| pos <= i < colors@.len() ==> colors@[i] >= v,
{
    let mut pos: usize = 0;
    while pos < colors.len() && colors[pos] < v
        invariant
            pos <= colors@.len(),
            rising(colors@),
            forall|i: int| 0 <= i < pos ==> colors@[i] < v,
        decreases colors@.len() - pos,
    {
        pos = pos + 1;
    }
    pos
}

/// The distinct samples in rising order, if there are at most eight.
fn distinct_colors(samples: &Vec<u16>) -> (r: Option<Vec<u16>>)
    ensures
        match r {
            Some(colors) => rising(colors@) && colors@.to_set() == samples@.to_set()
                && colors@.len() <= 8,
            None => samples@.to_set().len() > 8,
        },
{
    let mut colors: Vec<u16> = Vec::new();
    let mut k: usize = 0;
    while k < samples.len()
        invariant
            k <= samples@.len(),
            rising(colors@),
            colors@.len() <= 8,
            forall|c: u16| colors@.contains(c) <==> samples@.take(k as int).contains(c),
        decreases samples@.len() - k,
    {
        let v: u16 = samples[k];
        let pos: usize = color_position(&colors, v);
        let ghost before = colors@;
        let ghost seen = samples@.take(k as int);
        assert(samples@.take(k + 1) =~= seen.push(v));
        if pos < colors.len() && colors[pos] == v {
            proof {
                assert(before[pos as int] == v);
                assert forall|c: u16| colors@.contains(c) <==> seen.push(v).contains(c) by {
                    lemma_push_contains(seen, v, c);
                }
            }
        } else {
            proof {
                assert(!before.contains(v));
            }
            if colors.len() == 8 {
                proof {
                    lemma_nine_colors(before, v, samples@, k as int);
                }
                return None;
            }
            colors.insert(pos, v);
            proof {
                assert forall|i: int, j: int| 0 <= i < j < colors@.len() implies colors@[i]
                    < colors@[j] by {}
                assert forall|c: u16| colors@.contains(c) <==> seen.push(v).contains(c) by {
                    lemma_push_contains(seen, v, c);
                    lemma_insert_contains(before, pos as int, v, c);
                }
            }
        }
        k = k + 1;
    }
    proof {
        assert(samples@.take(samples@.len() as int) =~= samples@);
        assert(colors@.to_set() =~= samples@.to_set());
    }
    Some(colors)
}

proof fn lemma_push_contains(s: Seq<u16>, v: u16, c: u16)
    ensures
        s.push(v).contains(c) <==> s.contains(c) || c == v,
{
    let t = s.push(v);
    if s.contains(c) {
        let i = choose|i: int| 0 <= i < s.len() && s[i] == c;
        assert(t[i] == c);
    }
    assert(t[s.len() as int] == v);
    if t.contains(c) && c != v {
        let i = choose|i: int| 0 <= i < t.len() && t[i] == c;
        assert(s[i] == c);
    }
}

proof fn lemma_insert_contains(s: Seq<u16>, pos: int, v: u16, c: u16)
    requires
        0 <= pos <= s.len(),
    ensures
        s.insert(pos, v).contains(c) <==> s.contains(c) || c == v,
{
    let t = s.insert(pos, v);
    assert(t[pos] == v);
    if s.contains(c) {
        let i = choose|i: int| 0 <= i < s.len() && s[i] == c;
        if i < pos {
            assert(t[i] == c);
        } else {
            assert(t[i + 1] == c);
        }
    }
    if t.contains(c) && c != v {
        let i = choose|i: int| 0 <= i < t.len() && t[i] == c;
        if i < pos {
            assert(s[i] == c);
        } else {
            assert(s[i - 1] == c);
        }
    }
}

proof fn lemma_nine_colors(colors: Seq<u16>, v: u16, samples: Seq<u16>, k: int)
    requires
        rising(colors),
        colors.len() == 8,
        !colors.contains(v),
        0 <= k < samples.len(),
        samples[k] == v,
        forall|c: u16| colors.contains(c) <==> samples.take(k).contains(c),
    ensures
        samples.to_set().len() > 8,
{
    lemma_rising_is_unique(colors);
    let nine = colors.to_set().insert(v);
    vstd::seq_lib::seq_to_set_is_finite(samples);
    assert(nine.subset_of(samples.to_set())) by {
        assert forall|c: u16| nine.contains(c) implies samples.to_set().contains(c) by {
            if c == v {
                assert(samples.contains(samples[k]));
            } else {
                assert(samples.take(k).contains(c));
                let i = choose|i: int| 0 <= i < k && samples.take(k)[i] == c;
                assert(samples[i] == c);
            }
        }
    }
    vstd::set_lib::lemma_len_subset(nine, samples.to_set());
}

/// The exact palette of a block of 8 to 64 pixels on each side, if its samples
/// take 2 to 8 values.
pub fn exact_luma_palette(
    src: &[u16],
    stride: usize,
    y: usize,
    x: usize,
    width: usize,
    height: usize,
    bit_depth: u8,
) -> (palette: Option<LumaPalette>)
    requires
        bit_depth < 16,
        y + height <= usize::MAX,
        palette_size_allowed(width as int, height as int) ==> {
            &&& plane::rect_fits(
                src@.len(),
                stride as nat,
                y as nat,
                x as nat,
                width as nat,
                height as nat,
            )
            &&& forall|i: int|
                0 <= i < width * height ==> #[trigger] plane::rect_samples(
                    src@,
                    stride as nat,
                    y as nat,
                    x as nat,
                    width as nat,
                    height as nat,
                )[i] < vstd::arithmetic::power2::pow2(bit_depth as nat)
        },
    ensures
        ({
            let samples = plane::rect_samples(
                src@,
                stride as nat,
                y as nat,
                x as nat,
                width as nat,
                height as nat,
            );
            match palette {
                Some(p) => {
                    &&& palette_size_allowed(width as int, height as int)
                    &&& 2 <= samples.to_set().len() <= 8
                    &&& reproduces(&p, samples)
                    &&& p.width == width
                    &&& p.height == height
                },
                None => !palette_size_allowed(width as int, height as int)
                    || samples.to_set().len() < 2 || samples.to_set().len() > 8,
            }
        }),
{
    if width < 8 || height < 8 || width > 64 || height > 64 {
        return None;
    }
    let samples: Vec<u16> = plane::extract_subplane_pixels(src, stride, x, y, width, height);
    let colors: Vec<u16> = match distinct_colors(&samples) {
        Some(colors) => colors,
        None => return None,
    };
    proof {
        lemma_rising_is_unique(colors@);
    }
    if colors.len() < 2 {
        return None;
    }
    let mut map: Vec<u8> = Vec::new();
    let mut i: usize = 0;
    while i < samples.len()
        invariant
            i <= samples@.len(),
            rising(colors@),
            colors@.len() <= 8,
            colors@.to_set() == samples@.to_set(),
            map@.len() == i,
            forall|k: int|
                0 <= k < i ==> #[trigger] map@[k] < colors@.len() && colors@[map@[k] as int]
                    == samples@[k],
        decreases samples@.len() - i,
    {
        let v: u16 = samples[i];
        let pos: usize = color_position(&colors, v);
        proof {
            assert(samples@.contains(v));
            assert(samples@.to_set().contains(v));
            assert(colors@.contains(v));
            let j = choose|j: int| 0 <= j < colors@.len() && colors@[j] == v;
            assert(pos <= j);
            if pos < j {
                assert(colors@[pos as int] < colors@[j]);
            }
        }
        map.push(pos as u8);
        i = i + 1;
    }
    Some(LumaPalette { colors, map, width, height })
}

/// A palette gives every sample of its block back, and its colors are those that
/// occur, each once, by rising value.
pub proof fn law_palettes_give_the_samples_back(
    p: &LumaPalette,
    src: Seq<u16>,
    stride: nat,
    y: nat,
    x: nat,
    w: nat,
    h: nat,
    r: int,
    c: int,
)
    requires
        reproduces(p, plane::rect_samples(src, stride, y, x, w, h)),
        0 <= r < h,
        0 <= c < w,
    ensures
        p.colors@[p.map@[r * w + c] as int] == src[(y + r) * stride + x + c],
        forall|i: int, j: int|
            0 <= i < j < p.colors@.len() ==> #[trigger] p.colors@[i] < #[trigger] p.colors@[j],
{
    plane::law_rect_is_read_by_rows(src, stride, y, x, w, h, r, c);
    plane::lemma_in_block(r, c, w as int, h as int);
    let s = plane::rect_samples(src, stride, y, x, w, h);
    assert(p.map@[r * w + c] < p.colors@.len());
}

/// Palettes are for blocks of 8 to 64 samples a side.
pub proof fn law_palettes_have_their_sizes(width: int, height: int)
    ensures
        palette_size_allowed(width, height) == palette_size_allowed(height, width),
        palette_size_allowed(width, height) ==> 64 <= width * height <= 4096,
        palette_size_allowed(width, 8) <==> 8 <= width <= 64,
        palette_size_allowed(width, 64) <==> 8 <= width <= 64,
        !palette_size_allowed(width, 7) && !palette_size_allowed(width, 65),
{
    if palette_size_allowed(width, height) {
        assert(64 <= width * height <= 4096) by (nonlinear_arith)
            requires
                8 <= width <= 64,
                8 <= height <= 64,
        ;
    }
}

/// The tables of color indices are those of the palette's size and of the context,
/// and each falls over the indices that the size has.
pub proof fn law_color_tables_fall(size: int, ctx: int, k: int)
    requires
        2 <= size <= 8,
        0 <= ctx < 5,
        0 <= k < size - 2,
    ensures
        color_row(size, ctx)[k + 1] < color_row(size, ctx)[k],
        color_row(size, ctx)[0] < 32768,
{
}

} // verus!
