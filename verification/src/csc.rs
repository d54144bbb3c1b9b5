//! Conversion of red, green and blue to luma and two color differences.

use crate::core444;
use crate::core444::FrameRoute;
use crate::encoder::{Av2Encoder, BitDepth};
use crate::num;
use crate::simple;
use crate::simple::{EncodeError, Pixel, PlanarImage};
use vstd::arithmetic::power2::*;
use vstd::prelude::*;

verus! {

/// Weights of red, green and blue, with the fractional bits of their matrix.
#[derive(Clone, Copy, Debug)]
pub struct Weights {
    pub r: i32,
    pub g: i32,
    pub b: i32,
}

impl Weights {
    /// No weight is above one.
    pub open spec fn in_range(self, frac: nat) -> bool {
        &&& -pow2(frac) <= self.r <= pow2(frac)
        &&& -pow2(frac) <= self.g <= pow2(frac)
        &&& -pow2(frac) <= self.b <= pow2(frac)
    }

    /// Weighted sum of a color.
    pub open spec fn dot(self, r: int, g: int, b: int) -> int {
        self.r * r + self.g * g + self.b * b
    }

    /// Sum of the weights.
    pub open spec fn total(self) -> int {
        self.r + self.g + self.b
    }
}

/// Weights of luma and of both color differences.
#[derive(Clone, Copy, Debug)]
pub struct ColorMatrix {
    /// Fractional bits of the weights.
    pub frac: u32,
    pub y: Weights,
    pub cb: Weights,
    pub cr: Weights,
}

impl ColorMatrix {
    /// The weights have fractional bits, and none is above one.
    pub open spec fn in_range(self) -> bool {
        &&& 1 <= self.frac <= 30
        &&& self.y.in_range(self.frac as nat)
        &&& self.cb.in_range(self.frac as nat)
        &&& self.cr.in_range(self.frac as nat)
    }
}

/// Largest sample of a bit depth.
pub open spec fn max_sample(bits: nat) -> int {
    pow2(bits) - 1
}

/// A value limited to the samples of a bit depth.
pub open spec fn clamped(v: int, bits: nat) -> int {
    if v < 0 {
        0
    } else if v > max_sample(bits) {
        max_sample(bits)
    } else {
        v
    }
}

/// One converted sample: the weighted sum and an offset, rounded to nearest and
/// limited to the samples of the bit depth.
pub open spec fn converted(
    w: Weights,
    frac: nat,
    offset: int,
    bits: nat,
    r: int,
    g: int,
    b: int,
) -> int {
    let one = pow2(frac) as int;
    clamped((w.dot(r, g, b) + one * offset + one / 2) / one, bits)
}

/// Converted planes of a color image: luma without an offset, the color
/// differences around the middle of the range.
pub open spec fn is_ycbcr(
    m: ColorMatrix,
    bits: nat,
    r: Seq<int>,
    g: Seq<int>,
    b: Seq<int>,
    y: Seq<u16>,
    cb: Seq<u16>,
    cr: Seq<u16>,
) -> bool {
    let mid = pow2((bits - 1) as nat) as int;
    &&& y.len() == g.len() && cb.len() == g.len() && cr.len() == g.len()
    &&& forall|i: int|
        0 <= i < g.len() ==> #[trigger] y[i] == converted(
            m.y,
            m.frac as nat,
            0,
            bits,
            r[i],
            g[i],
            b[i],
        )
    &&& forall|i: int|
        0 <= i < g.len() ==> #[trigger] cb[i] == converted(
            m.cb,
            m.frac as nat,
            mid,
            bits,
            r[i],
            g[i],
            b[i],
        )
    &&& forall|i: int|
        0 <= i < g.len() ==> #[trigger] cr[i] == converted(
            m.cr,
            m.frac as nat,
            mid,
            bits,
            r[i],
            g[i],
            b[i],
        )
}

proof fn lemma_weighted(w: int, s: int)
    requires
        -0x4000_0000 <= w <= 0x4000_0000,
        0 <= s <= 65535,
    ensures
        -0x4000_0000_0000 <= w * s <= 0x4000_0000_0000,
{
    assert(-0x4000_0000_0000 <= w * s <= 0x4000_0000_0000) by (nonlinear_arith)
        requires
            -0x4000_0000 <= w <= 0x4000_0000,
            0 <= s <= 65535,
    ;
}

fn convert(w: Weights, frac: u32, offset: i32, bits: u8, r: i32, g: i32, b: i32) -> (v: u16)
    requires
        1 <= frac <= 30,
        0 <= r <= 65535,
        0 <= g <= 65535,
        0 <= b <= 65535,
        w.in_range(frac as nat),
        0 <= offset <= 2048,
        bits == 8 || bits == 10 || bits == 12,
    ensures
        v == converted(w, frac as nat, offset as int, bits as nat, r as int, g as int, b as int),
{
    let ghost p = pow2(frac as nat) as int;
    proof {
        lemma2_to64();
        lemma_pow2_pos(frac as nat);
        if frac < 30 {
            lemma_pow2_strictly_increases(frac as nat, 30);
        }
        lemma_weighted(w.r as int, r as int);
        lemma_weighted(w.g as int, g as int);
        lemma_weighted(w.b as int, b as int);
        lemma_weighted(p, offset as int);
    }
    let one: i64 = num::pow2_u32(frac) as i64;
    let sum: i64 = w.r as i64 * r as i64 + w.g as i64 * g as i64 + w.b as i64 * b as i64 + one
        * offset as i64 + one / 2;
    if sum < 0 {
        proof {
            assert(sum as int / p < 0) by (nonlinear_arith)
                requires
                    sum < 0,
                    p >= 1,
            ;
        }
        return 0;
    }
    let v: i64 = sum / one;
    let max: i64 = num::pow2_u32(bits as u32) as i64 - 1;
    if v > max {
        max as u16
    } else {
        v as u16
    }
}

/// Three planes are the luma and the color differences of an image of green, blue
/// and red planes.
pub open spec fn is_converted<T: Pixel>(
    m: ColorMatrix,
    img: PlanarImage<T>,
    y: Seq<u16>,
    cb: Seq<u16>,
    cr: Seq<u16>,
) -> bool {
    is_ycbcr(
        m,
        img.bit_depth.value() as nat,
        simple::samples(img.planes@[2]@),
        simple::samples(img.planes@[0]@),
        simple::samples(img.planes@[1]@),
        y,
        cb,
        cr,
    )
}

/// Convert an image of green, blue and red planes to luma and color differences
/// with the weights of `m`.
pub fn gbr_to_ycbcr<T: Pixel>(img: &PlanarImage<T>, m: &ColorMatrix) -> (out: (
    Vec<u16>,
    Vec<u16>,
    Vec<u16>,
))
    requires
        m.in_range(),
        img.planes@[1]@.len() == img.planes@[0]@.len(),
        img.planes@[2]@.len() == img.planes@[0]@.len(),
    ensures
        is_converted(*m, *img, out.0@, out.1@, out.2@),
{
    let bits: u8 = img.bit_depth.bits();
    let mid: i32 = match img.bit_depth {
        BitDepth::Eight => 128,
        BitDepth::Ten => 512,
        BitDepth::Twelve => 2048,
    };
    proof {
        lemma2_to64();
    }
    let (gp, bp, rp) = (&img.planes[0], &img.planes[1], &img.planes[2]);
    let n: usize = gp.len();
    let mut y: Vec<u16> = Vec::new();
    let mut cb: Vec<u16> = Vec::new();
    let mut cr: Vec<u16> = Vec::new();
    let mut i: usize = 0;
    while i < n
        invariant
            i <= n,
            n == gp@.len() && n == bp@.len() && n == rp@.len(),
            m.in_range(),
            bits == 8 || bits == 10 || bits == 12,
            0 <= mid <= 2048,
            mid == pow2((bits - 1) as nat),
            y@.len() == i && cb@.len() == i && cr@.len() == i,
            forall|k: int|
                0 <= k < i ==> #[trigger] y@[k] == converted(
                    m.y,
                    m.frac as nat,
                    0,
                    bits as nat,
                    rp@[k].value(),
                    gp@[k].value(),
                    bp@[k].value(),
                ),
            forall|k: int|
                0 <= k < i ==> #[trigger] cb@[k] == converted(
                    m.cb,
                    m.frac as nat,
                    mid as int,
                    bits as nat,
                    rp@[k].value(),
                    gp@[k].value(),
                    bp@[k].value(),
                ),
            forall|k: int|
                0 <= k < i ==> #[trigger] cr@[k] == converted(
                    m.cr,
                    m.frac as nat,
                    mid as int,
                    bits as nat,
                    rp@[k].value(),
                    gp@[k].value(),
                    bp@[k].value(),
                ),
        decreases n - i,
    {
        let (r, g, b): (i32, i32, i32) = (rp[i].to_i32(), gp[i].to_i32(), bp[i].to_i32());
        y.push(convert(m.y, m.frac, 0, bits, r, g, b));
        cb.push(convert(m.cb, m.frac, mid, bits, r, g, b));
        cr.push(convert(m.cr, m.frac, mid, bits, r, g, b));
        i = i + 1;
    }
    (y, cb, cr)
}

/// A converted 4:4:4 image and how it is coded.
#[derive(Debug)]
pub struct Image444 {
    pub y: Vec<u16>,
    pub cb: Vec<u16>,
    pub cr: Vec<u16>,
    pub route: FrameRoute,
}

impl Av2Encoder {
    /// Prepare an image of green, blue and red planes for 4:4:4 coding: convert it
    /// and choose its route. An image with an incomplete plane or a size out of
    /// range is refused.
    pub fn encode_image_444<T: Pixel>(&self, img: &PlanarImage<T>, m: &ColorMatrix) -> (r: Result<
        Image444,
        EncodeError,
    >)
        requires
            m.in_range(),
        ensures
            r is Err <==> img.refusal_444() is Some,
            r matches Err(e) ==> img.refusal_444() == Some(e),
            r matches Ok(out) ==> {
                &&& is_converted(*m, *img, out.y@, out.cb@, out.cr@)
                &&& out.route == core444::frame_route(self@, img.width as nat, img.height as nat)
            },
    {
        let route = self.encode_yuv444(img)?;
        let (y, cb, cr) = gbr_to_ycbcr(img, m);
        Ok(Image444 { y, cb, cr, route })
    }
}

/// Gray has its own value as luma and no color, where the luma weights sum to
/// one and those of a color difference to zero.
pub proof fn law_gray_stays_gray(m: ColorMatrix, bits: nat, v: int)
    requires
        bits >= 1,
        0 <= v <= max_sample(bits),
        m.frac >= 1,
        m.y.total() == pow2(m.frac as nat),
        m.cb.total() == 0,
        m.cr.total() == 0,
    ensures
        converted(m.y, m.frac as nat, 0, bits, v, v, v) == v,
        ({
            let mid = pow2((bits - 1) as nat) as int;
            &&& converted(m.cb, m.frac as nat, mid, bits, v, v, v) == mid
            &&& converted(m.cr, m.frac as nat, mid, bits, v, v, v) == mid
        }),
{
    let mid = pow2((bits - 1) as nat) as int;
    lemma_pow2_unfold(bits);
    lemma_pow2_pos((bits - 1) as nat);
    assert(m.y.r * v + m.y.g * v + m.y.b * v == (m.y.r + m.y.g + m.y.b) * v) by (nonlinear_arith);
    assert(m.cb.r * v + m.cb.g * v + m.cb.b * v == (m.cb.r + m.cb.g + m.cb.b) * v)
        by (nonlinear_arith);
    assert(m.cr.r * v + m.cr.g * v + m.cr.b * v == (m.cr.r + m.cr.g + m.cr.b) * v)
        by (nonlinear_arith);
    assert((m.cb.r + m.cb.g + m.cb.b) * v == 0 && (m.cr.r + m.cr.g + m.cr.b) * v == 0)
        by (nonlinear_arith)
        requires
            m.cb.r + m.cb.g + m.cb.b == 0,
            m.cr.r + m.cr.g + m.cr.b == 0,
    ;
    let one = pow2(m.frac as nat) as int;
    lemma_pow2_pos(m.frac as nat);
    assert((one * v + one / 2) / one == v && (one * mid + one / 2) / one == mid)
        by (nonlinear_arith)
        requires
            one >= 1,
    ;
    assert(one * 0 == 0);
}

/// `v` is `sum / 2^frac` rounded to nearest with halves up, held from 0 to the
/// largest sample.
pub open spec fn is_rounded(v: int, sum: int, frac: nat, bits: nat) -> bool {
    let one = pow2(frac) as int;
    let top = pow2(bits) - 1;
    &&& 0 <= v <= top
    &&& v < top ==> 2 * sum + one < 2 * one * (v + 1)
    &&& v > 0 ==> 2 * one * v <= 2 * sum + one
}

proof fn lemma_converted(w: Weights, frac: nat, offset: int, bits: nat, r: int, g: int, b: int)
    requires
        frac >= 1,
    ensures
        is_rounded(
            converted(w, frac, offset, bits, r, g, b),
            w.r * r + w.g * g + w.b * b + pow2(frac) * offset,
            frac,
            bits,
        ),
{
    lemma_pow2_pos(frac);
    lemma_pow2_pos(bits);
    lemma_pow2_unfold(frac);
    let one = pow2(frac) as int;
    let s = w.dot(r, g, b) + one * offset;
    let q = (s + one / 2) / one;
    vstd::arithmetic::div_mod::lemma_fundamental_div_mod(s + one / 2, one);
    let v = converted(w, frac, offset, bits, r, g, b);
    let top = pow2(bits) - 1;
    assert(one * q <= s + one / 2 < one * q + one);
    assert(v < top ==> 2 * s + one < 2 * one * (v + 1)) by (nonlinear_arith)
        requires
            v < top ==> q <= v,
            s + one / 2 < one * q + one,
            one == 2 * (one / 2),
            one >= 1,
    ;
    assert(v > 0 ==> 2 * one * v <= 2 * s + one) by (nonlinear_arith)
        requires
            v > 0 ==> v <= q,
            one * q <= s + one / 2,
            one == 2 * (one / 2),
            one >= 1,
    ;
}

/// Luma and both color differences of a sample are weighed sums of its red, green
/// and blue, which the third, the first and the second plane hold. They are rounded
/// to nearest and held in range; the color differences are around the middle.
pub proof fn law_conversion_weighs_the_planes<T: Pixel>(
    m: ColorMatrix,
    img: PlanarImage<T>,
    y: Seq<u16>,
    cb: Seq<u16>,
    cr: Seq<u16>,
    i: int,
)
    requires
        is_converted(m, img, y, cb, cr),
        m.frac >= 1,
        0 <= i < img.planes@[0]@.len(),
        img.planes@[1]@.len() == img.planes@[0]@.len(),
        img.planes@[2]@.len() == img.planes@[0]@.len(),
    ensures
        ({
            let (g, b, r) = (
                img.planes@[0]@[i].value(),
                img.planes@[1]@[i].value(),
                img.planes@[2]@[i].value(),
            );
            let bits = match img.bit_depth {
                BitDepth::Eight => 8nat,
                BitDepth::Ten => 10nat,
                BitDepth::Twelve => 12nat,
            };
            let mid = pow2(m.frac as nat) * pow2((bits - 1) as nat);
            &&& y.len() == img.planes@[0]@.len()
            &&& cb.len() == y.len()
            &&& cr.len() == y.len()
            &&& is_rounded(
                y[i] as int,
                m.y.r * r + m.y.g * g + m.y.b * b,
                m.frac as nat,
                bits,
            )
            &&& is_rounded(
                cb[i] as int,
                m.cb.r * r + m.cb.g * g + m.cb.b * b + mid,
                m.frac as nat,
                bits,
            )
            &&& is_rounded(
                cr[i] as int,
                m.cr.r * r + m.cr.g * g + m.cr.b * b + mid,
                m.frac as nat,
                bits,
            )
        }),
{
    let (g, b, r) = (
        simple::samples(img.planes@[0]@),
        simple::samples(img.planes@[1]@),
        simple::samples(img.planes@[2]@),
    );
    let bits = img.bit_depth.value() as nat;
    let mid = pow2((bits - 1) as nat) as int;
    lemma_converted(m.y, m.frac as nat, 0, bits, r[i], g[i], b[i]);
    lemma_converted(m.cb, m.frac as nat, mid, bits, r[i], g[i], b[i]);
    lemma_converted(m.cr, m.frac as nat, mid, bits, r[i], g[i], b[i]);
    vstd::arithmetic::mul::lemma_mul_basics(pow2(m.frac as nat) as int);
    assert(y[i] == converted(m.y, m.frac as nat, 0, bits, r[i], g[i], b[i]));
    assert(cb[i] == converted(m.cb, m.frac as nat, mid, bits, r[i], g[i], b[i]));
    assert(cr[i] == converted(m.cr, m.frac as nat, mid, bits, r[i], g[i], b[i]));
}

} // verus!
