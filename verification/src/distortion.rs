//! Squared errors and magnitudes that rate-distortion choices weigh.

use crate::metrics;
use crate::plane;
use vstd::prelude::*;

verus! {

/// Square of a number.
pub open spec fn square(d: int) -> nat {
    (d * d) as nat
}

proof fn lemma_square(d: int, bound: int)
    requires
        -bound <= d <= bound,
    ensures
        0 <= d * d <= bound * bound,
        d * d == 0 <==> d == 0,
{
    assert(0 <= d * d <= bound * bound) by (nonlinear_arith)
        requires
            -bound <= d <= bound,
    ;
    assert(d * d == 0 <==> d == 0) by (nonlinear_arith);
}

proof fn lemma_total_same(f: spec_fn(int) -> nat, g: spec_fn(int) -> nat, n: nat)
    requires
        forall|i: int| 0 <= i < n ==> #[trigger] f(i) == g(i),
    ensures
        metrics::total(f, n) == metrics::total(g, n),
    decreases n,
{
    if n > 0 {
        lemma_total_same(f, g, (n - 1) as nat);
        assert(f(n - 1) == g(n - 1));
    }
}

/// A rectangle in a plane of samples starts here.
#[derive(Clone, Copy, Debug)]
pub struct PlaneRect<'a> {
    pub plane: &'a [u16],
    pub stride: usize,
    pub y: usize,
    pub x: usize,
}

impl<'a> PlaneRect<'a> {
    /// The plane holds `w` by `h` samples from here on.
    pub open spec fn holds(self, w: int, h: int) -> bool {
        self.stride >= 1 && plane::rect_fits(
            self.plane@.len(),
            self.stride as nat,
            self.y as nat,
            self.x as nat,
            w as nat,
            h as nat,
        )
    }

    /// Sample of row `r` and column `c`.
    pub open spec fn at(self, r: int, c: int) -> int {
        self.plane@[(self.y + r) * self.stride + self.x + c] as int
    }
}

proof fn lemma_row_start(a: PlaneRect, w: int, h: int, r: int)
    requires
        a.holds(w, h),
        0 <= r < h,
        1 <= w,
    ensures
        a.y + r <= (a.y + r) * a.stride,
        (a.y + r) * a.stride + a.x + w <= a.plane@.len(),
{
    plane::lemma_rect_index(
        a.plane@.len(),
        a.stride as nat,
        a.y as nat,
        a.x as nat,
        w as nat,
        h as nat,
        r as nat,
        (w - 1) as nat,
    );
    assert(a.y + r <= (a.y + r) * a.stride) by (nonlinear_arith)
        requires
            a.y + r >= 0,
            a.stride >= 1,
    ;
}

/// Squared errors of row `r` of two rectangles.
pub open spec fn row_errors(a: PlaneRect, b: PlaneRect, r: int) -> spec_fn(int) -> nat {
    |c: int| square(a.at(r, c) - b.at(r, c))
}

/// Squared error of each row of two rectangles.
pub open spec fn rows_errors(a: PlaneRect, b: PlaneRect, w: nat) -> spec_fn(int) -> nat {
    |r: int| metrics::total(row_errors(a, b, r), w)
}

/// Sum of squared errors of two rectangles.
pub open spec fn rect_error(a: PlaneRect, b: PlaneRect, w: nat, h: nat) -> nat {
    metrics::total(rows_errors(a, b, w), h)
}

/// The error of two rectangles of up to 65536 by 65536 samples fits 64 bits.
pub proof fn law_rect_error_bound(a: PlaneRect, b: PlaneRect, w: nat, h: nat)
    requires
        w <= 0x1_0000,
        h <= 0x1_0000,
        a.holds(w as int, h as int),
        b.holds(w as int, h as int),
    ensures
        rect_error(a, b, w, h) <= 281474976645120 * h,
        rect_error(a, b, w, h) <= u64::MAX,
{
    assert forall|r: int| 0 <= r < h implies #[trigger] rows_errors(a, b, w)(r)
        <= 281474976645120 by {
        assert forall|c: int| 0 <= c < w implies #[trigger] row_errors(a, b, r)(c) <= 4294836225 by {
            lemma_square(a.at(r, c) - b.at(r, c), 65535);
        }
        metrics::lemma_total_at_most(row_errors(a, b, r), w, 4294836225);
    }
    metrics::lemma_total_at_most(rows_errors(a, b, w), h, 281474976645120);
}

/// Sum of squared errors of two rectangles of the same size.
pub fn rect_sse(a: &PlaneRect, b: &PlaneRect, width: usize, height: usize) -> (d: u64)
    requires
        a.holds(width as int, height as int),
        b.holds(width as int, height as int),
        rect_error(*a, *b, width as nat, height as nat) <= u64::MAX,
    ensures
        d == rect_error(*a, *b, width as nat, height as nat),
{
    if width == 0 || height == 0 {
        proof {
            assert forall|r: int| 0 <= r < height implies #[trigger] rows_errors(
                *a,
                *b,
                width as nat,
            )(r) == 0 by {}
            metrics::lemma_total_zero(rows_errors(*a, *b, width as nat), height as nat);
        }
        return 0;
    }
    let (alen, blen) = (a.plane.len(), b.plane.len());
    let mut d: u64 = 0;
    let mut r: usize = 0;
    while r < height
        invariant
            r <= height,
            1 <= width,
            alen == a.plane@.len(),
            blen == b.plane@.len(),
            a.holds(width as int, height as int),
            b.holds(width as int, height as int),
            d == rect_error(*a, *b, width as nat, r as nat),
            rect_error(*a, *b, width as nat, height as nat) <= u64::MAX,
        decreases height - r,
    {
        let ghost errors = row_errors(*a, *b, r as int);
        proof {
            lemma_row_start(*a, width as int, height as int, r as int);
            lemma_row_start(*b, width as int, height as int, r as int);
            let rows = rows_errors(*a, *b, width as nat);
            assert(rows(r as int) == metrics::total(errors, width as nat));
            assert(metrics::total(rows, (r + 1) as nat) == d + rows(r as int));
            metrics::lemma_total_grows(rows, (r + 1) as nat, height as nat);
        }
        let abase: usize = (a.y + r) * a.stride + a.x;
        let bbase: usize = (b.y + r) * b.stride + b.x;
        let mut row: u64 = 0;
        let mut c: usize = 0;
        while c < width
            invariant
                c <= width,
                alen == a.plane@.len(),
                blen == b.plane@.len(),
                abase == (a.y + r) * a.stride + a.x,
                bbase == (b.y + r) * b.stride + b.x,
                abase + width <= alen,
                bbase + width <= blen,
                errors == row_errors(*a, *b, r as int),
                row == metrics::total(errors, c as nat),
                metrics::total(errors, width as nat) <= u64::MAX,
            decreases width - c,
        {
            let e: i64 = a.plane[abase + c] as i64 - b.plane[bbase + c] as i64;
            proof {
                lemma_square(e as int, 65535);
                assert(errors(c as int) == square(e as int));
                metrics::lemma_total_grows(errors, (c + 1) as nat, width as nat);
            }
            row = row + (e * e) as u64;
            c = c + 1;
        }
        d = d + row;
        r = r + 1;
    }
    d
}

/// Sum of squared errors of a block of the source against a reconstruction that
/// starts at its own corner. Rows of which the reconstruction does not hold a
/// whole stride are left out.
pub fn pixel_sse_block(
    src: &PlaneRect,
    rec: &[u16],
    rec_stride: usize,
    width: usize,
    height: usize,
) -> (d: u64)
    requires
        1 <= rec_stride,
        width <= rec_stride,
        src.holds(width as int, height as int),
        rect_error(
            *src,
            (PlaneRect { plane: rec, stride: rec_stride, y: 0, x: 0 }),
            width as nat,
            plane::least(height as int, rec@.len() as int / rec_stride as int) as nat,
        ) <= u64::MAX,
    ensures
        d == rect_error(
            *src,
            (PlaneRect { plane: rec, stride: rec_stride, y: 0, x: 0 }),
            width as nat,
            plane::least(height as int, rec@.len() as int / rec_stride as int) as nat,
        ),
{
    let whole: usize = rec.len() / rec_stride;
    let rows: usize = if height < whole {
        height
    } else {
        whole
    };
    let r = PlaneRect { plane: rec, stride: rec_stride, y: 0, x: 0 };
    proof {
        let (n, s) = (rec@.len() as int, rec_stride as int);
        vstd::arithmetic::div_mod::lemma_fundamental_div_mod(n, s);
        assert(s * (n / s) == (n / s) * s) by (nonlinear_arith);
        if rows > 0 {
            assert((rows - 1) * s + s == rows * s) by (nonlinear_arith);
            assert(rows * s <= (n / s) * s) by (nonlinear_arith)
                requires
                    rows <= n / s,
                    s >= 0,
            ;
            assert((src.y + rows - 1) * src.stride <= (src.y + height - 1) * src.stride)
                by (nonlinear_arith)
                requires
                    rows <= height,
                    src.stride >= 0,
            ;
        }
    }
    rect_sse(src, &r, width, rows)
}

/// Squared errors of row `r` of a rectangle against one value.
pub open spec fn row_errors_const(a: PlaneRect, v: int, r: int) -> spec_fn(int) -> nat {
    |c: int| square(a.at(r, c) - v)
}

/// Squared error of each row of a rectangle against one value.
pub open spec fn rows_errors_const(a: PlaneRect, v: int, w: nat) -> spec_fn(int) -> nat {
    |r: int| metrics::total(row_errors_const(a, v, r), w)
}

/// Sum of squared errors of a block of the source against one value.
pub fn pixel_sse_block_const(src: &PlaneRect, width: usize, height: usize, v: u16) -> (d: u64)
    requires
        src.holds(width as int, height as int),
        metrics::total(rows_errors_const(*src, v as int, width as nat), height as nat)
            <= u64::MAX,
    ensures
        d == metrics::total(rows_errors_const(*src, v as int, width as nat), height as nat),
{
    let len: usize = src.plane.len();
    let ghost rows = rows_errors_const(*src, v as int, width as nat);
    let mut d: u64 = 0;
    let mut r: usize = 0;
    while r < height
        invariant
            r <= height,
            len == src.plane@.len(),
            src.holds(width as int, height as int),
            rows == rows_errors_const(*src, v as int, width as nat),
            d == metrics::total(rows, r as nat),
            metrics::total(rows, height as nat) <= u64::MAX,
        decreases height - r,
    {
        let ghost errors = row_errors_const(*src, v as int, r as int);
        proof {
            assert(rows(r as int) == metrics::total(errors, width as nat));
            assert(metrics::total(rows, (r + 1) as nat) == d + rows(r as int));
            metrics::lemma_total_grows(rows, (r + 1) as nat, height as nat);
        }
        let mut row: u64 = 0;
        if width > 0 {
            proof {
                lemma_row_start(*src, width as int, height as int, r as int);
            }
            let base: usize = (src.y + r) * src.stride + src.x;
            let mut c: usize = 0;
            while c < width
                invariant
                    c <= width,
                    len == src.plane@.len(),
                    base == (src.y + r) * src.stride + src.x,
                    base + width <= len,
                    errors == row_errors_const(*src, v as int, r as int),
                    row == metrics::total(errors, c as nat),
                    metrics::total(errors, width as nat) <= u64::MAX,
                decreases width - c,
            {
                let e: i64 = src.plane[base + c] as i64 - v as i64;
                proof {
                    lemma_square(e as int, 65535);
                    assert(errors(c as int) == square(e as int));
                    metrics::lemma_total_grows(errors, (c + 1) as nat, width as nat);
                }
                row = row + (e * e) as u64;
                c = c + 1;
            }
        }
        d = d + row;
        r = r + 1;
    }
    d
}

/// Equal rectangles have no error, and different ones have some.
pub proof fn law_error_sees_every_difference(a: PlaneRect, b: PlaneRect, w: nat, h: nat)
    ensures
        rect_error(a, b, w, h) == 0 <==> forall|r: int, c: int|
            0 <= r < h && 0 <= c < w ==> #[trigger] a.at(r, c) == b.at(r, c),
{
    metrics::lemma_total_zero(rows_errors(a, b, w), h);
    assert forall|r: int| 0 <= r < h implies (#[trigger] rows_errors(a, b, w)(r) == 0
        <==> forall|c: int| 0 <= c < w ==> #[trigger] a.at(r, c) == b.at(r, c)) by {
        metrics::lemma_total_zero(row_errors(a, b, r), w);
        assert forall|c: int| 0 <= c < w implies (#[trigger] row_errors(a, b, r)(c) == 0 <==> a.at(
            r,
            c,
        ) == b.at(r, c)) by {
            let d = a.at(r, c) - b.at(r, c);
            assert(d * d == 0 <==> d == 0) by (nonlinear_arith);
            assert(d * d >= 0) by (nonlinear_arith);
        }
        if forall|c: int| 0 <= c < w ==> #[trigger] a.at(r, c) == b.at(r, c) {
            assert forall|c: int| 0 <= c < w implies #[trigger] row_errors(a, b, r)(c) == 0 by {
                assert(a.at(r, c) == b.at(r, c));
            }
        }
        if rows_errors(a, b, w)(r) == 0 {
            assert forall|c: int| 0 <= c < w implies #[trigger] a.at(r, c) == b.at(r, c) by {
                assert(row_errors(a, b, r)(c) == 0);
            }
        }
    }
    if rect_error(a, b, w, h) == 0 {
        assert forall|r: int, c: int| 0 <= r < h && 0 <= c < w implies #[trigger] a.at(r, c)
            == b.at(r, c) by {
            assert(rows_errors(a, b, w)(r) == 0);
        }
    }
}

/// The error does not depend on which rectangle comes first.
pub proof fn law_error_is_symmetric(a: PlaneRect, b: PlaneRect, w: nat, h: nat)
    ensures
        rect_error(a, b, w, h) == rect_error(b, a, w, h),
{
    assert forall|r: int| 0 <= r < h implies #[trigger] rows_errors(a, b, w)(r) == rows_errors(
        b,
        a,
        w,
    )(r) by {
        assert forall|c: int| 0 <= c < w implies #[trigger] row_errors(a, b, r)(c) == row_errors(
            b,
            a,
            r,
        )(c) by {
            let (x, y) = (a.at(r, c), b.at(r, c));
            assert((x - y) * (x - y) == (y - x) * (y - x)) by (nonlinear_arith);
        }
        lemma_total_same(row_errors(a, b, r), row_errors(b, a, r), w);
    }
    lemma_total_same(rows_errors(a, b, w), rows_errors(b, a, w), h);
}

/// Samples of a sequence as numbers.
pub open spec fn values(v: Seq<u16>) -> spec_fn(int) -> nat {
    |i: int| v[i] as nat
}

/// Squares of the samples of a sequence.
pub open spec fn squares(v: Seq<u16>) -> spec_fn(int) -> nat {
    |i: int| square(v[i] as int)
}

/// Sum of samples and sum of their squares.
pub fn sum_sumsq(v: &[u16]) -> (r: (u64, u64))
    requires
        metrics::total(values(v@), v@.len()) <= u64::MAX,
        metrics::total(squares(v@), v@.len()) <= u64::MAX,
    ensures
        r.0 == metrics::total(values(v@), v@.len()),
        r.1 == metrics::total(squares(v@), v@.len()),
{
    let mut sum: u64 = 0;
    let mut sumsq: u64 = 0;
    let mut i: usize = 0;
    while i < v.len()
        invariant
            i <= v@.len(),
            sum == metrics::total(values(v@), i as nat),
            sumsq == metrics::total(squares(v@), i as nat),
            metrics::total(values(v@), v@.len()) <= u64::MAX,
            metrics::total(squares(v@), v@.len()) <= u64::MAX,
        decreases v@.len() - i,
    {
        let x: u64 = v[i] as u64;
        proof {
            lemma_square(x as int, 65535);
            assert(values(v@)(i as int) == x);
            assert(squares(v@)(i as int) == x * x);
            metrics::lemma_total_grows(values(v@), (i + 1) as nat, v@.len());
            metrics::lemma_total_grows(squares(v@), (i + 1) as nat, v@.len());
        }
        sum = sum + x;
        sumsq = sumsq + x * x;
        i = i + 1;
    }
    (sum, sumsq)
}

/// A scaled luma difference with 11 fractional bits, rounded to the nearest
/// integer; halves go away from zero.
pub open spec fn rounded_q11(p: int) -> int {
    if p < 0 {
        -((-p + 1024) / 2048)
    } else {
        (p + 1024) / 2048
    }
}

/// Chroma prediction from luma: a DC value and a scaled luma difference, limited
/// to the samples.
pub open spec fn cfl_sample(ac: int, alpha_q3: int, dc: int, maxv: int) -> int {
    let v = dc + rounded_q11(alpha_q3 * ac);
    if v < 0 {
        0
    } else if v > maxv {
        maxv
    } else {
        v
    }
}

/// Squared errors of a prediction from luma.
pub open spec fn cfl_errors(
    src: Seq<i32>,
    ac: Seq<i32>,
    alpha_q3: int,
    dc: int,
    maxv: int,
) -> spec_fn(int) -> nat {
    |i: int| square(src[i] - cfl_sample(ac[i] as int, alpha_q3, dc, maxv))
}

/// Every step of one squared error of a prediction from luma fits its type.
pub open spec fn cfl_fits(src: int, ac: int, alpha_q3: int, dc: int, maxv: int) -> bool {
    let p = alpha_q3 * ac;
    &&& -i32::MAX + 1024 <= p <= i32::MAX - 1024
    &&& i32::MIN <= dc + rounded_q11(p) <= i32::MAX
    &&& i32::MIN <= src - cfl_sample(ac, alpha_q3, dc, maxv) <= i32::MAX
}

/// Sum of squared errors of a prediction from luma, over as many samples as both
/// slices have.
pub fn cfl_sse_i32(src: &[i32], ac: &[i32], alpha_q3: i32, dc: i32, maxv: i32) -> (d: u64)
    requires
        maxv >= 0,
        forall|i: int|
            0 <= i < src@.len() && i < ac@.len() ==> cfl_fits(
                #[trigger] src@[i] as int,
                ac@[i] as int,
                alpha_q3 as int,
                dc as int,
                maxv as int,
            ),
        metrics::total(
            cfl_errors(src@, ac@, alpha_q3 as int, dc as int, maxv as int),
            plane::least(src@.len() as int, ac@.len() as int) as nat,
        ) <= u64::MAX,
    ensures
        d == metrics::total(
            cfl_errors(src@, ac@, alpha_q3 as int, dc as int, maxv as int),
            plane::least(src@.len() as int, ac@.len() as int) as nat,
        ),
{
    let n: usize = if src.len() < ac.len() {
        src.len()
    } else {
        ac.len()
    };
    let ghost errors = cfl_errors(src@, ac@, alpha_q3 as int, dc as int, maxv as int);
    let mut d: u64 = 0;
    let mut i: usize = 0;
    while i < n
        invariant
            i <= n,
            n <= src@.len(),
            n <= ac@.len(),
            maxv >= 0,
            errors == cfl_errors(src@, ac@, alpha_q3 as int, dc as int, maxv as int),
            forall|k: int|
                0 <= k < n ==> cfl_fits(
                    #[trigger] src@[k] as int,
                    ac@[k] as int,
                    alpha_q3 as int,
                    dc as int,
                    maxv as int,
                ),
            d == metrics::total(errors, i as nat),
            metrics::total(errors, n as nat) <= u64::MAX,
        decreases n - i,
    {
        let s: i64 = src[i] as i64;
        let a: i64 = ac[i] as i64;
        let al: i64 = alpha_q3 as i64;
        let p: i64 = al * a;
        let scaled: i64 = if p < 0 {
            -((-p + 1024) / 2048)
        } else {
            (p + 1024) / 2048
        };
        let v: i64 = dc as i64 + scaled;
        let pred: i64 = if v < 0 {
            0
        } else if v > maxv as i64 {
            maxv as i64
        } else {
            v
        };
        let e: i64 = s - pred;
        proof {
            lemma_square(e as int, 0x8000_0000);
            assert(errors(i as int) == square(e as int));
            metrics::lemma_total_grows(errors, (i + 1) as nat, n as nat);
        }
        d = d + (e * e) as u64;
        i = i + 1;
    }
    d
}

/// Without a scale the prediction is the DC value.
pub proof fn law_zero_scale_predicts_dc(ac: int, dc: int, maxv: int)
    requires
        0 <= dc <= maxv,
    ensures
        cfl_sample(ac, 0, dc, maxv) == dc,
{
    assert(0 * ac == 0);
}

/// Error of a sample of a 16x16 block.
pub open spec fn error16(src: Seq<u16>, rec: Seq<u16>, i: int) -> int {
    src[i] - rec[i]
}

/// Twice the cost of a sample of a 16x16 block: its squared error counts fully,
/// and the squared differences to the errors on its left and above it by half.
pub open spec fn costs16(src: Seq<u16>, rec: Seq<u16>) -> spec_fn(int) -> nat {
    |i: int|
        {
            let e = error16(src, rec, i);
            2 * square(e) + (if i % 16 != 0 {
                square(e - error16(src, rec, i - 1))
            } else {
                0
            }) + (if i >= 16 {
                square(e - error16(src, rec, i - 16))
            } else {
                0
            })
        }
}

/// Edge-aware distortion of a 16x16 block, counted in halves. The plain squared error
/// underprices ringing, whose errors are small and change from sample to sample.
pub fn tx16_distortion_halves(src: &[u16; 256], rec: &[u16]) -> (d: u64)
    requires
        rec@.len() == 256,
    ensures
        d == metrics::total(costs16(src@, rec@), 256),
{
    let mut d: u64 = 0;
    let mut i: usize = 0;
    while i < 256
        invariant
            i <= 256,
            rec@.len() == 256,
            d == metrics::total(costs16(src@, rec@), i as nat),
            d <= 0x10_0000_0000 * i,
        decreases 256 - i,
    {
        let e: i64 = src[i] as i64 - rec[i] as i64;
        proof {
            lemma_square(e as int, 65535);
        }
        let mut cost: u64 = 2 * (e * e) as u64;
        if i % 16 != 0 {
            let de: i64 = e - (src[i - 1] as i64 - rec[i - 1] as i64);
            proof {
                lemma_square(de as int, 131070);
            }
            cost = cost + (de * de) as u64;
        }
        if i >= 16 {
            let de: i64 = e - (src[i - 16] as i64 - rec[i - 16] as i64);
            proof {
                lemma_square(de as int, 131070);
            }
            cost = cost + (de * de) as u64;
        }
        proof {
            assert(costs16(src@, rec@)(i as int) == cost);
        }
        d = d + cost;
        i = i + 1;
    }
    d
}

/// A block that is off by the same amount everywhere costs its squared error
/// alone.
pub proof fn law_constant_error_has_no_edges(src: Seq<u16>, rec: Seq<u16>, e: int)
    requires
        forall|i: int| 0 <= i < 256 ==> #[trigger] error16(src, rec, i) == e,
    ensures
        metrics::total(costs16(src, rec), 256) == 512 * square(e),
{
    let flat = |i: int| 2 * square(e);
    assert(square(0) == 0);
    assert forall|i: int| 0 <= i < 256 implies #[trigger] costs16(src, rec)(i) == flat(i) by {
        assert(error16(src, rec, i) == e);
        if i % 16 != 0 {
            assert(error16(src, rec, i - 1) == e);
        }
        if i >= 16 {
            assert(error16(src, rec, i - 16) == e);
        }
    }
    lemma_total_same(costs16(src, rec), flat, 256);
    lemma_total_flat(2 * square(e), 256);
}

proof fn lemma_total_flat(v: nat, n: nat)
    ensures
        metrics::total(|i: int| v, n) == v * n,
    decreases n,
{
    if n > 0 {
        lemma_total_flat(v, (n - 1) as nat);
        assert(v * n == v * (n - 1) + v) by (nonlinear_arith);
    } else {
        assert(v * 0 == 0);
    }
}

/// Magnitudes of levels.
pub open spec fn level_magnitudes(levels: Seq<i32>) -> spec_fn(int) -> nat {
    |i: int| metrics::magnitude(levels[i] as int)
}

/// Sum of the magnitudes of levels.
pub fn coeff_abs_rate(levels: &[i32]) -> (d: u64)
    requires
        metrics::total(level_magnitudes(levels@), levels@.len()) <= u64::MAX,
    ensures
        d == metrics::total(level_magnitudes(levels@), levels@.len()),
{
    let mut d: u64 = 0;
    let mut i: usize = 0;
    while i < levels.len()
        invariant
            i <= levels@.len(),
            d == metrics::total(level_magnitudes(levels@), i as nat),
            metrics::total(level_magnitudes(levels@), levels@.len()) <= u64::MAX,
        decreases levels@.len() - i,
    {
        let v: i64 = levels[i] as i64;
        let m: u64 = if v < 0 {
            (-v) as u64
        } else {
            v as u64
        };
        proof {
            assert(level_magnitudes(levels@)(i as int) == m);
            metrics::lemma_total_grows(level_magnitudes(levels@), (i + 1) as nat, levels@.len());
        }
        d = d + m;
        i = i + 1;
    }
    d
}

/// Sample `c` of row `r` of a rectangle is that of the plane `r` rows below and `c`
/// columns to the right of its corner.
pub proof fn law_rect_is_read_in_place(p: PlaneRect, r: int, c: int)
    ensures
        p.at(r, c) == p.plane@[(p.y + r) * p.stride + p.x + c],
{
}

/// The error of a rectangle grows by the squared difference of each sample that is
/// added to its last row, and by a whole row of them for each row.
pub proof fn law_error_adds_squares(a: PlaneRect, b: PlaneRect, w: nat, h: nat, r: int)
    ensures
        ({
            let d = a.at(r, w as int) - b.at(r, w as int);
            &&& rows_errors(a, b, w + 1)(r) == rows_errors(a, b, w)(r) + d * d
            &&& rows_errors(a, b, 0)(r) == 0
            &&& rect_error(a, b, w, h + 1) == rect_error(a, b, w, h) + rows_errors(a, b, w)(
                h as int,
            )
            &&& rect_error(a, b, w, 0) == 0
        }),
{
    let d = a.at(r, w as int) - b.at(r, w as int);
    assert(d * d >= 0) by (nonlinear_arith);
}

/// The error against one value is the error against a rectangle of that value.
pub proof fn law_constant_error_is_an_error(
    a: PlaneRect,
    b: PlaneRect,
    v: int,
    w: nat,
    h: nat,
)
    requires
        forall|r: int, c: int| 0 <= r < h && 0 <= c < w ==> #[trigger] b.at(r, c) == v,
    ensures
        metrics::total(rows_errors_const(a, v, w), h) == rect_error(a, b, w, h),
{
    let (f, g) = (rows_errors_const(a, v, w), rows_errors(a, b, w));
    assert forall|r: int| 0 <= r < h implies #[trigger] f(r) == g(r) by {
        let (x, y) = (row_errors_const(a, v, r), row_errors(a, b, r));
        assert forall|c: int| 0 <= c < w implies #[trigger] x(c) == y(c) by {
            assert(b.at(r, c) == v);
        }
        metrics::lemma_total_same(x, y, w);
    }
    metrics::lemma_total_same(f, g, h);
}

/// The two sums of a run of samples grow by each sample and by its square.
pub proof fn law_sums_add_samples_and_squares(v: Seq<u16>, x: u16)
    ensures
        ({
            let (s, n) = (v.push(x), v.len());
            &&& metrics::total(values(s), n + 1) == metrics::total(values(v), n) + x
            &&& metrics::total(squares(s), n + 1) == metrics::total(squares(v), n) + x * x
        }),
{
    let s = v.push(x);
    metrics::lemma_total_same(values(s), values(v), v.len());
    metrics::lemma_total_same(squares(s), squares(v), v.len());
    assert(x * x >= 0) by (nonlinear_arith);
}

/// Chroma predicted from luma is the mean plus the scaled luma contrast, the scale
/// having eleven fractional bits with those of the contrast, rounded to nearest and
/// held in range.
pub proof fn law_chroma_follows_luma(ac: int, alpha_q3: int, dc: int, maxv: int)
    requires
        maxv >= 0,
    ensures
        ({
            let s = cfl_sample(ac, alpha_q3, dc, maxv);
            let p = alpha_q3 * ac;
            &&& 0 <= s <= maxv
            &&& s < maxv ==> p - 1024 <= 2048 * (s - dc)
            &&& s > 0 ==> 2048 * (s - dc) <= p + 1024
            &&& 0 < s < maxv && 2048 * (s - dc) == p - 1024 ==> p < 0
            &&& 0 < s < maxv && 2048 * (s - dc) == p + 1024 ==> p > 0
        }),
{
}

/// The cost of a sample of a 16x16 block counts its error twice and once each the
/// steps of the error from the sample to its left and from the one above.
pub proof fn law_cost_counts_errors_and_edges(src: Seq<u16>, rec: Seq<u16>, r: int, c: int)
    requires
        0 <= r < 16,
        0 <= c < 16,
    ensures
        ({
            let e = |y: int, x: int| src[16 * y + x] - rec[16 * y + x];
            let own = 2 * (e(r, c) * e(r, c));
            let across = if c > 0 {
                (e(r, c) - e(r, c - 1)) * (e(r, c) - e(r, c - 1))
            } else {
                0
            };
            let down = if r > 0 {
                (e(r, c) - e(r - 1, c)) * (e(r, c) - e(r - 1, c))
            } else {
                0
            };
            costs16(src, rec)(16 * r + c) == own + across + down
        }),
{
    let e = error16(src, rec, 16 * r + c);
    assert(e * e >= 0) by (nonlinear_arith);
    let (a, d) = (e - error16(src, rec, 16 * r + c - 1), e - error16(src, rec, 16 * r + c - 16));
    assert(a * a >= 0) by (nonlinear_arith);
    assert(d * d >= 0) by (nonlinear_arith);
    assert((16 * r + c) % 16 == c);
    assert(16 * r + c - 16 == 16 * (r - 1) + c);
    assert(16 * r + c - 1 == 16 * r + (c - 1));
}

/// The rate of a run of levels grows by the size of each, whatever its sign.
pub proof fn law_rate_adds_magnitudes(levels: Seq<i32>, x: i32)
    ensures
        metrics::total(level_magnitudes(levels.push(x)), levels.len() + 1) == metrics::total(
            level_magnitudes(levels),
            levels.len(),
        ) + (if x < 0 {
            -x
        } else {
            x as int
        }),
{
    metrics::lemma_total_same(
        level_magnitudes(levels.push(x)),
        level_magnitudes(levels),
        levels.len(),
    );
}

/// The error of chroma predicted from luma is that of each sample against its
/// prediction: nothing where the source is the prediction.
pub proof fn law_chroma_errors_are_against_the_prediction(
    src: Seq<i32>,
    ac: Seq<i32>,
    alpha_q3: int,
    dc: int,
    maxv: int,
    i: int,
)
    ensures
        ({
            let d = src[i] - cfl_sample(ac[i] as int, alpha_q3, dc, maxv);
            let e = cfl_errors(src, ac, alpha_q3, dc, maxv)(i);
            &&& e == d * d
            &&& e == 0 <==> src[i] == cfl_sample(ac[i] as int, alpha_q3, dc, maxv)
        }),
{
    let d = src[i] - cfl_sample(ac[i] as int, alpha_q3, dc, maxv);
    assert(d * d >= 0) by (nonlinear_arith);
    assert(d != 0 ==> d * d > 0) by (nonlinear_arith);
}

} // verus!
