//! Row-major sample planes: padding, cropping and block access.

use vstd::arithmetic::div_mod::*;
use vstd::arithmetic::mul::*;
use vstd::prelude::*;

verus! {

/// The smaller of two numbers.
pub open spec fn least(a: int, b: int) -> int {
    if a <= b {
        a
    } else {
        b
    }
}

/// A rectangle of `w` by `h` samples at `(y, x)` lies in a plane of `len`
/// samples whose rows are `stride` apart.
pub open spec fn rect_fits(len: nat, stride: nat, y: nat, x: nat, w: nat, h: nat) -> bool {
    w == 0 || h == 0 || (y + h - 1) * stride + x + w <= len
}

/// The samples of a rectangle, row by row.
pub open spec fn rect_samples<T>(
    plane: Seq<T>,
    stride: nat,
    y: nat,
    x: nat,
    w: nat,
    h: nat,
) -> Seq<T> {
    Seq::new(w * h, |i: int| plane[(y + i / w as int) * stride + x + i % w as int])
}

/// A plane with a row-major block of `w` by `h` samples written at `(y, x)`.
pub open spec fn with_rect<T>(
    plane: Seq<T>,
    stride: nat,
    y: nat,
    x: nat,
    w: nat,
    h: nat,
    block: Seq<T>,
) -> Seq<T> {
    Seq::new(
        plane.len(),
        |i: int|
            {
                let r = i / stride as int - y;
                let c = i % stride as int - x;
                if 0 <= r < h && 0 <= c < w {
                    block[r * w + c]
                } else {
                    plane[i]
                }
            },
    )
}

/// Position `(r, c)` of a row-major block of width `w`.
pub proof fn lemma_row_col(r: int, c: int, w: int)
    requires
        0 <= c < w,
        r >= 0,
    ensures
        (r * w + c) / w == r,
        (r * w + c) % w == c,
        r * w + c >= 0,
{
    lemma_fundamental_div_mod_converse(r * w + c, w, r, c);
    assert(r * w >= 0) by (nonlinear_arith)
        requires
            r >= 0,
            w > 0,
    ;
    assert(r * w == w * r) by (nonlinear_arith);
}

/// A position inside a row-major block lies before its end.
pub proof fn lemma_in_block(r: int, c: int, w: int, h: int)
    requires
        0 <= c < w,
        0 <= r < h,
    ensures
        0 <= r * w + c < w * h,
{
    assert(r * w + c < w * h) by (nonlinear_arith)
        requires
            0 <= c < w,
            0 <= r < h,
    ;
    assert(0 <= r * w) by (nonlinear_arith)
        requires
            r >= 0,
            w > 0,
    ;
}

/// Row and column of a position inside a row-major block.
pub proof fn lemma_block_pos(i: int, w: int, h: int)
    requires
        0 <= i < w * h,
        w > 0,
    ensures
        0 <= i / w < h,
        0 <= i % w < w,
        i == (i / w) * w + i % w,
{
    lemma_fundamental_div_mod(i, w);
    lemma_mod_bound(i, w);
    assert(i / w < h) by (nonlinear_arith)
        requires
            i < w * h,
            i == w * (i / w) + i % w,
            0 <= i % w,
            w > 0,
    ;
    assert(0 <= i / w) by (nonlinear_arith)
        requires
            0 <= i,
            w > 0,
    ;
    assert((i / w) * w == w * (i / w)) by (nonlinear_arith);
}

/// A sample of a rectangle lies in the plane.
pub proof fn lemma_rect_index(len: nat, stride: nat, y: nat, x: nat, w: nat, h: nat, r: nat, c: nat)
    requires
        rect_fits(len, stride, y, x, w, h),
        r < h,
        c < w,
    ensures
        0 <= (y + r) * stride,
        (y + r) * stride + x + c < len,
{
    assert((y + r) * stride <= (y + h - 1) * stride) by (nonlinear_arith)
        requires
            r <= h - 1,
            stride >= 0,
    ;
    assert(0 <= (y + r) * stride) by (nonlinear_arith)
        requires
            0 <= y + r,
            stride >= 0,
    ;
}

/// Size rounded up to whole 64-pixel superblocks.
pub open spec fn sb_aligned(n: nat) -> nat {
    (n + 63) / 64 * 64
}

/// SB-aligned (multiple of 64) size for a given dimension.
pub fn sb_align(n: usize) -> (r: usize)
    requires
        sb_aligned(n as nat) <= usize::MAX,
    ensures
        r == sb_aligned(n as nat),
        r >= n,
        r % 64 == 0,
        r < n + 64,
{
    let whole: usize = n / 64;
    if n % 64 == 0 {
        whole * 64
    } else {
        (whole + 1) * 64
    }
}

/// Sample `(y, x)` of a plane grown from `w` by `h` samples: the last row and
/// column repeat.
pub open spec fn padded_sample<T>(src: Seq<T>, w: nat, h: nat, y: int, x: int) -> T {
    src[least(y, h - 1) * w + least(x, w - 1)]
}

/// A plane grown from `w` by `h` to `pw` by `ph` samples. One that has its final
/// size already stays as it is.
pub open spec fn grown<T>(src: Seq<T>, w: nat, h: nat, pw: nat, ph: nat) -> Seq<T> {
    if pw == w && ph == h {
        src
    } else {
        Seq::new(pw * ph, |i: int| padded_sample(src, w, h, i / pw as int, i % pw as int))
    }
}

/// Copy a `width` by `height` plane into a larger one, repeating the last row
/// and column.
pub fn pad_plane_pixels<T: Copy>(
    src: &[T],
    width: usize,
    height: usize,
    padded_width: usize,
    padded_height: usize,
) -> (out: Vec<T>)
    requires
        width >= 1,
        height >= 1,
        src@.len() >= least(height as int, padded_height as int) * width,
        padded_width * padded_height <= usize::MAX,
    ensures
        out@.len() == padded_width * padded_height,
        forall|y: int, x: int|
            0 <= y < padded_height && 0 <= x < padded_width ==> #[trigger] out@[y * padded_width + x]
                == padded_sample(src@, width as nat, height as nat, y, x),
{
    let len: usize = src.len();
    let mut out: Vec<T> = Vec::new();
    let mut y: usize = 0;
    assert(0 * padded_width == 0) by (nonlinear_arith);
    while y < padded_height
        invariant
            y <= padded_height,
            len == src@.len(),
            width >= 1,
            height >= 1,
            src@.len() >= least(height as int, padded_height as int) * width,
            padded_width * padded_height <= usize::MAX,
            out@.len() == y * padded_width,
            forall|r: int, c: int|
                0 <= r < y && 0 <= c < padded_width ==> #[trigger] out@[r * padded_width + c]
                    == padded_sample(src@, width as nat, height as nat, r, c),
        decreases padded_height - y,
    {
        let sy: usize = if y < height - 1 {
            y
        } else {
            height - 1
        };
        assert(sy * width + width <= src@.len()) by (nonlinear_arith)
            requires
                sy + 1 <= least(height as int, padded_height as int),
                src@.len() >= least(height as int, padded_height as int) * width,
        ;
        let base: usize = sy * width;
        let mut x: usize = 0;
        while x < padded_width
            invariant
                y < padded_height,
                len == src@.len(),
                x <= padded_width,
                width >= 1,
                height >= 1,
                base == sy * width,
                sy == least(y as int, height - 1),
                base + width <= src@.len(),
                out@.len() == y * padded_width + x,
                forall|r: int, c: int|
                    0 <= r < y && 0 <= c < padded_width ==> #[trigger] out@[r * padded_width + c]
                        == padded_sample(src@, width as nat, height as nat, r, c),
                forall|c: int|
                    0 <= c < x ==> #[trigger] out@[y * padded_width + c] == padded_sample(
                        src@,
                        width as nat,
                        height as nat,
                        y as int,
                        c,
                    ),
            decreases padded_width - x,
        {
            let sx: usize = if x < width - 1 {
                x
            } else {
                width - 1
            };
            let ghost before = out@;
            out.push(src[base + sx]);
            proof {
                assert forall|r: int, c: int| 0 <= r < y && 0 <= c < padded_width implies #[trigger] out@[r
                    * padded_width + c] == padded_sample(
                    src@,
                    width as nat,
                    height as nat,
                    r,
                    c,
                ) by {
                    lemma_in_block(r, c, padded_width as int, y as int);
                    lemma_mul_is_commutative(padded_width as int, y as int);
                    assert(out@[r * padded_width + c] == before[r * padded_width + c]);
                }
            }
            x = x + 1;
        }
        assert((y + 1) * padded_width == y * padded_width + padded_width) by (nonlinear_arith);
        y = y + 1;
    }
    assert(padded_height * padded_width == padded_width * padded_height) by (nonlinear_arith);
    out
}

/// Grow a `w` by `h` plane to the superblock grid. A plane that has its final
/// size already is taken over whole.
pub fn pad_plane<T: Copy>(src: &[T], w: usize, h: usize, pw: usize, ph: usize) -> (out: Vec<T>)
    requires
        w >= 1,
        h >= 1,
        pw >= w,
        pw == w && ph == h || src@.len() >= least(h as int, ph as int) * w,
        pw * ph <= usize::MAX,
    ensures
        pw == w && ph == h ==> out@ == src@,
        !(pw == w && ph == h) ==> {
            &&& out@.len() == pw * ph
            &&& forall|y: int, x: int|
                0 <= y < ph && 0 <= x < pw ==> #[trigger] out@[y * pw + x] == padded_sample(
                    src@,
                    w as nat,
                    h as nat,
                    y,
                    x,
                )
        },
{
    if pw == w && ph == h {
        let mut out: Vec<T> = Vec::new();
        let mut i: usize = 0;
        while i < src.len()
            invariant
                i <= src@.len(),
                out@ =~= src@.take(i as int),
            decreases src@.len() - i,
        {
            out.push(src[i]);
            i = i + 1;
        }
        assert(src@.take(src@.len() as int) =~= src@);
        out
    } else {
        pad_plane_pixels(src, w, h, pw, ph)
    }
}

/// Copy the `width` by `height` rectangle at `(x0, y0)` out of a plane.
pub fn extract_subplane_pixels<T: Copy>(
    src: &[T],
    stride: usize,
    x0: usize,
    y0: usize,
    width: usize,
    height: usize,
) -> (out: Vec<T>)
    requires
        rect_fits(
            src@.len(),
            stride as nat,
            y0 as nat,
            x0 as nat,
            width as nat,
            height as nat,
        ),
        y0 + height <= usize::MAX,
    ensures
        out@ == rect_samples(
            src@,
            stride as nat,
            y0 as nat,
            x0 as nat,
            width as nat,
            height as nat,
        ),
{
    let len: usize = src.len();
    let mut out: Vec<T> = Vec::new();
    let ghost whole = rect_samples(
        src@,
        stride as nat,
        y0 as nat,
        x0 as nat,
        width as nat,
        height as nat,
    );
    if width == 0 {
        assert(width * height == 0) by (nonlinear_arith)
            requires
                width == 0,
        ;
        assert(out@ =~= whole);
        return out;
    }
    let mut row: usize = 0;
    assert(0 * width == 0) by (nonlinear_arith);
    assert(out@ =~= whole.take(0));
    while row < height
        invariant
            row <= height,
            len == src@.len(),
            width > 0,
            y0 + height <= usize::MAX,
            rect_fits(
                src@.len(),
                stride as nat,
                y0 as nat,
                x0 as nat,
                width as nat,
                height as nat,
            ),
            whole == rect_samples(
                src@,
                stride as nat,
                y0 as nat,
                x0 as nat,
                width as nat,
                height as nat,
            ),
            out@ == whole.take(row * width),
            row * width <= whole.len(),
        decreases height - row,
    {
        proof {
            lemma_rect_index(
                src@.len(),
                stride as nat,
                y0 as nat,
                x0 as nat,
                width as nat,
                height as nat,
                row as nat,
                (width - 1) as nat,
            );
        }
        let base: usize = (y0 + row) * stride + x0;
        let mut col: usize = 0;
        while col < width
            invariant
                row < height,
                len == src@.len(),
                col <= width,
                base == (y0 + row) * stride + x0,
                base + width <= src@.len(),
                whole == rect_samples(
                    src@,
                    stride as nat,
                    y0 as nat,
                    x0 as nat,
                    width as nat,
                    height as nat,
                ),
                out@ == whole.take(row * width + col),
                row * width + col <= whole.len(),
            decreases width - col,
        {
            proof {
                lemma_row_col(row as int, col as int, width as int);
                lemma_in_block(row as int, col as int, width as int, height as int);
            }
            out.push(src[base + col]);
            assert(whole.take(row * width + col + 1) =~= whole.take(row * width + col).push(
                whole[row * width + col],
            ));
            col = col + 1;
        }
        assert((row + 1) * width == row * width + width) by (nonlinear_arith);
        row = row + 1;
    }
    assert(height * width == width * height) by (nonlinear_arith);
    assert(whole.take(whole.len() as int) =~= whole);
    out
}

/// A rectangle of whole rows: it lies in a plane whose rows are complete.
pub open spec fn rect_in_rows(len: nat, stride: nat, y: nat, x: nat, w: nat, h: nat) -> bool {
    &&& x + w <= stride
    &&& (y + h) * stride <= len
}

proof fn lemma_rect_in_rows_fits(len: nat, stride: nat, y: nat, x: nat, w: nat, h: nat)
    requires
        rect_in_rows(len, stride, y, x, w, h),
    ensures
        rect_fits(len, stride, y, x, w, h),
{
    if w > 0 && h > 0 {
        assert((y + h) * stride == (y + h - 1) * stride + stride) by (nonlinear_arith);
    }
}

/// The rows of a rectangle, from top to bottom.
pub fn rect_rows<'a, T>(
    plane: &'a [T],
    stride: usize,
    y: usize,
    x: usize,
    width: usize,
    height: usize,
) -> (rows: Vec<&'a [T]>)
    requires
        rect_in_rows(plane@.len(), stride as nat, y as nat, x as nat, width as nat, height as nat),
        y + height <= usize::MAX,
    ensures
        rows@.len() == height,
        forall|r: int|
            0 <= r < height ==> (#[trigger] rows@[r])@ == plane@.subrange(
                (y + r) * stride + x,
                (y + r) * stride + x + width,
            ),
{
    let len: usize = plane.len();
    let mut rows: Vec<&'a [T]> = Vec::new();
    let mut r: usize = 0;
    while r < height
        invariant
            r <= height,
            len == plane@.len(),
            y + height <= usize::MAX,
            x + width <= stride,
            (y + height) * stride <= len,
            rows@.len() == r,
            forall|k: int|
                0 <= k < r ==> (#[trigger] rows@[k])@ == plane@.subrange(
                    (y + k) * stride + x,
                    (y + k) * stride + x + width,
                ),
        decreases height - r,
    {
        assert((y + r) * stride + stride <= len) by (nonlinear_arith)
            requires
                r + 1 <= height,
                (y + height) * stride <= len,
                stride >= 0,
        ;
        let base: usize = (y + r) * stride + x;
        rows.push(vstd::slice::slice_subrange(plane, base, base + width));
        r = r + 1;
    }
    rows
}

/// Write a row-major block of `bw` by `bh` samples into a plane.
pub fn put_block_rect<T: Copy>(
    plane: &mut Vec<T>,
    stride: usize,
    y0: usize,
    x0: usize,
    bw: usize,
    bh: usize,
    block: &[T],
)
    requires
        bw >= 1,
        rect_in_rows(
            old(plane)@.len(),
            stride as nat,
            y0 as nat,
            x0 as nat,
            bw as nat,
            bh as nat,
        ),
        y0 + bh <= usize::MAX,
        block@.len() >= bw * bh,
    ensures
        final(plane)@ == with_rect(
            old(plane)@,
            stride as nat,
            y0 as nat,
            x0 as nat,
            bw as nat,
            bh as nat,
            block@,
        ),
{
    let len: usize = plane.len();
    let blen: usize = block.len();
    let ghost before = plane@;
    let mut r: usize = 0;
    assert(plane@ =~= with_rect(
        before,
        stride as nat,
        y0 as nat,
        x0 as nat,
        bw as nat,
        0,
        block@,
    ));
    while r < bh
        invariant
            r <= bh,
            bw >= 1,
            len == before.len(),
            blen == block@.len(),
            blen >= bw * bh,
            y0 + bh <= usize::MAX,
            x0 + bw <= stride,
            (y0 + bh) * stride <= len,
            plane@ == with_rect(
                before,
                stride as nat,
                y0 as nat,
                x0 as nat,
                bw as nat,
                r as nat,
                block@,
            ),
        decreases bh - r,
    {
        assert((y0 + r) * stride + stride <= len) by (nonlinear_arith)
            requires
                r + 1 <= bh,
                (y0 + bh) * stride <= len,
                stride >= 0,
        ;
        assert(r * bw + bw <= bw * bh) by (nonlinear_arith)
            requires
                r + 1 <= bh,
                bw >= 0,
        ;
        assert(0 <= (y0 + r) * stride && 0 <= r * bw) by (nonlinear_arith)
            requires
                y0 + r >= 0,
                stride >= 0,
                r >= 0,
                bw >= 0,
        ;
        let base: usize = (y0 + r) * stride + x0;
        let from: usize = r * bw;
        let ghost rows_before = plane@;
        let mut c: usize = 0;
        while c < bw
            invariant
                c <= bw,
                r < bh,
                x0 + bw <= stride,
                base == (y0 + r) * stride + x0,
                (y0 + r) * stride + stride <= len,
                from == r * bw,
                from + bw <= blen == block@.len(),
                len == rows_before.len(),
                plane@.len() == len,
                forall|i: int|
                    0 <= i < len ==> #[trigger] plane@[i] == if base <= i < base + c {
                        block@[from + (i - base)]
                    } else {
                        rows_before[i]
                    },
            decreases bw - c,
        {
            plane.set(base + c, block[from + c]);
            c = c + 1;
        }
        proof {
            let next = with_rect(
                before,
                stride as nat,
                y0 as nat,
                x0 as nat,
                bw as nat,
                (r + 1) as nat,
                block@,
            );
            assert forall|i: int| 0 <= i < len implies plane@[i] == next[i] by {
                let row = i / stride as int;
                let col = i % stride as int;
                lemma_fundamental_div_mod(i, stride as int);
                lemma_mod_bound(i, stride as int);
                if row == y0 + r {
                    assert(i == (y0 + r) * stride + col) by (nonlinear_arith)
                        requires
                            i == stride * row + col,
                            row == y0 + r,
                    ;
                } else {
                    if base <= i < base + bw {
                        lemma_row_col((y0 + r) as int, i - (y0 + r) * stride, stride as int);
                    }
                }
            }
            assert(plane@ =~= next);
        }
        r = r + 1;
    }
}

/// Write a square block into a plane.
pub fn put_block<T: Copy>(
    plane: &mut Vec<T>,
    stride: usize,
    y0: usize,
    x0: usize,
    bs: usize,
    block: &[T],
)
    requires
        bs >= 1,
        rect_in_rows(
            old(plane)@.len(),
            stride as nat,
            y0 as nat,
            x0 as nat,
            bs as nat,
            bs as nat,
        ),
        y0 + bs <= usize::MAX,
        block@.len() >= bs * bs,
    ensures
        final(plane)@ == with_rect(
            old(plane)@,
            stride as nat,
            y0 as nat,
            x0 as nat,
            bs as nat,
            bs as nat,
            block@,
        ),
{
    put_block_rect(plane, stride, y0, x0, bs, bs, block);
}

/// Writing a block and reading the same rectangle gives the block back.
pub proof fn law_block_reads_back<T>(
    plane: Seq<T>,
    stride: nat,
    y: nat,
    x: nat,
    w: nat,
    h: nat,
    block: Seq<T>,
)
    requires
        rect_in_rows(plane.len(), stride, y, x, w, h),
        block.len() == w * h,
    ensures
        rect_samples(with_rect(plane, stride, y, x, w, h, block), stride, y, x, w, h) == block,
{
    let got = rect_samples(with_rect(plane, stride, y, x, w, h, block), stride, y, x, w, h);
    lemma_rect_in_rows_fits(plane.len(), stride, y, x, w, h);
    assert forall|i: int| 0 <= i < block.len() implies got[i] == block[i] by {
        if w == 0 {
            assert(w * h == 0) by (nonlinear_arith)
                requires
                    w == 0,
            ;
        }
        lemma_block_pos(i, w as int, h as int);
        let r = i / w as int;
        let c = i % w as int;
        lemma_rect_index(plane.len(), stride, y, x, w, h, r as nat, c as nat);
        lemma_row_col(y + r, x + c, stride as int);
    }
    assert(got =~= block);
}

/// Difference of a rectangle of samples and one predicted value, row by row.
pub open spec fn residual_of(
    plane: Seq<u16>,
    stride: nat,
    y: nat,
    x: nat,
    w: nat,
    h: nat,
    pred: int,
) -> Seq<i32> {
    rect_samples(plane, stride, y, x, w, h).map_values(|s: u16| (s - pred) as i32)
}

/// Residual of a `bw`-wide and `bh`-tall block, row-major.
pub fn get_residual_rect(
    plane: &[u16],
    stride: usize,
    y0: usize,
    x0: usize,
    bw: usize,
    bh: usize,
    pred: u16,
) -> (r: Vec<i32>)
    requires
        rect_fits(plane@.len(), stride as nat, y0 as nat, x0 as nat, bw as nat, bh as nat),
        y0 + bh <= usize::MAX,
    ensures
        r@ == residual_of(
            plane@,
            stride as nat,
            y0 as nat,
            x0 as nat,
            bw as nat,
            bh as nat,
            pred as int,
        ),
{
    let samples: Vec<u16> = extract_subplane_pixels(plane, stride, x0, y0, bw, bh);
    let ghost want = samples@.map_values(|s: u16| (s - pred) as i32);
    let mut r: Vec<i32> = Vec::new();
    let mut i: usize = 0;
    while i < samples.len()
        invariant
            i <= samples@.len(),
            want == samples@.map_values(|s: u16| (s - pred) as i32),
            r@ =~= want.take(i as int),
        decreases samples@.len() - i,
    {
        r.push(samples[i] as i32 - pred as i32);
        i = i + 1;
    }
    assert(want.take(want.len() as int) =~= want);
    r
}

/// Residual of a square block, row-major.
pub fn get_residual(
    plane: &[u16],
    stride: usize,
    y0: usize,
    x0: usize,
    bs: usize,
    pred: u16,
) -> (r: Vec<i32>)
    requires
        rect_fits(plane@.len(), stride as nat, y0 as nat, x0 as nat, bs as nat, bs as nat),
        y0 + bs <= usize::MAX,
    ensures
        r@ == residual_of(
            plane@,
            stride as nat,
            y0 as nat,
            x0 as nat,
            bs as nat,
            bs as nat,
            pred as int,
        ),
{
    get_residual_rect(plane, stride, y0, x0, bs, bs, pred)
}

/// Sample `c` of row `r` of a rectangle is that of the plane `r` rows below and `c`
/// columns to the right of its corner.
pub proof fn law_rect_is_read_by_rows<T>(
    plane: Seq<T>,
    stride: nat,
    y: nat,
    x: nat,
    w: nat,
    h: nat,
    r: int,
    c: int,
)
    requires
        0 <= r < h,
        0 <= c < w,
    ensures
        rect_samples(plane, stride, y, x, w, h).len() == w * h,
        rect_samples(plane, stride, y, x, w, h)[r * w + c] == plane[(y + r) * stride + x + c],
{
    lemma_in_block(r, c, w as int, h as int);
    lemma_fundamental_div_mod_converse(r * w + c, w as int, r, c);
}

/// A block that is put into a plane lands in its rectangle row by row, and every
/// other sample of the plane stays.
pub proof fn law_block_lands_in_its_rect<T>(
    plane: Seq<T>,
    stride: nat,
    y: nat,
    x: nat,
    w: nat,
    h: nat,
    block: Seq<T>,
    r: int,
    c: int,
)
    requires
        rect_in_rows(plane.len(), stride, y, x, w, h),
        0 <= r,
        0 <= c < stride,
        r * stride + c < plane.len(),
    ensures
        ({
            let after = with_rect(plane, stride, y, x, w, h, block)[r * stride + c];
            if y <= r < y + h && x <= c < x + w {
                after == block[(r - y) * w + (c - x)]
            } else {
                after == plane[r * stride + c]
            }
        }),
{
    lemma_fundamental_div_mod_converse(r * stride + c, stride as int, r, c);
    assert(0 <= r * stride) by (nonlinear_arith)
        requires
            r >= 0,
            stride >= 0,
    ;
}

/// Growing a plane keeps its samples in their places, repeats the last of each row
/// to the right and the last row below.
pub proof fn law_growing_repeats_the_edges<T>(
    src: Seq<T>,
    w: nat,
    h: nat,
    pw: nat,
    ph: nat,
    y: int,
    x: int,
)
    requires
        1 <= w <= pw,
        1 <= h <= ph,
        src.len() == w * h,
        0 <= y < ph,
        0 <= x < pw,
    ensures
        ({
            let out = grown(src, w, h, pw, ph);
            &&& out.len() == pw * ph
            &&& y < h && x < w ==> out[y * pw + x] == src[y * w + x]
            &&& y < h && x >= w ==> out[y * pw + x] == src[y * w + w - 1]
            &&& y >= h && x < w ==> out[y * pw + x] == src[(h - 1) * w + x]
            &&& y >= h && x >= w ==> out[y * pw + x] == src[(h - 1) * w + w - 1]
        }),
{
    lemma_in_block(y, x, pw as int, ph as int);
    lemma_fundamental_div_mod_converse(y * pw + x, pw as int, y, x);
    if pw == w && ph == h {
        assert(y * pw + x == y * w + x);
    } else {
        assert(grown(src, w, h, pw, ph)[y * pw + x] == padded_sample(src, w, h, y, x));
    }
}

/// A padded sample is the nearest one of the plane.
pub proof fn law_padding_takes_the_nearest_sample<T>(src: Seq<T>, w: nat, h: nat, y: int, x: int)
    requires
        w >= 1,
        h >= 1,
        y >= 0,
        x >= 0,
    ensures
        y < h && x < w ==> padded_sample(src, w, h, y, x) == src[y * w + x],
        x >= w ==> padded_sample(src, w, h, y, x) == padded_sample(src, w, h, y, w - 1),
        y >= h ==> padded_sample(src, w, h, y, x) == padded_sample(src, w, h, h - 1, x),
{
}

/// A residual and its prediction make the sample.
pub proof fn law_residual_and_prediction_make_the_sample(
    plane: Seq<u16>,
    stride: nat,
    y: nat,
    x: nat,
    w: nat,
    h: nat,
    pred: u16,
    r: int,
    c: int,
)
    requires
        0 <= r < h,
        0 <= c < w,
    ensures
        residual_of(plane, stride, y, x, w, h, pred as int).len() == w * h,
        residual_of(plane, stride, y, x, w, h, pred as int)[r * w + c] + pred == plane[(y + r)
            * stride + x + c],
{
    law_rect_is_read_by_rows(plane, stride, y, x, w, h, r, c);
    lemma_in_block(r, c, w as int, h as int);
}

/// Aligned sides are the next multiple of 64.
pub proof fn law_aligned_is_the_next_multiple(n: nat)
    ensures
        sb_aligned(n) % 64 == 0,
        n <= sb_aligned(n) < n + 64,
{
}

} // verus!
