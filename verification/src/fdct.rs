//! Forward cosine transform by folding, in wrapping 32-bit arithmetic.
//!
//! The kernels are `n` by `n` matrices with one row per frequency. A fold adds
//! or subtracts the mirrored half of a line, which halves the products that a
//! row of a symmetric kernel needs.

use crate::itx422;
use crate::num;
use crate::plane;
use vstd::arithmetic::power2::*;
use vstd::prelude::*;

verus! {

/// Sides of a transform.
pub open spec fn is_side(n: int) -> bool {
    n == 4 || n == 8 || n == 16 || n == 32 || n == 64
}

/// Sum of each entry and its mirror.
pub open spec fn add_fold(v: Seq<int>) -> Seq<int> {
    Seq::new(v.len() / 2, |k: int| v[k] + v[v.len() - 1 - k])
}

/// Difference of each entry and its mirror.
pub open spec fn sub_fold(v: Seq<int>) -> Seq<int> {
    Seq::new(v.len() / 2, |k: int| v[k] - v[v.len() - 1 - k])
}

/// Sum of the first `n` products of a kernel row and a line.
pub open spec fn row_dot(kernel: Seq<i8>, at: int, v: Seq<int>, n: nat) -> int
    decreases n,
{
    if n == 0 {
        0
    } else {
        row_dot(kernel, at, v, (n - 1) as nat) + kernel[at + n - 1] * v[n - 1]
    }
}

/// Product of a kernel row and a line, folded: even rows fold by sums as long as
/// more than two entries are left, odd ones by differences once.
pub open spec fn folded_dot(kernel: Seq<i8>, at: int, row: nat, v: Seq<int>) -> int
    decreases v.len(),
{
    if v.len() <= 2 {
        row_dot(kernel, at, v, v.len())
    } else if row % 2 == 0 {
        folded_dot(kernel, at, row / 2, add_fold(v))
    } else {
        row_dot(kernel, at, sub_fold(v), v.len() / 2)
    }
}

/// A kernel row that a fold loses nothing of: its mirror is the same where it
/// folds by sums, the negative where it folds by differences.
pub open spec fn row_folds(kernel: Seq<i8>, at: int, row: nat, n: nat) -> bool
    decreases n,
{
    if n <= 2 {
        true
    } else if row % 2 == 0 {
        &&& forall|k: int| 0 <= k < n / 2 ==> kernel[at + n - 1 - k] == #[trigger] kernel[at + k]
        &&& row_folds(kernel, at, row / 2, n / 2)
    } else {
        forall|k: int| 0 <= k < n / 2 ==> kernel[at + n - 1 - k] == -#[trigger] kernel[at + k]
    }
}

/// For a kernel row with mirror symmetry the folded product is the whole
/// product.
pub proof fn law_folding_keeps_the_product(kernel: Seq<i8>, at: int, row: nat, v: Seq<int>)
    requires
        row_folds(kernel, at, row, v.len()),
        v.len() == 2 || is_side(v.len() as int),
    ensures
        folded_dot(kernel, at, row, v) == row_dot(kernel, at, v, v.len()),
    decreases v.len(),
{
    let n = v.len();
    if n > 2 {
        if row % 2 == 0 {
            law_folding_keeps_the_product(kernel, at, row / 2, add_fold(v));
            lemma_fold_pairs(kernel, at, v, n / 2, 1);
        } else {
            lemma_fold_pairs(kernel, at, v, n / 2, -1);
        }
    }
}

/// Products of the first and the last `k` entries of a line.
proof fn lemma_fold_pairs(kernel: Seq<i8>, at: int, v: Seq<int>, k: nat, sign: int)
    requires
        sign == 1 || sign == -1,
        v.len() % 2 == 0,
        k == v.len() / 2,
        forall|i: int|
            0 <= i < v.len() / 2 ==> kernel[at + v.len() - 1 - i] == sign * #[trigger] kernel[at + i],
    ensures
        row_dot(
            kernel,
            at,
            if sign == 1 {
                add_fold(v)
            } else {
                sub_fold(v)
            },
            k,
        ) == row_dot(kernel, at, v, v.len()),
{
    let f = if sign == 1 {
        add_fold(v)
    } else {
        sub_fold(v)
    };
    lemma_fold_tail(kernel, at, v, f, k, sign);
    lemma_fold_head(kernel, at, v, k);
    assert(row_dot(kernel, at, v, v.len()) == row_dot(kernel, at, v, k) + tail_dot(
        kernel,
        at,
        v,
        k,
    ));
}

/// Sum of the last `k` products of a kernel row and a line.
spec fn tail_dot(kernel: Seq<i8>, at: int, v: Seq<int>, k: nat) -> int
    decreases k,
{
    if k == 0 {
        0
    } else {
        tail_dot(kernel, at, v, (k - 1) as nat) + kernel[at + v.len() - k] * v[v.len() - k]
    }
}

proof fn lemma_fold_head(kernel: Seq<i8>, at: int, v: Seq<int>, k: nat)
    requires
        k <= v.len(),
    ensures
        row_dot(kernel, at, v, v.len()) == row_dot(kernel, at, v, (v.len() - k) as nat) + tail_dot(
            kernel,
            at,
            v,
            k,
        ),
    decreases k,
{
    if k > 0 {
        lemma_fold_head(kernel, at, v, (k - 1) as nat);
    }
}

proof fn lemma_fold_tail(
    kernel: Seq<i8>,
    at: int,
    v: Seq<int>,
    f: Seq<int>,
    k: nat,
    sign: int,
)
    requires
        sign == 1 || sign == -1,
        k <= v.len() / 2,
        f == if sign == 1 {
            add_fold(v)
        } else {
            sub_fold(v)
        },
        forall|i: int|
            0 <= i < v.len() / 2 ==> kernel[at + v.len() - 1 - i] == sign * #[trigger] kernel[at + i],
    ensures
        row_dot(kernel, at, f, k) == row_dot(kernel, at, v, k) + tail_dot(kernel, at, v, k),
    decreases k,
{
    if k > 0 {
        lemma_fold_tail(kernel, at, v, f, (k - 1) as nat, sign);
        let i = k - 1;
        let a = kernel[at + i] as int;
        let m = kernel[at + v.len() - 1 - i] as int;
        let (x, y) = (v[i], v[v.len() - 1 - i]);
        assert(m == sign * a);
        assert(f[i] == x + sign * y);
        assert(a * (x + sign * y) == a * x + (sign * a) * y) by (nonlinear_arith);
    }
}

// ---------------------------------------------------------------------------
// One dimension
// ---------------------------------------------------------------------------

/// A sum in 32 bits, divided by a power of two with rounding.
pub open spec fn round_shifted(sum: int, shift: nat) -> int {
    if shift == 0 {
        num::wrap32(sum)
    } else {
        num::wrap32(num::wrap32(sum) + pow2((shift - 1) as nat)) / pow2(shift) as int
    }
}

/// Line `j` of a block whose lines are interleaved, `line` apart.
pub open spec fn line_of(src: Seq<i32>, line: int, j: int, n: nat) -> Seq<int> {
    Seq::new(n, |k: int| src[k * line + j] as int)
}

/// Frequency `row` of a line.
pub open spec fn frequency(
    kernel: Seq<i8>,
    n: int,
    src: Seq<i32>,
    line: int,
    j: int,
    shift: nat,
    row: int,
) -> int {
    round_shifted(
        folded_dot(kernel, row * n, row as nat, line_of(src, line, j, n as nat)),
        shift,
    )
}

/// The values of a vector.
pub open spec fn ints(v: Seq<i64>) -> Seq<int> {
    v.map_values(|x: i64| x as int)
}

/// All values are within a bound.
pub open spec fn within(v: Seq<i64>, bound: int) -> bool {
    forall|i: int| 0 <= i < v.len() ==> -bound <= #[trigger] v[i] <= bound
}

fn fold(v: &Vec<i64>, add: bool, bound: Ghost<int>) -> (f: Vec<i64>)
    requires
        within(v@, bound@),
        0 <= bound@ <= 0x20_0000_0000,
    ensures
        f@.len() == v@.len() / 2,
        ints(f@) == if add {
            add_fold(ints(v@))
        } else {
            sub_fold(ints(v@))
        },
        within(f@, 2 * bound@),
{
    let n: usize = v.len();
    let mut f: Vec<i64> = Vec::new();
    let mut k: usize = 0;
    while k < n / 2
        invariant
            k <= n / 2,
            n == v@.len(),
            within(v@, bound@),
            0 <= bound@ <= 0x20_0000_0000,
            f@.len() == k,
            forall|i: int|
                0 <= i < k ==> #[trigger] f@[i] == if add {
                    v@[i] + v@[n - 1 - i]
                } else {
                    v@[i] - v@[n - 1 - i]
                },
            within(f@, 2 * bound@),
        decreases n / 2 - k,
    {
        let a: i64 = v[k];
        let b: i64 = v[n - 1 - k];
        f.push(
            if add {
                a + b
            } else {
                a - b
            },
        );
        k = k + 1;
    }
    proof {
        let want = if add {
            add_fold(ints(v@))
        } else {
            sub_fold(ints(v@))
        };
        assert(ints(f@) =~= want);
    }
    f
}

fn dot_row(kernel: &[i8], at: usize, v: &Vec<i64>) -> (d: i64)
    requires
        v@.len() <= 32,
        at + v@.len() <= kernel@.len(),
        within(v@, 0x40_0000_0000),
    ensures
        d == row_dot(kernel@, at as int, ints(v@), v@.len()),
        -0x40_0000_0000_0000 <= d <= 0x40_0000_0000_0000,
{
    let len: usize = kernel.len();
    let mut d: i64 = 0;
    let mut i: usize = 0;
    while i < v.len()
        invariant
            i <= v@.len(),
            v@.len() <= 32,
            at + v@.len() <= len,
            len == kernel@.len(),
            within(v@, 0x40_0000_0000),
            d == row_dot(kernel@, at as int, ints(v@), i as nat),
            -0x2000_0000_0000 * i <= d <= 0x2000_0000_0000 * i,
        decreases v@.len() - i,
    {
        let c: i64 = kernel[at + i] as i64;
        let x: i64 = v[i];
        assert(v@[i as int] == x);
        assert(-0x2000_0000_0000 <= c * x <= 0x2000_0000_0000) by (nonlinear_arith)
            requires
                -128 <= c <= 127,
                -0x40_0000_0000 <= x <= 0x40_0000_0000,
        ;
        assert(ints(v@)[i as int] == x);
        d = d + c * x;
        i = i + 1;
    }
    d
}

/// Folded product of a kernel row and a line.
fn dot_folded(kernel: &[i8], at: usize, row: usize, line: &Vec<i64>) -> (d: i64)
    requires
        is_side(line@.len() as int),
        at + line@.len() <= kernel@.len(),
        within(line@, 0x8000_0000),
    ensures
        d == folded_dot(kernel@, at as int, row as nat, ints(line@)),
        -0x40_0000_0000_0000 <= d <= 0x40_0000_0000_0000,
{
    let klen: usize = kernel.len();
    let n: usize = line.len();
    let mut cur: Vec<i64> = Vec::new();
    let mut i: usize = 0;
    while i < n
        invariant
            i <= n,
            n == line@.len(),
            cur@ =~= line@.take(i as int),
        decreases n - i,
    {
        cur.push(line[i]);
        i = i + 1;
    }
    assert(cur@ =~= line@);
    let mut r: usize = row;
    let ghost mut bound: int = 0x8000_0000;
    while cur.len() > 2 && r % 2 == 0
        invariant
            cur@.len() == 2 || is_side(cur@.len() as int),
            cur@.len() <= n,
            n <= 64,
            bound * cur@.len() == 0x8000_0000 * n,
            0 <= bound,
            within(cur@, bound),
            folded_dot(kernel@, at as int, r as nat, ints(cur@)) == folded_dot(
                kernel@,
                at as int,
                row as nat,
                ints(line@),
            ),
        decreases cur@.len(),
    {
        let ghost len = cur@.len();
        proof {
            assert(bound <= 0x10_0000_0000) by (nonlinear_arith)
                requires
                    bound * len == 0x8000_0000 * n,
                    len >= 2,
                    n <= 64,
                    bound >= 0,
            ;
        }
        let ghost before = bound;
        cur = fold(&cur, true, Ghost(bound));
        proof {
            bound = 2 * bound;
            assert(bound * cur@.len() == 0x8000_0000 * n) by (nonlinear_arith)
                requires
                    before * len == 0x8000_0000 * n,
                    bound == 2 * before,
                    len == 2 * cur@.len(),
            ;
        }
        r = r / 2;
    }
    proof {
        let len = cur@.len();
        assert(bound <= 0x10_0000_0000) by (nonlinear_arith)
            requires
                bound * len == 0x8000_0000 * n,
                len >= 2,
                n <= 64,
                bound >= 0,
        ;
    }
    if cur.len() > 2 {
        cur = fold(&cur, false, Ghost(bound));
    }
    dot_row(kernel, at, &cur)
}

/// Divide by a power of two with rounding, in 32 bits.
fn round_shift(sum: i64, shift: u32) -> (r: i32)
    requires
        shift <= 31,
        -0x40_0000_0000_0000 <= sum <= 0x40_0000_0000_0000,
    ensures
        r == round_shifted(sum as int, shift as nat),
{
    let v: i32 = num::wrap_to_i32(sum);
    if shift == 0 {
        return v;
    }
    proof {
        lemma2_to64();
        lemma_pow2_strictly_increases((shift - 1) as nat, 31);
    }
    let add: i64 = num::pow2_u64(shift - 1) as i64;
    let w: i32 = num::wrap_to_i32(v as i64 + add);
    proof {
        lemma_pow2_pos(shift as nat);
        let (x, p) = (w as int, pow2(shift as nat) as int);
        assert(-0x8000_0000 <= x / p <= 0x7fff_ffff) by (nonlinear_arith)
            requires
                -0x8000_0000 <= x <= 0x7fff_ffff,
                p >= 1,
        ;
    }
    num::floor_shift(w as i64, shift) as i32
}

/// Transform `n` entries of each of the `line` lines of a block. The first
/// `valid` frequencies of line `j` go to `j * n` and on, the others are zero.
fn fdct_1d_n(n: usize, kernel: &[i8], src: &Vec<i32>, shift: u32, line: usize, valid: usize) -> (dst:
    Vec<i32>)
    requires
        is_side(n as int),
        1 <= line <= 64,
        valid <= n,
        kernel@.len() == n * n,
        src@.len() == n * line,
        shift <= 31,
    ensures
        dst@.len() == n * line,
        forall|j: int, f: int|
            0 <= j < line && 0 <= f < n ==> #[trigger] dst@[j * n + f] == if f < valid {
                frequency(kernel@, n as int, src@, line as int, j, shift as nat, f)
            } else {
                0int
            },
{
    let mut dst: Vec<i32> = Vec::new();
    let mut j: usize = 0;
    assert(n * 0 == 0);
    while j < line
        invariant
            j <= line,
            is_side(n as int),
            1 <= line <= 64,
            valid <= n,
            kernel@.len() == n * n,
            src@.len() == n * line,
            shift <= 31,
            dst@.len() == n * j,
            forall|i: int, f: int|
                0 <= i < j && 0 <= f < n ==> #[trigger] dst@[i * n + f] == if f < valid {
                    frequency(kernel@, n as int, src@, line as int, i, shift as nat, f)
                } else {
                    0int
                },
        decreases line - j,
    {
        let mut v: Vec<i64> = Vec::new();
        let mut k: usize = 0;
        while k < n
            invariant
                k <= n,
                n <= 64,
                j < line <= 64,
                src@.len() == n * line,
                v@.len() == k,
                forall|i: int| 0 <= i < k ==> #[trigger] v@[i] == src@[i * line + j],
                within(v@, 0x8000_0000),
            decreases n - k,
        {
            proof {
                plane::lemma_in_block(k as int, j as int, line as int, n as int);
                assert(n * line == line * n) by (nonlinear_arith);
                assert(0 <= k * line <= 4096) by (nonlinear_arith)
                    requires
                        0 <= k <= 64,
                        0 <= line <= 64,
                ;
            }
            v.push(src[k * line + j] as i64);
            k = k + 1;
        }
        assert(ints(v@) =~= line_of(src@, line as int, j as int, n as nat));
        let ghost before = dst@;
        let mut f: usize = 0;
        while f < n
            invariant
                f <= n,
                is_side(n as int),
                j < line <= 64,
                valid <= n,
                kernel@.len() == n * n,
                shift <= 31,
                v@.len() == n,
                within(v@, 0x8000_0000),
                ints(v@) == line_of(src@, line as int, j as int, n as nat),
                before.len() == n * j,
                dst@.len() == n * j + f,
                dst@.take(before.len() as int) =~= before,
                forall|g: int|
                    0 <= g < f ==> #[trigger] dst@[before.len() + g] == if g < valid {
                        frequency(
                            kernel@,
                            n as int,
                            src@,
                            line as int,
                            j as int,
                            shift as nat,
                            g,
                        )
                    } else {
                        0int
                    },
            decreases n - f,
        {
            let ghost prior = dst@;
            if f < valid {
                proof {
                    assert(0 <= f * n <= 4096) by (nonlinear_arith)
                        requires
                            0 <= f <= 64,
                            0 <= n <= 64,
                    ;
                    assert(f * n + n <= n * n) by (nonlinear_arith)
                        requires
                            f + 1 <= n,
                            n >= 0,
                    ;
                }
                let d: i64 = dot_folded(kernel, f * n, f, &v);
                dst.push(round_shift(d, shift));
            } else {
                dst.push(0);
            }
            assert(dst@.take(before.len() as int) =~= prior.take(before.len() as int));
            f = f + 1;
        }
        proof {
            assert(n * (j + 1) == n * j + n) by (nonlinear_arith);
            assert forall|i: int, f: int| 0 <= i < j + 1 && 0 <= f < n implies #[trigger] dst@[i * n
                + f] == if f < valid {
                frequency(kernel@, n as int, src@, line as int, i, shift as nat, f)
            } else {
                0int
            } by {
                if i < j {
                    plane::lemma_in_block(i, f, n as int, j as int);
                    assert(dst@.take(before.len() as int)[i * n + f] == before[i * n + f]);
                } else {
                    assert(i * n == n * j) by (nonlinear_arith)
                        requires
                            i == j,
                    ;
                    assert(dst@[before.len() + f] == dst@[i * n + f]);
                }
            }
        }
        j = j + 1;
    }
    dst
}

// ---------------------------------------------------------------------------
// Two dimensions
// ---------------------------------------------------------------------------

/// A coefficient times the square root of two, rounded, in 32 bits.
pub open spec fn times_root2(v: int) -> int {
    num::wrap32((v * 5793 + 2048) / 4096)
}

/// Scale a coefficient up by the square root of two.
pub fn scale_rect2(v: i32) -> (r: i32)
    ensures
        r == times_root2(v as int),
{
    proof {
        lemma2_to64();
    }
    num::wrap_to_i32(num::floor_shift(v as i64 * 5793 + 2048, 12))
}

/// Kernels and rounding of a transform: vertical first.
#[derive(Clone, Copy, Debug)]
pub struct RectKernels<'a> {
    pub rows: &'a [i8],
    pub cols: &'a [i8],
    /// Rounding of the vertical pass.
    pub shift1: u32,
    /// Rounding of the horizontal pass.
    pub shift2: u32,
}

/// Vertical frequency `f` of column `j`.
pub open spec fn vertical(
    k: RectKernels,
    resid: Seq<i32>,
    w: int,
    h: int,
    j: int,
    f: int,
) -> int {
    frequency(k.cols@, h, resid, w, j, k.shift1 as nat, f)
}

/// The columns transformed, one after the other.
pub open spec fn verticals(k: RectKernels, resid: Seq<i32>, w: int, h: int) -> Seq<i32> {
    Seq::new(
        (w * h) as nat,
        |p: int|
            if p % h < plane::least(h, 32) {
                vertical(k, resid, w, h, p / h, p % h) as i32
            } else {
                0i32
            },
    )
}

/// Coefficient of vertical frequency `f` and horizontal frequency `g`.
pub open spec fn rect_coefficient(
    k: RectKernels,
    resid: Seq<i32>,
    w: int,
    h: int,
    f: int,
    g: int,
) -> int {
    let c = frequency(k.rows@, w, verticals(k, resid, w, h), h, f, k.shift2 as nat, g);
    if (itx422::side_exponent(w) + itx422::side_exponent(h)) % 2 == 1 {
        times_root2(c)
    } else {
        c
    }
}

/// The low 32 by 32 coefficients of a block, row by row.
pub open spec fn rect_transform(k: RectKernels, resid: Seq<i32>, w: int, h: int) -> Seq<i32> {
    let (cw, ch) = (plane::least(w, 32), plane::least(h, 32));
    Seq::new(
        (cw * ch) as nat,
        |p: int| rect_coefficient(k, resid, w, h, p / cw, p % cw) as i32,
    )
}

fn exponent_parity(w: usize, h: usize) -> (odd: bool)
    requires
        is_side(w as int),
        is_side(h as int),
    ensures
        odd == ((itx422::side_exponent(w as int) + itx422::side_exponent(h as int)) % 2 == 1),
{
    let wo = w == 8 || w == 32;
    let ho = h == 8 || h == 32;
    wo != ho
}

/// Forward transform of a residual of `h` rows of `w`: the low 32 by 32
/// frequencies, row by row.
pub fn fdct_rect(resid: &Vec<i32>, w: usize, h: usize, k: &RectKernels) -> (out: Vec<i32>)
    requires
        is_side(w as int),
        is_side(h as int),
        resid@.len() == w * h,
        k.rows@.len() == w * w,
        k.cols@.len() == h * h,
        k.shift1 <= 31,
        k.shift2 <= 31,
    ensures
        out@ == rect_transform(*k, resid@, w as int, h as int),
{
    let cw: usize = if w < 32 {
        w
    } else {
        32
    };
    let ch: usize = if h < 32 {
        h
    } else {
        32
    };
    assert(h * w == w * h) by (nonlinear_arith);
    let buf: Vec<i32> = fdct_1d_n(h, k.cols, resid, k.shift1, w, ch);
    let ghost columns = verticals(*k, resid@, w as int, h as int);
    proof {
        assert forall|p: int| 0 <= p < w * h implies #[trigger] buf@[p] == columns[p] by {
            plane::lemma_block_pos(p, h as int, w as int);
            let (j, f) = (p / h as int, p % h as int);
            assert(buf@[j * h + f] == buf@[p]);
        }
        assert(buf@ =~= columns);
    }
    let coeff: Vec<i32> = fdct_1d_n(w, k.rows, &buf, k.shift2, h, cw);
    let odd = exponent_parity(w, h);
    let ghost want = Seq::new(
        (cw * ch) as nat,
        |p: int|
            rect_coefficient(
                *k,
                resid@,
                w as int,
                h as int,
                p / cw as int,
                p % cw as int,
            ) as i32,
    );
    assert(0 <= cw * ch <= 1024) by (nonlinear_arith)
        requires
            0 <= cw <= 32,
            0 <= ch <= 32,
    ;
    let n: usize = cw * ch;
    let mut out: Vec<i32> = Vec::new();
    let mut p: usize = 0;
    while p < n
        invariant
            p <= n,
            n == cw * ch,
            is_side(w as int),
            is_side(h as int),
            cw == plane::least(w as int, 32),
            ch == plane::least(h as int, 32),
            coeff@.len() == w * h,
            columns == verticals(*k, resid@, w as int, h as int),
            odd == ((itx422::side_exponent(w as int) + itx422::side_exponent(h as int)) % 2 == 1),
            forall|j: int, f: int|
                0 <= j < h && 0 <= f < w ==> #[trigger] coeff@[j * w + f] == if f < cw {
                    frequency(k.rows@, w as int, columns, h as int, j, k.shift2 as nat, f)
                } else {
                    0int
                },
            want == Seq::new(
                (cw * ch) as nat,
                |p: int|
                    rect_coefficient(
                        *k,
                        resid@,
                        w as int,
                        h as int,
                        p / cw as int,
                        p % cw as int,
                    ) as i32,
            ),
            out@ =~= want.take(p as int),
        decreases n - p,
    {
        let f: usize = p / cw;
        let g: usize = p % cw;
        proof {
            plane::lemma_block_pos(p as int, cw as int, ch as int);
            plane::lemma_in_block(f as int, g as int, w as int, h as int);
            assert(0 <= f * w <= 4096) by (nonlinear_arith)
                requires
                    0 <= f <= 64,
                    0 <= w <= 64,
            ;
        }
        let c: i32 = coeff[f * w + g];
        assert(coeff@[f as int * w as int + g as int] == c);
        let v: i32 = if odd {
            scale_rect2(c)
        } else {
            c
        };
        assert(want[p as int] == v);
        out.push(v);
        p = p + 1;
    }
    assert(want.take(n as int) =~= want);
    out
}

// ---------------------------------------------------------------------------
// What the transform is
// ---------------------------------------------------------------------------

/// Scaling up by the square root of two is accurate to a ten-thousandth and the
/// rounding.
pub proof fn law_root2_is_the_square_root_of_two(v: int)
    requires
        -0x5000_0000 <= v <= 0x5000_0000,
    ensures
        v >= 0 ==> 14142 * v - 10000 <= 10000 * times_root2(v) <= 14144 * v + 10000,
        v <= 0 ==> 14144 * v - 10000 <= 10000 * times_root2(v) <= 14142 * v + 10000,
{
}

proof fn lemma_row_series(kernel: Seq<i8>, at: int, v: Seq<int>, n: nat)
    ensures
        row_dot(kernel, at, v, n) == num::series(|i: int| kernel[at + i] * v[i], n),
    decreases n,
{
    if n > 0 {
        lemma_row_series(kernel, at, v, (n - 1) as nat);
    }
}

/// A frequency whose sum fits 32 bits is the rounded product of kernel row and line.
proof fn lemma_frequency(
    kernel: Seq<i8>,
    n: int,
    src: Seq<i32>,
    line: int,
    j: int,
    shift: nat,
    row: int,
    half: int,
)
    requires
        is_side(n),
        0 <= row,
        shift <= 31,
        half == if shift == 0 {
            0int
        } else {
            pow2((shift - 1) as nat) as int
        },
        row_folds(kernel, row * n, row as nat, n as nat),
        ({
            let s = num::series(|i: int| kernel[row * n + i] * src[i * line + j], n as nat);
            -0x8000_0000 <= s && s + half < 0x8000_0000
        }),
    ensures
        ({
            let s = num::series(|i: int| kernel[row * n + i] * src[i * line + j], n as nat);
            let c = frequency(kernel, n, src, line, j, shift, row);
            &&& c == (s + half) / pow2(shift) as int
            &&& -0x8000_0000 <= c < 0x8000_0000
        }),
{
    lemma2_to64();
    lemma_pow2_pos(shift);
    let v = line_of(src, line, j, n as nat);
    law_folding_keeps_the_product(kernel, row * n, row as nat, v);
    lemma_row_series(kernel, row * n, v, n as nat);
    num::lemma_series_same(
        |i: int| kernel[row * n + i] * v[i],
        |i: int| kernel[row * n + i] * src[i * line + j],
        n as nat,
    );
    let s = num::series(|i: int| kernel[row * n + i] * src[i * line + j], n as nat);
    if shift > 0 {
        lemma_pow2_pos((shift - 1) as nat);
    }
    let (x, p) = (s + half, pow2(shift) as int);
    assert(-0x8000_0000 <= x / p < 0x8000_0000) by (nonlinear_arith)
        requires
            -0x8000_0000 <= x < 0x8000_0000,
            p >= 1,
    ;
    if shift == 0 {
        assert(x / p == x) by (nonlinear_arith)
            requires
                p == 1,
        ;
    }
}

/// The forward transform is separable. Where nothing leaves 32 bits and the kernels
/// have their mirror symmetry, each column is weighed by a row of the column kernel
/// and rounded, then the results by a row of the row kernel and rounded. The
/// coefficient is that, and times the square root of two where one side is two or
/// eight times the other, whichever of them is the longer.
#[verifier::rlimit(40)]
pub proof fn law_transform_is_separable(
    k: RectKernels,
    resid: Seq<i32>,
    w: int,
    h: int,
    f: int,
    g: int,
)
    requires
        is_side(w),
        is_side(h),
        resid.len() == w * h,
        0 <= f < h,
        f < 32,
        0 <= g < w,
        g < 32,
        k.shift1 <= 31,
        k.shift2 <= 31,
        row_folds(k.cols@, f * h, f as nat, h as nat),
        row_folds(k.rows@, g * w, g as nat, w as nat),
    ensures
        ({
            let half = |s: u32|
                if s == 0 {
                    0int
                } else {
                    pow2((s - 1) as nat) as int
                };
            let column = |x: int|
                num::series(|y: int| k.cols@[f * h + y] * resid[y * w + x], h as nat);
            let mid = |x: int| (column(x) + half(k.shift1)) / pow2(k.shift1 as nat) as int;
            let row = num::series(|x: int| k.rows@[g * w + x] * mid(x), w as nat);
            let c = (row + half(k.shift2)) / pow2(k.shift2 as nat) as int;
            let cw = if w == 64 {
                32
            } else {
                w
            };
            let out = rect_transform(k, resid, w, h);
            &&& (forall|x: int|
                0 <= x < w ==> -0x8000_0000 <= #[trigger] column(x) && column(x) + half(k.shift1)
                    < 0x8000_0000) && -0x8000_0000 <= row && row + half(k.shift2) < 0x8000_0000
                && -0x5000_0000 <= c <= 0x5000_0000 ==> {
                &&& w == h || w == 4 * h || h == 4 * w || w == 16 * h || h == 16 * w ==> out[f * cw
                    + g] == c
                &&& w == 2 * h || h == 2 * w || w == 8 * h || h == 8 * w ==> out[f * cw + g] == (c
                    * 5793 + 2048) / 4096
            }
        }),
{
    let half = |s: u32|
        if s == 0 {
            0int
        } else {
            pow2((s - 1) as nat) as int
        };
    let column = |x: int| num::series(|y: int| k.cols@[f * h + y] * resid[y * w + x], h as nat);
    let mid = |x: int| (column(x) + half(k.shift1)) / pow2(k.shift1 as nat) as int;
    let row = num::series(|x: int| k.rows@[g * w + x] * mid(x), w as nat);
    let c = (row + half(k.shift2)) / pow2(k.shift2 as nat) as int;
    let cw = plane::least(w, 32);
    let ch = plane::least(h, 32);
    if (forall|x: int|
        0 <= x < w ==> -0x8000_0000 <= #[trigger] column(x) && column(x) + half(k.shift1)
            < 0x8000_0000) && -0x8000_0000 <= row && row + half(k.shift2) < 0x8000_0000
        && -0x5000_0000 <= c <= 0x5000_0000 {
        let t = verticals(k, resid, w, h);
        let terms = |x: int| k.rows@[g * w + x] * t[x * h + f];
        let want = |x: int| k.rows@[g * w + x] * mid(x);
        assert forall|x: int| 0 <= x < w implies #[trigger] terms(x) == want(x) by {
            assert(-0x8000_0000 <= column(x));
            lemma_frequency(
                k.cols@,
                h,
                resid,
                w,
                x,
                k.shift1 as nat,
                f,
                half(k.shift1),
            );
            plane::lemma_in_block(x, f, h, w);
            assert(w * h == h * w) by (nonlinear_arith);
            vstd::arithmetic::div_mod::lemma_fundamental_div_mod_converse(x * h + f, h, x, f);
            assert(t[x * h + f] == mid(x));
        }
        num::lemma_series_same(terms, want, w as nat);
        assert(terms =~= (|i: int| k.rows@[g * w + i] * t[i * h + f]));
        lemma_frequency(k.rows@, w, t, h, f, k.shift2 as nat, g, half(k.shift2));
        plane::lemma_in_block(f, g, cw, ch);
        vstd::arithmetic::div_mod::lemma_fundamental_div_mod_converse(f * cw + g, cw, f, g);
        assert(cw * ch == ch * cw) by (nonlinear_arith);
        assert(rect_transform(k, resid, w, h)[f * cw + g] == rect_coefficient(
            k,
            resid,
            w,
            h,
            f,
            g,
        ) as i32);
    }
}

} // verus!
