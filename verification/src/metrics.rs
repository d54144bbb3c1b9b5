//! Distances between samples and predictions.

use crate::plane;
use vstd::prelude::*;

verus! {

/// Sum of `f` over the first `n` indices.
pub open spec fn total(f: spec_fn(int) -> nat, n: nat) -> nat
    decreases n,
{
    if n == 0 {
        0
    } else {
        total(f, (n - 1) as nat) + f(n - 1)
    }
}

/// Magnitude of a number.
pub open spec fn magnitude(v: int) -> nat {
    if v < 0 {
        (-v) as nat
    } else {
        v as nat
    }
}

/// A sum of natural numbers vanishes only where each does.
pub proof fn lemma_total_zero(f: spec_fn(int) -> nat, n: nat)
    ensures
        total(f, n) == 0 <==> forall|i: int| 0 <= i < n ==> #[trigger] f(i) == 0,
    decreases n,
{
    if n > 0 {
        lemma_total_zero(f, (n - 1) as nat);
        if total(f, n) == 0 {
            assert forall|i: int| 0 <= i < n implies #[trigger] f(i) == 0 by {
                if i < n - 1 {
                    assert(f(i) == 0);
                }
            }
        }
    }
}

/// Difference of sample and prediction at index `i` of a `w`-wide block.
pub open spec fn difference_at(
    src: Seq<u16>,
    sstride: int,
    pred: Seq<i32>,
    pstride: int,
    w: int,
    i: int,
) -> int {
    src[(i / w) * sstride + i % w] - pred[(i / w) * pstride + i % w]
}

/// A block of `w` by `h` samples lies at the start of a buffer.
pub open spec fn block_fits(len: nat, stride: int, w: int, h: int) -> bool {
    h == 0 || (h - 1) * stride + w <= len
}

/// Part of a sum is at most the whole.
pub proof fn lemma_total_grows(f: spec_fn(int) -> nat, m: nat, n: nat)
    requires
        m <= n,
    ensures
        total(f, m) <= total(f, n),
    decreases n,
{
    if m < n {
        lemma_total_grows(f, m, (n - 1) as nat);
    }
}

/// Magnitudes of the differences of a block.
pub open spec fn magnitudes(
    src: Seq<u16>,
    sstride: int,
    pred: Seq<i32>,
    pstride: int,
    w: int,
) -> spec_fn(int) -> nat {
    |i: int| magnitude(difference_at(src, sstride, pred, pstride, w, i))
}

proof fn lemma_block_index(len: nat, stride: int, w: int, h: int, r: int, c: int)
    requires
        block_fits(len, stride, w, h),
        stride >= 0,
        0 <= r < h,
        0 <= c < w,
    ensures
        0 <= r * stride,
        0 <= r * stride + c < len,
{
    assert(r * stride <= (h - 1) * stride) by (nonlinear_arith)
        requires
            r <= h - 1,
            stride >= 0,
    ;
    assert(0 <= r * stride) by (nonlinear_arith)
        requires
            r >= 0,
            stride >= 0,
    ;
}

/// Sum of absolute differences of a block.
pub fn sad(src: &[u16], sstride: usize, pred: &[i32], pstride: usize, w: usize, h: usize) -> (d: u64)
    requires
        block_fits(src@.len(), sstride as int, w as int, h as int),
        block_fits(pred@.len(), pstride as int, w as int, h as int),
        total(
            magnitudes(src@, sstride as int, pred@, pstride as int, w as int),
            (w * h) as nat,
        ) <= u64::MAX,
    ensures
        d == total(
            magnitudes(src@, sstride as int, pred@, pstride as int, w as int),
            (w * h) as nat,
        ),
{
    let ghost f = magnitudes(src@, sstride as int, pred@, pstride as int, w as int);
    let slen: usize = src.len();
    let plen: usize = pred.len();
    let mut sum: u64 = 0;
    let mut r: usize = 0;
    assert(w * 0 == 0);
    while r < h
        invariant
            r <= h,
            slen == src@.len(),
            plen == pred@.len(),
            block_fits(slen as nat, sstride as int, w as int, h as int),
            block_fits(plen as nat, pstride as int, w as int, h as int),
            total(f, (w * h) as nat) <= u64::MAX,
            f == magnitudes(src@, sstride as int, pred@, pstride as int, w as int),
            sum == total(f, (w * r) as nat),
        decreases h - r,
    {
        let mut c: usize = 0;
        while c < w
            invariant
                r < h,
                c <= w,
                slen == src@.len(),
                plen == pred@.len(),
                block_fits(slen as nat, sstride as int, w as int, h as int),
                block_fits(plen as nat, pstride as int, w as int, h as int),
                total(f, (w * h) as nat) <= u64::MAX,
                f == magnitudes(src@, sstride as int, pred@, pstride as int, w as int),
                sum == total(f, (w * r + c) as nat),
            decreases w - c,
        {
            proof {
                lemma_block_index(slen as nat, sstride as int, w as int, h as int, r as int, c as int);
                lemma_block_index(plen as nat, pstride as int, w as int, h as int, r as int, c as int);
                plane::lemma_row_col(r as int, c as int, w as int);
                assert(r * w == w * r) by (nonlinear_arith);
                assert(0 <= w * r && w * r + c + 1 <= w * h) by (nonlinear_arith)
                    requires
                        0 <= w,
                        0 <= r,
                        c + 1 <= w,
                        r + 1 <= h,
                ;
                lemma_total_grows(f, (w * r + c + 1) as nat, (w * h) as nat);
            }
            let s: i64 = src[r * sstride + c] as i64;
            let p: i64 = pred[r * pstride + c] as i64;
            let m: u64 = if s < p {
                (p - s) as u64
            } else {
                (s - p) as u64
            };
            assert(f((w * r + c) as int) == m);
            sum = sum + m;
            c = c + 1;
        }
        assert(w * (r + 1) == w * r + w) by (nonlinear_arith);
        r = r + 1;
    }
    sum
}

// ---------------------------------------------------------------------------
// Hadamard distance
// ---------------------------------------------------------------------------

/// Coefficient `k` of the four-point Hadamard transform.
pub open spec fn hadamard(a: int, b: int, c: int, d: int, k: int) -> int {
    if k == 0 {
        a + b + c + d
    } else if k == 1 {
        a + b - c - d
    } else if k == 2 {
        a - b - c + d
    } else {
        a - b + c - d
    }
}

/// Four-point Hadamard transform.
pub fn had4(a: i64, b: i64, c: i64, d: i64) -> (out: [i64; 4])
    requires
        i64::MIN <= a + c <= i64::MAX,
        i64::MIN <= a - c <= i64::MAX,
        i64::MIN <= b + d <= i64::MAX,
        i64::MIN <= b - d <= i64::MAX,
        forall|k: int|
            0 <= k < 4 ==> i64::MIN <= #[trigger] hadamard(
                a as int,
                b as int,
                c as int,
                d as int,
                k,
            ) <= i64::MAX,
    ensures
        forall|k: int|
            0 <= k < 4 ==> #[trigger] out@[k] == hadamard(a as int, b as int, c as int, d as int, k),
{
    let (e, f, g, h): (i64, i64, i64, i64) = (a + c, a - c, b + d, b - d);
    proof {
        assert(hadamard(a as int, b as int, c as int, d as int, 0) == e + g);
        assert(hadamard(a as int, b as int, c as int, d as int, 1) == f + h);
        assert(hadamard(a as int, b as int, c as int, d as int, 2) == f - h);
        assert(hadamard(a as int, b as int, c as int, d as int, 3) == e - g);
    }
    [e + g, f + h, f - h, e - g]
}

/// Coefficient `(i, j)` of the two-dimensional transform of a 4x4 block whose
/// value at `(r, c)` is `d(r, c)`.
pub open spec fn hadamard2(d: spec_fn(int, int) -> int, i: int, j: int) -> int {
    hadamard(
        hadamard(d(0, 0), d(0, 1), d(0, 2), d(0, 3), j),
        hadamard(d(1, 0), d(1, 1), d(1, 2), d(1, 3), j),
        hadamard(d(2, 0), d(2, 1), d(2, 2), d(2, 3), j),
        hadamard(d(3, 0), d(3, 1), d(3, 2), d(3, 3), j),
        i,
    )
}

/// Sum of the magnitudes of the coefficients of a 4x4 block.
pub open spec fn block_satd(d: spec_fn(int, int) -> int) -> nat {
    total(|k: int| magnitude(hadamard2(d, k % 4, k / 4)), 16)
}

/// Differences of the 4x4 block at `(y, x)`.
pub open spec fn tile_differences(
    src: Seq<u16>,
    sstride: int,
    pred: Seq<i32>,
    pstride: int,
    y: int,
    x: int,
) -> spec_fn(int, int) -> int {
    |r: int, c: int| src[(y + r) * sstride + x + c] - pred[(y + r) * pstride + x + c]
}

/// A 4x4 block has Hadamard distance zero exactly where all differences are
/// zero: the distance misses nothing that the absolute differences see.
pub proof fn law_satd_sees_every_difference(d: spec_fn(int, int) -> int)
    ensures
        block_satd(d) == 0 <==> forall|r: int, c: int|
            0 <= r < 4 && 0 <= c < 4 ==> #[trigger] d(r, c) == 0,
{
    let f = |k: int| magnitude(hadamard2(d, k % 4, k / 4));
    lemma_total_zero(f, 16);
    if block_satd(d) == 0 {
        assert forall|i: int, j: int| 0 <= i < 4 && 0 <= j < 4 implies #[trigger] hadamard2(d, i, j)
            == 0 by {
            assert(f(4 * j + i) == 0);
        }
        assert forall|r: int, c: int| 0 <= r < 4 && 0 <= c < 4 implies #[trigger] d(r, c) == 0 by {
            assert(hadamard2(d, 0, 0) == 0 && hadamard2(d, 1, 0) == 0 && hadamard2(d, 2, 0) == 0
                && hadamard2(d, 3, 0) == 0);
            assert(hadamard2(d, 0, 1) == 0 && hadamard2(d, 1, 1) == 0 && hadamard2(d, 2, 1) == 0
                && hadamard2(d, 3, 1) == 0);
            assert(hadamard2(d, 0, 2) == 0 && hadamard2(d, 1, 2) == 0 && hadamard2(d, 2, 2) == 0
                && hadamard2(d, 3, 2) == 0);
            assert(hadamard2(d, 0, 3) == 0 && hadamard2(d, 1, 3) == 0 && hadamard2(d, 2, 3) == 0
                && hadamard2(d, 3, 3) == 0);
            lemma_row_zero(d, 0);
            lemma_row_zero(d, 1);
            lemma_row_zero(d, 2);
            lemma_row_zero(d, 3);
        }
    } else {
        if forall|r: int, c: int| 0 <= r < 4 && 0 <= c < 4 ==> #[trigger] d(r, c) == 0 {
            assert forall|k: int| 0 <= k < 16 implies #[trigger] f(k) == 0 by {
                assert(d(0, 0) == 0 && d(0, 1) == 0 && d(0, 2) == 0 && d(0, 3) == 0);
                assert(d(1, 0) == 0 && d(1, 1) == 0 && d(1, 2) == 0 && d(1, 3) == 0);
                assert(d(2, 0) == 0 && d(2, 1) == 0 && d(2, 2) == 0 && d(2, 3) == 0);
                assert(d(3, 0) == 0 && d(3, 1) == 0 && d(3, 2) == 0 && d(3, 3) == 0);
            }
        }
    }
}

proof fn lemma_row_zero(d: spec_fn(int, int) -> int, r: int)
    requires
        0 <= r < 4,
        forall|i: int, j: int| 0 <= i < 4 && 0 <= j < 4 ==> #[trigger] hadamard2(d, i, j) == 0,
    ensures
        d(r, 0) == 0,
        d(r, 1) == 0,
        d(r, 2) == 0,
        d(r, 3) == 0,
{
    assert forall|j: int| 0 <= j < 4 implies #[trigger] hadamard(
        d(r, 0),
        d(r, 1),
        d(r, 2),
        d(r, 3),
        j,
    ) == 0 by {
        assert(hadamard2(d, 0, j) == 0);
        assert(hadamard2(d, 1, j) == 0);
        assert(hadamard2(d, 2, j) == 0);
        assert(hadamard2(d, 3, j) == 0);
    }
    assert(hadamard(d(r, 0), d(r, 1), d(r, 2), d(r, 3), 0) == 0);
    assert(hadamard(d(r, 0), d(r, 1), d(r, 2), d(r, 3), 1) == 0);
    assert(hadamard(d(r, 0), d(r, 1), d(r, 2), d(r, 3), 2) == 0);
    assert(hadamard(d(r, 0), d(r, 1), d(r, 2), d(r, 3), 3) == 0);
}

/// A constant difference over a 4x4 block shows in one coefficient, sixteen
/// times as large.
pub proof fn law_satd_of_constant(d: spec_fn(int, int) -> int, v: int)
    requires
        forall|r: int, c: int| 0 <= r < 4 && 0 <= c < 4 ==> #[trigger] d(r, c) == v,
    ensures
        block_satd(d) == 16 * magnitude(v),
{
    let f = |k: int| magnitude(hadamard2(d, k % 4, k / 4));
    assert(d(0, 0) == v && d(0, 1) == v && d(0, 2) == v && d(0, 3) == v);
    assert(d(1, 0) == v && d(1, 1) == v && d(1, 2) == v && d(1, 3) == v);
    assert(d(2, 0) == v && d(2, 1) == v && d(2, 2) == v && d(2, 3) == v);
    assert(d(3, 0) == v && d(3, 1) == v && d(3, 2) == v && d(3, 3) == v);
    assert(f(0) == 16 * magnitude(v));
    assert forall|k: int| 1 <= k < 16 implies #[trigger] f(k) == 0 by {
        assert(k % 4 != 0 || k / 4 != 0);
    }
    lemma_total_single(f, 16);
}

proof fn lemma_total_single(f: spec_fn(int) -> nat, n: nat)
    requires
        n >= 1,
        forall|k: int| 1 <= k < n ==> #[trigger] f(k) == 0,
    ensures
        total(f, n) == f(0),
    decreases n,
{
    if n > 1 {
        lemma_total_single(f, (n - 1) as nat);
    } else {
        assert(total(f, 0) == 0);
    }
}

/// Hadamard distance of the 4x4 block at the start of two buffers.
fn satd4(src: &[u16], sstride: usize, pred: &[i32], pstride: usize, y: usize, x: usize) -> (d: u64)
    requires
        block_fits(src@.len(), sstride as int, x + 4, y + 4),
        block_fits(pred@.len(), pstride as int, x + 4, y + 4),
        y + 4 <= usize::MAX,
        x + 4 <= usize::MAX,
    ensures
        d == block_satd(
            tile_differences(
                src@,
                sstride as int,
                pred@,
                pstride as int,
                y as int,
                x as int,
            ),
        ),
        d <= 0x20_0000_0000 * 16,
{
    let slen: usize = src.len();
    let plen: usize = pred.len();
    let ghost d = tile_differences(
        src@,
        sstride as int,
        pred@,
        pstride as int,
        y as int,
        x as int,
    );
    let mut rows: Vec<[i64; 4]> = Vec::new();
    let mut r: usize = 0;
    while r < 4
        invariant
            r <= 4,
            slen == src@.len(),
            plen == pred@.len(),
            block_fits(slen as nat, sstride as int, x + 4, y + 4),
            block_fits(plen as nat, pstride as int, x + 4, y + 4),
            y + 4 <= usize::MAX,
            x + 4 <= usize::MAX,
            d == tile_differences(
                src@,
                sstride as int,
                pred@,
                pstride as int,
                y as int,
                x as int,
            ),
            rows@.len() == r,
            forall|i: int, j: int|
                0 <= i < r && 0 <= j < 4 ==> #[trigger] rows@[i]@[j] == hadamard(
                    d(i, 0),
                    d(i, 1),
                    d(i, 2),
                    d(i, 3),
                    j,
                ),
            forall|i: int, j: int|
                0 <= i < r && 0 <= j < 4 ==> -0x8_0000_0000 <= #[trigger] rows@[i]@[j] <= 0x8_0000_0000,
        decreases 4 - r,
    {
        let row: usize = y + r;
        proof {
            let (yr, xx) = (row as int, x as int);
            lemma_block_index(slen as nat, sstride as int, x + 4, y + 4, yr, xx + 3);
            lemma_block_index(plen as nat, pstride as int, x + 4, y + 4, yr, xx + 3);
        }
        let so: usize = row * sstride + x;
        let po: usize = row * pstride + x;
        let d0: i64 = src[so] as i64 - pred[po] as i64;
        let d1: i64 = src[so + 1] as i64 - pred[po + 1] as i64;
        let d2: i64 = src[so + 2] as i64 - pred[po + 2] as i64;
        let d3: i64 = src[so + 3] as i64 - pred[po + 3] as i64;
        proof {
            let i = r as int;
            assert(d(i, 0) == d0 && d(i, 1) == d1 && d(i, 2) == d2 && d(i, 3) == d3);
        }
        let t = had4(d0, d1, d2, d3);
        proof {
            assert(t@[0] == hadamard(d0 as int, d1 as int, d2 as int, d3 as int, 0));
            assert(t@[1] == hadamard(d0 as int, d1 as int, d2 as int, d3 as int, 1));
            assert(t@[2] == hadamard(d0 as int, d1 as int, d2 as int, d3 as int, 2));
            assert(t@[3] == hadamard(d0 as int, d1 as int, d2 as int, d3 as int, 3));
        }
        rows.push(t);
        r = r + 1;
    }
    let ghost f = |k: int| magnitude(hadamard2(d, k % 4, k / 4));
    let mut sum: u64 = 0;
    let mut j: usize = 0;
    while j < 4
        invariant
            j <= 4,
            f == (|k: int| magnitude(hadamard2(d, k % 4, k / 4))),
            rows@.len() == 4,
            forall|i: int, j: int|
                0 <= i < 4 && 0 <= j < 4 ==> #[trigger] rows@[i]@[j] == hadamard(
                    d(i, 0),
                    d(i, 1),
                    d(i, 2),
                    d(i, 3),
                    j,
                ),
            forall|i: int, j: int|
                0 <= i < 4 && 0 <= j < 4 ==> -0x8_0000_0000 <= #[trigger] rows@[i]@[j] <= 0x8_0000_0000,
            sum == total(f, (4 * j) as nat),
            sum <= 0x20_0000_0000 * (4 * j),
        decreases 4 - j,
    {
        let (a, b, c, e): (i64, i64, i64, i64) = (rows[0][j], rows[1][j], rows[2][j], rows[3][j]);
        proof {
            let jj = j as int;
            assert(rows@[0]@[jj] == a && rows@[1]@[jj] == b && rows@[2]@[jj] == c && rows@[3]@[jj]
                == e);
        }
        let col = had4(a, b, c, e);
        let mut i: usize = 0;
        while i < 4
            invariant
                i <= 4,
                j < 4,
                f == (|k: int| magnitude(hadamard2(d, k % 4, k / 4))),
                forall|k: int| 0 <= k < 4 ==> #[trigger] col@[k] == hadamard2(d, k, j as int),
                forall|k: int| 0 <= k < 4 ==> -0x20_0000_0000 <= #[trigger] col@[k] <= 0x20_0000_0000,
                sum == total(f, (4 * j + i) as nat),
                sum <= 0x20_0000_0000 * (4 * j + i),
            decreases 4 - i,
        {
            let v: i64 = col[i];
            let m: u64 = if v < 0 {
                (-v) as u64
            } else {
                v as u64
            };
            proof {
                let k = 4 * j + i;
                assert(k % 4 == i && k / 4 == j);
                assert(f(k) == m);
            }
            sum = sum + m;
            i = i + 1;
        }
        j = j + 1;
    }
    sum
}

/// Hadamard distance of a block of `across` by `down` tiles of 4x4.
pub open spec fn tiles_satd(
    src: Seq<u16>,
    sstride: int,
    pred: Seq<i32>,
    pstride: int,
    across: int,
) -> spec_fn(int) -> nat {
    |i: int|
        block_satd(
            tile_differences(src, sstride, pred, pstride, 4 * (i / across), 4 * (i % across)),
        )
}

/// Tiles of four that a side takes.
pub open spec fn tiles_of(n: int) -> int {
    (n + 3) / 4
}

proof fn lemma_block_satd_bound(d: spec_fn(int, int) -> int)
    requires
        forall|r: int, c: int| -0x1_0000_0000 <= #[trigger] d(r, c) <= 0x1_0000_0000,
    ensures
        block_satd(d) <= 0x100_0000_0000,
{
    let f = |k: int| magnitude(hadamard2(d, k % 4, k / 4));
    lemma_total_at_most(f, 16, 0x10_0000_0000);
}

pub proof fn lemma_total_at_most(f: spec_fn(int) -> nat, n: nat, most: nat)
    requires
        forall|i: int| 0 <= i < n ==> #[trigger] f(i) <= most,
    ensures
        total(f, n) <= most * n,
    decreases n,
{
    if n > 0 {
        lemma_total_at_most(f, (n - 1) as nat, most);
        assert(f(n - 1) <= most);
        assert(most * n == most * (n - 1) + most) by (nonlinear_arith)
            requires
                n > 0,
        ;
    } else {
        assert(most * 0 == 0);
    }
}

/// A tile has a Hadamard distance of at most 2^40, whatever the samples.
pub proof fn lemma_satd_bound(
    src: Seq<u16>,
    sstride: int,
    pred: Seq<i32>,
    pstride: int,
    across: int,
    n: nat,
)
    ensures
        total(tiles_satd(src, sstride, pred, pstride, across), n) <= 0x100_0000_0000 * n,
{
    let f = tiles_satd(src, sstride, pred, pstride, across);
    assert forall|i: int| 0 <= i < n implies #[trigger] f(i) <= 0x100_0000_0000 by {
        lemma_block_satd_bound(
            tile_differences(src, sstride, pred, pstride, 4 * (i / across), 4 * (i % across)),
        );
    }
    lemma_total_at_most(f, n, 0x100_0000_0000);
}

/// Sum of the Hadamard distances of the 4x4 tiles of a block.
pub fn satd(
    src: &[u16],
    sstride: usize,
    pred: &[i32],
    pstride: usize,
    w: usize,
    h: usize,
) -> (d: u64)
    requires
        1 <= w && w + 3 <= usize::MAX,
        h + 3 <= usize::MAX,
        block_fits(
            src@.len(),
            sstride as int,
            4 * tiles_of(w as int),
            4 * tiles_of(h as int),
        ),
        block_fits(
            pred@.len(),
            pstride as int,
            4 * tiles_of(w as int),
            4 * tiles_of(h as int),
        ),
        tiles_of(w as int) * tiles_of(h as int) <= usize::MAX,
        total(
            tiles_satd(src@, sstride as int, pred@, pstride as int, tiles_of(w as int)),
            (tiles_of(w as int) * tiles_of(h as int)) as nat,
        ) <= u64::MAX,
    ensures
        d == total(
            tiles_satd(src@, sstride as int, pred@, pstride as int, tiles_of(w as int)),
            (tiles_of(w as int) * tiles_of(h as int)) as nat,
        ),
{
    let across: usize = (w + 3) / 4;
    let down: usize = (h + 3) / 4;
    let ghost f = tiles_satd(src@, sstride as int, pred@, pstride as int, across as int);
    let n: usize = across * down;
    let mut sum: u64 = 0;
    let mut i: usize = 0;
    while i < n
        invariant
            i <= n,
            n == across * down,
            1 <= across,
            4 * across <= w + 3,
            w + 3 <= usize::MAX,
            4 * down <= h + 3,
            h + 3 <= usize::MAX,
            block_fits(src@.len(), sstride as int, 4 * across, 4 * down),
            block_fits(pred@.len(), pstride as int, 4 * across, 4 * down),
            total(f, n as nat) <= u64::MAX,
            f == tiles_satd(src@, sstride as int, pred@, pstride as int, across as int),
            sum == total(f, i as nat),
        decreases n - i,
    {
        proof {
            plane::lemma_block_pos(i as int, across as int, down as int);
            let (y, x) = (4 * (i as int / across as int), 4 * (i as int % across as int));
            assert((y + 3) * sstride <= (4 * down - 1) * sstride) by (nonlinear_arith)
                requires
                    y + 3 <= 4 * down - 1,
                    sstride >= 0,
            ;
            assert((y + 3) * pstride <= (4 * down - 1) * pstride) by (nonlinear_arith)
                requires
                    y + 3 <= 4 * down - 1,
                    pstride >= 0,
            ;
        }
        let y: usize = 4 * (i / across);
        let x: usize = 4 * (i % across);
        let t: u64 = satd4(src, sstride, pred, pstride, y, x);
        proof {
            assert(f(i as int) == t);
            lemma_total_grows(f, (i + 1) as nat, n as nat);
        }
        sum = sum + t;
        i = i + 1;
    }
    sum
}

// ---------------------------------------------------------------------------
// Sums over buffers
// ---------------------------------------------------------------------------

/// Sum of absolute differences of two byte strings, held at the largest `u32`.
pub fn sad_u8(a: &[u8], b: &[u8]) -> (d: u32)
    requires
        a@.len() == b@.len(),
    ensures
        d == plane::least(
            total(|i: int| magnitude(a@[i] - b@[i]), a@.len()) as int,
            u32::MAX as int,
        ),
{
    let ghost f = |i: int| magnitude(a@[i] - b@[i]);
    let mut sum: u32 = 0;
    let mut i: usize = 0;
    while i < a.len()
        invariant
            i <= a@.len(),
            a@.len() == b@.len(),
            f == (|i: int| magnitude(a@[i] - b@[i])),
            sum == plane::least(total(f, i as nat) as int, u32::MAX as int),
        decreases a@.len() - i,
    {
        let (x, y): (u8, u8) = (a[i], b[i]);
        let m: u32 = if x < y {
            (y - x) as u32
        } else {
            (x - y) as u32
        };
        assert(f(i as int) == m);
        sum = if sum > u32::MAX - m {
            u32::MAX
        } else {
            sum + m
        };
        i = i + 1;
    }
    sum
}

/// Sums with equal terms are equal.
pub proof fn lemma_total_same(f: spec_fn(int) -> nat, g: spec_fn(int) -> nat, n: nat)
    requires
        forall|i: int| 0 <= i < n ==> #[trigger] f(i) == g(i),
    ensures
        total(f, n) == total(g, n),
    decreases n,
{
    if n > 0 {
        lemma_total_same(f, g, (n - 1) as nat);
        assert(f(n - 1) == g(n - 1));
    }
}

/// The sum of absolute differences takes the sample in row `r` and column `c` of
/// both blocks, each by its own stride.
pub proof fn law_differences_are_taken_in_place(
    src: Seq<u16>,
    sstride: int,
    pred: Seq<i32>,
    pstride: int,
    w: int,
    r: int,
    c: int,
)
    requires
        0 <= r,
        0 <= c < w,
    ensures
        ({
            let d = src[r * sstride + c] - pred[r * pstride + c];
            let m = magnitudes(src, sstride, pred, pstride, w)(r * w + c);
            m == d || m == -d
        }),
{
    vstd::arithmetic::div_mod::lemma_fundamental_div_mod_converse(r * w + c, w, r, c);
}

/// Tile `across * tr + tc` of a block is the one in row `tr` and column `tc` of
/// tiles, and its differences are those of the samples at its place.
pub proof fn law_tiles_are_taken_in_place(
    src: Seq<u16>,
    sstride: int,
    pred: Seq<i32>,
    pstride: int,
    across: int,
    tr: int,
    tc: int,
)
    requires
        0 <= tr,
        0 <= tc < across,
    ensures
        tiles_satd(src, sstride, pred, pstride, across)(tr * across + tc) == block_satd(
            |r: int, c: int|
                src[(4 * tr + r) * sstride + 4 * tc + c] - pred[(4 * tr + r) * pstride + 4 * tc
                    + c],
        ),
{
    vstd::arithmetic::div_mod::lemma_fundamental_div_mod_converse(tr * across + tc, across, tr, tc);
    assert(tile_differences(src, sstride, pred, pstride, 4 * tr, 4 * tc) =~= (|r: int, c: int|
        src[(4 * tr + r) * sstride + 4 * tc + c] - pred[(4 * tr + r) * pstride + 4 * tc + c]));
}

/// The tiles of a side reach its end, and the last of them starts before it.
pub proof fn law_tiles_reach_the_end(n: int)
    requires
        n >= 0,
    ensures
        4 * (tiles_of(n) - 1) < n <= 4 * tiles_of(n),
{
}

/// The Hadamard transform keeps the energy of its inputs, four times over, and
/// undoes itself: of its own outputs it gives the inputs, four times over.
pub proof fn law_hadamard_keeps_the_energy(a: int, b: int, c: int, d: int)
    ensures
        ({
            let (p, q, r, s) = (
                hadamard(a, b, c, d, 0),
                hadamard(a, b, c, d, 1),
                hadamard(a, b, c, d, 2),
                hadamard(a, b, c, d, 3),
            );
            &&& p * p + q * q + r * r + s * s == 4 * (a * a + b * b + c * c + d * d)
            &&& p + q + r + s == 4 * a
            &&& p + q - r - s == 4 * b
            &&& p - q - r + s == 4 * c
            &&& p - q + r - s == 4 * d
        }),
{
    let (p, q, r, s) = (a + b + c + d, a + b - c - d, a - b - c + d, a - b + c - d);
    assert(p * p + q * q + r * r + s * s == 4 * (a * a + b * b + c * c + d * d))
        by (nonlinear_arith)
        requires
            p == a + b + c + d,
            q == a + b - c - d,
            r == a - b - c + d,
            s == a - b + c - d,
    ;
}

/// The two-dimensional transform does not prefer a direction: that of the mirrored
/// block is the mirror of that of the block.
pub proof fn law_hadamard_is_symmetric(d: spec_fn(int, int) -> int, i: int, j: int)
    requires
        0 <= i < 4,
        0 <= j < 4,
    ensures
        hadamard2(|r: int, c: int| d(c, r), i, j) == hadamard2(d, j, i),
{
}

} // verus!
