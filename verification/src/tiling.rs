//! Division of a frame into uniformly spaced tiles.

use crate::headers;
use crate::num;
use crate::plane;
use vstd::arithmetic::div_mod::*;
use vstd::arithmetic::mul::*;
use vstd::arithmetic::power2::*;
use vstd::prelude::*;

verus! {

/// Complete superblocks along a side, between 1 and 64.
pub open spec fn tile_limit(dim: nat) -> nat {
    let sbs = (dim + 7) / 64;
    if sbs < 1 {
        1
    } else if sbs > 64 {
        64
    } else {
        sbs
    }
}

/// Tile-count exponent of one direction: the request rounded up to a power of
/// two, but no more tiles than complete superblocks.
pub open spec fn tile_exponent(request: nat, dim: nat) -> nat {
    let wanted = headers::ceil_log2(request);
    let most = (num::bitlen(tile_limit(dim)) - 1) as nat;
    if wanted < most {
        wanted
    } else {
        most
    }
}

fn tile_exponent_for(request: usize, dim: usize) -> (k: usize)
    requires
        dim + 7 <= usize::MAX,
    ensures
        k == tile_exponent(request as nat, dim as nat),
        k <= 6,
{
    let sbs: usize = (dim + 7) / 64;
    let limit: u32 = if sbs < 1 {
        1
    } else if sbs > 64 {
        64
    } else {
        sbs as u32
    };
    proof {
        lemma2_to64();
        num::lemma_bitlen_bounds(limit as nat);
        num::lemma_bitlen_upper(limit as nat, 7);
    }
    let most: u32 = num::bit_length(limit) - 1;
    // the power of two below which a request is not rounded beyond the limit
    if request > 64 {
        proof {
            num::lemma_bitlen_lower((request - 1) as nat, 6);
        }
        most as usize
    } else if request <= 1 {
        0
    } else {
        let wanted: u32 = num::bit_length(request as u32 - 1);
        if wanted < most {
            wanted as usize
        } else {
            most as usize
        }
    }
}

/// The grid that a request comes to; `None` stands for a single tile.
pub open spec fn is_grid(
    grid: Option<(usize, usize)>,
    tile_cols: nat,
    tile_rows: nat,
    width: nat,
    height: nat,
) -> bool {
    let lc = tile_exponent(tile_cols, width);
    let lr = tile_exponent(tile_rows, height);
    if lc == 0 && lr == 0 {
        grid is None
    } else {
        grid matches Some((a, b)) && a == lc && b == lr
    }
}

/// Resolve a requested tile grid into its two exponents. `None` stands for a
/// single tile.
pub fn tile_grid_for(tile_cols: usize, tile_rows: usize, width: usize, height: usize) -> (grid:
    Option<(usize, usize)>)
    requires
        width + 7 <= usize::MAX,
        height + 7 <= usize::MAX,
    ensures
        is_grid(grid, tile_cols as nat, tile_rows as nat, width as nat, height as nat),
{
    let lc: usize = tile_exponent_for(tile_cols, width);
    let lr: usize = tile_exponent_for(tile_rows, height);
    if lc == 0 && lr == 0 {
        None
    } else {
        Some((lc, lr))
    }
}

/// Superblocks that lie completely in a frame of `dim` pixels, rounded up to
/// whole 8-pixel blocks.
pub open spec fn full_sbs(dim: nat) -> nat {
    2 * ((dim + 7) / 8) / 16
}

/// Superblocks along a side, the partial last one counted.
pub open spec fn ceil_sbs(dim: nat) -> nat {
    (2 * ((dim + 7) / 8) + 15) / 16
}

/// Superblocks of the smaller tiles.
pub open spec fn tile_sbs(dim: nat, log2: nat) -> nat {
    full_sbs(dim) / pow2(log2)
}

/// Number of tiles along a side. With fewer complete superblocks than tiles,
/// every superblock is a tile of its own.
pub open spec fn tile_count(dim: nat, log2: nat) -> nat {
    if tile_sbs(dim, log2) == 0 {
        ceil_sbs(dim)
    } else {
        pow2(log2)
    }
}

/// First superblock of tile `k`; one past the last tile stands the end. The
/// first tiles take one superblock more until the remainder is used up.
pub open spec fn tile_start(dim: nat, log2: nat, k: int) -> int {
    let t = tile_sbs(dim, log2) as int;
    if t == 0 {
        k
    } else if k < pow2(log2) {
        k * t + plane::least(k, full_sbs(dim) - t * pow2(log2))
    } else {
        ceil_sbs(dim) as int
    }
}

/// `ceil_sbs` rounds up, `full_sbs` rounds down with a tolerance of 7 pixels.
pub proof fn lemma_sbs(dim: nat)
    ensures
        ceil_sbs(dim) == (dim + 63) / 64,
        full_sbs(dim) == (dim + 7) / 64,
        full_sbs(dim) <= ceil_sbs(dim) <= full_sbs(dim) + 1,
        dim > 0 ==> ceil_sbs(dim) > 0,
{
}

proof fn lemma_extra(dim: nat, log2: nat)
    ensures
        0 <= full_sbs(dim) - tile_sbs(dim, log2) * pow2(log2) < pow2(log2),
        tile_sbs(dim, log2) * pow2(log2) == pow2(log2) * tile_sbs(dim, log2),
{
    lemma_pow2_pos(log2);
    lemma_fundamental_div_mod(full_sbs(dim) as int, pow2(log2) as int);
    lemma_mod_bound(full_sbs(dim) as int, pow2(log2) as int);
    lemma_mul_is_commutative(tile_sbs(dim, log2) as int, pow2(log2) as int);
}

/// Tiles start at 0, grow strictly and end at the last superblock.
pub proof fn law_tile_starts_increase(dim: nat, log2: nat, i: int, j: int)
    requires
        0 <= i < j <= tile_count(dim, log2),
    ensures
        tile_start(dim, log2, 0) == 0,
        tile_start(dim, log2, i) < tile_start(dim, log2, j),
        tile_start(dim, log2, tile_count(dim, log2) as int) == ceil_sbs(dim),
{
    let t = tile_sbs(dim, log2) as int;
    let n = pow2(log2) as int;
    let extra = full_sbs(dim) - t * n;
    lemma_extra(dim, log2);
    lemma_sbs(dim);
    lemma_pow2_pos(log2);
    if t > 0 {
        lemma_mul_basics(t);
        assert(i * t + t <= j * t) by (nonlinear_arith)
            requires
                i + 1 <= j,
                t > 0,
        ;
        if j == n {
            assert(i * t + t <= n * t) by (nonlinear_arith)
                requires
                    i + 1 <= n,
                    t > 0,
            ;
            lemma_mul_is_commutative(n, t);
        }
    }
}

/// Superblock boundaries of the tiles along a side, the end included.
pub fn tile_starts(dim_px: usize, log2: usize) -> (starts: Vec<usize>)
    requires
        dim_px + 7 <= usize::MAX,
        log2 < usize::BITS,
        pow2(log2 as nat) <= usize::MAX,
    ensures
        starts@ == Seq::new(
            tile_count(dim_px as nat, log2 as nat) + 1,
            |k: int| tile_start(dim_px as nat, log2 as nat, k) as usize,
        ),
        forall|k: int|
            0 <= k < starts@.len() ==> #[trigger] starts@[k] == tile_start(
                dim_px as nat,
                log2 as nat,
                k,
            ),
{
    let ghost dim = dim_px as nat;
    let ghost lg = log2 as nat;
    proof {
        lemma_pow2_pos(lg);
        lemma_extra(dim, lg);
        lemma_sbs(dim);
    }
    let count: usize = num::pow2_u64(log2 as u32) as usize;
    let mi: usize = 2 * ((dim_px + 7) / 8);
    let ceil: usize = mi / 16 + (if mi % 16 == 0 {
        0
    } else {
        1
    });
    let full: usize = mi / 16;
    let per_tile: usize = full / count;
    let extra: usize = if per_tile == 0 {
        ceil
    } else {
        full - per_tile * count
    };
    let mut starts: Vec<usize> = Vec::new();
    let mut start: usize = 0;
    let mut i: usize = 0;
    proof {
        lemma_mul_basics(per_tile as int);
        lemma_mul_basics(count as int);
    }
    while i < count && start < ceil
        invariant
            dim == dim_px as nat,
            lg == log2 as nat,
            i <= count,
            count == pow2(lg),
            ceil == ceil_sbs(dim),
            full == full_sbs(dim),
            full <= ceil <= full + 1,
            per_tile == tile_sbs(dim, lg),
            per_tile == 0 ==> extra == ceil && full < count,
            per_tile > 0 ==> extra == full - per_tile * count && extra < count,
            ceil < usize::MAX,
            i <= tile_count(dim, lg),
            starts@.len() == i,
            start == if i < count || per_tile == 0 {
                tile_start(dim, lg, i as int)
            } else {
                full as int
            },
            per_tile == 0 ==> start == i,
            start <= ceil,
            forall|k: int|
                0 <= k < i ==> #[trigger] starts@[k] == tile_start(dim, lg, k),
        decreases count - i,
    {
        starts.push(start);
        proof {
            if per_tile > 0 {
                assert((i + 1) * per_tile == i * per_tile + per_tile) by (nonlinear_arith);
                assert((i + 1) * per_tile <= count * per_tile) by (nonlinear_arith)
                    requires
                        i + 1 <= count,
                        per_tile >= 0,
                ;
                lemma_mul_is_commutative(count as int, per_tile as int);
            }
        }
        start = start + per_tile + (if i < extra {
            1
        } else {
            0
        });
        i = i + 1;
    }
    proof {
        if per_tile > 0 && i < count {
            law_tile_starts_increase(dim, lg, i as int, count as int);
        }
    }
    starts.push(ceil);
    assert(starts@ =~= Seq::new(
        tile_count(dim, lg) + 1,
        |k: int| tile_start(dim, lg, k) as usize,
    ));
    starts
}

/// First pixel and pixel count of tile `k` along a side.
pub open spec fn tile_span(dim: nat, log2: nat, k: int) -> (int, int) {
    let from = 64 * tile_start(dim, log2, k);
    let to = plane::least(64 * tile_start(dim, log2, k + 1), dim as int);
    (from, to - from)
}

/// Tiles span whole superblocks, are not empty and follow each other without a
/// gap; the last one ends with the frame.
pub proof fn law_tile_spans(dim: nat, log2: nat, k: int)
    requires
        0 <= k < tile_count(dim, log2),
    ensures
        tile_span(dim, log2, k).0 % 64 == 0,
        tile_span(dim, log2, k).0 >= 0,
        tile_span(dim, log2, k).1 > 0,
        k == 0 ==> tile_span(dim, log2, k).0 == 0,
        tile_span(dim, log2, k).0 + tile_span(dim, log2, k).1 == if k + 1 < tile_count(dim, log2) {
            tile_span(dim, log2, k + 1).0
        } else {
            dim as int
        },
{
    lemma_sbs(dim);
    law_tile_starts_increase(dim, log2, k, k + 1);
    if k > 0 {
        law_tile_starts_increase(dim, log2, 0, k);
    }
    if k + 1 < tile_count(dim, log2) {
        law_tile_starts_increase(dim, log2, k + 1, tile_count(dim, log2) as int);
    }
}

/// Tile number `i` of the grid in raster order: x, y, width, height in pixels.
pub open spec fn tile_rect(width: nat, height: nat, log2c: nat, log2r: nat, i: int) -> (
    int,
    int,
    int,
    int,
) {
    let cols = tile_count(width, log2c) as int;
    let (x, w) = tile_span(width, log2c, i % cols);
    let (y, h) = tile_span(height, log2r, i / cols);
    (x, y, w, h)
}

/// Whether a pixel lies in tile `i`.
pub open spec fn in_tile(
    width: nat,
    height: nat,
    log2c: nat,
    log2r: nat,
    i: int,
    x: int,
    y: int,
) -> bool {
    let (x0, y0, w, h) = tile_rect(width, height, log2c, log2r, i);
    x0 <= x < x0 + w && y0 <= y < y0 + h
}

/// Luma tile regions in raster order: `(x0, y0, tw, th)`.
pub fn tile_specs(width: usize, height: usize, log2c: usize, log2r: usize) -> (specs: Vec<
    (usize, usize, usize, usize),
>)
    requires
        width + 63 <= usize::MAX,
        height + 63 <= usize::MAX,
        log2c < usize::BITS,
        log2r < usize::BITS,
        pow2(log2c as nat) <= usize::MAX,
        pow2(log2r as nat) <= usize::MAX,
    ensures
        specs@.len() == tile_count(width as nat, log2c as nat) * tile_count(
            height as nat,
            log2r as nat,
        ),
        forall|i: int|
            0 <= i < specs@.len() ==> {
                let (x, y, w, h) = #[trigger] specs@[i];
                (x as int, y as int, w as int, h as int) == tile_rect(
                    width as nat,
                    height as nat,
                    log2c as nat,
                    log2r as nat,
                    i,
                )
            },
{
    let ghost w = width as nat;
    let ghost h = height as nat;
    let ghost lc = log2c as nat;
    let ghost lr = log2r as nat;
    let col_starts: Vec<usize> = tile_starts(width, log2c);
    let row_starts: Vec<usize> = tile_starts(height, log2r);
    let cols: usize = col_starts.len() - 1;
    let rows: usize = row_starts.len() - 1;
    let mut specs: Vec<(usize, usize, usize, usize)> = Vec::new();
    let mut tr: usize = 0;
    assert(0 * cols == 0) by (nonlinear_arith);
    while tr < rows
        invariant
            w == width as nat,
            h == height as nat,
            lc == log2c as nat,
            lr == log2r as nat,
            width + 63 <= usize::MAX,
            height + 63 <= usize::MAX,
            cols == tile_count(w, lc),
            rows == tile_count(h, lr),
            col_starts@.len() == cols + 1,
            row_starts@.len() == rows + 1,
            forall|k: int|
                0 <= k < col_starts@.len() ==> #[trigger] col_starts@[k] == tile_start(w, lc, k),
            forall|k: int|
                0 <= k < row_starts@.len() ==> #[trigger] row_starts@[k] == tile_start(h, lr, k),
            tr <= rows,
            specs@.len() == tr * cols,
            forall|i: int|
                0 <= i < specs@.len() ==> {
                    let (x, y, tw, th) = #[trigger] specs@[i];
                    (x as int, y as int, tw as int, th as int) == tile_rect(w, h, lc, lr, i)
                },
        decreases rows - tr,
    {
        proof {
            law_tile_spans(h, lr, tr as int);
            law_tile_starts_increase(h, lr, tr as int, rows as int);
            lemma_sbs(h);
        }
        let r0: usize = row_starts[tr];
        let r1: usize = row_starts[tr + 1];
        proof {
            if tr + 1 < rows {
                law_tile_starts_increase(h, lr, tr + 1, rows as int);
            }
        }
        let y0: usize = r0 * 64;
        let y1: usize = if r1 * 64 < height {
            r1 * 64
        } else {
            height
        };
        let mut tc: usize = 0;
        while tc < cols
            invariant
                w == width as nat,
                h == height as nat,
                lc == log2c as nat,
                lr == log2r as nat,
                width + 63 <= usize::MAX,
                cols == tile_count(w, lc),
                rows == tile_count(h, lr),
                col_starts@.len() == cols + 1,
                forall|k: int|
                    0 <= k < col_starts@.len() ==> #[trigger] col_starts@[k] == tile_start(
                        w,
                        lc,
                        k,
                    ),
                tr < rows,
                tc <= cols,
                y0 < y1,
                (y0 as int, y1 - y0) == tile_span(h, lr, tr as int),
                specs@.len() == tr * cols + tc,
                forall|i: int|
                    0 <= i < specs@.len() ==> {
                        let (x, y, tw, th) = #[trigger] specs@[i];
                        (x as int, y as int, tw as int, th as int) == tile_rect(w, h, lc, lr, i)
                    },
            decreases cols - tc,
        {
            proof {
                law_tile_spans(w, lc, tc as int);
                law_tile_starts_increase(w, lc, tc as int, cols as int);
                lemma_sbs(w);
                if tc + 1 < cols {
                    law_tile_starts_increase(w, lc, tc + 1, cols as int);
                }
                plane::lemma_row_col(tr as int, tc as int, cols as int);
            }
            let c0: usize = col_starts[tc];
            let c1: usize = col_starts[tc + 1];
            let x0: usize = c0 * 64;
            let x1: usize = if c1 * 64 < width {
                c1 * 64
            } else {
                width
            };
            specs.push((x0, y0, x1 - x0, y1 - y0));
            tc = tc + 1;
        }
        assert((tr + 1) * cols == tr * cols + cols) by (nonlinear_arith);
        tr = tr + 1;
    }
    assert(rows * cols == cols * rows) by (nonlinear_arith);
    specs
}

proof fn lemma_tile_of_pixel(dim: nat, log2: nat, p: int, upto: int) -> (k: int)
    requires
        0 <= upto < tile_count(dim, log2),
        0 <= p < tile_span(dim, log2, upto).0 + tile_span(dim, log2, upto).1,
    ensures
        0 <= k <= upto,
        tile_span(dim, log2, k).0 <= p < tile_span(dim, log2, k).0 + tile_span(dim, log2, k).1,
    decreases upto,
{
    law_tile_spans(dim, log2, upto);
    if p >= tile_span(dim, log2, upto).0 {
        upto
    } else {
        law_tile_spans(dim, log2, upto - 1);
        lemma_tile_of_pixel(dim, log2, p, upto - 1)
    }
}

proof fn lemma_spans_disjoint(dim: nat, log2: nat, i: int, j: int)
    requires
        0 <= i < j < tile_count(dim, log2),
    ensures
        tile_span(dim, log2, i).0 + tile_span(dim, log2, i).1 <= tile_span(dim, log2, j).0,
    decreases j,
{
    law_tile_spans(dim, log2, i);
    if i + 1 < j {
        lemma_spans_disjoint(dim, log2, i, j - 1);
        law_tile_spans(dim, log2, j - 1);
    }
}

/// Every pixel of the frame lies in a tile.
pub proof fn law_tiles_cover_the_frame(
    width: nat,
    height: nat,
    log2c: nat,
    log2r: nat,
    x: int,
    y: int,
) -> (i: int)
    requires
        0 <= x < width,
        0 <= y < height,
    ensures
        0 <= i < tile_count(width, log2c) * tile_count(height, log2r),
        in_tile(width, height, log2c, log2r, i, x, y),
{
    let cols = tile_count(width, log2c) as int;
    let rows = tile_count(height, log2r) as int;
    lemma_sbs(width);
    lemma_sbs(height);
    lemma_pow2_pos(log2c);
    lemma_pow2_pos(log2r);
    law_tile_spans(width, log2c, cols - 1);
    law_tile_spans(height, log2r, rows - 1);
    let c = lemma_tile_of_pixel(width, log2c, x, cols - 1);
    let r = lemma_tile_of_pixel(height, log2r, y, rows - 1);
    plane::lemma_row_col(r, c, cols);
    plane::lemma_in_block(r, c, cols, rows);
    r * cols + c
}

/// No pixel lies in two tiles.
pub proof fn law_tiles_are_disjoint(
    width: nat,
    height: nat,
    log2c: nat,
    log2r: nat,
    i: int,
    j: int,
    x: int,
    y: int,
)
    requires
        0 <= i < tile_count(width, log2c) * tile_count(height, log2r),
        0 <= j < tile_count(width, log2c) * tile_count(height, log2r),
        in_tile(width, height, log2c, log2r, i, x, y),
        in_tile(width, height, log2c, log2r, j, x, y),
    ensures
        i == j,
{
    let cols = tile_count(width, log2c) as int;
    let rows = tile_count(height, log2r) as int;
    if cols == 0 {
        assert(cols * rows == 0) by (nonlinear_arith)
            requires
                cols == 0,
        ;
    }
    plane::lemma_block_pos(i, cols, rows);
    plane::lemma_block_pos(j, cols, rows);
    let (ci, ri) = (i % cols, i / cols);
    let (cj, rj) = (j % cols, j / cols);
    if ci < cj {
        lemma_spans_disjoint(width, log2c, ci, cj);
    } else if cj < ci {
        lemma_spans_disjoint(width, log2c, cj, ci);
    }
    if ri < rj {
        lemma_spans_disjoint(height, log2r, ri, rj);
    } else if rj < ri {
        lemma_spans_disjoint(height, log2r, rj, ri);
    }
}

/// The signaled grid and the emitted tiles agree: a resolved grid has more than
/// one tile, and as many tiles are cut as its exponents say.
pub proof fn law_signaled_grid_is_emitted(tile_cols: nat, tile_rows: nat, width: nat, height: nat)
    requires
        width > 0,
        height > 0,
    ensures
        ({
            let lc = tile_exponent(tile_cols, width);
            let lr = tile_exponent(tile_rows, height);
            &&& tile_count(width, lc) * tile_count(height, lr) == pow2(lc + lr)
            &&& lc > 0 || lr > 0 ==> pow2(lc + lr) > 1
        }),
{
    let lc = tile_exponent(tile_cols, width);
    let lr = tile_exponent(tile_rows, height);
    law_grid_matches_tile_count(tile_cols, width);
    law_grid_matches_tile_count(tile_rows, height);
    lemma_pow2_adds(lc, lr);
    lemma2_to64();
    if lc + lr > 0 {
        lemma_pow2_strictly_increases(0, lc + lr);
    }
}

/// The exponents of a resolved grid and the number of tiles agree: a side is
/// divided into exactly two to the exponent tiles, and the exponent is one that
/// the frame header can express.
pub proof fn law_grid_matches_tile_count(request: nat, dim: nat)
    requires
        dim > 0,
    ensures
        tile_count(dim, tile_exponent(request, dim)) == pow2(tile_exponent(request, dim)),
        tile_exponent(request, dim) <= headers::max_tile_log2(dim),
{
    let k = tile_exponent(request, dim);
    let limit = tile_limit(dim);
    lemma2_to64();
    lemma_sbs(dim);
    num::lemma_bitlen_bounds(limit);
    let most = (num::bitlen(limit) - 1) as nat;
    if k < most {
        lemma_pow2_strictly_increases(k, most);
    }
    lemma_pow2_pos(k);
    if full_sbs(dim) >= 1 {
        assert(full_sbs(dim) / pow2(k) >= 1) by (nonlinear_arith)
            requires
                full_sbs(dim) >= pow2(k),
                pow2(k) > 0,
        ;
    } else {
        assert(limit == 1);
        num::lemma_bitlen_upper(1, 1);
        assert(k == 0);
    }
    let sbs = ((dim + 63) / 64) as nat;
    let capped = if sbs < 64 {
        sbs
    } else {
        64
    };
    headers::lemma_ceil_log2(capped);
    if k > headers::ceil_log2(capped) {
        lemma_pow2_strictly_increases(headers::ceil_log2(capped), k);
    }
}

/// Little-endian bytes of a tile size field.
pub open spec fn size_bytes(v: nat) -> Seq<u8> {
    seq![
        (v % 256) as u8,
        (v / 0x100 % 256) as u8,
        (v / 0x1_0000 % 256) as u8,
        (v / 0x100_0000 % 256) as u8,
    ]
}

/// Tiles one after the other, each but the last behind its size less one.
pub open spec fn tile_group(tiles: Seq<Seq<u8>>) -> Seq<u8>
    decreases tiles.len(),
{
    if tiles.len() == 0 {
        Seq::empty()
    } else if tiles.len() == 1 {
        tiles[0]
    } else {
        size_bytes((tiles[0].len() - 1) as nat) + tiles[0] + tile_group(tiles.drop_first())
    }
}

/// What a reader takes for `n` tiles.
pub open spec fn read_tile_group(s: Seq<u8>, n: nat) -> Seq<Seq<u8>>
    decreases n,
{
    if n == 0 {
        Seq::empty()
    } else if n == 1 {
        seq![s]
    } else {
        let size = s[0] + 0x100 * s[1] + 0x1_0000 * s[2] + 0x100_0000 * s[3] + 1;
        seq![s.subrange(4, 4 + size)] + read_tile_group(s.skip(4 + size), (n - 1) as nat)
    }
}

/// A reader gets all tiles back, as long as no tile is empty or larger than
/// its size field can tell.
#[verifier::spinoff_prover]
#[verifier::rlimit(60)]
pub proof fn law_tile_group_round_trip(tiles: Seq<Seq<u8>>)
    requires
        forall|i: int| 0 <= i < tiles.len() - 1 ==> 1 <= (#[trigger] tiles[i]).len() <= 0x1_0000_0000,
    ensures
        read_tile_group(tile_group(tiles), tiles.len()) == tiles,
    decreases tiles.len(),
{
    let s = tile_group(tiles);
    if tiles.len() >= 2 {
        let first = tiles[0];
        let v = (first.len() - 1) as nat;
        let rest = tiles.drop_first();
        law_tile_group_round_trip(rest);
        let head = size_bytes(v);
        assert(s =~= head + (first + tile_group(rest)));
        assert(s[0] == head[0] && s[1] == head[1] && s[2] == head[2] && s[3] == head[3]);
        lemma_size_bytes(v);
        let size = first.len() as int;
        assert(s.subrange(4, 4 + size) =~= first);
        assert(s.skip(4 + size) =~= tile_group(rest));
        assert(seq![first] + rest =~= tiles);
    } else if tiles.len() == 1 {
        assert(seq![tiles[0]] =~= tiles);
    } else {
        assert(tiles =~= Seq::empty());
    }
}

proof fn lemma_size_bytes(v: nat)
    requires
        v < 0x1_0000_0000,
    ensures
        size_bytes(v)[0] + 0x100 * size_bytes(v)[1] + 0x1_0000 * size_bytes(v)[2] + 0x100_0000
            * size_bytes(v)[3] == v,
{
    let a = v / 0x100;
    let b = v / 0x1_0000;
    let c = v / 0x100_0000;
    assert(b == a / 0x100);
    assert(c == b / 0x100);
    assert(c < 256);
}

/// A side is cut into as many tiles as were asked for, rounded up to a power of two,
/// but no more than its limit.
pub proof fn law_tiles_are_as_many_as_asked_for(request: nat, dim: nat)
    requires
        request >= 1,
    ensures
        ({
            let e = tile_exponent(request, dim);
            &&& pow2(e) <= tile_limit(dim)
            &&& pow2(e) >= request || 2 * pow2(e) > tile_limit(dim)
            &&& e > 0 ==> pow2((e - 1) as nat) < request
        }),
{
    lemma2_to64();
    let limit = tile_limit(dim);
    let most = (num::bitlen(limit) - 1) as nat;
    let e = tile_exponent(request, dim);
    num::lemma_bitlen_bounds(limit);
    lemma_pow2_unfold((most + 1) as nat);
    headers::law_log_is_the_least_that_reaches(request);
    let wanted = headers::ceil_log2(request);
    if e < most {
        lemma_pow2_strictly_increases(e, most);
    }
    if 0 < e && e < wanted {
        lemma_pow2_strictly_increases((e - 1) as nat, (wanted - 1) as nat);
    }
}

/// The limit of a side is how often 64 pixels go into it, seven pixels short
/// counting as whole, at least one and at most 64.
pub proof fn law_tile_limit(dim: nat)
    ensures
        1 <= tile_limit(dim) <= 64,
        57 <= dim < 4153 ==> 64 * tile_limit(dim) <= dim + 7 < 64 * tile_limit(dim) + 64,
        dim < 57 ==> tile_limit(dim) == 1,
        dim >= 4153 ==> tile_limit(dim) == 64,
{
}

/// Tiles of a side share its superblocks evenly: of two tiles before the last the
/// first has as many as the second or one more.
pub proof fn law_tiles_share_superblocks_evenly(dim: nat, log2: nat, k: int)
    requires
        tile_sbs(dim, log2) > 0,
        0 <= k,
        k + 1 < pow2(log2),
    ensures
        ({
            let t = tile_sbs(dim, log2) as int;
            let size = tile_start(dim, log2, k + 1) - tile_start(dim, log2, k);
            &&& t <= size <= t + 1
            &&& size == t + 1 <==> k < full_sbs(dim) - t * pow2(log2)
        }),
{
    let t = tile_sbs(dim, log2) as int;
    let p = pow2(log2) as int;
    lemma_pow2_pos(log2);
    vstd::arithmetic::div_mod::lemma_fundamental_div_mod(full_sbs(dim) as int, p);
    assert((k + 1) * t == k * t + t) by (nonlinear_arith);
    assert(t * p == p * t) by (nonlinear_arith);
}

/// A tile has the columns of its column of tiles and the rows of its row: tile
/// `cols * r + c` is the one in row `r` and column `c`.
pub proof fn law_tiles_come_by_rows(
    width: nat,
    height: nat,
    log2c: nat,
    log2r: nat,
    r: int,
    c: int,
)
    requires
        0 <= r,
        0 <= c < tile_count(width, log2c),
    ensures
        ({
            let cols = tile_count(width, log2c) as int;
            let (x, y, w, h) = tile_rect(width, height, log2c, log2r, r * cols + c);
            &&& (x, w) == tile_span(width, log2c, c)
            &&& (y, h) == tile_span(height, log2r, r)
        }),
{
    let cols = tile_count(width, log2c) as int;
    vstd::arithmetic::div_mod::lemma_fundamental_div_mod_converse(r * cols + c, cols, r, c);
}

/// Superblocks of a side: those that its blocks of eight pixels fill, and those that
/// they reach into.
pub proof fn law_superblocks_of_a_side(dim: nat, limit: nat)
    requires
        limit % 8 == 0,
        dim <= limit < dim + 8,
    ensures
        64 * full_sbs(dim) <= limit < 64 * full_sbs(dim) + 64,
        ceil_sbs(dim) > 0 ==> 64 * (ceil_sbs(dim) - 1) < limit,
        limit <= 64 * ceil_sbs(dim),
{
    assert((dim + 7) / 8 * 8 == limit);
}

/// The size of a tile stands before it, one less than it is, lowest byte first; the
/// last tile has none.
pub proof fn law_tile_sizes_come_lowest_byte_first(tiles: Seq<Seq<u8>>)
    requires
        tiles.len() >= 1,
        1 <= tiles[0].len() <= 0x1_0000_0000,
    ensures
        ({
            let s = tile_group(tiles);
            &&& tiles.len() == 1 ==> s == tiles[0]
            &&& tiles.len() > 1 ==> s[0] + 0x100 * s[1] + 0x1_0000 * s[2] + 0x100_0000 * s[3] + 1
                == tiles[0].len() && s.subrange(4, 4 + tiles[0].len() as int) == tiles[0]
        }),
{
    if tiles.len() > 1 {
        let v = (tiles[0].len() - 1) as nat;
        let s = tile_group(tiles);
        let b = size_bytes(v);
        assert(s[0] == b[0] && s[1] == b[1] && s[2] == b[2] && s[3] == b[3]);
        assert(s.subrange(4, 4 + tiles[0].len() as int) =~= tiles[0]);
        assert(v / 0x100 / 0x100 == v / 0x1_0000);
        assert(v / 0x1_0000 / 0x100 == v / 0x100_0000);
        assert(v / 0x100_0000 < 256);
    }
}

/// A grid asked for is cut by columns as far as the width allows and by rows as far as
/// the height does, and there is none where both come to a single tile.
pub proof fn law_grids_go_by_their_sides(
    grid: Option<(usize, usize)>,
    tile_cols: nat,
    tile_rows: nat,
    width: nat,
    height: nat,
)
    requires
        is_grid(grid, tile_cols, tile_rows, width, height),
    ensures
        grid is None <==> tile_exponent(tile_cols, width) == 0 && tile_exponent(
            tile_rows,
            height,
        ) == 0,
        grid matches Some((c, r)) ==> c == tile_exponent(tile_cols, width) && r == tile_exponent(
            tile_rows,
            height,
        ),
{
}

} // verus!
