//! Order of work on superblocks: wavefronts whose cells can run side by side,
//! and the division of a list among workers.

use vstd::prelude::*;

verus! {

/// Key of a cell: the wavefront that it belongs to. A skew of 1 puts a cell
/// after its upper and its left neighbor, a skew of 2 also after its upper right
/// one.
pub open spec fn front_key(skew: int, r: int, c: int) -> int {
    skew * r + c
}

/// A cell lies in the grid.
pub open spec fn in_grid(rows: int, cols: int, r: int, c: int) -> bool {
    0 <= r < rows && 0 <= c < cols
}

/// Rows of the cells of a wavefront: from the first one, up to but not with the
/// second.
pub open spec fn front_rows(rows: int, cols: int, skew: int, d: int) -> (int, int) {
    let lo = if d < cols {
        0
    } else if skew == 1 {
        d - cols + 1
    } else {
        (d - cols + 2) / 2
    };
    let last = if skew == 1 {
        d
    } else {
        d / 2
    };
    (lo, if last < rows {
        last + 1
    } else {
        rows
    })
}

/// The cells of a wavefront, from the top down.
pub open spec fn front(rows: int, cols: int, skew: int, d: int) -> Seq<(usize, usize)> {
    let (lo, end) = front_rows(rows, cols, skew, d);
    Seq::new(
        (if end > lo {
            end - lo
        } else {
            0
        }) as nat,
        |k: int| ((lo + k) as usize, (d - skew * (lo + k)) as usize),
    )
}

/// The wavefronts up to key `n` that have cells, in order.
pub open spec fn fronts(rows: int, cols: int, skew: int, n: nat) -> Seq<Seq<(usize, usize)>>
    decreases n,
{
    if n == 0 {
        Seq::empty()
    } else {
        let head = fronts(rows, cols, skew, (n - 1) as nat);
        let f = front(rows, cols, skew, n - 1);
        if f.len() > 0 {
            head.push(f)
        } else {
            head
        }
    }
}

/// How many keys a grid has.
pub open spec fn key_count(rows: int, cols: int, skew: int) -> nat {
    if rows <= 0 || cols <= 0 {
        0
    } else {
        (skew * (rows - 1) + cols) as nat
    }
}

/// All wavefronts of a grid.
pub open spec fn wavefronts(rows: int, cols: int, skew: int) -> Seq<Seq<(usize, usize)>> {
    fronts(rows, cols, skew, key_count(rows, cols, skew))
}

/// A wavefront holds exactly the cells of the grid with its key, each once.
pub proof fn law_front_holds_its_cells(rows: int, cols: int, skew: int, d: int, r: int, c: int)
    requires
        skew == 1 || skew == 2,
        0 <= rows <= usize::MAX,
        0 <= cols <= usize::MAX,
        0 <= d,
        0 <= r <= usize::MAX,
        0 <= c <= usize::MAX,
    ensures
        front(rows, cols, skew, d).no_duplicates(),
        front(rows, cols, skew, d).contains((r as usize, c as usize)) <==> in_grid(
            rows,
            cols,
            r,
            c,
        ) && front_key(skew, r, c) == d,
{
    let f = front(rows, cols, skew, d);
    let (lo, end) = front_rows(rows, cols, skew, d);
    assert forall|k: int| 0 <= k < f.len() implies {
        &&& (#[trigger] f[k]).0 == lo + k
        &&& f[k].1 == d - skew * (lo + k)
        &&& in_grid(rows, cols, lo + k, d - skew * (lo + k))
    } by {
        let row = lo + k;
        assert(skew * row == row || skew * row == 2 * row);
    }
    if in_grid(rows, cols, r, c) && front_key(skew, r, c) == d {
        assert(skew * r == r || skew * r == 2 * r);
        let k = r - lo;
        assert(f[k] == (r as usize, c as usize));
    }
    if f.contains((r as usize, c as usize)) {
        let k = f.index_of((r as usize, c as usize));
        assert(f[k].0 == lo + k);
        assert(skew * r == r || skew * r == 2 * r);
    }
}

/// With a skew of 1 the upper and the left neighbor of a cell belong to earlier
/// wavefronts; with a skew of 2 so do the upper left and the upper right one.
pub proof fn law_neighbors_come_first(r: int, c: int)
    ensures
        front_key(1, r - 1, c) < front_key(1, r, c),
        front_key(1, r, c - 1) < front_key(1, r, c),
        front_key(2, r - 1, c - 1) < front_key(2, r, c),
        front_key(2, r - 1, c) < front_key(2, r, c),
        front_key(2, r - 1, c + 1) < front_key(2, r, c),
        front_key(2, r, c - 1) < front_key(2, r, c),
{
}

proof fn lemma_fronts_prefix(rows: int, cols: int, skew: int, m: nat, n: nat)
    requires
        m <= n,
    ensures
        fronts(rows, cols, skew, m).is_prefix_of(fronts(rows, cols, skew, n)),
    decreases n,
{
    if m < n {
        lemma_fronts_prefix(rows, cols, skew, m, (n - 1) as nat);
    }
}

/// Every cell of a grid is in the list of wavefronts, and a neighbor that it
/// depends on is in an earlier one. `pr` and `pc` are that neighbor.
pub proof fn law_wavefronts_respect_dependencies(
    rows: int,
    cols: int,
    skew: int,
    r: int,
    c: int,
    pr: int,
    pc: int,
) -> (at: (int, int))
    requires
        skew == 1 || skew == 2,
        0 <= rows <= usize::MAX,
        0 <= cols <= usize::MAX,
        in_grid(rows, cols, r, c),
        in_grid(rows, cols, pr, pc),
        front_key(skew, pr, pc) < front_key(skew, r, c),
    ensures
        0 <= at.0 < at.1 < wavefronts(rows, cols, skew).len(),
        wavefronts(rows, cols, skew)[at.0].contains((pr as usize, pc as usize)),
        wavefronts(rows, cols, skew)[at.1].contains((r as usize, c as usize)),
{
    let a = lemma_cell_place(rows, cols, skew, pr, pc);
    let b = lemma_cell_place(rows, cols, skew, r, c);
    let (d, e) = (front_key(skew, pr, pc) as nat, front_key(skew, r, c) as nat);
    lemma_fronts_prefix(rows, cols, skew, d + 1, e);
    (a, b)
}

/// Where a cell stands in the list of wavefronts.
pub proof fn lemma_cell_place(rows: int, cols: int, skew: int, r: int, c: int) -> (at: int)
    requires
        skew == 1 || skew == 2,
        0 <= rows <= usize::MAX,
        0 <= cols <= usize::MAX,
        in_grid(rows, cols, r, c),
    ensures
        at == fronts(rows, cols, skew, front_key(skew, r, c) as nat).len(),
        fronts(rows, cols, skew, (front_key(skew, r, c) + 1) as nat).len() == at + 1,
        0 <= at < wavefronts(rows, cols, skew).len(),
        wavefronts(rows, cols, skew)[at].contains((r as usize, c as usize)),
{
    let d = front_key(skew, r, c);
    assert(skew * r == r || skew * r == 2 * r);
    assert(skew * (rows - 1) == rows - 1 || skew * (rows - 1) == 2 * (rows - 1));
    law_front_holds_its_cells(rows, cols, skew, d, r, c);
    let f = front(rows, cols, skew, d);
    assert(f.len() > 0);
    let n = key_count(rows, cols, skew);
    lemma_fronts_prefix(rows, cols, skew, (d + 1) as nat, n);
    let at = fronts(rows, cols, skew, d as nat).len() as int;
    let upto = fronts(rows, cols, skew, (d + 1) as nat);
    assert(upto == fronts(rows, cols, skew, d as nat).push(f));
    assert(wavefronts(rows, cols, skew)[at] == upto[at]);
    at
}

/// The cells of lists.
pub open spec fn cell_views(v: Seq<Vec<(usize, usize)>>) -> Seq<Seq<(usize, usize)>> {
    v.map_values(|c: Vec<(usize, usize)>| c@)
}

/// Fronts that a row lies behind the one above it.
pub open spec fn skew_of(needs_above_right: bool) -> int {
    if needs_above_right {
        2
    } else {
        1
    }
}

/// Wavefronts of a `rows` by `cols` grid. `needs_above_right` also puts the upper
/// right neighbor of a cell before it, at the price of narrower wavefronts.
pub fn wavefront_cells(rows: usize, cols: usize, needs_above_right: bool) -> (out: Vec<
    Vec<(usize, usize)>,
>)
    requires
        rows >= 1 && cols >= 1 ==> (if needs_above_right {
            2 * (rows - 1) + cols
        } else {
            rows - 1 + cols
        }) <= usize::MAX,
    ensures
        cell_views(out@) == wavefronts(
            rows as int,
            cols as int,
            skew_of(needs_above_right),
        ),
{
    let ghost skew: int = if needs_above_right {
        2
    } else {
        1
    };
    let mut out: Vec<Vec<(usize, usize)>> = Vec::new();
    if rows == 0 || cols == 0 {
        assert(cell_views(out@) =~= Seq::<Seq<(usize, usize)>>::empty());
        return out;
    }
    let n: usize = if needs_above_right {
        2 * (rows - 1) + cols
    } else {
        rows - 1 + cols
    };
    assert(cell_views(out@) =~= Seq::<Seq<(usize, usize)>>::empty());
    let mut d: usize = 0;
    while d < n
        invariant
            d <= n,
            1 <= rows,
            1 <= cols,
            n == skew * (rows - 1) + cols,
            skew == if needs_above_right {
                2int
            } else {
                1int
            },
            cell_views(out@) == fronts(rows as int, cols as int, skew, d as nat),
        decreases n - d,
    {
        let lo: usize = if d < cols {
            0
        } else if needs_above_right {
            (d - cols + 2) / 2
        } else {
            d - cols + 1
        };
        let last: usize = if needs_above_right {
            d / 2
        } else {
            d
        };
        let end: usize = if last < rows {
            last + 1
        } else {
            rows
        };
        let ghost f = front(rows as int, cols as int, skew, d as int);
        let mut cells: Vec<(usize, usize)> = Vec::new();
        let mut r: usize = lo;
        while r < end
            invariant
                lo <= r,
                r <= end || r == lo,
                end <= rows,
                end <= last + 1,
                last == if needs_above_right {
                    d as int / 2
                } else {
                    d as int
                },
                skew == if needs_above_right {
                    2int
                } else {
                    1int
                },
                (lo as int, end as int) == front_rows(rows as int, cols as int, skew, d as int),
                f == front(rows as int, cols as int, skew, d as int),
                cells@.len() == r - lo,
                forall|k: int| 0 <= k < cells@.len() ==> #[trigger] cells@[k] == f[k],
            decreases end - r,
        {
            let c: usize = if needs_above_right {
                d - 2 * r
            } else {
                d - r
            };
            let ghost k = r - lo;
            assert(f[k] == (r, c));
            cells.push((r, c));
            r = r + 1;
        }
        assert(cells@ =~= f);
        let ghost before = out@;
        if cells.len() > 0 {
            out.push(cells);
            assert(cell_views(out@) =~= cell_views(before).push(f));
        }
        d = d + 1;
    }
    out
}

// ---------------------------------------------------------------------------
// Workers
// ---------------------------------------------------------------------------

/// Items of each worker but the last: `n` over the workers, rounded up.
pub open spec fn chunk_size(n: int, workers: int) -> int {
    (n + workers - 1) / workers
}

/// Divide `n` items among workers into runs of consecutive items: first item
/// and end of each run, in order.
pub fn chunk_ranges(n: usize, workers: usize) -> (out: Vec<(usize, usize)>)
    requires
        1 <= workers,
        n + workers <= usize::MAX,
    ensures
        out@.len() <= workers,
        n == 0 ==> out@.len() == 0,
        n > 0 ==> out@.len() > 0 && out@[0].0 == 0 && out@.last().1 == n,
        forall|i: int|
            0 <= i < out@.len() ==> (#[trigger] out@[i]).0 == i * chunk_size(
                n as int,
                workers as int,
            ),
        forall|i: int|
            0 <= i < out@.len() ==> (#[trigger] out@[i]).1 == if i + 1 < out@.len() {
                (i + 1) * chunk_size(n as int, workers as int)
            } else {
                n as int
            },
        forall|i: int| 0 <= i < out@.len() ==> (#[trigger] out@[i]).0 < out@[i].1,
{
    let mut out: Vec<(usize, usize)> = Vec::new();
    if n == 0 {
        return out;
    }
    let chunk: usize = (n + workers - 1) / workers;
    proof {
        let (nn, w, c) = (n as int, workers as int, chunk as int);
        assert(c >= 1) by (nonlinear_arith)
            requires
                c == (nn + w - 1) / w,
                nn >= 1,
                w >= 1,
        ;
        assert(c * w >= nn) by (nonlinear_arith)
            requires
                c == (nn + w - 1) / w,
                w >= 1,
        ;
        assert(c <= nn) by (nonlinear_arith)
            requires
                c == (nn + w - 1) / w,
                nn >= 1,
                w >= 1,
        ;
    }
    let mut start: usize = 0;
    while start < n
        invariant
            start <= n,
            1 <= chunk <= n,
            chunk == chunk_size(n as int, workers as int),
            chunk * workers >= n,
            start == n || start == out@.len() * chunk,
            start < n ==> out@.len() < workers,
            out@.len() <= workers,
            start == 0 ==> out@.len() == 0,
            out@.len() > 0 ==> out@.last().1 == start && out@[0].0 == 0,
            start > 0 ==> out@.len() > 0,
            forall|i: int| 0 <= i < out@.len() ==> (#[trigger] out@[i]).0 == i * chunk,
            forall|i: int|
                0 <= i < out@.len() ==> (#[trigger] out@[i]).1 == if i + 1 < out@.len() {
                    (i + 1) * chunk
                } else {
                    start as int
                },
            forall|i: int| 0 <= i < out@.len() ==> (#[trigger] out@[i]).0 < out@[i].1,
        decreases n - start,
    {
        let end: usize = if n - start < chunk {
            n
        } else {
            start + chunk
        };
        let ghost before = out@;
        out.push((start, end));
        proof {
            let (k, c) = (before.len() as int, chunk as int);
            assert((k + 1) * c == k * c + c) by (nonlinear_arith);
            assert(0 * c == 0);
            assert forall|i: int| 0 <= i < out@.len() implies (#[trigger] out@[i]).0 == i * chunk by {
                if i < k {
                    assert(out@[i] == before[i]);
                }
            }
            assert forall|i: int| 0 <= i < out@.len() implies (#[trigger] out@[i]).1 == if i + 1
                < out@.len() {
                (i + 1) * chunk
            } else {
                end as int
            } by {
                if i < k {
                    assert(out@[i] == before[i]);
                }
            }
            assert forall|i: int| 0 <= i < out@.len() implies (#[trigger] out@[i]).0 < out@[i].1 by {
                if i < k {
                    assert(out@[i] == before[i]);
                }
            }
            if k > 0 {
                assert(out@[0] == before[0]);
            }
            if end < n {
                let w = workers as int;
                assert(k + 1 < w) by (nonlinear_arith)
                    requires
                        (k + 1) * c == end,
                        end < n,
                        c * w >= n,
                        c >= 1,
                ;
            }
        }
        start = end;
    }
    out
}

/// Chunks are no larger than sharing out evenly makes them.
pub proof fn law_chunks_share_evenly(n: int, workers: int)
    requires
        workers >= 1,
        n >= 0,
    ensures
        n <= workers * chunk_size(n, workers) < n + workers,
{
    vstd::arithmetic::div_mod::lemma_fundamental_div_mod(n + workers - 1, workers);
}

/// Fronts are numbered by the column, one more for each row, or two where a cell
/// needs the one above to the right.
pub proof fn law_fronts_are_skewed(skew: int, r: int, c: int)
    ensures
        front_key(skew, r, c + 1) == front_key(skew, r, c) + 1,
        front_key(skew, r + 1, c) == front_key(skew, r, c) + skew,
        front_key(skew, 0, 0) == 0,
{
    assert(skew * (r + 1) == skew * r + skew) by (nonlinear_arith);
}

/// The cells to the left of a cell and above it are always in an earlier front, and
/// so is the one above to the right where it is needed.
pub proof fn law_needed_cells_come_first(needs_above_right: bool, r: int, c: int)
    ensures
        ({
            let k = |r: int, c: int| front_key(skew_of(needs_above_right), r, c);
            &&& k(r, c - 1) < k(r, c)
            &&& k(r - 1, c) < k(r, c)
            &&& needs_above_right ==> k(r - 1, c + 1) < k(r, c)
            &&& !needs_above_right ==> k(r - 1, c + 1) == k(r, c)
        }),
{
}

} // verus!
