//! Block-neighbor flags and coefficient order of lossless coding.

use vstd::arithmetic::mul::*;
use vstd::prelude::*;

verus! {

/// Coding order of the 16 coefficients of a 4x4 transform.
pub const SCAN_4X4: [u8; 16] = [0, 4, 1, 8, 5, 2, 12, 9, 6, 3, 13, 10, 7, 14, 11, 15];

/// Boolean block-neighbor state in units of 4x4 pixels.
pub struct BlockFlagGrid {
    rows: usize,
    cols: usize,
    cells: Vec<bool>,
}

/// A neighbor of a block: its position, if there is one.
pub open spec fn neighbor(r: int, c: int, present: bool) -> Option<(int, int)> {
    if present {
        Some((r, c))
    } else {
        None
    }
}

/// The neighbors of a block in the order in which they are asked: bottom-left,
/// above-right, left, above.
pub open spec fn npos_candidates(row: int, col: int, block_rows: int, block_cols: int) -> Seq<
    Option<(int, int)>,
> {
    seq![
        neighbor(row + block_rows - 1, col - 1, block_rows > 0 && col > 0),
        neighbor(row - 1, col + block_cols - 1, row > 0 && block_cols > 0),
        neighbor(row, col - 1, col > 0),
        neighbor(row - 1, col, row > 0),
    ]
}

impl BlockFlagGrid {
    /// Height of the grid.
    pub closed spec fn height(&self) -> int {
        self.rows as int
    }

    /// Width of the grid.
    pub closed spec fn width(&self) -> int {
        self.cols as int
    }

    /// The flag at a position.
    pub closed spec fn flag(&self, r: int, c: int) -> bool {
        self.cells@[r * self.cols + c]
    }

    /// The grid holds one cell per position.
    pub closed spec fn wf(&self) -> bool {
        self.cells@.len() == self.rows * self.cols
    }

    /// Whether a position lies in the grid.
    pub open spec fn inside(&self, r: int, c: int) -> bool {
        0 <= r < self.height() && 0 <= c < self.width()
    }

    /// The flag at a position as a number; 0 outside the grid.
    pub open spec fn flag_at(&self, r: int, c: int) -> nat {
        if self.inside(r, c) && self.flag(r, c) {
            1
        } else {
            0
        }
    }

    /// Whether a neighbor counts: it lies in the grid and, unless the row above
    /// is buffered, in the superblock row of the block.
    pub open spec fn counts(&self, n: Option<(int, int)>, row: int, buffered_above: bool) -> bool {
        match n {
            Some((r, c)) => self.inside(r, c) && (buffered_above || r / 16 == row / 16),
            None => false,
        }
    }

    /// How many of the first `k` candidates count.
    pub open spec fn counted(
        &self,
        cands: Seq<Option<(int, int)>>,
        k: nat,
        row: int,
        buffered_above: bool,
    ) -> nat
        decreases k,
    {
        if k == 0 {
            0
        } else {
            self.counted(cands, (k - 1) as nat, row, buffered_above) + if self.counts(
                cands[k - 1],
                row,
                buffered_above,
            ) {
                1nat
            } else {
                0nat
            }
        }
    }

    /// Flags of the first two candidates that count, among the first `k`.
    pub open spec fn npos_sum(
        &self,
        cands: Seq<Option<(int, int)>>,
        k: nat,
        row: int,
        buffered_above: bool,
    ) -> nat
        decreases k,
    {
        if k == 0 {
            0
        } else {
            let last = cands[k - 1];
            self.npos_sum(cands, (k - 1) as nat, row, buffered_above) + if self.counts(
                last,
                row,
                buffered_above,
            ) && self.counted(cands, (k - 1) as nat, row, buffered_above) < 2 {
                match last {
                    Some((r, c)) => self.flag_at(r, c),
                    None => 0,
                }
            } else {
                0
            }
        }
    }

    /// A grid of cleared flags.
    pub fn new(rows: usize, cols: usize) -> (grid: BlockFlagGrid)
        requires
            rows * cols <= usize::MAX,
        ensures
            grid.wf(),
            grid.height() == rows,
            grid.width() == cols,
            forall|r: int, c: int| grid.inside(r, c) ==> !#[trigger] grid.flag(r, c),
    {
        let cells: Vec<bool> = vec![false; rows * cols];
        let grid = BlockFlagGrid { rows, cols, cells };
        proof {
            assert forall|r: int, c: int| grid.inside(r, c) implies !#[trigger] grid.flag(r, c) by {
                crate::plane::lemma_in_block(r, c, cols as int, rows as int);
                lemma_mul_is_commutative(rows as int, cols as int);
            }
        }
        grid
    }

    /// The flag of a position as 0 or 1; 0 outside the grid.
    fn cell(&self, r: usize, c: usize) -> (v: usize)
        requires
            self.wf(),
        ensures
            v == self.flag_at(r as int, c as int),
            v <= 1,
    {
        if r >= self.rows || c >= self.cols {
            return 0;
        }
        proof {
            crate::plane::lemma_in_block(r as int, c as int, self.cols as int, self.rows as int);
            lemma_mul_is_commutative(self.rows as int, self.cols as int);
        }
        let len: usize = self.cells.len();
        if self.cells[r * self.cols + c] {
            1
        } else {
            0
        }
    }

    /// Flags right above and right beside a position.
    pub open spec fn near_sum(&self, row: int, col: int) -> nat {
        (if row > 0 {
            self.flag_at(row - 1, col)
        } else {
            0
        }) + (if col > 0 {
            self.flag_at(row, col - 1)
        } else {
            0
        })
    }

    /// Flags beside the last row and above the last column of a block.
    pub open spec fn far_sum(&self, row: int, col: int, block_rows: int, block_cols: int) -> nat {
        (if col > 0 {
            self.flag_at(
                row + (if block_rows > 0 {
                    block_rows - 1
                } else {
                    0
                }),
                col - 1,
            )
        } else {
            0
        }) + (if row > 0 {
            self.flag_at(
                row - 1,
                col + (if block_cols > 0 {
                    block_cols - 1
                } else {
                    0
                }),
            )
        } else {
            0
        })
    }

    /// Direct above and left flags of a position.
    pub fn context(&self, row: usize, col: usize) -> (ctx: usize)
        requires
            self.wf(),
            row > 0 ==> self.inside(row - 1, col as int),
            col > 0 ==> self.inside(row as int, col - 1),
        ensures
            ctx == self.near_sum(row as int, col as int),
    {
        let above: usize = if row > 0 {
            self.cell(row - 1, col)
        } else {
            0
        };
        let left: usize = if col > 0 {
            self.cell(row, col - 1)
        } else {
            0
        };
        above + left
    }

    /// The flag of candidate `k`, if it counts.
    fn npos_neighbor(
        &self,
        k: usize,
        row: usize,
        col: usize,
        block_rows: usize,
        block_cols: usize,
        buffered_above: bool,
    ) -> (flag: Option<usize>)
        requires
            self.wf(),
            k < 4,
        ensures
            ({
                let n = npos_candidates(
                    row as int,
                    col as int,
                    block_rows as int,
                    block_cols as int,
                )[k as int];
                match flag {
                    Some(v) => {
                        &&& self.counts(n, row as int, buffered_above)
                        &&& v <= 1
                        &&& n matches Some((r, c))
                        &&& v == self.flag_at(r, c)
                    },
                    None => !self.counts(n, row as int, buffered_above),
                }
            }),
    {
        let position: Option<(usize, usize)> = if k == 0 {
            if block_rows > 0 && col > 0 && block_rows - 1 <= usize::MAX - row {
                Some((row + (block_rows - 1), col - 1))
            } else {
                None
            }
        } else if k == 1 {
            if row > 0 && block_cols > 0 && block_cols - 1 <= usize::MAX - col {
                Some((row - 1, col + (block_cols - 1)))
            } else {
                None
            }
        } else if k == 2 {
            if col > 0 {
                Some((row, col - 1))
            } else {
                None
            }
        } else {
            if row > 0 {
                Some((row - 1, col))
            } else {
                None
            }
        };
        match position {
            Some((r, c)) => {
                if r < self.rows && c < self.cols && (buffered_above || r / 16 == row / 16) {
                    Some(self.cell(r, c))
                } else {
                    None
                }
            },
            None => None,
        }
    }

    /// Flags of the first two neighbors that count, in the order bottom-left,
    /// above-right, left, above. Without `buffered_above` the superblock row
    /// above does not count.
    pub fn npos_context(
        &self,
        row: usize,
        col: usize,
        block_rows: usize,
        block_cols: usize,
        buffered_above: bool,
    ) -> (ctx: usize)
        requires
            self.wf(),
        ensures
            ctx == self.npos_sum(
                npos_candidates(row as int, col as int, block_rows as int, block_cols as int),
                4,
                row as int,
                buffered_above,
            ),
            ctx <= 2,
    {
        let ghost cands = npos_candidates(
            row as int,
            col as int,
            block_rows as int,
            block_cols as int,
        );
        let mut sum: usize = 0;
        let mut taken: usize = 0;
        let mut k: usize = 0;
        while k < 4
            invariant
                k <= 4,
                self.wf(),
                cands == npos_candidates(
                    row as int,
                    col as int,
                    block_rows as int,
                    block_cols as int,
                ),
                taken == if self.counted(cands, k as nat, row as int, buffered_above) < 2 {
                    self.counted(cands, k as nat, row as int, buffered_above)
                } else {
                    2
                },
                sum == self.npos_sum(cands, k as nat, row as int, buffered_above),
                sum <= taken <= 2,
            decreases 4 - k,
        {
            match self.npos_neighbor(k, row, col, block_rows, block_cols, buffered_above) {
                Some(flag) => {
                    if taken < 2 {
                        sum = sum + flag;
                        taken = taken + 1;
                    }
                },
                None => {},
            }
            k = k + 1;
        }
        sum
    }

    /// Flags of the bottom-left and above-right neighbors.
    pub fn joint_mode_context(&self, row: usize, col: usize, block_rows: usize, block_cols: usize) -> (ctx:
        usize)
        requires
            self.wf(),
        ensures
            ctx == self.far_sum(row as int, col as int, block_rows as int, block_cols as int),
    {
        let down: usize = if block_rows > 0 {
            block_rows - 1
        } else {
            0
        };
        let right: usize = if block_cols > 0 {
            block_cols - 1
        } else {
            0
        };
        let bottom_left: usize = if col > 0 && down <= usize::MAX - row {
            self.cell(row + down, col - 1)
        } else {
            0
        };
        let above_right: usize = if row > 0 && right <= usize::MAX - col {
            self.cell(row - 1, col + right)
        } else {
            0
        };
        bottom_left + above_right
    }

    /// Set the flags of a block.
    pub fn set_block(&mut self, row: usize, col: usize, rows: usize, cols: usize, value: bool)
        requires
            old(self).wf(),
            row + rows <= old(self).height(),
            col + cols <= old(self).width(),
        ensures
            final(self).wf(),
            final(self).height() == old(self).height(),
            final(self).width() == old(self).width(),
            forall|r: int, c: int|
                old(self).inside(r, c) ==> #[trigger] final(self).flag(r, c) == if row <= r < row
                    + rows && col <= c < col + cols {
                    value
                } else {
                    old(self).flag(r, c)
                },
    {
        let ghost before = *self;
        let len: usize = self.cells.len();
        let mut y: usize = row;
        while y < row + rows
            invariant
                row <= y <= row + rows,
                self.wf(),
                self.rows == before.rows,
                self.cols == before.cols,
                row + rows <= self.rows,
                col + cols <= self.cols,
                len == self.cells@.len(),
                forall|r: int, c: int|
                    before.inside(r, c) ==> #[trigger] self.flag(r, c) == if row <= r < y && col
                        <= c < col + cols {
                        value
                    } else {
                        before.flag(r, c)
                    },
            decreases row + rows - y,
        {
            let mut x: usize = col;
            while x < col + cols
                invariant
                    row <= y < row + rows,
                    col <= x <= col + cols,
                    self.wf(),
                    self.rows == before.rows,
                    self.cols == before.cols,
                    row + rows <= self.rows,
                    col + cols <= self.cols,
                    len == self.cells@.len(),
                    forall|r: int, c: int|
                        before.inside(r, c) ==> #[trigger] self.flag(r, c) == if (row <= r < y
                            && col <= c < col + cols) || (r == y && col <= c < x) {
                            value
                        } else {
                            before.flag(r, c)
                        },
                decreases col + cols - x,
            {
                proof {
                    crate::plane::lemma_in_block(
                        y as int,
                        x as int,
                        self.cols as int,
                        self.rows as int,
                    );
                    lemma_mul_is_commutative(self.rows as int, self.cols as int);
                }
                let at: usize = y * self.cols + x;
                let ghost prior = *self;
                self.cells.set(at, value);
                proof {
                    assert forall|r: int, c: int| before.inside(r, c) implies #[trigger] self.flag(
                        r,
                        c,
                    ) == if (row <= r < y && col <= c < col + cols) || (r == y && col <= c < x + 1) {
                        value
                    } else {
                        before.flag(r, c)
                    } by {
                        let i = r * self.cols + c;
                        crate::plane::lemma_in_block(r, c, self.cols as int, self.rows as int);
                        crate::plane::lemma_row_col(r, c, self.cols as int);
                        crate::plane::lemma_row_col(y as int, x as int, self.cols as int);
                        assert(prior.flag(r, c) == prior.cells@[i]);
                        if i == at {
                            assert(r == y && c == x);
                        }
                    }
                }
                x = x + 1;
            }
            y = y + 1;
        }
    }
}

/// The nonzero levels among the first `k` scan positions, each with its position.
pub open spec fn scanned_levels(levels: Seq<i32>, k: nat) -> Seq<(usize, i32)>
    decreases k,
{
    if k == 0 {
        Seq::empty()
    } else {
        let l = levels[SCAN_4X4@[k - 1] as int];
        let rest = scanned_levels(levels, (k - 1) as nat);
        if l != 0 {
            rest.push(((k - 1) as usize, l))
        } else {
            rest
        }
    }
}

/// Convert the 16 raster-order levels of a 4x4 transform into a list of scan
/// positions and levels, nonzero levels only, in scan order.
pub fn levels_to_coeffs_4x4(levels: &[i32; 16]) -> (out: Vec<(usize, i32)>)
    ensures
        out@ == scanned_levels(levels@, 16),
{
    let mut out: Vec<(usize, i32)> = Vec::new();
    let mut k: usize = 0;
    while k < 16
        invariant
            k <= 16,
            out@ == scanned_levels(levels@, k as nat),
        decreases 16 - k,
    {
        proof {
            lemma_scan_in_range(k as int);
        }
        let l: i32 = levels[SCAN_4X4[k] as usize];
        if l != 0 {
            out.push((k, l));
        }
        k = k + 1;
    }
    out
}

proof fn lemma_scan_in_range(k: int)
    requires
        0 <= k < 16,
    ensures
        SCAN_4X4@[k] < 16,
{
}

/// The level that a coefficient list holds at a scan position; 0 where there is none.
pub open spec fn level_at(coeffs: Seq<(usize, i32)>, k: int) -> int
    decreases coeffs.len(),
{
    if coeffs.len() == 0 {
        0
    } else if coeffs.last().0 == k {
        coeffs.last().1 as int
    } else {
        level_at(coeffs.drop_last(), k)
    }
}

/// No level is lost: the list gives every level back at its scan position.
pub proof fn law_levels_read_back(levels: Seq<i32>, n: nat, k: int)
    requires
        levels.len() == 16,
        n <= 16,
        0 <= k < n,
    ensures
        level_at(scanned_levels(levels, n), k) == levels[SCAN_4X4@[k] as int],
    decreases n,
{
    let rest = scanned_levels(levels, (n - 1) as nat);
    let l = levels[SCAN_4X4@[n - 1] as int];
    if l != 0 {
        assert(scanned_levels(levels, n).drop_last() =~= rest);
    }
    if k < n - 1 {
        law_levels_read_back(levels, (n - 1) as nat, k);
    } else if l == 0 {
        lemma_no_later_position(levels, (n - 1) as nat, k);
    }
}

proof fn lemma_no_later_position(levels: Seq<i32>, n: nat, k: int)
    requires
        n <= 16,
        k >= n,
    ensures
        level_at(scanned_levels(levels, n), k) == 0,
    decreases n,
{
    if n > 0 {
        lemma_no_later_position(levels, (n - 1) as nat, k);
        if levels[SCAN_4X4@[n - 1] as int] != 0 {
            assert(scanned_levels(levels, n).drop_last() =~= scanned_levels(
                levels,
                (n - 1) as nat,
            ));
        }
    }
}

impl BlockFlagGrid {
    /// A block with both neighbors in reach takes two flags: that beside its last
    /// row and that above its last column.
    pub proof fn law_two_far_neighbors_count(
        &self,
        row: int,
        col: int,
        block_rows: int,
        block_cols: int,
    )
        requires
            row > 0,
            col > 0,
            block_rows > 0,
            block_cols > 0,
            self.inside(row + block_rows - 1, col - 1),
            self.inside(row - 1, col + block_cols - 1),
        ensures
            self.npos_sum(npos_candidates(row, col, block_rows, block_cols), 4, row, true)
                == self.flag_at(row + block_rows - 1, col - 1) + self.flag_at(
                row - 1,
                col + block_cols - 1,
            ),
    {
        reveal_with_fuel(BlockFlagGrid::npos_sum, 5);
        reveal_with_fuel(BlockFlagGrid::counted, 5);
    }

    /// In the first row of the frame a block takes the flags beside its last and its
    /// first row, in the first column those above its last and its first column, and
    /// in the corner none.
    pub proof fn law_one_edge_counts_both_its_ends(
        &self,
        row: int,
        col: int,
        block_rows: int,
        block_cols: int,
    )
        requires
            block_rows > 0,
            block_cols > 0,
            row >= 0,
            col >= 0,
        ensures
            ({
                let n = self.npos_sum(
                    npos_candidates(row, col, block_rows, block_cols),
                    4,
                    row,
                    true,
                );
                &&& row == 0 && col == 0 ==> n == 0
                &&& row == 0 && col > 0 ==> n == self.flag_at(row + block_rows - 1, col - 1)
                    + self.flag_at(row, col - 1)
                &&& row > 0 && col == 0 ==> n == self.flag_at(row - 1, col + block_cols - 1)
                    + self.flag_at(row - 1, col)
            }),
    {
        reveal_with_fuel(BlockFlagGrid::npos_sum, 5);
        reveal_with_fuel(BlockFlagGrid::counted, 5);
    }

    /// Where the row above is not kept, neighbors of another superblock row do not
    /// count: at the top of a superblock only the flags beside the block do.
    pub proof fn law_superblock_rows_are_apart(
        &self,
        row: int,
        col: int,
        block_rows: int,
        block_cols: int,
    )
        requires
            row > 0,
            row % 16 == 0,
            col > 0,
            0 < block_rows <= 16,
            block_cols > 0,
        ensures
            self.npos_sum(npos_candidates(row, col, block_rows, block_cols), 4, row, false)
                == self.flag_at(row + block_rows - 1, col - 1) + self.flag_at(row, col - 1),
    {
        reveal_with_fuel(BlockFlagGrid::npos_sum, 5);
        reveal_with_fuel(BlockFlagGrid::counted, 5);
        assert((row - 1) / 16 != row / 16);
        assert((row + block_rows - 1) / 16 == row / 16);
    }
}

proof fn lemma_scan_table()
    ensures
        SCAN_4X4@[0] == 0,
        SCAN_4X4@[1] == 4,
        SCAN_4X4@[2] == 1,
        SCAN_4X4@[3] == 8,
        SCAN_4X4@[4] == 5,
        SCAN_4X4@[5] == 2,
        SCAN_4X4@[6] == 12,
        SCAN_4X4@[7] == 9,
        SCAN_4X4@[8] == 6,
        SCAN_4X4@[9] == 3,
        SCAN_4X4@[10] == 13,
        SCAN_4X4@[11] == 10,
        SCAN_4X4@[12] == 7,
        SCAN_4X4@[13] == 14,
        SCAN_4X4@[14] == 11,
        SCAN_4X4@[15] == 15,
{
}

impl BlockFlagGrid {
    /// A position counts the flags above and to the left of it, and none across the
    /// edges of the frame; a block of one unit counts the same from its far corners.
    pub proof fn law_contexts_count_flags(
        &self,
        row: int,
        col: int,
        block_rows: int,
        block_cols: int,
    )
        requires
            row >= 0,
            col >= 0,
            block_rows >= 1,
            block_cols >= 1,
        ensures
            self.near_sum(0, 0) == 0,
            col > 0 ==> self.near_sum(0, col) == self.flag_at(0, col - 1),
            row > 0 ==> self.near_sum(row, 0) == self.flag_at(row - 1, 0),
            row > 0 && col > 0 ==> self.near_sum(row, col) == self.flag_at(row - 1, col)
                + self.flag_at(row, col - 1),
            self.far_sum(row, col, 1, 1) == self.near_sum(row, col),
            row > 0 && col > 0 ==> self.far_sum(row, col, block_rows, block_cols) == self.flag_at(
                row + block_rows - 1,
                col - 1,
            ) + self.flag_at(row - 1, col + block_cols - 1),
            row == 0 && col > 0 ==> self.far_sum(row, col, block_rows, block_cols) == self.flag_at(
                row + block_rows - 1,
                col - 1,
            ),
            row > 0 && col == 0 ==> self.far_sum(row, col, block_rows, block_cols) == self.flag_at(
                row - 1,
                col + block_cols - 1,
            ),
    {
    }
}

/// The scan of a 4x4 block goes through every position once, diagonal after
/// diagonal, each from its foot upwards.
pub proof fn law_scan_follows_the_diagonals(i: int, j: int)
    requires
        0 <= i < j < 16,
    ensures
        ({
            let (a, b) = (SCAN_4X4@[i] as int, SCAN_4X4@[j] as int);
            let (da, db) = (a / 4 + a % 4, b / 4 + b % 4);
            &&& 0 <= a < 16 && 0 <= b < 16
            &&& a != b
            &&& da <= db
            &&& da == db ==> a / 4 > b / 4
        }),
{
    lemma_scan_table();
}

} // verus!
