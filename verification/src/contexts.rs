//! Coefficient contexts of transform blocks.
//!
//! Each 4-pixel unit along the top and the left keeps one byte of the last
//! transform block over it: the sum of its levels, up to seven, in the low six
//! bits, and the sign of its DC level in the two high bits (0 for negative, 1
//! for none, 2 for positive).

use crate::plane;
use vstd::arithmetic::mul::*;
use vstd::prelude::*;

verus! {

/// A coefficient: its scan position and its level.
pub type Coeff = (usize, i32);

/// Byte of a unit with nothing coded over it.
pub const NEUTRAL: u8 = 0x40;

/// The bytes along the top and the left.
pub struct Neighbors {
    pub above: Seq<u8>,
    pub left: Seq<u8>,
}

/// Where a transform block lies, in units, and the extent of the frame.
pub struct Cell {
    pub cy: int,
    pub cx: int,
    pub wu: nat,
    pub hu: nat,
    pub mi_rows: int,
    pub mi_cols: int,
}

// ---------------------------------------------------------------------------
// What a block leaves behind
// ---------------------------------------------------------------------------

/// Sum of the magnitudes of the levels.
pub open spec fn level_sum(tu: Seq<Coeff>) -> nat
    decreases tu.len(),
{
    if tu.len() == 0 {
        0
    } else {
        let l = tu.last().1 as int;
        level_sum(tu.drop_last()) + (if l < 0 {
            -l
        } else {
            l
        }) as nat
    }
}

/// The first level other than zero at scan position 0, or zero.
pub open spec fn dc_level(tu: Seq<Coeff>) -> int
    decreases tu.len(),
{
    if tu.len() == 0 {
        0
    } else if tu[0].0 == 0 && tu[0].1 != 0 {
        tu[0].1 as int
    } else {
        dc_level(tu.drop_first())
    }
}

/// Level sum as it is stored.
pub open spec fn stored_level(tu: Seq<Coeff>) -> int {
    if level_sum(tu) > 7 {
        7
    } else {
        level_sum(tu) as int
    }
}

/// Byte that a block leaves on its units.
pub open spec fn block_byte(tu: Seq<Coeff>) -> u8 {
    let dc = dc_level(tu);
    (stored_level(tu) + if dc > 0 {
        0x80int
    } else if dc < 0 {
        0int
    } else {
        0x40int
    }) as u8
}

/// Level sum of a block as it is stored.
pub fn stored_level_of(tu: &[Coeff]) -> (n: u8)
    ensures
        n == stored_level(tu@),
        n <= 7,
{
    let mut sum: u32 = 0;
    let mut i: usize = 0;
    while i < tu.len()
        invariant
            i <= tu@.len(),
            sum == stored_level(tu@.take(i as int)),
            sum <= 7,
        decreases tu@.len() - i,
    {
        let l: i32 = tu[i].1;
        assert(tu@.take(i + 1).drop_last() =~= tu@.take(i as int));
        let magnitude: u32 = if l >= 7 || l <= -7 {
            7
        } else if l < 0 {
            (-l) as u32
        } else {
            l as u32
        };
        sum = if sum + magnitude > 7 {
            7
        } else {
            sum + magnitude
        };
        i = i + 1;
    }
    assert(tu@.take(i as int) =~= tu@);
    sum as u8
}

fn dc_level_of(tu: &[Coeff]) -> (dc: i32)
    ensures
        dc == dc_level(tu@),
{
    let mut i: usize = 0;
    assert(tu@.skip(0) =~= tu@);
    while i < tu.len()
        invariant
            i <= tu@.len(),
            dc_level(tu@) == dc_level(tu@.skip(i as int)),
        decreases tu@.len() - i,
    {
        let c: Coeff = tu[i];
        assert(tu@.skip(i as int)[0] == c);
        assert(tu@.skip(i as int).drop_first() =~= tu@.skip(i + 1));
        if c.0 == 0 && c.1 != 0 {
            return c.1;
        }
        i = i + 1;
    }
    0
}

fn block_byte_of(tu: &[Coeff]) -> (b: u8)
    ensures
        b == block_byte(tu@),
{
    let level: u8 = stored_level_of(tu);
    let dc: i32 = dc_level_of(tu);
    if dc > 0 {
        level + 0x80
    } else if dc < 0 {
        level
    } else {
        level + 0x40
    }
}

/// `n` units from `at` on hold `byte`, as far as they are inside the frame, and
/// are neutral beyond.
pub open spec fn marked(s: Seq<u8>, at: int, n: nat, limit: int, byte: u8) -> Seq<u8> {
    Seq::new(
        s.len(),
        |i: int|
            if at <= i < at + n {
                if i < limit {
                    byte
                } else {
                    NEUTRAL
                }
            } else {
                s[i]
            },
    )
}

/// The bytes after a block.
pub open spec fn updated(nb: Neighbors, tu: Seq<Coeff>, cell: Cell) -> Neighbors {
    Neighbors {
        above: marked(nb.above, cell.cx, cell.wu, cell.mi_cols, block_byte(tu)),
        left: marked(nb.left, cell.cy, cell.hu, cell.mi_rows, block_byte(tu)),
    }
}

fn mark(s: &mut Vec<u8>, at: usize, n: usize, limit: i64, byte: u8)
    requires
        at + n <= old(s)@.len(),
    ensures
        final(s)@ == marked(old(s)@, at as int, n as nat, limit as int, byte),
{
    let ghost before = s@;
    let len: usize = s.len();
    let end: usize = at + n;
    let mut i: usize = at;
    while i < end
        invariant
            at <= i <= end,
            end == at + n,
            end <= s@.len(),
            s@.len() == before.len(),
            forall|k: int|
                #![trigger s@[k]]
                0 <= k < s@.len() ==> s@[k] == if at <= k < i {
                    if k < limit {
                        byte
                    } else {
                        NEUTRAL
                    }
                } else {
                    before[k]
                },
        decreases end - i,
    {
        let inside = limit > 0 && (i as u64) < (limit as u64);
        s.set(
            i,
            if inside {
                byte
            } else {
                NEUTRAL
            },
        );
        i = i + 1;
    }
    assert(s@ =~= marked(before, at as int, n as nat, limit as int, byte));
}

// ---------------------------------------------------------------------------
// What a block reads
// ---------------------------------------------------------------------------

/// Bitwise union of bytes.
pub open spec fn merged(s: Seq<u8>) -> u8
    decreases s.len(),
{
    if s.len() == 0 {
        0
    } else {
        merged(s.drop_last()) | s.last()
    }
}

/// Sum of the sign codes of bytes.
pub open spec fn sign_sum(s: Seq<u8>) -> int
    decreases s.len(),
{
    if s.len() == 0 {
        0
    } else {
        sign_sum(s.drop_last()) + s.last() as int / 64
    }
}

/// Level of a side: that of the merged bytes, up to four.
pub open spec fn side_level(s: Seq<u8>) -> int {
    let m = merged(s) as int % 64;
    if m > 4 {
        4
    } else {
        m
    }
}

/// Context of the skip flag, from the levels of both sides.
pub open spec fn skip_context(nb: Neighbors, cell: Cell) -> int {
    (side_level(nb.above.subrange(cell.cx, cell.cx + cell.wu)) + side_level(
        nb.left.subrange(cell.cy, cell.cy + cell.hu),
    ) + 3) / 2
}

/// Context of the DC sign: 0 where the signs of both sides balance, 1 where
/// negative ones prevail, 2 where positive ones do.
pub open spec fn sign_context(nb: Neighbors, cell: Cell) -> int {
    let balance = sign_sum(nb.above.subrange(cell.cx, cell.cx + cell.wu)) + sign_sum(
        nb.left.subrange(cell.cy, cell.cy + cell.hu),
    ) - cell.wu - cell.hu;
    if balance == 0 {
        0
    } else if balance < 0 {
        1
    } else {
        2
    }
}

/// The units of a block lie in the rows of bytes.
pub open spec fn cell_fits(nb: Neighbors, cell: Cell) -> bool {
    &&& 0 <= cell.cx
    &&& cell.cx + cell.wu <= nb.above.len()
    &&& 0 <= cell.cy
    &&& cell.cy + cell.hu <= nb.left.len()
}

/// Level and sign sum of one side.
fn read_side(s: &Vec<u8>, at: usize, n: usize) -> (r: (usize, i128))
    requires
        at + n <= s@.len(),
    ensures
        r.0 == side_level(s@.subrange(at as int, at + n)),
        r.0 <= 4,
        r.1 == sign_sum(s@.subrange(at as int, at + n)),
        0 <= r.1 <= 3 * n,
{
    let len: usize = s.len();
    let mut m: u8 = 0;
    let mut sum: i128 = 0;
    let mut i: usize = 0;
    while i < n
        invariant
            i <= n,
            at + n <= len,
            len == s@.len(),
            m == merged(s@.subrange(at as int, at + i)),
            sum == sign_sum(s@.subrange(at as int, at + i)),
            0 <= sum <= 3 * i,
        decreases n - i,
    {
        let b: u8 = s[at + i];
        assert(s@.subrange(at as int, at + i + 1).drop_last() =~= s@.subrange(at as int, at + i));
        m = m | b;
        sum = sum + (b / 64) as i128;
        i = i + 1;
    }
    let level: usize = (m % 64) as usize;
    (if level > 4 {
        4
    } else {
        level
    }, sum)
}

/// The contexts are within their tables whatever the neighbors hold.
pub proof fn law_contexts_in_range(nb: Neighbors, cell: Cell)
    ensures
        1 <= skip_context(nb, cell) <= 5,
        0 <= sign_context(nb, cell) <= 2,
{
}

/// Among untouched neighbors the skip context is 1 and the signs balance.
pub proof fn law_neutral_contexts(nb: Neighbors, cell: Cell)
    requires
        cell_fits(nb, cell),
        forall|i: int| 0 <= i < nb.above.len() ==> #[trigger] nb.above[i] == NEUTRAL,
        forall|i: int| 0 <= i < nb.left.len() ==> #[trigger] nb.left[i] == NEUTRAL,
    ensures
        skip_context(nb, cell) == 1,
        sign_context(nb, cell) == 0,
{
    lemma_neutral_side(nb.above.subrange(cell.cx, cell.cx + cell.wu));
    lemma_neutral_side(nb.left.subrange(cell.cy, cell.cy + cell.hu));
}

proof fn lemma_neutral_side(s: Seq<u8>)
    requires
        forall|i: int| 0 <= i < s.len() ==> #[trigger] s[i] == NEUTRAL,
    ensures
        merged(s) == 0 || merged(s) == NEUTRAL,
        sign_sum(s) == s.len(),
    decreases s.len(),
{
    if s.len() > 0 {
        lemma_neutral_side(s.drop_last());
        assert(0u8 | 0x40u8 == 0x40u8) by (bit_vector);
        assert(0x40u8 | 0x40u8 == 0x40u8) by (bit_vector);
    }
}

/// Read the contexts of one block and leave its byte behind.
fn tu_contexts(
    tu: &[Coeff],
    above: &mut Vec<u8>,
    left: &mut Vec<u8>,
    cy: usize,
    cx: usize,
    wu: usize,
    hu: usize,
    mi_rows: i64,
    mi_cols: i64,
) -> (r: (usize, usize))
    requires
        cx + wu <= old(above)@.len(),
        cy + hu <= old(left)@.len(),
    ensures
        ({
            let nb = Neighbors { above: old(above)@, left: old(left)@ };
            let cell = Cell {
                cy: cy as int,
                cx: cx as int,
                wu: wu as nat,
                hu: hu as nat,
                mi_rows: mi_rows as int,
                mi_cols: mi_cols as int,
            };
            &&& r.0 == skip_context(nb, cell)
            &&& r.1 == sign_context(nb, cell)
            &&& (Neighbors { above: final(above)@, left: final(left)@ }) == updated(nb, tu@, cell)
        }),
{
    let (top, top_signs) = read_side(above, cx, wu);
    let (side, side_signs) = read_side(left, cy, hu);
    let skip: usize = (top + side + 3) / 2;
    let balance: i128 = top_signs + side_signs - wu as i128 - hu as i128;
    let sign: usize = if balance == 0 {
        0
    } else if balance < 0 {
        1
    } else {
        2
    };
    let byte: u8 = block_byte_of(tu);
    mark(above, cx, wu, mi_cols, byte);
    mark(left, cy, hu, mi_rows, byte);
    (skip, sign)
}

// ---------------------------------------------------------------------------
// Several blocks in coding order
// ---------------------------------------------------------------------------

/// The coefficient lists of blocks.
pub open spec fn tu_views(tus: Seq<Vec<Coeff>>) -> Seq<Seq<Coeff>> {
    tus.map_values(|t: Vec<Coeff>| t@)
}

/// The bytes after the first `k` blocks of a list.
pub open spec fn after_blocks(
    nb: Neighbors,
    tus: Seq<Seq<Coeff>>,
    cells: spec_fn(int) -> Cell,
    k: nat,
) -> Neighbors
    decreases k,
{
    if k == 0 {
        nb
    } else {
        updated(
            after_blocks(nb, tus, cells, (k - 1) as nat),
            tus[k - 1],
            cells(k - 1),
        )
    }
}

/// Position and frame-edge state of a context update.
#[derive(Clone, Copy, Debug)]
pub struct TxbContextSpec {
    pub sb_y: usize,
    pub sb_x: usize,
    pub mi_cols: i64,
    pub mi_rows: i64,
    /// The block is one transform.
    pub block_eq_tx: bool,
}

/// Cell of a 32x32 transform at a pixel offset in its superblock.
pub open spec fn cell32(spec: TxbContextSpec, pos: (usize, usize)) -> Cell {
    Cell {
        cy: (spec.sb_y + pos.0) / 4,
        cx: (spec.sb_x + pos.1) / 4,
        wu: 8,
        hu: 8,
        mi_rows: spec.mi_rows as int,
        mi_cols: spec.mi_cols as int,
    }
}

/// The cells of a list of 32x32 transforms.
pub open spec fn cells32(spec: TxbContextSpec, pos: Seq<(usize, usize)>) -> spec_fn(int) -> Cell {
    |i: int| cell32(spec, pos[i])
}

/// Skip context in effect.
pub open spec fn skip_in_effect(spec: TxbContextSpec, nb: Neighbors, cell: Cell) -> int {
    if spec.block_eq_tx {
        0
    } else {
        skip_context(nb, cell)
    }
}

/// What the positions of a list of 32x32 transforms must satisfy.
pub open spec fn positions_fit(
    above: nat,
    left: nat,
    spec: TxbContextSpec,
    pos: Seq<(usize, usize)>,
) -> bool {
    forall|i: int|
        0 <= i < pos.len() ==> {
            let p = #[trigger] pos[i];
            &&& spec.sb_y + p.0 <= usize::MAX
            &&& spec.sb_x + p.1 <= usize::MAX
            &&& (spec.sb_x + p.1) / 4 + 8 <= above
            &&& (spec.sb_y + p.0) / 4 + 8 <= left
        }
}

/// Skip and DC-sign contexts of a list of 32x32 transforms at pixel offsets in
/// a superblock, in coding order.
pub fn sb_tu_contexts_pos(
    pos: &[(usize, usize)],
    tus: &[Vec<Coeff>],
    above: &mut Vec<u8>,
    left: &mut Vec<u8>,
    spec: &TxbContextSpec,
) -> (r: (Vec<usize>, Vec<usize>))
    requires
        tus@.len() >= pos@.len(),
        positions_fit(old(above)@.len(), old(left)@.len(), *spec, pos@),
    ensures
        ({
            let nb = Neighbors { above: old(above)@, left: old(left)@ };
            let cells = cells32(*spec, pos@);
            &&& r.0@.len() == pos@.len()
            &&& r.1@.len() == pos@.len()
            &&& forall|i: int|
                0 <= i < pos@.len() ==> #[trigger] r.0@[i] == skip_in_effect(
                    *spec,
                    after_blocks(nb, tu_views(tus@), cells, i as nat),
                    cells(i),
                )
            &&& forall|i: int|
                0 <= i < pos@.len() ==> #[trigger] r.1@[i] == sign_context(
                    after_blocks(nb, tu_views(tus@), cells, i as nat),
                    cells(i),
                )
            &&& (Neighbors { above: final(above)@, left: final(left)@ }) == after_blocks(
                nb,
                tu_views(tus@),
                cells,
                pos@.len(),
            )
        }),
{
    let ghost nb = Neighbors { above: above@, left: left@ };
    let ghost cells = cells32(*spec, pos@);
    let mut skips: Vec<usize> = Vec::new();
    let mut signs: Vec<usize> = Vec::new();
    let mut i: usize = 0;
    while i < pos.len()
        invariant
            i <= pos@.len(),
            tus@.len() >= pos@.len(),
            above@.len() == nb.above.len(),
            left@.len() == nb.left.len(),
            positions_fit(nb.above.len(), nb.left.len(), *spec, pos@),
            cells == cells32(*spec, pos@),
            skips@.len() == i,
            signs@.len() == i,
            forall|k: int|
                0 <= k < i ==> #[trigger] skips@[k] == skip_in_effect(
                    *spec,
                    after_blocks(nb, tu_views(tus@), cells, k as nat),
                    cells(k),
                ),
            forall|k: int|
                0 <= k < i ==> #[trigger] signs@[k] == sign_context(
                    after_blocks(nb, tu_views(tus@), cells, k as nat),
                    cells(k),
                ),
            (Neighbors { above: above@, left: left@ }) == after_blocks(nb, tu_views(tus@), cells, i as nat),
        decreases pos@.len() - i,
    {
        let p: (usize, usize) = pos[i];
        assert(p == pos@[i as int]);
        let cy: usize = (spec.sb_y + p.0) / 4;
        let cx: usize = (spec.sb_x + p.1) / 4;
        let (skip, sign) = tu_contexts(
            tus[i].as_slice(),
            above,
            left,
            cy,
            cx,
            8,
            8,
            spec.mi_rows,
            spec.mi_cols,
        );
        skips.push(
            if spec.block_eq_tx {
                0
            } else {
                skip
            },
        );
        signs.push(sign);
        i = i + 1;
    }
    (skips, signs)
}

/// Pixel offsets of the four 32x32 transforms of a superblock.
pub const QUADRANTS: [(usize, usize); 4] = [(0, 0), (0, 32), (32, 0), (32, 32)];

/// Pixel offsets of the two 32x32 transforms of a 64x32 block.
pub const HALVES: [(usize, usize); 2] = [(0, 0), (0, 32)];

/// Contexts of the four 32x32 transforms of a superblock.
pub fn sb_tu_contexts(
    tus: &[Vec<Coeff>; 4],
    sb_y: usize,
    sb_x: usize,
    above: &mut Vec<u8>,
    left: &mut Vec<u8>,
    mc: i64,
    mr: i64,
) -> (r: ([usize; 4], [usize; 4]))
    requires
        sb_y <= usize::MAX - 32,
        sb_x <= usize::MAX - 32,
        (sb_x + 32) / 4 + 8 <= old(above)@.len(),
        (sb_y + 32) / 4 + 8 <= old(left)@.len(),
    ensures
        ({
            let nb = Neighbors { above: old(above)@, left: old(left)@ };
            let spec = TxbContextSpec { sb_y, sb_x, mi_cols: mc, mi_rows: mr, block_eq_tx: false };
            let cells = cells32(spec, QUADRANTS@);
            &&& forall|i: int|
                0 <= i < 4 ==> #[trigger] r.0@[i] == skip_context(
                    after_blocks(nb, tu_views(tus@), cells, i as nat),
                    cells(i),
                )
            &&& forall|i: int|
                0 <= i < 4 ==> #[trigger] r.1@[i] == sign_context(
                    after_blocks(nb, tu_views(tus@), cells, i as nat),
                    cells(i),
                )
            &&& (Neighbors { above: final(above)@, left: final(left)@ }) == after_blocks(
                nb,
                tu_views(tus@),
                cells,
                4,
            )
        }),
{
    let spec = TxbContextSpec { sb_y, sb_x, mi_cols: mc, mi_rows: mr, block_eq_tx: false };
    let pos = QUADRANTS;
    let (skips, signs) = sb_tu_contexts_pos(pos.as_slice(), tus.as_slice(), above, left, &spec);
    assert(pos@ =~= QUADRANTS@);
    (
        [skips[0], skips[1], skips[2], skips[3]],
        [signs[0], signs[1], signs[2], signs[3]],
    )
}

/// Contexts of the two 32x32 transforms of a 64x32 block.
pub fn sb_tu_contexts_64x32(
    tus: &[Vec<Coeff>; 2],
    sb_y: usize,
    sb_x: usize,
    above: &mut Vec<u8>,
    left: &mut Vec<u8>,
    mc: i64,
    mr: i64,
) -> (r: ([usize; 2], [usize; 2]))
    requires
        sb_x <= usize::MAX - 32,
        (sb_x + 32) / 4 + 8 <= old(above)@.len(),
        sb_y / 4 + 8 <= old(left)@.len(),
    ensures
        ({
            let nb = Neighbors { above: old(above)@, left: old(left)@ };
            let spec = TxbContextSpec { sb_y, sb_x, mi_cols: mc, mi_rows: mr, block_eq_tx: false };
            let cells = cells32(spec, HALVES@);
            &&& forall|i: int|
                0 <= i < 2 ==> #[trigger] r.0@[i] == skip_context(
                    after_blocks(nb, tu_views(tus@), cells, i as nat),
                    cells(i),
                )
            &&& forall|i: int|
                0 <= i < 2 ==> #[trigger] r.1@[i] == sign_context(
                    after_blocks(nb, tu_views(tus@), cells, i as nat),
                    cells(i),
                )
            &&& (Neighbors { above: final(above)@, left: final(left)@ }) == after_blocks(
                nb,
                tu_views(tus@),
                cells,
                2,
            )
        }),
{
    let spec = TxbContextSpec { sb_y, sb_x, mi_cols: mc, mi_rows: mr, block_eq_tx: false };
    let pos = HALVES;
    let (skips, signs) = sb_tu_contexts_pos(pos.as_slice(), tus.as_slice(), above, left, &spec);
    assert(pos@ =~= HALVES@);
    ([skips[0], skips[1]], [signs[0], signs[1]])
}

// ---------------------------------------------------------------------------
// Oblong blocks
// ---------------------------------------------------------------------------

/// Table of skip probabilities by transform size class.
#[derive(Clone, Copy, Debug, PartialEq, Eq, Structural)]
pub enum SkipTable {
    Tx8,
    Tx16,
    Tx32,
}

/// Class of a transform: 8x8; 16x16 and those 8 wide or high with a side of at
/// least 16; all others.
pub open spec fn skip_table(wu: int, hu: int) -> SkipTable {
    let short = if wu <= hu {
        wu
    } else {
        hu
    };
    let long = if wu <= hu {
        hu
    } else {
        wu
    };
    if short == 2 && long == 2 {
        SkipTable::Tx8
    } else if (short == 2 && long >= 4) || (wu == 4 && hu == 4) {
        SkipTable::Tx16
    } else {
        SkipTable::Tx32
    }
}

/// Contexts of one oblong luma transform of `wu` by `hu` units at the position
/// of `spec`: the skip table, the skip context and the DC-sign context.
pub fn sb_tu_contexts_rect(
    tu: &[Coeff],
    above: &mut Vec<u8>,
    left: &mut Vec<u8>,
    spec: &TxbContextSpec,
    wu: usize,
    hu: usize,
) -> (r: (SkipTable, usize, usize))
    requires
        spec.sb_x / 4 + wu <= old(above)@.len(),
        spec.sb_y / 4 + hu <= old(left)@.len(),
    ensures
        ({
            let nb = Neighbors { above: old(above)@, left: old(left)@ };
            let cell = Cell {
                cy: spec.sb_y as int / 4,
                cx: spec.sb_x as int / 4,
                wu: wu as nat,
                hu: hu as nat,
                mi_rows: spec.mi_rows as int,
                mi_cols: spec.mi_cols as int,
            };
            &&& r.0 == skip_table(wu as int, hu as int)
            &&& r.1 == skip_in_effect(*spec, nb, cell)
            &&& r.2 == sign_context(nb, cell)
            &&& (Neighbors { above: final(above)@, left: final(left)@ }) == updated(nb, tu@, cell)
        }),
{
    let cy: usize = spec.sb_y / 4;
    let cx: usize = spec.sb_x / 4;
    let (skip, sign) = tu_contexts(tu, above, left, cy, cx, wu, hu, spec.mi_rows, spec.mi_cols);
    let (short, long): (usize, usize) = if wu <= hu {
        (wu, hu)
    } else {
        (hu, wu)
    };
    let table = if short == 2 && long == 2 {
        SkipTable::Tx8
    } else if (short == 2 && long >= 4) || (wu == 4 && hu == 4) {
        SkipTable::Tx16
    } else {
        SkipTable::Tx32
    };
    let skip: usize = if spec.block_eq_tx {
        0
    } else {
        skip
    };
    (table, skip, sign)
}
// ---------------------------------------------------------------------------
// 4x4 blocks
// ---------------------------------------------------------------------------

/// Cell of the `i`th 4x4 block of a rectangle `cols` blocks wide, in raster order.
pub open spec fn cell4(sb_y: int, sb_x: int, cols: int, i: int) -> Cell {
    let cy = sb_y / 4 + i / cols;
    let cx = sb_x / 4 + i % cols;
    Cell { cy, cx, wu: 1, hu: 1, mi_rows: cy + 1, mi_cols: cx + 1 }
}

/// The cells of the 4x4 blocks of a rectangle.
pub open spec fn cells4(sb_y: int, sb_x: int, cols: int) -> spec_fn(int) -> Cell {
    |i: int| cell4(sb_y, sb_x, cols, i)
}

proof fn lemma_one_unit(nb: Neighbors, cell: Cell)
    requires
        cell_fits(nb, cell),
        cell.wu == 1,
        cell.hu == 1,
    ensures
        merged(nb.above.subrange(cell.cx, cell.cx + 1)) == nb.above[cell.cx],
        merged(nb.left.subrange(cell.cy, cell.cy + 1)) == nb.left[cell.cy],
        sign_sum(nb.above.subrange(cell.cx, cell.cx + 1)) == nb.above[cell.cx] as int / 64,
        sign_sum(nb.left.subrange(cell.cy, cell.cy + 1)) == nb.left[cell.cy] as int / 64,
{
    let a = nb.above.subrange(cell.cx, cell.cx + 1);
    let l = nb.left.subrange(cell.cy, cell.cy + 1);
    let (x, y) = (nb.above[cell.cx], nb.left[cell.cy]);
    assert(0u8 | x == x) by (bit_vector);
    assert(0u8 | y == y) by (bit_vector);
    assert(a.drop_last() =~= Seq::<u8>::empty());
    assert(l.drop_last() =~= Seq::<u8>::empty());
    reveal_with_fuel(merged, 2);
    reveal_with_fuel(sign_sum, 2);
}

/// Skip and DC-sign contexts of the 4x4 blocks of a rectangle, in raster order.
pub fn sb_tu4_contexts(
    tus: &[Vec<Coeff>],
    sb_y: usize,
    sb_x: usize,
    above: &mut Vec<u8>,
    left: &mut Vec<u8>,
    rem_rows: usize,
    rem_cols: usize,
) -> (r: (Vec<usize>, Vec<usize>))
    requires
        rem_rows * rem_cols <= tus@.len(),
        sb_x / 4 + rem_cols <= old(above)@.len(),
        sb_y / 4 + rem_rows <= old(left)@.len(),
    ensures
        ({
            let nb = Neighbors { above: old(above)@, left: old(left)@ };
            let cells = cells4(sb_y as int, sb_x as int, rem_cols as int);
            let n = (rem_rows * rem_cols) as nat;
            &&& r.0@.len() == n
            &&& r.1@.len() == n
            &&& forall|i: int|
                0 <= i < n ==> #[trigger] r.0@[i] == skip_context(
                    after_blocks(nb, tu_views(tus@), cells, i as nat),
                    cells(i),
                )
            &&& forall|i: int|
                0 <= i < n ==> #[trigger] r.1@[i] == sign_context(
                    after_blocks(nb, tu_views(tus@), cells, i as nat),
                    cells(i),
                )
            &&& (Neighbors { above: final(above)@, left: final(left)@ }) == after_blocks(
                nb,
                tu_views(tus@),
                cells,
                n,
            )
        }),
{
    let ghost nb = Neighbors { above: above@, left: left@ };
    let ghost cells = cells4(sb_y as int, sb_x as int, rem_cols as int);
    let count: usize = tus.len();
    let above_len: usize = above.len();
    let left_len: usize = left.len();
    let mut skips: Vec<usize> = Vec::new();
    let mut signs: Vec<usize> = Vec::new();
    let mut by: usize = 0;
    proof {
        lemma_mul_basics(rem_cols as int);
    }
    while by < rem_rows
        invariant
            by <= rem_rows,
            rem_rows * rem_cols <= tus@.len(),
            count == tus@.len(),
            above_len == above@.len(),
            left_len == left@.len(),
            sb_x / 4 + rem_cols <= above_len,
            sb_y / 4 + rem_rows <= left_len,
            cells == cells4(sb_y as int, sb_x as int, rem_cols as int),
            skips@.len() == by * rem_cols,
            signs@.len() == by * rem_cols,
            forall|k: int|
                0 <= k < skips@.len() ==> #[trigger] skips@[k] == skip_context(
                    after_blocks(nb, tu_views(tus@), cells, k as nat),
                    cells(k),
                ),
            forall|k: int|
                0 <= k < signs@.len() ==> #[trigger] signs@[k] == sign_context(
                    after_blocks(nb, tu_views(tus@), cells, k as nat),
                    cells(k),
                ),
            (Neighbors { above: above@, left: left@ }) == after_blocks(
                nb,
                tu_views(tus@),
                cells,
                (by * rem_cols) as nat,
            ),
        decreases rem_rows - by,
    {
        let mut bx: usize = 0;
        while bx < rem_cols
            invariant
                by < rem_rows,
                bx <= rem_cols,
                rem_rows * rem_cols <= tus@.len(),
                count == tus@.len(),
                above_len == above@.len(),
                left_len == left@.len(),
                sb_x / 4 + rem_cols <= above_len,
                sb_y / 4 + rem_rows <= left_len,
                cells == cells4(sb_y as int, sb_x as int, rem_cols as int),
                skips@.len() == by * rem_cols + bx,
                signs@.len() == by * rem_cols + bx,
                forall|k: int|
                    0 <= k < skips@.len() ==> #[trigger] skips@[k] == skip_context(
                        after_blocks(nb, tu_views(tus@), cells, k as nat),
                        cells(k),
                    ),
                forall|k: int|
                    0 <= k < signs@.len() ==> #[trigger] signs@[k] == sign_context(
                        after_blocks(nb, tu_views(tus@), cells, k as nat),
                        cells(k),
                    ),
                (Neighbors { above: above@, left: left@ }) == after_blocks(
                    nb,
                    tu_views(tus@),
                    cells,
                    (by * rem_cols + bx) as nat,
                ),
            decreases rem_cols - bx,
        {
            proof {
                plane::lemma_in_block(by as int, bx as int, rem_cols as int, rem_rows as int);
                plane::lemma_row_col(by as int, bx as int, rem_cols as int);
                assert(0 <= by * rem_cols) by (nonlinear_arith)
                    requires
                        by >= 0,
                        rem_cols >= 0,
                ;
                assert(rem_rows * rem_cols == rem_cols * rem_rows) by (nonlinear_arith);
            }
            let i: usize = by * rem_cols + bx;
            let cx: usize = sb_x / 4 + bx;
            let cy: usize = sb_y / 4 + by;
            let ghost now = Neighbors { above: above@, left: left@ };
            let ghost cell = cells(i as int);
            proof {
                assert(cell.cx == cx && cell.cy == cy);
                lemma_one_unit(now, cell);
            }
            let a: u8 = above[cx];
            let l: u8 = left[cy];
            let top: usize = (a % 64) as usize;
            let side: usize = (l % 64) as usize;
            let top: usize = if top > 4 {
                4
            } else {
                top
            };
            let side: usize = if side > 4 {
                4
            } else {
                side
            };
            skips.push((top + side + 3) / 2);
            let signs_seen: u8 = a / 64 + l / 64;
            signs.push(
                if signs_seen == 2 {
                    0
                } else if signs_seen < 2 {
                    1
                } else {
                    2
                },
            );
            let byte: u8 = block_byte_of(tus[i].as_slice());
            above.set(cx, byte);
            left.set(cy, byte);
            proof {
                let next = updated(now, tus@[i as int]@, cell);
                assert(above@ =~= next.above);
                assert(left@ =~= next.left);
            }
            bx = bx + 1;
        }
        assert((by + 1) * rem_cols == by * rem_cols + rem_cols) by (nonlinear_arith);
        by = by + 1;
    }
    (skips, signs)
}

/// `s` with one unit changed.
pub open spec fn with_unit(s: Seq<u8>, at: int, v: u8) -> Seq<u8> {
    Seq::new(
        s.len(),
        |i: int|
            if i == at {
                v
            } else {
                s[i]
            },
    )
}

/// The level rows after the first `k` chroma blocks of a rectangle.
pub open spec fn after_chroma(
    nb: Neighbors,
    tus: Seq<Seq<Coeff>>,
    cells: spec_fn(int) -> Cell,
    k: nat,
) -> Neighbors
    decreases k,
{
    if k == 0 {
        nb
    } else {
        let prev = after_chroma(nb, tus, cells, (k - 1) as nat);
        let cell = cells(k - 1);
        let level = stored_level(tus[k - 1]) as u8;
        Neighbors {
            above: with_unit(prev.above, cell.cx, level),
            left: with_unit(prev.left, cell.cy, level),
        }
    }
}

/// Skip context of a chroma block: how many of its two neighbors have levels,
/// behind the contexts of luma. V has a table of its own, in two halves by
/// whether the last U block has levels.
pub open spec fn chroma_skip(nb: Neighbors, cell: Cell, plane_v: bool, eob_u_last: bool) -> int {
    let offset: int = if !plane_v {
        6
    } else if eob_u_last {
        9
    } else {
        3
    };
    let top: int = if nb.above[cell.cx] != 0 {
        1
    } else {
        0
    };
    let side: int = if nb.left[cell.cy] != 0 {
        1
    } else {
        0
    };
    top + side + offset
}

/// Skip contexts of the 4x4 chroma blocks of a rectangle, in raster order. The
/// rows of levels start at zero.
pub fn sb_tu4_chroma_skip(
    tus: &[Vec<Coeff>],
    sb_y: usize,
    sb_x: usize,
    above: &mut Vec<u8>,
    left: &mut Vec<u8>,
    plane_v: bool,
    eob_u_last: bool,
    rem_rows: usize,
    rem_cols: usize,
) -> (r: Vec<usize>)
    requires
        rem_rows * rem_cols <= tus@.len(),
        sb_x / 4 + rem_cols <= old(above)@.len(),
        sb_y / 4 + rem_rows <= old(left)@.len(),
    ensures
        ({
            let nb = Neighbors { above: old(above)@, left: old(left)@ };
            let cells = cells4(sb_y as int, sb_x as int, rem_cols as int);
            let n = (rem_rows * rem_cols) as nat;
            &&& r@.len() == n
            &&& forall|i: int|
                0 <= i < n ==> #[trigger] r@[i] == chroma_skip(
                    after_chroma(nb, tu_views(tus@), cells, i as nat),
                    cells(i),
                    plane_v,
                    eob_u_last,
                )
            &&& (Neighbors { above: final(above)@, left: final(left)@ }) == after_chroma(
                nb,
                tu_views(tus@),
                cells,
                n,
            )
        }),
{
    let ghost nb = Neighbors { above: above@, left: left@ };
    let ghost cells = cells4(sb_y as int, sb_x as int, rem_cols as int);
    let count: usize = tus.len();
    let above_len: usize = above.len();
    let left_len: usize = left.len();
    let offset: usize = if !plane_v {
        6
    } else if eob_u_last {
        9
    } else {
        3
    };
    let mut skips: Vec<usize> = Vec::new();
    let mut by: usize = 0;
    proof {
        lemma_mul_basics(rem_cols as int);
    }
    while by < rem_rows
        invariant
            by <= rem_rows,
            rem_rows * rem_cols <= tus@.len(),
            count == tus@.len(),
            above_len == above@.len(),
            left_len == left@.len(),
            sb_x / 4 + rem_cols <= above_len,
            sb_y / 4 + rem_rows <= left_len,
            offset == if !plane_v {
                6int
            } else if eob_u_last {
                9int
            } else {
                3int
            },
            cells == cells4(sb_y as int, sb_x as int, rem_cols as int),
            skips@.len() == by * rem_cols,
            forall|k: int|
                0 <= k < skips@.len() ==> #[trigger] skips@[k] == chroma_skip(
                    after_chroma(nb, tu_views(tus@), cells, k as nat),
                    cells(k),
                    plane_v,
                    eob_u_last,
                ),
            (Neighbors { above: above@, left: left@ }) == after_chroma(
                nb,
                tu_views(tus@),
                cells,
                (by * rem_cols) as nat,
            ),
        decreases rem_rows - by,
    {
        let mut bx: usize = 0;
        while bx < rem_cols
            invariant
                by < rem_rows,
                bx <= rem_cols,
                rem_rows * rem_cols <= tus@.len(),
                count == tus@.len(),
                above_len == above@.len(),
                left_len == left@.len(),
                sb_x / 4 + rem_cols <= above_len,
                sb_y / 4 + rem_rows <= left_len,
                offset == if !plane_v {
                    6int
                } else if eob_u_last {
                    9int
                } else {
                    3int
                },
                cells == cells4(sb_y as int, sb_x as int, rem_cols as int),
                skips@.len() == by * rem_cols + bx,
                forall|k: int|
                    0 <= k < skips@.len() ==> #[trigger] skips@[k] == chroma_skip(
                        after_chroma(nb, tu_views(tus@), cells, k as nat),
                        cells(k),
                        plane_v,
                        eob_u_last,
                    ),
                (Neighbors { above: above@, left: left@ }) == after_chroma(
                    nb,
                    tu_views(tus@),
                    cells,
                    (by * rem_cols + bx) as nat,
                ),
            decreases rem_cols - bx,
        {
            proof {
                plane::lemma_in_block(by as int, bx as int, rem_cols as int, rem_rows as int);
                plane::lemma_row_col(by as int, bx as int, rem_cols as int);
                assert(0 <= by * rem_cols) by (nonlinear_arith)
                    requires
                        by >= 0,
                        rem_cols >= 0,
                ;
                assert(rem_rows * rem_cols == rem_cols * rem_rows) by (nonlinear_arith);
            }
            let i: usize = by * rem_cols + bx;
            let cx: usize = sb_x / 4 + bx;
            let cy: usize = sb_y / 4 + by;
            let ghost cell = cells(i as int);
            assert(cell.cx == cx && cell.cy == cy);
            let top: usize = if above[cx] != 0 {
                1
            } else {
                0
            };
            let side: usize = if left[cy] != 0 {
                1
            } else {
                0
            };
            skips.push(top + side + offset);
            let level: u8 = stored_level_of(tus[i].as_slice());
            let ghost (above0, left0) = (above@, left@);
            above.set(cx, level);
            left.set(cy, level);
            assert(above@ =~= with_unit(above0, cx as int, level));
            assert(left@ =~= with_unit(left0, cy as int, level));
            bx = bx + 1;
        }
        assert((by + 1) * rem_cols == by * rem_cols + rem_cols) by (nonlinear_arith);
        by = by + 1;
    }
    skips
}

/// Keep the levels other than zero, each with its scan position.
pub open spec fn nonzero_coeffs(lev: Seq<i32>) -> Seq<Coeff>
    decreases lev.len(),
{
    if lev.len() == 0 {
        Seq::empty()
    } else {
        let head = nonzero_coeffs(lev.drop_last());
        if lev.last() != 0 {
            head.push(((lev.len() - 1) as usize, lev.last()))
        } else {
            head
        }
    }
}

/// The levels other than zero, in scan order.
pub fn levels_to_coeffs(lev: &[i32]) -> (out: Vec<Coeff>)
    ensures
        out@ == nonzero_coeffs(lev@),
{
    let mut out: Vec<Coeff> = Vec::new();
    let mut k: usize = 0;
    while k < lev.len()
        invariant
            k <= lev@.len(),
            out@ == nonzero_coeffs(lev@.take(k as int)),
        decreases lev@.len() - k,
    {
        assert(lev@.take(k + 1).drop_last() =~= lev@.take(k as int));
        if lev[k] != 0 {
            out.push((k, lev[k]));
        }
        k = k + 1;
    }
    assert(lev@.take(k as int) =~= lev@);
    out
}

/// Whether no level but the first is other than zero. A 16x16 block like that
/// has one transform type.
pub fn tx16_dc_only(lev: &[i32]) -> (b: bool)
    ensures
        b == forall|k: int| 1 <= k < lev@.len() ==> #[trigger] lev@[k] == 0,
{
    let mut k: usize = 1;
    while k < lev.len()
        invariant
            1 <= k,
            k <= lev@.len() || lev@.len() == 0,
            forall|j: int| 1 <= j < k && j < lev@.len() ==> #[trigger] lev@[j] == 0,
        decreases lev@.len() - k,
    {
        if lev[k] != 0 {
            return false;
        }
        k = k + 1;
    }
    true
}

/// Whether a transform type other than the first may be chosen: its block has
/// more than a DC level, and it is nearer to the source than the first.
pub open spec fn tx16_eligible(distortion: Seq<u64>, dc_only: Seq<bool>, i: int) -> bool {
    !dc_only[i] && distortion[i] < distortion[0]
}

/// Choose the transform type of a 16x16 block among four by cost and
/// distortion, given as numbers that order as the costs do: the cheapest of the
/// first and the eligible ones, the first of equally cheap ones. A block with
/// only a DC level has the first type, as its type is not coded.
pub fn choose_tx16_type(cost: &[u64; 4], distortion: &[u64; 4], dc_only: &[bool; 4]) -> (choice:
    usize)
    ensures
        choice < 4,
        choice == 0 || tx16_eligible(distortion@, dc_only@, choice as int),
        forall|i: int|
            0 <= i < 4 && (i == 0 || tx16_eligible(distortion@, dc_only@, i))
                ==> #[trigger] cost@[i] > cost@[choice as int] || (cost@[i] == cost@[choice as int]
                && choice <= i),
{
    let mut best: u64 = cost[0];
    let mut choice: usize = 0;
    let mut i: usize = 1;
    while i < 4
        invariant
            1 <= i <= 4,
            choice < i,
            best == cost@[choice as int],
            choice == 0 || tx16_eligible(distortion@, dc_only@, choice as int),
            forall|k: int|
                0 <= k < i && (k == 0 || tx16_eligible(distortion@, dc_only@, k))
                    ==> #[trigger] cost@[k] > best || (cost@[k] == best && choice <= k),
        decreases 4 - i,
    {
        if !dc_only[i] && distortion[i] < distortion[0] && cost[i] < best {
            best = cost[i];
            choice = i;
        }
        i = i + 1;
    }
    choice
}

// ---------------------------------------------------------------------------
// What the contexts are
// ---------------------------------------------------------------------------

/// The sum of the levels grows by the size of each, whatever its sign, and what is
/// stored of it stops at 7.
pub proof fn law_levels_add_up(tu: Seq<Coeff>, at: usize, level: i32)
    ensures
        level_sum(Seq::empty()) == 0,
        level_sum(tu.push((at, level))) == level_sum(tu) + (if level < 0 {
            -level
        } else {
            level as int
        }),
        level_sum(tu) <= 7 ==> stored_level(tu) == level_sum(tu),
        level_sum(tu) >= 7 ==> stored_level(tu) == 7,
{
    let s = tu.push((at, level));
    assert(s.drop_last() =~= tu);
    assert(s.last() == (at, level));
}

/// The DC level of a block is the level at position 0, and 0 where there is none.
pub proof fn law_dc_level_is_that_of_position_zero(tu: Seq<Coeff>, k: int)
    requires
        0 <= k < tu.len(),
    ensures
        tu[k].0 == 0 && tu[k].1 != 0 && (forall|i: int|
            0 <= i < k ==> (#[trigger] tu[i]).0 != 0) ==> dc_level(tu) == tu[k].1,
        (forall|i: int| 0 <= i < tu.len() ==> (#[trigger] tu[i]).0 != 0) ==> dc_level(tu) == 0,
    decreases tu.len(),
{
    let rest = tu.drop_first();
    assert(forall|i: int| 0 <= i < rest.len() ==> #[trigger] rest[i] == tu[i + 1]);
    if k > 0 {
        law_dc_level_is_that_of_position_zero(rest, k - 1);
        assert(rest[k - 1] == tu[k]);
    } else if rest.len() > 0 {
        law_dc_level_is_that_of_position_zero(rest, 0);
    } else {
        assert(rest =~= Seq::<Coeff>::empty());
    }
}

/// What a block leaves behind holds the stored level in its low bits and the sign of
/// the DC level above them: 0 for a negative one, 1 for none, 2 for a positive one.
pub proof fn law_block_byte_holds_level_and_sign(tu: Seq<Coeff>)
    ensures
        block_byte(tu) % 64 == stored_level(tu),
        block_byte(tu) / 64 == if dc_level(tu) < 0 {
            0int
        } else if dc_level(tu) == 0 {
            1
        } else {
            2
        },
{
}

/// A block leaves its byte in the columns above and in the rows to the left that it
/// covers, the neutral one beyond the frame, and nothing anywhere else.
pub proof fn law_block_marks_its_units(nb: Neighbors, tu: Seq<Coeff>, cell: Cell, i: int)
    ensures
        ({
            let after = updated(nb, tu, cell);
            &&& after.above.len() == nb.above.len()
            &&& after.left.len() == nb.left.len()
            &&& 0 <= i < nb.above.len() ==> {
                &&& cell.cx <= i < cell.cx + cell.wu && i < cell.mi_cols ==> after.above[i]
                    == block_byte(tu)
                &&& cell.cx <= i < cell.cx + cell.wu && i >= cell.mi_cols ==> after.above[i] == 64
                &&& i < cell.cx || i >= cell.cx + cell.wu ==> after.above[i] == nb.above[i]
            }
            &&& 0 <= i < nb.left.len() ==> {
                &&& cell.cy <= i < cell.cy + cell.hu && i < cell.mi_rows ==> after.left[i]
                    == block_byte(tu)
                &&& cell.cy <= i < cell.cy + cell.hu && i >= cell.mi_rows ==> after.left[i] == 64
                &&& i < cell.cy || i >= cell.cy + cell.hu ==> after.left[i] == nb.left[i]
            }
        }),
{
}

/// Contexts do not prefer a side: mirrored neighbors give a mirrored block the same.
pub proof fn law_contexts_treat_both_sides_alike(nb: Neighbors, cell: Cell)
    ensures
        ({
            let mirror = Neighbors { above: nb.left, left: nb.above };
            let turned = Cell {
                cy: cell.cx,
                cx: cell.cy,
                wu: cell.hu,
                hu: cell.wu,
                mi_rows: cell.mi_cols,
                mi_cols: cell.mi_rows,
            };
            &&& skip_context(nb, cell) == skip_context(mirror, turned)
            &&& sign_context(nb, cell) == sign_context(mirror, turned)
        }),
{
}

/// The contexts of a block of one unit: the level of each neighbor counts up to 4,
/// their mean is rounded up from one more, and the signs of both DC levels are
/// balanced against each other.
pub proof fn law_contexts_of_one_unit(nb: Neighbors, cell: Cell)
    requires
        cell_fits(nb, cell),
        cell.wu == 1,
        cell.hu == 1,
    ensures
        ({
            let (a, l) = (nb.above[cell.cx] as int, nb.left[cell.cy] as int);
            let (ta, tl) = (
                if a % 64 > 4 {
                    4
                } else {
                    a % 64
                },
                if l % 64 > 4 {
                    4
                } else {
                    l % 64
                },
            );
            let signs = (a / 64 - 1) + (l / 64 - 1);
            &&& 2 * skip_context(nb, cell) - 3 <= ta + tl <= 2 * skip_context(nb, cell) - 2
            &&& signs == 0 ==> sign_context(nb, cell) == 0
            &&& signs < 0 ==> sign_context(nb, cell) == 1
            &&& signs > 0 ==> sign_context(nb, cell) == 2
        }),
{
    let (above, left) = (
        nb.above.subrange(cell.cx, cell.cx + cell.wu),
        nb.left.subrange(cell.cy, cell.cy + cell.hu),
    );
    lemma_merged_one(above);
    lemma_merged_one(left);
}

proof fn lemma_merged_one(s: Seq<u8>)
    requires
        s.len() == 1,
    ensures
        merged(s) == s[0],
        sign_sum(s) == s[0] as int / 64,
{
    reveal_with_fuel(merged, 2);
    reveal_with_fuel(sign_sum, 2);
    assert(s.drop_last() =~= Seq::<u8>::empty());
    let x = s[0];
    assert(0u8 | x == x) by (bit_vector);
}

/// The merged levels of several units hold every bit of each of them.
pub proof fn law_merged_levels_cover_each_unit(s: Seq<u8>, i: int)
    requires
        0 <= i < s.len(),
    ensures
        merged(s) | s[i] == merged(s),
    decreases s.len(),
{
    let (m, x, y) = (merged(s.drop_last()), s.last(), s[i]);
    if i == s.len() - 1 {
        assert((m | x) | x == m | x) by (bit_vector);
    } else {
        law_merged_levels_cover_each_unit(s.drop_last(), i);
        assert(s.drop_last()[i] == y);
        assert((m | x) | y == m | x) by (bit_vector)
            requires
                m | y == m,
        ;
    }
}

/// The units of a 32x32 transform start at the position of the superblock plus its
/// own, rows and columns each with theirs, and there are eight of each.
pub proof fn law_transforms_lie_at_their_positions(spec: TxbContextSpec, pos: (usize, usize))
    requires
        (spec.sb_y + pos.0) % 4 == 0,
        (spec.sb_x + pos.1) % 4 == 0,
    ensures
        ({
            let c = cell32(spec, pos);
            &&& 4 * c.cy == spec.sb_y + pos.0
            &&& 4 * c.cx == spec.sb_x + pos.1
            &&& c.wu == 8 && c.hu == 8
            &&& c.mi_rows == spec.mi_rows && c.mi_cols == spec.mi_cols
        }),
{
}

/// The 4x4 blocks of a superblock come in rows of `cols`.
pub proof fn law_small_blocks_come_in_rows(sb_y: int, sb_x: int, cols: int, r: int, c: int)
    requires
        0 <= r,
        0 <= c < cols,
    ensures
        ({
            let cell = cell4(sb_y, sb_x, cols, r * cols + c);
            &&& cell.cy == sb_y / 4 + r
            &&& cell.cx == sb_x / 4 + c
            &&& cell.wu == 1 && cell.hu == 1
        }),
{
    vstd::arithmetic::div_mod::lemma_fundamental_div_mod_converse(r * cols + c, cols, r, c);
}

/// The context of a chroma skip flag counts the neighbors that have levels: from 6
/// for U, and for V from 9 after a U block with levels and from 3 after one without.
pub proof fn law_chroma_skip_counts_neighbors(
    nb: Neighbors,
    cell: Cell,
    plane_v: bool,
    u_last: bool,
)
    ensures
        ({
            let ctx = chroma_skip(nb, cell, plane_v, u_last);
            let base = if !plane_v {
                6int
            } else if u_last {
                9
            } else {
                3
            };
            let (a, l) = (nb.above[cell.cx], nb.left[cell.cy]);
            &&& a == 0 && l == 0 ==> ctx == base
            &&& (a == 0) != (l == 0) ==> ctx == base + 1
            &&& a != 0 && l != 0 ==> ctx == base + 2
        }),
{
}

/// A chroma block leaves its stored level at its own column and row, and nothing
/// anywhere else.
pub proof fn law_chroma_block_marks_its_unit(
    nb: Neighbors,
    tus: Seq<Seq<Coeff>>,
    cells: spec_fn(int) -> Cell,
    k: nat,
    i: int,
)
    ensures
        ({
            let before = after_chroma(nb, tus, cells, k);
            let after = after_chroma(nb, tus, cells, k + 1);
            let cell = cells(k as int);
            &&& 0 <= i < before.above.len() ==> after.above[i] == if i == cell.cx {
                stored_level(tus[k as int])
            } else {
                before.above[i] as int
            }
            &&& 0 <= i < before.left.len() ==> after.left[i] == if i == cell.cy {
                stored_level(tus[k as int])
            } else {
                before.left[i] as int
            }
        }),
{
}

/// The coefficients of a block are its levels that are not zero, each with its
/// position, by rising position.
pub proof fn law_coefficients_are_the_nonzero_levels(lev: Seq<i32>, k: int)
    requires
        lev.len() <= usize::MAX,
    ensures
        ({
            let out = nonzero_coeffs(lev);
            &&& 0 <= k < lev.len() && lev[k] != 0 ==> out.contains((k as usize, lev[k]))
            &&& forall|i: int|
                0 <= i < out.len() ==> (#[trigger] out[i]).0 < lev.len() && out[i].1
                    == lev[out[i].0 as int] && out[i].1 != 0
            &&& forall|i: int, j: int|
                0 <= i < j < out.len() ==> (#[trigger] out[i]).0 < (#[trigger] out[j]).0
        }),
    decreases lev.len(),
{
    if lev.len() > 0 {
        let head = lev.drop_last();
        law_coefficients_are_the_nonzero_levels(head, k);
        let out = nonzero_coeffs(lev);
        let prev = nonzero_coeffs(head);
        let n = lev.len() - 1;
        if lev.last() != 0 {
            assert(out == prev.push((n as usize, lev[n])));
            assert(out[prev.len() as int] == (n as usize, lev[n]));
        }
        if 0 <= k < n && lev[k] != 0 {
            assert(head[k] == lev[k]);
            let i = choose|i: int| 0 <= i < prev.len() && prev[i] == (k as usize, lev[k]);
            assert(out[i] == (k as usize, lev[k]));
        }
    }
}

/// Which skip table a transform takes depends on its sides and not on which is which.
pub proof fn law_skip_table_follows_the_sides(wu: int, hu: int)
    ensures
        skip_table(wu, hu) == skip_table(hu, wu),
        skip_table(wu, hu) == SkipTable::Tx8 <==> wu == 2 && hu == 2,
        skip_table(wu, hu) == SkipTable::Tx16 <==> (wu == 2 && hu >= 4) || (hu == 2 && wu >= 4)
            || (wu == 4 && hu == 4),
{
}

/// A block that is one transform has no skip context, and all others that of their
/// neighbors.
pub proof fn law_single_transforms_have_no_skip_context(
    spec: TxbContextSpec,
    nb: Neighbors,
    cell: Cell,
)
    ensures
        spec.block_eq_tx ==> skip_in_effect(spec, nb, cell) == 0,
        !spec.block_eq_tx ==> skip_in_effect(spec, nb, cell) == skip_context(nb, cell),
        !spec.block_eq_tx ==> skip_in_effect(spec, nb, cell) >= 1,
{
}

/// A transform kind other than the first is only chosen where it has more than its DC
/// level and distorts less than the first.
pub proof fn law_other_kinds_must_distort_less(
    distortion: Seq<u64>,
    dc_only: Seq<bool>,
    i: int,
)
    ensures
        tx16_eligible(distortion, dc_only, i) <==> distortion[0] > distortion[i] && !dc_only[i],
        !tx16_eligible(distortion, dc_only, 0),
{
}

/// The quarters of a superblock come by rows, and its upper halves from the left.
pub proof fn law_transform_positions_come_by_rows(i: int)
    requires
        0 <= i < 4,
    ensures
        QUADRANTS@[i].0 == 32 * (i / 2),
        QUADRANTS@[i].1 == 32 * (i % 2),
        i < 2 ==> HALVES@[i].0 == 0 && HALVES@[i].1 == 32 * i,
{
}

} // verus!
