//! Search of the luma partition of a superblock.
//!
//! The search codes the whole superblock, its 32x32 quarters, their 16x16
//! quarters and, where allowed, the 8x8 quarters of those. At every level it
//! compares the cost of the smaller blocks with that of the larger one. The
//! probes come in a fixed order, since each reads what was reconstructed
//! before it.

use vstd::prelude::*;

verus! {

/// Partition of a 64x64 superblock. The four 32x32 quarters are counted row by
/// row, and so are the sixteen 16x16 blocks.
#[derive(Clone, Copy, Debug)]
pub struct LumaPartitionDecision {
    pub split64: bool,
    pub split32: [bool; 4],
    pub split16: [bool; 16],
}

/// One step of the search. Positions are relative to the superblock.
#[derive(Clone, Copy, Debug, PartialEq, Eq, Structural)]
pub enum Probe {
    /// Code the superblock as one block.
    Whole,
    /// Code a block of a size at a position.
    Block { size: usize, y: usize, x: usize },
    /// Keep the four 8x8 blocks of a 16x16 block, or the 16x16 block.
    Judge16 { index: usize },
    /// Keep the 16x16 blocks of a quarter, or the quarter.
    Judge32 { child: usize },
    /// Keep the quarters, or the whole.
    Judge64,
}

/// Probe of one of the four quarters of a block at a position: quarter `k`
/// stands in row `k / 2` and column `k % 2`.
pub open spec fn quarter_probe(size: int, y: int, x: int, k: int) -> Probe {
    Probe::Block {
        size: size as usize,
        y: (y + size * (k / 2)) as usize,
        x: (x + size * (k % 2)) as usize,
    }
}

/// Index of the 16x16 block at a position.
pub open spec fn index16(y: int, x: int) -> int {
    y / 16 * 4 + x / 16
}

/// Steps of one 16x16 block.
pub open spec fn steps16(y: int, x: int, allow_8x8: bool) -> Seq<Probe> {
    let block = Probe::Block { size: 16, y: y as usize, x: x as usize };
    if allow_8x8 {
        seq![
            block,
            quarter_probe(8, y, x, 0),
            quarter_probe(8, y, x, 1),
            quarter_probe(8, y, x, 2),
            quarter_probe(8, y, x, 3),
            Probe::Judge16 { index: index16(y, x) as usize },
        ]
    } else {
        seq![block]
    }
}

/// Steps of the first `n` 16x16 blocks of the quarter at a position.
pub open spec fn steps16s(y: int, x: int, allow_8x8: bool, n: nat) -> Seq<Probe>
    decreases n,
{
    if n == 0 {
        Seq::empty()
    } else {
        let k = n - 1;
        steps16s(y, x, allow_8x8, (n - 1) as nat) + steps16(
            y + 16 * (k / 2),
            x + 16 * (k % 2),
            allow_8x8,
        )
    }
}

/// Steps of one 32x32 quarter.
pub open spec fn steps32(child: int, allow_8x8: bool) -> Seq<Probe> {
    let y = 32 * (child / 2);
    let x = 32 * (child % 2);
    (seq![quarter_probe(32, 0, 0, child)] + steps16s(y, x, allow_8x8, 4)).push(
        Probe::Judge32 { child: child as usize },
    )
}

/// Steps of the first `n` quarters.
pub open spec fn steps32s(allow_8x8: bool, n: nat) -> Seq<Probe>
    decreases n,
{
    if n == 0 {
        Seq::empty()
    } else {
        steps32s(allow_8x8, (n - 1) as nat) + steps32(n - 1, allow_8x8)
    }
}

/// Steps of the whole search.
pub open spec fn search_steps(allow_8x8: bool) -> Seq<Probe> {
    (seq![Probe::Whole] + steps32s(allow_8x8, 4)).push(Probe::Judge64)
}

fn push_steps16(out: &mut Vec<Probe>, y: usize, x: usize, allow_8x8: bool)
    requires
        y <= 48,
        x <= 48,
    ensures
        final(out)@ == old(out)@ + steps16(y as int, x as int, allow_8x8),
{
    out.push(Probe::Block { size: 16, y, x });
    if allow_8x8 {
        out.push(Probe::Block { size: 8, y, x });
        out.push(Probe::Block { size: 8, y, x: x + 8 });
        out.push(Probe::Block { size: 8, y: y + 8, x });
        out.push(Probe::Block { size: 8, y: y + 8, x: x + 8 });
        out.push(Probe::Judge16 { index: y / 16 * 4 + x / 16 });
    }
    assert(out@ =~= old(out)@ + steps16(y as int, x as int, allow_8x8));
}

fn push_steps32(out: &mut Vec<Probe>, child: usize, allow_8x8: bool)
    requires
        child < 4,
    ensures
        final(out)@ == old(out)@ + steps32(child as int, allow_8x8),
{
    let y: usize = 32 * (child / 2);
    let x: usize = 32 * (child % 2);
    let ghost head = seq![quarter_probe(32, 0, 0, child as int)];
    out.push(Probe::Block { size: 32, y, x });
    assert(out@ =~= old(out)@ + head + steps16s(y as int, x as int, allow_8x8, 0));
    let mut k: usize = 0;
    while k < 4
        invariant
            k <= 4,
            y == 0 || y == 32,
            x == 0 || x == 32,
            out@ == old(out)@ + head + steps16s(y as int, x as int, allow_8x8, k as nat),
        decreases 4 - k,
    {
        push_steps16(out, y + 16 * (k / 2), x + 16 * (k % 2), allow_8x8);
        k = k + 1;
        assert(out@ =~= old(out)@ + head + steps16s(y as int, x as int, allow_8x8, k as nat));
    }
    out.push(Probe::Judge32 { child });
    assert(out@ =~= old(out)@ + steps32(child as int, allow_8x8));
}

/// Steps of the search in order.
pub fn partition_probes(allow_8x8: bool) -> (out: Vec<Probe>)
    ensures
        out@ == search_steps(allow_8x8),
{
    let mut out: Vec<Probe> = Vec::new();
    out.push(Probe::Whole);
    let ghost head = seq![Probe::Whole];
    assert(out@ =~= head + steps32s(allow_8x8, 0));
    let mut child: usize = 0;
    while child < 4
        invariant
            child <= 4,
            out@ == head + steps32s(allow_8x8, child as nat),
        decreases 4 - child,
    {
        push_steps32(&mut out, child, allow_8x8);
        child = child + 1;
        assert(out@ =~= head + steps32s(allow_8x8, child as nat));
    }
    out.push(Probe::Judge64);
    out
}

/// Flags of a decision.
pub ghost struct Splits {
    pub split64: bool,
    pub split32: Seq<bool>,
    pub split16: Seq<bool>,
}

impl View for LumaPartitionDecision {
    type V = Splits;

    open spec fn view(&self) -> Splits {
        Splits { split64: self.split64, split32: self.split32@, split16: self.split16@ }
    }
}

/// Whether a step keeps the smaller blocks: only if they cost less, and 16x16
/// blocks only where they are allowed. Steps that code a block keep nothing.
pub open spec fn splits_at(p: Probe, allow_16x16: bool, small_cost: u64, large_cost: u64) -> bool {
    match p {
        Probe::Judge16 { index } => small_cost < large_cost,
        Probe::Judge32 { child } => allow_16x16 && small_cost < large_cost,
        Probe::Judge64 => small_cost < large_cost,
        _ => false,
    }
}

/// The flags after a step.
pub open spec fn judged(s: Splits, p: Probe, split: bool) -> Splits {
    match p {
        Probe::Judge16 { index } => Splits { split16: s.split16.update(index as int, split), ..s },
        Probe::Judge32 { child } => Splits { split32: s.split32.update(child as int, split), ..s },
        Probe::Judge64 => Splits { split64: split, ..s },
        _ => s,
    }
}

/// Whether the indices of a step lie in the superblock.
pub open spec fn probe_in_range(p: Probe) -> bool {
    match p {
        Probe::Judge16 { index } => index < 16,
        Probe::Judge32 { child } => child < 4,
        _ => true,
    }
}

impl LumaPartitionDecision {
    /// Nothing split.
    pub fn new() -> (d: Self)
        ensures
            d@ == (Splits {
                split64: false,
                split32: Seq::new(4, |i: int| false),
                split16: Seq::new(16, |i: int| false),
            }),
    {
        let d = LumaPartitionDecision { split64: false, split32: [false; 4], split16: [false; 16] };
        assert(d@.split32 =~= Seq::new(4, |i: int| false));
        assert(d@.split16 =~= Seq::new(16, |i: int| false));
        d
    }

    /// Note the outcome of a step and say whether the smaller blocks are kept.
    /// The costs only have to be ordered; they are read at judging steps alone.
    pub fn judge(
        &mut self,
        p: Probe,
        allow_16x16: bool,
        small_cost: u64,
        large_cost: u64,
    ) -> (split: bool)
        requires
            probe_in_range(p),
        ensures
            split == splits_at(p, allow_16x16, small_cost, large_cost),
            final(self)@ == judged(old(self)@, p, split),
    {
        match p {
            Probe::Judge16 { index } => {
                let split = small_cost < large_cost;
                self.split16[index] = split;
                assert(self@.split16 =~= old(self)@.split16.update(index as int, split));
                split
            },
            Probe::Judge32 { child } => {
                let split = allow_16x16 && small_cost < large_cost;
                self.split32[child] = split;
                assert(self@.split32 =~= old(self)@.split32.update(child as int, split));
                split
            },
            Probe::Judge64 => {
                self.split64 = small_cost < large_cost;
                self.split64
            },
            _ => false,
        }
    }
}

/// The flags after all steps of a search, given what each step decided.
pub open spec fn after_steps(s: Splits, steps: Seq<Probe>, decided: Seq<bool>) -> Splits
    decreases steps.len(),
{
    if steps.len() == 0 {
        s
    } else {
        judged(
            after_steps(s, steps.drop_last(), decided.drop_last()),
            steps.last(),
            decided.last(),
        )
    }
}

proof fn lemma_only_judges_split16(s: Splits, steps: Seq<Probe>, decided: Seq<bool>)
    requires
        forall|i: int| 0 <= i < steps.len() ==> !(#[trigger] steps[i] is Judge16),
        steps.len() == decided.len(),
    ensures
        after_steps(s, steps, decided).split16 == s.split16,
    decreases steps.len(),
{
    if steps.len() > 0 {
        assert(!(steps[steps.len() - 1] is Judge16));
        assert forall|i: int| 0 <= i < steps.drop_last().len() implies !(
        #[trigger] steps.drop_last()[i] is Judge16) by {
            assert(steps.drop_last()[i] == steps[i]);
        }
        lemma_only_judges_split16(s, steps.drop_last(), decided.drop_last());
    }
}

proof fn lemma_no_judge16(y: int, x: int, n: nat)
    ensures
        forall|i: int|
            0 <= i < steps16s(y, x, false, n).len() ==> !(#[trigger] steps16s(
                y,
                x,
                false,
                n,
            )[i] is Judge16),
    decreases n,
{
    if n > 0 {
        lemma_no_judge16(y, x, (n - 1) as nat);
    }
}

proof fn lemma_no_judge16_in_quarters(n: nat)
    ensures
        forall|i: int|
            0 <= i < steps32s(false, n).len() ==> !(#[trigger] steps32s(false, n)[i] is Judge16),
    decreases n,
{
    if n > 0 {
        lemma_no_judge16_in_quarters((n - 1) as nat);
        let child = n - 1;
        lemma_no_judge16(32 * (child / 2), 32 * (child % 2), 4);
        assert forall|i: int| 0 <= i < steps32(child, false).len() implies !(#[trigger] steps32(
            child,
            false,
        )[i] is Judge16) by {
            let inner = steps16s(32 * (child / 2), 32 * (child % 2), false, 4);
            if 1 <= i < 1 + inner.len() {
                assert(steps32(child, false)[i] == inner[i - 1]);
            }
        }
    }
}

/// A search without 8x8 blocks never splits a 16x16 block, whatever the costs.
pub proof fn law_no_8x8_without_leave(s: Splits, decided: Seq<bool>)
    requires
        decided.len() == search_steps(false).len(),
    ensures
        after_steps(s, search_steps(false), decided).split16 == s.split16,
{
    lemma_no_judge16_in_quarters(4);
    let steps = search_steps(false);
    let inner = steps32s(false, 4);
    assert forall|i: int| 0 <= i < steps.len() implies !(#[trigger] steps[i] is Judge16) by {
        if 1 <= i < 1 + inner.len() {
            assert(steps[i] == inner[i - 1]);
        }
    }
    lemma_only_judges_split16(s, steps, decided);
}

/// What the steps of a search decide from the costs at each of them.
pub open spec fn decisions(
    steps: Seq<Probe>,
    allow_16x16: bool,
    small_costs: Seq<u64>,
    large_costs: Seq<u64>,
) -> Seq<bool> {
    Seq::new(
        steps.len(),
        |i: int| splits_at(steps[i], allow_16x16, small_costs[i], large_costs[i]),
    )
}

/// A step that judges a quarter judges one of the four.
spec fn child_known(p: Probe) -> bool {
    p matches Probe::Judge32 { child } ==> child < 4
}

proof fn lemma_no_judge32(y: int, x: int, allow_8x8: bool, n: nat)
    ensures
        forall|i: int|
            0 <= i < steps16s(y, x, allow_8x8, n).len() ==> child_known(
                #[trigger] steps16s(y, x, allow_8x8, n)[i],
            ),
    decreases n,
{
    if n > 0 {
        lemma_no_judge32(y, x, allow_8x8, (n - 1) as nat);
        let k = n - 1;
        let head = steps16s(y, x, allow_8x8, k as nat);
        let tail = steps16(y + 16 * (k / 2), x + 16 * (k % 2), allow_8x8);
        assert forall|i: int| 0 <= i < steps16s(y, x, allow_8x8, n).len() implies child_known(
            #[trigger] steps16s(y, x, allow_8x8, n)[i],
        ) by {
            if i < head.len() {
                assert((head + tail)[i] == head[i]);
            } else {
                assert((head + tail)[i] == tail[i - head.len()]);
            }
        }
    }
}

proof fn lemma_children_known(allow_8x8: bool, n: nat)
    requires
        n <= 4,
    ensures
        forall|i: int|
            0 <= i < steps32s(allow_8x8, n).len() ==> child_known(
                #[trigger] steps32s(allow_8x8, n)[i],
            ),
    decreases n,
{
    if n > 0 {
        lemma_children_known(allow_8x8, (n - 1) as nat);
        let child = n - 1;
        let inner = steps16s(32 * (child / 2), 32 * (child % 2), allow_8x8, 4);
        lemma_no_judge32(32 * (child / 2), 32 * (child % 2), allow_8x8, 4);
        assert forall|i: int| 0 <= i < steps32(child, allow_8x8).len() implies child_known(
            #[trigger] steps32(child, allow_8x8)[i],
        ) by {
            if 1 <= i < 1 + inner.len() {
                assert(steps32(child, allow_8x8)[i] == inner[i - 1]);
            }
        }
        let head = steps32s(allow_8x8, (n - 1) as nat);
        let tail = steps32(child, allow_8x8);
        assert forall|i: int| 0 <= i < steps32s(allow_8x8, n).len() implies child_known(
            #[trigger] steps32s(allow_8x8, n)[i],
        ) by {
            if i < head.len() {
                assert((head + tail)[i] == head[i]);
            } else {
                assert((head + tail)[i] == tail[i - head.len()]);
            }
        }
    }
}

/// A step that does not split a quarter.
spec fn splits_no_quarter(p: Probe, decided: bool) -> bool {
    p is Judge32 ==> !decided
}

proof fn lemma_quarters_stay(s: Splits, steps: Seq<Probe>, decided: Seq<bool>, k: int)
    requires
        steps.len() == decided.len(),
        forall|i: int|
            0 <= i < steps.len() ==> splits_no_quarter(#[trigger] steps[i], decided[i]),
        forall|i: int| 0 <= i < steps.len() ==> child_known(#[trigger] steps[i]),
        s.split32.len() == 4,
        0 <= k < 4,
        !s.split32[k],
    ensures
        after_steps(s, steps, decided).split32.len() == s.split32.len(),
        !after_steps(s, steps, decided).split32[k],
    decreases steps.len(),
{
    if steps.len() > 0 {
        assert forall|i: int| 0 <= i < steps.drop_last().len() implies splits_no_quarter(
            #[trigger] steps.drop_last()[i],
            decided.drop_last()[i],
        ) by {
            assert(steps.drop_last()[i] == steps[i]);
        }
        assert forall|i: int| 0 <= i < steps.drop_last().len() implies child_known(
            #[trigger] steps.drop_last()[i],
        ) by {
            assert(steps.drop_last()[i] == steps[i]);
        }
        lemma_quarters_stay(s, steps.drop_last(), decided.drop_last(), k);
        assert(splits_no_quarter(steps[steps.len() - 1], decided[steps.len() - 1]));
        assert(child_known(steps[steps.len() - 1]));
    }
}

/// A search without 16x16 blocks splits no quarter, whatever the costs.
pub proof fn law_no_16x16_without_leave(
    s: Splits,
    allow_8x8: bool,
    small_costs: Seq<u64>,
    large_costs: Seq<u64>,
    k: int,
)
    requires
        s.split32.len() == 4,
        0 <= k < 4,
        !s.split32[k],
    ensures
        ({
            let steps = search_steps(allow_8x8);
            !after_steps(s, steps, decisions(steps, false, small_costs, large_costs)).split32[k]
        }),
{
    let steps = search_steps(allow_8x8);
    let inner = steps32s(allow_8x8, 4);
    lemma_children_known(allow_8x8, 4);
    assert forall|i: int| 0 <= i < steps.len() implies child_known(#[trigger] steps[i]) by {
        if 1 <= i < 1 + inner.len() {
            assert(steps[i] == inner[i - 1]);
        }
    }
    lemma_quarters_stay(s, steps, decisions(steps, false, small_costs, large_costs), k);
}

/// The quarters of a block follow each other by rows: the second lies to the right
/// of the first and the third below it.
pub proof fn law_quarters_come_by_rows(size: int, y: int, x: int, k: int)
    requires
        0 <= k < 4,
        0 <= y,
        0 <= x,
        0 < size,
        y + size <= usize::MAX,
        x + size <= usize::MAX,
    ensures
        quarter_probe(size, y, x, k) matches Probe::Block { size: s, y: qy, x: qx } && s == size
            && qy == (if k >= 2 {
            y + size
        } else {
            y
        }) && qx == (if k == 1 || k == 3 {
            x + size
        } else {
            x
        }),
{
    assert(size * 0 == 0);
    assert(size * 1 == size);
}

/// The 16x16 blocks of a superblock are numbered by rows of four.
pub proof fn law_blocks_are_numbered_by_rows(r: int, c: int)
    requires
        0 <= r < 4,
        0 <= c < 4,
    ensures
        index16(16 * r, 16 * c) == 4 * r + c,
{
}

/// A block is split exactly where its parts cost less than itself, a 32x32 only
/// where that is allowed, and a decision touches nothing but its own block.
pub proof fn law_decisions_keep_to_their_block(
    s: Splits,
    allow_16x16: bool,
    small: u64,
    large: u64,
    i: int,
    k: int,
)
    requires
        s.split32.len() == 4,
        s.split16.len() == 16,
        0 <= i < 16,
        0 <= k < 16,
    ensures
        splits_at(Probe::Judge16 { index: i as usize }, allow_16x16, small, large) <==> small
            < large,
        splits_at(Probe::Judge32 { child: i as usize }, allow_16x16, small, large) <==> allow_16x16
            && small < large,
        splits_at(Probe::Judge64, allow_16x16, small, large) <==> small < large,
        ({
            let a = judged(s, Probe::Judge16 { index: i as usize }, true);
            &&& a.split16[k] == (k == i || s.split16[k])
            &&& a.split32 == s.split32
            &&& a.split64 == s.split64
        }),
        i < 4 && k < 4 ==> {
            let a = judged(s, Probe::Judge32 { child: i as usize }, true);
            &&& a.split32[k] == (k == i || s.split32[k])
            &&& a.split16 == s.split16
            &&& a.split64 == s.split64
        },
        ({
            let a = judged(s, Probe::Judge64, true);
            &&& a.split64
            &&& a.split32 == s.split32
            &&& a.split16 == s.split16
        }),
{
}

proof fn lemma_steps16_len(y: int, x: int, allow_8x8: bool, n: nat)
    ensures
        steps16(y, x, allow_8x8).len() == if allow_8x8 {
            6int
        } else {
            1
        },
        steps16s(y, x, allow_8x8, n).len() == n * if allow_8x8 {
            6int
        } else {
            1
        },
    decreases n,
{
    if n > 0 {
        lemma_steps16_len(y, x, allow_8x8, (n - 1) as nat);
        let k = n - 1;
        lemma_steps16_one(y + 16 * (k / 2), x + 16 * (k % 2), allow_8x8);
    }
}

proof fn lemma_steps16_one(y: int, x: int, allow_8x8: bool)
    ensures
        steps16(y, x, allow_8x8).len() == if allow_8x8 {
            6int
        } else {
            1
        },
{
}

proof fn lemma_steps16_at(y: int, x: int, allow_8x8: bool, n: nat, k: int, j: int)
    requires
        0 <= k < n,
        0 <= j < (if allow_8x8 {
            6int
        } else {
            1
        }),
    ensures
        steps16s(y, x, allow_8x8, n)[(if allow_8x8 {
            6int
        } else {
            1
        }) * k + j] == steps16(y + 16 * (k / 2), x + 16 * (k % 2), allow_8x8)[j],
    decreases n,
{
    lemma_steps16_len(y, x, allow_8x8, (n - 1) as nat);
    let m = n - 1;
    lemma_steps16_one(y + 16 * (m / 2), x + 16 * (m % 2), allow_8x8);
    if k < m {
        lemma_steps16_at(y, x, allow_8x8, (n - 1) as nat, k, j);
    }
}

proof fn lemma_steps32_len(allow_8x8: bool, child: int, n: nat)
    ensures
        steps32(child, allow_8x8).len() == if allow_8x8 {
            26int
        } else {
            6
        },
        steps32s(allow_8x8, n).len() == n * if allow_8x8 {
            26int
        } else {
            6
        },
    decreases n,
{
    lemma_steps16_len(32 * (child / 2), 32 * (child % 2), allow_8x8, 4);
    if n > 0 {
        lemma_steps32_len(allow_8x8, n - 1, (n - 1) as nat);
    }
}

proof fn lemma_steps32_at(allow_8x8: bool, n: nat, child: int, j: int)
    requires
        0 <= child < n,
        0 <= j < (if allow_8x8 {
            26int
        } else {
            6
        }),
    ensures
        steps32s(allow_8x8, n)[(if allow_8x8 {
            26int
        } else {
            6
        }) * child + j] == steps32(child, allow_8x8)[j],
    decreases n,
{
    lemma_steps32_len(allow_8x8, n - 1, (n - 1) as nat);
    if child < n - 1 {
        lemma_steps32_at(allow_8x8, (n - 1) as nat, child, j);
    }
}

/// The search of a superblock tries it whole, then each 32x32 quarter, in each
/// of them the 16x16 quarters, and in those the 8x8 quarters where they are allowed;
/// each is judged right after its parts, and the superblock last.
#[verifier::spinoff_prover]
#[verifier::rlimit(80)]
pub proof fn law_search_goes_from_large_to_small(allow_8x8: bool, child: int, k: int, j: int)
    requires
        0 <= child < 4,
        0 <= k < 4,
        0 <= j < 4,
    ensures
        ({
            let steps = search_steps(allow_8x8);
            let (y32, x32) = (32 * (child / 2), 32 * (child % 2));
            let (y16, x16) = (y32 + 16 * (k / 2), x32 + 16 * (k % 2));
            let (small, large) = if allow_8x8 {
                (6int, 26int)
            } else {
                (1int, 6int)
            };
            let at32 = 1 + large * child;
            let at16 = at32 + 1 + small * k;
            &&& steps.len() == 2 + 4 * large
            &&& steps[0] == Probe::Whole
            &&& steps[steps.len() - 1] == Probe::Judge64
            &&& steps[at32] == (Probe::Block { size: 32, y: y32 as usize, x: x32 as usize })
            &&& steps[at16] == (Probe::Block { size: 16, y: y16 as usize, x: x16 as usize })
            &&& allow_8x8 ==> steps[at16 + 1 + j] == (Probe::Block {
                size: 8,
                y: (y16 + 8 * (j / 2)) as usize,
                x: (x16 + 8 * (j % 2)) as usize,
            })
            &&& allow_8x8 ==> steps[at16 + 5] == (Probe::Judge16 {
                index: (y16 / 16 * 4 + x16 / 16) as usize,
            })
            &&& steps[at32 + large - 1] == (Probe::Judge32 { child: child as usize })
        }),
{
    let (small, large) = if allow_8x8 {
        (6int, 26int)
    } else {
        (1int, 6int)
    };
    let (y32, x32) = (32 * (child / 2), 32 * (child % 2));
    let (y16, x16) = (y32 + 16 * (k / 2), x32 + 16 * (k % 2));
    lemma_steps32_len(allow_8x8, child, 4);
    lemma_steps32_at(allow_8x8, 4, child, 0);
    lemma_steps32_at(allow_8x8, 4, child, large - 1);
    lemma_steps16_len(y32, x32, allow_8x8, 4);
    lemma_steps16_at(y32, x32, allow_8x8, 4, k, 0);
    lemma_steps32_at(allow_8x8, 4, child, 1 + small * k);
    if allow_8x8 {
        lemma_steps16_at(y32, x32, allow_8x8, 4, k, 1 + j);
        lemma_steps32_at(allow_8x8, 4, child, 1 + small * k + 1 + j);
        lemma_steps16_at(y32, x32, allow_8x8, 4, k, 5);
        lemma_steps32_at(allow_8x8, 4, child, 1 + small * k + 5);
        let s = steps16(y16, x16, true);
        assert(s[1] == quarter_probe(8, y16, x16, 0));
        assert(s[2] == quarter_probe(8, y16, x16, 1));
        assert(s[3] == quarter_probe(8, y16, x16, 2));
        assert(s[4] == quarter_probe(8, y16, x16, 3));
        assert(s[1 + j] == quarter_probe(8, y16, x16, j));
    }
}

} // verus!
