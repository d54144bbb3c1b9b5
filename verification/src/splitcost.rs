//! Cost of coding 4:4:4 chroma of a superblock whole or in quarters.

use crate::distortion;
use crate::distortion::{rect_sse, PlaneRect};
use crate::metrics;
use vstd::prelude::*;

verus! {

/// Squared error and estimated bits.
#[derive(Clone, Copy, Debug, PartialEq, Eq, Structural)]
pub struct BlockCost {
    pub error: u64,
    pub bits: u64,
}

/// Bits charged for a level that is not zero.
pub const LEVEL_BITS: u64 = 4;

/// Weight of the error of a 64x64 transform. It drops the upper half of the
/// spectrum, which squared errors understate.
pub const WHOLE_WEIGHT: u64 = 4;

/// Bits charged for signaling the split.
pub const SPLIT_BITS: u64 = 6;

impl BlockCost {
    /// Room to add up and weigh.
    pub open spec fn moderate(self) -> bool {
        self.error <= 0x80_0000_0000_0000 && self.bits <= 0x80_0000_0000_0000
    }
}

/// Marks of the levels that are not zero.
pub open spec fn coded_marks(levels: Seq<i32>) -> spec_fn(int) -> nat {
    |i: int|
        if levels[i] == 0 {
            0
        } else {
            1
        }
}

/// Number of levels that are not zero.
pub open spec fn coded_count(levels: Seq<i32>) -> nat {
    metrics::total(coded_marks(levels), levels.len())
}

/// Cost of a square block of one plane.
pub fn block_cost(src: &PlaneRect, rec: &PlaneRect, side: usize, levels: &[i32]) -> (c: BlockCost)
    requires
        side <= 64,
        src.holds(side as int, side as int),
        rec.holds(side as int, side as int),
        levels@.len() <= 0x1_0000_0000,
    ensures
        c.error == distortion::rect_error(*src, *rec, side as nat, side as nat),
        c.bits == LEVEL_BITS * coded_count(levels@),
        c.moderate(),
{
    proof {
        distortion::law_rect_error_bound(*src, *rec, side as nat, side as nat);
    }
    let error: u64 = rect_sse(src, rec, side, side);
    let mut count: u64 = 0;
    let mut i: usize = 0;
    while i < levels.len()
        invariant
            i <= levels@.len() <= 0x1_0000_0000,
            count == metrics::total(coded_marks(levels@), i as nat),
            count <= i,
        decreases levels@.len() - i,
    {
        if levels[i] != 0 {
            count = count + 1;
        }
        i = i + 1;
        assert(coded_marks(levels@)(i - 1) == if levels@[i - 1] == 0 {
            0nat
        } else {
            1nat
        });
    }
    BlockCost { error, bits: LEVEL_BITS * count }
}

/// Cost of both planes, each coded as one 64x64 transform.
pub open spec fn whole_total(u: BlockCost, v: BlockCost) -> (int, int) {
    (WHOLE_WEIGHT * (u.error + v.error), u.bits + v.bits)
}

/// Cost of both planes, each coded as one 64x64 transform.
pub fn whole_cost(u: &BlockCost, v: &BlockCost) -> (c: BlockCost)
    requires
        u.moderate(),
        v.moderate(),
    ensures
        (c.error as int, c.bits as int) == whole_total(*u, *v),
{
    BlockCost { error: WHOLE_WEIGHT * (u.error + v.error), bits: u.bits + v.bits }
}

/// Errors of blocks.
pub open spec fn errors(s: Seq<BlockCost>) -> spec_fn(int) -> nat {
    |i: int| s[i].error as nat
}

/// Bits of blocks.
pub open spec fn rates(s: Seq<BlockCost>) -> spec_fn(int) -> nat {
    |i: int| s[i].bits as nat
}

/// Cost of both planes, each coded as four 32x32 transforms.
pub open spec fn split_total(u: Seq<BlockCost>, v: Seq<BlockCost>) -> (int, int) {
    (
        (metrics::total(errors(u), 4) + metrics::total(errors(v), 4)) as int,
        metrics::total(rates(u), 4) + metrics::total(rates(v), 4) + SPLIT_BITS,
    )
}

/// Cost of both planes, each coded as four 32x32 transforms.
pub fn split_cost(u: &[BlockCost; 4], v: &[BlockCost; 4]) -> (c: BlockCost)
    requires
        forall|i: int| 0 <= i < 4 ==> #[trigger] u@[i].moderate(),
        forall|i: int| 0 <= i < 4 ==> #[trigger] v@[i].moderate(),
    ensures
        (c.error as int, c.bits as int) == split_total(u@, v@),
{
    let mut error: u64 = 0;
    let mut bits: u64 = SPLIT_BITS;
    let mut i: usize = 0;
    while i < 4
        invariant
            i <= 4,
            forall|i: int| 0 <= i < 4 ==> #[trigger] u@[i].moderate(),
            forall|i: int| 0 <= i < 4 ==> #[trigger] v@[i].moderate(),
            error == metrics::total(errors(u@), i as nat) + metrics::total(errors(v@), i as nat),
            bits == metrics::total(rates(u@), i as nat) + metrics::total(rates(v@), i as nat)
                + SPLIT_BITS,
            error <= 0x100_0000_0000_0000 * i,
            bits <= 0x100_0000_0000_0000 * i + 6,
        decreases 4 - i,
    {
        assert(u@[i as int].moderate() && v@[i as int].moderate());
        assert(errors(u@)(i as int) == u@[i as int].error && rates(u@)(i as int)
            == u@[i as int].bits);
        assert(errors(v@)(i as int) == v@[i as int].error && rates(v@)(i as int)
            == v@[i as int].bits);
        error = error + u[i].error + v[i].error;
        bits = bits + u[i].bits + v[i].bits;
        i = i + 1;
    }
    BlockCost { error, bits }
}

/// Flat chroma is never worth splitting: where neither way leaves an error or a
/// level, the split only adds its signaling.
pub proof fn law_flat_chroma_stays_whole(
    u: BlockCost,
    v: BlockCost,
    us: Seq<BlockCost>,
    vs: Seq<BlockCost>,
)
    requires
        us.len() == 4,
        vs.len() == 4,
        u.error == 0 && u.bits == 0 && v.error == 0 && v.bits == 0,
        forall|i: int| 0 <= i < 4 ==> (#[trigger] us[i]).error == 0 && us[i].bits == 0,
        forall|i: int| 0 <= i < 4 ==> (#[trigger] vs[i]).error == 0 && vs[i].bits == 0,
    ensures
        whole_total(u, v) == (0int, 0int),
        split_total(us, vs) == (0int, 6int),
{
    metrics::lemma_total_zero(errors(us), 4);
    metrics::lemma_total_zero(errors(vs), 4);
    metrics::lemma_total_zero(rates(us), 4);
    metrics::lemma_total_zero(rates(vs), 4);
}

/// The number of coded levels grows by one with each that is not zero, and each
/// stands for four bits.
pub proof fn law_levels_are_counted(levels: Seq<i32>, x: i32)
    ensures
        LEVEL_BITS == 4,
        coded_count(Seq::empty()) == 0,
        coded_count(levels.push(x)) == coded_count(levels) + (if x == 0 {
            0int
        } else {
            1int
        }),
{
    metrics::lemma_total_same(coded_marks(levels.push(x)), coded_marks(levels), levels.len());
}

/// A whole block weighs its two errors four times; a split one adds up the errors
/// and the bits of its four parts of both planes, and six bits for the split.
pub proof fn law_costs_add_up(
    u: BlockCost,
    v: BlockCost,
    us: Seq<BlockCost>,
    vs: Seq<BlockCost>,
)
    requires
        us.len() == 4,
        vs.len() == 4,
    ensures
        whole_total(u, v).0 == 4 * u.error + 4 * v.error,
        whole_total(u, v).1 == u.bits + v.bits,
        split_total(us, vs).0 == us[0].error + us[1].error + us[2].error + us[3].error
            + vs[0].error + vs[1].error + vs[2].error + vs[3].error,
        split_total(us, vs).1 == us[0].bits + us[1].bits + us[2].bits + us[3].bits + vs[0].bits
            + vs[1].bits + vs[2].bits + vs[3].bits + 6,
{
    reveal_with_fuel(metrics::total, 5);
}

} // verus!
