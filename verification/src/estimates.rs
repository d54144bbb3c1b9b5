//! Probabilities behind rate estimates.
//!
//! An estimate reads the live table of an element without changing it. Where
//! tables do not adapt, every symbol of an element is taken to be equally
//! likely.

use crate::metrics;
use crate::syntax;
use crate::syntax::Syntax;
use vstd::prelude::*;

verus! {

/// Probability `num / den`.
#[derive(Clone, Copy, Debug, PartialEq, Eq, Structural)]
pub struct Share {
    pub num: u32,
    pub den: u32,
}

/// Upper boundary of a symbol in an inverse CDF.
pub open spec fn upper(cdf: Seq<u16>, s: int) -> int {
    if s == 0 {
        32768
    } else {
        cdf[s - 1] as int
    }
}

/// Lower boundary of a symbol of an `n`-symbol alphabet.
pub open spec fn lower(cdf: Seq<u16>, s: int, n: int) -> int {
    if s + 1 < n {
        cdf[s] as int
    } else {
        0
    }
}

/// Share of a symbol out of 32768. It is never less than one.
pub open spec fn share_of(cdf: Seq<u16>, s: int, n: int) -> nat {
    let width = upper(cdf, s) - lower(cdf, s, n);
    if width < 1 {
        1
    } else {
        width as nat
    }
}

/// Share of a symbol in an inverse CDF, out of 32768.
pub fn symbol_share(cdf: &[u16], symbol: usize, nsyms: usize) -> (w: u32)
    requires
        symbol < nsyms <= cdf@.len() + 1,
    ensures
        w == share_of(cdf@, symbol as int, nsyms as int),
{
    let hi: i32 = if symbol == 0 {
        32768
    } else {
        cdf[symbol - 1] as i32
    };
    let lo: i32 = if symbol < nsyms - 1 {
        cdf[symbol] as i32
    } else {
        0
    };
    if hi - lo < 1 {
        1
    } else {
        (hi - lo) as u32
    }
}

/// Number of symbols of an element whose table fixes it.
pub open spec fn alphabet(e: Syntax) -> int {
    syntax::fixed_entries(e).unwrap() + 1
}

/// Elements whose rates are estimated.
pub open spec fn estimated(e: Syntax) -> bool {
    match e {
        Syntax::IntraInter | Syntax::SkipTxfm | Syntax::InterSingleMode | Syntax::Drl |
        Syntax::SingleRef | Syntax::MvdShellSet | Syntax::MvdShellClass0 | Syntax::MvdShellClass1 |
        Syntax::MvdOffsetLow | Syntax::MvdOffsetClass2 | Syntax::MvdOffsetOther |
        Syntax::MvdColGreater | Syntax::MvdColIndex => true,
        _ => false,
    }
}

/// Probability of a symbol of an element.
pub open spec fn estimate(e: Syntax, live: Option<&[u16]>, s: int) -> Share {
    match live {
        Some(cdf) => Share { num: share_of(cdf@, s, alphabet(e)) as u32, den: 32768 },
        None => Share { num: 1, den: alphabet(e) as u32 },
    }
}

/// What a symbol that the stream does not carry costs: nothing.
pub open spec fn certain() -> Share {
    Share { num: 1, den: 1 }
}

/// Estimate of whether a block is an inter block; in an intra tile none is.
pub open spec fn intra_inter_share(inter_tile: bool, live: Option<&[u16]>, val: int) -> Share {
    if inter_tile {
        estimate(Syntax::IntraInter, live, val)
    } else {
        certain()
    }
}

/// Estimate of the rank of a reference.
pub open spec fn single_ref_share(num_refs: u8, live: Option<&[u16]>, rank: int) -> Share {
    if num_refs < 2 {
        certain()
    } else if rank == 0 {
        estimate(Syntax::SingleRef, live, 1)
    } else {
        estimate(Syntax::SingleRef, live, 0)
    }
}

/// Estimate of the class of a motion vector, by its set.
pub open spec fn shell_class_share(set: int, live: Option<&[u16]>, class: int) -> Share {
    estimate(
        if set == 0 {
            Syntax::MvdShellClass0
        } else {
            Syntax::MvdShellClass1
        },
        live,
        class,
    )
}

/// A symbol of an element can be looked up in its table.
pub open spec fn can_estimate(e: Syntax, live: Option<&[u16]>, s: int) -> bool {
    &&& estimated(e)
    &&& 0 <= s < alphabet(e)
    &&& live matches Some(cdf) ==> alphabet(e) <= cdf@.len() + 1
}

/// Probability of a symbol of an element under its live table.
pub fn estimate_element(e: Syntax, live: Option<&[u16]>, s: usize) -> (p: Share)
    requires
        can_estimate(e, live, s as int),
    ensures
        p == estimate(e, live, s as int),
{
    let n: usize = match syntax::entries(e) {
        Some(k) => {
            assert(k <= 7);
            k + 1
        },
        None => 1,
    };
    match live {
        Some(cdf) => Share { num: symbol_share(cdf, s, n), den: 32768 },
        None => Share { num: 1, den: n as u32 },
    }
}

/// Probability of the intra/inter flag, which only inter tiles carry.
pub fn estimate_intra_inter(inter_tile: bool, live: Option<&[u16]>, val: usize) -> (p: Share)
    requires
        inter_tile ==> can_estimate(Syntax::IntraInter, live, val as int),
    ensures
        p == intra_inter_share(inter_tile, live, val as int),
{
    if inter_tile {
        estimate_element(Syntax::IntraInter, live, val)
    } else {
        Share { num: 1, den: 1 }
    }
}

/// Probability of the flag that selects a reference: a one selects rank 0. A
/// frame with a single reference carries no such flag.
pub fn estimate_single_ref(num_refs: u8, live: Option<&[u16]>, rank: usize) -> (p: Share)
    requires
        num_refs >= 2 && live is Some ==> live->0@.len() >= 1,
    ensures
        p == single_ref_share(num_refs, live, rank as int),
{
    if num_refs < 2 {
        return Share { num: 1, den: 1 };
    }
    let bit: usize = if rank == 0 {
        1
    } else {
        0
    };
    estimate_element(Syntax::SingleRef, live, bit)
}

/// Probability of the class of a motion vector difference; each of the two sets
/// of classes has its table.
pub fn estimate_shell_class(set: usize, live: Option<&[u16]>, class: usize) -> (p: Share)
    requires
        class < 8,
        live is Some ==> live->0@.len() >= 7,
    ensures
        p == shell_class_share(set as int, live, class as int),
{
    if set == 0 {
        estimate_element(Syntax::MvdShellClass0, live, class)
    } else {
        estimate_element(Syntax::MvdShellClass1, live, class)
    }
}

/// The boundaries of an alphabet fall strictly from 32768 to zero.
pub open spec fn falls(cdf: Seq<u16>, n: int) -> bool {
    &&& 1 <= n <= cdf.len() + 1
    &&& forall|s: int| 0 <= s < n ==> #[trigger] lower(cdf, s, n) < upper(cdf, s)
}

/// Shares of the symbols of an alphabet.
pub open spec fn shares(cdf: Seq<u16>, n: int) -> spec_fn(int) -> nat {
    |s: int| share_of(cdf, s, n)
}

proof fn lemma_shares_so_far(cdf: Seq<u16>, n: int, k: nat)
    requires
        falls(cdf, n),
        k <= n,
    ensures
        metrics::total(shares(cdf, n), k) == if k == n {
            32768
        } else {
            32768 - upper(cdf, k as int)
        },
    decreases k,
{
    if k > 0 {
        lemma_shares_so_far(cdf, n, (k - 1) as nat);
        assert(lower(cdf, k - 1, n) < upper(cdf, k - 1));
        assert(shares(cdf, n)(k - 1) == share_of(cdf, k - 1, n));
    }
}

/// The shares of all symbols of an alphabet make up the whole.
pub proof fn law_shares_make_the_whole(cdf: Seq<u16>, n: int)
    requires
        falls(cdf, n),
    ensures
        metrics::total(shares(cdf, n), n as nat) == 32768,
{
    lemma_shares_so_far(cdf, n, n as nat);
}

/// The share of a symbol is the step of the table at its place: from the whole to the
/// first entry for the first symbol, from the last entry to nothing for the last.
pub proof fn law_share_is_the_step_of_the_table(cdf: Seq<u16>, n: int, s: int)
    requires
        falls(cdf, n),
        0 <= s < n,
    ensures
        n == 1 ==> share_of(cdf, s, n) == 32768,
        n > 1 && s == 0 ==> share_of(cdf, s, n) == 32768 - cdf[0],
        0 < s < n - 1 ==> share_of(cdf, s, n) == cdf[s - 1] - cdf[s],
        n > 1 && s == n - 1 ==> share_of(cdf, s, n) == cdf[n - 2],
{
    assert(lower(cdf, s, n) < upper(cdf, s));
}

/// Without a live table every symbol of an element has the same share, and the
/// number of its symbols is one more than its entries.
pub proof fn law_symbols_are_alike_without_a_table(e: Syntax, s: int, t: int)
    requires
        can_estimate(e, None, s),
        can_estimate(e, None, t),
    ensures
        estimate(e, None, s) == estimate(e, None, t),
        estimate(e, None, s).num == 1,
        estimate(e, None, s).den == syntax::fixed_entries(e).unwrap() + 1,
{
}

/// What is certain costs nothing: the kind of a block in an intra tile, and the only
/// reference. Of several references the first is the second symbol of its table and
/// every other one the first.
pub proof fn law_certain_elements(
    live: Option<&[u16]>,
    val: int,
    num_refs: u8,
    rank: int,
)
    requires
        live matches Some(cdf) ==> cdf@.len() >= 1 && 1 <= cdf@[0] < 32768,
        rank > 0,
    ensures
        ({
            let p = intra_inter_share(false, live, val);
            p.num == 1 && p.den == 1
        }),
        num_refs < 2 ==> single_ref_share(num_refs, live, rank).num == 1 && single_ref_share(
            num_refs,
            live,
            rank,
        ).den == 1,
        num_refs >= 2 && live is Some ==> {
            &&& single_ref_share(num_refs, live, 0).num == live->0@[0]
            &&& single_ref_share(num_refs, live, rank).num == 32768 - live->0@[0]
            &&& single_ref_share(num_refs, live, 0).den == 32768
        },
        num_refs >= 2 && live is None ==> single_ref_share(num_refs, live, rank).den == 2,
{
}

/// The class of a motion vector has eight values, by the table of its set: the first
/// set has one of its own and all others share one.
pub proof fn law_shell_classes_have_their_sets(live: Option<&[u16]>, set: int, class: int)
    ensures
        shell_class_share(0, live, class) == estimate(Syntax::MvdShellClass0, live, class),
        set != 0 ==> shell_class_share(set, live, class) == estimate(
            Syntax::MvdShellClass1,
            live,
            class,
        ),
        live is None ==> shell_class_share(set, live, class).den == 8,
{
}

} // verus!
