//! Tables of the coded syntax elements.
//!
//! Every element is coded with a probability table. While a tile adapts its
//! tables, the live one is used; otherwise the fixed one, where the element has
//! one.

use crate::entropy;
use crate::entropy::RangeEncoder;
use vstd::prelude::*;

verus! {

/// Syntax elements, one for each family of tables.
#[derive(Clone, Copy, Debug, PartialEq, Eq, Structural)]
pub enum Syntax {
    IntraInter,
    InterSingleMode,
    Drl,
    SingleRef,
    MvdShellSet,
    MvdShellClass0,
    MvdShellClass1,
    MvdOffsetLow,
    MvdOffsetClass2,
    MvdOffsetOther,
    MvdColGreater,
    MvdColIndex,
    SkipTxfm,
    InterTxType,
    TxDoPartition,
    TxPartType,
    Ccso,
    Cdef,
    Luma8Hf,
    Luma8Lf,
    Luma8EobHf,
    Luma8EobLf,
    Luma16Hf,
    Luma16Lf,
    Luma16EobHf,
    Luma16EobLf,
    Luma32Hf,
    Luma32Lf,
    Luma32EobHf,
    Luma32EobLf,
    BrHf,
    Br,
    EobBin,
    EobBinInter,
    Eob64Luma,
    Eob128Luma,
    Eob256,
    Eob256Inter,
    Eob512,
    ChrEobBin,
    ChrEob32,
    ChrEob64,
    ChrEob128,
    ChrEob256,
    ChrEob512,
    Eob16Q0,
    BaseLfTx4,
    BaseTx4,
    BaseLfEobTx4,
    BaseEobTx4,
    BrLfQ0,
    BrQ0,
    BaseLfUv,
    BaseUv,
    BrUv,
    BaseLfEobUv,
    BaseEobUv,
    YSet,
    YIdx0,
    YIdx1,
    UvMode,
    DeltaQ,
    TxPart64,
    TxPart64x16,
    TxPart16x64,
    TxPart64x32,
    TxPart32x64,
    TxShortSide,
    CflIs,
    CflMhccp,
    MhDir,
    CflIndex,
    CflSign,
    CflAlpha,
    TxbSkip,
    TxbSkipInter,
    SkipTx64,
    SkipTx64Inter,
    SkipTx16,
    SkipTx16Inter,
    SkipTx8,
    SkipTx8Inter,
    SkipTx4,
    SkipV,
    DcSign,
    EobExtra,
    DoSplit,
    DoSquareSplit,
    RectType,
    TxfmPart,
    InterTx16Set,
    InterTx16Idx,
    IntraExtTx16,
    IntraExtTx8,
}

/// Number of table entries of an element, where the element fixes it; the
/// alphabet has one symbol more.
pub open spec fn fixed_entries(e: Syntax) -> Option<usize> {
    match e {
        Syntax::IntraInter | Syntax::Drl | Syntax::SingleRef | Syntax::MvdShellSet |
        Syntax::MvdOffsetLow | Syntax::MvdOffsetClass2 | Syntax::MvdOffsetOther |
        Syntax::MvdColGreater | Syntax::MvdColIndex | Syntax::SkipTxfm | Syntax::InterTxType |
        Syntax::TxDoPartition | Syntax::Ccso | Syntax::Cdef | Syntax::CflIs | Syntax::CflMhccp |
        Syntax::CflIndex | Syntax::TxbSkip | Syntax::TxbSkipInter | Syntax::SkipTx64 |
        Syntax::SkipTx64Inter | Syntax::SkipTx16 | Syntax::SkipTx16Inter | Syntax::SkipTx8 |
        Syntax::SkipTx8Inter | Syntax::SkipTx4 | Syntax::SkipV | Syntax::DcSign |
        Syntax::EobExtra | Syntax::DoSplit | Syntax::DoSquareSplit | Syntax::RectType |
        Syntax::TxfmPart | Syntax::InterTx16Set => Some(1),
        Syntax::InterSingleMode => Some(2),
        Syntax::Luma8Hf | Syntax::Luma16Hf | Syntax::Luma32Hf | Syntax::BaseTx4 | Syntax::BaseUv
        | Syntax::YSet | Syntax::TxShortSide | Syntax::MhDir => Some(3),
        Syntax::Luma8Lf | Syntax::Luma16Lf | Syntax::Luma32Lf | Syntax::BaseLfTx4 |
        Syntax::BaseLfUv => Some(5),
        Syntax::TxPartType => Some(6),
        Syntax::MvdShellClass0 | Syntax::MvdShellClass1 | Syntax::InterTx16Idx => Some(7),
        Syntax::CflSign | Syntax::CflAlpha => Some(8),
        _ => None,
    }
}

/// Elements that only occur with live tables.
pub open spec fn live_only(e: Syntax) -> bool {
    match e {
        Syntax::IntraInter | Syntax::InterSingleMode | Syntax::Drl | Syntax::SingleRef |
        Syntax::MvdShellSet | Syntax::MvdShellClass0 | Syntax::MvdShellClass1 |
        Syntax::MvdOffsetLow | Syntax::MvdOffsetClass2 | Syntax::MvdOffsetOther |
        Syntax::MvdColGreater | Syntax::MvdColIndex | Syntax::SkipTxfm | Syntax::InterTxType |
        Syntax::TxDoPartition | Syntax::TxPartType | Syntax::Ccso | Syntax::Cdef => true,
        _ => false,
    }
}

/// Elements whose fixed tables come in four banks, chosen by the quantizer. The
/// chroma tables of 4x4 transforms are among them; the tables of lossless blocks
/// are not, nor are flags whose probability comes with the block.
pub open spec fn banked(e: Syntax) -> bool {
    match e {
        Syntax::Luma8Hf | Syntax::Luma8Lf | Syntax::Luma8EobHf | Syntax::Luma8EobLf |
        Syntax::Luma16Hf | Syntax::Luma16Lf | Syntax::Luma16EobHf | Syntax::Luma16EobLf |
        Syntax::Luma32Hf | Syntax::Luma32Lf | Syntax::Luma32EobHf | Syntax::Luma32EobLf |
        Syntax::BrHf | Syntax::Br | Syntax::EobBin | Syntax::EobBinInter | Syntax::Eob64Luma |
        Syntax::Eob128Luma | Syntax::Eob256 | Syntax::Eob256Inter | Syntax::Eob512 |
        Syntax::ChrEobBin | Syntax::ChrEob32 | Syntax::ChrEob64 | Syntax::ChrEob128 |
        Syntax::ChrEob256 | Syntax::ChrEob512 | Syntax::BaseLfUv | Syntax::BaseUv | Syntax::BrUv
        | Syntax::BaseLfEobUv | Syntax::BaseEobUv | Syntax::TxbSkip | Syntax::TxbSkipInter |
        Syntax::SkipTx64 | Syntax::SkipTx64Inter | Syntax::SkipTx8Inter | Syntax::SkipV => true,
        _ => false,
    }
}

/// Number of table entries of an element, where the element fixes it.
pub fn entries(e: Syntax) -> (n: Option<usize>)
    ensures
        n == fixed_entries(e),
{
    match e {
        Syntax::IntraInter | Syntax::Drl | Syntax::SingleRef | Syntax::MvdShellSet |
        Syntax::MvdOffsetLow | Syntax::MvdOffsetClass2 | Syntax::MvdOffsetOther |
        Syntax::MvdColGreater | Syntax::MvdColIndex | Syntax::SkipTxfm | Syntax::InterTxType |
        Syntax::TxDoPartition | Syntax::Ccso | Syntax::Cdef | Syntax::CflIs | Syntax::CflMhccp |
        Syntax::CflIndex | Syntax::TxbSkip | Syntax::TxbSkipInter | Syntax::SkipTx64 |
        Syntax::SkipTx64Inter | Syntax::SkipTx16 | Syntax::SkipTx16Inter | Syntax::SkipTx8 |
        Syntax::SkipTx8Inter | Syntax::SkipTx4 | Syntax::SkipV | Syntax::DcSign |
        Syntax::EobExtra | Syntax::DoSplit | Syntax::DoSquareSplit | Syntax::RectType |
        Syntax::TxfmPart | Syntax::InterTx16Set => Some(1),
        Syntax::InterSingleMode => Some(2),
        Syntax::Luma8Hf | Syntax::Luma16Hf | Syntax::Luma32Hf | Syntax::BaseTx4 | Syntax::BaseUv
        | Syntax::YSet | Syntax::TxShortSide | Syntax::MhDir => Some(3),
        Syntax::Luma8Lf | Syntax::Luma16Lf | Syntax::Luma32Lf | Syntax::BaseLfTx4 |
        Syntax::BaseLfUv => Some(5),
        Syntax::TxPartType => Some(6),
        Syntax::MvdShellClass0 | Syntax::MvdShellClass1 | Syntax::InterTx16Idx => Some(7),
        Syntax::CflSign | Syntax::CflAlpha => Some(8),
        _ => None,
    }
}

/// Bank of the fixed table of an element in a frame with a quantizer context.
pub fn fixed_bank(e: Syntax, qc: usize) -> (bank: usize)
    ensures
        bank == if banked(e) {
            qc
        } else {
            0
        },
{
    match e {
        Syntax::Luma8Hf | Syntax::Luma8Lf | Syntax::Luma8EobHf | Syntax::Luma8EobLf |
        Syntax::Luma16Hf | Syntax::Luma16Lf | Syntax::Luma16EobHf | Syntax::Luma16EobLf |
        Syntax::Luma32Hf | Syntax::Luma32Lf | Syntax::Luma32EobHf | Syntax::Luma32EobLf |
        Syntax::BrHf | Syntax::Br | Syntax::EobBin | Syntax::EobBinInter | Syntax::Eob64Luma |
        Syntax::Eob128Luma | Syntax::Eob256 | Syntax::Eob256Inter | Syntax::Eob512 |
        Syntax::ChrEobBin | Syntax::ChrEob32 | Syntax::ChrEob64 | Syntax::ChrEob128 |
        Syntax::ChrEob256 | Syntax::ChrEob512 | Syntax::BaseLfUv | Syntax::BaseUv | Syntax::BrUv
        | Syntax::BaseLfEobUv | Syntax::BaseEobUv | Syntax::TxbSkip | Syntax::TxbSkipInter |
        Syntax::SkipTx64 | Syntax::SkipTx64Inter | Syntax::SkipTx8Inter | Syntax::SkipV => qc,
        _ => 0,
    }
}

/// The table of an element in an intra or an inter transform block: end-of-block
/// bins and skip flags of 32x32 and 64x64 transforms have a table for each.
pub open spec fn table_in(e: Syntax, inter: bool) -> Syntax {
    if !inter {
        e
    } else {
        match e {
            Syntax::EobBin => Syntax::EobBinInter,
            Syntax::TxbSkip => Syntax::TxbSkipInter,
            Syntax::SkipTx64 => Syntax::SkipTx64Inter,
            _ => e,
        }
    }
}

/// The live table of an element.
pub fn live_table(e: Syntax, inter: bool) -> (t: Syntax)
    ensures
        t == table_in(e, inter),
{
    if !inter {
        return e;
    }
    match e {
        Syntax::EobBin => Syntax::EobBinInter,
        Syntax::TxbSkip => Syntax::TxbSkipInter,
        Syntax::SkipTx64 => Syntax::SkipTx64Inter,
        _ => e,
    }
}

/// Number of the V plane among the skip tables.
pub const V_TABLE: u8 = 2;

/// The live skip table of a number. Only the 32x32 table depends on whether the
/// block is inter.
pub open spec fn skip_table_of(table: u8, inter: bool) -> Syntax {
    if table == 0 {
        table_in(Syntax::TxbSkip, inter)
    } else if table == 1 {
        Syntax::SkipTx64
    } else if table == 3 {
        Syntax::SkipTx16
    } else if table == 4 {
        Syntax::SkipTx8
    } else if table == 5 {
        Syntax::SkipTx4
    } else if table == 6 {
        Syntax::SkipTx16Inter
    } else {
        Syntax::SkipV
    }
}

/// The live skip table of a number.
pub fn skip_table(table: u8, inter: bool) -> (t: Syntax)
    ensures
        t == skip_table_of(table, inter),
{
    match table {
        0 => live_table(Syntax::TxbSkip, inter),
        1 => Syntax::SkipTx64,
        3 => Syntax::SkipTx16,
        4 => Syntax::SkipTx8,
        5 => Syntax::SkipTx4,
        6 => Syntax::SkipTx16Inter,
        _ => Syntax::SkipV,
    }
}

/// Table and context of a skip flag. A caller that names the V plane gives the
/// context itself; every other one is found by its fixed probability.
pub fn skip_slot(hint: u8, given: usize, found: (u8, usize), inter: bool) -> (slot: (Syntax, usize))
    ensures
        slot == if hint == V_TABLE {
            (Syntax::SkipV, given)
        } else {
            (skip_table_of(found.0, inter), found.1)
        },
{
    if hint == V_TABLE {
        (Syntax::SkipV, given)
    } else {
        (skip_table(found.0, inter), found.1)
    }
}

/// Whether a symbol of an element can be coded with the tables at hand. Filter
/// flags occur only while tables adapt.
pub open spec fn element_codable(
    e: Syntax,
    range: nat,
    discards: bool,
    live: Option<&[u16]>,
    fixed: Seq<u16>,
    s: int,
    nsyms: int,
) -> bool {
    &&& fixed_entries(e) matches Some(n) ==> nsyms == n
    &&& match live {
        Some(cdf) => entropy::live_accepts(discards, range, cdf@, s, nsyms),
        None => (live_only(e) && e != Syntax::Ccso && e != Syntax::Cdef) || (!live_only(e) && {
            &&& 1 <= nsyms <= 8
            &&& fixed.len() <= 15
            &&& !discards ==> entropy::codable(
                range,
                entropy::fixed_table(fixed, s, nsyms),
                nsyms - 1,
                s,
            )
        }),
    }
}

impl RangeEncoder {
    /// Code a symbol of an element: with the live table where there is one, else
    /// with the fixed table. An element that has no fixed table is not coded
    /// without a live one. The result names the alphabet to adapt a live table
    /// with.
    pub fn code_element(
        &mut self,
        e: Syntax,
        live: Option<&[u16]>,
        fixed: &[u16],
        s: usize,
        nsyms: usize,
    ) -> (adapt: Option<usize>)
        requires
            old(self).wf(),
            element_codable(
                e,
                old(self)@.range,
                old(self).discards(),
                live,
                fixed@,
                s as int,
                nsyms as int,
            ),
        ensures
            final(self).wf(),
            final(self).discards() == old(self).discards(),
            live matches Some(cdf) ==> {
                &&& final(self)@ == entropy::code_live_unless(
                    old(self).discards(),
                    old(self)@,
                    cdf@,
                    s as int,
                    nsyms as int,
                )
                &&& adapt == Some(entropy::live_alphabet(cdf@, nsyms as int) as usize)
            },
            live is None ==> {
                &&& adapt is None
                &&& final(self)@ == if live_only(e) || old(self).discards() {
                    old(self)@
                } else {
                    entropy::code_symbol(
                        old(self)@,
                        entropy::fixed_table(fixed@, s as int, nsyms as int),
                        nsyms - 1,
                        s as int,
                    )
                }
            },
    {
        match e {
            Syntax::IntraInter | Syntax::InterSingleMode | Syntax::Drl | Syntax::SingleRef |
            Syntax::MvdShellSet | Syntax::MvdShellClass0 | Syntax::MvdShellClass1 |
            Syntax::MvdOffsetLow | Syntax::MvdOffsetClass2 | Syntax::MvdOffsetOther |
            Syntax::MvdColGreater | Syntax::MvdColIndex | Syntax::SkipTxfm | Syntax::InterTxType
            | Syntax::TxDoPartition | Syntax::TxPartType | Syntax::Ccso | Syntax::Cdef => self.emit_live(live, s, nsyms),
            _ => self.sym(live, fixed, s, nsyms),
        }
    }

    /// Code the cosine transform of a 16x16 inter block: bank 0, and there symbol
    /// 3 of eight. The result names the alphabets to adapt live tables with.
    pub fn emit_inter_tx16_dct(&mut self, eob_ctx: usize, live: Option<(&[u16], &[u16])>) -> (adapt:
        Option<(usize, usize)>)
        requires
            old(self).wf(),
            eob_ctx < 3,
            live matches Some(t) ==> {
                &&& entropy::live_accepts(old(self).discards(), old(self)@.range, t.0@, 0, 1)
                &&& entropy::live_accepts(
                    old(self).discards(),
                    entropy::code_live(old(self)@, t.0@, 0, 1).range,
                    t.1@,
                    3,
                    7,
                )
            },
        ensures
            final(self).wf(),
            final(self).discards() == old(self).discards(),
            live matches Some(t) ==> {
                &&& final(self)@ == if old(self).discards() {
                    old(self)@
                } else {
                    entropy::code_live(entropy::code_live(old(self)@, t.0@, 0, 1), t.1@, 3, 7)
                }
                &&& adapt == Some(
                    (
                        entropy::live_alphabet(t.0@, 1) as usize,
                        entropy::live_alphabet(t.1@, 7) as usize,
                    ),
                )
            },
            live is None ==> {
                &&& adapt is None
                &&& final(self)@ == if old(self).discards() {
                    old(self)@
                } else {
                    entropy::code_symbol(
                        entropy::code_bool(
                            old(self)@,
                            INTER_TX16_SET@[eob_ctx as int] as nat,
                            false,
                        ),
                        INTER_TX16_IDX@[eob_ctx as int]@,
                        6,
                        3,
                    )
                }
            },
    {
        match live {
            Some((set, idx)) => {
                let a: usize = self.sym_mut_inner(set, 0, 1);
                let b: usize = self.sym_mut_inner(idx, 3, 7);
                Some((a, b))
            },
            None => {
                proof {
                    lemma_inter_tx16_tables(eob_ctx as int);
                }
                self.encode_bool(INTER_TX16_SET[eob_ctx], 0);
                proof {
                    self.lemma_wf();
                    let row = INTER_TX16_IDX@[eob_ctx as int]@;
                    entropy::law_every_symbol_codable(self@.range, row, 7, 3);
                }
                self.sym_static(INTER_TX16_IDX[eob_ctx].as_slice(), 3, 7);
                None
            },
        }
    }
}

/// Fixed probabilities of the bank of a 16x16 inter transform, by end-of-block
/// context.
pub const INTER_TX16_SET: [u32; 3] = [11933, 2048, 3911];

/// Fixed tables of the transform within bank 0.
pub const INTER_TX16_IDX: [[u16; 7]; 3] = [
    [31628, 31043, 30444, 18115, 13696, 9150, 4659],
    [32710, 32507, 32181, 451, 212, 142, 60],
    [15364, 15099, 14365, 8716, 6375, 4262, 2092],
];

proof fn lemma_inter_tx16_tables(c: int)
    requires
        0 <= c < 3,
    ensures
        INTER_TX16_SET@[c] < 0x8000,
        entropy::icdf_valid(INTER_TX16_IDX@[c]@, 7),
{
}

/// Outside lossless blocks, the coefficient tables of chroma follow the quantizer
/// of the frame as those of luma do.
pub proof fn law_chroma_tables_follow_the_quantizer()
    ensures
        banked(Syntax::BaseLfUv) && banked(Syntax::BaseUv) && banked(Syntax::BrUv),
        banked(Syntax::BaseLfEobUv) && banked(Syntax::BaseEobUv),
        !banked(Syntax::BaseLfTx4) && !banked(Syntax::BaseTx4),
{
}

/// Every skip table that a block can name is its own, and an inter block changes the
/// first of them alone.
pub proof fn law_skip_tables_are_their_own(a: u8, b: u8, inter: bool)
    requires
        a <= 6,
        b <= 6,
    ensures
        skip_table_of(a, inter) == skip_table_of(b, inter) ==> a == b,
        a != 0 ==> skip_table_of(a, inter) == skip_table_of(a, false),
        skip_table_of(0, true) != skip_table_of(0, false),
        skip_table_of(V_TABLE, inter) == Syntax::SkipV,
{
}

/// Intra blocks take the tables that they name; inter blocks have tables of their
/// own for the skip flags of their two largest transforms and the end of block, and
/// those are no table of an intra block that names another.
pub proof fn law_inter_tables_are_apart(e: Syntax, f: Syntax)
    ensures
        table_in(e, false) == e,
        table_in(e, true) != e <==> e == Syntax::EobBin || e == Syntax::TxbSkip || e
            == Syntax::SkipTx64,
        table_in(e, true) == Syntax::EobBinInter ==> e == Syntax::EobBin || e
            == Syntax::EobBinInter,
        table_in(e, true) == Syntax::TxbSkipInter ==> e == Syntax::TxbSkip || e
            == Syntax::TxbSkipInter,
        table_in(e, true) == Syntax::SkipTx64Inter ==> e == Syntax::SkipTx64 || e
            == Syntax::SkipTx64Inter,
{
}

/// A table that follows the quantizer does so for intra and for inter blocks.
pub proof fn law_inter_tables_follow_the_quantizer_too(e: Syntax, inter: bool)
    requires
        banked(e),
    ensures
        banked(table_in(e, inter)),
{
}

/// Elements that only occur with live tables have a fixed number of entries, and none
/// of the banks that the quantizer chooses.
pub proof fn law_live_elements_are_fixed_in_size(e: Syntax)
    requires
        live_only(e),
    ensures
        fixed_entries(e) is Some,
        1 <= fixed_entries(e)->0 <= 8,
        !banked(e),
{
}

} // verus!
