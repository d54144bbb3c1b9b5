//! Record and replay of superblock decisions.
//!
//! A search pass logs every winner in call order; a later pass reads the log
//! back and codes the same superblocks without searching again. Each kind of
//! decision has a sequence and a read position of its own. `C` is the type of a
//! chroma-from-luma choice.

use crate::contexts::Coeff;
use crate::partsearch::LumaPartitionDecision;
use vstd::prelude::*;

verus! {

/// Luma transform partition of a superblock that was coded whole.
#[derive(Clone, Copy, Debug, PartialEq, Eq, Structural)]
pub enum WholePart {
    Split,
    Vert4,
    Horz4,
}

/// Chroma decision of a superblock that was coded whole.
pub enum WholeChroma<C> {
    /// Prediction from luma.
    Cfl(C),
    /// An intra mode.
    Mode(usize),
}

/// Winner of a superblock that was coded whole, with its reconstruction.
pub struct Whole64Decision<C> {
    pub part: WholePart,
    /// Coefficients of the four luma transforms.
    pub tus: [Vec<Coeff>; 4],
    pub mode_idx: usize,
    pub angle_delta: i8,
    pub chroma: WholeChroma<C>,
    /// Reconstructed planes, 64x64 row by row.
    pub recon_y: Vec<u16>,
    pub recon_u: Vec<u16>,
    pub recon_v: Vec<u16>,
}

/// Winner of one luma leaf with a single transform.
pub struct LeafDecision {
    pub bw_mi: usize,
    pub bh_mi: usize,
    pub tu: Vec<Coeff>,
    /// Intra mode or transform type; 0 where there is no choice.
    pub mode_idx: usize,
    /// Reconstructed leaf, row by row.
    pub recon_y: Vec<u16>,
}

/// Winner of one leaf of a monochrome superblock: one transform, or four of a
/// leaf that is a whole superblock.
pub struct Leaf400 {
    pub bw_mi: usize,
    pub bh_mi: usize,
    pub tus: Vec<Vec<Coeff>>,
    pub mode_idx: usize,
    pub tx_idx: usize,
    pub recon_y: Vec<u16>,
}

/// Walk of a monochrome superblock.
pub enum Sb400 {
    /// Every leaf was logged.
    Walk(Vec<Leaf400>),
    /// Some leaf was not logged: search again.
    Fallback,
}

/// Winner of one leaf of a 4:2:0 superblock; the chroma decision is logged too.
pub struct Leaf420<C> {
    pub bw_mi: usize,
    pub bh_mi: usize,
    pub tus: Vec<Vec<Coeff>>,
    pub mode_idx: usize,
    pub tx_idx: usize,
    pub recon_y: Vec<u16>,
    pub chroma: Option<C>,
}

/// Walk of a 4:2:0 superblock.
pub enum Sb420<C> {
    /// Every leaf was logged.
    Walk(Vec<Leaf420<C>>),
    /// Some leaf was not logged: search again.
    Fallback,
}

/// Luma winner of a 4:2:0 superblock that was coded whole.
pub struct Luma420 {
    pub tus: [Vec<Coeff>; 4],
    pub mode_idx: usize,
    pub adelta: i8,
    pub recon_y: Vec<u16>,
}

/// Decision of one superblock.
pub enum SbDecision<C> {
    Whole64(Box<Whole64Decision<C>>),
    Walk(Vec<LeafDecision>),
    /// Not logged: search again.
    Fallback,
}

/// The seven sequences of a record.
#[verifier::ext_equal]
pub ghost struct Log<C> {
    pub entries: Seq<SbDecision<C>>,
    pub parts: Seq<LumaPartitionDecision>,
    pub mhccp: Seq<Option<C>>,
    pub luma420: Seq<Luma420>,
    pub chroma422_whole: Seq<Option<C>>,
    pub luma400: Seq<Sb400>,
    pub luma420_walk: Seq<Sb420<C>>,
}

/// One logged decision.
pub ghost enum Event<C> {
    Sb(SbDecision<C>),
    Part(LumaPartitionDecision),
    Mhccp(Option<C>),
    Luma420(Luma420),
    Chroma422Whole(Option<C>),
    Luma400(Sb400),
    Luma420Walk(Sb420<C>),
}

impl<C> Log<C> {
    /// Nothing logged yet.
    pub open spec fn empty() -> Self {
        Log {
            entries: Seq::empty(),
            parts: Seq::empty(),
            mhccp: Seq::empty(),
            luma420: Seq::empty(),
            chroma422_whole: Seq::empty(),
            luma400: Seq::empty(),
            luma420_walk: Seq::empty(),
        }
    }

    /// The log with one more decision.
    pub open spec fn with(self, e: Event<C>) -> Self {
        match e {
            Event::Sb(d) => Log { entries: self.entries.push(d), ..self },
            Event::Part(p) => Log { parts: self.parts.push(p), ..self },
            Event::Mhccp(m) => Log { mhccp: self.mhccp.push(m), ..self },
            Event::Luma420(l) => Log { luma420: self.luma420.push(l), ..self },
            Event::Chroma422Whole(c) => Log {
                chroma422_whole: self.chroma422_whole.push(c),
                ..self
            },
            Event::Luma400(s) => Log { luma400: self.luma400.push(s), ..self },
            Event::Luma420Walk(s) => Log { luma420_walk: self.luma420_walk.push(s), ..self },
        }
    }

    /// The log of a run of decisions.
    pub open spec fn of(events: Seq<Event<C>>) -> Self
        decreases events.len(),
    {
        if events.len() == 0 {
            Log::empty()
        } else {
            Log::of(events.drop_last()).with(events.last())
        }
    }

    /// Two logs, one after the other in every sequence.
    pub open spec fn then_log(self, other: Self) -> Self {
        Log {
            entries: self.entries + other.entries,
            parts: self.parts + other.parts,
            mhccp: self.mhccp + other.mhccp,
            luma420: self.luma420 + other.luma420,
            chroma422_whole: self.chroma422_whole + other.chroma422_whole,
            luma400: self.luma400 + other.luma400,
            luma420_walk: self.luma420_walk + other.luma420_walk,
        }
    }
}

/// Decisions of one tile in call order.
pub struct DecisionRecord<C> {
    entries: Vec<SbDecision<C>>,
    parts: Vec<LumaPartitionDecision>,
    mhccp: Vec<Option<C>>,
    luma420: Vec<Luma420>,
    chroma422_whole: Vec<Option<C>>,
    luma400: Vec<Sb400>,
    luma420_walk: Vec<Sb420<C>>,
}

impl<C> View for DecisionRecord<C> {
    type V = Log<C>;

    closed spec fn view(&self) -> Log<C> {
        Log {
            entries: self.entries@,
            parts: self.parts@,
            mhccp: self.mhccp@,
            luma420: self.luma420@,
            chroma422_whole: self.chroma422_whole@,
            luma400: self.luma400@,
            luma420_walk: self.luma420_walk@,
        }
    }
}

impl<C> DecisionRecord<C> {
    /// An empty record.
    pub fn new() -> (r: Self)
        ensures
            r@ == Log::<C>::empty(),
    {
        DecisionRecord {
            entries: Vec::new(),
            parts: Vec::new(),
            mhccp: Vec::new(),
            luma420: Vec::new(),
            chroma422_whole: Vec::new(),
            luma400: Vec::new(),
            luma420_walk: Vec::new(),
        }
    }

    /// Log the decision of a superblock.
    pub fn push(&mut self, d: SbDecision<C>)
        ensures
            final(self)@ == old(self)@.with(Event::Sb(d)),
    {
        self.entries.push(d);
    }

    /// Log the partition of a superblock.
    pub fn push_part(&mut self, p: LumaPartitionDecision)
        ensures
            final(self)@ == old(self)@.with(Event::Part(p)),
    {
        self.parts.push(p);
    }

    /// Log the multi-hypothesis chroma choice of a leaf.
    pub fn push_mhccp(&mut self, m: Option<C>)
        ensures
            final(self)@ == old(self)@.with(Event::Mhccp(m)),
    {
        self.mhccp.push(m);
    }

    /// Log the luma winner of a whole 4:2:0 superblock.
    pub fn push_luma420(&mut self, l: Luma420)
        ensures
            final(self)@ == old(self)@.with(Event::Luma420(l)),
    {
        self.luma420.push(l);
    }

    /// Log the chroma choice of a whole 4:2:2 superblock.
    pub fn push_chroma422_whole(&mut self, c: Option<C>)
        ensures
            final(self)@ == old(self)@.with(Event::Chroma422Whole(c)),
    {
        self.chroma422_whole.push(c);
    }

    /// Log the walk of a monochrome superblock.
    pub fn push_sb400(&mut self, s: Sb400)
        ensures
            final(self)@ == old(self)@.with(Event::Luma400(s)),
    {
        self.luma400.push(s);
    }

    /// Log the walk of a 4:2:0 superblock.
    pub fn push_sb420(&mut self, s: Sb420<C>)
        ensures
            final(self)@ == old(self)@.with(Event::Luma420Walk(s)),
    {
        self.luma420_walk.push(s);
    }

    /// Number of superblock decisions.
    pub fn len(&self) -> (n: usize)
        ensures
            n == self@.entries.len(),
    {
        self.entries.len()
    }

    /// Put another record behind this one, sequence by sequence.
    pub fn append(&mut self, other: DecisionRecord<C>)
        ensures
            final(self)@ == old(self)@.then_log(other@),
    {
        let mut o = other;
        self.entries.append(&mut o.entries);
        self.parts.append(&mut o.parts);
        self.mhccp.append(&mut o.mhccp);
        self.luma420.append(&mut o.luma420);
        self.chroma422_whole.append(&mut o.chroma422_whole);
        self.luma400.append(&mut o.luma400);
        self.luma420_walk.append(&mut o.luma420_walk);
    }
}

/// Read positions in the seven sequences of a log.
pub ghost struct Reader<C> {
    pub log: Log<C>,
    pub at: nat,
    pub part_at: nat,
    pub mhccp_at: nat,
    pub luma420_at: nat,
    pub chroma422_whole_at: nat,
    pub luma400_at: nat,
    pub luma420_walk_at: nat,
}

/// What a read gives at a position: the entry, or nothing behind the end.
pub open spec fn entry_at<T>(s: Seq<T>, at: nat) -> Option<T> {
    if at < s.len() {
        Some(s[at as int])
    } else {
        None
    }
}

/// Position after a read: it stays behind the last entry.
pub open spec fn next_at<T>(s: Seq<T>, at: nat) -> nat {
    if at < s.len() {
        at + 1
    } else {
        at
    }
}

/// A read position over a record.
pub struct DecisionCursor<'a, C> {
    rec: &'a DecisionRecord<C>,
    at: usize,
    part_at: usize,
    mhccp_at: usize,
    luma420_at: usize,
    chroma422_whole_at: usize,
    luma400_at: usize,
    luma420_walk_at: usize,
}

impl<'a, C> View for DecisionCursor<'a, C> {
    type V = Reader<C>;

    closed spec fn view(&self) -> Reader<C> {
        Reader {
            log: self.rec@,
            at: self.at as nat,
            part_at: self.part_at as nat,
            mhccp_at: self.mhccp_at as nat,
            luma420_at: self.luma420_at as nat,
            chroma422_whole_at: self.chroma422_whole_at as nat,
            luma400_at: self.luma400_at as nat,
            luma420_walk_at: self.luma420_walk_at as nat,
        }
    }
}

fn read<'a, T>(s: &'a Vec<T>, at: &mut usize) -> (r: Option<&'a T>)
    ensures
        r matches Some(x) ==> *old(at) < s@.len() && *x == s@[*old(at) as int],
        r is None ==> *old(at) >= s@.len(),
        *final(at) == next_at(s@, *old(at) as nat),
{
    if *at < s.len() {
        let i: usize = *at;
        *at = i + 1;
        Some(&s[i])
    } else {
        None
    }
}

/// Whether a reference read from a sequence is what stands at a position.
pub open spec fn reads<T>(r: Option<&T>, s: Seq<T>, at: nat) -> bool {
    match r {
        Some(x) => entry_at(s, at) == Some(*x),
        None => entry_at(s, at) is None,
    }
}

impl<'a, C> DecisionCursor<'a, C> {
    /// Start at the beginning of every sequence.
    pub fn new(rec: &'a DecisionRecord<C>) -> (r: Self)
        ensures
            r@.log == rec@,
            r@.at == 0 && r@.part_at == 0 && r@.mhccp_at == 0 && r@.luma420_at == 0,
            r@.chroma422_whole_at == 0 && r@.luma400_at == 0 && r@.luma420_walk_at == 0,
    {
        DecisionCursor {
            rec,
            at: 0,
            part_at: 0,
            mhccp_at: 0,
            luma420_at: 0,
            chroma422_whole_at: 0,
            luma400_at: 0,
            luma420_walk_at: 0,
        }
    }

    /// Next superblock decision; behind the last one, a fallback to a search.
    pub fn next(&mut self) -> (d: &'a SbDecision<C>)
        ensures
            *d == (match entry_at(old(self)@.log.entries, old(self)@.at) {
                Some(e) => e,
                None => SbDecision::Fallback,
            }),
            final(self)@ == (Reader {
                at: next_at(old(self)@.log.entries, old(self)@.at),
                ..old(self)@
            }),
    {
        match read(&self.rec.entries, &mut self.at) {
            Some(d) => d,
            None => &SbDecision::Fallback,
        }
    }

    /// Next partition, or nothing behind the last one.
    pub fn next_part(&mut self) -> (p: Option<LumaPartitionDecision>)
        ensures
            p == entry_at(old(self)@.log.parts, old(self)@.part_at),
            final(self)@ == (Reader {
                part_at: next_at(old(self)@.log.parts, old(self)@.part_at),
                ..old(self)@
            }),
    {
        match read(&self.rec.parts, &mut self.part_at) {
            Some(p) => Some(*p),
            None => None,
        }
    }

    /// Next multi-hypothesis chroma choice, or nothing behind the last one.
    pub fn next_mhccp(&mut self) -> (m: Option<&'a Option<C>>)
        ensures
            reads(m, old(self)@.log.mhccp, old(self)@.mhccp_at),
            final(self)@ == (Reader {
                mhccp_at: next_at(old(self)@.log.mhccp, old(self)@.mhccp_at),
                ..old(self)@
            }),
    {
        read(&self.rec.mhccp, &mut self.mhccp_at)
    }

    /// Next luma winner of a whole 4:2:0 superblock, or nothing behind the last
    /// one.
    pub fn next_luma420(&mut self) -> (l: Option<&'a Luma420>)
        ensures
            reads(l, old(self)@.log.luma420, old(self)@.luma420_at),
            final(self)@ == (Reader {
                luma420_at: next_at(old(self)@.log.luma420, old(self)@.luma420_at),
                ..old(self)@
            }),
    {
        read(&self.rec.luma420, &mut self.luma420_at)
    }

    /// Next chroma choice of a whole 4:2:2 superblock, or nothing behind the last
    /// one.
    pub fn next_chroma422_whole(&mut self) -> (c: Option<&'a Option<C>>)
        ensures
            reads(c, old(self)@.log.chroma422_whole, old(self)@.chroma422_whole_at),
            final(self)@ == (Reader {
                chroma422_whole_at: next_at(
                    old(self)@.log.chroma422_whole,
                    old(self)@.chroma422_whole_at,
                ),
                ..old(self)@
            }),
    {
        read(&self.rec.chroma422_whole, &mut self.chroma422_whole_at)
    }

    /// Next walk of a monochrome superblock, or nothing behind the last one.
    pub fn next_sb400(&mut self) -> (s: Option<&'a Sb400>)
        ensures
            reads(s, old(self)@.log.luma400, old(self)@.luma400_at),
            final(self)@ == (Reader {
                luma400_at: next_at(old(self)@.log.luma400, old(self)@.luma400_at),
                ..old(self)@
            }),
    {
        read(&self.rec.luma400, &mut self.luma400_at)
    }

    /// Next walk of a 4:2:0 superblock, or nothing behind the last one.
    pub fn next_sb420(&mut self) -> (s: Option<&'a Sb420<C>>)
        ensures
            reads(s, old(self)@.log.luma420_walk, old(self)@.luma420_walk_at),
            final(self)@ == (Reader {
                luma420_walk_at: next_at(old(self)@.log.luma420_walk, old(self)@.luma420_walk_at),
                ..old(self)@
            }),
    {
        read(&self.rec.luma420_walk, &mut self.luma420_walk_at)
    }
}

/// Records of consecutive runs, put one behind the other, equal the record of
/// the runs made in one go.
pub proof fn law_appended_runs_are_one_run<C>(a: Seq<Event<C>>, b: Seq<Event<C>>)
    ensures
        Log::of(a).then_log(Log::of(b)) == Log::of(a + b),
    decreases b.len(),
{
    if b.len() == 0 {
        assert(a + b =~= a);
        assert(Log::of(a).then_log(Log::empty()) =~= Log::of(a));
    } else {
        let head = b.drop_last();
        law_appended_runs_are_one_run(a, head);
        assert((a + b).drop_last() =~= a + head);
        assert((a + b).last() == b.last());
        assert(Log::of(a).then_log(Log::of(head).with(b.last())) =~= Log::of(a).then_log(
            Log::of(head),
        ).with(b.last()));
    }
}

/// Reads of one sequence give its entries in the order in which they were
/// logged, and nothing behind the last.
pub proof fn law_reads_follow_the_log<T>(s: Seq<T>, k: nat)
    ensures
        k <= s.len() ==> position_after(s, k) == k,
        k >= s.len() ==> position_after(s, k) == s.len(),
        k < s.len() ==> entry_at(s, position_after(s, k)) == Some(s[k as int]),
        k >= s.len() ==> entry_at(s, position_after(s, k)) is None,
    decreases k,
{
    if k > 0 {
        law_reads_follow_the_log(s, (k - 1) as nat);
    }
}

/// Position after a number of reads.
pub open spec fn position_after<T>(s: Seq<T>, reads: nat) -> nat
    decreases reads,
{
    if reads == 0 {
        0
    } else {
        next_at(s, position_after(s, (reads - 1) as nat))
    }
}

/// A recorded event is the last of its own list, and no other list changes.
pub proof fn law_events_go_to_their_own_list<C>(log: Log<C>, e: Event<C>)
    ensures
        ({
            let after = log.with(e);
            &&& e matches Event::Sb(d) ==> after.entries.last() == d
            &&& after.entries.len() == log.entries.len() + (if e is Sb {
                1int
            } else {
                0
            })
            &&& e matches Event::Part(p) ==> after.parts.last() == p
            &&& after.parts.len() == log.parts.len() + (if e is Part {
                1int
            } else {
                0
            })
            &&& e matches Event::Mhccp(m) ==> after.mhccp.last() == m
            &&& after.mhccp.len() == log.mhccp.len() + (if e is Mhccp {
                1int
            } else {
                0
            })
            &&& e matches Event::Luma420(l) ==> after.luma420.last() == l
            &&& after.luma420.len() == log.luma420.len() + (if e is Luma420 {
                1int
            } else {
                0
            })
            &&& e matches Event::Chroma422Whole(c) ==> after.chroma422_whole.last() == c
            &&& after.chroma422_whole.len() == log.chroma422_whole.len() + (if e is Chroma422Whole {
                1int
            } else {
                0
            })
            &&& e matches Event::Luma400(s) ==> after.luma400.last() == s
            &&& after.luma400.len() == log.luma400.len() + (if e is Luma400 {
                1int
            } else {
                0
            })
            &&& e matches Event::Luma420Walk(s) ==> after.luma420_walk.last() == s
            &&& after.luma420_walk.len() == log.luma420_walk.len() + (if e is Luma420Walk {
                1int
            } else {
                0
            })
        }),
{
}

/// Recording an event keeps all that was recorded before, in place.
pub proof fn law_events_keep_what_was_recorded<C>(log: Log<C>, e: Event<C>, i: int)
    ensures
        ({
            let after = log.with(e);
            &&& 0 <= i < log.entries.len() ==> after.entries[i] == log.entries[i]
            &&& 0 <= i < log.parts.len() ==> after.parts[i] == log.parts[i]
            &&& 0 <= i < log.mhccp.len() ==> after.mhccp[i] == log.mhccp[i]
            &&& 0 <= i < log.luma420.len() ==> after.luma420[i] == log.luma420[i]
            &&& 0 <= i < log.chroma422_whole.len() ==> after.chroma422_whole[i]
                == log.chroma422_whole[i]
            &&& 0 <= i < log.luma400.len() ==> after.luma400[i] == log.luma400[i]
            &&& 0 <= i < log.luma420_walk.len() ==> after.luma420_walk[i] == log.luma420_walk[i]
        }),
{
}

} // verus!
