//! Chroma sampling layouts.

use vstd::prelude::*;

verus! {

/// YUV chroma sampling layout.
#[derive(Clone, Copy, Debug, PartialEq, Eq, Structural)]
pub enum Layout {
    /// 4:0:0, luma only.
    Monochrome,
    /// 4:2:0, chroma at half width and half height (32x32 transform).
    I420,
    /// 4:2:2, chroma at half width, full height (32x64 transform).
    I422,
    /// 4:4:4, chroma at full resolution (64x64 transform).
    I444,
}

impl Layout {
    /// Layout code of the sequence header.
    pub open spec fn code(self) -> nat {
        match self {
            Layout::I420 => 0,
            Layout::Monochrome => 1,
            Layout::I444 => 2,
            Layout::I422 => 3,
        }
    }

    /// Profile that covers the layout.
    pub open spec fn profile_idc(self) -> nat {
        match self {
            Layout::Monochrome | Layout::I420 => 0,
            Layout::I422 => 3,
            Layout::I444 => 4,
        }
    }

    /// Whether this layout carries chroma planes.
    pub fn has_chroma(self) -> (b: bool)
        ensures
            b == (self != Layout::Monochrome),
    {
        self != Layout::Monochrome
    }

    /// Sequence-header layout code (the uvlc index into the decoder's layout table).
    pub fn header_uvlc(self) -> (code: u32)
        ensures
            code == self.code(),
    {
        match self {
            Layout::I420 => 0,
            Layout::Monochrome => 1,
            Layout::I444 => 2,
            Layout::I422 => 3,
        }
    }

    /// `seq_profile_idc` of this chroma format, a 5-bit field: 0 is the main
    /// profile for 4:0:0 and 4:2:0, 3 the one for 4:2:2, 4 the one for 4:4:4.
    pub fn profile(self) -> (idc: u32)
        ensures
            idc == self.profile_idc(),
    {
        match self {
            Layout::Monochrome | Layout::I420 => 0,
            Layout::I422 => 3,
            Layout::I444 => 4,
        }
    }
}

/// Distinct layouts have distinct codes, so the header code names the layout.
pub proof fn law_layout_code_is_unique(a: Layout, b: Layout)
    ensures
        a.code() == b.code() ==> a == b,
{
}

} // verus!
