//! Runs of identical palette indices.

use vstd::prelude::*;

verus! {

/// Longest run a single range can carry.
pub const MAX_RUN: u8 = 15;

/// A run of `run` adjacent pixels that share the palette index `color`.
///
/// A run of zero pixels is the empty placeholder: it stands for no pixel at
/// all and only serves to fill the compactor's window.
#[derive(Clone, Copy, Debug, PartialEq, Eq, Structural)]
pub struct PixelRange {
    pub run: u8,
    pub color: u8,
}

impl PixelRange {
    /// Both fields fit their bit fields: a run of at most 15, an index below 8.
    pub open spec fn valid(self) -> bool {
        self.run <= 15 && self.color < 8
    }

    /// The placeholder that stands for no pixels.
    pub fn empty() -> (range: Self)
        ensures
            range == (PixelRange { run: 0, color: 0 }),
            range.valid(),
    {
        PixelRange { run: 0, color: 0 }
    }
}

/// Every range of the sequence is valid.
pub open spec fn all_valid(ranges: Seq<PixelRange>) -> bool {
    forall|i: int| 0 <= i < ranges.len() ==> (#[trigger] ranges[i]).valid()
}

/// Every index of the sequence names a palette slot.
pub open spec fn all_indices(indices: Seq<u8>) -> bool {
    forall|i: int| 0 <= i < indices.len() ==> #[trigger] indices[i] < 8
}

/// `count` copies of `color`.
pub open spec fn repeat(color: u8, count: nat) -> Seq<u8> {
    Seq::new(count, |i: int| color)
}

/// The pixels that a sequence of ranges stands for.
pub open spec fn expand(ranges: Seq<PixelRange>) -> Seq<u8>
    decreases ranges.len(),
{
    if ranges.len() == 0 {
        Seq::empty()
    } else {
        repeat(ranges[0].color, ranges[0].run as nat) + expand(ranges.skip(1))
    }
}

} // verus!
