//! The pattern compactor: turns runs into encoded bytes, folding a lone pixel
//! into its neighbour and an alternating two-colour pattern into one byte.
//!
//! [`compact_spec`] says what the byte stream of a run sequence is, by looking
//! up to four runs ahead. [`Compactor`] produces that stream one run at a
//! time through a four-slot window.

use crate::layout::{copy_byte, encode_pair, encode_range, pair_byte, range_byte};
use crate::range::{all_valid, PixelRange};
use vstd::prelude::*;

verus! {

/// Number of slots in the compactor's window.
pub const WINDOW_SIZE: usize = 4;

/// The placeholder range.
pub open spec fn empty_range() -> PixelRange {
    PixelRange { run: 0, color: 0 }
}

/// The first four runs are single pixels that alternate between two indices.
pub open spec fn is_alternating(ranges: Seq<PixelRange>) -> bool {
    &&& ranges.len() >= 4
    &&& ranges[0].run == 1
    &&& ranges[1].run == 1
    &&& ranges[2].run == 1
    &&& ranges[3].run == 1
    &&& ranges[0].color == ranges[2].color
    &&& ranges[1].color == ranges[3].color
}

/// The first run is a single pixel and a non-empty run follows it.
pub open spec fn is_absorbing(ranges: Seq<PixelRange>) -> bool {
    &&& ranges.len() >= 2
    &&& ranges[0].run == 1
    &&& ranges[1].run >= 1
}

/// A run after one of its pixels was lent to the single pixel before it.
pub open spec fn lend_one(range: PixelRange) -> PixelRange {
    PixelRange { run: (range.run - 1) as u8, color: range.color }
}

/// The encoded bytes of a sequence of runs.
///
/// Reading from the front, the first rule that fits decides:
/// an empty run gives nothing; four alternating single pixels give one
/// colour byte with the copy flag; a single pixel followed by a run gives one
/// colour byte and takes one pixel off that run; any other run gives its
/// range byte.
pub open spec fn compact_spec(ranges: Seq<PixelRange>) -> Seq<u8>
    decreases ranges.len(),
{
    if ranges.len() == 0 {
        Seq::empty()
    } else if ranges[0].run == 0 {
        compact_spec(ranges.skip(1))
    } else if is_alternating(ranges) {
        seq![copy_byte(ranges[0].color, ranges[1].color)] + compact_spec(ranges.skip(4))
    } else if is_absorbing(ranges) {
        seq![pair_byte(ranges[0].color, ranges[1].color)] + compact_spec(
            seq![lend_one(ranges[1])] + ranges.skip(2),
        )
    } else {
        seq![range_byte(ranges[0].run, ranges[0].color)] + compact_spec(ranges.skip(1))
    }
}

/// `count` placeholder ranges.
pub open spec fn placeholders(count: nat) -> Seq<PixelRange> {
    Seq::new(count, |i: int| empty_range())
}

/// A window with nothing in it.
pub open spec fn empty_window() -> Seq<PixelRange> {
    seq![empty_range(), empty_range(), empty_range(), empty_range()]
}

/// The window after `incoming` has entered at the back and the front slot
/// has left.
pub open spec fn shift(window: Seq<PixelRange>, incoming: PixelRange) -> Seq<PixelRange> {
    seq![window[1], window[2], window[3], incoming]
}

/// One transition of the compactor: the window after `incoming` has entered
/// and the front slot was dealt with, and the byte that this gave, if any.
pub open spec fn step(window: Seq<PixelRange>, incoming: PixelRange) -> (Seq<PixelRange>, Option<u8>) {
    let w = shift(window, incoming);
    if is_alternating(w) {
        (empty_window(), Some(copy_byte(w[0].color, w[1].color)))
    } else if is_absorbing(w) {
        (seq![empty_range(), lend_one(w[1]), w[2], w[3]], Some(pair_byte(w[0].color, w[1].color)))
    } else if w[0].run != 0 {
        (seq![empty_range(), w[1], w[2], w[3]], Some(range_byte(w[0].run, w[0].color)))
    } else {
        (w, None)
    }
}

/// The bytes that one transition gave: one or none.
pub open spec fn emitted(byte: Option<u8>) -> Seq<u8> {
    match byte {
        Some(b) => seq![b],
        None => Seq::empty(),
    }
}

/// Empty runs at the front give no bytes.
pub proof fn lemma_compact_leading_empties(empties: Seq<PixelRange>, ranges: Seq<PixelRange>)
    requires
        forall|i: int| 0 <= i < empties.len() ==> (#[trigger] empties[i]).run == 0,
    ensures
        compact_spec(empties + ranges) == compact_spec(ranges),
    decreases empties.len(),
{
    if empties.len() == 0 {
        assert(empties + ranges =~= ranges);
    } else {
        assert((empties + ranges)[0] == empties[0]);
        assert((empties + ranges).skip(1) =~= empties.skip(1) + ranges);
        lemma_compact_leading_empties(empties.skip(1), ranges);
    }
}

/// Empty runs at the back give no bytes and change none of those before.
pub proof fn lemma_compact_trailing_empties(ranges: Seq<PixelRange>, empties: Seq<PixelRange>)
    requires
        forall|i: int| 0 <= i < empties.len() ==> (#[trigger] empties[i]).run == 0,
    ensures
        compact_spec(ranges + empties) == compact_spec(ranges),
    decreases ranges.len(),
{
    let all = ranges + empties;
    if ranges.len() == 0 {
        lemma_compact_leading_empties(empties, ranges);
        assert(compact_spec(ranges) =~= Seq::<u8>::empty());
    } else if ranges[0].run == 0 {
        assert(all.skip(1) =~= ranges.skip(1) + empties);
        lemma_compact_trailing_empties(ranges.skip(1), empties);
    } else if is_alternating(ranges) {
        assert(is_alternating(all));
        assert(all.skip(4) =~= ranges.skip(4) + empties);
        lemma_compact_trailing_empties(ranges.skip(4), empties);
    } else if is_absorbing(ranges) {
        assert(!is_alternating(all));
        assert(is_absorbing(all));
        let rest = seq![lend_one(ranges[1])] + ranges.skip(2);
        assert(seq![lend_one(all[1])] + all.skip(2) =~= rest + empties);
        lemma_compact_trailing_empties(rest, empties);
    } else {
        assert(!is_alternating(all));
        assert(!is_absorbing(all));
        assert(all.skip(1) =~= ranges.skip(1) + empties);
        lemma_compact_trailing_empties(ranges.skip(1), empties);
    }
}

/// One transition of the window does to the pending runs what
/// [`compact_spec`] does to the front of a run sequence: the byte it gives
/// is the next byte of the stream, and the runs left in the window,
/// followed by the input still to come, give the rest.
pub proof fn lemma_step_follows_spec(
    window: Seq<PixelRange>,
    incoming: PixelRange,
    rest: Seq<PixelRange>,
)
    requires
        window.len() == 4,
    ensures
        compact_spec(window.skip(1) + seq![incoming] + rest) == emitted(step(window, incoming).1)
            + compact_spec(step(window, incoming).0.skip(1) + rest),
{
    let w = shift(window, incoming);
    let pending = window.skip(1) + seq![incoming] + rest;
    let after = step(window, incoming).0;
    assert(pending.len() >= 4);
    assert(pending[0] == w[0] && pending[1] == w[1] && pending[2] == w[2] && pending[3] == w[3]);
    if is_alternating(w) {
        assert(is_alternating(pending));
        assert(pending.skip(4) =~= rest);
        assert(after.skip(1) =~= seq![empty_range(), empty_range(), empty_range()]);
        lemma_compact_leading_empties(after.skip(1), rest);
    } else if is_absorbing(w) {
        assert(!is_alternating(pending));
        assert(is_absorbing(pending));
        assert(seq![lend_one(pending[1])] + pending.skip(2) =~= after.skip(1) + rest);
    } else if w[0].run != 0 {
        assert(!is_alternating(pending));
        assert(!is_absorbing(pending));
        assert(pending.skip(1) =~= after.skip(1) + rest);
    } else {
        assert(pending.skip(1) =~= after.skip(1) + rest);
        assert(emitted(step(window, incoming).1) + compact_spec(after.skip(1) + rest)
            =~= compact_spec(after.skip(1) + rest));
    }
}

/// Appends the byte that one transition gave, if it gave one.
fn append_emitted(bytes: &mut Vec<u8>, byte: Option<u8>)
    ensures
        final(bytes)@ == old(bytes)@ + emitted(byte),
{
    match byte {
        Some(b) => {
            bytes.push(b);
            assert(bytes@ =~= old(bytes)@ + emitted(byte));
        },
        None => {
            assert(bytes@ =~= bytes@ + emitted(byte));
        },
    }
}

/// The compactor's state: a window of four runs. The front slot is the one
/// being dealt with; the three behind it are what it can look ahead to.
pub struct Compactor {
    window: [PixelRange; 4],
}

impl View for Compactor {
    type V = Seq<PixelRange>;

    /// The four slots of the window, front first.
    closed spec fn view(&self) -> Seq<PixelRange> {
        self.window@
    }
}

impl Compactor {
    #[verifier::type_invariant]
    spec fn well_formed(self) -> bool {
        all_valid(self.window@)
    }

    /// The runs that have entered the window and were not yet encoded.
    pub open spec fn pending(&self) -> Seq<PixelRange> {
        self@.skip(1)
    }

    /// A compactor with an empty window.
    pub fn new() -> (compactor: Self)
        ensures
            compactor@ == empty_window(),
    {
        let compactor = Compactor { window: [PixelRange::empty(); 4] };
        assert(compactor.window@ =~= empty_window());
        compactor
    }

    /// Lets `range` enter the window and deals with the slot that reaches
    /// the front: returns the byte that this gives, if any.
    pub fn push(&mut self, range: PixelRange) -> (byte: Option<u8>)
        requires
            range.valid(),
        ensures
            final(self)@.len() == 4,
            (final(self)@, byte) == step(old(self)@, range),
    {
        proof {
            use_type_invariant(&*self);
        }
        let w0 = self.window[1];
        let w1 = self.window[2];
        let w2 = self.window[3];
        let w3 = range;
        let ghost w = shift(self@, range);
        assert(w =~= seq![w0, w1, w2, w3]);
        if w0.run == 1 && w1.run == 1 && w2.run == 1 && w3.run == 1 && w0.color == w2.color
            && w1.color == w3.color {
            let byte = encode_pair(w0.color, w1.color, true);
            self.window = [PixelRange::empty(); 4];
            assert(self.window@ =~= empty_window());
            Some(byte)
        } else if w0.run == 1 && w1.run >= 1 {
            let byte = encode_pair(w0.color, w1.color, false);
            let lent = PixelRange { run: w1.run - 1, color: w1.color };
            self.window = [PixelRange::empty(), lent, w2, w3];
            assert(self.window@ =~= seq![empty_range(), lend_one(w[1]), w[2], w[3]]);
            Some(byte)
        } else if w0.run != 0 {
            let byte = encode_range(w0);
            self.window = [PixelRange::empty(), w1, w2, w3];
            assert(self.window@ =~= seq![empty_range(), w[1], w[2], w[3]]);
            Some(byte)
        } else {
            self.window = [w0, w1, w2, w3];
            assert(self.window@ =~= w);
            None
        }
    }

    /// Drives everything still in the window out, by letting four
    /// placeholders enter. Returns the bytes of the pending runs and leaves
    /// the window empty.
    pub fn flush(&mut self) -> (bytes: Vec<u8>)
        ensures
            bytes@ == compact_spec(old(self).pending()),
            final(self)@ == empty_window(),
    {
        let mut bytes: Vec<u8> = Vec::new();
        let ghost start = self.pending();
        let mut entered: usize = 0;
        proof {
            use_type_invariant(&*self);
            assert(start + placeholders(4) =~= self.pending() + placeholders(4));
        }
        while entered < WINDOW_SIZE
            invariant
                entered <= 4,
                self@.len() == 4,
                forall|k: int| 4 - entered <= k < 4 ==> self@[k] == empty_range(),
                bytes@ + compact_spec(self.pending() + placeholders((4 - entered) as nat))
                    == compact_spec(start + placeholders(4)),
            decreases 4 - entered,
        {
            let ghost before = self@;
            let ghost left = placeholders((3 - entered) as nat);
            let byte = self.push(PixelRange::empty());
            proof {
                lemma_step_follows_spec(before, empty_range(), left);
                assert(before.skip(1) + seq![empty_range()] + left =~= before.skip(1)
                    + placeholders((4 - entered) as nat));
            }
            append_emitted(&mut bytes, byte);
            entered += 1;
        }
        proof {
            assert(self.pending() + placeholders(0) =~= self.pending());
            assert(self.pending() =~= placeholders(3));
            lemma_compact_leading_empties(placeholders(3), Seq::empty());
            assert(placeholders(3) + Seq::<PixelRange>::empty() =~= placeholders(3));
            assert(compact_spec(Seq::<PixelRange>::empty()) =~= Seq::<u8>::empty());
            lemma_compact_trailing_empties(start, placeholders(4));
            assert(self@ =~= empty_window());
            assert(bytes@ + Seq::<u8>::empty() =~= bytes@);
        }
        bytes
    }
}

/// Encodes a sequence of runs: the bytes of [`compact_spec`], in order.
pub fn compact(ranges: &[PixelRange]) -> (bytes: Vec<u8>)
    requires
        all_valid(ranges@),
    ensures
        bytes@ == compact_spec(ranges@),
{
    let mut compactor = Compactor::new();
    let mut bytes: Vec<u8> = Vec::new();
    let mut i: usize = 0;
    proof {
        assert(compactor.pending() + ranges@.skip(0) =~= placeholders(3) + ranges@);
        lemma_compact_leading_empties(placeholders(3), ranges@);
        assert(bytes@ + compact_spec(ranges@) =~= compact_spec(ranges@));
    }
    while i < ranges.len()
        invariant
            i <= ranges.len(),
            all_valid(ranges@),
            compactor@.len() == 4,
            bytes@ + compact_spec(compactor.pending() + ranges@.skip(i as int)) == compact_spec(
                ranges@,
            ),
        decreases ranges.len() - i,
    {
        let ghost before = compactor@;
        let ghost rest = ranges@.skip(i + 1);
        let range = ranges[i];
        assert(before.skip(1) + seq![range] + rest =~= before.skip(1) + ranges@.skip(i as int));
        let byte = compactor.push(range);
        proof {
            lemma_step_follows_spec(before, range, rest);
        }
        append_emitted(&mut bytes, byte);
        i += 1;
    }
    let ghost pending = compactor.pending();
    let mut tail = compactor.flush();
    proof {
        assert(pending + ranges@.skip(i as int) =~= pending);
    }
    bytes.append(&mut tail);
    bytes
}

} // verus!
