//! The run-length segmenter: cuts a stream of palette indices into runs of
//! identical indices, none longer than fifteen.

use crate::range::{all_indices, all_valid, expand, repeat, PixelRange, MAX_RUN};
use vstd::prelude::*;

verus! {

/// Length of the run that `indices` starts with, capped at fifteen.
pub open spec fn run_len(indices: Seq<u8>) -> nat
    decreases indices.len(),
{
    if indices.len() == 0 {
        0
    } else if indices.len() == 1 || indices[1] != indices[0] {
        1
    } else {
        let behind = run_len(indices.skip(1));
        if behind < 15 {
            behind + 1
        } else {
            15
        }
    }
}

/// The runs of an index stream: the run it starts with, capped at fifteen,
/// then the runs of what follows.
pub open spec fn segments(indices: Seq<u8>) -> Seq<PixelRange>
    decreases indices.len(),
    via segments_decreases
{
    if indices.len() == 0 {
        Seq::empty()
    } else {
        seq![PixelRange { run: run_len(indices) as u8, color: indices[0] }] + segments(
            indices.skip(run_len(indices) as int),
        )
    }
}

#[via_fn]
proof fn segments_decreases(indices: Seq<u8>) {
    if indices.len() != 0 {
        lemma_run_len(indices);
    }
}

/// What `run_len` is: the pixels it counts all equal the first, it stops at
/// fifteen or at the end, and short of those only at a different pixel.
pub proof fn lemma_run_len(indices: Seq<u8>)
    requires
        indices.len() > 0,
    ensures
        1 <= run_len(indices) <= 15,
        run_len(indices) <= indices.len(),
        forall|i: int| 0 <= i < run_len(indices) ==> #[trigger] indices[i] == indices[0],
        run_len(indices) < 15 && run_len(indices) < indices.len() ==> indices[run_len(
            indices,
        ) as int] != indices[0],
    decreases indices.len(),
{
    if indices.len() == 1 || indices[1] != indices[0] {
    } else {
        let tail = indices.skip(1);
        lemma_run_len(tail);
        assert forall|i: int| 0 <= i < run_len(indices) implies #[trigger] indices[i] == indices[0] by {
            if i > 0 {
                assert(indices[i] == tail[i - 1]);
                assert(tail[0] == indices[1]);
            }
        }
        if run_len(indices) < 15 && run_len(indices) < indices.len() {
            assert(run_len(indices) == run_len(tail) + 1);
            assert(indices[run_len(indices) as int] == tail[run_len(tail) as int]);
            assert(tail[0] == indices[0]);
        }
    }
}

/// Only one length fits the description of [`lemma_run_len`].
pub proof fn lemma_run_len_unique(indices: Seq<u8>, n: nat)
    requires
        indices.len() > 0,
        1 <= n <= 15,
        n <= indices.len(),
        forall|i: int| 0 <= i < n ==> #[trigger] indices[i] == indices[0],
        n < 15 && n < indices.len() ==> indices[n as int] != indices[0],
    ensures
        run_len(indices) == n,
{
    lemma_run_len(indices);
    let m = run_len(indices);
    if n < m {
        assert(indices[n as int] == indices[0]);
    } else if m < n {
        assert(indices[m as int] == indices[0]);
    }
}

/// Every run of `segments` is valid and not empty.
pub proof fn lemma_segments_valid(indices: Seq<u8>)
    requires
        all_indices(indices),
    ensures
        all_valid(segments(indices)),
        forall|k: int| 0 <= k < segments(indices).len() ==> 1 <= (#[trigger] segments(
            indices,
        )[k]).run <= 15,
    decreases indices.len(),
{
    if indices.len() != 0 {
        lemma_run_len(indices);
        let rest = indices.skip(run_len(indices) as int);
        lemma_segments_valid(rest);
        let head = PixelRange { run: run_len(indices) as u8, color: indices[0] };
        assert forall|k: int| 0 <= k < segments(indices).len() implies (#[trigger] segments(
            indices,
        )[k]).valid() && 1 <= segments(indices)[k].run <= 15 by {
            if k == 0 {
                assert(segments(indices)[0] == head);
            } else {
                assert(segments(indices)[k] == segments(rest)[k - 1]);
            }
        }
    }
}

/// The runs of `segments` stand for exactly the pixels they were cut from.
pub proof fn lemma_segments_expand(indices: Seq<u8>)
    ensures
        expand(segments(indices)) == indices,
    decreases indices.len(),
{
    if indices.len() == 0 {
        assert(expand(segments(indices)) =~= indices);
    } else {
        lemma_run_len(indices);
        let n = run_len(indices);
        let rest = indices.skip(n as int);
        let head = PixelRange { run: n as u8, color: indices[0] };
        lemma_segments_expand(rest);
        let segs = segments(indices);
        assert(segs[0] == head);
        assert(segs.skip(1) =~= segments(rest));
        assert(repeat(indices[0], n) =~= indices.take(n as int));
        assert(indices.take(n as int) + rest =~= indices);
    }
}

/// Every run of `segments` is as long as it can be: where two neighbours
/// share an index, the first of them is a full fifteen.
pub proof fn lemma_segments_maximal(indices: Seq<u8>)
    ensures
        forall|k: int|
            0 <= k && k + 1 < segments(indices).len() && (#[trigger] segments(indices)[k]).color
                == segments(indices)[k + 1].color ==> segments(indices)[k].run == 15,
    decreases indices.len(),
{
    if indices.len() != 0 {
        lemma_run_len(indices);
        let n = run_len(indices);
        let rest = indices.skip(n as int);
        lemma_segments_maximal(rest);
        let segs = segments(indices);
        assert forall|k: int|
            0 <= k && k + 1 < segs.len() && (#[trigger] segs[k]).color == segs[k + 1].color implies segs[k].run
            == 15 by {
            if k == 0 {
                assert(segs[1] == segments(rest)[0]);
                assert(rest.len() > 0);
                assert(segments(rest)[0].color == rest[0]);
                assert(rest[0] == indices[n as int]);
            } else {
                assert(segs[k] == segments(rest)[k - 1]);
                assert(segs[k + 1] == segments(rest)[k]);
            }
        }
    }
}

/// The run that `index` belongs to, given the run in progress before it:
/// one more pixel of that run, or the start of a new one.
pub open spec fn grow(pending: Option<PixelRange>, index: u8) -> PixelRange {
    match pending {
        Some(range) if range.color == index && range.run < 15 => PixelRange {
            run: (range.run + 1) as u8,
            color: index,
        },
        _ => PixelRange { run: 1, color: index },
    }
}

/// The run that `index` closes, given the run in progress before it: that
/// run, if `index` differs from it or it is already fifteen long.
pub open spec fn closed_by(pending: Option<PixelRange>, index: u8) -> Option<PixelRange> {
    match pending {
        Some(range) if range.color == index && range.run < 15 => None,
        _ => pending,
    }
}

/// The last run of a run sequence, if there is one.
pub open spec fn last_of(ranges: Seq<PixelRange>) -> Option<PixelRange> {
    if ranges.len() == 0 {
        None
    } else {
        Some(ranges.last())
    }
}

/// A run sequence without its last run.
pub open spec fn closed_of(ranges: Seq<PixelRange>) -> Seq<PixelRange> {
    if ranges.len() == 0 {
        ranges
    } else {
        ranges.drop_last()
    }
}

/// The runs that are closed, followed by the run in progress, if any.
pub open spec fn with_pending(closed: Seq<PixelRange>, pending: Option<PixelRange>) -> Seq<
    PixelRange,
> {
    match pending {
        Some(range) => closed.push(range),
        None => closed,
    }
}

/// One more pixel at the end of the stream either lengthens the last run or
/// opens a new one behind it; the runs before stay as they are.
pub proof fn lemma_segments_push(indices: Seq<u8>, index: u8)
    ensures
        segments(indices.push(index)) == with_pending(
            closed_of(segments(indices)),
            closed_by(last_of(segments(indices)), index),
        ).push(grow(last_of(segments(indices)), index)),
    decreases indices.len(),
{
    let longer = indices.push(index);
    let segs = segments(indices);
    if indices.len() == 0 {
        assert(longer.len() == 1);
        assert(run_len(longer) == 1);
        assert(longer.skip(1) =~= Seq::<u8>::empty());
        assert(segments(longer.skip(1)) =~= Seq::<PixelRange>::empty());
        assert(segments(longer) =~= seq![PixelRange { run: 1, color: index }]);
        assert(segs =~= Seq::<PixelRange>::empty());
        assert(with_pending(closed_of(segs), closed_by(last_of(segs), index)).push(
            grow(last_of(segs), index),
        ) =~= seq![PixelRange { run: 1, color: index }]);
    } else {
        lemma_run_len(indices);
        let n = run_len(indices);
        let head = PixelRange { run: n as u8, color: indices[0] };
        let rest = indices.skip(n as int);
        assert(segs =~= seq![head] + segments(rest));
        if n < indices.len() {
            // The first run ends inside `indices`: the new pixel belongs to what follows it.
            assert forall|i: int| 0 <= i < n implies #[trigger] longer[i] == longer[0] by {
                assert(longer[i] == indices[i]);
            }
            assert(longer[n as int] == indices[n as int]);
            lemma_run_len_unique(longer, n);
            assert(longer.skip(n as int) =~= rest.push(index));
            lemma_segments_push(rest, index);
            let tail = segments(rest);
            assert(rest.len() > 0);
            lemma_run_len(rest);
            assert(tail.len() > 0);
            assert(last_of(segs) == last_of(tail));
            assert(closed_of(segs) =~= seq![head] + closed_of(tail));
            let pending = closed_by(last_of(tail), index);
            assert(with_pending(closed_of(segs), pending) =~= seq![head] + with_pending(
                closed_of(tail),
                pending,
            ));
            assert(segments(longer) =~= seq![head] + segments(rest.push(index)));
            assert(segments(longer) =~= with_pending(closed_of(segs), pending).push(
                grow(last_of(segs), index),
            ));
        } else {
            // All of `indices` is one run.
            assert(rest =~= Seq::<u8>::empty());
            assert(segments(rest) =~= Seq::<PixelRange>::empty());
            assert(segs =~= seq![head]);
            assert(last_of(segs) == Some(head));
            assert(closed_of(segs) =~= Seq::<PixelRange>::empty());
            if index == indices[0] && n < 15 {
                assert forall|i: int| 0 <= i < n + 1 implies #[trigger] longer[i] == longer[0] by {
                    if i < n {
                        assert(longer[i] == indices[i]);
                    }
                }
                lemma_run_len_unique(longer, n + 1);
                assert(longer.skip(n as int + 1) =~= Seq::<u8>::empty());
                assert(segments(longer.skip(n as int + 1)) =~= Seq::<PixelRange>::empty());
                assert(segments(longer) =~= seq![PixelRange { run: (n + 1) as u8, color: index }]);
                assert(with_pending(closed_of(segs), closed_by(last_of(segs), index)).push(
                    grow(last_of(segs), index),
                ) =~= seq![PixelRange { run: (n + 1) as u8, color: index }]);
            } else {
                assert forall|i: int| 0 <= i < n implies #[trigger] longer[i] == longer[0] by {
                    assert(longer[i] == indices[i]);
                }
                assert(longer[n as int] == index);
                lemma_run_len_unique(longer, n);
                let last = longer.skip(n as int);
                assert(last =~= seq![index]);
                assert(run_len(last) == 1);
                assert(last.skip(1) =~= Seq::<u8>::empty());
                assert(segments(last.skip(1)) =~= Seq::<PixelRange>::empty());
                assert(segments(last) =~= seq![PixelRange { run: 1, color: index }]);
                assert(segments(longer) =~= seq![head, PixelRange { run: 1, color: index }]);
                assert(with_pending(closed_of(segs), closed_by(last_of(segs), index)).push(
                    grow(last_of(segs), index),
                ) =~= seq![head, PixelRange { run: 1, color: index }]);
            }
        }
    }
}

/// The segmenter's state: the run in progress, if a pixel has come in yet.
pub struct Segmenter {
    prev: Option<u8>,
    count: u8,
}

impl Segmenter {
    #[verifier::type_invariant]
    spec fn well_formed(self) -> bool {
        &&& 1 <= self.count <= 15
        &&& self.prev matches Some(index) ==> index < 8
    }

    /// The run in progress: the index last seen, and how many pixels of it
    /// have come in a row since the last run was closed.
    pub closed spec fn pending(&self) -> Option<PixelRange> {
        match self.prev {
            Some(index) => Some(PixelRange { run: self.count, color: index }),
            None => None,
        }
    }

    /// A segmenter that has seen no pixel.
    pub fn new() -> (segmenter: Self)
        ensures
            segmenter.pending() is None,
    {
        Segmenter { prev: None, count: 1 }
    }

    /// Takes the next pixel. Returns the run that it closes, if it closes one.
    pub fn push(&mut self, index: u8) -> (closed: Option<PixelRange>)
        requires
            index < 8,
        ensures
            closed == closed_by(old(self).pending(), index),
            final(self).pending() == Some(grow(old(self).pending(), index)),
            closed matches Some(range) ==> range.valid() && range.run >= 1,
    {
        proof {
            use_type_invariant(&*self);
        }
        match self.prev {
            Some(prev) => {
                if prev == index && self.count < MAX_RUN {
                    self.count = self.count + 1;
                    None
                } else {
                    let closed = PixelRange { run: self.count, color: prev };
                    self.prev = Some(index);
                    self.count = 1;
                    Some(closed)
                }
            },
            None => {
                self.prev = Some(index);
                self.count = 1;
                None
            },
        }
    }

    /// Ends the stream. Returns the run in progress, if there is one, and
    /// leaves the segmenter as new.
    pub fn finish(&mut self) -> (closed: Option<PixelRange>)
        ensures
            closed == old(self).pending(),
            final(self).pending() is None,
            closed matches Some(range) ==> range.valid() && range.run >= 1,
    {
        proof {
            use_type_invariant(&*self);
        }
        let closed = match self.prev {
            Some(prev) => Some(PixelRange { run: self.count, color: prev }),
            None => None,
        };
        self.prev = None;
        self.count = 1;
        closed
    }
}

/// Cuts an index stream into its runs.
pub fn segment(indices: &[u8]) -> (ranges: Vec<PixelRange>)
    requires
        all_indices(indices@),
    ensures
        ranges@ == segments(indices@),
        all_valid(ranges@),
{
    let mut segmenter = Segmenter::new();
    let mut ranges: Vec<PixelRange> = Vec::new();
    let mut i: usize = 0;
    proof {
        assert(indices@.take(0) =~= Seq::<u8>::empty());
        assert(segments(indices@.take(0)) =~= Seq::<PixelRange>::empty());
    }
    while i < indices.len()
        invariant
            i <= indices.len(),
            all_indices(indices@),
            ranges@ == closed_of(segments(indices@.take(i as int))),
            segmenter.pending() == last_of(segments(indices@.take(i as int))),
        decreases indices.len() - i,
    {
        let ghost before = indices@.take(i as int);
        let ghost earlier = ranges@;
        let index = indices[i];
        proof {
            lemma_segments_push(before, index);
            assert(indices@.take(i + 1) =~= before.push(index));
        }
        let closed = segmenter.push(index);
        match closed {
            Some(range) => {
                ranges.push(range);
            },
            None => {},
        }
        proof {
            let grown = grow(last_of(segments(before)), index);
            let now = segments(indices@.take(i + 1));
            assert(ranges@ =~= with_pending(earlier, closed));
            assert(now == ranges@.push(grown));
            assert(now.drop_last() =~= ranges@);
        }
        i += 1;
    }
    let last = segmenter.finish();
    match last {
        Some(range) => {
            ranges.push(range);
        },
        None => {},
    }
    proof {
        assert(indices@.take(i as int) =~= indices@);
        let segs = segments(indices@);
        if segs.len() > 0 {
            assert(segs =~= segs.drop_last().push(segs.last()));
        }
        assert(ranges@ =~= segs);
        lemma_segments_valid(indices@);
    }
    ranges
}

} // verus!
