//! The aggregate algebra: a monoid over per-event summaries, and the concrete
//! aggregates shipped with the library.

use crate::trace::{BlockPool, Track, TraceBlock, TraceEvent};
use vstd::prelude::*;

verus! {

/// A monoid over event summaries: an identity element, a lift from a single
/// event, and an associative combine. `from_block` aggregates a whole block
/// and may be overridden by implementations that can scan directly.
pub trait Aggregate: Sized + Copy {
    /// The identity element, as a mathematical value.
    spec fn spec_empty() -> Self;

    /// The lift of one event, as a mathematical value.
    spec fn spec_from_event(ev: TraceEvent) -> Self;

    /// The combine of two aggregates, as a mathematical value.
    spec fn spec_combine(a: Self, b: Self) -> Self;

    /// The aggregate of a run of events, as a mathematical value: the fold of
    /// the events' lifts from the identity, see
    /// [`lemma_from_block_fold`](Self::lemma_from_block_fold).
    spec fn spec_from_block(evs: Seq<TraceEvent>) -> Self;

    /// Combine is associative.
    proof fn lemma_combine_assoc(a: Self, b: Self, c: Self)
        ensures
            Self::spec_combine(Self::spec_combine(a, b), c) == Self::spec_combine(
                a,
                Self::spec_combine(b, c),
            ),
    ;

    /// The empty aggregate is an identity for combine, on both sides.
    proof fn lemma_combine_identity(a: Self)
        ensures
            Self::spec_combine(Self::spec_empty(), a) == a,
            Self::spec_combine(a, Self::spec_empty()) == a,
    ;

    /// The block aggregate is the fold of the events' lifts.
    proof fn lemma_from_block_fold(evs: Seq<TraceEvent>)
        ensures
            evs.len() == 0 ==> Self::spec_from_block(evs) == Self::spec_empty(),
            evs.len() > 0 ==> Self::spec_from_block(evs) == Self::spec_combine(
                Self::spec_from_block(evs.drop_last()),
                Self::spec_from_event(evs.last()),
            ),
    ;

    /// The identity element.
    fn empty() -> (r: Self)
        ensures
            r == Self::spec_empty(),
    ;

    /// The aggregate of a single event.
    fn from_event(ev: &TraceEvent) -> (r: Self)
        ensures
            r == Self::spec_from_event(*ev),
    ;

    /// Combines two aggregates.
    fn combine(&self, other: &Self) -> (r: Self)
        ensures
            r == Self::spec_combine(*self, *other),
    ;

    /// The aggregate of a whole block: the fold of its events.
    fn from_block(block: &TraceBlock) -> (r: Self)
        requires
            block.wf(),
        ensures
            r == Self::spec_from_block(block@),
    ;
}

/// The fold of `evs` into `init`, combining the lift of each event from the
/// left in order.
pub open spec fn events_agg<A: Aggregate>(init: A, evs: Seq<TraceEvent>) -> A
    decreases evs.len(),
{
    if evs.len() == 0 {
        init
    } else {
        A::spec_combine(events_agg(init, evs.drop_last()), A::spec_from_event(evs.last()))
    }
}

/// The aggregate of a run of events, folded from the identity.
pub open spec fn block_agg<A: Aggregate>(evs: Seq<TraceEvent>) -> A {
    events_agg(A::spec_empty(), evs)
}

/// In every implementation the block aggregate is the fold of the events.
pub proof fn lemma_block_agg_is_from_block<A: Aggregate>(evs: Seq<TraceEvent>)
    ensures
        A::spec_from_block(evs) == block_agg::<A>(evs),
    decreases evs.len(),
{
    A::lemma_from_block_fold(evs);
    if evs.len() > 0 {
        lemma_block_agg_is_from_block::<A>(evs.drop_last());
    }
}

/// Folding a concatenation folds the two halves in order.
pub proof fn lemma_events_agg_concat<A: Aggregate>(init: A, a: Seq<TraceEvent>, b: Seq<TraceEvent>)
    ensures
        events_agg(init, a + b) == events_agg(events_agg(init, a), b),
    decreases b.len(),
{
    if b.len() == 0 {
        assert(a + b =~= a);
    } else {
        lemma_events_agg_concat(init, a, b.drop_last());
        assert((a + b).drop_last() =~= a + b.drop_last());
        assert((a + b).last() == b.last());
    }
}

/// Folding into `x` equals combining `x` with the fold from the identity.
pub proof fn lemma_events_agg_combine<A: Aggregate>(x: A, evs: Seq<TraceEvent>)
    ensures
        events_agg(x, evs) == A::spec_combine(x, block_agg::<A>(evs)),
    decreases evs.len(),
{
    if evs.len() == 0 {
        A::lemma_combine_identity(x);
    } else {
        lemma_events_agg_combine(x, evs.drop_last());
        A::lemma_combine_assoc(x, block_agg::<A>(evs.drop_last()), A::spec_from_event(evs.last()));
    }
}

/// Builds an index over every block of a track, in track order.
pub trait TrackIndex<A: Aggregate>: Sized {
    /// What an index of this kind states about the track it was built from.
    spec fn models(&self, track: Track, pool: BlockPool) -> bool;

    /// Walks the track's blocks in order and indexes each one.
    fn build(track: &Track, pool: &BlockPool) -> (r: Self)
        requires
            track.wf(pool),
            track.block_locs@.len() < usize::MAX as int / 2,
        ensures
            r.models(*track, *pool),
    ;
}

/// The event with the greatest duration, if any; ties keep the earlier (left)
/// event.
#[derive(Clone, Copy)]
pub struct LongestEvent(pub Option<TraceEvent>);

impl Aggregate for LongestEvent {
    open spec fn spec_empty() -> Self {
        LongestEvent(None)
    }

    open spec fn spec_from_event(ev: TraceEvent) -> Self {
        LongestEvent(Some(ev))
    }

    open spec fn spec_combine(a: Self, b: Self) -> Self {
        match (a.0, b.0) {
            (Option::None, _) => b,
            (Option::Some(_), Option::None) => a,
            (Option::Some(x), Option::Some(y)) => if y.dur@ > x.dur@ {
                b
            } else {
                a
            },
        }
    }

    open spec fn spec_from_block(evs: Seq<TraceEvent>) -> Self
        decreases evs.len(),
    {
        if evs.len() == 0 {
            Self::spec_empty()
        } else {
            Self::spec_combine(
                Self::spec_from_block(evs.drop_last()),
                Self::spec_from_event(evs.last()),
            )
        }
    }

    proof fn lemma_combine_assoc(a: Self, b: Self, c: Self) {
    }

    proof fn lemma_combine_identity(a: Self) {
    }

    proof fn lemma_from_block_fold(evs: Seq<TraceEvent>) {
    }

    fn empty() -> (r: Self) {
        LongestEvent(None)
    }

    fn from_event(ev: &TraceEvent) -> (r: Self) {
        LongestEvent(Some(*ev))
    }

    fn combine(&self, other: &Self) -> (r: Self) {
        match (&self.0, &other.0) {
            (Option::None, _) => *other,
            (Option::Some(_), Option::None) => *self,
            (Option::Some(x), Option::Some(y)) => if y.dur.unpack() > x.dur.unpack() {
                *other
            } else {
                *self
            },
        }
    }

    /// Scans the block directly for its longest event.
    fn from_block(block: &TraceBlock) -> (r: Self) {
        let evs = block.events();
        let mut best: Option<TraceEvent> = None;
        let mut j: usize = 0;
        while j < evs.len()
            invariant
                j <= evs.len(),
                evs@ == block@,
                LongestEvent(best) == Self::spec_from_block(block@.take(j as int)),
            decreases evs.len() - j,
        {
            let ev = evs[j];
            match &best {
                Option::None => {
                    best = Some(ev);
                },
                Option::Some(b) => {
                    if ev.dur.unpack() > b.dur.unpack() {
                        best = Some(ev);
                    }
                },
            }
            proof {
                assert(block@.take(j + 1 as int).drop_last() =~= block@.take(j as int));
                assert(block@.take(j + 1 as int).last() == block@[j as int]);
            }
            j = j + 1;
        }
        proof {
            assert(block@.take(evs@.len() as int) =~= block@);
        }
        LongestEvent(best)
    }
}

/// The number of events, summed modulo `usize::MAX + 1`.
#[derive(Clone, Copy, PartialEq, Eq, Debug)]
pub struct EventCount(pub usize);

impl Aggregate for EventCount {
    open spec fn spec_empty() -> Self {
        EventCount(0)
    }

    open spec fn spec_from_event(ev: TraceEvent) -> Self {
        EventCount(1)
    }

    open spec fn spec_combine(a: Self, b: Self) -> Self {
        if a.0 + b.0 > usize::MAX {
            EventCount(((a.0 + b.0) - (usize::MAX + 1)) as usize)
        } else {
            EventCount((a.0 + b.0) as usize)
        }
    }

    open spec fn spec_from_block(evs: Seq<TraceEvent>) -> Self
        decreases evs.len(),
    {
        if evs.len() == 0 {
            Self::spec_empty()
        } else {
            Self::spec_combine(
                Self::spec_from_block(evs.drop_last()),
                Self::spec_from_event(evs.last()),
            )
        }
    }

    proof fn lemma_combine_assoc(a: Self, b: Self, c: Self) {
    }

    proof fn lemma_combine_identity(a: Self) {
    }

    proof fn lemma_from_block_fold(evs: Seq<TraceEvent>) {
    }

    fn empty() -> (r: Self) {
        EventCount(0)
    }

    fn from_event(ev: &TraceEvent) -> (r: Self) {
        EventCount(1)
    }

    fn combine(&self, other: &Self) -> (r: Self) {
        EventCount(self.0.wrapping_add(other.0))
    }

    fn from_block(block: &TraceBlock) -> (r: Self) {
        let evs = block.events();
        let mut r = EventCount(0);
        let mut j: usize = 0;
        while j < evs.len()
            invariant
                j <= evs.len(),
                evs@ == block@,
                r == Self::spec_from_block(block@.take(j as int)),
            decreases evs.len() - j,
        {
            r = r.combine(&Self::from_event(&evs[j]));
            proof {
                assert(block@.take(j + 1 as int).drop_last() =~= block@.take(j as int));
                assert(block@.take(j + 1 as int).last() == block@[j as int]);
            }
            j = j + 1;
        }
        proof {
            assert(block@.take(evs@.len() as int) =~= block@);
        }
        r
    }
}

/// The sum of event timestamps modulo `u64::MAX + 1`; primarily a testing
/// aggregate.
#[derive(Clone, Copy, PartialEq, Eq, Debug)]
pub struct TsSum(pub u64);

impl Aggregate for TsSum {
    open spec fn spec_empty() -> Self {
        TsSum(0)
    }

    open spec fn spec_from_event(ev: TraceEvent) -> Self {
        TsSum(ev.ts@)
    }

    open spec fn spec_combine(a: Self, b: Self) -> Self {
        if a.0 + b.0 > u64::MAX {
            TsSum(((a.0 + b.0) - (u64::MAX + 1)) as u64)
        } else {
            TsSum((a.0 + b.0) as u64)
        }
    }

    open spec fn spec_from_block(evs: Seq<TraceEvent>) -> Self
        decreases evs.len(),
    {
        if evs.len() == 0 {
            Self::spec_empty()
        } else {
            Self::spec_combine(
                Self::spec_from_block(evs.drop_last()),
                Self::spec_from_event(evs.last()),
            )
        }
    }

    proof fn lemma_combine_assoc(a: Self, b: Self, c: Self) {
    }

    proof fn lemma_combine_identity(a: Self) {
    }

    proof fn lemma_from_block_fold(evs: Seq<TraceEvent>) {
    }

    fn empty() -> (r: Self) {
        TsSum(0)
    }

    fn from_event(ev: &TraceEvent) -> (r: Self) {
        TsSum(ev.ts.unpack())
    }

    fn combine(&self, other: &Self) -> (r: Self) {
        TsSum(self.0.wrapping_add(other.0))
    }

    fn from_block(block: &TraceBlock) -> (r: Self) {
        let evs = block.events();
        let mut r = TsSum(0);
        let mut j: usize = 0;
        while j < evs.len()
            invariant
                j <= evs.len(),
                evs@ == block@,
                r == Self::spec_from_block(block@.take(j as int)),
            decreases evs.len() - j,
        {
            r = r.combine(&Self::from_event(&evs[j]));
            proof {
                assert(block@.take(j + 1 as int).drop_last() =~= block@.take(j as int));
                assert(block@.take(j + 1 as int).last() == block@[j as int]);
            }
            j = j + 1;
        }
        proof {
            assert(block@.take(evs@.len() as int) =~= block@);
        }
        r
    }
}

} // verus!
