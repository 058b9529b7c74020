//! An append-only aggregation index over timestamped trace events.
//!
//! Events are packed into fixed-capacity blocks owned by a pool; a track is an
//! ordered list of block indices. An implicit-forest index maintains monoid
//! aggregates over a track's blocks and answers arbitrary half-open range
//! combines, and a bucketed step aggregator reduces the events of a time range
//! into one aggregate per time bucket.

pub mod iforest;
pub mod index;
pub mod trace;

use crate::iforest::{agg_range, IForestIndex};
use crate::index::{events_agg, lemma_block_agg_is_from_block, lemma_events_agg_combine, Aggregate};
use crate::trace::{ev_at, events_ordered, track_events, BlockIndex, BlockPool, Ns, TraceEvent};
use core::ops::Range;
use vstd::prelude::*;

verus! {

/// Termination measure for a bucket-boundary sweep: how many times the bucket
/// cursor can still advance before it passes the event.
pub open spec fn drain_fuel(tau: int, ts: int) -> int {
    if tau <= ts {
        ts - tau + 1
    } else {
        0
    }
}

/// One bucket-boundary sweep: while the event at `ts` lies at or past the
/// bucket end `tau`, the running aggregate is emitted and the cursor advances
/// by `step`, stopping for good once the cursor has reached `t1`. Yields the
/// emitted buckets, the running aggregate, the new cursor, and whether the
/// sweep is still live.
pub open spec fn drain<A: Aggregate>(acc: A, tau: int, ts: int, t1: int, step: int) -> (
    Seq<A>,
    A,
    int,
    bool,
)
    decreases drain_fuel(tau, ts),
        when step >= 1
{
    if ts < tau {
        (Seq::<A>::empty(), acc, tau, true)
    } else if tau >= t1 {
        (seq![acc], A::spec_empty(), tau, false)
    } else {
        let r = drain::<A>(A::spec_empty(), tau + step, ts, t1, step);
        (seq![acc] + r.0, r.1, r.2, r.3)
    }
}

/// Feeds one event to the bucket machine: a dead machine ignores it; a live
/// one sweeps the bucket boundaries up to the event and, if still live,
/// folds the event into the running aggregate.
pub open spec fn event_step<A: Aggregate>(
    st: (Seq<A>, A, int, bool),
    ev: TraceEvent,
    t1: int,
    step: int,
) -> (Seq<A>, A, int, bool) {
    if !st.3 {
        st
    } else {
        let d = drain::<A>(st.1, st.2, ev.ts@ as int, t1, step);
        if d.3 {
            (st.0 + d.0, A::spec_combine(d.1, A::spec_from_event(ev)), d.2, true)
        } else {
            (st.0 + d.0, d.1, d.2, false)
        }
    }
}

/// Runs the bucket machine over a sequence of events from a given state.
pub open spec fn run_from<A: Aggregate>(
    st: (Seq<A>, A, int, bool),
    evs: Seq<TraceEvent>,
    t1: int,
    step: int,
) -> (Seq<A>, A, int, bool)
    decreases evs.len(),
{
    if evs.len() == 0 {
        st
    } else {
        event_step(run_from(st, evs.drop_last(), t1, step), evs.last(), t1, step)
    }
}

/// The machine's starting state: nothing emitted, the identity aggregate,
/// the cursor at the start of the range, live.
pub open spec fn init_state<A: Aggregate>(t0: int) -> (Seq<A>, A, int, bool) {
    (Seq::<A>::empty(), A::spec_empty(), t0, true)
}

/// What the step aggregators return: the buckets emitted by running the
/// machine over all events, plus the trailing bucket when the machine is
/// still live after the last event.
pub open spec fn steps_spec<A: Aggregate>(
    evs: Seq<TraceEvent>,
    t0: int,
    t1: int,
    step: int,
) -> Seq<A> {
    let st = run_from::<A>(init_state::<A>(t0), evs, t1, step);
    if st.3 {
        st.0.push(st.1)
    } else {
        st.0
    }
}

/// Running over a concatenation runs over the halves in order.
pub proof fn lemma_run_from_concat<A: Aggregate>(
    st: (Seq<A>, A, int, bool),
    a: Seq<TraceEvent>,
    b: Seq<TraceEvent>,
    t1: int,
    step: int,
)
    ensures
        run_from(st, a + b, t1, step) == run_from(run_from(st, a, t1, step), b, t1, step),
    decreases b.len(),
{
    if b.len() == 0 {
        assert(a + b =~= a);
    } else {
        lemma_run_from_concat(st, a, b.drop_last(), t1, step);
        assert((a + b).drop_last() =~= a + b.drop_last());
        assert((a + b).last() == b.last());
    }
}

/// A dead machine ignores every further event.
pub proof fn lemma_run_from_dead<A: Aggregate>(
    st: (Seq<A>, A, int, bool),
    evs: Seq<TraceEvent>,
    t1: int,
    step: int,
)
    requires
        !st.3,
    ensures
        run_from(st, evs, t1, step) == st,
    decreases evs.len(),
{
    if evs.len() > 0 {
        lemma_run_from_dead(st, evs.drop_last(), t1, step);
    }
}

/// Events that all lie strictly before the current bucket end fold into the
/// running aggregate without emitting anything.
pub proof fn lemma_run_from_quiet<A: Aggregate>(
    st: (Seq<A>, A, int, bool),
    evs: Seq<TraceEvent>,
    t1: int,
    step: int,
)
    requires
        st.3,
        step >= 1,
        forall|x: int| 0 <= x < evs.len() ==> (#[trigger] evs[x]).ts@ < st.2,
    ensures
        run_from(st, evs, t1, step) == (st.0, events_agg(st.1, evs), st.2, true),
    decreases evs.len(),
{
    if evs.len() > 0 {
        lemma_run_from_quiet(st, evs.drop_last(), t1, step);
    }
}

/// Splitting a prefix of a track's blocks splits its concatenated events.
pub proof fn lemma_track_events_cat(pool: BlockPool, locs: Seq<BlockIndex>, l: int, r: int)
    requires
        0 <= l <= r <= locs.len(),
    ensures
        track_events(pool, locs.take(r)) == track_events(pool, locs.take(l)) + track_events(
            pool,
            locs.subrange(l, r),
        ),
    decreases r - l,
{
    if r == l {
        assert(track_events(pool, locs.subrange(l, r)) =~= Seq::<TraceEvent>::empty());
        assert(track_events(pool, locs.take(l)) + Seq::<TraceEvent>::empty() =~= track_events(
            pool,
            locs.take(l),
        ));
    } else {
        lemma_track_events_cat(pool, locs, l, r - 1);
        assert(locs.take(r).drop_last() =~= locs.take(r - 1));
        assert(locs.take(r).last() == locs[r - 1]);
        assert(locs.subrange(l, r).drop_last() =~= locs.subrange(l, r - 1));
        assert(locs.subrange(l, r).last() == locs[r - 1]);
        let blk = pool.blocks@[locs[r - 1] as int]@;
        assert(track_events(pool, locs.take(r)) == track_events(pool, locs.take(r - 1)) + blk);
        assert(track_events(pool, locs.subrange(l, r)) == track_events(
            pool,
            locs.subrange(l, r - 1),
        ) + blk);
        assert(track_events(pool, locs.take(l)) + (track_events(pool, locs.subrange(l, r - 1))
            + blk) =~= (track_events(pool, locs.take(l)) + track_events(
            pool,
            locs.subrange(l, r - 1),
        )) + blk);
    }
}

/// Every event of the blocks `[l, r)` is below `bound` if every slot of each
/// of those blocks is.
pub proof fn lemma_span_events_lt(
    pool: BlockPool,
    locs: Seq<BlockIndex>,
    l: int,
    r: int,
    bound: u64,
)
    requires
        0 <= l <= r <= locs.len(),
        forall|c: int, j: int|
            l <= c < r && 0 <= j < pool.blocks@[locs[c] as int]@.len() ==> (#[trigger] ev_at(
                pool,
                locs,
                c,
                j,
            )).ts@ < bound,
    ensures
        forall|x: int|
            0 <= x < track_events(pool, locs.subrange(l, r)).len() ==> (#[trigger] track_events(
                pool,
                locs.subrange(l, r),
            )[x]).ts@ < bound,
    decreases r - l,
{
    if r == l {
        assert(track_events(pool, locs.subrange(l, r)) =~= Seq::<TraceEvent>::empty());
    } else {
        lemma_span_events_lt(pool, locs, l, r - 1, bound);
        assert(locs.subrange(l, r).drop_last() =~= locs.subrange(l, r - 1));
        assert(locs.subrange(l, r).last() == locs[r - 1]);
        let blk = pool.blocks@[locs[r - 1] as int]@;
        let a = track_events(pool, locs.subrange(l, r - 1));
        assert(track_events(pool, locs.subrange(l, r)) == a + blk);
        assert forall|x: int| 0 <= x < (a + blk).len() implies (#[trigger] (a + blk)[x]).ts@
            < bound by {
            if x < a.len() {
                assert((a + blk)[x] == a[x]);
                assert(a[x] == track_events(pool, locs.subrange(l, r - 1))[x]);
            } else {
                assert((a + blk)[x] == blk[x - a.len()]);
                assert(blk[x - a.len()] == ev_at(pool, locs, r - 1, x - a.len()));
            }
        }
        assert(forall|x: int|
            0 <= x < track_events(pool, locs.subrange(l, r)).len() ==> (#[trigger] track_events(
                pool,
                locs.subrange(l, r),
            )[x]) == (a + blk)[x]);
    }
}

/// Folding the events of the blocks `[l, r)` into `x` equals combining `x`
/// with the range fold of those blocks' leaf aggregates.
pub proof fn lemma_span_agg<A: Aggregate>(
    x: A,
    pool: BlockPool,
    locs: Seq<BlockIndex>,
    leaves: Seq<A>,
    l: int,
    r: int,
)
    requires
        0 <= l <= r <= locs.len(),
        r <= leaves.len(),
        forall|i: int|
            l <= i < r ==> #[trigger] leaves[i] == A::spec_from_block(
                pool.blocks@[locs[i] as int]@,
            ),
    ensures
        events_agg(x, track_events(pool, locs.subrange(l, r))) == A::spec_combine(
            x,
            agg_range(leaves, l, r),
        ),
    decreases r - l,
{
    if r == l {
        assert(track_events(pool, locs.subrange(l, r)) =~= Seq::<TraceEvent>::empty());
        A::lemma_combine_identity(x);
    } else {
        lemma_span_agg(x, pool, locs, leaves, l, r - 1);
        assert(locs.subrange(l, r).drop_last() =~= locs.subrange(l, r - 1));
        assert(locs.subrange(l, r).last() == locs[r - 1]);
        let blk = pool.blocks@[locs[r - 1] as int]@;
        let a = track_events(pool, locs.subrange(l, r - 1));
        assert(track_events(pool, locs.subrange(l, r)) == a + blk);
        crate::index::lemma_events_agg_concat(x, a, blk);
        lemma_events_agg_combine(events_agg(x, a), blk);
        lemma_block_agg_is_from_block::<A>(blk);
        A::lemma_combine_assoc(x, agg_range(leaves, l, r - 1), leaves[r - 1]);
        crate::iforest::lemma_agg_range_split(leaves, l, r - 1, r);
        assert(agg_range(leaves, r - 1, r) == leaves[r - 1]);
    }
}

/// Range query agrees with a plain scan: the fold the index answers for the
/// block range `[l, r)` — `agg_range` over leaves that hold each block's
/// aggregate, which is what `range_query` returns — equals the fold of every
/// event stored in those blocks.
pub proof fn lemma_range_query_is_scan<A: Aggregate>(
    pool: BlockPool,
    locs: Seq<BlockIndex>,
    leaves: Seq<A>,
    l: int,
    r: int,
)
    requires
        0 <= l <= r <= locs.len(),
        r <= leaves.len(),
        forall|i: int|
            l <= i < r ==> #[trigger] leaves[i] == A::spec_from_block(
                pool.blocks@[locs[i] as int]@,
            ),
    ensures
        agg_range(leaves, l, r) == crate::index::block_agg::<A>(
            track_events(pool, locs.subrange(l, r)),
        ),
{
    lemma_span_agg(A::spec_empty(), pool, locs, leaves, l, r);
    A::lemma_combine_identity(agg_range(leaves, l, r));
}

/// Reduces the events of `time_span` into one aggregate per `time_step`-wide
/// bucket, using the index to combine whole runs of blocks that end before
/// the current bucket boundary and scanning events only near boundaries.
/// Yields exactly the buckets of the unindexed scan.
#[verifier::loop_isolation(false)]
#[verifier::rlimit(100)]
pub fn aggregate_by_steps<A: Aggregate>(
    pool: &BlockPool,
    block_locs: &[BlockIndex],
    index: &IForestIndex<A>,
    time_span: Range<Ns>,
    time_step: u64,
) -> (out: Vec<A>)
    requires
        time_step >= 1,
        time_span.end as int + time_step as int - 1 <= u64::MAX as int,
        forall|i: int|
            0 <= i < block_locs@.len() ==> (#[trigger] block_locs@[i] as int) < pool.blocks@.len(),
        forall|i: int|
            0 <= i < block_locs@.len() ==> (#[trigger] pool.blocks@[block_locs@[i] as int]).wf(),
        forall|i: int|
            0 <= i < block_locs@.len() ==> (#[trigger] pool.blocks@[block_locs@[i] as int])@.len()
                > 0,
        events_ordered(*pool, block_locs@),
        index.wf(),
        index.leaf_count() == block_locs@.len(),
        forall|i: int|
            0 <= i < block_locs@.len() ==> #[trigger] index.leaves()[i] == A::spec_from_block(
                pool.blocks@[block_locs@[i] as int]@,
            ),
    ensures
        out@ == steps_spec::<A>(
            track_events(*pool, block_locs@),
            time_span.start as int,
            time_span.end as int,
            time_step as int,
        ),
{
    let ghost t0g = time_span.start as int;
    let ghost t1g = time_span.end as int;
    let ghost stepg = time_step as int;
    let ghost ini = init_state::<A>(t0g);
    let t1 = time_span.end;
    let mut out: Vec<A> = Vec::new();
    let mut target = time_span.start;
    let mut acc = A::empty();
    let mut alive: bool = true;
    let mut bi: usize = 0;
    while bi < block_locs.len() && alive
        invariant
            bi <= block_locs@.len(),
            ({
                let st = run_from::<A>(
                    ini,
                    track_events(*pool, block_locs@.take(bi as int)),
                    t1g,
                    stepg,
                );
                out@ == st.0 && acc == st.1 && target as int == st.2 && alive == st.3
            }),
        decreases block_locs@.len() - bi,
    {
        // Find the first block at or past the bucket boundary; whole blocks
        // strictly before it can be combined through the index, keeping one
        // overlapping block for the event-level scan.
        let mut lo = bi;
        let mut hi = block_locs.len();
        while lo < hi
            invariant
                bi <= lo <= hi <= block_locs@.len(),
                forall|o: int|
                    bi <= o < lo ==> (
                    #[trigger] pool.blocks@[block_locs@[o] as int]).spec_start_time() < target,
                forall|o: int|
                    hi <= o < block_locs@.len() ==> (
                    #[trigger] pool.blocks@[block_locs@[o] as int]).spec_start_time() >= target,
            decreases hi - lo,
        {
            let mid = lo + (hi - lo) / 2;
            let b = &pool.blocks[block_locs[mid] as usize];
            if b.start_time() < target {
                proof {
                    assert forall|o: int|
                        bi <= o < mid + 1 implies (
                    #[trigger] pool.blocks@[block_locs@[o] as int]).spec_start_time()
                        < target by {
                        assert(ev_at(*pool, block_locs@, o, 0).ts@ <= ev_at(
                            *pool,
                            block_locs@,
                            mid as int,
                            0,
                        ).ts@);
                    }
                }
                lo = mid + 1;
            } else {
                proof {
                    assert forall|o: int|
                        mid <= o < block_locs@.len() implies (
                    #[trigger] pool.blocks@[block_locs@[o] as int]).spec_start_time()
                        >= target by {
                        assert(ev_at(*pool, block_locs@, mid as int, 0).ts@ <= ev_at(
                            *pool,
                            block_locs@,
                            o,
                            0,
                        ).ts@);
                    }
                }
                hi = mid;
            }
        }
        let s = lo - bi;
        if s > 1 {
            let skip = s - 1;
            let ghost pre_bi = bi as int;
            let ghost span = track_events(*pool, block_locs@.subrange(pre_bi, pre_bi + skip as int));
            let q = index.range_query(bi..(bi + skip));
            proof {
                let st = run_from::<A>(
                    ini,
                    track_events(*pool, block_locs@.take(pre_bi)),
                    t1g,
                    stepg,
                );
                assert forall|c: int, j: int|
                    pre_bi <= c < pre_bi + skip as int && 0 <= j
                        < pool.blocks@[block_locs@[c] as int]@.len() implies (#[trigger] ev_at(
                    *pool,
                    block_locs@,
                    c,
                    j,
                )).ts@ < target by {
                    assert(ev_at(*pool, block_locs@, c, j).ts@ <= ev_at(
                        *pool,
                        block_locs@,
                        lo as int - 1,
                        0,
                    ).ts@);
                }
                lemma_span_events_lt(*pool, block_locs@, pre_bi, pre_bi + skip as int, target);
                lemma_run_from_quiet(st, span, t1g, stepg);
                lemma_span_agg(
                    acc,
                    *pool,
                    block_locs@,
                    index.leaves(),
                    pre_bi,
                    pre_bi + skip as int,
                );
                lemma_track_events_cat(*pool, block_locs@, pre_bi, pre_bi + skip as int);
                lemma_run_from_concat(
                    ini,
                    track_events(*pool, block_locs@.take(pre_bi)),
                    span,
                    t1g,
                    stepg,
                );
            }
            acc = acc.combine(&q);
            bi = bi + skip;
        }
        // Scan the events of the current block, emitting a bucket whenever an
        // event reaches the bucket boundary.
        let loc = block_locs[bi];
        let block = &pool.blocks[loc as usize];
        let evs = block.events();
        let ghost prefix0 = track_events(*pool, block_locs@.take(bi as int));
        let mut j: usize = 0;
        while j < evs.len()
            invariant
                j <= evs@.len(),
                bi < block_locs@.len(),
                evs@ == pool.blocks@[block_locs@[bi as int] as int]@,
                prefix0 == track_events(*pool, block_locs@.take(bi as int)),
                ({
                    let st = run_from::<A>(ini, prefix0 + evs@.take(j as int), t1g, stepg);
                    out@ == st.0 && acc == st.1 && target as int == st.2 && alive == st.3
                }),
            decreases evs@.len() - j,
        {
            let ghost st_ev = run_from::<A>(ini, prefix0 + evs@.take(j as int), t1g, stepg);
            let ev = evs[j];
            let ev_ts = ev.ts.unpack();
            if alive {
                let ghost d0 = drain::<A>(acc, target as int, ev_ts as int, t1g, stepg);
                let ghost out0 = out@;
                while ev_ts >= target && alive
                    invariant
                        alive ==> ({
                            let d = drain::<A>(acc, target as int, ev_ts as int, t1g, stepg);
                            out0 + d0.0 == out@ + d.0 && d0.1 == d.1 && d0.2 == d.2 && d0.3 == d.3
                        }),
                        !alive ==> out@ == out0 + d0.0 && acc == d0.1 && target as int == d0.2
                            && !d0.3,
                    decreases (if alive {
                        1int
                    } else {
                        0int
                    }), drain_fuel(target as int, ev_ts as int),
                {
                    out.push(acc);
                    acc = A::empty();
                    if target >= t1 {
                        alive = false;
                    } else {
                        target = target + time_step;
                    }
                }
                if alive {
                    acc = acc.combine(&A::from_event(&ev));
                }
            }
            proof {
                assert(prefix0 + evs@.take(j + 1 as int) =~= (prefix0 + evs@.take(j as int)).push(
                    ev,
                ));
                assert((prefix0 + evs@.take(j as int)).push(ev).drop_last() =~= prefix0
                    + evs@.take(j as int));
            }
            j = j + 1;
        }
        proof {
            assert(evs@.take(evs@.len() as int) =~= evs@);
            lemma_track_events_cat(*pool, block_locs@, bi as int, bi as int + 1);
            let sr = block_locs@.subrange(bi as int, bi as int + 1);
            assert(sr.len() == 1);
            assert(sr.last() == block_locs@[bi as int]);
            assert(sr.drop_last() =~= Seq::<BlockIndex>::empty());
            assert(track_events(*pool, sr.drop_last()).len() == 0);
            assert(track_events(*pool, sr) == track_events(*pool, sr.drop_last())
                + pool.blocks@[sr.last() as int]@);
            assert(track_events(*pool, sr) =~= evs@);
        }
        bi = bi + 1;
    }
    proof {
        if bi as int == block_locs@.len() {
            assert(block_locs@.take(bi as int) =~= block_locs@);
        } else {
            let st = run_from::<A>(
                ini,
                track_events(*pool, block_locs@.take(bi as int)),
                t1g,
                stepg,
            );
            lemma_track_events_cat(*pool, block_locs@, bi as int, block_locs@.len() as int);
            assert(block_locs@.take(block_locs@.len() as int) =~= block_locs@);
            lemma_run_from_concat(
                ini,
                track_events(*pool, block_locs@.take(bi as int)),
                track_events(*pool, block_locs@.subrange(bi as int, block_locs@.len() as int)),
                t1g,
                stepg,
            );
            lemma_run_from_dead(
                st,
                track_events(*pool, block_locs@.subrange(bi as int, block_locs@.len() as int)),
                t1g,
                stepg,
            );
        }
    }
    if alive {
        out.push(acc);
    }
    out
}

/// Reduces the events of `time_span` into one aggregate per `time_step`-wide
/// bucket by scanning every event; the ground truth the indexed aggregator is
/// held to.
#[verifier::loop_isolation(false)]
#[verifier::rlimit(100)]
pub fn aggregate_by_steps_unindexed<A: Aggregate>(
    pool: &BlockPool,
    block_locs: &[BlockIndex],
    time_span: Range<Ns>,
    time_step: u64,
) -> (out: Vec<A>)
    requires
        time_step >= 1,
        time_span.end as int + time_step as int - 1 <= u64::MAX as int,
        forall|i: int|
            0 <= i < block_locs@.len() ==> (#[trigger] block_locs@[i] as int) < pool.blocks@.len(),
    ensures
        out@ == steps_spec::<A>(
            track_events(*pool, block_locs@),
            time_span.start as int,
            time_span.end as int,
            time_step as int,
        ),
{
    let ghost t0g = time_span.start as int;
    let ghost t1g = time_span.end as int;
    let ghost stepg = time_step as int;
    let ghost ini = init_state::<A>(t0g);
    let t1 = time_span.end;
    let mut out: Vec<A> = Vec::new();
    let mut target = time_span.start;
    let mut acc = A::empty();
    let mut alive: bool = true;
    let mut bi: usize = 0;
    while bi < block_locs.len() && alive
        invariant
            bi <= block_locs@.len(),
            ({
                let st = run_from::<A>(
                    ini,
                    track_events(*pool, block_locs@.take(bi as int)),
                    t1g,
                    stepg,
                );
                out@ == st.0 && acc == st.1 && target as int == st.2 && alive == st.3
            }),
        decreases block_locs@.len() - bi,
    {
        let loc = block_locs[bi];
        let block = &pool.blocks[loc as usize];
        let evs = block.events();
        let ghost prefix0 = track_events(*pool, block_locs@.take(bi as int));
        let mut j: usize = 0;
        while j < evs.len()
            invariant
                j <= evs@.len(),
                bi < block_locs@.len(),
                evs@ == pool.blocks@[block_locs@[bi as int] as int]@,
                prefix0 == track_events(*pool, block_locs@.take(bi as int)),
                ({
                    let st = run_from::<A>(ini, prefix0 + evs@.take(j as int), t1g, stepg);
                    out@ == st.0 && acc == st.1 && target as int == st.2 && alive == st.3
                }),
            decreases evs@.len() - j,
        {
            let ghost st_ev = run_from::<A>(ini, prefix0 + evs@.take(j as int), t1g, stepg);
            let ev = evs[j];
            let ev_ts = ev.ts.unpack();
            if alive {
                let ghost d0 = drain::<A>(acc, target as int, ev_ts as int, t1g, stepg);
                let ghost out0 = out@;
                while ev_ts >= target && alive
                    invariant
                        alive ==> ({
                            let d = drain::<A>(acc, target as int, ev_ts as int, t1g, stepg);
                            out0 + d0.0 == out@ + d.0 && d0.1 == d.1 && d0.2 == d.2 && d0.3 == d.3
                        }),
                        !alive ==> out@ == out0 + d0.0 && acc == d0.1 && target as int == d0.2
                            && !d0.3,
                    decreases (if alive {
                        1int
                    } else {
                        0int
                    }), drain_fuel(target as int, ev_ts as int),
                {
                    out.push(acc);
                    acc = A::empty();
                    if target >= t1 {
                        alive = false;
                    } else {
                        target = target + time_step;
                    }
                }
                if alive {
                    acc = acc.combine(&A::from_event(&ev));
                }
            }
            proof {
                assert(prefix0 + evs@.take(j + 1 as int) =~= (prefix0 + evs@.take(j as int)).push(
                    ev,
                ));
                assert((prefix0 + evs@.take(j as int)).push(ev).drop_last() =~= prefix0
                    + evs@.take(j as int));
            }
            j = j + 1;
        }
        proof {
            assert(evs@.take(evs@.len() as int) =~= evs@);
            lemma_track_events_cat(*pool, block_locs@, bi as int, bi as int + 1);
            let sr = block_locs@.subrange(bi as int, bi as int + 1);
            assert(sr.len() == 1);
            assert(sr.last() == block_locs@[bi as int]);
            assert(sr.drop_last() =~= Seq::<BlockIndex>::empty());
            assert(track_events(*pool, sr.drop_last()).len() == 0);
            assert(track_events(*pool, sr) == track_events(*pool, sr.drop_last())
                + pool.blocks@[sr.last() as int]@);
            assert(track_events(*pool, sr) =~= evs@);
        }
        bi = bi + 1;
    }
    proof {
        if bi as int == block_locs@.len() {
            assert(block_locs@.take(bi as int) =~= block_locs@);
        } else {
            let st = run_from::<A>(
                ini,
                track_events(*pool, block_locs@.take(bi as int)),
                t1g,
                stepg,
            );
            lemma_track_events_cat(*pool, block_locs@, bi as int, block_locs@.len() as int);
            assert(block_locs@.take(block_locs@.len() as int) =~= block_locs@);
            lemma_run_from_concat(
                ini,
                track_events(*pool, block_locs@.take(bi as int)),
                track_events(*pool, block_locs@.subrange(bi as int, block_locs@.len() as int)),
                t1g,
                stepg,
            );
            lemma_run_from_dead(
                st,
                track_events(*pool, block_locs@.subrange(bi as int, block_locs@.len() as int)),
                t1g,
                stepg,
            );
        }
    }
    if alive {
        out.push(acc);
    }
    out
}

} // verus!
