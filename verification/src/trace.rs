//! Packed time values, events, blocks, the block pool and tracks.

use vstd::prelude::*;

verus! {

/// An unsigned nanosecond quantity. Only values below `2^48` can be packed.
pub type Ns = u64;

/// Dense, stable handle of a block inside a [`BlockPool`].
pub type BlockIndex = u32;

/// Number of events a block can hold.
pub const EVENTS_PER_BLOCK: usize = 16;

/// A 48-bit nanosecond value stored as six little-endian bytes.
#[derive(Clone, Copy)]
pub struct PackedNs {
    bytes: [u8; 6],
}

impl View for PackedNs {
    type V = Ns;

    /// The integer this packed value stands for.
    closed spec fn view(&self) -> Ns {
        (self.bytes[0] as int + self.bytes[1] as int * 0x100 + self.bytes[2] as int * 0x10000
            + self.bytes[3] as int * 0x1000000 + self.bytes[4] as int * 0x100000000
            + self.bytes[5] as int * 0x10000000000) as Ns
    }
}

impl PackedNs {
    /// Packs a value below `2^48` losslessly into six bytes.
    pub fn new(ts: Ns) -> (r: Self)
        requires
            ts < 0x1000000000000,
        ensures
            r@ == ts,
    {
        let b0 = (ts % 0x100) as u8;
        let b1 = ((ts / 0x100) % 0x100) as u8;
        let b2 = ((ts / 0x10000) % 0x100) as u8;
        let b3 = ((ts / 0x1000000) % 0x100) as u8;
        let b4 = ((ts / 0x100000000) % 0x100) as u8;
        let b5 = ((ts / 0x10000000000) % 0x100) as u8;
        let r = PackedNs { bytes: [b0, b1, b2, b3, b4, b5] };
        proof {
            assert(ts < 0x1000000000000 ==> (ts % 0x100) + ((ts / 0x100) % 0x100) * 0x100 + ((ts
                / 0x10000) % 0x100) * 0x10000 + ((ts / 0x1000000) % 0x100) * 0x1000000 + ((ts
                / 0x100000000) % 0x100) * 0x100000000 + ((ts / 0x10000000000) % 0x100)
                * 0x10000000000 == ts) by (bit_vector);
        }
        r
    }

    /// Recovers the packed value.
    pub fn unpack(self) -> (r: Ns)
        ensures
            r == self@,
            r < 0x1000000000000,
    {
        self.bytes[0] as u64 + self.bytes[1] as u64 * 0x100 + self.bytes[2] as u64 * 0x10000
            + self.bytes[3] as u64 * 0x1000000 + self.bytes[4] as u64 * 0x100000000
            + self.bytes[5] as u64 * 0x10000000000
    }
}

/// One trace event: a kind tag, a start timestamp and a duration.
#[derive(Clone, Copy)]
pub struct TraceEvent {
    pub kind: u16,
    pub ts: PackedNs,
    pub dur: PackedNs,
}

/// A fixed-capacity run of events. Inside a track all blocks but the last are
/// full, and events are in non-decreasing timestamp order.
pub struct TraceBlock {
    /// Number of valid events.
    pub len: u16,
    events: Vec<TraceEvent>,
}

impl View for TraceBlock {
    type V = Seq<TraceEvent>;

    /// The valid events of the block.
    closed spec fn view(&self) -> Seq<TraceEvent> {
        self.events@
    }
}

impl TraceBlock {
    /// The stored length agrees with the events and stays within capacity.
    pub closed spec fn wf(&self) -> bool {
        &&& self@.len() == self.len as int
        &&& self.len as int <= EVENTS_PER_BLOCK as int
    }

    /// The timestamp of the first event, or 0 for an empty block.
    pub open spec fn spec_start_time(&self) -> Ns {
        if self@.len() == 0 {
            0
        } else {
            self@[0].ts@
        }
    }

    /// An empty block.
    pub fn new() -> (r: Self)
        ensures
            r.wf(),
            r@ == Seq::<TraceEvent>::empty(),
    {
        TraceBlock { len: 0, events: Vec::new() }
    }

    /// Whether the block has reached its capacity.
    pub fn is_full(&self) -> (r: bool)
        requires
            self.wf(),
        ensures
            r <==> self@.len() == EVENTS_PER_BLOCK as int,
            self@.len() <= EVENTS_PER_BLOCK as int,
    {
        self.len as usize == EVENTS_PER_BLOCK
    }

    /// Appends an event. Pushing into a full block is a capacity violation,
    /// which callers must rule out.
    pub fn push(&mut self, ev: TraceEvent)
        requires
            old(self).wf(),
            old(self)@.len() < EVENTS_PER_BLOCK as int,
        ensures
            final(self).wf(),
            final(self)@ == old(self)@.push(ev),
    {
        self.events.push(ev);
        self.len = self.len + 1;
    }

    /// The valid events.
    pub fn events(&self) -> (r: &[TraceEvent])
        ensures
            r@ == self@,
    {
        self.events.as_slice()
    }

    /// The timestamp of the first event; 0 for an empty block. Tracks never
    /// address empty blocks through this.
    pub fn start_time(&self) -> (r: Ns)
        requires
            self.wf(),
        ensures
            r == self.spec_start_time(),
            r < 0x1000000000000,
    {
        if self.len == 0 {
            0
        } else {
            let ev: &TraceEvent = &self.events[0];
            ev.ts.unpack()
        }
    }
}

/// Owns every block; tracks refer to blocks only through dense indices.
pub struct BlockPool {
    pub blocks: Vec<TraceBlock>,
}

impl BlockPool {
    /// An empty pool.
    pub fn new() -> (r: Self)
        ensures
            r.blocks@ == Seq::<TraceBlock>::empty(),
    {
        BlockPool { blocks: Vec::new() }
    }

    /// Appends a fresh empty block and returns its index.
    pub fn alloc_block(&mut self) -> (r: BlockIndex)
        requires
            old(self).blocks@.len() < BlockIndex::MAX as int,
        ensures
            r as int == old(self).blocks@.len(),
            final(self).blocks@.len() == old(self).blocks@.len() + 1,
            forall|i: int|
                0 <= i < old(self).blocks@.len() ==> final(self).blocks@[i] == old(
                    self,
                ).blocks@[i],
            final(self).blocks@.last().wf(),
            final(self).blocks@.last()@ == Seq::<TraceEvent>::empty(),
    {
        let i = self.blocks.len();
        self.blocks.push(TraceBlock::new());
        i as BlockIndex
    }
}

/// The events of the blocks `locs` refers to, concatenated in track order.
pub open spec fn track_events(pool: BlockPool, locs: Seq<BlockIndex>) -> Seq<TraceEvent>
    decreases locs.len(),
{
    if locs.len() == 0 {
        Seq::empty()
    } else {
        track_events(pool, locs.drop_last()) + pool.blocks@[locs.last() as int]@
    }
}

/// Events are in non-decreasing timestamp order.
pub open spec fn ts_sorted(evs: Seq<TraceEvent>) -> bool {
    forall|i: int, j: int| 0 <= i <= j < evs.len() ==> evs[i].ts@ <= evs[j].ts@
}

/// The event at slot `j` of the `c`-th block of a track.
pub open spec fn ev_at(pool: BlockPool, locs: Seq<BlockIndex>, c: int, j: int) -> TraceEvent {
    pool.blocks@[locs[c] as int]@[j]
}

/// Track events are in non-decreasing timestamp order, block by block: an
/// event never precedes one of an earlier block, nor an earlier one of its
/// own block.
pub open spec fn events_ordered(pool: BlockPool, locs: Seq<BlockIndex>) -> bool {
    forall|c: int, d: int, j1: int, j2: int|
        0 <= c <= d < locs.len() && 0 <= j1 < pool.blocks@[locs[c] as int]@.len() && 0 <= j2
            < pool.blocks@[locs[d] as int]@.len() && (c < d || j1 <= j2) ==> (#[trigger] ev_at(
            pool,
            locs,
            c,
            j1,
        )).ts@ <= (#[trigger] ev_at(pool, locs, d, j2)).ts@
}

/// Two pools agree on every block a list of locations refers to, so the
/// concatenated events agree as well.
pub proof fn lemma_track_events_pool_agree(p1: BlockPool, p2: BlockPool, locs: Seq<BlockIndex>)
    requires
        forall|i: int|
            0 <= i < locs.len() ==> (locs[i] as int) < p1.blocks@.len() && (locs[i] as int)
                < p2.blocks@.len() && p1.blocks@[locs[i] as int]@ == p2.blocks@[locs[i] as int]@,
    ensures
        track_events(p1, locs) == track_events(p2, locs),
    decreases locs.len(),
{
    if locs.len() > 0 {
        lemma_track_events_pool_agree(p1, p2, locs.drop_last());
    }
}

/// The first concatenated event is the first event of the first block.
pub proof fn lemma_track_events_first(pool: BlockPool, locs: Seq<BlockIndex>)
    requires
        locs.len() > 0,
        forall|i: int|
            0 <= i < locs.len() ==> (locs[i] as int) < pool.blocks@.len() && pool.blocks@[locs[i] as int]@.len() > 0,
    ensures
        track_events(pool, locs).len() > 0,
        track_events(pool, locs)[0] == pool.blocks@[locs[0] as int]@[0],
    decreases locs.len(),
{
    let rest = locs.drop_last();
    assert(forall|i: int| 0 <= i < rest.len() ==> rest[i] == locs[i]);
    if locs.len() > 1 {
        lemma_track_events_first(pool, rest);
        assert(track_events(pool, locs) == track_events(pool, rest)
            + pool.blocks@[locs.last() as int]@);
        assert(track_events(pool, locs)[0] == track_events(pool, rest)[0]);
    } else {
        assert(track_events(pool, rest).len() == 0);
        assert(track_events(pool, locs) == track_events(pool, rest)
            + pool.blocks@[locs.last() as int]@);
        assert(track_events(pool, locs)[0] == pool.blocks@[locs[0] as int]@[0]);
    }
}

/// An ordered list of block indices making up one logical lane. All blocks but
/// the last are full, no block is empty, no block is listed twice, and the
/// concatenated events are in non-decreasing timestamp order.
pub struct Track {
    pub block_locs: Vec<BlockIndex>,
}

impl Track {
    /// The track invariant, relative to the pool its blocks live in.
    pub open spec fn wf(&self, pool: &BlockPool) -> bool {
        let locs = self.block_locs@;
        &&& forall|i: int|
            0 <= i < locs.len() ==> (#[trigger] locs[i] as int) < pool.blocks@.len()
        &&& forall|i: int|
            0 <= i < locs.len() ==> (#[trigger] pool.blocks@[locs[i] as int]).wf()
        &&& forall|i: int|
            0 <= i < locs.len() ==> (#[trigger] pool.blocks@[locs[i] as int])@.len() > 0
        &&& forall|i: int|
            0 <= i < locs.len() - 1 ==> (#[trigger] pool.blocks@[locs[i] as int])@.len()
                == EVENTS_PER_BLOCK as int
        &&& forall|i: int, j: int| 0 <= i < j < locs.len() ==> locs[i] != locs[j]
        &&& ts_sorted(track_events(*pool, locs))
        &&& events_ordered(*pool, locs)
    }

    /// The events of this track, in order.
    pub open spec fn events(&self, pool: &BlockPool) -> Seq<TraceEvent> {
        track_events(*pool, self.block_locs@)
    }

    /// An empty track.
    pub fn new() -> (r: Self)
        ensures
            r.block_locs@ == Seq::<BlockIndex>::empty(),
            forall|pool: &BlockPool| r.wf(pool),
    {
        let r = Track { block_locs: Vec::new() };
        proof {
            assert forall|pool: &BlockPool| r.wf(pool) by {
                assert(track_events(*pool, r.block_locs@) =~= Seq::<TraceEvent>::empty());
            }
        }
        r
    }

    /// Allocates a fresh tail block for this track.
    fn new_block(&mut self, pool: &mut BlockPool) -> (r: BlockIndex)
        requires
            old(pool).blocks@.len() < BlockIndex::MAX as int,
        ensures
            r as int == old(pool).blocks@.len(),
            final(self).block_locs@ == old(self).block_locs@.push(r),
            final(pool).blocks@.len() == old(pool).blocks@.len() + 1,
            forall|i: int|
                0 <= i < old(pool).blocks@.len() ==> final(pool).blocks@[i] == old(
                    pool,
                ).blocks@[i],
            final(pool).blocks@.last().wf(),
            final(pool).blocks@.last()@ == Seq::<TraceEvent>::empty(),
    {
        let i = pool.alloc_block();
        self.block_locs.push(i);
        i
    }

    /// Appends an event to the track, opening a new block when the tail block
    /// is absent or full. The caller must append events in non-decreasing
    /// timestamp order.
    pub fn push(&mut self, pool: &mut BlockPool, ev: TraceEvent)
        requires
            old(self).wf(old(pool)),
            old(pool).blocks@.len() < BlockIndex::MAX as int,
            old(self).events(old(pool)).len() == 0 || ev.ts@ >= old(self).events(
                old(pool),
            ).last().ts@,
        ensures
            final(self).wf(final(pool)),
            final(self).events(final(pool)) == old(self).events(old(pool)).push(ev),
            final(pool).blocks@.len() >= old(pool).blocks@.len(),
            forall|i: int|
                0 <= i < old(pool).blocks@.len() && (old(self).block_locs@.len() == 0 || i != old(
                    self,
                ).block_locs@.last() as int) ==> final(pool).blocks@[i] == old(pool).blocks@[i],
    {
        proof {
            let locs = old(self).block_locs@;
            let p = *old(pool);
            if locs.len() > 0 {
                assert(track_events(p, locs) == track_events(p, locs.drop_last())
                    + p.blocks@[locs.last() as int]@);
            }
        }
        let tail_full: bool = if self.block_locs.len() == 0 {
            true
        } else {
            let t = self.block_locs[self.block_locs.len() - 1];
            pool.blocks[t as usize].is_full()
        };
        if tail_full {
            let ghost locs0 = self.block_locs@;
            let ghost p0 = *pool;
            let i = self.new_block(pool);
            let ghost p1 = *pool;
            let b = &mut pool.blocks[i as usize];
            b.push(ev);
            proof {
                let locs1 = self.block_locs@;
                lemma_track_events_pool_agree(p0, *pool, locs0);
                assert(locs1.drop_last() =~= locs0);
                assert(track_events(*pool, locs1) == track_events(*pool, locs0)
                    + pool.blocks@[i as int]@);
                assert(track_events(*pool, locs1) =~= track_events(p0, locs0).push(ev));
                assert(final(self).wf(final(pool))) by {
                    let evs = track_events(*pool, locs1);
                    let evs0 = track_events(p0, locs0);
                    assert forall|a: int, c: int| 0 <= a <= c < evs.len() implies evs[a].ts@
                        <= evs[c].ts@ by {
                        if c < evs.len() - 1 {
                            assert(evs[a] == evs0[a] && evs[c] == evs0[c]);
                        } else if a < evs.len() - 1 {
                            assert(evs[a] == evs0[a]);
                            assert(evs0[a].ts@ <= evs0.last().ts@);
                        }
                    }
                    let tl = locs1.len() - 1;
                    assert forall|c: int, d: int, j1: int, j2: int|
                        0 <= c <= d < locs1.len() && 0 <= j1
                            < pool.blocks@[locs1[c] as int]@.len() && 0 <= j2
                            < pool.blocks@[locs1[d] as int]@.len() && (c < d || j1
                            <= j2) implies ev_at(*pool, locs1, c, j1).ts@ <= ev_at(
                        *pool,
                        locs1,
                        d,
                        j2,
                    ).ts@ by {
                        if d == tl {
                            assert(ev_at(*pool, locs1, d, j2) == ev);
                            if c < tl {
                                let le = p0.blocks@[locs0.last() as int]@.len() - 1;
                                assert(ev_at(*pool, locs1, c, j1) == ev_at(p0, locs0, c, j1));
                                assert(ev_at(p0, locs0, c, j1).ts@ <= ev_at(
                                    p0,
                                    locs0,
                                    locs0.len() - 1,
                                    le,
                                ).ts@);
                                assert(ev_at(p0, locs0, locs0.len() - 1, le) == evs0.last());
                            }
                        } else {
                            assert(ev_at(*pool, locs1, c, j1) == ev_at(p0, locs0, c, j1));
                            assert(ev_at(*pool, locs1, d, j2) == ev_at(p0, locs0, d, j2));
                        }
                    }
                }
            }
        } else {
            let ghost locs0 = self.block_locs@;
            let ghost p0 = *pool;
            let t = self.block_locs[self.block_locs.len() - 1];
            let b = &mut pool.blocks[t as usize];
            b.push(ev);
            proof {
                let locs = self.block_locs@;
                assert(forall|i: int|
                    0 <= i < locs.len() - 1 ==> p0.blocks@[locs[i] as int]@ == pool.blocks@[locs[i] as int]@);
                lemma_track_events_pool_agree(p0, *pool, locs.drop_last());
                assert(track_events(*pool, locs) == track_events(*pool, locs.drop_last())
                    + pool.blocks@[t as int]@);
                assert(track_events(*pool, locs) =~= track_events(p0, locs0).push(ev));
                assert(final(self).wf(final(pool))) by {
                    let evs = track_events(*pool, locs);
                    let evs0 = track_events(p0, locs0);
                    assert forall|a: int, c: int| 0 <= a <= c < evs.len() implies evs[a].ts@
                        <= evs[c].ts@ by {
                        if c < evs.len() - 1 {
                            assert(evs[a] == evs0[a] && evs[c] == evs0[c]);
                        } else if a < evs.len() - 1 {
                            assert(evs[a] == evs0[a]);
                            assert(evs0[a].ts@ <= evs0.last().ts@);
                        }
                    }
                    let tl = locs.len() - 1;
                    let ol = p0.blocks@[locs[tl] as int]@.len();
                    assert forall|c: int, d: int, j1: int, j2: int|
                        0 <= c <= d < locs.len() && 0 <= j1
                            < pool.blocks@[locs[c] as int]@.len() && 0 <= j2
                            < pool.blocks@[locs[d] as int]@.len() && (c < d || j1
                            <= j2) implies ev_at(*pool, locs, c, j1).ts@ <= ev_at(
                        *pool,
                        locs,
                        d,
                        j2,
                    ).ts@ by {
                        if d == tl && j2 == ol {
                            assert(ev_at(*pool, locs, d, j2) == ev);
                            if !(c == tl && j1 == j2) {
                                assert(ev_at(*pool, locs, c, j1) == ev_at(p0, locs0, c, j1));
                                assert(ev_at(p0, locs0, c, j1).ts@ <= ev_at(
                                    p0,
                                    locs0,
                                    tl,
                                    ol - 1,
                                ).ts@);
                                assert(ev_at(p0, locs0, tl, ol - 1) == evs0.last());
                            }
                        } else {
                            assert(ev_at(*pool, locs, c, j1) == ev_at(p0, locs0, c, j1));
                            assert(ev_at(*pool, locs, d, j2) == ev_at(p0, locs0, d, j2));
                        }
                    }
                }
            }
        }
    }

    /// The timestamp of the first event of the track, if any.
    pub fn start_time(&self, pool: &BlockPool) -> (r: Option<Ns>)
        requires
            self.wf(pool),
        ensures
            r == if self.events(pool).len() == 0 {
                Option::<Ns>::None
            } else {
                Option::Some(self.events(pool)[0].ts@)
            },
    {
        if self.block_locs.len() == 0 {
            proof {
                assert(track_events(*pool, self.block_locs@) =~= Seq::<TraceEvent>::empty());
            }
            None
        } else {
            proof {
                lemma_track_events_first(*pool, self.block_locs@);
            }
            let b = &pool.blocks[self.block_locs[0] as usize];
            let evs = b.events();
            Some(evs[0].ts.unpack())
        }
    }

    /// The timestamp of the last event of the track, if any.
    pub fn end_time(&self, pool: &BlockPool) -> (r: Option<Ns>)
        requires
            self.wf(pool),
        ensures
            r == if self.events(pool).len() == 0 {
                Option::<Ns>::None
            } else {
                Option::Some(self.events(pool).last().ts@)
            },
    {
        if self.block_locs.len() == 0 {
            proof {
                assert(track_events(*pool, self.block_locs@) =~= Seq::<TraceEvent>::empty());
            }
            None
        } else {
            proof {
                let locs = self.block_locs@;
                assert(track_events(*pool, locs) == track_events(*pool, locs.drop_last())
                    + pool.blocks@[locs.last() as int]@);
            }
            let b = &pool.blocks[self.block_locs[self.block_locs.len() - 1] as usize];
            let evs = b.events();
            Some(evs[evs.len() - 1].ts.unpack())
        }
    }
}

} // verus!
