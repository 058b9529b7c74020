use gigatrace::iforest::IForestIndex;
use gigatrace::index::{Aggregate, EventCount, LongestEvent, TrackIndex, TsSum};
use gigatrace::trace::{BlockPool, PackedNs, Track, TraceBlock, TraceEvent};

fn ev(kind: u16, ts: u64, dur: u64) -> TraceEvent {
    TraceEvent {
        kind,
        ts: PackedNs::new(ts),
        dur: PackedNs::new(dur),
    }
}

fn add_dummy_events(track: &mut Track, pool: &mut BlockPool, rng: &mut fastrand::Rng, n: usize) {
    let mut ts = 0u64;
    ts += rng.u64(..100_000);
    for _ in 0..n {
        ts += rng.u64(..10_000);
        let dur = rng.u64(..20_000);
        track.push(pool, ev(rng.u16(4..15), ts, dur));
        ts += dur;
    }
}

#[test]
fn btree_it_works() {
    assert_eq!(2 + 2, 4);
}

#[test]
fn pack_round_trip() {
    let samples = [
        0u64,
        1,
        255,
        256,
        65_535,
        65_536,
        0x1234_5678_9abc,
        (1u64 << 48) - 1,
    ];
    for &x in &samples {
        assert_eq!(PackedNs::new(x).unpack(), x);
    }
    let mut rng = fastrand::Rng::new();
    for _ in 0..1000 {
        let x = rng.u64(..(1u64 << 48));
        assert_eq!(PackedNs::new(x).unpack(), x);
    }
}

#[test]
fn index_size_after_pushes() {
    let mut block = TraceBlock::new();
    for i in 0..16 {
        block.push(ev(0, i, 0));
    }
    let mut index = IForestIndex::<EventCount>::new();
    assert_eq!(index.vals.len(), 0);
    for n in 1..=64usize {
        index.push(&block);
        assert_eq!(index.vals.len(), 2 * n - 1);
    }
}

#[test]
fn combine_is_associative() {
    let a = TsSum(3);
    let b = TsSum(u64::MAX - 1);
    let c = TsSum(40);
    assert_eq!(a.combine(&b).combine(&c).0, a.combine(&b.combine(&c)).0);
    let x = LongestEvent(Some(ev(1, 5, 7)));
    let y = LongestEvent(Some(ev(2, 9, 7)));
    let z = LongestEvent(Some(ev(3, 11, 3)));
    let l = x.combine(&y).combine(&z).0.unwrap();
    let r = x.combine(&y.combine(&z)).0.unwrap();
    assert_eq!(l.kind, r.kind);
    assert_eq!(l.ts.unpack(), r.ts.unpack());
    assert_eq!(l.dur.unpack(), r.dur.unpack());
    // Ties keep the earlier event.
    assert_eq!(l.kind, 1);
}

#[test]
fn combine_identity() {
    let x = TsSum(123);
    assert_eq!(TsSum::empty().combine(&x).0, 123);
    assert_eq!(x.combine(&TsSum::empty()).0, 123);
    let e = LongestEvent(Some(ev(7, 1, 2)));
    let le = LongestEvent::empty().combine(&e).0.unwrap();
    let re = e.combine(&LongestEvent::empty()).0.unwrap();
    assert_eq!(le.kind, 7);
    assert_eq!(re.kind, 7);
    assert!(LongestEvent::empty()
        .combine(&LongestEvent::empty())
        .0
        .is_none());
}

#[test]
fn empty_track_queries() {
    let index = IForestIndex::<EventCount>::new();
    assert_eq!(index.range_query(0..0).0, 0);

    let pool = BlockPool::new();
    let track = Track::new();
    let res = gigatrace::aggregate_by_steps_unindexed::<TsSum>(&pool, &track.block_locs, 0..100, 10);
    let res_ts: Vec<u64> = res.iter().map(|x| x.0).collect();
    assert_eq!(&res_ts[..], &[0]);
}

#[test]
fn single_event_index() {
    let mut pool = BlockPool::new();
    let mut track = Track::new();
    track.push(&mut pool, ev(1, 42, 9));
    let index = IForestIndex::<TsSum>::build(&track, &pool);
    assert_eq!(index.vals.len(), 1);
    let only_block = &pool.blocks[track.block_locs[0] as usize];
    assert_eq!(index.range_query(0..1).0, TsSum::from_block(only_block).0);
    assert_eq!(index.range_query(0..1).0, 42);
}

#[test]
fn partial_block_reachable() {
    let mut pool = BlockPool::new();
    let mut track = Track::new();
    // One full block and one partial block.
    for i in 0..21u64 {
        track.push(&mut pool, ev(0, i, 0));
    }
    assert_eq!(track.block_locs.len(), 2);
    let index = IForestIndex::<EventCount>::build(&track, &pool);
    assert_eq!(index.range_query(0..2).0, 21);
    assert_eq!(index.range_query(1..2).0, 5);
}

#[test]
fn longest_event_single_block() {
    let mut block = TraceBlock::new();
    for (i, &d) in [3u64, 7, 1, 5].iter().enumerate() {
        block.push(ev(i as u16, i as u64, d));
    }
    let longest = LongestEvent::from_block(&block).0.unwrap();
    assert_eq!(longest.dur.unpack(), 7);
    assert_eq!(longest.kind, 1);
}

#[test]
fn empty_range_is_identity() {
    let mut pool = BlockPool::new();
    let mut track = Track::new();
    for i in 0..100u64 {
        track.push(&mut pool, ev(0, 3 * i, 1));
    }
    let index = IForestIndex::<EventCount>::build(&track, &pool);
    let n = track.block_locs.len();
    for k in 0..=n {
        assert_eq!(index.range_query(k..k).0, 0);
    }
}

#[test]
fn deterministic_vals() {
    let mut pool = BlockPool::new();
    let mut track = Track::new();
    let mut rng = fastrand::Rng::new();
    add_dummy_events(&mut track, &mut pool, &mut rng, 100);

    let i1 = IForestIndex::<TsSum>::build(&track, &pool);
    let i2 = IForestIndex::<TsSum>::build(&track, &pool);
    assert_eq!(i1.vals, i2.vals);
}

#[test]
fn event_count_range_query() {
    let mut pool = BlockPool::new();
    let mut track = Track::new();
    for i in 0..325u64 {
        track.push(&mut pool, ev(0, 2 * i, 1));
    }
    let n = track.block_locs.len();
    assert!(n >= 21);
    let index = IForestIndex::<EventCount>::build(&track, &pool);
    for l in 0..=n {
        for r in l..=n {
            let expected: usize = track.block_locs[l..r]
                .iter()
                .map(|i| pool.blocks[*i as usize].len as usize)
                .sum();
            assert_eq!(index.range_query(l..r).0, expected, "failed for {}..{}", l, r);
        }
    }
}

#[test]
fn viewer_pixel_sweep() {
    // A 1000-pixel-wide view over the whole trace, with the bucket width
    // rounded up to a power of two covering two pixels.
    let mut pool = BlockPool::new();
    let mut track = Track::new();
    let d: u64 = 1_000_000;
    let mut t = 0u64;
    while t <= d {
        track.push(&mut pool, ev(0, t, 100));
        t += 1000;
    }
    assert_eq!(track.end_time(&pool), Some(d));
    let width: u64 = 1000;
    let step = (2 * (d / width)).next_power_of_two();
    let index = IForestIndex::<EventCount>::build(&track, &pool);
    let res = gigatrace::aggregate_by_steps::<EventCount>(
        &pool,
        &track.block_locs,
        &index,
        0..d,
        step,
    );
    let buckets = (d + step - 1) / step;
    assert_eq!(res.len() as u64, buckets + 1);
}
