use gigatrace::iforest::IForestIndex;
use gigatrace::index::{Aggregate, EventCount, LongestEvent, TrackIndex, TsSum};
use gigatrace::trace::{BlockPool, PackedNs, Track, TraceEvent};

fn add_dummy_events(track: &mut Track, pool: &mut BlockPool, rng: &mut fastrand::Rng, n: usize) {
    let mut ts = 0u64;
    ts += rng.u64(..100_000);
    for _ in 0..n {
        ts += rng.u64(..10_000);
        let dur = rng.u64(..20_000);
        track.push(
            pool,
            TraceEvent {
                kind: rng.u16(4..15),
                ts: PackedNs::new(ts),
                dur: PackedNs::new(dur),
            },
        );
        ts += dur;
    }
}

#[test]
fn lib_it_works() {
    assert_eq!(2 + 2, 4);
}

#[test]
fn dummy_trace() {
    let mut pool = BlockPool::new();
    let mut track = Track::new();
    let mut rng = fastrand::Rng::new();
    add_dummy_events(&mut track, &mut pool, &mut rng, 300);

    let mut maxes = vec![];
    for i in &track.block_locs {
        maxes.push(
            LongestEvent::from_block(&pool.blocks[*i as usize])
                .0
                .unwrap()
                .dur
                .unpack(),
        );
    }
    println!("maxes: {:?}", maxes);

    let index = IForestIndex::<LongestEvent>::build(&track, &pool);
    let index_vals = index
        .vals
        .iter()
        .map(|x| x.0.unwrap().dur.unpack())
        .collect::<Vec<_>>();
    println!("index: {:?}", index_vals);
}

#[test]
fn block_count() {
    let mut pool = BlockPool::new();
    let mut track = Track::new();
    let mut rng = fastrand::Rng::new();
    add_dummy_events(&mut track, &mut pool, &mut rng, 325);

    let index = IForestIndex::<EventCount>::build(&track, &pool);
    let index_vals = index.vals.iter().map(|x| x.0).collect::<Vec<_>>();
    println!("index: {:?}", index_vals);
}

#[test]
fn aggregate_by_steps_unindexed() {
    let mut pool = BlockPool::new();
    let mut track = Track::new();
    let ev_ts = &[10, 15, 20, 100, 101, 150, 170];
    for t in ev_ts {
        track.push(
            &mut pool,
            TraceEvent {
                kind: 0,
                ts: PackedNs::new(*t),
                dur: PackedNs::new(0),
            },
        );
    }

    let span = 13..150;
    let res = gigatrace::aggregate_by_steps_unindexed::<TsSum>(&pool, &track.block_locs, span, 10);
    let res_ts = res.iter().map(|x| x.0).collect::<Vec<_>>();
    assert_eq!(&res_ts[..], &[10, 35, 0, 0, 0, 0, 0, 0, 0, 201, 0, 0, 0, 0, 150]);
}

#[test]
fn prop_test_range_query() {
    let mut pool = BlockPool::new();
    let mut track = Track::new();
    let mut rng = fastrand::Rng::new();
    add_dummy_events(&mut track, &mut pool, &mut rng, 325);

    let index = IForestIndex::<EventCount>::build(&track, &pool);

    for _ in 0..100_000 {
        let start = rng.usize(..=track.block_locs.len());
        let end = rng.usize(start..=track.block_locs.len());
        let EventCount(count) = index.range_query(start..end);
        let correct: usize = track.block_locs[start..end]
            .iter()
            .map(|i| pool.blocks[*i as usize].len as usize)
            .sum();
        assert_eq!(count, correct, "failed for {}..{}", start, end);
    }
}

#[test]
fn prop_test_aggregate_by_steps() {
    let mut pool = BlockPool::new();
    let mut track = Track::new();
    let mut rng = fastrand::Rng::new();
    add_dummy_events(&mut track, &mut pool, &mut rng, 325);

    let index = IForestIndex::<TsSum>::build(&track, &pool);

    let time_bounds = 0..=(track.end_time(&pool).unwrap() + 100_000);
    for _ in 0..100_000 {
        let t1 = rng.u64(time_bounds.clone());
        let t2 = rng.u64(time_bounds.clone());
        let t_range = if t2 > t1 { t1..t2 } else { t2..t1 };
        let range_size = t_range.end - t_range.start;
        let step = (range_size / rng.u64(1..10)) + rng.u64(0..100);
        let step = step.max(1);
        let res1 = gigatrace::aggregate_by_steps::<TsSum>(
            &pool,
            &track.block_locs,
            &index,
            t_range.clone(),
            step,
        );
        let res2 = gigatrace::aggregate_by_steps_unindexed::<TsSum>(
            &pool,
            &track.block_locs,
            t_range.clone(),
            step,
        );
        assert_eq!(res1, res2, "failed for {:?} - {}", t_range, step);
    }
}
