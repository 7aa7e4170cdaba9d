use pingmon::sample::Sample;
use pingmon::store::Store;

fn reachable(at: u64, latency: u32) -> Sample {
    Sample::Reachable { at, latency }
}

fn unreachable(at: u64) -> Sample {
    Sample::Unreachable { at }
}

#[test]
fn palette_is_a_permutation() {
    // The shuffled pool must still hold exactly the indices 0..n.
    let store = Store::new(4);
    let mut pool = store.palette.clone();
    pool.sort();
    assert_eq!(pool, vec![0, 1, 2, 3]);
}

#[test]
fn first_sample_creates_series_with_pool_colour() {
    let mut store = Store::new(4);
    let expected = *store.palette.last().unwrap();
    let target = String::from("192.0.2.1");
    store.upsert_and_append(&target, reachable(0, 10));
    let series = store.get_series(&target).unwrap();
    assert_eq!(series.linecol_idx, expected);
    assert_eq!(series.samples.len(), 1);
    assert_eq!(store.palette.len(), 3);
}

#[test]
fn colour_pool_exhaustion_falls_back_to_zero() {
    let mut store = Store::new(0);
    let target = String::from("a");
    store.upsert_and_append(&target, reachable(0, 1));
    assert_eq!(store.get_series(&target).unwrap().linecol_idx, 0);
}

#[test]
fn appends_accumulate_per_target() {
    let mut store = Store::new(2);
    let target = String::from("example");
    store.upsert_and_append(&target, reachable(0, 5));
    store.upsert_and_append(&target, unreachable(1));
    store.upsert_and_append(&target, reachable(2, 7));
    let series = store.get_series(&target).unwrap();
    assert_eq!(series.samples.len(), 3);
    assert_eq!(series.timeout_count(), 1);
    assert_eq!(store.entries.len(), 1);
}

#[test]
fn cross_target_isolation() {
    // Interleaved traffic on two targets, then target A's prober fails
    // (no further events for A) while B keeps going and A is still
    // evicted: B's log, statistics and eviction are untouched by anything
    // that happens to A, and vice versa.
    let mut store = Store::new(4);
    let a = String::from("a.example");
    let b = String::from("b.example");
    for t in 0u64..=4 {
        store.upsert_and_append(&a, reachable(t, 100 + t as u32));
        store.upsert_and_append(&b, reachable(t, 10 + t as u32));
    }
    store.evict_target(&b, 1);
    let b_log: Vec<u64> = store.get_series(&b).unwrap().samples.iter().map(|s| s.timestamp()).collect();
    let b_stats = store.get_series(&b).unwrap().stats;

    // A's prober fails: A sees no further samples; its eviction still runs.
    store.evict_target(&a, 3);

    let b_after: Vec<u64> = store.get_series(&b).unwrap().samples.iter().map(|s| s.timestamp()).collect();
    assert_eq!(b_after, b_log);
    assert_eq!(store.get_series(&b).unwrap().stats, b_stats);
    // And A was evicted on its own cadence.
    let a_after: Vec<u64> = store.get_series(&a).unwrap().samples.iter().map(|s| s.timestamp()).collect();
    assert_eq!(a_after, vec![4]);
}

#[test]
fn evict_older_than_sweeps_every_target_and_refreshes() {
    let mut store = Store::new(4);
    let a = String::from("a");
    let b = String::from("b");
    for t in 0u64..=4 {
        store.upsert_and_append(&a, reachable(t, 10 * (t as u32 + 1)));
        store.upsert_and_append(&b, reachable(t, 7));
    }
    store.evict_older_than(2);
    for name in [&a, &b] {
        let series = store.get_series(name).unwrap();
        let ts: Vec<u64> = series.samples.iter().map(|s| s.timestamp()).collect();
        assert_eq!(ts, vec![3, 4]);
    }
    // The cached statistics were refreshed from the evicted log.
    let stats = store.get_series(&a).unwrap().stats;
    assert_eq!(stats.min, 40);
    assert_eq!(stats.max, 50);
    assert_eq!(stats.last, 50);
}

#[test]
fn evicting_an_unknown_target_is_a_no_op() {
    let mut store = Store::new(1);
    let known = String::from("known");
    store.upsert_and_append(&known, reachable(0, 1));
    let missing = String::from("missing");
    store.evict_target(&missing, 5);
    assert_eq!(store.entries.len(), 1);
    assert_eq!(store.get_series(&known).unwrap().samples.len(), 1);
    assert!(store.get_series(&missing).is_none());
}

#[test]
fn snapshot_is_one_consistent_frame() {
    let mut store = Store::new(4);
    let a = String::from("a");
    let b = String::from("b");
    store.upsert_and_append(&a, reachable(0, 1));
    store.upsert_and_append(&a, unreachable(1));
    store.upsert_and_append(&a, reachable(2, 3));
    store.upsert_and_append(&b, reachable(0, 9));
    store.evict_older_than(0);
    let frame = store.snapshot(None);
    assert_eq!(frame.len(), 2);
    let fa = frame.iter().find(|s| s.target == "a").unwrap();
    assert_eq!(fa.segments, vec![vec![(2, 3)]]);
    assert_eq!(fa.stats.timeouts, 1);
    assert_eq!(fa.stats.last, 3);
    // B has no sample newer than the bound: the whole log stays its
    // window, so its last known point is still drawn.
    let fb = frame.iter().find(|s| s.target == "b").unwrap();
    assert_eq!(fb.segments, vec![vec![(0, 9)]]);
    assert_eq!(fb.stats.last, 9);
}

#[test]
fn highest_value_across_targets() {
    let mut store = Store::new(4);
    let a = String::from("a");
    let b = String::from("b");
    store.upsert_and_append(&a, reachable(0, 250));
    store.upsert_and_append(&a, reachable(5, 30));
    store.upsert_and_append(&b, reachable(5, 40));
    assert_eq!(store.get_highest_value(None), 250);
    assert_eq!(store.get_highest_value_youngerthan(0), 40);
    let empty = Store::new(4);
    assert_eq!(empty.get_highest_value(None), 0);
}
