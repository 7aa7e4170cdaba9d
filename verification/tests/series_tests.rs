use pingmon::sample::Sample;
use pingmon::series::Series;
use pingmon::sma::Sma;

fn reachable(at: u64, latency: u32) -> Sample {
    Sample::Reachable { at, latency }
}

fn unreachable(at: u64) -> Sample {
    Sample::Unreachable { at }
}

fn timestamps(samples: &[Sample]) -> Vec<u64> {
    samples.iter().map(|s| s.timestamp()).collect()
}

#[test]
fn append_keeps_insertion_order() {
    // Appends with non-decreasing timestamps: the stored log reads back in
    // insertion order, which is timestamp order.
    let mut series = Series::default();
    let ts = [0u64, 1, 1, 3, 7, 7, 9];
    for (k, &t) in ts.iter().enumerate() {
        if k % 3 == 2 {
            series.push(unreachable(t));
        } else {
            series.push(reachable(t, k as u32));
        }
    }
    assert_eq!(timestamps(&series.samples), ts.to_vec());
    let stored = timestamps(&series.samples);
    let mut sorted = stored.clone();
    sorted.sort();
    assert_eq!(stored, sorted);
}

#[test]
fn eviction_keeps_strictly_newer() {
    // Samples at t = 0..=4; evicting at horizon 2 keeps exactly t in {3,4}.
    let mut series = Series::default();
    for t in 0u64..=4 {
        series.push(reachable(t, 10 + t as u32));
    }
    series.remove_older_than(2);
    assert_eq!(timestamps(&series.samples), vec![3, 4]);
    // The smoothed log loses the identical prefix: what remains are the
    // values computed at t = 3 and 4, (11+12+13)/3 and (12+13+14)/3.
    assert_eq!(series.smoothed, vec![Some(12), Some(13)]);
}

#[test]
fn eviction_past_the_log_changes_nothing() {
    // No sample is newer than 10: the log is left as it is, not emptied.
    let mut series = Series::default();
    for t in 0u64..=4 {
        series.push(reachable(t, 10 + t as u32));
    }
    let smoothed_before = series.smoothed.clone();
    series.remove_older_than(10);
    assert_eq!(timestamps(&series.samples), vec![0, 1, 2, 3, 4]);
    assert_eq!(series.smoothed, smoothed_before);
}

#[test]
fn remove_olderthan_matches_remove_older_than() {
    let mut a = Series::default();
    let mut b = Series::default();
    for t in 0u64..=4 {
        a.push(reachable(t, 1));
        b.push(reachable(t, 1));
    }
    a.remove_older_than(2);
    b.remove_olderthan(2);
    assert_eq!(timestamps(&a.samples), timestamps(&b.samples));
    assert_eq!(a.smoothed, b.smoothed);
}

#[test]
fn segmentation_splits_on_gaps() {
    // [R(0,1), R(1,2), U, R(3,4)] segments into [(0,1),(1,2)] and [(3,4)].
    let mut series = Series::default();
    series.push(reachable(0, 1));
    series.push(reachable(1, 2));
    series.push(unreachable(2));
    series.push(reachable(3, 4));
    let segs = series.get_splitted(None);
    assert_eq!(segs, vec![vec![(0, 1), (1, 2)], vec![(3, 4)]]);
}

#[test]
fn segmentation_of_empty_log_is_empty() {
    let series = Series::default();
    let segs = series.get_splitted(None);
    assert_eq!(segs.len(), 0);
}

#[test]
fn segmentation_drops_leading_and_double_gaps() {
    let mut series = Series::default();
    series.push(unreachable(0));
    series.push(reachable(1, 5));
    series.push(unreachable(2));
    series.push(unreachable(3));
    series.push(reachable(4, 6));
    series.push(reachable(5, 7));
    let segs = series.get_splitted(None);
    assert_eq!(segs, vec![vec![(1, 5)], vec![(4, 6), (5, 7)]]);
}

#[test]
fn windowing_takes_strictly_newer_suffix() {
    let mut series = Series::default();
    for t in 0u64..=4 {
        series.push(reachable(t, t as u32));
    }
    let w = series.get_younger_than(2);
    assert_eq!(timestamps(&w), vec![3, 4]);
    // No sample newer than the bound: the whole log is the window.
    let w = series.get_younger_than(9);
    assert_eq!(timestamps(&w), vec![0, 1, 2, 3, 4]);
}

#[test]
fn windowed_statistics_leave_cache_alone() {
    let mut series = Series::default();
    for t in 0u64..=4 {
        series.push(reachable(t, 10 * (t as u32 + 1)));
    }
    let cached = series.stats;
    let windowed = series.get_pingstat(Some(2));
    assert_eq!(windowed.min, 40);
    assert_eq!(windowed.max, 50);
    assert_eq!(series.stats, cached);
}

#[test]
fn refresh_is_idempotent() {
    let mut series = Series::default();
    series.push(reachable(0, 10));
    series.push(unreachable(1));
    series.push(reachable(2, 30));
    series.update_pingstat(None);
    let first = series.stats;
    series.update_pingstat(None);
    assert_eq!(series.stats, first);
}

#[test]
fn smoothing_two_outputs_across_gap() {
    // [R(5), U, R(7)]: two smoothed outputs; the second averages over the
    // filter state left by the first, the gap neither resets nor advances
    // it: (5 + 7) / 2 = 6.
    let mut series = Series::default();
    series.push(reachable(0, 5));
    series.push(unreachable(1));
    series.push(reachable(2, 7));
    assert_eq!(series.smoothed, vec![Some(5), None, Some(6)]);
}

#[test]
fn smoothing_window_slides() {
    // Window of 3: averages 1; (1+2)/2; (1+2+3)/3; (2+3+4)/3.
    let mut series = Series::default();
    for (t, v) in [1u32, 2, 3, 4].iter().enumerate().map(|(t, &v)| (t as u64, v)) {
        series.push(reachable(t, v));
    }
    assert_eq!(series.smoothed, vec![Some(1), Some(1), Some(2), Some(3)]);
}

#[test]
fn timeout_count_spans_whole_log() {
    let mut series = Series::default();
    series.push(unreachable(0));
    series.push(reachable(1, 4));
    series.push(unreachable(2));
    assert_eq!(series.timeout_count(), 2);
}

#[test]
fn highest_value_in_window() {
    let mut series = Series::default();
    series.push(reachable(0, 90));
    series.push(reachable(1, 10));
    series.push(reachable(2, 20));
    assert_eq!(series.get_highest_value(None), 90);
    assert_eq!(series.get_highest_value_youngerthan(0), 20);
}

#[test]
fn get_valueonly_filters_gaps() {
    let mut series = Series::default();
    series.push(reachable(0, 3));
    series.push(unreachable(1));
    series.push(reachable(2, 9));
    assert_eq!(series.get_valueonly(None), vec![3, 9]);
}

#[test]
fn get_without_window_copies_whole_log() {
    let mut series = Series::default();
    series.push(reachable(0, 1));
    series.push(unreachable(5));
    let copy = series.get(None);
    assert_eq!(copy, series.samples);
}

#[test]
fn sma_filter_direct() {
    let mut f = Sma::new(3);
    assert_eq!(f.next(10), 10);
    assert_eq!(f.next(20), 15);
    assert_eq!(f.next(30), 20);
    // The window slides: (20 + 30 + 40) / 3.
    assert_eq!(f.next(40), 30);
}

#[test]
fn with_idxcolor_sets_colour() {
    let series = Series::with_idxcolor(2);
    assert_eq!(series.linecol_idx, 2);
    assert!(series.samples.is_empty());
}
