use pingmon::sample::Sample;
use pingmon::stats::{isqrt64, mean, pingstat_from_rawdata, sorted_copy, std_deviation};

fn reachable(at: u64, latency: u32) -> Sample {
    Sample::Reachable { at, latency }
}

fn unreachable(at: u64) -> Sample {
    Sample::Unreachable { at }
}

#[test]
fn stats_known_input() {
    // latencies 10..50: min 10, max 50, avg 30, last 50, p95 at rank
    // ceil(0.95 * 5) = 5 -> 50, no timeouts.
    let log: Vec<Sample> = (1u64..=5)
        .map(|i| reachable(i, 10 * i as u32))
        .collect();
    let s = pingstat_from_rawdata(&log);
    assert_eq!(s.min, 10);
    assert_eq!(s.max, 50);
    assert_eq!(s.avg, 30);
    assert_eq!(s.last, 50);
    assert_eq!(s.p95, 50);
    assert_eq!(s.timeouts, 0);
    // population stddev of [10,20,30,40,50] is sqrt(200) = 14.14...,
    // truncated to integer latency units.
    assert_eq!(s.jitter, 14);
}

#[test]
fn stats_known_input_microseconds() {
    // The same five latencies at microsecond resolution: the truncated
    // stddev now shows the fraction, sqrt(200_000_000) = 14142.1...
    let log: Vec<Sample> = (1u64..=5)
        .map(|i| reachable(i, 10_000 * i as u32))
        .collect();
    let s = pingstat_from_rawdata(&log);
    assert_eq!(s.avg, 30_000);
    assert_eq!(s.jitter, 14_142);
    assert_eq!(s.p95, 50_000);
}

#[test]
fn stats_empty_window_defaults() {
    let log: Vec<Sample> = Vec::new();
    let s = pingstat_from_rawdata(&log);
    assert_eq!(s.last, 0);
    assert_eq!(s.min, 0);
    assert_eq!(s.max, 0);
    assert_eq!(s.avg, 0);
    assert_eq!(s.jitter, 0);
    assert_eq!(s.p95, 0);
    assert_eq!(s.timeouts, 0);
}

#[test]
fn stats_all_unreachable_window() {
    let log = vec![unreachable(0), unreachable(1), unreachable(2)];
    let s = pingstat_from_rawdata(&log);
    assert_eq!(s.last, 0);
    assert_eq!(s.min, 0);
    assert_eq!(s.max, 0);
    assert_eq!(s.avg, 0);
    assert_eq!(s.jitter, 0);
    assert_eq!(s.p95, 0);
    assert_eq!(s.timeouts, 3);
}

#[test]
fn stats_mixed_window_counts_timeouts_only() {
    let log = vec![reachable(0, 8), unreachable(1), reachable(2, 12), unreachable(3)];
    let s = pingstat_from_rawdata(&log);
    assert_eq!(s.timeouts, 2);
    assert_eq!(s.min, 8);
    assert_eq!(s.max, 12);
    assert_eq!(s.avg, 10);
    assert_eq!(s.last, 12);
}

#[test]
fn p95_single_value() {
    let log = vec![reachable(0, 42)];
    let s = pingstat_from_rawdata(&log);
    assert_eq!(s.p95, 42);
}

#[test]
fn p95_unsorted_input_is_sorted_first() {
    // 20 values 1..=20 in reverse order: rank ceil(0.95 * 20) = 19.
    let log: Vec<Sample> = (0u64..20)
        .map(|i| reachable(i, 20 - i as u32))
        .collect();
    let s = pingstat_from_rawdata(&log);
    assert_eq!(s.p95, 19);
}

#[test]
fn mean_and_std_deviation_empty() {
    let data: Vec<u32> = Vec::new();
    assert_eq!(mean(&data), None);
    assert_eq!(std_deviation(&data), None);
}

#[test]
fn mean_truncates_towards_zero() {
    let data = vec![1, 2, 2];
    assert_eq!(mean(&data), Some(1));
    let data = vec![3, 3, 4];
    assert_eq!(mean(&data), Some(3));
}

#[test]
fn std_deviation_constant_input_is_zero() {
    let data = vec![7, 7, 7, 7];
    assert_eq!(std_deviation(&data), Some(0));
}

#[test]
fn isqrt_edges() {
    assert_eq!(isqrt64(0), 0);
    assert_eq!(isqrt64(1), 1);
    assert_eq!(isqrt64(15), 3);
    assert_eq!(isqrt64(16), 4);
    assert_eq!(isqrt64(u64::MAX), 4_294_967_295);
}

#[test]
fn sorted_copy_sorts_ascending() {
    let data = vec![5, 1, 4, 1, 3];
    let s = sorted_copy(&data);
    assert_eq!(s, vec![1, 1, 3, 4, 5]);
}
