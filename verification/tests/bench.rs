use nvme_kv_cache::bench::{account, preload, replay, BenchError};
use nvme_kv_cache::latency::{LatencyHistogram, LatencyOutOfRange, HIGHEST_LATENCY};
use nvme_kv_cache::workload::{Pattern, WHOLE};
use nvme_kv_cache::{run_workload, Cache, DramBackend, DramError, Page};

/// The distribution over `n` pages in which page `k` has a weight of 1 / (k + 1)^skew.
fn zipf(n: u64, skew: f64) -> Pattern {
    let mut acc = 0.0;
    let mut cdf = Vec::new();
    for k in 1..=n {
        acc += 1.0 / (k as f64).powf(skew);
        cdf.push(acc);
    }
    let total = *cdf.last().unwrap();
    Pattern::Zipf { cdf: cdf.iter().map(|c| (c / total * WHOLE as f64).ceil() as u64).collect() }
}

fn counted(histogram: &LatencyHistogram) -> u64 {
    histogram.counts().iter().map(|&(_, count)| count).sum()
}

/// Hits, misses, evictions and joined fetches of a run of 200,000 requests.
fn baseline(pattern: Pattern) -> (u64, u64, u64, u64) {
    let result = run_workload(&pattern, 10_000, 1_000, 200_000, 42).unwrap();
    assert_eq!(counted(&result.histogram), 200_000);
    assert_eq!(result.hit_rate, Some((result.hits, 200_000)));
    (result.hits, result.misses, result.evictions, result.coalesced)
}

#[test]
fn sequential_baseline() {
    assert_eq!(baseline(Pattern::Sequential), (0, 200_000, 200_000, 0));
}

#[test]
fn uniform_baseline() {
    assert_eq!(baseline(Pattern::Uniform), (20_027, 179_973, 179_973, 0));
}

#[test]
fn zipf_baseline() {
    assert_eq!(baseline(zipf(10_000, 1.0)), (135_069, 64_931, 64_931, 0));
}

#[test]
fn pages_that_fit_always_hit() {
    let result = run_workload(&Pattern::Uniform, 50, 50, 1_000, 5).unwrap();
    assert_eq!((result.hits, result.misses, result.evictions), (1_000, 0, 0));
}

#[test]
fn a_run_without_requests_counts_nothing() {
    let result = run_workload(&Pattern::Uniform, 20, 3, 0, 5).unwrap();
    assert_eq!((result.hits, result.misses, result.evictions, result.coalesced), (0, 0, 0, 0));
    assert_eq!(result.hit_rate, None);
    assert!(result.histogram.counts().is_empty());
}

#[test]
fn numbers_do_not_depend_on_what_the_backend_stores() {
    let mut stored = DramBackend::new();
    let mut page = Page::zeroed();
    page.data.fill(3);
    for id in 0..40 {
        nvme_kv_cache::Backend::put(&mut stored, id, &page).unwrap();
    }
    let requests: Vec<u64> = (0..300).map(|k| (k * k + 3 * k) % 25).collect();
    let mut numbers = Vec::new();
    for backend in [DramBackend::new(), stored] {
        let mut cache = Cache::new(backend, 6);
        let mut histogram = LatencyHistogram::new();
        preload(&mut cache, 25).unwrap();
        cache.reset_stats();
        assert!(replay(&mut cache, &requests, &mut histogram).is_ok());
        assert_eq!(counted(&histogram), 300);
        numbers.push((cache.hits(), cache.misses(), cache.evictions()));
    }
    assert_eq!(numbers[0], numbers[1]);
}

#[test]
fn preload_writes_zeroed_pages() {
    let mut cache = Cache::new(DramBackend::new(), 2);
    preload(&mut cache, 5).unwrap();
    assert_eq!(cache.evictions(), 3);
    let mut out = Page::zeroed();
    for id in 0..5 {
        out.data.fill(1);
        cache.get(id, &mut out).unwrap();
        assert!(out.data.iter().all(|&b| b == 0));
    }
    assert_eq!(cache.get(5, &mut out), Err(DramError::NotFound));
}

#[test]
fn replay_breaks_off_at_a_missing_page() {
    let mut cache = Cache::new(DramBackend::new(), 2);
    preload(&mut cache, 3).unwrap();
    cache.reset_stats();
    let mut histogram = LatencyHistogram::new();
    let r = replay(&mut cache, &vec![2, 9, 1], &mut histogram);
    assert!(matches!(r, Err(BenchError::Backend(DramError::NotFound))));
    assert_eq!((cache.hits(), cache.misses()), (1, 1));
    assert_eq!(counted(&histogram), 1);
}

#[test]
fn a_served_request_is_counted_and_a_failure_is_handed_on() {
    let mut histogram = LatencyHistogram::new();
    assert!(account(Ok::<(), DramError>(()), 10_003, &mut histogram).is_ok());
    assert_eq!(histogram.counts(), vec![(10_007, 1)]);
    let r = account(Err(DramError::NotFound), 5, &mut histogram);
    assert!(matches!(r, Err(BenchError::Backend(DramError::NotFound))));
    let r = account(Ok::<(), DramError>(()), 1 << 40, &mut histogram);
    assert!(matches!(r, Err(BenchError::Latency(LatencyOutOfRange { nanos: 0x100_0000_0000 }))));
    assert_eq!(counted(&histogram), 1);
}

#[test]
fn latencies_are_counted_to_three_digits() {
    let mut histogram = LatencyHistogram::new();
    for nanos in [5, 1, 1, 10_000, 10_007, 10_008, 0] {
        histogram.record(nanos).unwrap();
    }
    assert_eq!(histogram.counts(), vec![(0, 1), (1, 2), (5, 1), (10_007, 2), (10_015, 1)]);
}

#[test]
fn latencies_over_a_minute_can_be_out_of_range() {
    let mut histogram = LatencyHistogram::new();
    histogram.record(HIGHEST_LATENCY).unwrap();
    assert_eq!(histogram.record(u64::MAX), Err(LatencyOutOfRange { nanos: u64::MAX }));
    assert_eq!(counted(&histogram), 1);
    // The range ends at a power of two.
    let end = 1 << 36;
    assert_eq!(histogram.record(end), Err(LatencyOutOfRange { nanos: end }));
    histogram.record(end - 1).unwrap();
    assert_eq!(counted(&histogram), 2);
    assert_eq!(histogram.counts()[1], (end - 1, 1));
}

#[test]
fn each_further_bit_doubles_what_is_counted_together() {
    let mut histogram = LatencyHistogram::new();
    for nanos in [2_047, 2_048, 2_049, 2_050, 4_095, 4_096, 4_099, 4_100] {
        histogram.record(nanos).unwrap();
    }
    assert_eq!(
        histogram.counts(),
        vec![(2_047, 1), (2_049, 2), (2_051, 1), (4_095, 1), (4_099, 2), (4_103, 1)]
    );
}

#[test]
fn a_larger_hot_set_never_loses_a_hit() {
    let mut last = (0, 3_000, 3_000);
    for capacity in [1, 2, 5, 17, 40, 99, 100, 300] {
        let r = run_workload(&zipf(100, 1.0), 100, capacity, 3_000, 9).unwrap();
        assert!(r.hits >= last.0 && r.misses <= last.1 && r.evictions <= last.2);
        last = (r.hits, r.misses, r.evictions);
    }
    assert_eq!(last, (3_000, 0, 0));
}
