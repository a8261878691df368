use nvme_kv_cache::workload::{generate, rank_of, Pattern, WHOLE};
use rand::rngs::StdRng;
use rand::{Rng, SeedableRng};

/// The share of the first pages in a distribution in which page `k` has a weight of
/// 1 / (k + 1)^skew.
fn shares(n: u64, skew: f64) -> Vec<f64> {
    let mut acc = 0.0;
    let mut cdf = Vec::new();
    for k in 1..=n {
        acc += 1.0 / (k as f64).powf(skew);
        cdf.push(acc);
    }
    let total = *cdf.last().unwrap();
    cdf.iter().map(|c| c / total).collect()
}

fn zipf(n: u64, skew: f64) -> Pattern {
    Pattern::Zipf { cdf: shares(n, skew).iter().map(|c| (c * WHOLE as f64).ceil() as u64).collect() }
}

#[test]
fn sequential_requests_go_round() {
    assert_eq!(generate(&Pattern::Sequential, 3, 8, 99), vec![0, 1, 2, 0, 1, 2, 0, 1]);
}

#[test]
fn no_requests_need_no_pages() {
    assert!(generate(&Pattern::Sequential, 0, 0, 1).is_empty());
    assert!(generate(&Pattern::Uniform, 0, 0, 1).is_empty());
}

#[test]
fn uniform_requests_are_the_generator_s_draws() {
    let requests = generate(&Pattern::Uniform, 1000, 500, 42);
    let mut rng = StdRng::seed_from_u64(42);
    let draws: Vec<u64> = (0..500).map(|_| rng.gen_range(0..1000u64)).collect();
    assert_eq!(requests, draws);
    assert!(requests.iter().all(|&id| id < 1000));
}

#[test]
fn the_seed_decides_the_requests() {
    let a = generate(&Pattern::Uniform, 1000, 100, 1);
    assert_eq!(a, generate(&Pattern::Uniform, 1000, 100, 1));
    assert_ne!(a, generate(&Pattern::Uniform, 1000, 100, 2));
    let z = generate(&zipf(1000, 1.0), 1000, 100, 1);
    assert_eq!(z, generate(&zipf(1000, 1.0), 1000, 100, 1));
    assert_ne!(z, generate(&zipf(1000, 1.0), 1000, 100, 2));
}

#[test]
fn zipf_requests_are_inverse_samples_of_the_shares() {
    for skew in [0.0, 0.5, 1.0, 2.5] {
        let requests = generate(&zipf(200, skew), 200, 2000, 7);
        let cdf = shares(200, skew);
        let mut rng = StdRng::seed_from_u64(7);
        let samples: Vec<u64> = (0..2000)
            .map(|_| {
                let u: f64 = rng.gen();
                cdf.partition_point(|&c| c <= u) as u64
            })
            .collect();
        assert_eq!(requests, samples);
    }
}

#[test]
fn the_first_page_of_a_zipf_workload_is_the_hottest() {
    let requests = generate(&zipf(100, 1.0), 100, 20_000, 3);
    let mut counts = vec![0u32; 100];
    for id in requests {
        counts[id as usize] += 1;
    }
    assert_eq!(counts.iter().max(), Some(&counts[0]));
    assert!(counts[0] > 2 * counts[9]);
}

#[test]
fn draws_are_shared_out_by_weight() {
    let Pattern::Zipf { cdf } = zipf(100, 1.0) else { panic!("the pattern is a distribution") };
    assert_eq!(cdf[99], WHOLE);
    let sum: f64 = (1..=100).map(|k| 1.0 / k as f64).sum();
    let mut low = 0;
    let mut last = u64::MAX - 64;
    for (k, &high) in cdf.iter().enumerate() {
        // The page has the draws from the entry before up to its own.
        assert_eq!(rank_of(&cdf, low), k);
        assert_eq!(rank_of(&cdf, high - 1), k);
        assert_ne!(rank_of(&cdf, high), k);
        let share = high - low;
        assert!(share <= last + 64);
        let exact = WHOLE as f64 / (k as f64 + 1.0) / sum;
        assert!((share as f64 - exact).abs() <= 64.0);
        (low, last) = (high, share);
    }
}

#[test]
fn rank_is_the_first_entry_above_the_draw() {
    let cdf = vec![10, 10, 20, 30];
    assert_eq!(rank_of(&cdf, 0), 0);
    assert_eq!(rank_of(&cdf, 9), 0);
    assert_eq!(rank_of(&cdf, 10), 2);
    assert_eq!(rank_of(&cdf, 19), 2);
    assert_eq!(rank_of(&cdf, 20), 3);
    assert_eq!(rank_of(&cdf, 29), 3);
    assert_eq!(rank_of(&cdf, 30), 4);
    assert_eq!(rank_of(&vec![], 5), 0);
}
