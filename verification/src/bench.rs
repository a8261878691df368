//! Measured runs: preload a cache, replay a workload against it, report.

use crate::backend::{Backend, Call, DramBackend};
use crate::cache::Cache;
use crate::latency::{
    in_range, recorded, slot, LatencyHistogram, LatencyOutOfRange, HIGHEST_LATENCY,
};
use crate::laws::{
    law_full_cache_evicts_once_per_miss, law_pages_that_fit_always_hit,
    law_requests_are_hits_or_misses, lemma_preloaded_order,
};
use crate::page::{zeroes, Page, PageId, PAGE_SIZE};
use crate::recency::{hit_positions, law_runs_hit_the_pages_used_last};
use crate::tiers::{lemma_preloaded, lemma_served, Tiers};
use crate::workload::{generate, Pattern};
use std::time::{Duration, Instant};
use vstd::multiset::Multiset;
use vstd::prelude::*;

verus! {

/// What a run has shown.
pub struct BenchResult {
    pub hits: u64,
    pub misses: u64,
    pub evictions: u64,
    pub coalesced: u64,
    /// The share of requests that were hits, as a fraction; `None` without requests.
    pub hit_rate: Option<(u64, u64)>,
    pub histogram: LatencyHistogram,
}

/// Why a run breaks off.
pub enum BenchError<E> {
    /// The backend failed a request.
    Backend(E),
    /// A request took longer than can be recorded.
    Latency(LatencyOutOfRange),
}

/// Writes the pages `0..num_pages`, all zero.
pub fn preload<B: Backend>(cache: &mut Cache<B>, num_pages: u64) -> (r: Result<(), B::Error>)
    requires
        old(cache).wf(),
        old(cache).ticks() + num_pages <= u64::MAX,
    ensures
        final(cache).wf(),
        final(cache).dependable() == old(cache).dependable(),
        old(cache).dependable() ==> r is Ok,
        r is Ok ==> {
            &&& final(cache).tiers() == old(cache).tiers().preloaded(num_pages as nat)
            &&& final(cache).ticks() == old(cache).ticks() + num_pages
        },
        r matches Err(e) ==> exists|k: nat|
            k < num_pages && {
                let reached = #[trigger] old(cache).tiers().preloaded(k);
                &&& final(cache).ticks() == old(cache).ticks() + k + 1
                &&& final(cache).tiers().same_but_cold(
                    reached.put(k as PageId, zeroes()),
                    reached.displaced(k as PageId),
                )
                &&& reached.displaced(k as PageId) matches Some(victim)
                &&& Cache::<B>::write_fault(reached.cold, victim, e)
                &&& final(cache).calls().len() > 0
                &&& final(cache).calls().last() == (Call::Put {
                    id: victim,
                    bytes: reached.hot[victim],
                    failure: Some(e),
                })
            },
{
    let filler = Page::zeroed();
    for id in 0..num_pages
        invariant
            cache.wf(),
            filler@ == zeroes(),
            cache.dependable() == old(cache).dependable(),
            cache.ticks() == old(cache).ticks() + id,
            old(cache).ticks() + num_pages <= u64::MAX,
            cache.tiers() == old(cache).tiers().preloaded(id as nat),
    {
        let ghost before = cache.backend();
        match cache.put(id, &filler) {
            Ok(()) => {},
            Err(e) => {
                assert(before.pages() == old(cache).tiers().preloaded(id as nat).cold);
                return Err(e);
            },
        }
    }
    Ok(())
}

/// `after` is `before` and `n` more counts, each of a latency, as far as a histogram can
/// count.
pub open spec fn grown(before: Multiset<u64>, after: Multiset<u64>, n: nat) -> bool {
    before.len() + n <= u64::MAX ==> {
        &&& before.subset_of(after)
        &&& after.len() == before.len() + n
        &&& forall|v: u64| #[trigger]
            after.count(v) > before.count(v) ==> exists|nanos: u64| #[trigger]
                in_range(nanos) && v == slot(nanos)
    }
}

/// `after` is what the tiers are where request `k` was served and its latency could not
/// be recorded.
pub open spec fn unrecorded(before: Tiers, requests: Seq<PageId>, k: int, after: Tiers) -> bool {
    after == before.served(requests.take(k + 1))
}

/// `after` is what the tiers are where the backend failed request `k` with `error`: it
/// could not read the page, or not store the one that was displaced.
pub open spec fn refused<B: Backend>(
    before: Tiers,
    requests: Seq<PageId>,
    k: int,
    after: Tiers,
    error: B::Error,
) -> bool {
    denied::<B>(before.served(requests.take(k)), requests[k], after, error)
}

/// `after` is what the tiers are where the backend failed a request for `id` with `error`.
pub open spec fn denied<B: Backend>(
    before: Tiers,
    id: PageId,
    after: Tiers,
    error: B::Error,
) -> bool {
    ||| {
        &&& after == (Tiers { misses: before.misses + 1, ..before })
        &&& Cache::<B>::read_fault(before.cold, id, error)
    }
    ||| {
        &&& after.same_but_cold(before.get(id), before.displaced(id))
        &&& before.displaced(id) matches Some(victim)
        &&& Cache::<B>::write_fault(before.cold, victim, error)
    }
}

/// What the clock has shown of one request: the reading taken before it, the time that had
/// passed since when it was over, and that time in nanoseconds.
pub struct Reading {
    pub start: Instant,
    pub passed: Duration,
    pub nanos: u128,
}

/// What a histogram counts of `readings`, each at its nanoseconds.
pub open spec fn slots(readings: Seq<Reading>) -> Multiset<u64>
    decreases readings.len(),
{
    if readings.len() == 0 {
        Multiset::empty()
    } else {
        slots(readings.drop_last()).insert(slot(readings.last().nanos as u64))
    }
}

/// Every reading is counted once, at the nanoseconds that the clock has shown.
pub proof fn law_readings_are_counted_in_nanoseconds(readings: Seq<Reading>, reading: Reading)
    ensures
        slots(Seq::empty()) == Multiset::<u64>::empty(),
        slots(readings.push(reading)) == slots(readings).insert(slot(reading.nanos as u64)),
        slots(readings).len() == readings.len(),
    decreases readings.len(),
{
    assert(readings.push(reading).drop_last() =~= readings);
    if readings.len() > 0 {
        law_readings_are_counted_in_nanoseconds(readings.drop_last(), reading);
    }
}

/// The error that a call ended with.
pub open spec fn reported<E>(call: Call<E>) -> Option<E> {
    match call {
        Call::Put { failure, .. } => failure,
        Call::Get { failure, .. } => failure,
        Call::Delete { failure, .. } => failure,
    }
}

/// Closes a request that took `nanos` and ended with `served`: the latency of one that was
/// served is counted, and the failure of any other is handed on.
pub fn account<E>(served: Result<(), E>, nanos: u64, histogram: &mut LatencyHistogram) -> (r:
    Result<(), BenchError<E>>)
    requires
        old(histogram).wf(),
    ensures
        final(histogram).wf(),
        match served {
            Err(e) => {
                &&& r == Err::<(), BenchError<E>>(BenchError::Backend(e))
                &&& recorded(*final(histogram)) == recorded(*old(histogram))
            },
            Ok(_) if in_range(nanos) => {
                &&& r is Ok
                &&& recorded(*old(histogram)).len() < u64::MAX ==> recorded(*final(histogram))
                    == recorded(*old(histogram)).insert(slot(nanos))
            },
            Ok(_) => {
                &&& r == Err::<(), BenchError<E>>(BenchError::Latency(LatencyOutOfRange { nanos }))
                &&& recorded(*final(histogram)) == recorded(*old(histogram))
            },
        },
{
    match served {
        Ok(()) => match histogram.record(nanos) {
            Ok(()) => Ok(()),
            Err(e) => Err(BenchError::Latency(e)),
        },
        Err(e) => Err(BenchError::Backend(e)),
    }
}

/// Asks the cache for a page and counts the nanoseconds that have passed since `start`.
fn timed_get<B: Backend>(
    cache: &mut Cache<B>,
    id: PageId,
    out: &mut Page,
    start: Instant,
    histogram: &mut LatencyHistogram,
) -> (r: Result<(), BenchError<B::Error>>)
    requires
        old(cache).wf(),
        old(cache).ticks() < u64::MAX,
        old(cache).readable(id, old(out)@.len()),
        old(histogram).wf(),
    ensures
        final(cache).wf(),
        final(cache).ticks() == old(cache).ticks() + 1,
        final(cache).dependable() == old(cache).dependable(),
        final(histogram).wf(),
        match r {
            Err(BenchError::Backend(e)) => {
                &&& !(old(cache).dependable() && old(cache).tiers().contents().contains_key(id))
                &&& denied::<B>(old(cache).tiers(), id, final(cache).tiers(), e)
                &&& final(cache).calls().len() > 0
                &&& reported(final(cache).calls().last()) == Some(e)
                &&& recorded(*final(histogram)) == recorded(*old(histogram))
            },
            _ => {
                &&& old(cache).tiers().contents().contains_key(id)
                &&& final(out)@ == old(cache).tiers().contents()[id]
                &&& final(cache).tiers() == old(cache).tiers().get(id)
                &&& exists|passed: Duration, nanos: u128|
                    #![trigger call_ensures(Duration::as_nanos, (&passed,), nanos)]
                    {
                        &&& call_ensures(Instant::elapsed, (&start,), passed)
                        &&& call_ensures(Duration::as_nanos, (&passed,), nanos)
                        &&& match r {
                            Ok(_) => {
                                &&& in_range(nanos as u64)
                                &&& recorded(*old(histogram)).len() < u64::MAX ==> recorded(
                                    *final(histogram),
                                ) == recorded(*old(histogram)).insert(slot(nanos as u64))
                            },
                            Err(BenchError::Latency(e)) => {
                                &&& e.nanos == nanos as u64
                                &&& !in_range(e.nanos)
                                &&& recorded(*final(histogram)) == recorded(*old(histogram))
                            },
                            _ => false,
                        }
                    }
            },
        },
{
    let ghost before = cache.backend();
    let served = cache.get(id, out);
    let passed = start.elapsed();
    let nanos: u128 = passed.as_nanos();
    assert(before.pages() == old(cache).tiers().cold);
    assert(call_ensures(Duration::as_nanos, (&passed,), nanos));
    account(served, #[verifier::truncate] (nanos as u64), histogram)
}

/// Asks the cache for the pages in `requests`, one after the other, and counts the
/// nanoseconds that the clock shows to have passed from before each one until it is over.
/// What the clock shows is left open.
pub fn replay<B: Backend>(
    cache: &mut Cache<B>,
    requests: &Vec<PageId>,
    histogram: &mut LatencyHistogram,
) -> (r: Result<(), BenchError<B::Error>>)
    requires
        old(cache).wf(),
        old(cache).ticks() + requests@.len() <= u64::MAX,
        forall|id: PageId|
            requests@.contains(id) && #[trigger] old(cache).tiers().contents().contains_key(id)
                ==> old(cache).tiers().contents()[id].len() == PAGE_SIZE,
        old(histogram).wf(),
    ensures
        final(cache).wf(),
        final(cache).dependable() == old(cache).dependable(),
        final(histogram).wf(),
        r is Ok ==> {
            &&& final(cache).tiers() == old(cache).tiers().served(requests@)
            &&& final(cache).ticks() == old(cache).ticks() + requests@.len()
            &&& grown(recorded(*old(histogram)), recorded(*final(histogram)), requests@.len())
            &&& forall|id: PageId| #[trigger]
                requests@.contains(id) ==> old(cache).tiers().contents().contains_key(id)
        },
        r matches Err(BenchError::Latency(e)) ==> {
            &&& !in_range(e.nanos)
            &&& e.nanos > HIGHEST_LATENCY
            &&& exists|k: int|
                0 <= k < requests@.len() && #[trigger] unrecorded(
                    old(cache).tiers(),
                    requests@,
                    k,
                    final(cache).tiers(),
                ) && grown(recorded(*old(histogram)), recorded(*final(histogram)), k as nat)
                    && final(cache).ticks() == old(cache).ticks() + k + 1
        },
        r matches Err(BenchError::Backend(e)) ==> {
            &&& !(old(cache).dependable() && forall|id: PageId| #[trigger]
                requests@.contains(id) ==> old(cache).tiers().contents().contains_key(id))
            &&& exists|k: int|
                0 <= k < requests@.len() && #[trigger] refused::<B>(
                    old(cache).tiers(),
                    requests@,
                    k,
                    final(cache).tiers(),
                    e,
                ) && grown(recorded(*old(histogram)), recorded(*final(histogram)), k as nat)
                    && final(cache).ticks() == old(cache).ticks() + k + 1
            &&& final(cache).calls().len() > 0
            &&& reported(final(cache).calls().last()) == Some(e)
        },
        exists|readings: Seq<Reading>|
            {
                &&& forall|i: int|
                    0 <= i < readings.len() ==> {
                        let reading = #[trigger] readings[i];
                        &&& call_ensures(Instant::now, (), reading.start)
                        &&& call_ensures(Instant::elapsed, (&reading.start,), reading.passed)
                        &&& call_ensures(Duration::as_nanos, (&reading.passed,), reading.nanos)
                        &&& in_range(reading.nanos as u64)
                    }
                &&& recorded(*old(histogram)).len() + readings.len() <= u64::MAX ==> recorded(
                    *final(histogram),
                ) == recorded(*old(histogram)).add(#[trigger] slots(readings))
                &&& final(cache).ticks() == old(cache).ticks() + readings.len() + if r is Ok {
                    0int
                } else {
                    1
                }
            },
        r matches Err(BenchError::Latency(e)) ==> exists|
            start: Instant,
            passed: Duration,
            nanos: u128,
        |
            #![trigger
                call_ensures(Instant::elapsed, (&start,), passed),
                call_ensures(Duration::as_nanos, (&passed,), nanos)
            ]
            {
                &&& call_ensures(Instant::now, (), start)
                &&& call_ensures(Instant::elapsed, (&start,), passed)
                &&& call_ensures(Duration::as_nanos, (&passed,), nanos)
                &&& e.nanos == nanos as u64
            },
{
    let ghost mut readings: Seq<Reading> = Seq::empty();
    let mut out = Page::zeroed();
    assert(requests@.take(0) =~= Seq::empty());
    for k in 0..requests.len()
        invariant
            cache.wf(),
            old(cache).wf(),
            out@.len() == PAGE_SIZE,
            cache.dependable() == old(cache).dependable(),
            cache.ticks() == old(cache).ticks() + k,
            old(cache).ticks() + requests@.len() <= u64::MAX,
            cache.tiers() == old(cache).tiers().served(requests@.take(k as int)),
            forall|id: PageId|
                requests@.contains(id) && #[trigger] old(cache).tiers().contents().contains_key(id)
                    ==> old(cache).tiers().contents()[id].len() == PAGE_SIZE,
            histogram.wf(),
            grown(recorded(*old(histogram)), recorded(*histogram), k as nat),
            forall|i: int|
                0 <= i < k ==> old(cache).tiers().contents().contains_key(#[trigger] requests@[i]),
            readings.len() == k,
            forall|i: int|
                0 <= i < readings.len() ==> {
                    let reading = #[trigger] readings[i];
                    &&& call_ensures(Instant::now, (), reading.start)
                    &&& call_ensures(Instant::elapsed, (&reading.start,), reading.passed)
                    &&& call_ensures(Duration::as_nanos, (&reading.passed,), reading.nanos)
                    &&& in_range(reading.nanos as u64)
                },
            recorded(*old(histogram)).len() + readings.len() <= u64::MAX ==> recorded(*histogram)
                == recorded(*old(histogram)).add(slots(readings)),
    {
        let id = requests[k];
        proof {
            lemma_served(old(cache).tiers(), requests@.take(k as int));
            assert(requests@.contains(id));
            assert(requests@.take(k + 1).drop_last() =~= requests@.take(k as int));
        }
        let ghost counted = recorded(*histogram);
        let start = Instant::now();
        match timed_get(cache, id, &mut out, start, histogram) {
            Ok(()) => {
                proof {
                    let (passed, nanos) = choose|passed: Duration, nanos: u128|
                        #![trigger call_ensures(Duration::as_nanos, (&passed,), nanos)]
                        {
                            &&& call_ensures(Instant::elapsed, (&start,), passed)
                            &&& call_ensures(Duration::as_nanos, (&passed,), nanos)
                            &&& in_range(nanos as u64)
                            &&& counted.len() < u64::MAX ==> recorded(*histogram)
                                == counted.insert(slot(nanos as u64))
                        };
                    let reading = Reading { start, passed, nanos };
                    law_readings_are_counted_in_nanoseconds(readings, reading);
                    assert(recorded(*old(histogram)).add(slots(readings)).insert(
                        slot(nanos as u64),
                    ) =~= recorded(*old(histogram)).add(slots(readings.push(reading))));
                    readings = readings.push(reading);
                }
            },
            Err(e) => {
                proof {
                    if e is Backend {
                        assert(refused::<B>(
                            old(cache).tiers(),
                            requests@,
                            k as int,
                            cache.tiers(),
                            e->Backend_0,
                        ));
                    } else {
                        assert(unrecorded(old(cache).tiers(), requests@, k as int, cache.tiers()));
                    }
                    law_readings_are_counted_in_nanoseconds(readings, arbitrary());
                }
                return Err(e);
            },
        }
    }
    proof {
        assert(requests@.take(requests@.len() as int) =~= requests@);
        law_readings_are_counted_in_nanoseconds(readings, arbitrary());
    }
    Ok(())
}

/// What the tiers come to in a run: the hot set starts empty, all pages are written,
/// the counters are set back, and the requests are served.
pub open spec fn workload_tiers(
    pattern: Pattern,
    num_pages: u64,
    capacity: nat,
    num_requests: nat,
    seed: u64,
) -> Tiers {
    Tiers::over(capacity, Map::empty()).preloaded(num_pages as nat).reset().served(
        pattern.requests(num_pages, num_requests, seed),
    )
}

/// Runs a workload against a cache over an in-memory backend, one request at a time.
/// It breaks off only where a request takes longer than can be recorded. Every request
/// is a hit or a miss, and it is a hit where its page is among the `capacity` distinct
/// pages used last; where all pages fit, none is a miss, and where the hot set is full,
/// every miss displaces a page. The histogram holds the nanoseconds of each request.
pub fn run_workload(
    pattern: &Pattern,
    num_pages: u64,
    capacity: usize,
    num_requests: usize,
    seed: u64,
) -> (r: Result<BenchResult, LatencyOutOfRange>)
    requires
        1 <= capacity,
        pattern.covers(num_pages, num_requests as nat),
        num_pages + num_requests <= u64::MAX,
    ensures
        match r {
            Ok(result) => {
                let requests = pattern.requests(num_pages, num_requests as nat, seed);
                let hits = hit_positions(num_pages, requests, capacity as nat);
                let tiers = workload_tiers(
                    *pattern,
                    num_pages,
                    capacity as nat,
                    num_requests as nat,
                    seed,
                );
                &&& hits.finite()
                &&& result.hits == hits.len()
                &&& result.misses == num_requests - hits.len()
                &&& result.hits == tiers.hits
                &&& result.misses == tiers.misses
                &&& result.evictions == tiers.evictions
                &&& result.coalesced == 0
                &&& result.hits + result.misses == num_requests
                &&& result.hit_rate == if num_requests == 0 {
                    None::<(u64, u64)>
                } else {
                    Some((result.hits, num_requests as u64))
                }
                &&& num_pages <= capacity ==> result.misses == 0 && result.evictions == 0
                &&& num_pages >= capacity ==> result.evictions == result.misses
                &&& result.histogram.wf()
                &&& grown(
                    Multiset::empty(),
                    recorded(result.histogram),
                    num_requests as nat,
                )
                &&& recorded(result.histogram).len() == num_requests
                &&& exists|readings: Seq<Reading>|
                    {
                        &&& readings.len() == num_requests
                        &&& recorded(result.histogram) == #[trigger] slots(readings)
                        &&& forall|i: int|
                            0 <= i < readings.len() ==> {
                                let reading = #[trigger] readings[i];
                                &&& call_ensures(Instant::now, (), reading.start)
                                &&& call_ensures(
                                    Instant::elapsed,
                                    (&reading.start,),
                                    reading.passed,
                                )
                                &&& call_ensures(
                                    Duration::as_nanos,
                                    (&reading.passed,),
                                    reading.nanos,
                                )
                            }
                    }
            },
            Err(e) => {
                &&& exists|start: Instant, passed: Duration, nanos: u128|
                    #![trigger
                        call_ensures(Instant::elapsed, (&start,), passed),
                        call_ensures(Duration::as_nanos, (&passed,), nanos)
                    ]
                    {
                        &&& call_ensures(Instant::now, (), start)
                        &&& call_ensures(Instant::elapsed, (&start,), passed)
                        &&& call_ensures(Duration::as_nanos, (&passed,), nanos)
                        &&& e.nanos == nanos as u64
                    }
                &&& 0 < num_requests
                &&& !in_range(e.nanos)
                &&& e.nanos > HIGHEST_LATENCY
            },
        },
{
    let mut cache = Cache::new(DramBackend::new(), capacity);
    let ghost start = cache.tiers();
    proof {
        lemma_preloaded(start, num_pages as nat);
    }
    // An in-memory backend takes every page.
    let _ = preload(&mut cache, num_pages);
    cache.reset_stats();
    let requests = generate(pattern, num_pages, num_requests, seed);
    let mut histogram = LatencyHistogram::new();
    proof {
        let loaded = start.preloaded(num_pages as nat);
        assert(loaded.reset().contents() == loaded.contents());
        assert forall|id: PageId| #[trigger] requests@.contains(id) implies {
            &&& loaded.contents().contains_key(id)
            &&& loaded.contents()[id] == zeroes()
        } by {
            let k = requests@.index_of(id);
            assert(requests@[k] == id);
        }
        lemma_served(loaded.reset(), requests@);
        law_runs_hit_the_pages_used_last(
            *pattern,
            num_pages,
            capacity as nat,
            num_requests as nat,
            seed,
        );
        law_requests_are_hits_or_misses(loaded.reset(), requests@);
        if num_pages <= capacity {
            law_pages_that_fit_always_hit(capacity as nat, num_pages, requests@);
        }
        if num_pages >= capacity {
            lemma_preloaded_order(capacity as nat, Map::empty(), num_pages as nat);
            law_full_cache_evicts_once_per_miss(loaded.reset(), requests@);
        }
    }
    match replay(&mut cache, &requests, &mut histogram) {
        Ok(()) => {
            proof {
                let readings = choose|readings: Seq<Reading>|
                    {
                        &&& recorded(histogram) == Multiset::empty().add(
                            #[trigger] slots(readings),
                        )
                        &&& readings.len() == num_requests
                        &&& forall|i: int|
                            0 <= i < readings.len() ==> {
                                let reading = #[trigger] readings[i];
                                &&& call_ensures(Instant::now, (), reading.start)
                                &&& call_ensures(
                                    Instant::elapsed,
                                    (&reading.start,),
                                    reading.passed,
                                )
                                &&& call_ensures(
                                    Duration::as_nanos,
                                    (&reading.passed,),
                                    reading.nanos,
                                )
                            }
                    };
                assert(Multiset::empty().add(slots(readings)) =~= slots(readings));
            }
        },
        Err(BenchError::Latency(e)) => {
            return Err(e);
        },
        Err(BenchError::Backend(_)) => {
            // Every page that is asked for has been preloaded.
            assert(false);
        },
    }
    Ok(
        BenchResult {
            hits: cache.hits(),
            misses: cache.misses(),
            evictions: cache.evictions(),
            coalesced: cache.coalesced(),
            hit_rate: cache.hit_rate(),
            histogram,
        },
    )
}

} // verus!
