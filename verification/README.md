# nvme-kv-cache

A tiered key-value cache that keeps hot pages in memory and spills cold pages to a
slower backing tier, with a harness that replays access patterns against it. The
library is written in Verus: what each function does is stated in its contract, and
proved.

## Layers

```
Harness   generates access patterns, controls queue depth, records latency
   |
Cache     tiering policy: bounded hot set, LRU eviction, fault-in on miss
   |
Backend   stores pages by id (in memory: DramBackend)
```

The `Backend` trait is the seam: the same cache and harness run over any backend.

## The library, `src/`

- `page`: pages of 4096 bytes, one device block each.
- `backend`: the `Backend` trait and the in-memory `DramBackend`.
- `inner`: the state that overlapping requests share: the hot set, the fetches in
  flight, the counters. Each operation is one critical section.
- `cache`: `Cache`, which serves one request at a time over any backend.
- `workload`: access patterns and the requests they make.
- `shares`: how a distribution shares out the requests among the pages.
- `latency`: the histogram of latencies.
- `bench`: measured runs.
- `tiers`: the mathematical model of a cache that serves one request at a time.
- `laws`, `interleavings`: what holds of the cache as a whole, one request at a time
  and with overlapping requests.

## The program, `app/`

The asynchronous cache around `inner`, runs at any queue depth, and the parts that
need floating point: the Zipf distribution, the hit rate and the quantiles. It runs
the harness across all three access patterns.

## What is trusted

Verus believes the contracts of the calls into `rand` and `hdrhistogram` (in
`workload` and `latency`), of the clock, and of two functions of the standard library
on byte slices (in `page`). Each is a declaration with a comment that says what is
claimed.
