use nvme_kv_cache::{Backend, Cache, DramBackend, DramError, Page, PageId};
use std::cell::Cell;
use std::rc::Rc;

fn page_filled(byte: u8) -> Page {
    let mut p = Page::zeroed();
    p.data.fill(byte);
    p
}

#[derive(Debug, PartialEq)]
enum Fault {
    Absent,
    ReadFault,
    WriteFault,
}

/// A backend in memory that can be told to fail, and that counts its requests.
struct FaultyBackend {
    inner: DramBackend,
    fail_reads: Rc<Cell<bool>>,
    fail_writes: Rc<Cell<bool>>,
    reads: Rc<Cell<u64>>,
    writes: Rc<Cell<u64>>,
}

impl Backend for FaultyBackend {
    type Error = Fault;

    fn put(&mut self, id: PageId, page: &Page) -> Result<(), Fault> {
        self.writes.set(self.writes.get() + 1);
        if self.fail_writes.get() {
            return Err(Fault::WriteFault);
        }
        self.inner.put(id, page).map_err(|_| Fault::WriteFault)
    }

    fn get(&mut self, id: PageId, out: &mut Page) -> Result<(), Fault> {
        self.reads.set(self.reads.get() + 1);
        if self.fail_reads.get() {
            return Err(Fault::ReadFault);
        }
        self.inner.get(id, out).map_err(|_| Fault::Absent)
    }

    fn delete(&mut self, id: PageId) -> Result<(), Fault> {
        self.inner.delete(id).map_err(|_| Fault::Absent)
    }
}

fn faulty(capacity: usize) -> (Cache<FaultyBackend>, Rc<Cell<bool>>, Rc<Cell<bool>>) {
    let fail_reads = Rc::new(Cell::new(false));
    let fail_writes = Rc::new(Cell::new(false));
    let backend = FaultyBackend {
        inner: DramBackend::new(),
        fail_reads: Rc::clone(&fail_reads),
        fail_writes: Rc::clone(&fail_writes),
        reads: Rc::new(Cell::new(0)),
        writes: Rc::new(Cell::new(0)),
    };
    (Cache::new(backend, capacity), fail_reads, fail_writes)
}

#[test]
fn tiering_evicts_and_faults_back() {
    // The cold tier is a DramBackend; the hot set holds only 2 pages.
    let mut cache = Cache::new(DramBackend::new(), 2);

    cache.put(1, &page_filled(0xA1)).unwrap(); // hot: {1}
    cache.put(2, &page_filled(0xB2)).unwrap(); // hot: {1,2}
    cache.put(3, &page_filled(0xC3)).unwrap(); // over capacity -> evict LRU (1)

    assert_eq!(cache.evictions(), 1); // page 1 spilled to backend

    // Touch 2 so it's more recent than 3.
    let mut out = Page::zeroed();
    cache.get(2, &mut out).unwrap();
    assert_eq!(cache.hits(), 1);
    assert_eq!(out.data[0], 0xB2);

    // Get 1: it was evicted, so this is a miss -> fault in from backend.
    // Promoting 1 overflows the hot set, evicting the now-LRU page (3).
    cache.get(1, &mut out).unwrap();
    assert_eq!(cache.misses(), 1);
    assert_eq!(out.data[0], 0xA1); // we got page 1's bytes back
    assert_eq!(cache.evictions(), 2); // page 3 spilled on the way in
}

#[test]
fn every_page_reads_back_what_was_last_written() {
    let mut cache = Cache::new(DramBackend::new(), 3);
    for round in 0..4u8 {
        for id in 0..10u64 {
            cache.put(id, &page_filled(round * 16 + id as u8)).unwrap();
        }
        let mut out = Page::zeroed();
        for id in (0..10u64).rev() {
            cache.get(id, &mut out).unwrap();
            assert!(out.data.iter().all(|&b| b == round * 16 + id as u8));
        }
    }
}

#[test]
fn a_page_that_no_tier_has_is_not_found() {
    let mut cache = Cache::new(DramBackend::new(), 2);
    cache.put(1, &page_filled(1)).unwrap();
    let mut out = page_filled(0x5A);
    assert_eq!(cache.get(9, &mut out), Err(DramError::NotFound));
    assert_eq!(out.data[0], 0x5A);
    assert_eq!((cache.hits(), cache.misses(), cache.evictions(), cache.coalesced()), (0, 1, 0, 0));
    // The failed request left nothing behind: it fails again, and page 1 is still hot.
    assert_eq!(cache.get(9, &mut out), Err(DramError::NotFound));
    cache.get(1, &mut out).unwrap();
    assert_eq!((cache.hits(), cache.misses()), (1, 2));
}

#[test]
fn least_recently_used_page_is_displaced() {
    let mut cache = Cache::new(DramBackend::new(), 3);
    let mut out = Page::zeroed();
    for id in 0..3 {
        cache.put(id, &page_filled(id as u8)).unwrap();
    }
    cache.get(0, &mut out).unwrap(); // order of use: 1, 2, 0
    cache.put(7, &page_filled(7)).unwrap(); // displaces 1
    cache.reset_stats();
    for id in [2, 0, 7] {
        cache.get(id, &mut out).unwrap();
    }
    assert_eq!((cache.hits(), cache.misses()), (3, 0));
    cache.get(1, &mut out).unwrap();
    assert_eq!(out.data[0], 1);
    assert_eq!((cache.hits(), cache.misses(), cache.evictions()), (3, 1, 1));
}

#[test]
fn a_page_stays_hot_while_few_others_are_used() {
    let mut cache = Cache::new(DramBackend::new(), 3);
    let mut out = Page::zeroed();
    for id in 0..6 {
        cache.put(id, &page_filled(id as u8)).unwrap();
    }
    cache.get(0, &mut out).unwrap();
    // Two other pages, asked for again and again, do not displace it, and asking for the
    // page itself in between makes no difference.
    for id in [1, 2, 0, 1, 2, 2, 1] {
        cache.get(id, &mut out).unwrap();
    }
    cache.reset_stats();
    cache.get(0, &mut out).unwrap();
    assert_eq!(cache.hits(), 1);
    // Three do.
    for id in [1, 2, 3] {
        cache.get(id, &mut out).unwrap();
    }
    cache.reset_stats();
    cache.get(0, &mut out).unwrap();
    assert_eq!(cache.misses(), 1);
}

#[test]
fn writing_a_hot_page_again_displaces_nothing() {
    let mut cache = Cache::new(DramBackend::new(), 1);
    cache.put(4, &page_filled(1)).unwrap();
    cache.put(4, &page_filled(2)).unwrap();
    assert_eq!(cache.evictions(), 0);
    let mut out = Page::zeroed();
    cache.get(4, &mut out).unwrap();
    assert_eq!(out.data[100], 2);
}

#[test]
fn a_full_cache_evicts_once_per_miss() {
    let mut cache = Cache::new(DramBackend::new(), 4);
    let mut out = Page::zeroed();
    for id in 0..9 {
        cache.put(id, &page_filled(id as u8)).unwrap();
    }
    cache.reset_stats();
    for k in 0..100u64 {
        cache.get(k * k % 9, &mut out).unwrap();
    }
    assert_eq!(cache.evictions(), cache.misses());
    assert_eq!(cache.hits() + cache.misses(), 100);
    assert!(cache.hits() > 0 && cache.misses() > 0);
}

#[test]
fn hit_rate_is_hits_over_hits_and_misses() {
    let mut cache = Cache::new(DramBackend::new(), 1);
    assert_eq!(cache.hit_rate(), None);
    cache.put(1, &page_filled(1)).unwrap();
    cache.put(2, &page_filled(2)).unwrap();
    let mut out = Page::zeroed();
    cache.get(2, &mut out).unwrap();
    cache.get(1, &mut out).unwrap();
    cache.get(1, &mut out).unwrap();
    assert_eq!(cache.hit_rate(), Some((2, 3)));
    cache.reset_stats();
    assert_eq!(cache.hit_rate(), None);
    assert_eq!((cache.hits(), cache.misses(), cache.evictions(), cache.coalesced()), (0, 0, 0, 0));
    // Only the counters were set back.
    cache.get(1, &mut out).unwrap();
    assert_eq!(cache.hit_rate(), Some((1, 1)));
}

#[test]
fn a_failed_read_is_handed_on() {
    let (mut cache, fail_reads, _) = faulty(1);
    cache.put(1, &page_filled(1)).unwrap();
    cache.put(2, &page_filled(2)).unwrap();
    fail_reads.set(true);
    let mut out = page_filled(0x77);
    assert_eq!(cache.get(1, &mut out), Err(Fault::ReadFault));
    assert_eq!(out.data[0], 0x77);
    // A hot page needs no read.
    cache.get(2, &mut out).unwrap();
    assert_eq!(out.data[0], 2);
    fail_reads.set(false);
    cache.get(1, &mut out).unwrap();
    assert_eq!(out.data[0], 1);
    assert_eq!(cache.get(5, &mut out), Err(Fault::Absent));
}

#[test]
fn a_failed_spill_is_handed_on() {
    let (mut cache, _, fail_writes) = faulty(1);
    cache.put(1, &page_filled(1)).unwrap();
    cache.put(2, &page_filled(2)).unwrap(); // 1 is stored in the backend
    fail_writes.set(true);
    // Page 1 is fetched and replaces page 2, which cannot be stored.
    let mut out = Page::zeroed();
    assert_eq!(cache.get(1, &mut out), Err(Fault::WriteFault));
    assert_eq!(out.data[0], 1);
    assert_eq!(cache.evictions(), 2);
    cache.get(1, &mut out).unwrap();
    assert_eq!(cache.hits(), 1);
    // Page 3 is written, page 1 cannot be stored again, and page 3 is hot.
    assert_eq!(cache.put(3, &page_filled(3)), Err(Fault::WriteFault));
    cache.get(3, &mut out).unwrap();
    assert_eq!(out.data[0], 3);
    // The page that could not be stored is gone.
    assert_eq!(cache.get(2, &mut out), Err(Fault::Absent));
}

#[test]
fn misses_are_backend_reads_and_evictions_are_backend_writes() {
    let fail_reads = Rc::new(Cell::new(false));
    let (reads, writes) = (Rc::new(Cell::new(0)), Rc::new(Cell::new(0)));
    let backend = FaultyBackend {
        inner: DramBackend::new(),
        fail_reads: Rc::clone(&fail_reads),
        fail_writes: Rc::new(Cell::new(false)),
        reads: Rc::clone(&reads),
        writes: Rc::clone(&writes),
    };
    let mut cache = Cache::new(backend, 3);
    let mut out = Page::zeroed();
    for k in 0..40u64 {
        if k % 4 == 0 {
            cache.put(k * k % 9, &page_filled(k as u8)).unwrap();
        } else {
            // Pages that were never written fail, and so do some that were.
            fail_reads.set(k % 7 == 3);
            let _ = cache.get(k * k % 9, &mut out);
        }
        assert_eq!((cache.misses(), cache.evictions()), (reads.get(), writes.get()));
    }
    assert!(reads.get() > 0 && writes.get() > 0);
    // Counting starts again when the counters are set back.
    let (read, written) = (reads.get(), writes.get());
    fail_reads.set(false);
    cache.reset_stats();
    for id in 10..16 {
        cache.put(id, &page_filled(1)).unwrap();
    }
    cache.get(10, &mut out).unwrap();
    assert_eq!((cache.misses(), cache.evictions()), (1, 7));
    assert_eq!((reads.get() - read, writes.get() - written), (1, 7));
}

#[test]
fn a_hot_page_of_another_length_can_be_read() {
    let mut cache = Cache::new(DramBackend::new(), 2);
    let short = Page { data: vec![6u8; 32].into_boxed_slice() };
    cache.put(1, &short).unwrap();
    let mut out = Page { data: vec![0u8; 32].into_boxed_slice() };
    cache.get(1, &mut out).unwrap();
    assert_eq!(out.data.as_ref(), &[6u8; 32][..]);
}

#[test]
fn preload_stops_at_the_first_failure() {
    let (mut cache, _, fail_writes) = faulty(2);
    fail_writes.set(true);
    // The third page is the first to displace one.
    assert_eq!(nvme_kv_cache::bench::preload(&mut cache, 5), Err(Fault::WriteFault));
    assert_eq!(cache.evictions(), 1);
    let mut out = Page::zeroed();
    cache.get(2, &mut out).unwrap();
    assert_eq!((cache.hits(), cache.misses()), (1, 0));
}
