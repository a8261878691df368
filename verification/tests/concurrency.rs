use nvme_kv_cache::inner::{FlightHandle, FollowStep, GetStep, InFlight, Inner};
use nvme_kv_cache::{Backend, DramBackend, DramError, Page, PageId};
use std::cell::RefCell;
use std::rc::Rc;

/// What the requests for one page share.
#[derive(Clone)]
struct Shared(Rc<RefCell<InFlight>>);

impl FlightHandle for Shared {
    fn open() -> Self {
        Shared(Rc::new(RefCell::new(InFlight::new())))
    }
}

/// A backend that wraps DRAM and counts the reads.
struct CountingBackend {
    inner: DramBackend,
    reads: u64,
}

impl CountingBackend {
    fn new() -> Self {
        CountingBackend { inner: DramBackend::new(), reads: 0 }
    }
}

impl Backend for CountingBackend {
    type Error = DramError;

    fn put(&mut self, id: PageId, page: &Page) -> Result<(), DramError> {
        self.inner.put(id, page)
    }

    fn get(&mut self, id: PageId, out: &mut Page) -> Result<(), DramError> {
        self.reads += 1;
        self.inner.get(id, out)
    }

    fn delete(&mut self, id: PageId) -> Result<(), DramError> {
        self.inner.delete(id)
    }
}

fn page_filled(byte: u8) -> Page {
    let mut p = Page::zeroed();
    p.data.fill(byte);
    p
}

fn lead(inner: &mut Inner<Shared>, id: PageId) -> Shared {
    match inner.start_get(id, &mut Page::zeroed()) {
        GetStep::Lead(flight) => flight,
        _ => panic!("the request should lead"),
    }
}

fn follow(inner: &mut Inner<Shared>, id: PageId) -> Shared {
    match inner.start_get(id, &mut Page::zeroed()) {
        GetStep::Follow(flight) => flight,
        _ => panic!("the request should follow"),
    }
}

#[test]
fn concurrent_misses_coalesce_to_one_read() {
    // Seed page 7 into the backend only (not the hot set), so gets miss.
    let mut backend = CountingBackend::new();
    let mut seed = Page::zeroed();
    seed.data.fill(0x77);
    backend.put(7, &seed).unwrap();

    let mut inner: Inner<Shared> = Inner::new(4);

    // 16 gets for the same cold page start before any of them is done.
    let mut outs: Vec<Page> = (0..16).map(|_| Page::zeroed()).collect();
    let mut leaders = Vec::new();
    let mut followers = Vec::new();
    for (k, out) in outs.iter_mut().enumerate() {
        match inner.start_get(7, out) {
            GetStep::Hit => panic!("page 7 is not hot"),
            GetStep::Follow(flight) => followers.push((k, flight)),
            GetStep::Lead(flight) => leaders.push((k, flight)),
        }
    }
    for (k, flight) in &followers {
        assert!(!flight.0.borrow().try_read(&mut outs[*k])); // nothing to read yet
    }
    for (k, flight) in leaders {
        let mut page = Page::zeroed();
        backend.get(7, &mut page).unwrap();
        flight.0.borrow_mut().publish(&page.data);
        let victims = inner.finish_get(7, Ok::<Page, DramError>(page), &mut outs[k]).unwrap();
        assert!(victims.is_empty());
    }
    for (k, flight) in &followers {
        assert!(flight.0.borrow().try_read(&mut outs[*k]));
    }
    for out in &outs {
        assert_eq!(out.data[0], 0x77); // everyone got the right bytes
    }

    // The whole point: 16 concurrent misses, but only ONE backend read.
    let reads = backend.reads;
    assert_eq!(reads, 1, "single-flight should coalesce to one read, got {reads}");
    assert_eq!(inner.coalesced(), 15); // 1 leader + 15 followers
    assert_eq!((inner.hits(), inner.misses(), inner.evictions()), (0, 1, 0));
    assert_eq!(inner.ticks(), 16);
}

#[test]
fn a_page_that_was_fetched_is_hot() {
    let mut inner: Inner<Shared> = Inner::new(2);
    lead(&mut inner, 1);
    let mut out = Page::zeroed();
    inner.finish_get(1, Ok::<Page, DramError>(page_filled(5)), &mut out).unwrap();
    assert_eq!(out.data[0], 5);
    let mut again = Page::zeroed();
    assert!(matches!(inner.start_get(1, &mut again), GetStep::Hit));
    assert_eq!(again.data[4095], 5);
    assert_eq!(inner.hit_rate(), Some((1, 2)));
}

#[test]
fn after_a_failed_fetch_the_next_request_leads() {
    let mut inner: Inner<Shared> = Inner::new(2);
    let leading = lead(&mut inner, 1);
    let waiting = follow(&mut inner, 1);
    let mut out = page_filled(9);
    assert!(!waiting.0.borrow().is_abandoned());
    leading.0.borrow_mut().abandon();
    let r = inner.finish_get(1, Err(DramError::NotFound), &mut out);
    assert!(matches!(r, Err(DramError::NotFound)));
    assert_eq!(out.data[0], 9);
    // The follower has nothing to read, and nothing to wait for.
    assert!(waiting.0.borrow().is_abandoned());
    assert!(!waiting.0.borrow().try_read(&mut out));
    assert_eq!(out.data[0], 9);
    // The page can be asked for anew, in a fetch of its own.
    let anew = lead(&mut inner, 1);
    assert!(!anew.0.borrow().is_abandoned());
    assert_eq!((inner.misses(), inner.coalesced()), (2, 1));
}

#[test]
fn fetches_of_different_pages_do_not_meet() {
    let mut inner: Inner<Shared> = Inner::new(1);
    lead(&mut inner, 1);
    lead(&mut inner, 2);
    let mut out = Page::zeroed();
    let none = inner.finish_get(1, Ok::<Page, DramError>(page_filled(1)), &mut out).unwrap();
    assert!(none.is_empty());
    follow(&mut inner, 2);
    // The second page comes in later and displaces the first.
    let victims = inner.finish_get(2, Ok::<Page, DramError>(page_filled(2)), &mut out).unwrap();
    assert_eq!(victims.len(), 1);
    assert_eq!(victims[0].0, 1);
    assert_eq!(inner.evictions(), 1);
}

#[test]
fn a_write_hands_out_the_displaced_page() {
    let mut inner: Inner<Shared> = Inner::new(2);
    assert!(inner.put(1, &page_filled(1)).is_empty());
    assert!(inner.put(2, &page_filled(2)).is_empty());
    let victims = inner.put(3, &page_filled(3));
    assert_eq!(victims.len(), 1);
    assert_eq!(victims[0].0, 1);
    assert!(victims[0].1.iter().all(|&b| b == 1));
    inner.reset_stats();
    assert_eq!((inner.evictions(), inner.ticks()), (0, 3));
}

#[test]
fn a_fetch_that_ends_after_a_write_brings_in_what_it_read() {
    let mut inner: Inner<Shared> = Inner::new(2);
    lead(&mut inner, 1);
    inner.put(1, &page_filled(8));
    let mut out = Page::zeroed();
    inner.finish_get(1, Ok::<Page, DramError>(page_filled(3)), &mut out).unwrap();
    assert!(matches!(inner.start_get(1, &mut out), GetStep::Hit));
    assert_eq!(out.data[0], 3);
}

#[test]
fn buffers_are_checked_for_their_length() {
    let mut inner: Inner<Shared> = Inner::new(2);
    inner.put(1, &page_filled(1));
    assert!(inner.fits(1, 4096));
    assert!(!inner.fits(1, 100));
    assert!(inner.fits(2, 100));
    let mut flight = InFlight::new();
    assert!(flight.fits(1));
    flight.publish(&[1, 2, 3]);
    assert!(flight.fits(3));
    assert!(!flight.fits(4));
    assert!(!flight.is_abandoned());
    let mut given_up = InFlight::new();
    given_up.abandon();
    assert!(given_up.fits(4));
}

#[test]
fn followers_read_what_their_leader_fetched() {
    let mut inner: Inner<Shared> = Inner::new(4);
    let leading = [lead(&mut inner, 1), lead(&mut inner, 2)];
    let waiting = [follow(&mut inner, 1), follow(&mut inner, 2)];
    let mut out = Page::zeroed();
    for (k, flight) in leading.iter().enumerate() {
        let page = page_filled(k as u8 + 1);
        flight.0.borrow_mut().publish(&page.data);
        let id = k as u64 + 1;
        inner.finish_get(id, Ok::<Page, DramError>(page), &mut out).unwrap();
    }
    // What is written afterwards does not change what was fetched.
    inner.put(1, &page_filled(7));
    for (k, flight) in waiting.iter().enumerate() {
        assert!(flight.0.borrow().try_read(&mut out));
        assert!(out.data.iter().all(|&b| b == k as u8 + 1));
    }
}

#[test]
fn a_follower_reads_gives_up_or_waits() {
    let mut flight = InFlight::new();
    let mut out = page_filled(3);
    assert_eq!(flight.follow(&mut out), FollowStep::Wait);
    assert_eq!(out.data[0], 3);
    flight.publish(&page_filled(8).data);
    assert_eq!(flight.follow(&mut out), FollowStep::Ready);
    assert!(out.data.iter().all(|&b| b == 8));
    let mut given_up = InFlight::new();
    given_up.abandon();
    assert_eq!(given_up.follow(&mut out), FollowStep::GivenUp);
    assert_eq!(out.data[0], 8);
}

#[test]
fn followers_read_their_bytes_though_a_displaced_page_is_given_up() {
    let mut inner: Inner<Shared> = Inner::new(1);
    inner.put(1, &page_filled(1));
    let leading = lead(&mut inner, 2);
    let waiting = follow(&mut inner, 2);
    let mut out = Page::zeroed();
    leading.0.borrow_mut().publish(&page_filled(2).data);
    let victims = inner.finish_get(2, Ok::<Page, DramError>(page_filled(2)), &mut out).unwrap();
    assert_eq!(victims[0].0, 1); // never stored
    assert_eq!(waiting.0.borrow().follow(&mut out), FollowStep::Ready);
    assert_eq!(out.data[0], 2);
}

#[test]
fn counters_count_fetches_and_displaced_pages() {
    let mut inner: Inner<Shared> = Inner::new(2);
    let mut out = Page::zeroed();
    let (mut fetches, mut displaced) = (0, 0);
    for k in 0..50u64 {
        let id = k * k % 11;
        if k % 3 == 0 {
            displaced += inner.put(id, &page_filled(1)).len();
        } else if let GetStep::Lead(_) = inner.start_get(id, &mut out) {
            fetches += 1;
            let victims = inner.finish_get(id, Ok::<Page, DramError>(page_filled(2)), &mut out);
            displaced += victims.unwrap().len();
        }
    }
    assert_eq!((inner.misses(), inner.evictions()), (fetches, displaced as u64));
    assert!(fetches > 0 && displaced > 2);
}

#[test]
fn overlapping_fetches_keep_the_hot_set_bounded() {
    let mut inner: Inner<Shared> = Inner::new(2);
    for id in 0..5 {
        lead(&mut inner, id);
    }
    let mut left = Vec::new();
    let mut out = Page::zeroed();
    for id in 0..5 {
        let page = page_filled(id as u8);
        for (victim, data) in inner.finish_get(id, Ok::<Page, DramError>(page), &mut out).unwrap() {
            assert_eq!(data[0], victim as u8);
            left.push(victim);
        }
    }
    assert_eq!(left.len(), 3);
    assert_eq!(inner.evictions(), 3);
    // The two pages that did not leave are the hot ones.
    for id in (0..5).filter(|id| !left.contains(id)) {
        assert!(matches!(inner.start_get(id, &mut out), GetStep::Hit));
    }
    assert_eq!(inner.hits(), 2);
}

#[test]
fn every_request_is_counted_once() {
    let mut inner: Inner<Shared> = Inner::new(3);
    let mut out = Page::zeroed();
    let mut open: Vec<PageId> = Vec::new();
    for k in 0..60u64 {
        let id = k * k % 7;
        if let GetStep::Lead(_) = inner.start_get(id, &mut out) {
            assert!(!open.contains(&id)); // one fetch of a page at a time
            open.push(id);
        }
        if k % 5 == 4 && !open.is_empty() {
            let id = open.remove(0);
            inner.finish_get(id, Ok::<Page, DramError>(page_filled(1)), &mut out).unwrap();
        }
    }
    assert_eq!(inner.hits() + inner.misses() + inner.coalesced(), 60);
    assert!(inner.hits() > 0 && inner.coalesced() > 0);
}

#[test]
fn overlapping_reads_find_the_last_write() {
    let mut backend = DramBackend::new();
    let mut inner: Inner<Shared> = Inner::new(2);
    for id in 0..4u64 {
        for (victim, data) in inner.put(id, &page_filled(0x10 + id as u8)) {
            backend.put(victim, &Page { data }).unwrap();
        }
    }
    // Pages 0 and 1 are in the backend by now; both are fetched at the same time.
    lead(&mut inner, 0);
    lead(&mut inner, 1);
    let waiting = follow(&mut inner, 0);
    let mut pages = Vec::new();
    for id in [1, 0] {
        let mut page = Page::zeroed();
        backend.get(id, &mut page).unwrap();
        if id == 0 {
            waiting.0.borrow_mut().publish(&page.data);
        }
        pages.push((id, page));
    }
    let mut out = Page::zeroed();
    for (id, page) in pages {
        let victims = inner.finish_get(id, Ok::<Page, DramError>(page), &mut out).unwrap();
        assert_eq!(out.data[0], 0x10 + id as u8);
        for (victim, data) in victims {
            assert_eq!(data[0], 0x10 + victim as u8);
            backend.put(victim, &Page { data }).unwrap();
        }
    }
    assert!(waiting.0.borrow().try_read(&mut out));
    assert_eq!(out.data[0], 0x10);
    for id in 0..2 {
        assert!(matches!(inner.start_get(id, &mut out), GetStep::Hit));
        assert_eq!(out.data[0], 0x10 + id as u8);
    }
}
