//! The cache's shared bookkeeping: the hot set, the fetches in flight and the
//! counters.
//!
//! [`Inner`] is what a concurrent cache keeps behind its lock. Each of its
//! operations is one critical section: a request starts with
//! [`Inner::start_get`], the request that was told to lead reads the backend
//! with the lock released, and [`Inner::finish_get`] puts the outcome in place.
//! Requests that were told to follow wait for the leader's bytes in the
//! [`InFlight`] slot that they share.

use crate::page::{copy_bytes, Page, PageId};
use std::collections::HashMap;
use vstd::prelude::*;

verus! {

broadcast use vstd::std_specs::hash::group_hash_axioms;

/// A page of the hot set, and when it was last used.
pub struct HotPage {
    pub data: Seq<u8>,
    pub last_used: nat,
}

/// What [`Inner`] holds. Time is counted in requests: `tick` is the number of
/// `get` and `put` requests made so far.
#[verifier::ext_equal]
#[verifier::reject_recursive_types(H)]
pub struct CacheView<H> {
    pub capacity: nat,
    pub hot: Map<PageId, HotPage>,
    pub inflight: Map<PageId, H>,
    pub tick: nat,
    pub hits: nat,
    pub misses: nat,
    pub coalesced: nat,
    pub evictions: nat,
}

/// One step in the life of the shared state, with its outcome.
#[verifier::reject_recursive_types(H)]
pub enum Event<H> {
    /// A request for a page started and was told how to go on.
    Got { id: PageId, step: GetStep<H> },
    /// A page was written, and made these pages leave the hot set.
    Put { id: PageId, bytes: Seq<u8>, victims: Seq<(PageId, Seq<u8>)> },
    /// A leader's read succeeded, and made these pages leave the hot set.
    Fetched { id: PageId, bytes: Seq<u8>, victims: Seq<(PageId, Seq<u8>)> },
    /// A leader's read failed.
    Failed { id: PageId },
    /// The counters were set back.
    Reset,
}

impl<H> CacheView<H> {
    /// A cache with nothing in it.
    pub open spec fn empty(capacity: nat) -> Self {
        CacheView {
            capacity,
            hot: Map::empty(),
            inflight: Map::empty(),
            tick: 0,
            hits: 0,
            misses: 0,
            coalesced: 0,
            evictions: 0,
        }
    }

    /// The hot set is bounded, no page was used later than now, and every
    /// counter is covered by the requests made.
    pub open spec fn wf(self) -> bool {
        &&& 1 <= self.capacity
        &&& self.hot.dom().finite()
        &&& self.inflight.dom().finite()
        &&& self.hot.len() <= self.capacity
        &&& forall|id: PageId| #[trigger]
            self.hot.contains_key(id) ==> self.hot[id].last_used <= self.tick
        &&& self.hits + self.misses + self.coalesced <= self.tick
        &&& self.evictions + self.hot.len() + self.inflight.len() <= self.tick
    }

    /// A page of the hot set is found: it is now the last one used.
    pub open spec fn hit(self, id: PageId) -> Self {
        let now = self.tick + 1;
        CacheView {
            hot: self.hot.insert(id, HotPage { data: self.hot[id].data, last_used: now }),
            tick: now,
            hits: self.hits + 1,
            ..self
        }
    }

    /// A request joins a fetch that is in flight.
    pub open spec fn joined(self) -> Self {
        CacheView { tick: self.tick + 1, coalesced: self.coalesced + 1, ..self }
    }

    /// A request opens a fetch, shared through `handle`.
    pub open spec fn led(self, id: PageId, handle: H) -> Self {
        CacheView {
            inflight: self.inflight.insert(id, handle),
            tick: self.tick + 1,
            misses: self.misses + 1,
            ..self
        }
    }

    /// A page is written into the hot set, before anything is evicted.
    pub open spec fn written(self, id: PageId, bytes: Seq<u8>) -> Self {
        let now = self.tick + 1;
        CacheView {
            hot: self.hot.insert(id, HotPage { data: bytes, last_used: now }),
            tick: now,
            ..self
        }
    }

    /// A fetched page enters the hot set, before anything is evicted.
    pub open spec fn promoted(self, id: PageId, bytes: Seq<u8>) -> Self {
        CacheView {
            hot: self.hot.insert(id, HotPage { data: bytes, last_used: self.tick }),
            inflight: self.inflight.remove(id),
            ..self
        }
    }

    /// A fetch is given up.
    pub open spec fn abandoned(self, id: PageId) -> Self {
        CacheView { inflight: self.inflight.remove(id), ..self }
    }

    /// The counters are zero, all else is as before.
    pub open spec fn reset(self) -> Self {
        CacheView { hits: 0, misses: 0, coalesced: 0, evictions: 0, ..self }
    }

    /// `victims` left the hot set, in this order, and `after` is what remains:
    /// each victim was a page of the hot set and is handed out with its bytes,
    /// nothing else changed but the count of evictions, and no page that stayed
    /// or left later was used before one that left.
    pub open spec fn evicted(self, victims: Seq<(PageId, Seq<u8>)>, after: Self) -> bool {
        &&& after == (CacheView {
            hot: after.hot,
            evictions: self.evictions + victims.len(),
            ..self
        })
        &&& forall|i: int, j: int|
            0 <= i < j < victims.len() ==> (#[trigger] victims[i]).0 != (#[trigger] victims[j]).0
        &&& forall|i: int|
            0 <= i < victims.len() ==> {
                &&& self.hot.contains_key((#[trigger] victims[i]).0)
                &&& self.hot[victims[i].0].data == victims[i].1
            }
        &&& after.hot == self.hot.remove_keys(victim_ids(victims))
        &&& forall|i: int, j: int|
            0 <= i < j < victims.len() ==> self.hot[(#[trigger] victims[i]).0].last_used
                <= self.hot[(#[trigger] victims[j]).0].last_used
        &&& forall|i: int, id: PageId|
            0 <= i < victims.len() && #[trigger] after.hot.contains_key(id) ==> self.hot[(
            #[trigger] victims[i]).0].last_used <= after.hot[id].last_used
    }

    /// The hot set is cut down to its capacity, and no further.
    pub open spec fn settled(self, victims: Seq<(PageId, Seq<u8>)>, after: Self) -> bool {
        &&& self.evicted(victims, after)
        &&& victims.len() == if self.hot.len() > self.capacity {
            self.hot.len() - self.capacity
        } else {
            0
        }
    }
}

impl<H: FlightHandle> CacheView<H> {
    /// How a request for `id` is to go on: a page of the hot set is a hit, a page
    /// in flight is followed, any other page is led. A leader gets a handle that has
    /// just been opened, and the followers get clones of the one that it left.
    pub open spec fn started(self, id: PageId, step: GetStep<H>, after: Self) -> bool {
        match step {
            GetStep::Hit => self.hot.contains_key(id) && after == self.hit(id),
            GetStep::Follow(handle) => {
                &&& !self.hot.contains_key(id)
                &&& self.inflight.contains_key(id)
                &&& cloned(self.inflight[id], handle)
                &&& after == self.joined()
            },
            GetStep::Lead(handle) => {
                &&& !self.hot.contains_key(id)
                &&& !self.inflight.contains_key(id)
                &&& call_ensures(H::open, (), handle)
                &&& after.inflight.contains_key(id)
                &&& cloned(handle, after.inflight[id])
                &&& after == self.led(id, after.inflight[id])
            },
        }
    }

    /// `after` is what `event` makes of `self`.
    pub open spec fn next(self, event: Event<H>, after: Self) -> bool {
        match event {
            Event::Got { id, step } => self.started(id, step, after),
            Event::Put { id, bytes, victims } => self.written(id, bytes).settled(victims, after),
            Event::Fetched { id, bytes, victims } => {
                &&& self.inflight.contains_key(id)
                &&& self.promoted(id, bytes).settled(victims, after)
            },
            Event::Failed { id } => self.inflight.contains_key(id) && after == self.abandoned(id),
            Event::Reset => after == self.reset(),
        }
    }
}

/// The ids of evicted pages.
pub open spec fn victim_ids(victims: Seq<(PageId, Seq<u8>)>) -> Set<PageId> {
    Set::new(|id: PageId| exists|i: int| 0 <= i < victims.len() && (#[trigger] victims[i]).0 == id)
}

/// Evicted pages with their bytes taken by value.
pub open spec fn victim_pages(victims: Seq<(PageId, Box<[u8]>)>) -> Seq<(PageId, Seq<u8>)> {
    victims.map_values(|victim: (PageId, Box<[u8]>)| (victim.0, victim.1@))
}

/// How a request for a page is to go on.
pub enum GetStep<H> {
    /// The page was in the hot set and has been copied out.
    Hit,
    /// Another request is fetching the page: wait for its bytes.
    Follow(H),
    /// Read the page from the backend and finish the fetch.
    Lead(H),
}

/// What the requests for one page in flight share.
pub trait FlightHandle: Clone {
    /// A handle for a fetch that has just begun.
    fn open() -> Self;
}

/// The handle of a cache whose requests never overlap: there is nothing to share.
#[derive(Clone, Copy)]
pub struct Solo;

impl FlightHandle for Solo {
    fn open() -> Self {
        Solo
    }
}

/// How a request that follows a fetch goes on.
#[derive(Clone, Copy, Debug, PartialEq, Eq, Structural)]
pub enum FollowStep {
    /// The bytes have been read.
    Ready,
    /// The leader has given up, and so does the request.
    GivenUp,
    /// Wait for the leader and look again.
    Wait,
}

/// What a follower can find in the slot of a fetch.
pub enum Slot {
    /// The leader is still reading.
    Waiting,
    /// The leader has read these bytes.
    Filled(Seq<u8>),
    /// The leader has given up.
    Abandoned,
}

enum SlotState {
    Waiting,
    Filled(Box<[u8]>),
    Abandoned,
}

/// A fetch in progress: the leader fills the slot or gives up, the followers look at it.
pub struct InFlight {
    slot: SlotState,
}

impl View for InFlight {
    type V = Slot;

    closed spec fn view(&self) -> Slot {
        match self.slot {
            SlotState::Waiting => Slot::Waiting,
            SlotState::Filled(bytes) => Slot::Filled(bytes@),
            SlotState::Abandoned => Slot::Abandoned,
        }
    }
}

impl InFlight {
    /// A fetch whose bytes are not there yet.
    pub fn new() -> (flight: Self)
        ensures
            flight@ is Waiting,
    {
        InFlight { slot: SlotState::Waiting }
    }

    /// The leader puts the fetched bytes in the slot.
    pub fn publish(&mut self, bytes: &[u8])
        ensures
            final(self)@ == Slot::Filled(bytes@),
    {
        self.slot = SlotState::Filled(copy_bytes(bytes));
    }

    /// The leader gives up: there will be no bytes.
    pub fn abandon(&mut self)
        ensures
            final(self)@ is Abandoned,
    {
        self.slot = SlotState::Abandoned;
    }

    /// Whether the leader has given up, so that waiting is in vain.
    pub fn is_abandoned(&self) -> (abandoned: bool)
        ensures
            abandoned <==> self@ is Abandoned,
    {
        match &self.slot {
            SlotState::Abandoned => true,
            _ => false,
        }
    }

    /// Whether the bytes, if they are there, can be read into a buffer of `len` bytes.
    pub fn fits(&self, len: usize) -> (fits: bool)
        ensures
            fits <==> (self@ matches Slot::Filled(bytes) ==> bytes.len() == len),
    {
        match &self.slot {
            SlotState::Filled(bytes) => bytes.len() == len,
            _ => true,
        }
    }

    /// A follower takes the bytes if they are there. Where the answer is `false` and the
    /// fetch is not abandoned, the follower has to wait and try again.
    pub fn try_read(&self, out: &mut Page) -> (ready: bool)
        requires
            self@ matches Slot::Filled(bytes) ==> bytes.len() == old(out)@.len(),
        ensures
            ready <==> self@ is Filled,
            final(out)@ == (match self@ {
                Slot::Filled(bytes) => bytes,
                _ => old(out)@,
            }),
    {
        match &self.slot {
            SlotState::Filled(bytes) => {
                out.load(bytes);
                true
            },
            _ => false,
        }
    }

    /// A follower looks at the slot: it takes the bytes if they are there, gives up where
    /// the leader has, and waits otherwise.
    pub fn follow(&self, out: &mut Page) -> (step: FollowStep)
        requires
            self@ matches Slot::Filled(bytes) ==> bytes.len() == old(out)@.len(),
        ensures
            match self@ {
                Slot::Filled(bytes) => step is Ready && final(out)@ == bytes,
                Slot::Abandoned => step is GivenUp && final(out)@ == old(out)@,
                Slot::Waiting => step is Wait && final(out)@ == old(out)@,
            },
    {
        if self.try_read(out) {
            FollowStep::Ready
        } else if self.is_abandoned() {
            FollowStep::GivenUp
        } else {
            FollowStep::Wait
        }
    }
}

struct CacheEntry {
    data: Box<[u8]>,
    last_used: u64,
}

impl View for CacheEntry {
    type V = HotPage;

    closed spec fn view(&self) -> HotPage {
        HotPage { data: self.data@, last_used: self.last_used as nat }
    }
}

/// The state that a concurrent cache keeps behind its lock.
#[verifier::reject_recursive_types(H)]
pub struct Inner<H> {
    capacity: usize,
    hot: HashMap<PageId, CacheEntry>,
    inflight: HashMap<PageId, H>,
    tick: u64,
    hits: u64,
    misses: u64,
    coalesced: u64,
    evictions: u64,
}

impl<H> View for Inner<H> {
    type V = CacheView<H>;

    closed spec fn view(&self) -> CacheView<H> {
        CacheView {
            capacity: self.capacity as nat,
            hot: hot_pages(self.hot@),
            inflight: self.inflight@,
            tick: self.tick as nat,
            hits: self.hits as nat,
            misses: self.misses as nat,
            coalesced: self.coalesced as nat,
            evictions: self.evictions as nat,
        }
    }
}

spec fn hot_pages(hot: Map<PageId, CacheEntry>) -> Map<PageId, HotPage> {
    hot.map_values(|entry: CacheEntry| entry@)
}

impl<H: FlightHandle> Inner<H> {
    /// A cache that keeps at most `capacity` pages hot.
    pub fn new(capacity: usize) -> (inner: Self)
        requires
            1 <= capacity,
        ensures
            inner@ == CacheView::<H>::empty(capacity as nat),
            inner@.capacity == capacity,
            inner@.hot == Map::<PageId, HotPage>::empty(),
            inner@.inflight == Map::<PageId, H>::empty(),
            inner@.tick == 0,
            inner@.wf(),
    {
        let inner = Inner {
            capacity,
            hot: HashMap::new(),
            inflight: HashMap::new(),
            tick: 0,
            hits: 0,
            misses: 0,
            coalesced: 0,
            evictions: 0,
        };
        assert(inner@ =~= CacheView::<H>::empty(capacity as nat));
        inner
    }

    /// The page of the hot set that was used longest ago. Where several share
    /// that time, it is any one of them.
    fn lru_victim(&self) -> (victim: PageId)
        requires
            self@.hot.len() > 0,
        ensures
            self@.hot.contains_key(victim),
            forall|id: PageId| #[trigger]
                self@.hot.contains_key(id) ==> self@.hot[victim].last_used
                    <= self@.hot[id].last_used,
    {
        assert(self@.hot.dom() =~= self.hot@.dom());
        let mut victim: PageId = 0;
        let mut oldest: u64 = 0;
        let mut found = false;
        for (id, entry) in it: self.hot.iter()
            invariant
                found <==> it.index() > 0,
                found ==> self.hot@.contains_key(victim) && self.hot@[victim].last_used == oldest,
                forall|i: int|
                    0 <= i < it.index() ==> oldest <= (#[trigger] it.seq()[i]).1.last_used,
        {
            if !found || entry.last_used < oldest {
                victim = *id;
                oldest = entry.last_used;
                found = true;
            }
        }
        victim
    }

    /// Whether a request for `id` with a buffer of `len` bytes can be served from
    /// the hot set without a mismatch of lengths.
    pub fn fits(&self, id: PageId, len: usize) -> (fits: bool)
        ensures
            fits <==> (self@.hot.contains_key(id) ==> self@.hot[id].data.len() == len),
    {
        match self.hot.get(&id) {
            Some(entry) => entry.data.len() == len,
            None => true,
        }
    }

    /// Writes a page into the hot set. The pages that had to make room are handed
    /// out, to be stored in the backend.
    pub fn put(&mut self, id: PageId, page: &Page) -> (victims: Vec<(PageId, Box<[u8]>)>)
        requires
            old(self)@.wf(),
            old(self)@.tick < u64::MAX,
        ensures
            final(self)@.wf(),
            old(self)@.next(
                Event::Put { id, bytes: page@, victims: victim_pages(victims@) },
                final(self)@,
            ),
    {
        self.tick = self.tick + 1;
        let now = self.tick;
        self.hot.insert(id, CacheEntry { data: copy_bytes(&page.data), last_used: now });
        assert(self@.hot =~= old(self)@.written(id, page@).hot);
        assert(self@ == old(self)@.written(id, page@));
        let victims = self.take_eviction_victims();
        proof {
            lemma_next_wf(
                old(self)@,
                Event::Put { id, bytes: page@, victims: victim_pages(victims@) },
                self@,
            );
        }
        victims
    }

    /// Ends the fetch of `id` with what the leader's read brought: the bytes go to
    /// the leader's buffer and into the hot set, and the pages that had to make
    /// room are handed out; or the read's error is handed on.
    pub fn finish_get<E>(&mut self, id: PageId, fetched: Result<Page, E>, out: &mut Page) -> (r:
        Result<Vec<(PageId, Box<[u8]>)>, E>)
        requires
            old(self)@.wf(),
            old(self)@.inflight.contains_key(id),
            fetched matches Ok(page) ==> page@.len() == old(out)@.len(),
        ensures
            final(self)@.wf(),
            match fetched {
                Ok(page) => {
                    &&& r matches Ok(victims)
                    &&& final(out)@ == page@
                    &&& old(self)@.next(
                        Event::Fetched { id, bytes: page@, victims: victim_pages(victims@) },
                        final(self)@,
                    )
                },
                Err(e) => {
                    &&& r == Err::<Vec<(PageId, Box<[u8]>)>, E>(e)
                    &&& final(out)@ == old(out)@
                    &&& old(self)@.next(Event::Failed { id }, final(self)@)
                },
            },
    {
        match fetched {
            Ok(page) => {
                out.load(&page.data);
                let now = self.tick;
                self.hot.insert(id, CacheEntry { data: page.data, last_used: now });
                self.inflight.remove(&id);
                assert(self@.hot =~= old(self)@.promoted(id, page@).hot);
                assert(self@ == old(self)@.promoted(id, page@));
                let victims = self.take_eviction_victims();
                proof {
                    lemma_next_wf(
                        old(self)@,
                        Event::Fetched { id, bytes: page@, victims: victim_pages(victims@) },
                        self@,
                    );
                }
                Ok(victims)
            },
            Err(e) => {
                self.inflight.remove(&id);
                proof {
                    lemma_next_wf(old(self)@, Event::Failed { id }, self@);
                }
                Err(e)
            },
        }
    }

    /// Sets all counters back to zero.
    pub fn reset_stats(&mut self)
        requires
            old(self)@.wf(),
        ensures
            final(self)@.wf(),
            old(self)@.next(Event::Reset, final(self)@),
    {
        self.hits = 0;
        self.misses = 0;
        self.coalesced = 0;
        self.evictions = 0;
    }

    pub fn hits(&self) -> (n: u64)
        ensures
            n == self@.hits,
    {
        self.hits
    }

    pub fn misses(&self) -> (n: u64)
        ensures
            n == self@.misses,
    {
        self.misses
    }

    pub fn coalesced(&self) -> (n: u64)
        ensures
            n == self@.coalesced,
    {
        self.coalesced
    }

    pub fn evictions(&self) -> (n: u64)
        ensures
            n == self@.evictions,
    {
        self.evictions
    }

    /// The number of requests made so far.
    pub fn ticks(&self) -> (n: u64)
        ensures
            n == self@.tick,
    {
        self.tick
    }

    /// The share of requests that were hits, as a fraction: the hits, and the hits
    /// and misses together. `None` where there were neither.
    pub fn hit_rate(&self) -> (rate: Option<(u64, u64)>)
        requires
            self@.wf(),
        ensures
            rate == if self@.hits + self@.misses == 0 {
                None::<(u64, u64)>
            } else {
                Some((self@.hits as u64, (self@.hits + self@.misses) as u64))
            },
            rate matches Some(fraction) ==> {
                &&& fraction.0 == self@.hits
                &&& fraction.1 == self@.hits + self@.misses
                &&& fraction.0 <= fraction.1
            },
    {
        let total = self.hits + self.misses;
        if total == 0 {
            None
        } else {
            Some((self.hits, total))
        }
    }

    /// Takes pages out of the hot set, least recently used first, until it is
    /// within its capacity.
    fn take_eviction_victims(&mut self) -> (victims: Vec<(PageId, Box<[u8]>)>)
        requires
            old(self)@.hot.dom().finite(),
            old(self)@.evictions + old(self)@.hot.len() <= u64::MAX,
        ensures
            old(self)@.settled(victim_pages(victims@), final(self)@),
    {
        let mut victims: Vec<(PageId, Box<[u8]>)> = Vec::new();
        proof {
            lemma_evict_none(self@);
            assert(victim_pages(victims@) =~= Seq::empty());
            assert(self@.hot.dom() =~= self.hot@.dom());
        }
        while self.hot.len() > self.capacity
            invariant
                old(self)@.hot.dom().finite(),
                old(self)@.evictions + old(self)@.hot.len() <= u64::MAX,
                old(self)@.evicted(victim_pages(victims@), self@),
                victims@.len() + self@.hot.len() == old(self)@.hot.len(),
                victims@.len() > 0 ==> self@.hot.len() >= self@.capacity,
                self@.hot.dom() == self.hot@.dom(),
            decreases self.hot@.len(),
        {
            let ghost before = *self;
            let victim = self.lru_victim();
            let taken = self.hot.remove(&victim);
            if let Some(entry) = taken {
                proof {
                    assert(before@.hot[victim] == entry@);
                    assert(self@.hot =~= before@.hot.remove(victim));
                    assert(self@.hot.dom() =~= self.hot@.dom());
                    lemma_evict_one(old(self)@, victim_pages(victims@), before@, victim);
                    assert(victim_pages(victims@.push((victim, entry.data)))
                        =~= victim_pages(victims@).push((victim, entry.data@)));
                }
                victims.push((victim, entry.data));
                self.evictions = self.evictions + 1;
                assert(self@ == (CacheView {
                    hot: before@.hot.remove(victim),
                    evictions: before@.evictions + 1,
                    ..before@
                }));
            }
        }
        victims
    }
}

impl<H: FlightHandle> Inner<H> {
    /// Starts a request for a page. A hit is copied to `out`; the first request for
    /// a page that is not hot is told to lead, later ones to follow it.
    pub fn start_get(&mut self, id: PageId, out: &mut Page) -> (step: GetStep<H>)
        requires
            old(self)@.wf(),
            old(self)@.tick < u64::MAX,
            old(self)@.hot.contains_key(id) ==> old(self)@.hot[id].data.len() == old(out)@.len(),
        ensures
            final(self)@.wf(),
            old(self)@.next(Event::Got { id, step }, final(self)@),
            match step {
                GetStep::Hit => final(out)@ == old(self)@.hot[id].data,
                GetStep::Follow(handle) => {
                    &&& final(out)@ == old(out)@
                    &&& cloned(old(self)@.inflight[id], handle)
                },
                GetStep::Lead(handle) => {
                    &&& final(out)@ == old(out)@
                    &&& call_ensures(H::open, (), handle)
                    &&& cloned(handle, final(self)@.inflight[id])
                },
            },
    {
        self.tick = self.tick + 1;
        let now = self.tick;
        let step = match self.hot.remove(&id) {
            Some(entry) => {
                assert(old(self)@.hot[id] == entry@);
                out.load(&entry.data);
                self.hot.insert(id, CacheEntry { data: entry.data, last_used: now });
                self.hits = self.hits + 1;
                assert(self@.hot =~= old(self)@.hit(id).hot);
                GetStep::Hit
            },
            None => {
                assert(self@.hot =~= old(self)@.hot);
                match self.inflight.get(&id) {
                    Some(inflight) => {
                        let handle = inflight.clone();
                        self.coalesced = self.coalesced + 1;
                        GetStep::Follow(handle)
                    },
                    None => {
                        let handle = H::open();
                        self.inflight.insert(id, handle.clone());
                        self.misses = self.misses + 1;
                        GetStep::Lead(handle)
                    },
                }
            },
        };
        proof {
            lemma_next_wf(old(self)@, Event::Got { id, step }, self@);
        }
        step
    }
}

/// Every step keeps the hot set within its capacity and the counters covered.
pub proof fn lemma_next_wf<H: FlightHandle>(
    before: CacheView<H>,
    event: Event<H>,
    after: CacheView<H>,
)
    requires
        before.wf(),
        before.next(event, after),
    ensures
        after.wf(),
{
    match event {
        Event::Put { id, bytes, victims } => {
            lemma_evicted_len(before.written(id, bytes), victims, after);
        },
        Event::Fetched { id, bytes, victims } => {
            lemma_evicted_len(before.promoted(id, bytes), victims, after);
        },
        _ => {},
    }
}

proof fn lemma_victim_ids_len(victims: Seq<(PageId, Seq<u8>)>)
    requires
        forall|i: int, j: int|
            0 <= i < j < victims.len() ==> (#[trigger] victims[i]).0 != (#[trigger] victims[j]).0,
    ensures
        victim_ids(victims).finite(),
        victim_ids(victims).len() == victims.len(),
    decreases victims.len(),
{
    if victims.len() == 0 {
        assert(victim_ids(victims) =~= Set::empty());
    } else {
        let rest = victims.drop_last();
        let last = victims.last().0;
        lemma_victim_ids_len(rest);
        assert forall|id: PageId| victim_ids(victims).contains(id) <==> victim_ids(rest).insert(
            last,
        ).contains(id) by {
            if victim_ids(rest).contains(id) {
                let i = choose|i: int| 0 <= i < rest.len() && (#[trigger] rest[i]).0 == id;
                assert(victims[i].0 == id);
            }
            if victim_ids(victims).contains(id) {
                let i = choose|i: int| 0 <= i < victims.len() && (#[trigger] victims[i]).0 == id;
                if i < rest.len() {
                    assert(rest[i].0 == id);
                }
            }
            assert(victims[victims.len() - 1].0 == last);
        }
        assert(victim_ids(victims) =~= victim_ids(rest).insert(last));
        if victim_ids(rest).contains(last) {
            let i = choose|i: int| 0 <= i < rest.len() && (#[trigger] rest[i]).0 == last;
            assert(victims[i].0 == victims[victims.len() - 1].0);
        }
    }
}

/// Each victim takes one page from the hot set.
proof fn lemma_evicted_len<H>(
    before: CacheView<H>,
    victims: Seq<(PageId, Seq<u8>)>,
    after: CacheView<H>,
)
    requires
        before.hot.dom().finite(),
        before.evicted(victims, after),
    ensures
        after.hot.dom().finite(),
        after.hot.len() == before.hot.len() - victims.len(),
{
    let ids = victim_ids(victims);
    lemma_victim_ids_len(victims);
    assert(after.hot.dom() =~= before.hot.dom().difference(ids));
    assert(before.hot.dom() =~= after.hot.dom().union(ids));
    vstd::set_lib::lemma_set_disjoint_lens(after.hot.dom(), ids);
}

proof fn lemma_evict_none<H>(before: CacheView<H>)
    ensures
        before.evicted(Seq::empty(), before),
{
    assert(before.hot.remove_keys(victim_ids(Seq::empty())) =~= before.hot);
}

/// Taking out one more page, one that was used no later than any page left,
/// extends the list of victims.
proof fn lemma_evict_one<H>(
    start: CacheView<H>,
    victims: Seq<(PageId, Seq<u8>)>,
    before: CacheView<H>,
    victim: PageId,
)
    requires
        start.evicted(victims, before),
        before.hot.contains_key(victim),
        forall|id: PageId| #[trigger]
            before.hot.contains_key(id) ==> before.hot[victim].last_used
                <= before.hot[id].last_used,
    ensures
        start.evicted(
            victims.push((victim, before.hot[victim].data)),
            CacheView {
                hot: before.hot.remove(victim),
                evictions: before.evictions + 1,
                ..before
            },
        ),
{
    let longer = victims.push((victim, before.hot[victim].data));
    let after = CacheView {
        hot: before.hot.remove(victim),
        evictions: before.evictions + 1,
        ..before
    };
    assert(longer[victims.len() as int].0 == victim);
    assert forall|id: PageId| victim_ids(longer).contains(id) <==> (victim_ids(victims).contains(
        id,
    ) || id == victim) by {
        if victim_ids(victims).contains(id) {
            let i = choose|i: int| 0 <= i < victims.len() && (#[trigger] victims[i]).0 == id;
            assert(longer[i].0 == id);
        }
        if victim_ids(longer).contains(id) {
            let i = choose|i: int| 0 <= i < longer.len() && (#[trigger] longer[i]).0 == id;
            if i < victims.len() {
                assert(victims[i].0 == id);
            }
        }
    }
    assert(after.hot =~= start.hot.remove_keys(victim_ids(longer)));
    assert(!victim_ids(victims).contains(victim));
    assert forall|i: int, j: int| 0 <= i < j < longer.len() implies {
        &&& (#[trigger] longer[i]).0 != (#[trigger] longer[j]).0
        &&& start.hot[longer[i].0].last_used <= start.hot[longer[j].0].last_used
    } by {
        assert(longer[i] == victims[i]);
        if j < victims.len() {
            assert(longer[j] == victims[j]);
        } else {
            assert(longer[j].0 == victim);
        }
    }
    assert forall|i: int, id: PageId|
        0 <= i < longer.len() && #[trigger] after.hot.contains_key(id) implies start.hot[(
    #[trigger] longer[i]).0].last_used <= after.hot[id].last_used by {
        assert(before.hot.contains_key(id));
        if i < victims.len() {
            assert(longer[i] == victims[i]);
        }
    }
}

} // verus!
