//! The cache: a bounded hot set in front of a backend.

use crate::backend::{count_reads, count_writes, failure, Backend, Call};
use crate::inner::{victim_ids, victim_pages, CacheView, Event, GetStep, HotPage, Inner, Solo};
use crate::page::{Page, PageId, PAGE_SIZE};
use crate::tiers::{lemma_place, lemma_touched, touched, Tiers};
use vstd::prelude::*;

verus! {

/// A cache over the backend `B` that serves one request at a time. `order` lists the hot
/// set, the page used longest ago first; `mark` is the number of calls that the backend
/// had served when the counters were last zero.
pub struct Cache<B: Backend> {
    backend: B,
    inner: Inner<Solo>,
    order: Ghost<Seq<PageId>>,
    mark: Ghost<nat>,
}

/// `pages` after each of `victims` has been stored.
pub open spec fn stored(
    pages: Map<PageId, Seq<u8>>,
    victims: Seq<(PageId, Seq<u8>)>,
) -> Map<PageId, Seq<u8>>
    decreases victims.len(),
{
    if victims.len() == 0 {
        pages
    } else {
        stored(pages, victims.drop_last()).insert(victims.last().0, victims.last().1)
    }
}

/// The calls that store `victims`, one after the other, without a failure.
pub open spec fn puts<E>(victims: Seq<(PageId, Seq<u8>)>) -> Seq<Call<E>> {
    victims.map_values(
        |victim: (PageId, Seq<u8>)| Call::Put { id: victim.0, bytes: victim.1, failure: None },
    )
}

/// The calls by which a page that enters the hot set has the page that it displaces
/// stored: one with this result, or none.
pub open spec fn write_back<E>(tiers: Tiers, id: PageId, r: Result<(), E>) -> Seq<Call<E>> {
    match tiers.displaced(id) {
        Some(victim) => seq![
            Call::Put { id: victim, bytes: tiers.hot[victim], failure: failure(r) },
        ],
        None => seq![],
    }
}

/// The pages of the hot set are used in the order of `order`.
spec fn sorted_by_use(hot: Map<PageId, HotPage>, order: Seq<PageId>) -> bool {
    &&& order.no_duplicates()
    &&& forall|id: PageId| order.contains(id) <==> #[trigger] hot.contains_key(id)
    &&& forall|i: int, j: int|
        0 <= i < j < order.len() ==> hot[#[trigger] order[i]].last_used < hot[
        #[trigger] order[j]].last_used
}

spec fn hot_bytes(hot: Map<PageId, HotPage>) -> Map<PageId, Seq<u8>> {
    hot.map_values(|page: HotPage| page.data)
}

impl<B: Backend> Cache<B> {
    /// What the two tiers hold.
    pub closed spec fn tiers(&self) -> Tiers {
        Tiers {
            capacity: self.inner@.capacity,
            order: self.order@,
            hot: hot_bytes(self.inner@.hot),
            cold: self.backend.pages(),
            hits: self.inner@.hits,
            misses: self.inner@.misses,
            coalesced: self.inner@.coalesced,
            evictions: self.inner@.evictions,
        }
    }

    /// The number of requests made so far.
    pub closed spec fn ticks(&self) -> nat {
        self.inner@.tick
    }

    /// The backend.
    pub closed spec fn backend(&self) -> B {
        self.backend
    }

    /// The calls that the backend has served since the counters were last zero.
    pub closed spec fn recent_calls(&self) -> Seq<Call<B::Error>> {
        self.backend.calls().skip(self.mark@ as int)
    }

    /// All calls that the backend has served.
    pub open spec fn calls(&self) -> Seq<Call<B::Error>> {
        self.backend().calls()
    }

    /// Whether the backend is dependable.
    pub open spec fn dependable(&self) -> bool {
        self.backend().dependable()
    }

    /// Whether `error` is what a backend that stores `pages` can report of a write of
    /// `id`.
    pub open spec fn write_fault(pages: Map<PageId, Seq<u8>>, id: PageId, error: B::Error) -> bool {
        exists|failed: B| failed.pages() == pages && #[trigger] failed.write_error(id, error)
    }

    /// Whether `error` is what a backend that stores `pages` can report of a read of
    /// `id`.
    pub open spec fn read_fault(pages: Map<PageId, Seq<u8>>, id: PageId, error: B::Error) -> bool {
        exists|failed: B| failed.pages() == pages && #[trigger] failed.read_error(id, error)
    }

    /// The tiers are in order, the parts of the cache agree with each other, every miss
    /// stands for one read from the backend and every eviction for one write to it.
    pub open spec fn wf(&self) -> bool {
        &&& self.tiers().wf()
        &&& self.consistent()
        &&& self.tiers().cold == self.backend().pages()
        &&& self.tiers().misses == count_reads(self.recent_calls())
        &&& self.tiers().evictions == count_writes(self.recent_calls())
    }

    /// The shared state is sound, nothing is in flight, and the pages of the hot set were
    /// used in the order of `order`.
    pub closed spec fn consistent(&self) -> bool {
        &&& self.inner@.wf()
        &&& self.inner@.inflight == Map::<PageId, Solo>::empty()
        &&& sorted_by_use(self.inner@.hot, self.order@)
        &&& self.mark@ <= self.backend.calls().len()
    }

    /// Whether `id` can be read into a buffer of `len` bytes: a page that is stored
    /// has that length, and a page that has to be fetched is a whole page.
    pub open spec fn readable(&self, id: PageId, len: nat) -> bool {
        self.tiers().contents().contains_key(id) ==> {
            &&& self.tiers().contents()[id].len() == len
            &&& self.tiers().hot.contains_key(id) || len == PAGE_SIZE
        }
    }

    /// A cache over `backend` that keeps at most `capacity` pages hot.
    pub fn new(backend: B, capacity: usize) -> (cache: Self)
        requires
            1 <= capacity,
        ensures
            cache.wf(),
            cache.ticks() == 0,
            cache.backend() == backend,
            cache.recent_calls() == Seq::<Call<B::Error>>::empty(),
            cache.tiers() == Tiers::over(capacity as nat, backend.pages()),
            cache.tiers().capacity == capacity,
            cache.tiers().hot == Map::<PageId, Seq<u8>>::empty(),
            cache.tiers().cold == backend.pages(),
    {
        let cache = Cache {
            backend,
            inner: Inner::new(capacity),
            order: Ghost(Seq::empty()),
            mark: Ghost(backend.calls().len()),
        };
        assert(cache.tiers().hot =~= Map::empty());
        assert(cache.recent_calls() =~= Seq::empty());
        cache
    }

    /// Stores evicted pages in the backend, one after the other. The first failure
    /// ends it and is returned.
    fn spill(&mut self, victims: Vec<(PageId, Box<[u8]>)>) -> (r: Result<(), B::Error>)
        ensures
            final(self).inner == old(self).inner,
            final(self).order == old(self).order,
            final(self).mark == old(self).mark,
            final(self).dependable() == old(self).dependable(),
            old(self).dependable() ==> r is Ok,
            r is Ok ==> {
                &&& final(self).backend.pages() == stored(
                    old(self).backend.pages(),
                    victim_pages(victims@),
                )
                &&& final(self).calls() == old(self).calls() + puts(victim_pages(victims@))
            },
            r matches Err(e) ==> exists|k: int|
                0 <= k < victims@.len() && {
                    let (id, bytes) = #[trigger] victim_pages(victims@)[k];
                    let before = stored(
                        old(self).backend.pages(),
                        victim_pages(victims@).take(k),
                    );
                    &&& final(self).calls() == (old(self).calls() + puts(
                        victim_pages(victims@).take(k),
                    )).push(Call::Put { id, bytes, failure: Some(e) })
                    &&& final(self).backend.pages().remove(id) == before.remove(id)
                    &&& Self::write_fault(before, id, e)
                    &&& k == 0 ==> old(self).backend.write_error(id, e)
                },
    {
        let ghost pages = victim_pages(victims@);
        let ghost all = victims@;
        assert(pages.take(0) =~= Seq::empty());
        assert(self.calls() + puts(pages.take(0)) =~= self.calls());
        for (id, data) in it: victims
            invariant
                it.seq() == all,
                pages == victim_pages(all),
                self.inner == old(self).inner,
                self.order == old(self).order,
                self.mark == old(self).mark,
                self.dependable() == old(self).dependable(),
                self.backend.pages() == stored(old(self).backend.pages(), pages.take(it.index())),
                self.calls() == old(self).calls() + puts(pages.take(it.index())),
                it.index() == 0 ==> self.backend == old(self).backend,
        {
            let ghost k = it.index();
            assert((id, data) == all[k]);
            assert(pages[k] == (id, data@));
            let page = Page { data };
            let ghost before = self.backend;
            assert(pages.take(k + 1).drop_last() =~= pages.take(k));
            match self.backend.put(id, &page) {
                Ok(()) => {
                    assert(puts::<B::Error>(pages.take(k + 1)) =~= puts(pages.take(k)).push(
                        Call::Put { id, bytes: page@, failure: None },
                    ));
                    assert(self.calls() =~= old(self).calls() + puts(pages.take(k + 1)));
                },
                Err(e) => {
                    assert(before.write_error(id, e));
                    return Err(e);
                },
            }
        }
        assert(pages.take(pages.len() as int) =~= pages);
        Ok(())
    }

    /// Writes a page. It is hot from now on; the page that it displaces is stored in
    /// the backend, and where that fails the error is returned. The backend gets no other
    /// call.
    pub fn put(&mut self, id: PageId, page: &Page) -> (r: Result<(), B::Error>)
        requires
            old(self).wf(),
            old(self).ticks() < u64::MAX,
        ensures
            final(self).wf(),
            final(self).ticks() == old(self).ticks() + 1,
            final(self).dependable() == old(self).dependable(),
            final(self).calls() == old(self).calls() + write_back(old(self).tiers(), id, r),
            final(self).recent_calls() == old(self).recent_calls() + write_back(
                old(self).tiers(),
                id,
                r,
            ),
            old(self).dependable() ==> r is Ok,
            old(self).tiers().displaced(id) is None ==> r is Ok,
            r is Ok ==> final(self).tiers() == old(self).tiers().put(id, page@),
            r matches Err(e) ==> {
                &&& final(self).tiers().same_but_cold(
                    old(self).tiers().put(id, page@),
                    old(self).tiers().displaced(id),
                )
                &&& old(self).tiers().displaced(id) matches Some(victim)
                &&& old(self).backend().write_error(victim, e)
            },
    {
        let ghost before = self.tiers();
        let ghost entered = self.inner@.written(id, page@);
        proof {
            lemma_used(self.inner@.hot, self.order@, id, page@, entered.tick);
            lemma_place(before, id, page@);
        }
        let victims = self.inner.put(id, page);
        proof {
            lemma_settled(before, entered, id, page@, victim_pages(victims@), self.inner@);
            lemma_stored_one(self.backend.pages(), victim_pages(victims@));
        }
        self.order = Ghost(before.put(id, page@).order);
        let r = self.spill(victims);
        proof {
            lemma_write_back(before, id, victim_pages(victims@), old(self).calls(), r);
            lemma_more_calls(
                old(self).calls(),
                self.mark@ as int,
                write_back(before, id, r),
            );
            lemma_write_back_counts(old(self).recent_calls(), before, id, r);
        }
        r
    }

    /// Reads a page into `out`. A page that is not hot is fetched from the backend, by one
    /// read, and is hot from now on; the page that it displaces is stored. The request
    /// fails with the backend's error where the backend cannot read the page, and where it
    /// cannot store the page that was displaced; in the second case `out` has been filled.
    pub fn get(&mut self, id: PageId, out: &mut Page) -> (r: Result<(), B::Error>)
        requires
            old(self).wf(),
            old(self).ticks() < u64::MAX,
            old(self).readable(id, old(out)@.len()),
        ensures
            final(self).wf(),
            final(self).ticks() == old(self).ticks() + 1,
            final(self).dependable() == old(self).dependable(),
            final(self).calls() == old(self).calls() + final(self).calls().skip(
                old(self).calls().len() as int,
            ),
            final(self).recent_calls() == old(self).recent_calls() + final(self).calls().skip(
                old(self).calls().len() as int,
            ),
            old(self).tiers().hot.contains_key(id) ==> {
                &&& r is Ok
                &&& final(self).backend() == old(self).backend()
            },
            old(self).dependable() ==> (r is Ok <==> old(self).tiers().contents().contains_key(id)),
            r is Ok ==> {
                &&& old(self).tiers().contents().contains_key(id)
                &&& final(out)@ == old(self).tiers().contents()[id]
                &&& final(self).tiers() == old(self).tiers().get(id)
                &&& !old(self).tiers().hot.contains_key(id) ==> final(self).calls()
                    == old(self).calls().push(Call::Get { id, failure: failure(r) }) + write_back(
                    old(self).tiers(),
                    id,
                    r,
                )
            },
            r matches Err(e) ==> {
                ||| {
                    &&& final(out)@ == old(out)@
                    &&& final(self).tiers() == (Tiers {
                        misses: old(self).tiers().misses + 1,
                        ..old(self).tiers()
                    })
                    &&& final(self).calls() == old(self).calls().push(
                        Call::Get { id, failure: failure(r) },
                    )
                    &&& old(self).backend().read_error(id, e)
                }
                ||| {
                    &&& !old(self).dependable()
                    &&& old(self).tiers().cold.contains_key(id)
                    &&& final(out)@ == old(self).tiers().cold[id]
                    &&& final(self).tiers().same_but_cold(
                        old(self).tiers().get(id),
                        old(self).tiers().displaced(id),
                    )
                    &&& final(self).calls() == old(self).calls().push(
                        Call::Get { id, failure: None },
                    ) + write_back(old(self).tiers(), id, r)
                    &&& old(self).tiers().displaced(id) matches Some(victim)
                    &&& Self::write_fault(old(self).tiers().cold, victim, e)
                }
            },
    {
        let ghost before = self.tiers();
        let ghost start = self.inner@;
        proof {
            lemma_used(start.hot, self.order@, id, start.hot[id].data, start.tick + 1);
            lemma_touched(before.order, id);
        }
        let step = self.inner.start_get(id, out);
        match step {
            GetStep::Hit => {
                self.order = Ghost(before.get(id).order);
                assert(before.hot.insert(id, before.hot[id]) =~= before.hot);
                assert(self.calls().skip(self.calls().len() as int) =~= Seq::empty());
                Ok(())
            },
            _ => {
                let mut page = Page::zeroed();
                let read = self.backend.get(id, &mut page);
                let ghost called = Call::Get { id, failure: failure(read) };
                let fetched = match read {
                    Ok(()) => Ok(page),
                    Err(e) => Err(e),
                };
                let ghost bytes = before.cold[id];
                let ghost led = self.inner@;
                let ghost missed = Tiers { misses: before.misses + 1, ..before };
                let ghost entered = led.promoted(id, bytes);
                assert(led.inflight.remove(id) =~= Map::<PageId, Solo>::empty());
                proof {
                    lemma_used(start.hot, before.order, id, bytes, led.tick);
                    lemma_place(missed, id, bytes);
                    lemma_more_calls(old(self).calls(), self.mark@ as int, seq![called]);
                    assert(old(self).calls() + seq![called] =~= old(self).calls().push(called));
                    lemma_read_counts(old(self).recent_calls(), called);
                }
                let ghost read_calls = self.calls();
                let ghost read_recent = self.recent_calls();
                match self.inner.finish_get(id, fetched, out) {
                    Ok(victims) => {
                        proof {
                            lemma_settled(
                                missed,
                                entered,
                                id,
                                bytes,
                                victim_pages(victims@),
                                self.inner@,
                            );
                            lemma_stored_one(self.backend.pages(), victim_pages(victims@));
                        }
                        self.order = Ghost(before.get(id).order);
                        let r = self.spill(victims);
                        proof {
                            lemma_write_back(missed, id, victim_pages(victims@), read_calls, r);
                            lemma_more_calls(
                                read_calls,
                                self.mark@ as int,
                                write_back(before, id, r),
                            );
                            lemma_write_back_counts(read_recent, before, id, r);
                            let more = seq![called] + write_back(before, id, r);
                            assert(self.calls() =~= old(self).calls() + more);
                            assert(self.calls().skip(old(self).calls().len() as int) =~= more);
                            assert(self.recent_calls() =~= old(self).recent_calls() + more);
                        }
                        r
                    },
                    Err(e) => {
                        assert(self.calls().skip(old(self).calls().len() as int)
                            =~= seq![called]);
                        Err(e)
                    },
                }
            },
        }
    }

    /// Sets all counters back to zero.
    pub fn reset_stats(&mut self)
        requires
            old(self).wf(),
        ensures
            final(self).wf(),
            final(self).ticks() == old(self).ticks(),
            final(self).backend() == old(self).backend(),
            final(self).recent_calls() == Seq::<Call<B::Error>>::empty(),
            final(self).tiers() == old(self).tiers().reset(),
    {
        self.inner.reset_stats();
        self.mark = Ghost(self.backend.calls().len());
        assert(self.recent_calls() =~= Seq::empty());
    }

    /// Requests for a page that was hot.
    pub fn hits(&self) -> (n: u64)
        ensures
            n == self.tiers().hits,
    {
        self.inner.hits()
    }

    /// Requests for a page that had to be fetched. This is the number of reads that the
    /// backend was asked for since the counters were last zero.
    pub fn misses(&self) -> (n: u64)
        ensures
            n == self.tiers().misses,
            self.wf() ==> n == count_reads(self.recent_calls()),
    {
        self.inner.misses()
    }

    /// Pages that were displaced from the hot set. This is the number of writes that the
    /// backend was asked for since the counters were last zero.
    pub fn evictions(&self) -> (n: u64)
        ensures
            n == self.tiers().evictions,
            self.wf() ==> n == count_writes(self.recent_calls()),
    {
        self.inner.evictions()
    }

    /// Requests that joined the fetch of another one.
    pub fn coalesced(&self) -> (n: u64)
        ensures
            n == self.tiers().coalesced,
    {
        self.inner.coalesced()
    }

    /// The share of requests that were hits, as a fraction: the hits, and the hits
    /// and misses together. `None` where there were neither.
    pub fn hit_rate(&self) -> (rate: Option<(u64, u64)>)
        requires
            self.wf(),
        ensures
            rate == if self.tiers().hits + self.tiers().misses == 0 {
                None::<(u64, u64)>
            } else {
                Some((self.tiers().hits as u64, (self.tiers().hits + self.tiers().misses) as u64))
            },
            rate matches Some(fraction) ==> {
                &&& fraction.0 == self.tiers().hits
                &&& fraction.1 == self.tiers().hits + self.tiers().misses
                &&& fraction.0 <= fraction.1
            },
    {
        self.inner.hit_rate()
    }
}

/// Whole pages can be read into whole pages, and a page that no tier has into any buffer.
pub proof fn law_whole_pages_can_be_read<B: Backend>(cache: Cache<B>, id: PageId, len: nat)
    requires
        cache.wf(),
        cache.tiers().contents().contains_key(id) ==> {
            &&& len == 4096
            &&& cache.tiers().contents()[id].len() == 4096
        },
    ensures
        cache.readable(id, len),
{
}

/// The calls that store the page displaced, if there is one, are its write-back.
proof fn lemma_write_back<E>(
    tiers: Tiers,
    id: PageId,
    victims: Seq<(PageId, Seq<u8>)>,
    calls: Seq<Call<E>>,
    r: Result<(), E>,
)
    requires
        match tiers.displaced(id) {
            Some(victim) => victims == seq![(victim, tiers.hot[victim])],
            None => victims.len() == 0 && r is Ok,
        },
    ensures
        r is Ok ==> calls + puts(victims) == calls + write_back(tiers, id, r),
        forall|k: int|
            0 <= k < victims.len() ==> {
                let (victim, bytes) = #[trigger] victims[k];
                (calls + puts(victims.take(k))).push(
                    Call::Put { id: victim, bytes, failure: failure(r) },
                ) == calls + write_back(tiers, id, r)
            },
{
    if r is Ok {
        assert(puts(victims) =~= write_back(tiers, id, r));
    }
    if victims.len() > 0 {
        assert(calls + puts(victims.take(0)) =~= calls);
        assert(calls.push(
            Call::Put { id: victims[0].0, bytes: victims[0].1, failure: failure(r) },
        ) =~= calls + write_back(tiers, id, r));
    }
}

/// Calls made after the mark are recent.
proof fn lemma_more_calls<E>(calls: Seq<Call<E>>, mark: int, more: Seq<Call<E>>)
    requires
        0 <= mark <= calls.len(),
    ensures
        (calls + more).skip(mark) == calls.skip(mark) + more,
{
    assert((calls + more).skip(mark) =~= calls.skip(mark) + more);
}

/// A read counts as one.
proof fn lemma_read_counts<E>(calls: Seq<Call<E>>, read: Call<E>)
    requires
        read is Get,
    ensures
        count_reads(calls + seq![read]) == count_reads(calls) + 1,
        count_writes(calls + seq![read]) == count_writes(calls),
{
    assert((calls + seq![read]).drop_last() =~= calls);
}

/// A write-back counts as one write where a page is displaced.
proof fn lemma_write_back_counts<E>(
    calls: Seq<Call<E>>,
    tiers: Tiers,
    id: PageId,
    r: Result<(), E>,
)
    ensures
        count_reads(calls + write_back(tiers, id, r)) == count_reads(calls),
        count_writes(calls + write_back(tiers, id, r)) == count_writes(calls) + if tiers.displaced(
            id,
        ) is Some {
            1nat
        } else {
            0
        },
{
    let more = write_back(tiers, id, r);
    if tiers.displaced(id) is Some {
        assert((calls + more).drop_last() =~= calls);
    } else {
        assert(calls + more =~= calls);
    }
}

/// Using a page later than all others, with whatever bytes, puts it last.
proof fn lemma_used(
    hot: Map<PageId, HotPage>,
    order: Seq<PageId>,
    id: PageId,
    bytes: Seq<u8>,
    now: nat,
)
    requires
        sorted_by_use(hot, order),
        forall|x: PageId| #[trigger] hot.contains_key(x) ==> hot[x].last_used < now,
    ensures
        sorted_by_use(
            hot.insert(id, HotPage { data: bytes, last_used: now }),
            touched(order, id),
        ),
        hot_bytes(hot.insert(id, HotPage { data: bytes, last_used: now })) == hot_bytes(
            hot,
        ).insert(id, bytes),
{
    let after = hot.insert(id, HotPage { data: bytes, last_used: now });
    let used = touched(order, id);
    lemma_touched(order, id);
    assert(hot_bytes(after) =~= hot_bytes(hot).insert(id, bytes));
    assert forall|i: int, j: int| 0 <= i < j < used.len() implies after[
    #[trigger] used[i]].last_used < after[#[trigger] used[j]].last_used by {
        let k = if order.contains(id) {
            order.index_of(id)
        } else {
            order.len() as int
        };
        let oi = if i < k {
            i
        } else {
            i + 1
        };
        assert(used[i] == order[oi]);
        assert(order.contains(order[oi]) && hot.contains_key(order[oi]));
        assert(used[used.len() - 1] == id);
        assert(used[i] != used[used.len() - 1]);
        if j < used.len() - 1 {
            let oj = if j < k {
                j
            } else {
                j + 1
            };
            assert(used[j] == order[oj]);
            assert(used[j] != used[used.len() - 1]);
        }
    }
}

/// Storing at most one page is one insertion at most.
proof fn lemma_stored_one(pages: Map<PageId, Seq<u8>>, victims: Seq<(PageId, Seq<u8>)>)
    requires
        victims.len() <= 1,
    ensures
        victims.len() == 0 ==> stored(pages, victims) == pages,
        victims.len() == 1 ==> {
            &&& stored(pages, victims) == pages.insert(victims[0].0, victims[0].1)
            &&& stored(pages, victims.take(0)) == pages
            &&& stored(pages, victims).remove(victims[0].0) == pages.remove(victims[0].0)
        },
{
    reveal_with_fuel(stored, 2);
    if victims.len() == 1 {
        assert(stored(pages, victims).remove(victims[0].0) =~= pages.remove(victims[0].0));
    }
}

/// Cutting down a hot set into which one page has just come takes out the page
/// used longest ago, or none.
proof fn lemma_settled(
    before: Tiers,
    entered: CacheView<Solo>,
    id: PageId,
    bytes: Seq<u8>,
    victims: Seq<(PageId, Seq<u8>)>,
    after: CacheView<Solo>,
)
    requires
        before.wf(),
        entered.capacity == before.capacity,
        entered.hot.dom().finite(),
        sorted_by_use(entered.hot, touched(before.order, id)),
        hot_bytes(entered.hot) == before.hot.insert(id, bytes),
        entered.settled(victims, after),
    ensures
        hot_bytes(after.hot) == before.place(id, bytes).hot,
        sorted_by_use(after.hot, before.place(id, bytes).order),
        match before.displaced(id) {
            Some(victim) => {
                &&& victims == seq![(victim, entered.hot[victim].data)]
                &&& after.evictions == entered.evictions + 1
            },
            None => victims.len() == 0 && after.evictions == entered.evictions,
        },
{
    let used = touched(before.order, id);
    lemma_touched(before.order, id);
    lemma_place(before, id, bytes);
    assert(used.to_set() =~= entered.hot.dom());
    used.unique_seq_to_set();
    if used.len() > before.capacity {
        let victim = victims[0].0;
        assert(victims.len() == 1);
        let k = used.index_of(victim);
        assert(used.contains(victim));
        if k != 0 {
            assert(used.contains(used[0]));
            assert(entered.hot.contains_key(used[0]));
            assert(!victim_ids(victims).contains(used[0]));
            assert(after.hot.contains_key(used[0]));
            assert(false);
        }
        assert(victims =~= seq![(used[0], entered.hot[used[0]].data)]);
        assert forall|x: PageId| victim_ids(victims).contains(x) <==> x == used[0] by {
            assert(victims[0].0 == used[0]);
        }
        assert(after.hot =~= entered.hot.remove(used[0]));
        assert(hot_bytes(after.hot) =~= before.place(id, bytes).hot);
        let order = used.drop_first();
        assert forall|x: PageId| order.contains(x) <==> #[trigger] after.hot.contains_key(x) by {
            assert(before.place(id, bytes).hot.contains_key(x) <==> after.hot.contains_key(x));
        }
    } else {
        assert(after.hot =~= entered.hot);
        assert(hot_bytes(after.hot) =~= before.place(id, bytes).hot);
    }
}

} // verus!
