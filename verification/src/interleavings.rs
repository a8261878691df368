//! What holds of the shared state when requests overlap.

use crate::histories::{count_follows, count_hits};
use crate::inner::{lemma_next_wf, victim_ids, CacheView, Event, FlightHandle, GetStep, Slot};
use crate::page::PageId;
use vstd::prelude::*;

verus! {

/// `states` is what `events` make of its first entry, step by step.
pub open spec fn history<H: FlightHandle>(
    states: Seq<CacheView<H>>,
    events: Seq<Event<H>>,
) -> bool {
    &&& states.len() == events.len() + 1
    &&& forall|i: int|
        0 <= i < events.len() ==> (#[trigger] states[i]).next(events[i], states[i + 1])
}

/// Whether an event opens a fetch of `id`.
pub open spec fn leads<H>(event: Event<H>, id: PageId) -> bool {
    event matches Event::Got { id: got, step } && got == id && step is Lead
}

/// Whether an event ends a fetch of `id`.
pub open spec fn ends<H>(event: Event<H>, id: PageId) -> bool {
    match event {
        Event::Fetched { id: fetched, .. } => fetched == id,
        Event::Failed { id: failed } => failed == id,
        _ => false,
    }
}

/// The number of fetches of `id` that are opened.
pub open spec fn count_leads<H>(events: Seq<Event<H>>, id: PageId) -> nat
    decreases events.len(),
{
    if events.len() == 0 {
        0
    } else {
        count_leads(events.drop_last(), id) + if leads(events.last(), id) {
            1nat
        } else {
            0
        }
    }
}

/// The number of fetches of `id` that are ended.
pub open spec fn count_ends<H>(events: Seq<Event<H>>, id: PageId) -> nat
    decreases events.len(),
{
    if events.len() == 0 {
        0
    } else {
        count_ends(events.drop_last(), id) + if ends(events.last(), id) {
            1nat
        } else {
            0
        }
    }
}

/// The number of fetches that are opened, of whatever page.
pub open spec fn count_all_leads<H>(events: Seq<Event<H>>) -> nat
    decreases events.len(),
{
    if events.len() == 0 {
        0
    } else {
        count_all_leads(events.drop_last()) + match events.last() {
            Event::Got { step: GetStep::Lead(_), .. } => 1nat,
            _ => 0,
        }
    }
}

/// The number of pages that are handed out to be stored.
pub open spec fn count_victims<H>(events: Seq<Event<H>>) -> nat
    decreases events.len(),
{
    if events.len() == 0 {
        0
    } else {
        count_victims(events.drop_last()) + match events.last() {
            Event::Put { victims, .. } => victims.len(),
            Event::Fetched { victims, .. } => victims.len(),
            _ => 0,
        }
    }
}

/// The number of requests for a page.
pub open spec fn count_gets<H>(events: Seq<Event<H>>) -> nat
    decreases events.len(),
{
    if events.len() == 0 {
        0
    } else {
        count_gets(events.drop_last()) + if events.last() is Got {
            1nat
        } else {
            0
        }
    }
}

pub proof fn lemma_history_prefix<H: FlightHandle>(states: Seq<CacheView<H>>, events: Seq<Event<H>>)
    requires
        history(states, events),
        events.len() > 0,
    ensures
        history(states.drop_last(), events.drop_last()),
        states.drop_last().last() == states[events.len() - 1],
        states[events.len() - 1].next(events.last(), states.last()),
{
    let earlier = states.drop_last();
    assert forall|i: int| 0 <= i < events.len() - 1 implies (#[trigger] earlier[i]).next(
        events.drop_last()[i],
        earlier[i + 1],
    ) by {
        assert(states[i].next(events[i], states[i + 1]));
    }
    assert(states[events.len() - 1].next(events[events.len() - 1], states[events.len() as int]));
}

/// However requests overlap, the hot set never exceeds its capacity, and the other
/// bounds of the shared state hold.
pub proof fn law_interleavings_keep_the_bounds<H: FlightHandle>(
    states: Seq<CacheView<H>>,
    events: Seq<Event<H>>,
)
    requires
        history(states, events),
        states[0].wf(),
    ensures
        states.last().wf(),
        states.last().capacity == states[0].capacity,
        states.last().hot.len() <= states[0].capacity,
    decreases events.len(),
{
    if events.len() > 0 {
        lemma_history_prefix(states, events);
        law_interleavings_keep_the_bounds(states.drop_last(), events.drop_last());
        lemma_next_wf(states[events.len() - 1], events.last(), states.last());
    }
}

/// Single flight: of each page at most one fetch is open at any time. The fetches
/// opened are those that were ended and the one that is still open.
pub proof fn law_single_flight<H: FlightHandle>(
    states: Seq<CacheView<H>>,
    events: Seq<Event<H>>,
    id: PageId,
)
    requires
        history(states, events),
    ensures
        count_leads(events, id) + (if states[0].inflight.contains_key(id) {
            1nat
        } else {
            0
        }) == count_ends(events, id) + (if states.last().inflight.contains_key(id) {
            1nat
        } else {
            0
        }),
    decreases events.len(),
{
    if events.len() > 0 {
        lemma_history_prefix(states, events);
        law_single_flight(states.drop_last(), events.drop_last(), id);
    }
}

/// Requests for one page that is not hot, all made before its fetch ends, cost one
/// read: the first one leads, all others follow.
pub proof fn law_overlapping_misses_coalesce<H: FlightHandle>(
    states: Seq<CacheView<H>>,
    events: Seq<Event<H>>,
    id: PageId,
)
    requires
        history(states, events),
        !states[0].hot.contains_key(id),
        !states[0].inflight.contains_key(id),
        events.len() > 0,
        forall|i: int|
            0 <= i < events.len() ==> (#[trigger] events[i] matches Event::Got { id: got, .. }
                && got == id),
    ensures
        count_leads(events, id) == 1,
        leads(events[0], id),
        states.last().misses == states[0].misses + 1,
        states.last().coalesced == states[0].coalesced + events.len() - 1,
        states.last().hits == states[0].hits,
{
    lemma_coalesce(states, events, id);
}

proof fn lemma_coalesce<H: FlightHandle>(
    states: Seq<CacheView<H>>,
    events: Seq<Event<H>>,
    id: PageId,
)
    requires
        history(states, events),
        !states[0].hot.contains_key(id),
        !states[0].inflight.contains_key(id),
        events.len() > 0,
        forall|i: int|
            0 <= i < events.len() ==> (#[trigger] events[i] matches Event::Got { id: got, .. }
                && got == id),
    ensures
        count_leads(events, id) == 1,
        leads(events[0], id),
        states.last().misses == states[0].misses + 1,
        states.last().coalesced == states[0].coalesced + events.len() - 1,
        states.last().hits == states[0].hits,
        !states.last().hot.contains_key(id),
        states.last().inflight.contains_key(id),
    decreases events.len(),
{
    lemma_history_prefix(states, events);
    let earlier = events.drop_last();
    let last = events[events.len() - 1];
    if events.len() == 1 {
        assert(count_leads(earlier, id) == 0);
    } else {
        lemma_coalesce(states.drop_last(), earlier, id);
        assert(earlier[0] == events[0]);
    }
}

/// Every request for a page is counted once, as a hit, a miss or a joined fetch.
pub proof fn law_every_request_is_counted_once<H: FlightHandle>(
    states: Seq<CacheView<H>>,
    events: Seq<Event<H>>,
)
    requires
        history(states, events),
        forall|i: int| 0 <= i < events.len() ==> !(#[trigger] events[i] is Reset),
    ensures
        states.last().hits + states.last().misses + states.last().coalesced == states[0].hits
            + states[0].misses + states[0].coalesced + count_gets(events),
    decreases events.len(),
{
    if events.len() > 0 {
        lemma_history_prefix(states, events);
        let earlier = events.drop_last();
        assert forall|i: int| 0 <= i < earlier.len() implies !(#[trigger] earlier[i] is Reset) by {
            assert(earlier[i] == events[i]);
        }
        law_every_request_is_counted_once(states.drop_last(), earlier);
        assert(!(events[events.len() - 1] is Reset));
    }
}

/// Each counter counts its own: the hits are the requests that were answered from the hot
/// set, the joined fetches those that were told to follow, the misses those that were told
/// to read the backend, and the evictions the pages that were handed out to be stored in
/// it.
pub proof fn law_counters_count_backend_requests<H: FlightHandle>(
    states: Seq<CacheView<H>>,
    events: Seq<Event<H>>,
)
    requires
        history(states, events),
        forall|i: int| 0 <= i < events.len() ==> !(#[trigger] events[i] is Reset),
    ensures
        states.last().hits == states[0].hits + count_hits(events),
        states.last().coalesced == states[0].coalesced + count_follows(events),
        states.last().misses == states[0].misses + count_all_leads(events),
        states.last().evictions == states[0].evictions + count_victims(events),
    decreases events.len(),
{
    if events.len() > 0 {
        lemma_history_prefix(states, events);
        let earlier = events.drop_last();
        assert forall|i: int| 0 <= i < earlier.len() implies !(#[trigger] earlier[i] is Reset) by {
            assert(earlier[i] == events[i]);
        }
        law_counters_count_backend_requests(states.drop_last(), earlier);
        assert(!(events[events.len() - 1] is Reset));
    }
}

/// One fetch, from the request that leads it to the last look at its slot.
#[verifier::reject_recursive_types(H)]
pub struct Flight<H> {
    pub id: PageId,
    /// The handle that followers get clones of.
    pub handle: H,
    /// What the leader has read from the backend.
    pub fetched: Option<Seq<u8>>,
    /// What followers find.
    pub slot: Slot,
    /// Whether a newer version of the page was elsewhere when it was read, or has been
    /// written since.
    pub overtaken: bool,
}

impl<H> Flight<H> {
    /// Whether followers find what the leader has read.
    pub open spec fn honest(self) -> bool {
        match self.slot {
            Slot::Waiting => true,
            Slot::Filled(bytes) => self.fetched == Some(bytes),
            Slot::Abandoned => self.fetched is None,
        }
    }

    /// Whether `later` is the same fetch: what it is of, its handle, what the leader has
    /// read and what followers have found never change.
    pub open spec fn continued_by(self, later: Self) -> bool {
        &&& later.id == self.id
        &&& later.handle == self.handle
        &&& self.fetched is Some ==> later.fetched == self.fetched
        &&& !(self.slot is Waiting) ==> later.slot == self.slot
    }

    /// Whether the leader, unless it has been overtaken, has read what was last written.
    pub open spec fn sound(self, written: Map<PageId, Seq<u8>>) -> bool {
        self.fetched matches Some(bytes) ==> !self.overtaken ==> {
            &&& written.contains_key(self.id)
            &&& written[self.id] == bytes
        }
    }
}

/// The shared state together with the backend and what is on the way between them.
#[verifier::reject_recursive_types(H)]
pub struct System<H> {
    pub cache: CacheView<H>,
    /// What the backend stores.
    pub cold: Map<PageId, Seq<u8>>,
    /// All fetches that were ever opened. Followers may look at one after it has ended.
    pub flights: Seq<Flight<H>>,
    /// The fetch that is open for a page.
    pub open: Map<PageId, int>,
    /// Displaced pages that have not been stored yet, in the order in which they left.
    pub leaving: Seq<(PageId, Seq<u8>)>,
    /// What was last written of each page.
    pub written: Map<PageId, Seq<u8>>,
}

/// One step of the system.
#[verifier::reject_recursive_types(H)]
pub enum Move<H> {
    /// A request starts.
    Got { id: PageId, step: GetStep<H> },
    /// A leader reads its page from the backend.
    Read { id: PageId },
    /// A leader fills the slot of its fetch.
    Published { id: PageId },
    /// A leader brings in what it has read.
    Landed { id: PageId, victims: Seq<(PageId, Seq<u8>)> },
    /// A leader that has read nothing tells its followers so.
    Abandoned { id: PageId },
    /// A leader that has read nothing ends its fetch.
    Lost { id: PageId },
    /// A follower reads the slot of its fetch.
    Followed { flight: int },
    /// A page is written.
    Put { id: PageId, bytes: Seq<u8>, victims: Seq<(PageId, Seq<u8>)> },
    /// A displaced page is stored.
    Stored { at: int },
    /// A displaced page is given up, after a failed attempt to store it or without one.
    /// `cold` is what the backend stores afterwards.
    Dropped { at: int, cold: Map<PageId, Seq<u8>> },
    /// The counters are set back.
    Reset,
}

/// `flights` after a page has been written: every fetch of it is overtaken.
pub open spec fn overtake<H>(flights: Seq<Flight<H>>, id: PageId) -> Seq<Flight<H>> {
    flights.map_values(
        |flight: Flight<H>|
            if flight.id == id {
                Flight { overtaken: true, ..flight }
            } else {
                flight
            },
    )
}

impl<H: FlightHandle> System<H> {
    /// Whether `id` has been displaced and not been stored yet.
    pub open spec fn leaves(self, id: PageId) -> bool {
        exists|k: int| 0 <= k < self.leaving.len() && (#[trigger] self.leaving[k]).0 == id
    }

    /// Whether there is a version of `id` that the backend has yet to get: in the hot
    /// set, or displaced and not stored.
    pub open spec fn newer(self, id: PageId) -> bool {
        ||| self.cache.hot.contains_key(id)
        ||| exists|k: int|
            0 <= k < self.leaving.len() && (#[trigger] self.leaving[k]).0 == id && !(
            self.cold.contains_key(id) && self.cold[id] == self.leaving[k].1)
    }

    /// Whether entry `k` is the last version of its page to leave.
    pub open spec fn last_to_leave(self, k: int) -> bool {
        &&& 0 <= k < self.leaving.len()
        &&& forall|j: int|
            k < j < self.leaving.len() ==> (#[trigger] self.leaving[j]).0 != self.leaving[k].0
    }

    /// The fetch of `id` that is open.
    pub open spec fn flight(self, id: PageId) -> Flight<H> {
        self.flights[self.open[id]]
    }

    /// The fetches after the one that is open for `id` has become `flight`.
    pub open spec fn with_flight(self, id: PageId, flight: Flight<H>) -> Seq<Flight<H>> {
        self.flights.update(self.open[id], flight)
    }

    /// `after` is what `mv` makes of the system.
    pub open spec fn moves(self, mv: Move<H>, after: Self) -> bool {
        match mv {
            Move::Got { id, step } => {
                &&& self.cache.next(Event::Got { id, step }, after.cache)
                &&& after == match step {
                    GetStep::Lead(_) => System {
                        cache: after.cache,
                        flights: self.flights.push(
                            Flight {
                                id,
                                handle: after.cache.inflight[id],
                                fetched: None,
                                slot: Slot::Waiting,
                                overtaken: false,
                            },
                        ),
                        open: self.open.insert(id, self.flights.len() as int),
                        ..self
                    },
                    _ => System { cache: after.cache, ..self },
                }
            },
            Move::Read { id } => {
                &&& self.open.contains_key(id)
                &&& self.cold.contains_key(id)
                &&& self.flight(id).fetched is None
                &&& self.flight(id).slot is Waiting
                &&& after == (System {
                    flights: self.with_flight(
                        id,
                        Flight {
                            fetched: Some(self.cold[id]),
                            overtaken: self.newer(id),
                            ..self.flight(id)
                        },
                    ),
                    ..self
                })
            },
            Move::Published { id } => {
                &&& self.open.contains_key(id)
                &&& self.flight(id).fetched is Some
                &&& after == (System {
                    flights: self.with_flight(
                        id,
                        Flight {
                            slot: Slot::Filled(self.flight(id).fetched->0),
                            ..self.flight(id)
                        },
                    ),
                    ..self
                })
            },
            Move::Landed { id, victims } => {
                &&& self.open.contains_key(id)
                &&& self.flight(id).fetched is Some
                &&& self.cache.next(
                    Event::Fetched { id, bytes: self.flight(id).fetched->0, victims },
                    after.cache,
                )
                &&& after == (System {
                    cache: after.cache,
                    open: self.open.remove(id),
                    leaving: self.leaving + victims,
                    ..self
                })
            },
            Move::Abandoned { id } => {
                &&& self.open.contains_key(id)
                &&& self.flight(id).fetched is None
                &&& after == (System {
                    flights: self.with_flight(
                        id,
                        Flight { slot: Slot::Abandoned, ..self.flight(id) },
                    ),
                    ..self
                })
            },
            Move::Lost { id } => {
                &&& self.open.contains_key(id)
                &&& self.flight(id).fetched is None
                &&& self.cache.next(Event::Failed { id }, after.cache)
                &&& after == (System {
                    cache: after.cache,
                    open: self.open.remove(id),
                    ..self
                })
            },
            Move::Followed { flight } => {
                &&& 0 <= flight < self.flights.len()
                &&& self.flights[flight].slot is Filled
                &&& after == self
            },
            Move::Put { id, bytes, victims } => {
                &&& self.cache.next(Event::Put { id, bytes, victims }, after.cache)
                &&& after == (System {
                    cache: after.cache,
                    flights: overtake(self.flights, id),
                    leaving: self.leaving + victims,
                    written: self.written.insert(id, bytes),
                    ..self
                })
            },
            Move::Stored { at } => {
                &&& 0 <= at < self.leaving.len()
                &&& after == (System {
                    cold: self.cold.insert(self.leaving[at].0, self.leaving[at].1),
                    leaving: self.leaving.remove(at),
                    ..self
                })
            },
            Move::Dropped { at, cold } => {
                let id = self.leaving[at].0;
                &&& 0 <= at < self.leaving.len()
                &&& cold.remove(id) == self.cold.remove(id)
                &&& after == (System { cold, leaving: self.leaving.remove(at), ..self })
            },
            Move::Reset => {
                &&& self.cache.next(Event::Reset, after.cache)
                &&& after == (System { cache: after.cache, ..self })
            },
        }
    }

    /// The fetches that are open are those in flight, each under its page and with the
    /// handle that followers are given. A slot that is filled holds what the leader has
    /// read, and one that is abandoned belongs to a leader that has read nothing.
    pub open spec fn linked(self) -> bool {
        &&& forall|id: PageId|
            self.open.contains_key(id) <==> #[trigger] self.cache.inflight.contains_key(id)
        &&& forall|id: PageId| #[trigger]
            self.open.contains_key(id) ==> {
                &&& 0 <= self.open[id] < self.flights.len()
                &&& self.flight(id).id == id
                &&& self.flight(id).handle == self.cache.inflight[id]
            }
        &&& forall|f: int|
            0 <= f < self.flights.len() ==> (#[trigger] self.flights[f]).honest()
    }

    /// Whether `later` has the same fetches, and possibly more.
    pub open spec fn continued_by(self, later: Self) -> bool {
        &&& self.flights.len() <= later.flights.len()
        &&& forall|f: int|
            0 <= f < self.flights.len() ==> (#[trigger] self.flights[f]).continued_by(
                later.flights[f],
            )
    }

    /// Whether a step stays clear of what loses writes: a fetch does not bring in a page
    /// that a newer version has overtaken, the newest version of a page is not stored while
    /// an older one, which would replace it, has yet to be, and no displaced page is given
    /// up.
    pub open spec fn clear(self, mv: Move<H>) -> bool {
        match mv {
            Move::Landed { id, .. } => !self.flight(id).overtaken,
            Move::Stored { at } => {
                self.last_to_leave(at) && !self.cache.hot.contains_key(self.leaving[at].0)
                    ==> forall|k: int|
                    0 <= k < at && (#[trigger] self.leaving[k]).0 == self.leaving[at].0
                        ==> self.leaving[k].1 == self.leaving[at].1
            },
            Move::Dropped { .. } => false,
            _ => true,
        }
    }

    /// Fetches that have not been overtaken have read what was last written.
    pub open spec fn flights_sound(self) -> bool {
        forall|f: int|
            0 <= f < self.flights.len() ==> (#[trigger] self.flights[f]).sound(self.written)
    }

    /// The newest version of each page, wherever it is, is as it was last written.
    pub open spec fn sound(self) -> bool {
        &&& forall|id: PageId| #[trigger]
            self.cache.hot.contains_key(id) ==> {
                &&& self.written.contains_key(id)
                &&& self.cache.hot[id].data == self.written[id]
            }
        &&& self.flights_sound()
        &&& forall|k: int|
            #![trigger self.leaving[k]]
            self.last_to_leave(k) && !self.cache.hot.contains_key(self.leaving[k].0) ==> {
                &&& self.written.contains_key(self.leaving[k].0)
                &&& self.written[self.leaving[k].0] == self.leaving[k].1
            }
        &&& forall|id: PageId| #[trigger]
            self.cold.contains_key(id) ==> self.written.contains_key(id)
        &&& forall|k: int|
            0 <= k < self.leaving.len() ==> self.written.contains_key(
                (#[trigger] self.leaving[k]).0,
            )
        &&& forall|id: PageId| #[trigger]
            self.written.contains_key(id) && !self.cache.hot.contains_key(id) && !self.leaves(id)
                ==> self.cold.contains_key(id) && self.cold[id] == self.written[id]
    }
}

/// `states` is what `moves` make of its first entry, step by step.
pub open spec fn run_of<H: FlightHandle>(states: Seq<System<H>>, moves: Seq<Move<H>>) -> bool {
    &&& states.len() == moves.len() + 1
    &&& forall|i: int|
        0 <= i < moves.len() ==> (#[trigger] states[i]).moves(moves[i], states[i + 1])
}

/// Whether no step of a run loses writes.
pub open spec fn clear_run<H: FlightHandle>(states: Seq<System<H>>, moves: Seq<Move<H>>) -> bool {
    &&& run_of(states, moves)
    &&& forall|i: int| 0 <= i < moves.len() ==> (#[trigger] states[i]).clear(moves[i])
}

/// Everyone gets the leader's bytes: however requests overlap, and whatever the backend
/// fails to store, a request that is told to follow is given a clone of the handle of the
/// fetch of its own page, which the leader shares, and whatever a follower reads is what
/// the leader of that fetch has read. A follower finds an abandoned slot only where the
/// leader has read nothing.
pub proof fn law_followers_read_what_the_leader_fetched<H: FlightHandle>(
    states: Seq<System<H>>,
    moves: Seq<Move<H>>,
)
    requires
        run_of(states, moves),
        states[0].linked(),
    ensures
        forall|i: int|
            0 <= i < moves.len() ==> match #[trigger] moves[i] {
                Move::Got { id, step: GetStep::Follow(handle) } => {
                    &&& states[i].open.contains_key(id)
                    &&& states[i].flight(id).id == id
                    &&& cloned(states[i].flight(id).handle, handle)
                },
                Move::Got { id, step: GetStep::Lead(handle) } => {
                    &&& call_ensures(H::open, (), handle)
                    &&& states[i + 1].open.contains_key(id)
                    &&& states[i + 1].open[id] == states[i].flights.len()
                    &&& states[i + 1].flight(id).id == id
                    &&& cloned(handle, states[i + 1].flight(id).handle)
                },
                Move::Followed { flight } => {
                    &&& 0 <= flight < states[i].flights.len()
                    &&& states[i].flights[flight].slot matches Slot::Filled(bytes)
                    &&& states[i].flights[flight].fetched == Some(bytes)
                },
                _ => true,
            },
        forall|i: int, j: int|
            #![trigger states[i], states[j]]
            0 <= i <= j < states.len() ==> states[i].continued_by(states[j]),
        forall|i: int, f: int|
            0 <= i < states.len() && 0 <= f < states[i].flights.len() ==> (
            #[trigger] states[i].flights[f]).honest(),
{
    assert forall|i: int| 0 <= i < states.len() implies (#[trigger] states[i]).linked() by {
        lemma_linked(states, moves, i);
    }
    assert forall|i: int, j: int|
        #![trigger states[i], states[j]]
        0 <= i <= j < states.len() implies states[i].continued_by(states[j]) by {
        lemma_continued(states, moves, i, j);
    }
}

proof fn lemma_linked<H: FlightHandle>(states: Seq<System<H>>, moves: Seq<Move<H>>, i: int)
    requires
        run_of(states, moves),
        states[0].linked(),
        0 <= i < states.len(),
    ensures
        states[i].linked(),
    decreases i,
{
    if i > 0 {
        lemma_linked(states, moves, i - 1);
        assert(states[i - 1].moves(moves[i - 1], states[i]));
        lemma_move_linked(states[i - 1], moves[i - 1], states[i]);
    }
}

proof fn lemma_continued<H: FlightHandle>(
    states: Seq<System<H>>,
    moves: Seq<Move<H>>,
    i: int,
    j: int,
)
    requires
        run_of(states, moves),
        states[0].linked(),
        0 <= i <= j < states.len(),
    ensures
        states[i].continued_by(states[j]),
    decreases j - i,
{
    if i < j {
        lemma_continued(states, moves, i, j - 1);
        lemma_linked(states, moves, j - 1);
        assert(states[j - 1].moves(moves[j - 1], states[j]));
        lemma_move_linked(states[j - 1], moves[j - 1], states[j]);
        assert forall|f: int| 0 <= f < states[i].flights.len() implies (
        #[trigger] states[i].flights[f]).continued_by(states[j].flights[f]) by {
            assert(states[i].flights[f].continued_by(states[j - 1].flights[f]));
            assert(states[j - 1].flights[f].continued_by(states[j].flights[f]));
        }
    }
}

/// Every step keeps fetches linked, and changes nothing of them that stays.
proof fn lemma_move_linked<H: FlightHandle>(before: System<H>, mv: Move<H>, after: System<H>)
    requires
        before.linked(),
        before.moves(mv, after),
    ensures
        after.linked(),
        before.continued_by(after),
{
    match mv {
        Move::Got { id, step } => {
            if step is Lead {
                assert(before.cache.inflight.contains_key(id) == before.open.contains_key(id));
                assert forall|x: PageId| #[trigger] after.open.contains_key(x) implies {
                    &&& 0 <= after.open[x] < after.flights.len()
                    &&& after.flight(x).id == x
                    &&& after.flight(x).handle == after.cache.inflight[x]
                } by {
                    if x != id {
                        assert(before.open.contains_key(x));
                    }
                }
            }
        },
        Move::Read { id } => lemma_update_linked(before, id, after),
        Move::Published { id } => lemma_update_linked(before, id, after),
        Move::Abandoned { id } => lemma_update_linked(before, id, after),
        Move::Landed { id, .. } | Move::Lost { id } => {
            assert forall|x: PageId| #[trigger] after.open.contains_key(x) implies {
                &&& 0 <= after.open[x] < after.flights.len()
                &&& after.flight(x).id == x
                &&& after.flight(x).handle == after.cache.inflight[x]
            } by {
                assert(before.open.contains_key(x));
            }
        },
        _ => {},
    }
}

/// Going on with one open fetch keeps the fetches linked.
proof fn lemma_update_linked<H: FlightHandle>(before: System<H>, id: PageId, after: System<H>)
    requires
        before.linked(),
        before.open.contains_key(id),
        ({
            let flight = after.flights[before.open[id]];
            &&& after.flights == before.flights.update(before.open[id], flight)
            &&& before.flight(id).continued_by(flight)
            &&& flight.honest()
        }),
        after.open == before.open,
        after.cache.inflight == before.cache.inflight,
    ensures
        after.linked(),
        before.continued_by(after),
{
    assert forall|x: PageId| #[trigger] after.open.contains_key(x) implies {
        &&& 0 <= after.open[x] < after.flights.len()
        &&& after.flight(x).id == x
        &&& after.flight(x).handle == after.cache.inflight[x]
    } by {
        assert(before.open.contains_key(x));
        assert(before.flight(x).id == x);
    }
    assert forall|f: int| 0 <= f < after.flights.len() implies (
    #[trigger] after.flights[f]).honest() by {
        if f != before.open[id] {
            assert(after.flights[f] == before.flights[f]);
        }
    }
}

/// Overlapping requests read what was last written, too: along any run in which no
/// fetch brings in a page that has been overtaken, no older version of a page is stored
/// over its newest and every displaced page can be stored, every hit finds the bytes last
/// written, every fetch brings them, every follower of a fetch that has not been overtaken
/// reads them, and the backend has them wherever no newer version is elsewhere.
pub proof fn law_overlapping_reads_give_back_the_last_write<H: FlightHandle>(
    states: Seq<System<H>>,
    moves: Seq<Move<H>>,
)
    requires
        clear_run(states, moves),
        states[0].linked(),
        states[0].sound(),
    ensures
        forall|i: int| 0 <= i < states.len() ==> (#[trigger] states[i]).sound(),
        forall|i: int|
            0 <= i < moves.len() ==> match #[trigger] moves[i] {
                Move::Got { id, step: GetStep::Hit } => {
                    &&& states[i].written.contains_key(id)
                    &&& states[i].cache.hot[id].data == states[i].written[id]
                },
                Move::Landed { id, .. } => {
                    &&& states[i].written.contains_key(id)
                    &&& states[i].flight(id).fetched == Some(states[i].written[id])
                },
                Move::Followed { flight } => !states[i].flights[flight].overtaken ==> {
                    let id = states[i].flights[flight].id;
                    &&& states[i].written.contains_key(id)
                    &&& states[i].flights[flight].slot == Slot::Filled(states[i].written[id])
                },
                _ => true,
            },
        forall|i: int, id: PageId|
            0 <= i < states.len() && #[trigger] states[i].written.contains_key(id)
                && !states[i].newer(id) ==> {
                &&& states[i].cold.contains_key(id)
                &&& states[i].cold[id] == states[i].written[id]
            },
{
    assert forall|i: int| 0 <= i < states.len() implies (#[trigger] states[i]).sound() by {
        lemma_sound(states, moves, i);
    }
    assert forall|i: int| 0 <= i < moves.len() implies match #[trigger] moves[i] {
        Move::Got { id, step: GetStep::Hit } => {
            &&& states[i].written.contains_key(id)
            &&& states[i].cache.hot[id].data == states[i].written[id]
        },
        Move::Landed { id, .. } => {
            &&& states[i].written.contains_key(id)
            &&& states[i].flight(id).fetched == Some(states[i].written[id])
        },
        Move::Followed { flight } => !states[i].flights[flight].overtaken ==> {
            let id = states[i].flights[flight].id;
            &&& states[i].written.contains_key(id)
            &&& states[i].flights[flight].slot == Slot::Filled(states[i].written[id])
        },
        _ => true,
    } by {
        assert(states[i].moves(moves[i], states[i + 1]));
        assert(states[i].clear(moves[i]));
        lemma_linked(states, moves, i);
        assert(states[i].sound());
        if let Move::Landed { id, .. } = moves[i] {
            let flight = states[i].flights[states[i].open[id]];
            assert(states[i].open.contains_key(id));
            assert(flight.id == id);
        }
    }
    assert forall|i: int, id: PageId|
        0 <= i < states.len() && #[trigger] states[i].written.contains_key(id)
            && !states[i].newer(id) implies {
        &&& states[i].cold.contains_key(id)
        &&& states[i].cold[id] == states[i].written[id]
    } by {
        lemma_up_to_date(states[i], id);
    }
}

/// Where no newer version is elsewhere, the backend has the last write.
proof fn lemma_up_to_date<H: FlightHandle>(system: System<H>, id: PageId)
    requires
        system.sound(),
        system.written.contains_key(id),
        !system.newer(id),
    ensures
        system.cold.contains_key(id),
        system.cold[id] == system.written[id],
{
    if system.leaves(id) {
        let k = lemma_last_to_leave(system, id);
        assert(system.leaving[k].0 == id);
    }
}

/// A page that leaves has a last version to leave.
proof fn lemma_last_to_leave<H: FlightHandle>(system: System<H>, id: PageId) -> (k: int)
    requires
        system.leaves(id),
    ensures
        system.last_to_leave(k),
        system.leaving[k].0 == id,
{
    let first = choose|k: int|
        0 <= k < system.leaving.len() && (#[trigger] system.leaving[k]).0 == id;
    lemma_last_from(system, id, first)
}

proof fn lemma_last_from<H: FlightHandle>(system: System<H>, id: PageId, k: int) -> (last: int)
    requires
        0 <= k < system.leaving.len(),
        system.leaving[k].0 == id,
    ensures
        system.last_to_leave(last),
        system.leaving[last].0 == id,
        last >= k,
    decreases system.leaving.len() - k,
{
    if system.last_to_leave(k) {
        k
    } else {
        let later = choose|j: int|
            k < j < system.leaving.len() && (#[trigger] system.leaving[j]).0
                == system.leaving[k].0;
        lemma_last_from(system, id, later)
    }
}

proof fn lemma_sound<H: FlightHandle>(states: Seq<System<H>>, moves: Seq<Move<H>>, i: int)
    requires
        clear_run(states, moves),
        states[0].linked(),
        states[0].sound(),
        0 <= i < states.len(),
    ensures
        states[i].sound(),
    decreases i,
{
    if i > 0 {
        lemma_sound(states, moves, i - 1);
        lemma_linked(states, moves, i - 1);
        assert(states[i - 1].moves(moves[i - 1], states[i]));
        assert(states[i - 1].clear(moves[i - 1]));
        lemma_move_sound(states[i - 1], moves[i - 1], states[i]);
    }
}

proof fn lemma_move_sound<H: FlightHandle>(before: System<H>, mv: Move<H>, after: System<H>)
    requires
        before.linked(),
        before.sound(),
        before.moves(mv, after),
        before.clear(mv),
    ensures
        after.sound(),
{
    lemma_move_flights_sound(before, mv, after);
    match mv {
        Move::Landed { id, victims } => {
            lemma_leaving(before, victims, after);
            assert(before.open.contains_key(id));
            assert(before.flights[before.open[id]].id == id);
        },
        Move::Put { id, bytes, victims } => {
            lemma_leaving(before, victims, after);
        },
        Move::Stored { at } => {
            lemma_stored(before, at, after);
        },
        _ => {
            lemma_same_leaving(before, after);
        },
    }
}

/// Every step keeps what fetches that have not been overtaken have read.
proof fn lemma_move_flights_sound<H: FlightHandle>(
    before: System<H>,
    mv: Move<H>,
    after: System<H>,
)
    requires
        before.linked(),
        before.sound(),
        before.moves(mv, after),
    ensures
        after.flights_sound(),
{
    match mv {
        Move::Read { id } => {
            assert(before.open.contains_key(id));
            assert(before.flight(id).id == id);
            if !before.newer(id) {
                lemma_up_to_date(before, id);
            }
            assert forall|f: int| 0 <= f < after.flights.len() implies (
            #[trigger] after.flights[f]).sound(after.written) by {
                if f != before.open[id] {
                    assert(after.flights[f] == before.flights[f]);
                }
            }
        },
        _ => {
            assert forall|f: int| 0 <= f < after.flights.len() implies (
            #[trigger] after.flights[f]).sound(after.written) by {
                if f < before.flights.len() {
                    assert(before.flights[f].sound(before.written));
                }
            }
        },
    }
}

proof fn lemma_same_leaving<H: FlightHandle>(before: System<H>, after: System<H>)
    requires
        after.leaving == before.leaving,
    ensures
        forall|id: PageId| after.leaves(id) == before.leaves(id),
        forall|k: int| after.last_to_leave(k) == before.last_to_leave(k),
{
    assert forall|id: PageId| after.leaves(id) == before.leaves(id) by {}
}

/// What leaves after pages were displaced: what left before, and these pages, which are
/// then the last versions of theirs to leave.
proof fn lemma_leaving<H: FlightHandle>(
    before: System<H>,
    victims: Seq<(PageId, Seq<u8>)>,
    after: System<H>,
)
    requires
        after.leaving == before.leaving + victims,
    ensures
        forall|id: PageId| #[trigger]
            after.leaves(id) <==> before.leaves(id) || victim_ids(victims).contains(id),
        forall|k: int| #[trigger]
            after.last_to_leave(k) && k < before.leaving.len() ==> {
                &&& before.last_to_leave(k)
                &&& after.leaving[k] == before.leaving[k]
                &&& !victim_ids(victims).contains(after.leaving[k].0)
            },
        forall|k: int|
            before.leaving.len() <= k < after.leaving.len() ==> #[trigger] after.leaving[k]
                == victims[k - before.leaving.len()],
{
    assert forall|id: PageId| #[trigger]
        after.leaves(id) <==> before.leaves(id) || victim_ids(victims).contains(id) by {
        if before.leaves(id) {
            let k = choose|k: int|
                0 <= k < before.leaving.len() && (#[trigger] before.leaving[k]).0 == id;
            assert(after.leaving[k].0 == id);
        }
        if victim_ids(victims).contains(id) {
            let k = choose|k: int| 0 <= k < victims.len() && (#[trigger] victims[k]).0 == id;
            assert(after.leaving[before.leaving.len() + k].0 == id);
        }
        if after.leaves(id) {
            let k = choose|k: int|
                0 <= k < after.leaving.len() && (#[trigger] after.leaving[k]).0 == id;
            if k < before.leaving.len() {
                assert(before.leaving[k].0 == id);
            } else {
                assert(victims[k - before.leaving.len()].0 == id);
            }
        }
    }
    assert forall|k: int| #[trigger]
        after.last_to_leave(k) && k < before.leaving.len() implies {
        &&& before.last_to_leave(k)
        &&& after.leaving[k] == before.leaving[k]
        &&& !victim_ids(victims).contains(after.leaving[k].0)
    } by {
        assert forall|j: int| k < j < before.leaving.len() implies (
        #[trigger] before.leaving[j]).0 != before.leaving[k].0 by {
            assert(after.leaving[j] == before.leaving[j]);
        }
        if victim_ids(victims).contains(after.leaving[k].0) {
            let v = choose|v: int|
                0 <= v < victims.len() && (#[trigger] victims[v]).0 == after.leaving[k].0;
            assert(after.leaving[before.leaving.len() + v].0 == after.leaving[k].0);
        }
    }
}

/// What is the last version of a page to leave after one has been stored was the last
/// before, or has the same bytes as the one that was.
proof fn lemma_still_last<H: FlightHandle>(
    before: System<H>,
    at: int,
    after: System<H>,
    k: int,
) -> (last: int)
    requires
        0 <= at < before.leaving.len(),
        after.leaving == before.leaving.remove(at),
        before.clear(Move::<H>::Stored { at }),
        after.last_to_leave(k),
        !before.cache.hot.contains_key(after.leaving[k].0),
    ensures
        before.last_to_leave(last),
        before.leaving[last] == after.leaving[k],
{
    let was = if k < at {
        k
    } else {
        k + 1
    };
    let id = after.leaving[k].0;
    assert(before.leaving[was] == after.leaving[k]);
    let last = lemma_last_from(before, id, was);
    if last != was && last != at {
        let now = if last < at {
            last
        } else {
            last - 1
        };
        assert(after.leaving[now] == before.leaving[last]);
        assert(now > k);
        assert(false);
    }
    last
}

/// Storing a displaced page in order leaves the newest version of each page sound.
proof fn lemma_stored<H: FlightHandle>(before: System<H>, at: int, after: System<H>)
    requires
        before.sound(),
        before.moves(Move::Stored { at }, after),
        before.clear(Move::<H>::Stored { at }),
        after.flights_sound(),
    ensures
        after.sound(),
{
    let stored = before.leaving[at].0;
    assert forall|id: PageId| before.leaves(id) && id != stored implies after.leaves(id) by {
        let k = choose|k: int|
            0 <= k < before.leaving.len() && (#[trigger] before.leaving[k]).0 == id;
        if k < at {
            assert(after.leaving[k].0 == id);
        } else {
            assert(after.leaving[k - 1].0 == id);
        }
    }
    assert forall|k: int|
        #![trigger after.leaving[k]]
        after.last_to_leave(k) && !after.cache.hot.contains_key(after.leaving[k].0) implies {
        &&& after.written.contains_key(after.leaving[k].0)
        &&& after.written[after.leaving[k].0] == after.leaving[k].1
    } by {
        let last = lemma_still_last(before, at, after, k);
        assert(before.leaving[last].0 == after.leaving[k].0);
    }
    assert forall|id: PageId| #[trigger]
        after.written.contains_key(id) && !after.cache.hot.contains_key(id) && !after.leaves(
            id,
        ) implies after.cold.contains_key(id) && after.cold[id] == after.written[id] by {
        if id == stored {
            let last = lemma_last_from(before, id, at);
            if last != at {
                assert(after.leaving[last - 1].0 == id);
            }
        }
    }
    assert forall|k: int| 0 <= k < after.leaving.len() implies after.written.contains_key(
        (#[trigger] after.leaving[k]).0,
    ) by {
        assert(after.leaving[k] == before.leaving[if k < at {
            k
        } else {
            k + 1
        }]);
    }
}

} // verus!
