//! What the shared state is after requests that overlap in any way, stated over the
//! events alone: what was asked for, what was answered and what was handed out.

use crate::inner::{victim_pages, CacheView, Event, FlightHandle, GetStep};
use crate::interleavings::{history, law_interleavings_keep_the_bounds, lemma_history_prefix};
use crate::page::PageId;
use vstd::prelude::*;

verus! {

/// The number of requests made: each request for a page and each write is one.
pub open spec fn requests_made<H>(events: Seq<Event<H>>) -> nat
    decreases events.len(),
{
    if events.len() == 0 {
        0
    } else {
        requests_made(events.drop_last()) + match events.last() {
            Event::Got { .. } => 1nat,
            Event::Put { .. } => 1,
            _ => 0,
        }
    }
}

/// Whether an event uses `id`: it is found hot, written, or brought in by a fetch.
pub open spec fn uses_page<H>(event: Event<H>, id: PageId) -> bool {
    match event {
        Event::Got { id: got, step: GetStep::Hit } => got == id,
        Event::Put { id: put, .. } => put == id,
        Event::Fetched { id: fetched, .. } => fetched == id,
        _ => false,
    }
}

/// The number of requests that had been made when `id` was last used.
pub open spec fn last_use<H>(events: Seq<Event<H>>, id: PageId) -> nat
    decreases events.len(),
{
    if events.len() == 0 {
        0
    } else if uses_page(events.last(), id) {
        requests_made(events)
    } else {
        last_use(events.drop_last(), id)
    }
}

/// The bytes that were last written of `id` or brought in by a fetch.
pub open spec fn last_bytes<H>(events: Seq<Event<H>>, id: PageId) -> Seq<u8>
    decreases events.len(),
{
    if events.len() == 0 {
        Seq::empty()
    } else {
        match events.last() {
            Event::Put { id: put, bytes, .. } if put == id => bytes,
            Event::Fetched { id: fetched, bytes, .. } if fetched == id => bytes,
            _ => last_bytes(events.drop_last(), id),
        }
    }
}

/// Whether `id` is among the pages handed out.
pub open spec fn handed_out(victims: Seq<(PageId, Seq<u8>)>, id: PageId) -> bool {
    exists|i: int| 0 <= i < victims.len() && (#[trigger] victims[i]).0 == id
}

/// Whether `id` has been written or brought in, and has not been handed out since.
pub open spec fn is_hot<H>(events: Seq<Event<H>>, id: PageId) -> bool
    decreases events.len(),
{
    if events.len() == 0 {
        false
    } else {
        let before = is_hot(events.drop_last(), id);
        match events.last() {
            Event::Put { id: put, victims, .. } => (before || put == id) && !handed_out(
                victims,
                id,
            ),
            Event::Fetched { id: fetched, victims, .. } => (before || fetched == id)
                && !handed_out(victims, id),
            _ => before,
        }
    }
}

/// Whether a request has been told to lead a fetch of `id` that has not ended since.
pub open spec fn is_open<H>(events: Seq<Event<H>>, id: PageId) -> bool
    decreases events.len(),
{
    if events.len() == 0 {
        false
    } else {
        match events.last() {
            Event::Got { id: got, step: GetStep::Lead(_) } if got == id => true,
            Event::Fetched { id: fetched, .. } if fetched == id => false,
            Event::Failed { id: failed } if failed == id => false,
            _ => is_open(events.drop_last(), id),
        }
    }
}

/// The number of requests, since the counters were set back, that were answered from the
/// hot set.
pub open spec fn count_hits<H>(events: Seq<Event<H>>) -> nat
    decreases events.len(),
{
    if events.len() == 0 {
        0
    } else {
        match events.last() {
            Event::Got { step: GetStep::Hit, .. } => count_hits(events.drop_last()) + 1,
            Event::Reset => 0,
            _ => count_hits(events.drop_last()),
        }
    }
}

/// The number of requests, since the counters were set back, that were told to follow.
pub open spec fn count_follows<H>(events: Seq<Event<H>>) -> nat
    decreases events.len(),
{
    if events.len() == 0 {
        0
    } else {
        match events.last() {
            Event::Got { step: GetStep::Follow(_), .. } => count_follows(events.drop_last()) + 1,
            Event::Reset => 0,
            _ => count_follows(events.drop_last()),
        }
    }
}

/// The number of requests, since the counters were set back, that were told to lead.
pub open spec fn count_fetches<H>(events: Seq<Event<H>>) -> nat
    decreases events.len(),
{
    if events.len() == 0 {
        0
    } else {
        match events.last() {
            Event::Got { step: GetStep::Lead(_), .. } => count_fetches(events.drop_last()) + 1,
            Event::Reset => 0,
            _ => count_fetches(events.drop_last()),
        }
    }
}

/// The number of pages handed out since the counters were set back.
pub open spec fn count_handed_out<H>(events: Seq<Event<H>>) -> nat
    decreases events.len(),
{
    if events.len() == 0 {
        0
    } else {
        match events.last() {
            Event::Put { victims, .. } => count_handed_out(events.drop_last()) + victims.len(),
            Event::Fetched { victims, .. } => count_handed_out(events.drop_last())
                + victims.len(),
            Event::Reset => 0,
            _ => count_handed_out(events.drop_last()),
        }
    }
}

/// `states` is what `events` make of a new cache that keeps at most `capacity` pages hot.
pub open spec fn from_new<H: FlightHandle>(
    capacity: nat,
    states: Seq<CacheView<H>>,
    events: Seq<Event<H>>,
) -> bool {
    &&& 1 <= capacity
    &&& history(states, events)
    &&& states[0] == CacheView::<H>::empty(capacity)
}

/// The shared state is what the events have made of it: which pages are hot, with which
/// bytes and since when unused, which fetches are open, and each counter on its own.
pub proof fn law_the_state_is_what_the_events_made<H: FlightHandle>(
    capacity: nat,
    states: Seq<CacheView<H>>,
    events: Seq<Event<H>>,
)
    requires
        from_new(capacity, states, events),
    ensures
        states.last().capacity == capacity,
        states.last().tick == requests_made(events),
        forall|id: PageId| #[trigger] states.last().hot.contains_key(id) <==> is_hot(events, id),
        forall|id: PageId| #[trigger]
            states.last().hot.contains_key(id) ==> {
                &&& states.last().hot[id].data == last_bytes(events, id)
                &&& states.last().hot[id].last_used == last_use(events, id)
            },
        forall|id: PageId| #[trigger]
            states.last().inflight.contains_key(id) <==> is_open(events, id),
        states.last().hits == count_hits(events),
        states.last().coalesced == count_follows(events),
        states.last().misses == count_fetches(events),
        states.last().evictions == count_handed_out(events),
    decreases events.len(),
{
    if events.len() > 0 {
        lemma_from_new_prefix(capacity, states, events);
        let earlier = events.drop_last();
        let before = states[events.len() - 1];
        let after = states.last();
        law_the_state_is_what_the_events_made(capacity, states.drop_last(), earlier);
        match events.last() {
            Event::Put { id, bytes, victims } => {
                lemma_settled(before.written(id, bytes), victims, after);
            },
            Event::Fetched { id, bytes, victims } => {
                lemma_settled(before.promoted(id, bytes), victims, after);
            },
            _ => {},
        }
        assert forall|id: PageId| #[trigger] after.hot.contains_key(id) <==> is_hot(
            events,
            id,
        ) by {
            assert(before.hot.contains_key(id) <==> is_hot(earlier, id));
        }
        assert forall|id: PageId| #[trigger] after.hot.contains_key(id) implies {
            &&& after.hot[id].data == last_bytes(events, id)
            &&& after.hot[id].last_used == last_use(events, id)
        } by {
            assert(before.hot.contains_key(id) <==> is_hot(earlier, id));
        }
        assert forall|id: PageId| #[trigger] after.inflight.contains_key(id) <==> is_open(
            events,
            id,
        ) by {
            assert(before.inflight.contains_key(id) <==> is_open(earlier, id));
        }
    }
}

proof fn lemma_from_new_prefix<H: FlightHandle>(
    capacity: nat,
    states: Seq<CacheView<H>>,
    events: Seq<Event<H>>,
)
    requires
        from_new(capacity, states, events),
        events.len() > 0,
    ensures
        from_new(capacity, states.drop_last(), events.drop_last()),
        states.drop_last().last() == states[events.len() - 1],
        states[events.len() - 1].next(events.last(), states.last()),
{
    lemma_history_prefix(states, events);
    assert(states.drop_last()[0] == states[0]);
}

/// What remains hot after pages have left.
proof fn lemma_settled<H>(
    entered: CacheView<H>,
    victims: Seq<(PageId, Seq<u8>)>,
    after: CacheView<H>,
)
    requires
        entered.settled(victims, after),
    ensures
        forall|id: PageId| #[trigger]
            after.hot.contains_key(id) <==> entered.hot.contains_key(id) && !handed_out(
                victims,
                id,
            ),
        forall|id: PageId| #[trigger]
            after.hot.contains_key(id) ==> after.hot[id] == entered.hot[id],
        after.inflight == entered.inflight,
        after.evictions == entered.evictions + victims.len(),
{
}

/// How a request for a page is answered: from the hot set where the page is hot; by
/// following where it is not and a fetch of it is open; by leading otherwise.
pub proof fn law_requests_are_answered_by_what_is_there<H: FlightHandle>(
    capacity: nat,
    states: Seq<CacheView<H>>,
    events: Seq<Event<H>>,
    k: int,
)
    requires
        from_new(capacity, states, events),
        0 <= k < events.len(),
    ensures
        events[k] matches Event::Got { id, step } ==> {
            &&& step is Hit <==> is_hot(events.take(k), id)
            &&& step is Follow <==> !is_hot(events.take(k), id) && is_open(events.take(k), id)
            &&& step is Lead <==> !is_hot(events.take(k), id) && !is_open(events.take(k), id)
        },
        events[k] matches Event::Fetched { id, .. } ==> is_open(events.take(k), id),
        events[k] matches Event::Failed { id } ==> is_open(events.take(k), id),
{
    lemma_from_new_take(capacity, states, events, k);
    law_the_state_is_what_the_events_made(capacity, states.take(k + 1), events.take(k));
    let before = states[k];
    assert(states.take(k + 1).last() == before);
    assert(before.next(events[k], states[k + 1]));
    if let Event::Got { id, step } = events[k] {
        assert(before.hot.contains_key(id) <==> is_hot(events.take(k), id));
        assert(before.inflight.contains_key(id) <==> is_open(events.take(k), id));
    }
    if let Event::Fetched { id, .. } = events[k] {
        assert(before.inflight.contains_key(id) <==> is_open(events.take(k), id));
    }
    if let Event::Failed { id } = events[k] {
        assert(before.inflight.contains_key(id) <==> is_open(events.take(k), id));
    }
}

proof fn lemma_from_new_take<H: FlightHandle>(
    capacity: nat,
    states: Seq<CacheView<H>>,
    events: Seq<Event<H>>,
    k: int,
)
    requires
        from_new(capacity, states, events),
        0 <= k <= events.len(),
    ensures
        from_new(capacity, states.take(k + 1), events.take(k)),
{
    let s = states.take(k + 1);
    let e = events.take(k);
    assert forall|i: int| 0 <= i < e.len() implies (#[trigger] s[i]).next(e[i], s[i + 1]) by {
        assert(states[i].next(events[i], states[i + 1]));
    }
}

/// Least recently used, however requests overlap: the pages handed out are hot pages, each
/// once, with their bytes, in order of use, and none of them was used after a page that
/// stays. Pages are handed out only where there are more than fit, and then as few as make
/// the rest fit.
pub proof fn law_pages_used_longest_ago_are_handed_out<H: FlightHandle>(
    capacity: nat,
    states: Seq<CacheView<H>>,
    events: Seq<Event<H>>,
    id: PageId,
    victims: Seq<(PageId, Seq<u8>)>,
)
    requires
        from_new(capacity, states, events),
        events.len() > 0,
        match events.last() {
            Event::Put { id: put, victims: left, .. } => put == id && left == victims,
            Event::Fetched { id: fetched, victims: left, .. } => fetched == id && left == victims,
            _ => false,
        },
    ensures
        forall|i: int|
            0 <= i < victims.len() ==> {
                &&& (#[trigger] victims[i]).0 == id || is_hot(events.drop_last(), victims[i].0)
                &&& victims[i].1 == last_bytes(events, victims[i].0)
            },
        forall|i: int, j: int|
            0 <= i < j < victims.len() ==> {
                &&& (#[trigger] victims[i]).0 != (#[trigger] victims[j]).0
                &&& last_use(events, victims[i].0) <= last_use(events, victims[j].0)
            },
        forall|i: int, x: PageId|
            0 <= i < victims.len() && #[trigger] is_hot(events, x) ==> last_use(
                events,
                (#[trigger] victims[i]).0,
            ) <= last_use(events, x),
        victims.len() <= 1,
        victims.len() == 1 <==> {
            &&& !is_hot(events.drop_last(), id)
            &&& states[events.len() - 1].hot.len() == capacity
        },
        states.last().hot.dom().finite(),
        states.last().hot.len() <= capacity,
{
    let earlier = events.drop_last();
    let before = states[events.len() - 1];
    let after = states.last();
    lemma_from_new_prefix(capacity, states, events);
    law_the_state_is_what_the_events_made(capacity, states.drop_last(), earlier);
    law_the_state_is_what_the_events_made(capacity, states, events);
    law_interleavings_keep_the_bounds(states, events);
    law_interleavings_keep_the_bounds(states.drop_last(), earlier);
    let entered = match events.last() {
        Event::Put { id, bytes, .. } => before.written(id, bytes),
        Event::Fetched { id, bytes, .. } => before.promoted(id, bytes),
        _ => before,
    };
    assert(entered.settled(victims, after));
    assert(before.hot.contains_key(id) <==> is_hot(earlier, id));
    assert(entered.hot.dom() =~= before.hot.dom().insert(id));
    assert forall|x: PageId| #[trigger] entered.hot.contains_key(x) implies {
        &&& entered.hot[x].last_used == last_use(events, x)
        &&& entered.hot[x].data == last_bytes(events, x)
        &&& x == id || is_hot(earlier, x)
    } by {
        assert(before.hot.contains_key(x) <==> is_hot(earlier, x));
    }
    assert forall|i: int, x: PageId|
        0 <= i < victims.len() && #[trigger] is_hot(events, x) implies last_use(
        events,
        (#[trigger] victims[i]).0,
    ) <= last_use(events, x) by {
        assert(after.hot.contains_key(x) <==> is_hot(events, x));
        assert(entered.hot.contains_key(victims[i].0));
    }
    assert forall|i: int, j: int| 0 <= i < j < victims.len() implies {
        &&& (#[trigger] victims[i]).0 != (#[trigger] victims[j]).0
        &&& last_use(events, victims[i].0) <= last_use(events, victims[j].0)
    } by {
        assert(entered.hot.contains_key(victims[i].0));
        assert(entered.hot.contains_key(victims[j].0));
    }
}

/// A page that has just been fetched is hot, however many other fetches are open, wherever
/// some other hot page was last used before the latest request: it is displaced only where
/// every other hot page was used as late. A page that has just been written is hot.
pub proof fn law_pages_that_come_in_stay<H: FlightHandle>(
    capacity: nat,
    states: Seq<CacheView<H>>,
    events: Seq<Event<H>>,
    other: PageId,
)
    requires
        from_new(capacity, states, events),
        events.len() > 0,
    ensures
        events.last() matches Event::Put { id, .. } ==> is_hot(events, id)
            && states.last().hot.contains_key(id),
        events.last() matches Event::Fetched { id, .. } ==> other != id && is_hot(
            events.drop_last(),
            other,
        ) && last_use(events.drop_last(), other) < requests_made(events) ==> is_hot(events, id)
            && states.last().hot.contains_key(id),
        events.last() matches Event::Fetched { id, .. } ==>
            states[events.len() - 1].hot.len() < capacity ==> is_hot(events, id)
            && states.last().hot.contains_key(id),
{
    let earlier = events.drop_last();
    let before = states[events.len() - 1];
    lemma_from_new_prefix(capacity, states, events);
    law_the_state_is_what_the_events_made(capacity, states.drop_last(), earlier);
    law_the_state_is_what_the_events_made(capacity, states, events);
    law_interleavings_keep_the_bounds(states.drop_last(), earlier);
    match events.last() {
        Event::Put { id, victims, .. } => {
            law_pages_used_longest_ago_are_handed_out(capacity, states, events, id, victims);
            assert(states.last().hot.contains_key(id) <==> is_hot(events, id));
            if handed_out(victims, id) {
                assert(victims[0].0 == id);
                assert(before.hot.len() > 0);
                let x = before.hot.dom().choose();
                assert(before.hot.dom().contains(x)) by {
                    assert(before.hot.dom().len() > 0);
                }
                assert(before.hot.contains_key(x));
                lemma_last_use_bound(earlier, x);
                assert(is_hot(events, x));
                assert(false);
            }
        },
        Event::Fetched { id, victims, .. } => {
            law_pages_used_longest_ago_are_handed_out(capacity, states, events, id, victims);
            assert(states.last().hot.contains_key(id) <==> is_hot(events, id));
            if handed_out(victims, id) {
                assert(victims[0].0 == id);
                if other != id && is_hot(earlier, other) {
                    assert(is_hot(events, other));
                }
            }
        },
        _ => {},
    }
}

/// No page was used after the latest request.
proof fn lemma_last_use_bound<H>(events: Seq<Event<H>>, id: PageId)
    ensures
        last_use(events, id) <= requests_made(events),
    decreases events.len(),
{
    if events.len() > 0 {
        lemma_last_use_bound(events.drop_last(), id);
    }
}

/// A list of pages that leave is taken entry by entry: the id, and the bytes by value.
pub proof fn law_pages_are_handed_out_as_they_are(victims: Seq<(PageId, Box<[u8]>)>)
    ensures
        victim_pages(victims).len() == victims.len(),
        forall|i: int|
            0 <= i < victims.len() ==> (#[trigger] victim_pages(victims)[i]) == (
                victims[i].0,
                victims[i].1@,
            ),
{
}

} // verus!
