//! What holds of the cache as a whole, whatever it is asked to do.

use crate::bench::workload_tiers;
use crate::page::{zeroes, PageId};
use crate::tiers::{
    lemma_get, lemma_place, lemma_preloaded, lemma_served, lemma_touched, touched, Tiers,
};
use crate::workload::Pattern;
use vstd::prelude::*;

verus! {

/// What a cache can be asked to do.
pub enum Op {
    Get { id: PageId },
    Put { id: PageId, bytes: Seq<u8> },
    Reset,
}

impl Tiers {
    /// The tiers after one operation.
    pub open spec fn apply(self, op: Op) -> Self {
        match op {
            Op::Get { id } => self.get(id),
            Op::Put { id, bytes } => self.put(id, bytes),
            Op::Reset => self.reset(),
        }
    }

    /// The tiers after a series of operations.
    pub open spec fn run(self, ops: Seq<Op>) -> Self
        decreases ops.len(),
    {
        if ops.len() == 0 {
            self
        } else {
            self.run(ops.drop_last()).apply(ops.last())
        }
    }
}

/// What was last written of each page: `pages`, and over them what `ops` write.
pub open spec fn last_written(pages: Map<PageId, Seq<u8>>, ops: Seq<Op>) -> Map<PageId, Seq<u8>>
    decreases ops.len(),
{
    if ops.len() == 0 {
        pages
    } else {
        let before = last_written(pages, ops.drop_last());
        match ops.last() {
            Op::Put { id, bytes } => before.insert(id, bytes),
            _ => before,
        }
    }
}

/// A read gives back what was last written: after any series of operations, what can
/// be read of each page is the last that was written of it, whichever tier it is in
/// by then. And the hot set is within its capacity.
pub proof fn law_reads_give_back_the_last_write(tiers: Tiers, ops: Seq<Op>)
    requires
        tiers.wf(),
    ensures
        tiers.run(ops).contents() == last_written(tiers.contents(), ops),
        tiers.run(ops).wf(),
        tiers.run(ops).order.len() <= tiers.capacity,
    decreases ops.len(),
{
    if ops.len() > 0 {
        let before = tiers.run(ops.drop_last());
        law_reads_give_back_the_last_write(tiers, ops.drop_last());
        lemma_run_capacity(tiers, ops.drop_last());
        match ops.last() {
            Op::Get { id } => lemma_get(before, id),
            Op::Put { id, bytes } => lemma_place(before, id, bytes),
            Op::Reset => {
                assert(before.reset().contents() == before.contents());
            },
        }
    }
    lemma_run_capacity(tiers, ops);
}

pub proof fn lemma_run_capacity(tiers: Tiers, ops: Seq<Op>)
    ensures
        tiers.run(ops).capacity == tiers.capacity,
    decreases ops.len(),
{
    if ops.len() > 0 {
        lemma_run_capacity(tiers, ops.drop_last());
    }
}

/// A page goes to the backend and comes back unchanged: what is written, displaced by
/// any number of other requests and then asked for is what is read, and the page is
/// hot again.
pub proof fn law_displaced_pages_fault_back(
    tiers: Tiers,
    id: PageId,
    bytes: Seq<u8>,
    requests: Seq<PageId>,
)
    requires
        tiers.wf(),
    ensures
        tiers.put(id, bytes).served(requests).contents().contains_key(id),
        tiers.put(id, bytes).served(requests).contents()[id] == bytes,
        tiers.put(id, bytes).served(requests).get(id).hot.contains_key(id),
        tiers.put(id, bytes).served(requests).get(id).hot[id] == bytes,
{
    let later = tiers.put(id, bytes).served(requests);
    lemma_place(tiers, id, bytes);
    lemma_served(tiers.put(id, bytes), requests);
    lemma_get(later, id);
    assert(later.contents().contains_key(id));
    if later.hot.contains_key(id) {
        assert(later.get(id).hot == later.hot);
    } else {
        assert(later.cold.contains_key(id));
        lemma_place(Tiers { misses: later.misses + 1, ..later }, id, later.cold[id]);
    }
    assert(later.get(id).contents()[id] == bytes);
}

/// Every request is either a hit or a miss.
pub proof fn law_requests_are_hits_or_misses(tiers: Tiers, requests: Seq<PageId>)
    ensures
        tiers.served(requests).hits + tiers.served(requests).misses == tiers.hits + tiers.misses
            + requests.len(),
    decreases requests.len(),
{
    if requests.len() > 0 {
        law_requests_are_hits_or_misses(tiers, requests.drop_last());
    }
}

/// Once the hot set is full, every miss on a page that is stored displaces one page,
/// and nothing else displaces any.
pub proof fn law_full_cache_evicts_once_per_miss(tiers: Tiers, requests: Seq<PageId>)
    requires
        tiers.wf(),
        tiers.order.len() == tiers.capacity,
        forall|i: int|
            0 <= i < requests.len() ==> tiers.contents().contains_key(#[trigger] requests[i]),
    ensures
        tiers.served(requests).order.len() == tiers.capacity,
        tiers.served(requests).evictions - tiers.evictions == tiers.served(requests).misses
            - tiers.misses,
    decreases requests.len(),
{
    if requests.len() > 0 {
        let before = tiers.served(requests.drop_last());
        let id = requests.last();
        law_full_cache_evicts_once_per_miss(tiers, requests.drop_last());
        lemma_served(tiers, requests.drop_last());
        lemma_touched(before.order, id);
        assert(requests[requests.len() - 1] == id);
        assert(before.contents().contains_key(id));
        assert(before.order.contains(id) <==> before.hot.contains_key(id));
    }
}

/// Least recently used: a page stays hot as long as fewer other pages than the
/// capacity have been asked for since it was last used.
pub proof fn law_recently_used_pages_are_hot(tiers: Tiers, id: PageId, requests: Seq<PageId>)
    requires
        tiers.wf(),
        tiers.order.len() > 0,
        tiers.order.last() == id,
        requests.to_set().remove(id).len() < tiers.capacity,
    ensures
        tiers.served(requests).hot.contains_key(id),
{
    lemma_recent(tiers, id, requests);
    let after = tiers.served(requests);
    lemma_served(tiers, requests);
    assert(after.order.contains(id));
}

/// The pages used since `id` are among those that were asked for.
proof fn lemma_recent(tiers: Tiers, id: PageId, requests: Seq<PageId>)
    requires
        tiers.wf(),
        tiers.order.len() > 0,
        tiers.order.last() == id,
        requests.to_set().remove(id).len() < tiers.capacity,
    ensures
        exists|k: int|
            0 <= k < tiers.served(requests).order.len() && tiers.served(requests).order[k] == id
                && forall|i: int|
                k < i < tiers.served(requests).order.len() ==> requests.contains(
                    #[trigger] tiers.served(requests).order[i],
                ),
    decreases requests.len(),
{
    let after = tiers.served(requests);
    if requests.len() == 0 {
        assert(after.order[after.order.len() - 1] == id);
    } else {
        let earlier = requests.drop_last();
        let next = requests.last();
        let before = tiers.served(earlier);
        assert(requests[requests.len() - 1] == next);
        assert forall|x: PageId| earlier.contains(x) implies requests.contains(x) by {
            assert(requests[earlier.index_of(x)] == x);
        }
        assert(earlier.to_set().remove(id).len() <= requests.to_set().remove(id).len()) by {
            vstd::seq_lib::seq_to_set_is_finite(requests);
            vstd::set_lib::lemma_len_subset(
                earlier.to_set().remove(id),
                requests.to_set().remove(id),
            );
        }
        lemma_recent(tiers, id, earlier);
        lemma_served(tiers, earlier);
        lemma_served(tiers, requests);
        lemma_touched(before.order, next);
        let k = choose|k: int|
            0 <= k < before.order.len() && before.order[k] == id && forall|i: int|
                k < i < before.order.len() ==> earlier.contains(#[trigger] before.order[i]);
        let used = touched(before.order, next);
        let p = if before.order.contains(next) {
            before.order.index_of(next)
        } else {
            before.order.len() as int
        };
        let j = if next == id {
            used.len() - 1
        } else if p < k {
            k - 1
        } else {
            k
        };
        assert(used[j] == id);
        assert forall|i: int| j < i < used.len() implies requests.contains(#[trigger] used[i]) by {
            if i < used.len() - 1 {
                assert(used[i] == before.order[if i < p {
                    i
                } else {
                    i + 1
                }]);
            }
        }
        if before.hot.contains_key(next) || !before.cold.contains_key(next) {
            assert(before.order.contains(next) <==> before.hot.contains_key(next));
            if before.hot.contains_key(next) {
                assert(after.order == used);
                assert(after.order[j] == id);
            } else {
                assert(after.order == before.order);
                assert(after.order[k] == id);
            }
        } else if used.len() > tiers.capacity {
            assert(after.order == used.drop_first());
            if j == 0 {
                let others = requests.to_set().remove(id);
                assert(after.order.to_set().subset_of(others)) by {
                    assert forall|x: PageId| after.order.to_set().contains(x) implies
                        others.contains(x) by {
                        let i = after.order.index_of(x);
                        assert(used[i + 1] == x);
                        assert(used[i + 1] != used[0]);
                    }
                }
                vstd::seq_lib::seq_to_set_is_finite(requests);
                vstd::set_lib::lemma_len_subset(after.order.to_set(), others);
                after.order.unique_seq_to_set();
                assert(false);
            }
            assert(after.order[j - 1] == id);
            assert forall|i: int| j - 1 < i < after.order.len() implies requests.contains(
                #[trigger] after.order[i],
            ) by {
                assert(after.order[i] == used[i + 1]);
            }
        } else {
            assert(after.order == used);
            assert(after.order[j] == id);
        }
    }
}

/// What is hot after preloading: the last pages written, in order.
pub proof fn lemma_preloaded_order(capacity: nat, cold: Map<PageId, Seq<u8>>, num_pages: nat)
    requires
        1 <= capacity,
        num_pages <= u64::MAX,
    ensures
        num_pages <= capacity ==> Tiers::over(capacity, cold).preloaded(num_pages).order
            == Seq::new(num_pages, |j: int| j as PageId),
        num_pages > capacity ==> Tiers::over(capacity, cold).preloaded(num_pages).order
            == Seq::new(capacity, |j: int| (num_pages - capacity + j) as PageId),
    decreases num_pages,
{
    let tiers = Tiers::over(capacity, cold).preloaded(num_pages);
    if num_pages == 0 {
        assert(tiers.order =~= Seq::new(num_pages, |j: int| j as PageId));
    } else {
        let rest = (num_pages - 1) as nat;
        let before = Tiers::over(capacity, cold).preloaded(rest);
        lemma_preloaded_order(capacity, cold, rest);
        lemma_preloaded(Tiers::over(capacity, cold), rest);
        assert(!before.order.contains(rest as PageId));
        if num_pages <= capacity {
            assert(tiers.order =~= Seq::new(num_pages, |j: int| j as PageId));
        } else {
            assert(tiers.order =~= Seq::new(
                capacity,
                |j: int| (num_pages - capacity + j) as PageId,
            ));
        }
    }
}

/// Where all pages fit, every request is a hit, and nothing is ever displaced.
pub proof fn law_pages_that_fit_always_hit(
    capacity: nat,
    num_pages: u64,
    requests: Seq<PageId>,
)
    requires
        1 <= capacity,
        num_pages <= capacity,
        forall|i: int| 0 <= i < requests.len() ==> #[trigger] requests[i] < num_pages,
    ensures
        ({
            let after = Tiers::over(capacity, Map::empty()).preloaded(
                num_pages as nat,
            ).reset().served(requests);
            &&& after.hits == requests.len()
            &&& after.misses == 0
            &&& after.evictions == 0
        }),
{
    let loaded = Tiers::over(capacity, Map::empty()).preloaded(num_pages as nat);
    lemma_preloaded_order(capacity, Map::empty(), num_pages as nat);
    lemma_preloaded(Tiers::over(capacity, Map::empty()), num_pages as nat);
    assert forall|id: PageId| id < num_pages implies #[trigger] loaded.hot.contains_key(id) by {
        assert(loaded.order[id as int] == id);
        assert(loaded.order.contains(id));
    }
    lemma_hot_stays(loaded.reset(), requests);
}

/// Asking for hot pages only leaves the hot set as it is.
proof fn lemma_hot_stays(tiers: Tiers, requests: Seq<PageId>)
    requires
        forall|i: int|
            0 <= i < requests.len() ==> tiers.hot.contains_key(#[trigger] requests[i]),
    ensures
        tiers.served(requests).hot == tiers.hot,
        tiers.served(requests).hits == tiers.hits + requests.len(),
        tiers.served(requests).misses == tiers.misses,
        tiers.served(requests).evictions == tiers.evictions,
    decreases requests.len(),
{
    if requests.len() > 0 {
        lemma_hot_stays(tiers, requests.drop_last());
        assert(requests[requests.len() - 1] == requests.last());
    }
}

/// Whether two caches have the same hot set, used in the same order, and the same
/// counters, whatever bytes they hold.
pub open spec fn same_numbers(a: Tiers, b: Tiers) -> bool {
    &&& a.capacity == b.capacity
    &&& a.order == b.order
    &&& a.hits == b.hits
    &&& a.misses == b.misses
    &&& a.coalesced == b.coalesced
    &&& a.evictions == b.evictions
}

/// The numbers of a run are those of the tiering alone: a run over one backend and the
/// same run over another, whatever the two store beforehand, give the same counters.
pub proof fn law_numbers_do_not_depend_on_the_backend(
    capacity: nat,
    one: Map<PageId, Seq<u8>>,
    other: Map<PageId, Seq<u8>>,
    num_pages: u64,
    requests: Seq<PageId>,
)
    requires
        1 <= capacity,
        forall|i: int| 0 <= i < requests.len() ==> #[trigger] requests[i] < num_pages,
    ensures
        same_numbers(
            Tiers::over(capacity, one).preloaded(num_pages as nat).reset().served(requests),
            Tiers::over(capacity, other).preloaded(num_pages as nat).reset().served(requests),
        ),
{
    let a = Tiers::over(capacity, one);
    let b = Tiers::over(capacity, other);
    lemma_same_preloaded(a, b, num_pages as nat);
    lemma_preloaded(a, num_pages as nat);
    lemma_preloaded(b, num_pages as nat);
    let loaded_a = a.preloaded(num_pages as nat);
    let loaded_b = b.preloaded(num_pages as nat);
    assert(loaded_a.reset().contents() == loaded_a.contents());
    assert(loaded_b.reset().contents() == loaded_b.contents());
    lemma_same_served(loaded_a.reset(), loaded_b.reset(), requests);
}

proof fn lemma_same_preloaded(a: Tiers, b: Tiers, num_pages: nat)
    requires
        same_numbers(a, b),
    ensures
        same_numbers(a.preloaded(num_pages), b.preloaded(num_pages)),
    decreases num_pages,
{
    if num_pages > 0 {
        lemma_same_preloaded(a, b, (num_pages - 1) as nat);
    }
}

proof fn lemma_same_served(a: Tiers, b: Tiers, requests: Seq<PageId>)
    requires
        a.wf(),
        b.wf(),
        same_numbers(a, b),
        forall|i: int|
            0 <= i < requests.len() ==> a.contents().contains_key(#[trigger] requests[i])
                && b.contents().contains_key(requests[i]),
    ensures
        same_numbers(a.served(requests), b.served(requests)),
    decreases requests.len(),
{
    if requests.len() > 0 {
        let earlier = requests.drop_last();
        let id = requests.last();
        assert(requests[requests.len() - 1] == id);
        lemma_same_served(a, b, earlier);
        lemma_served(a, earlier);
        lemma_served(b, earlier);
        assert(a.served(earlier).order.contains(id) <==> a.served(earlier).hot.contains_key(id));
        assert(b.served(earlier).order.contains(id) <==> b.served(earlier).hot.contains_key(id));
    }
}

/// The pages in `order` after those that do not fit have left.
pub open spec fn trimmed(order: Seq<PageId>, capacity: nat) -> Seq<PageId> {
    if order.len() > capacity {
        order.drop_first()
    } else {
        order
    }
}

/// The smaller hot set holds the pages of the larger one that were used last, and is full
/// wherever it does not hold all of them.
spec fn included(small: Tiers, large: Tiers) -> bool {
    &&& small.wf()
    &&& large.wf()
    &&& small.capacity <= large.capacity
    &&& small.order.len() <= large.order.len()
    &&& small.order == large.order.skip(large.order.len() - small.order.len())
    &&& small.order.len() == large.order.len() || small.order.len() == small.capacity
    &&& small.contents().dom() == large.contents().dom()
}

/// Using a page keeps the one order the end of the other.
pub proof fn lemma_included_touched(
    small: Seq<PageId>,
    large: Seq<PageId>,
    c1: nat,
    c2: nat,
    id: PageId,
)
    requires
        1 <= c1 <= c2,
        small.no_duplicates(),
        large.no_duplicates(),
        small.len() <= c1,
        large.len() <= c2,
        small.len() <= large.len(),
        small == large.skip(large.len() - small.len()),
        small.len() == large.len() || small.len() == c1,
    ensures
        small.contains(id) ==> large.contains(id),
        ({
            let s = trimmed(touched(small, id), c1);
            let l = trimmed(touched(large, id), c2);
            &&& s.len() <= l.len()
            &&& s == l.skip(l.len() - s.len())
            &&& s.len() == l.len() || s.len() == c1
        }),
{
    let gap = large.len() - small.len();
    if small.contains(id) {
        let i = small.index_of(id);
        assert(large[gap + i] == id);
        assert(large.contains(id));
        let k = large.index_of(id);
        assert(k == gap + i);
    }
    lemma_touched(small, id);
    lemma_touched(large, id);
    let s = trimmed(touched(small, id), c1);
    let l = trimmed(touched(large, id), c2);
    if large.contains(id) && !small.contains(id) {
        let k = large.index_of(id);
        assert(k < gap) by {
            if k >= gap {
                assert(small[k - gap] == id);
            }
        }
    }
    assert(s =~= l.skip(l.len() - s.len()));
}

/// Writing a page keeps the smaller hot set within the larger one.
proof fn lemma_included_place(small: Tiers, large: Tiers, id: PageId, b1: Seq<u8>, b2: Seq<u8>)
    requires
        included(small, large),
    ensures
        included(small.place(id, b1), large.place(id, b2)),
        large.place(id, b2).evictions - large.evictions <= small.place(id, b1).evictions
            - small.evictions,
{
    lemma_place(small, id, b1);
    lemma_place(large, id, b2);
    lemma_touched(small.order, id);
    lemma_touched(large.order, id);
    lemma_included_touched(small.order, large.order, small.capacity, large.capacity, id);
    assert(small.place(id, b1).contents().dom() =~= large.place(id, b2).contents().dom());
}

/// Asking for a page, too; and what the smaller hot set has, the larger one has.
proof fn lemma_included_get(small: Tiers, large: Tiers, id: PageId)
    requires
        included(small, large),
    ensures
        included(small.get(id), large.get(id)),
        small.get(id).hits - small.hits <= large.get(id).hits - large.hits,
        large.get(id).misses - large.misses <= small.get(id).misses - small.misses,
        large.get(id).evictions - large.evictions <= small.get(id).evictions - small.evictions,
{
    lemma_get(small, id);
    lemma_get(large, id);
    lemma_touched(small.order, id);
    lemma_touched(large.order, id);
    lemma_included_touched(small.order, large.order, small.capacity, large.capacity, id);
    assert(small.order.contains(id) <==> small.hot.contains_key(id));
    assert(large.order.contains(id) <==> large.hot.contains_key(id));
    assert(small.contents().contains_key(id) <==> large.contents().contains_key(id));
}

proof fn lemma_included_preloaded(small: Tiers, large: Tiers, num_pages: nat)
    requires
        included(small, large),
    ensures
        included(small.preloaded(num_pages), large.preloaded(num_pages)),
    decreases num_pages,
{
    if num_pages > 0 {
        let rest = (num_pages - 1) as nat;
        lemma_included_preloaded(small, large, rest);
        lemma_included_place(
            small.preloaded(rest),
            large.preloaded(rest),
            rest as PageId,
            zeroes(),
            zeroes(),
        );
    }
}

/// Serving the same requests from a larger hot set gives no fewer hits, and no more misses
/// or evictions.
proof fn lemma_included_served(small: Tiers, large: Tiers, requests: Seq<PageId>)
    requires
        included(small, large),
    ensures
        included(small.served(requests), large.served(requests)),
        small.served(requests).hits - small.hits <= large.served(requests).hits - large.hits,
        large.served(requests).misses - large.misses <= small.served(requests).misses
            - small.misses,
        large.served(requests).evictions - large.evictions <= small.served(requests).evictions
            - small.evictions,
    decreases requests.len(),
{
    if requests.len() > 0 {
        let earlier = requests.drop_last();
        lemma_included_served(small, large, earlier);
        lemma_included_get(small.served(earlier), large.served(earlier), requests.last());
    }
}

/// A larger hot set never loses a hit: the same run with more capacity has at least as many
/// hits, and at most as many misses and evictions.
pub proof fn law_larger_hot_sets_never_lose_a_hit(
    pattern: Pattern,
    num_pages: u64,
    c1: nat,
    c2: nat,
    num_requests: nat,
    seed: u64,
)
    requires
        1 <= c1 <= c2,
    ensures
        ({
            let small = workload_tiers(pattern, num_pages, c1, num_requests, seed);
            let large = workload_tiers(pattern, num_pages, c2, num_requests, seed);
            &&& small.hits <= large.hits
            &&& small.misses >= large.misses
            &&& small.evictions >= large.evictions
        }),
{
    let small = Tiers::over(c1, Map::empty());
    let large = Tiers::over(c2, Map::empty());
    assert(small.contents().dom() =~= large.contents().dom());
    assert(small.order =~= large.order.skip(0));
    lemma_included_preloaded(small, large, num_pages as nat);
    let loaded_small = small.preloaded(num_pages as nat).reset();
    let loaded_large = large.preloaded(num_pages as nat).reset();
    assert(loaded_small.contents() == small.preloaded(num_pages as nat).contents());
    assert(loaded_large.contents() == large.preloaded(num_pages as nat).contents());
    lemma_included_served(
        loaded_small,
        loaded_large,
        pattern.requests(num_pages, num_requests, seed),
    );
}

/// A sequential run over more pages than fit never comes back to a page before it has
/// been displaced: no request is a hit, and every one displaces a page.
pub proof fn law_sequential_runs_never_hit(
    num_pages: u64,
    capacity: nat,
    num_requests: nat,
    seed: u64,
)
    requires
        1 <= capacity < num_pages,
    ensures
        ({
            let after = workload_tiers(
                Pattern::Sequential,
                num_pages,
                capacity,
                num_requests,
                seed,
            );
            &&& after.hits == 0
            &&& after.misses == num_requests
            &&& after.evictions == num_requests
        }),
{
    lemma_sequential(num_pages, capacity, num_requests, seed);
}

/// The hot set of a sequential run is always the last pages asked for.
proof fn lemma_sequential(num_pages: u64, capacity: nat, num_requests: nat, seed: u64)
    requires
        1 <= capacity < num_pages,
    ensures
        ({
            let after = workload_tiers(
                Pattern::Sequential,
                num_pages,
                capacity,
                num_requests,
                seed,
            );
            &&& after.hits == 0
            &&& after.misses == num_requests
            &&& after.evictions == num_requests
            &&& after.order == Seq::new(
                capacity,
                |j: int| ((num_pages + num_requests - capacity + j) % (num_pages as int)) as PageId,
            )
        }),
    decreases num_requests,
{
    let n = num_pages as int;
    let start = Tiers::over(capacity, Map::empty()).preloaded(num_pages as nat).reset();
    let requests = Pattern::Sequential.requests(num_pages, num_requests, seed);
    let after = start.served(requests);
    lemma_preloaded(Tiers::over(capacity, Map::empty()), num_pages as nat);
    if num_requests == 0 {
        lemma_preloaded_order(capacity, Map::empty(), num_pages as nat);
        let window = Seq::new(
            capacity,
            |j: int| ((num_pages + num_requests - capacity + j) % (num_pages as int)) as PageId,
        );
        assert forall|j: int| 0 <= j < capacity implies after.order[j] == #[trigger] window[j] by {
            vstd::arithmetic::div_mod::lemma_small_mod((n - capacity + j) as nat, n as nat);
        }
        assert(after.order =~= window);
    } else {
        let m = (num_requests - 1) as nat;
        let earlier = Pattern::Sequential.requests(num_pages, m, seed);
        let before = start.served(earlier);
        lemma_sequential(num_pages, capacity, m, seed);
        lemma_served(start, earlier);
        assert(requests.drop_last() =~= earlier);
        let id = (m as int % n) as PageId;
        assert(requests.last() == id);
        let loaded = Tiers::over(capacity, Map::empty()).preloaded(num_pages as nat);
        assert(start.contents() == loaded.contents());
        assert(loaded.contents().contains_key(id));
        assert(!before.order.contains(id)) by {
            assert forall|j: int| 0 <= j < capacity implies before.order[j] != id by {
                lemma_window(n, m as int, capacity as int, j);
            }
        }
        assert(!before.hot.contains_key(id));
        lemma_touched(before.order, id);
        vstd::arithmetic::div_mod::lemma_mod_add_multiples_vanish(m as int, n);
        assert(after.order =~= Seq::new(
            capacity,
            |j: int| ((num_pages + num_requests - capacity + j) % (num_pages as int)) as PageId,
        ));
    }
}

/// The pages asked for in the last `capacity` steps of a sequential run are not the
/// one asked for next.
proof fn lemma_window(n: int, m: int, capacity: int, j: int)
    requires
        0 <= m,
        0 <= j < capacity < n,
    ensures
        (n + m - capacity + j) % n != m % n,
{
    let gap = capacity - j;
    assert(0 < gap < n);
    vstd::arithmetic::div_mod::lemma_fundamental_div_mod(m, n);
    vstd::arithmetic::div_mod::lemma_fundamental_div_mod(n + m - gap, n);
    let q = m / n;
    let r = m % n;
    let q2 = (n + m - gap) / n;
    if (n + m - gap) % n == r {
        assert(n * q2 == n * q + n - gap);
        assert(n * (q2 - q) == n - gap) by (nonlinear_arith)
            requires
                n * q2 == n * q + n - gap,
        ;
        assert(false) by (nonlinear_arith)
            requires
                n * (q2 - q) == n - gap,
                0 < gap < n,
        ;
    }
}

} // verus!
