//! Which requests hit: what a cache that serves one request at a time keeps hot, stated
//! over the requests alone.

use crate::backend::Backend;
use crate::bench::{refused, unrecorded, workload_tiers};
use crate::laws::{
    last_written, law_reads_give_back_the_last_write, law_requests_are_hits_or_misses,
    lemma_included_touched, lemma_run_capacity, trimmed, Op,
};
use crate::page::{zeroes, PageId};
use crate::tiers::{
    lemma_get, lemma_place, lemma_preloaded, lemma_served, lemma_touched, touched, Tiers,
};
use crate::workload::Pattern;
use vstd::prelude::*;

verus! {

/// Whether `id` is among the `capacity` distinct pages used last: since some use of it,
/// fewer pages than that have been used.
pub open spec fn recent(uses: Seq<PageId>, id: PageId, capacity: nat) -> bool {
    exists|i: int|
        0 <= i < uses.len() && #[trigger] uses[i] == id && uses.skip(i + 1).to_set().len()
            < capacity
}

/// The pages that operations use, in order. Asking for a page that was never written, and
/// that the backend did not store at the start either, uses none.
pub open spec fn uses(pages: Map<PageId, Seq<u8>>, ops: Seq<Op>) -> Seq<PageId>
    decreases ops.len(),
{
    if ops.len() == 0 {
        Seq::empty()
    } else {
        let earlier = ops.drop_last();
        match ops.last() {
            Op::Put { id, .. } => uses(pages, earlier).push(id),
            Op::Get { id } => if last_written(pages, earlier).contains_key(id) {
                uses(pages, earlier).push(id)
            } else {
                uses(pages, earlier)
            },
            Op::Reset => uses(pages, earlier),
        }
    }
}

/// The number of requests, since the counters were set back, for one of the `capacity`
/// distinct pages used last.
pub open spec fn count_hits(pages: Map<PageId, Seq<u8>>, ops: Seq<Op>, capacity: nat) -> nat
    decreases ops.len(),
{
    if ops.len() == 0 {
        0
    } else {
        let earlier = ops.drop_last();
        match ops.last() {
            Op::Get { id } if recent(uses(pages, earlier), id, capacity) => count_hits(
                pages,
                earlier,
                capacity,
            ) + 1,
            Op::Reset => 0,
            _ => count_hits(pages, earlier, capacity),
        }
    }
}

/// The number of requests, since the counters were set back, for any other page.
pub open spec fn count_misses(pages: Map<PageId, Seq<u8>>, ops: Seq<Op>, capacity: nat) -> nat
    decreases ops.len(),
{
    if ops.len() == 0 {
        0
    } else {
        let earlier = ops.drop_last();
        match ops.last() {
            Op::Get { id } if !recent(uses(pages, earlier), id, capacity) => count_misses(
                pages,
                earlier,
                capacity,
            ) + 1,
            Op::Reset => 0,
            _ => count_misses(pages, earlier, capacity),
        }
    }
}

/// The number of uses, since the counters were set back, of a page that was not among the
/// `capacity` distinct pages used last, where as many had been used.
pub open spec fn count_evictions(pages: Map<PageId, Seq<u8>>, ops: Seq<Op>, capacity: nat) -> nat
    decreases ops.len(),
{
    if ops.len() == 0 {
        0
    } else {
        let earlier = ops.drop_last();
        let before = uses(pages, earlier);
        if ops.last() is Reset {
            0
        } else if uses(pages, ops).len() > before.len() && !recent(
            before,
            uses(pages, ops).last(),
            capacity,
        ) && before.to_set().len() >= capacity {
            count_evictions(pages, earlier, capacity) + 1
        } else {
            count_evictions(pages, earlier, capacity)
        }
    }
}

/// All pages that were used, the one used longest ago first.
spec fn stack(uses: Seq<PageId>) -> Seq<PageId>
    decreases uses.len(),
{
    if uses.len() == 0 {
        Seq::empty()
    } else {
        touched(stack(uses.drop_last()), uses.last())
    }
}

/// The last `capacity` pages of `order`.
spec fn window(order: Seq<PageId>, capacity: nat) -> Seq<PageId> {
    if order.len() > capacity {
        order.skip(order.len() - capacity)
    } else {
        order
    }
}

proof fn lemma_stack(uses: Seq<PageId>)
    ensures
        stack(uses).no_duplicates(),
        forall|id: PageId| #[trigger] stack(uses).contains(id) <==> uses.contains(id),
        stack(uses).len() == uses.to_set().len(),
    decreases uses.len(),
{
    if uses.len() > 0 {
        let earlier = uses.drop_last();
        lemma_stack(earlier);
        lemma_touched(stack(earlier), uses.last());
        assert forall|id: PageId| #[trigger] stack(uses).contains(id) <==> uses.contains(id) by {
            if uses.contains(id) && id != uses.last() {
                assert(earlier[uses.index_of(id)] == id);
            }
            if earlier.contains(id) {
                assert(uses[earlier.index_of(id)] == id);
            }
            assert(uses[uses.len() - 1] == uses.last());
        }
    }
    stack(uses).unique_seq_to_set();
    assert(stack(uses).to_set() =~= uses.to_set());
}

/// The last use of the page at `j`: the pages used after it are those that stand behind it.
proof fn lemma_last_use(uses: Seq<PageId>, j: int) -> (i: int)
    requires
        0 <= j < stack(uses).len(),
    ensures
        0 <= i < uses.len(),
        uses[i] == stack(uses)[j],
        uses.skip(i + 1).to_set() == stack(uses).skip(j + 1).to_set(),
    decreases uses.len(),
{
    let all = stack(uses);
    if uses.len() == 0 {
        0
    } else {
        let earlier = uses.drop_last();
        let last = uses.last();
        let before = stack(earlier);
        lemma_stack(earlier);
        lemma_stack(uses);
        lemma_touched(before, last);
        if j == all.len() - 1 {
            let i = uses.len() - 1;
            assert(uses.skip(i + 1) =~= Seq::empty());
            assert(all.skip(j + 1) =~= Seq::empty());
            i
        } else {
            let p = if before.contains(last) {
                before.index_of(last)
            } else {
                before.len() as int
            };
            let jj = if j < p {
                j
            } else {
                j + 1
            };
            assert(all[j] == before[jj]);
            let i = lemma_last_use(earlier, jj);
            assert(uses[i] == earlier[i]);
            let after = uses.skip(i + 1);
            let was = earlier.skip(i + 1);
            let behind = all.skip(j + 1);
            let stood = before.skip(jj + 1);
            assert(after =~= was.push(last));
            assert forall|x: PageId| after.to_set().contains(x) <==> behind.to_set().contains(
                x,
            ) by {
                assert(was.to_set().contains(x) <==> stood.to_set().contains(x));
                assert(after[after.len() - 1] == last);
                assert(behind[behind.len() - 1] == last);
                if after.contains(x) && x != last {
                    assert(was[after.index_of(x)] == x);
                    let s = stood.index_of(x);
                    assert(stood.contains(x));
                    let b = jj + 1 + s;
                    assert(before[b] == x);
                    let a = if b < p {
                        b
                    } else {
                        b - 1
                    };
                    assert(all[a] == x);
                    assert(behind[a - j - 1] == x);
                }
                if behind.contains(x) && x != last {
                    let a = behind.index_of(x) + j + 1;
                    assert(all[a] == x);
                    let b = if a < p {
                        a
                    } else {
                        a + 1
                    };
                    assert(before[b] == x);
                    assert(stood[b - jj - 1] == x);
                    assert(was.contains(x));
                    assert(after[was.index_of(x)] == x);
                }
            }
            assert(after.to_set() =~= behind.to_set());
            i
        }
    }
}

/// The pages used last are the last ones in order.
proof fn lemma_recent_window(uses: Seq<PageId>, id: PageId, capacity: nat)
    ensures
        recent(uses, id, capacity) <==> window(stack(uses), capacity).contains(id),
{
    let all = stack(uses);
    let kept = window(all, capacity);
    let gap = all.len() - kept.len();
    lemma_stack(uses);
    if kept.contains(id) {
        let j = kept.index_of(id) + gap;
        assert(all[j] == id);
        let i = lemma_last_use(uses, j);
        lemma_behind(all, j);
        assert(uses[i] == id);
    }
    if recent(uses, id, capacity) {
        let first = choose|i: int|
            0 <= i < uses.len() && #[trigger] uses[i] == id && uses.skip(i + 1).to_set().len()
                < capacity;
        assert(uses.contains(id));
        assert(all.contains(id));
        let j = all.index_of(id);
        assert(all[j] == id);
        let i = lemma_last_use(uses, j);
        lemma_behind(all, j);
        if first > i {
            assert(uses.skip(i + 1)[first - i - 1] == id);
            assert(uses.skip(i + 1).contains(id));
            assert(uses.skip(i + 1).to_set().contains(id));
            assert(all.skip(j + 1).to_set().contains(id));
            assert(all.skip(j + 1).contains(id));
            let k = all.skip(j + 1).index_of(id);
            assert(all[j + 1 + k] == id);
            assert(false);
        }
        let later = uses.skip(first + 1);
        assert(uses.skip(i + 1).to_set().subset_of(later.to_set())) by {
            assert forall|x: PageId| uses.skip(i + 1).to_set().contains(x) implies
                later.to_set().contains(x) by {
                let k = uses.skip(i + 1).index_of(x);
                assert(later[k + i - first] == x);
            }
        }
        vstd::seq_lib::seq_to_set_is_finite(later);
        vstd::set_lib::lemma_len_subset(uses.skip(i + 1).to_set(), later.to_set());
        assert(j >= gap);
        assert(kept[j - gap] == id);
    }
}

proof fn lemma_behind(all: Seq<PageId>, j: int)
    requires
        all.no_duplicates(),
        0 <= j < all.len(),
    ensures
        all.skip(j + 1).to_set().len() == all.len() - j - 1,
{
    let behind = all.skip(j + 1);
    assert(behind.no_duplicates());
    behind.unique_seq_to_set();
}

/// Using one more page moves the window on.
proof fn lemma_window_used(uses: Seq<PageId>, id: PageId, capacity: nat)
    requires
        1 <= capacity,
    ensures
        trimmed(touched(window(stack(uses), capacity), id), capacity) == window(
            stack(uses.push(id)),
            capacity,
        ),
        window(stack(uses), capacity).no_duplicates(),
        window(stack(uses), capacity).len() <= capacity,
        window(stack(uses), capacity).len() == capacity <==> uses.to_set().len() >= capacity,
{
    let large = stack(uses);
    let small = window(large, capacity);
    lemma_stack(uses);
    assert(uses.push(id).drop_last() =~= uses);
    assert(small.no_duplicates()) by {
        let gap = large.len() - small.len();
        assert forall|i: int, j: int|
            0 <= i < small.len() && 0 <= j < small.len() && i != j implies small[i]
            != small[j] by {
            assert(small[i] == large[i + gap] && small[j] == large[j + gap]);
        }
    }
    assert(small =~= large.skip(large.len() - small.len()));
    let room = large.len() + capacity + 1;
    lemma_included_touched(small, large, capacity, room, id);
    lemma_touched(large, id);
    lemma_touched(small, id);
    let s = trimmed(touched(small, id), capacity);
    let l = touched(large, id);
    assert(s =~= window(l, capacity));
}

/// After any series of operations, each seen from its inputs alone: the hot pages are the
/// `capacity` distinct pages used last; a request is a hit where its page is one of them
/// and a miss otherwise; a page is displaced wherever another one is used while that many
/// are hot; and what is read is what was last written.
pub proof fn law_operations_keep_the_pages_used_last_hot(
    capacity: nat,
    pages: Map<PageId, Seq<u8>>,
    ops: Seq<Op>,
)
    requires
        1 <= capacity,
    ensures
        ({
            let after = Tiers::over(capacity, pages).run(ops);
            &&& after.capacity == capacity
            &&& forall|id: PageId| #[trigger]
                after.hot.contains_key(id) <==> recent(uses(pages, ops), id, capacity)
            &&& after.hits == count_hits(pages, ops, capacity)
            &&& after.misses == count_misses(pages, ops, capacity)
            &&& after.evictions == count_evictions(pages, ops, capacity)
            &&& after.coalesced == 0
            &&& after.contents() == last_written(pages, ops)
        }),
{
    lemma_run_window(capacity, pages, ops);
    let after = Tiers::over(capacity, pages).run(ops);
    assert forall|id: PageId| #[trigger] after.hot.contains_key(id) <==> recent(
        uses(pages, ops),
        id,
        capacity,
    ) by {
        lemma_recent_window(uses(pages, ops), id, capacity);
        assert(after.order.contains(id) <==> after.hot.contains_key(id));
    }
}

proof fn lemma_run_window(capacity: nat, pages: Map<PageId, Seq<u8>>, ops: Seq<Op>)
    requires
        1 <= capacity,
    ensures
        ({
            let after = Tiers::over(capacity, pages).run(ops);
            &&& after.wf()
            &&& after.capacity == capacity
            &&& after.order == window(stack(uses(pages, ops)), capacity)
            &&& after.hits == count_hits(pages, ops, capacity)
            &&& after.misses == count_misses(pages, ops, capacity)
            &&& after.evictions == count_evictions(pages, ops, capacity)
            &&& after.coalesced == 0
            &&& after.contents() == last_written(pages, ops)
        }),
    decreases ops.len(),
{
    let start = Tiers::over(capacity, pages);
    assert(start.contents() =~= pages);
    law_reads_give_back_the_last_write(start, ops);
    lemma_run_capacity(start, ops);
    let after = start.run(ops);
    if ops.len() == 0 {
        assert(after.order =~= window(stack(uses(pages, ops)), capacity));
    } else {
        let earlier = ops.drop_last();
        let before = start.run(earlier);
        let used = uses(pages, earlier);
        lemma_run_window(capacity, pages, earlier);
        let id = match ops.last() {
            Op::Get { id } => id,
            Op::Put { id, .. } => id,
            Op::Reset => 0,
        };
        lemma_window_used(used, id, capacity);
        lemma_recent_window(used, id, capacity);
        lemma_touched(before.order, id);
        assert(before.order.contains(id) <==> before.hot.contains_key(id));
        assert(before.contents().contains_key(id) <==> last_written(pages, earlier).contains_key(
            id,
        ));
    }
}

/// A page that comes in displaces one only where it is new and the hot set is full: the one
/// used longest ago, which the backend then stores with its bytes. Nothing else changes, in
/// either tier.
pub proof fn law_displaced_pages_are_stored(tiers: Tiers, id: PageId, bytes: Seq<u8>)
    requires
        tiers.wf(),
    ensures
        ({
            let after = tiers.put(id, bytes);
            &&& after.capacity == tiers.capacity
            &&& (after.hits, after.misses, after.coalesced) == (
                tiers.hits,
                tiers.misses,
                tiers.coalesced,
            )
            &&& after.order.last() == id
            &&& match tiers.displaced(id) {
                Some(victim) => {
                    &&& !tiers.hot.contains_key(id)
                    &&& tiers.order.len() == tiers.capacity
                    &&& victim == tiers.order[0]
                    &&& tiers.hot.contains_key(victim)
                    &&& after.order == tiers.order.skip(1).push(id)
                    &&& after.hot == tiers.hot.insert(id, bytes).remove(victim)
                    &&& after.cold == tiers.cold.insert(victim, tiers.hot[victim])
                    &&& after.evictions == tiers.evictions + 1
                },
                None => {
                    &&& tiers.hot.contains_key(id) || tiers.order.len() < tiers.capacity
                    &&& after.hot == tiers.hot.insert(id, bytes)
                    &&& after.cold == tiers.cold
                    &&& after.evictions == tiers.evictions
                },
            }
        }),
{
    lemma_touched(tiers.order, id);
    lemma_place(tiers, id, bytes);
    assert(tiers.order.contains(id) <==> tiers.hot.contains_key(id));
    if tiers.displaced(id) is Some {
        assert(tiers.order.contains(tiers.order[0]));
        assert(tiers.put(id, bytes).order =~= tiers.order.skip(1).push(id));
    }
}

/// Asking for a hot page changes neither tier; asking for a page that only the backend has
/// brings it in as a write of the same bytes would; asking for any other page changes
/// nothing. The first is counted as a hit, the others as misses.
pub proof fn law_requests_bring_pages_in(tiers: Tiers, id: PageId)
    requires
        tiers.wf(),
    ensures
        ({
            let after = tiers.get(id);
            let hot = tiers.hot.contains_key(id);
            &&& after.hits == tiers.hits + (if hot {
                1nat
            } else {
                0
            })
            &&& after.misses == tiers.misses + (if hot {
                0nat
            } else {
                1
            })
            &&& after.coalesced == tiers.coalesced
            &&& after.capacity == tiers.capacity
            &&& hot ==> {
                &&& after.hot == tiers.hot
                &&& after.cold == tiers.cold
                &&& after.evictions == tiers.evictions
                &&& after.order.last() == id
            }
            &&& !hot && tiers.cold.contains_key(id) ==> {
                let written = tiers.put(id, tiers.cold[id]);
                &&& after.order == written.order
                &&& after.hot == written.hot
                &&& after.cold == written.cold
                &&& after.evictions == written.evictions
            }
            &&& !hot && !tiers.cold.contains_key(id) ==> {
                &&& after.order == tiers.order
                &&& after.hot == tiers.hot
                &&& after.cold == tiers.cold
                &&& after.evictions == tiers.evictions
            }
        }),
{
    lemma_touched(tiers.order, id);
}

/// A page that cannot be stored is the only one that is lost: all else, the hot set, its
/// order and the counters, is as if it had been stored.
pub proof fn law_failed_write_backs_lose_one_page(after: Tiers, planned: Tiers, lost: PageId)
    requires
        after.same_but_cold(planned, Some(lost)),
    ensures
        after.capacity == planned.capacity,
        after.order == planned.order,
        after.hot == planned.hot,
        (after.hits, after.misses, after.coalesced, after.evictions) == (
            planned.hits,
            planned.misses,
            planned.coalesced,
            planned.evictions,
        ),
        forall|id: PageId|
            id != lost ==> {
                &&& #[trigger] after.cold.contains_key(id) == planned.cold.contains_key(id)
                &&& after.cold.contains_key(id) ==> after.cold[id] == planned.cold[id]
            },
{
    let (a, p) = (after.cold.remove(lost), planned.cold.remove(lost));
    assert forall|id: PageId| id != lost implies {
        &&& #[trigger] after.cold.contains_key(id) == planned.cold.contains_key(id)
        &&& after.cold.contains_key(id) ==> after.cold[id] == planned.cold[id]
    } by {
        assert(a.contains_key(id) == after.cold.contains_key(id));
        assert(p.contains_key(id) == planned.cold.contains_key(id));
        assert(a.contains_key(id) ==> a[id] == after.cold[id]);
        assert(p.contains_key(id) ==> p[id] == planned.cold[id]);
    }
}

/// A run that breaks off at request `k` has served the requests before it and made no other
/// after it. Where the backend failed the request it is a miss, and it has changed nothing
/// that can be read but for the page that it displaced.
pub proof fn law_runs_break_off_at_one_request<B: Backend>(
    before: Tiers,
    requests: Seq<PageId>,
    k: int,
    after: Tiers,
    error: B::Error,
)
    requires
        before.wf(),
        0 <= k < requests.len(),
    ensures
        unrecorded(before, requests, k, after) ==> {
            &&& after.hits + after.misses == before.hits + before.misses + k + 1
            &&& after == before.run(Seq::new((k + 1) as nat, |i: int| Op::Get { id: requests[i] }))
        },
        refused::<B>(before, requests, k, after, error) ==> {
            let reached = before.run(Seq::new(k as nat, |i: int| Op::Get { id: requests[i] }));
            &&& after.hits == reached.hits
            &&& after.misses == reached.misses + 1
            &&& after.hits + after.misses == before.hits + before.misses + k + 1
            &&& after.capacity == reached.capacity
            &&& forall|id: PageId|
                reached.displaced(requests[k]) != Some(id) ==> {
                    &&& #[trigger] after.contents().contains_key(id)
                        == reached.contents().contains_key(id)
                    &&& after.contents().contains_key(id) ==> after.contents()[id]
                        == reached.contents()[id]
                }
        },
{
    let served = requests.take(k);
    let all = requests.take(k + 1);
    lemma_served_run(before, served);
    lemma_served_run(before, all);
    assert(Seq::new(served.len(), |i: int| Op::Get { id: served[i] }) =~= Seq::new(
        k as nat,
        |i: int| Op::Get { id: requests[i] },
    ));
    assert(Seq::new(all.len(), |i: int| Op::Get { id: all[i] }) =~= Seq::new(
        (k + 1) as nat,
        |i: int| Op::Get { id: requests[i] },
    ));
    law_requests_are_hits_or_misses(before, served);
    law_requests_are_hits_or_misses(before, all);
    lemma_served(before, served);
    let reached = before.served(served);
    let id = requests[k];
    if refused::<B>(before, requests, k, after, error) && reached.displaced(id) is Some {
        let victim = reached.displaced(id)->0;
        lemma_touched(reached.order, id);
        assert(reached.order.contains(id) <==> reached.hot.contains_key(id));
        lemma_get(reached, id);
        if after.same_but_cold(reached.get(id), Some(victim)) {
            law_failed_write_backs_lose_one_page(after, reached.get(id), victim);
            let planned = reached.get(id);
            assert forall|x: PageId| x != victim implies {
                &&& #[trigger] after.contents().contains_key(x) == reached.contents().contains_key(
                    x,
                )
                &&& after.contents().contains_key(x) ==> after.contents()[x]
                    == reached.contents()[x]
            } by {
                assert(after.cold.contains_key(x) == planned.cold.contains_key(x));
                assert(planned.contents().contains_key(x) == reached.contents().contains_key(x));
                assert(planned.contents()[x] == reached.contents()[x]);
            }
        }
    }
}

/// Serving requests is asking for their pages one after the other, and preloading is
/// writing zeroes to the pages from 0 on.
pub proof fn law_runs_are_operations(tiers: Tiers, num_pages: nat, requests: Seq<PageId>)
    requires
        num_pages <= u64::MAX,
    ensures
        tiers.served(requests) == tiers.run(
            Seq::new(requests.len(), |k: int| Op::Get { id: requests[k] }),
        ),
        tiers.preloaded(num_pages) == tiers.run(
            Seq::new(
                num_pages,
                |k: int|
                    Op::Put { id: k as PageId, bytes: Seq::new(4096, |i: int| 0u8) },
            ),
        ),
{
    lemma_served_run(tiers, requests);
    lemma_preloaded_run(tiers, num_pages);
}

proof fn lemma_served_run(tiers: Tiers, requests: Seq<PageId>)
    ensures
        tiers.served(requests) == tiers.run(
            Seq::new(requests.len(), |k: int| Op::Get { id: requests[k] }),
        ),
    decreases requests.len(),
{
    let ops = Seq::new(requests.len(), |k: int| Op::Get { id: requests[k] });
    if requests.len() > 0 {
        let earlier = requests.drop_last();
        lemma_served_run(tiers, earlier);
        assert(ops.drop_last() =~= Seq::new(earlier.len(), |k: int| Op::Get { id: earlier[k] }));
    }
}

proof fn lemma_preloaded_run(tiers: Tiers, num_pages: nat)
    ensures
        tiers.preloaded(num_pages) == tiers.run(
            Seq::new(
                num_pages,
                |k: int|
                    Op::Put { id: k as PageId, bytes: Seq::new(4096, |i: int| 0u8) },
            ),
        ),
    decreases num_pages,
{
    let blank = Seq::new(4096, |i: int| 0u8);
    assert(blank =~= zeroes());
    let ops = Seq::new(
        num_pages,
        |k: int| Op::Put { id: k as PageId, bytes: Seq::new(4096, |i: int| 0u8) },
    );
    if num_pages > 0 {
        let rest = (num_pages - 1) as nat;
        lemma_preloaded_run(tiers, rest);
        assert(ops.drop_last() =~= Seq::new(
            rest,
            |k: int| Op::Put { id: k as PageId, bytes: Seq::new(4096, |i: int| 0u8) },
        ));
    }
}

/// What a run has used before request `k`: the pages preloaded, in order, and the requests
/// so far.
pub open spec fn used_before(num_pages: u64, requests: Seq<PageId>, k: int) -> Seq<PageId> {
    Seq::new(num_pages as nat, |i: int| i as PageId) + requests.take(k)
}

/// The requests of a run for one of the `capacity` distinct pages used last before.
pub open spec fn hit_positions(
    num_pages: u64,
    requests: Seq<PageId>,
    capacity: nat,
) -> Set<int> {
    Set::new(
        |k: int|
            0 <= k < requests.len() && recent(
                used_before(num_pages, requests, k),
                requests[k],
                capacity,
            ),
    )
}

/// A run is made with the capacity that it is given: its hits are the requests for one of
/// the `capacity` distinct pages used last before, preloading included, and its misses are
/// all others. A miss displaces a page wherever that many pages were preloaded.
pub proof fn law_runs_hit_the_pages_used_last(
    pattern: Pattern,
    num_pages: u64,
    capacity: nat,
    num_requests: nat,
    seed: u64,
)
    requires
        1 <= capacity,
        forall|k: int|
            0 <= k < num_requests ==> #[trigger] pattern.requests(
                num_pages,
                num_requests,
                seed,
            )[k] < num_pages,
    ensures
        ({
            let requests = pattern.requests(num_pages, num_requests, seed);
            let after = workload_tiers(pattern, num_pages, capacity, num_requests, seed);
            let hits = hit_positions(num_pages, requests, capacity);
            &&& hits.finite()
            &&& after.hits == hits.len()
            &&& after.misses == num_requests - hits.len()
            &&& after.coalesced == 0
            &&& forall|id: PageId| #[trigger]
                after.hot.contains_key(id) <==> recent(
                    used_before(num_pages, requests, num_requests as int),
                    id,
                    capacity,
                )
        }),
{
    let requests = pattern.requests(num_pages, num_requests, seed);
    let after = workload_tiers(pattern, num_pages, capacity, num_requests, seed);
    lemma_run_hits(num_pages, requests, capacity);
    assert(requests.take(num_requests as int) =~= requests);
    assert forall|id: PageId| #[trigger] after.hot.contains_key(id) <==> recent(
        used_before(num_pages, requests, num_requests as int),
        id,
        capacity,
    ) by {
        lemma_recent_window(used_before(num_pages, requests, num_requests as int), id, capacity);
        assert(after.order.contains(id) <==> after.hot.contains_key(id));
    }
}

proof fn lemma_preload_window(num_pages: nat, capacity: nat)
    requires
        1 <= capacity,
        num_pages <= u64::MAX,
    ensures
        Tiers::over(capacity, Map::empty()).preloaded(num_pages).order == window(
            stack(Seq::new(num_pages, |i: int| i as PageId)),
            capacity,
        ),
    decreases num_pages,
{
    let start = Tiers::over(capacity, Map::empty());
    let ids = Seq::new(num_pages, |i: int| i as PageId);
    if num_pages == 0 {
        assert(ids =~= Seq::empty());
    } else {
        let rest = (num_pages - 1) as nat;
        let earlier = Seq::new(rest, |i: int| i as PageId);
        lemma_preload_window(rest, capacity);
        lemma_preloaded(start, rest);
        lemma_window_used(earlier, rest as PageId, capacity);
        assert(ids =~= earlier.push(rest as PageId));
    }
}

proof fn lemma_run_hits(num_pages: u64, requests: Seq<PageId>, capacity: nat)
    requires
        1 <= capacity,
        forall|k: int| 0 <= k < requests.len() ==> #[trigger] requests[k] < num_pages,
    ensures
        ({
            let after = Tiers::over(capacity, Map::empty()).preloaded(
                num_pages as nat,
            ).reset().served(requests);
            let hits = hit_positions(num_pages, requests, capacity);
            &&& after.wf()
            &&& after.coalesced == 0
            &&& after.order == window(
                stack(used_before(num_pages, requests, requests.len() as int)),
                capacity,
            )
            &&& hits.finite()
            &&& after.hits == hits.len()
            &&& after.misses == requests.len() - hits.len()
        }),
    decreases requests.len(),
{
    let start = Tiers::over(capacity, Map::empty());
    let loaded = start.preloaded(num_pages as nat);
    let hits = hit_positions(num_pages, requests, capacity);
    let ids = Seq::new(num_pages as nat, |i: int| i as PageId);
    lemma_preloaded(start, num_pages as nat);
    assert(loaded.reset().contents() == loaded.contents());
    lemma_served(loaded.reset(), requests);
    if requests.len() == 0 {
        lemma_preload_window(num_pages as nat, capacity);
        assert(used_before(num_pages, requests, 0) =~= ids);
        assert(hits =~= Set::empty());
    } else {
        let m = requests.len() - 1;
        let earlier = requests.drop_last();
        let id = requests.last();
        let before = loaded.reset().served(earlier);
        let used = used_before(num_pages, requests, m);
        lemma_run_hits(num_pages, earlier, capacity);
        lemma_served(loaded.reset(), earlier);
        assert(earlier.take(m) =~= requests.take(m));
        assert(used_before(num_pages, earlier, m) =~= used);
        assert(used_before(num_pages, requests, m + 1) =~= used.push(id));
        lemma_window_used(used, id, capacity);
        lemma_recent_window(used, id, capacity);
        lemma_touched(before.order, id);
        assert(requests[m] == id);
        assert(before.order.contains(id) <==> before.hot.contains_key(id));
        assert(before.contents().contains_key(id));
        let were = hit_positions(num_pages, earlier, capacity);
        assert forall|k: int| #[trigger] were.contains(k) <==> hits.contains(k) && k != m by {
            if 0 <= k < m {
                assert(earlier.take(k) =~= requests.take(k));
                assert(earlier[k] == requests[k]);
            }
        }
        if hits.contains(m) {
            assert(hits =~= were.insert(m));
        } else {
            assert(hits =~= were);
        }
    }
}

} // verus!
