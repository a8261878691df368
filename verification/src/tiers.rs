//! What a cache whose requests come one after the other does, as a mathematical
//! model: the hot set in order of use, the pages in the backend, the counters.

use crate::page::{zeroes, PageId};
use vstd::prelude::*;

verus! {

/// Both tiers and the counters. `order` lists the hot set, the page used longest
/// ago first.
#[verifier::ext_equal]
pub struct Tiers {
    pub capacity: nat,
    pub order: Seq<PageId>,
    pub hot: Map<PageId, Seq<u8>>,
    pub cold: Map<PageId, Seq<u8>>,
    pub hits: nat,
    pub misses: nat,
    pub coalesced: nat,
    pub evictions: nat,
}

/// `order` after `id` has been used: the others keep their order, `id` is last.
pub open spec fn touched(order: Seq<PageId>, id: PageId) -> Seq<PageId> {
    if order.contains(id) {
        order.remove(order.index_of(id)).push(id)
    } else {
        order.push(id)
    }
}

impl Tiers {
    /// An empty hot set over a backend that stores `cold`.
    pub open spec fn over(capacity: nat, cold: Map<PageId, Seq<u8>>) -> Self {
        Tiers {
            capacity,
            order: Seq::empty(),
            hot: Map::empty(),
            cold,
            hits: 0,
            misses: 0,
            coalesced: 0,
            evictions: 0,
        }
    }

    /// `order` lists the pages of the hot set, each once, and they are within the
    /// capacity.
    pub open spec fn wf(self) -> bool {
        &&& 1 <= self.capacity
        &&& self.order.no_duplicates()
        &&& forall|id: PageId| self.order.contains(id) <==> #[trigger] self.hot.contains_key(id)
        &&& self.order.len() <= self.capacity
    }

    /// The pages that can be read: a hot page hides what the backend stores of it.
    pub open spec fn contents(self) -> Map<PageId, Seq<u8>> {
        self.cold.union_prefer_right(self.hot)
    }

    /// A page enters the hot set as the last one used. Where the hot set is then
    /// over its capacity, the page used longest ago goes to the backend.
    pub open spec fn place(self, id: PageId, bytes: Seq<u8>) -> Self {
        let order = touched(self.order, id);
        let hot = self.hot.insert(id, bytes);
        if order.len() > self.capacity {
            Tiers {
                order: order.drop_first(),
                hot: hot.remove(order[0]),
                cold: self.cold.insert(order[0], hot[order[0]]),
                evictions: self.evictions + 1,
                ..self
            }
        } else {
            Tiers { order, hot, ..self }
        }
    }

    /// The page that [`Tiers::place`] sends to the backend.
    pub open spec fn displaced(self, id: PageId) -> Option<PageId> {
        let order = touched(self.order, id);
        if order.len() > self.capacity {
            Some(order[0])
        } else {
            None
        }
    }

    /// A page is written.
    pub open spec fn put(self, id: PageId, bytes: Seq<u8>) -> Self {
        self.place(id, bytes)
    }

    /// A page is asked for. A hot page becomes the last one used; a page that only
    /// the backend has is brought into the hot set; a page that neither tier has
    /// changes nothing but the count of misses.
    pub open spec fn get(self, id: PageId) -> Self {
        if self.hot.contains_key(id) {
            Tiers { order: touched(self.order, id), hits: self.hits + 1, ..self }
        } else {
            let missed = Tiers { misses: self.misses + 1, ..self };
            if self.cold.contains_key(id) {
                missed.place(id, self.cold[id])
            } else {
                missed
            }
        }
    }

    /// The counters are set back.
    pub open spec fn reset(self) -> Self {
        Tiers { hits: 0, misses: 0, coalesced: 0, evictions: 0, ..self }
    }

    /// Pages are asked for, one after the other.
    pub open spec fn served(self, requests: Seq<PageId>) -> Self
        decreases requests.len(),
    {
        if requests.len() == 0 {
            self
        } else {
            self.served(requests.drop_last()).get(requests.last())
        }
    }

    /// The pages from 0 on are written in order, all of them zero.
    pub open spec fn preloaded(self, num_pages: nat) -> Self
        decreases num_pages,
    {
        if num_pages == 0 {
            self
        } else {
            self.preloaded((num_pages - 1) as nat).put((num_pages - 1) as PageId, zeroes())
        }
    }

    /// The tiers are the same but for what the backend stores of the page `lost`.
    pub open spec fn same_but_cold(self, other: Self, lost: Option<PageId>) -> bool {
        &&& self == (Tiers { cold: self.cold, ..other })
        &&& match lost {
            Some(id) => self.cold.remove(id) == other.cold.remove(id),
            None => self.cold == other.cold,
        }
    }
}

/// Using a page moves it to the end and keeps all others, in order.
pub proof fn lemma_touched(order: Seq<PageId>, id: PageId)
    requires
        order.no_duplicates(),
    ensures
        touched(order, id).no_duplicates(),
        touched(order, id).len() == if order.contains(id) {
            order.len()
        } else {
            order.len() + 1
        },
        touched(order, id).last() == id,
        forall|x: PageId| #[trigger]
            touched(order, id).contains(x) <==> (order.contains(x) || x == id),
{
    let after = touched(order, id);
    if order.contains(id) {
        let k = order.index_of(id);
        let rest = order.remove(k);
        assert forall|x: PageId| #[trigger] after.contains(x) <==> (order.contains(x) || x
            == id) by {
            if order.contains(x) && x != id {
                let i = order.index_of(x);
                if i < k {
                    assert(after[i] == x);
                } else {
                    assert(after[i - 1] == x);
                }
            }
            if after.contains(x) {
                let i = after.index_of(x);
                if i < rest.len() {
                    assert(rest[i] == x);
                    assert(order[if i < k {
                        i
                    } else {
                        i + 1
                    }] == x);
                }
            }
            assert(after[rest.len() as int] == id);
        }
        assert forall|i: int, j: int|
            0 <= i < after.len() && 0 <= j < after.len() && i != j implies after[i]
            != after[j] by {
            let oi = if i == rest.len() {
                k
            } else if i < k {
                i
            } else {
                i + 1
            };
            let oj = if j == rest.len() {
                k
            } else if j < k {
                j
            } else {
                j + 1
            };
            assert(after[i] == order[oi]);
            assert(after[j] == order[oj]);
        }
    } else {
        assert forall|x: PageId| #[trigger] after.contains(x) <==> (order.contains(x) || x
            == id) by {
            if order.contains(x) {
                let i = order.index_of(x);
                assert(after[i] == x);
            }
            if after.contains(x) {
                let i = after.index_of(x);
                if i < order.len() {
                    assert(order[i] == x);
                }
            }
            assert(after[order.len() as int] == id);
        }
    }
}

/// Placing a page keeps the tiers in order, and makes `bytes` what is read of it.
pub proof fn lemma_place(tiers: Tiers, id: PageId, bytes: Seq<u8>)
    requires
        tiers.wf(),
    ensures
        tiers.place(id, bytes).wf(),
        tiers.place(id, bytes).contents() == tiers.contents().insert(id, bytes),
        tiers.place(id, bytes).order.last() == id,
        tiers.place(id, bytes).hot.contains_key(id),
{
    lemma_touched(tiers.order, id);
    let order = touched(tiers.order, id);
    let after = tiers.place(id, bytes);
    if order.len() > tiers.capacity {
        let victim = order[0];
        assert(victim != id) by {
            assert(order[order.len() - 1] == id);
        }
        let rest = order.drop_first();
        assert forall|x: PageId| rest.contains(x) <==> #[trigger] after.hot.contains_key(x) by {
            if rest.contains(x) {
                let i = rest.index_of(x);
                assert(order[i + 1] == x);
                assert(order.contains(x));
            }
            if after.hot.contains_key(x) {
                assert(order.contains(x));
                let i = order.index_of(x);
                assert(rest[i - 1] == x);
            }
        }
        assert(rest.last() == id);
        assert(tiers.hot.contains_key(victim)) by {
            assert(order.contains(victim));
        }
    } else {
        assert forall|x: PageId| order.contains(x) <==> #[trigger] after.hot.contains_key(x) by {
        }
    }
    assert(after.contents() =~= tiers.contents().insert(id, bytes));
}

/// Asking for a page keeps the tiers in order, and changes nothing that can be read.
pub proof fn lemma_get(tiers: Tiers, id: PageId)
    requires
        tiers.wf(),
    ensures
        tiers.get(id).wf(),
        tiers.get(id).contents() == tiers.contents(),
{
    if tiers.hot.contains_key(id) {
        lemma_touched(tiers.order, id);
        assert(tiers.get(id).contents() =~= tiers.contents());
    } else if tiers.cold.contains_key(id) {
        lemma_place(Tiers { misses: tiers.misses + 1, ..tiers }, id, tiers.cold[id]);
        assert(tiers.contents().insert(id, tiers.cold[id]) =~= tiers.contents());
    }
    assert(tiers.get(id).contents() =~= tiers.contents());
}

/// So does asking for any number of pages.
pub proof fn lemma_served(tiers: Tiers, requests: Seq<PageId>)
    requires
        tiers.wf(),
    ensures
        tiers.served(requests).wf(),
        tiers.served(requests).contents() == tiers.contents(),
        tiers.served(requests).capacity == tiers.capacity,
        tiers.served(requests).coalesced == tiers.coalesced,
    decreases requests.len(),
{
    if requests.len() > 0 {
        lemma_served(tiers, requests.drop_last());
        lemma_get(tiers.served(requests.drop_last()), requests.last());
    }
}

/// Preloading keeps the tiers in order and makes its pages, and no others, readable.
pub proof fn lemma_preloaded(tiers: Tiers, num_pages: nat)
    requires
        tiers.wf(),
        num_pages <= u64::MAX,
    ensures
        tiers.preloaded(num_pages).wf(),
        tiers.preloaded(num_pages).capacity == tiers.capacity,
        forall|id: PageId| #[trigger]
            tiers.preloaded(num_pages).contents().contains_key(id) <==> id < num_pages
                || tiers.contents().contains_key(id),
        forall|id: PageId|
            id < num_pages ==> #[trigger] tiers.preloaded(num_pages).contents()[id] == zeroes(),
    decreases num_pages,
{
    if num_pages > 0 {
        let rest = (num_pages - 1) as nat;
        lemma_preloaded(tiers, rest);
        lemma_place(tiers.preloaded(rest), rest as PageId, zeroes());
    }
}

} // verus!
