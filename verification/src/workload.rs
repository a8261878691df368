//! Access patterns: which pages a run asks for, and in what order.

use crate::page::PageId;
use rand::rngs::StdRng;
use rand::{Rng, RngCore, SeedableRng};
use vstd::prelude::*;

verus! {

/// The whole of a distribution, in the units of [`Pattern::Zipf`].
pub const WHOLE: u64 = 0x20_0000_0000_0000;

/// How the requests of a run are spread over the pages.
#[derive(Debug)]
pub enum Pattern {
    /// One page after the other, from the first again after the last.
    Sequential,
    /// Every page is as likely as any other.
    Uniform,
    /// Some pages are asked for more often than others. `cdf[k]` is the probability
    /// that a request is for one of the pages `0..=k`, in units of 2^-53 and
    /// rounded up, so that the last entry is [`WHOLE`].
    Zipf { cdf: Vec<u64> },
}

impl Clone for Pattern {
    fn clone(&self) -> (copy: Self)
        ensures
            match *self {
                Pattern::Zipf { cdf } => copy matches Pattern::Zipf { cdf: copied } && copied@
                    == cdf@,
                _ => copy == *self,
            },
    {
        match self {
            Pattern::Sequential => Pattern::Sequential,
            Pattern::Uniform => Pattern::Uniform,
            Pattern::Zipf { cdf } => Pattern::Zipf { cdf: cdf.clone() },
        }
    }
}

/// A generator of random numbers is known by the words of its state alone.
#[verifier::external_type_specification]
#[verifier::external_body]
pub struct ExStdRng(rand::rngs::StdRng);

/// The words of the state of a generator: key, position and buffer.
pub uninterp spec fn generator_state(rng: StdRng) -> Seq<u32>;

/// The state of a generator that `StdRng::seed_from_u64` made from `seed`.
pub uninterp spec fn seeded_state(seed: u64) -> Seq<u32>;

/// What `Rng::gen_range` on `low..high` gives in a state: the number drawn and the
/// state that follows.
pub uninterp spec fn range_draw(state: Seq<u32>, low: u64, high: u64) -> (u64, Seq<u32>);

/// What `RngCore::next_u64` gives in a state: the word drawn and the state that
/// follows.
pub uninterp spec fn word_draw(state: Seq<u32>) -> (u64, Seq<u32>);

/// `StdRng::seed_from_u64` makes a generator whose state depends on the seed alone.
#[verifier::external_body]
fn seed_generator(seed: u64) -> (rng: StdRng)
    ensures
        generator_state(rng) == seeded_state(seed),
{
    StdRng::seed_from_u64(seed)
}

/// `Rng::gen_range` draws a number that is at least `low` and below `high`. Which
/// one, and the state that follows, depend on the range and the state alone. It
/// panics where the range is empty.
#[verifier::external_body]
fn draw_in_range(rng: &mut StdRng, low: u64, high: u64) -> (number: u64)
    requires
        low < high,
    ensures
        low <= number < high,
        (number, generator_state(*final(rng))) == range_draw(
            generator_state(*old(rng)),
            low,
            high,
        ),
{
    rng.gen_range(low..high)
}

/// `RngCore::next_u64` draws a word of 64 bits. Which one, and the state that
/// follows, depend on the state alone.
#[verifier::external_body]
fn draw_word(rng: &mut StdRng) -> (word: u64)
    ensures
        (word, generator_state(*final(rng))) == word_draw(generator_state(*old(rng))),
{
    rng.next_u64()
}

/// The first index whose entry is greater than `draw`, or the number of entries.
pub open spec fn rank(cdf: Seq<u64>, draw: u64) -> nat
    decreases cdf.len(),
{
    if cdf.len() == 0 || cdf[0] > draw {
        0
    } else {
        1 + rank(cdf.drop_first(), draw)
    }
}

/// The entries never decrease.
pub open spec fn ascending(cdf: Seq<u64>) -> bool {
    forall|i: int, j: int| 0 <= i <= j < cdf.len() ==> cdf[i] <= cdf[j]
}

/// Whether `cdf` is a distribution that leaves no draw without a page.
pub open spec fn whole(cdf: Seq<u64>) -> bool {
    &&& 0 < cdf.len()
    &&& ascending(cdf)
    &&& cdf.last() >= WHOLE
}

/// The draw that a random word stands for: its upper 53 bits.
pub open spec fn draw_of(word: u64) -> u64 {
    word >> 11
}

impl Pattern {
    /// Whether requests for `num_pages` pages can follow the pattern: there is a
    /// page to ask for where anything is asked for, and a distribution covers the
    /// pages and is whole.
    pub open spec fn covers(self, num_pages: u64, num_requests: nat) -> bool {
        match self {
            Pattern::Zipf { cdf } => cdf@.len() == num_pages && whole(cdf@),
            _ => 0 < num_pages || num_requests == 0,
        }
    }

    /// The state of the generator before request `k`.
    pub open spec fn state(self, num_pages: u64, seed: u64, k: nat) -> Seq<u32>
        decreases k,
    {
        if k == 0 {
            seeded_state(seed)
        } else {
            let previous = self.state(num_pages, seed, (k - 1) as nat);
            match self {
                Pattern::Sequential => previous,
                Pattern::Uniform => range_draw(previous, 0, num_pages).1,
                Pattern::Zipf { .. } => word_draw(previous).1,
            }
        }
    }

    /// The page that request `k` is for.
    pub open spec fn request(self, num_pages: u64, seed: u64, k: nat) -> PageId {
        let state = self.state(num_pages, seed, k);
        match self {
            Pattern::Sequential => (k % (num_pages as nat)) as PageId,
            Pattern::Uniform => range_draw(state, 0, num_pages).0,
            Pattern::Zipf { cdf } => rank(cdf@, draw_of(word_draw(state).0)) as PageId,
        }
    }

    /// The pages that a run asks for.
    pub open spec fn requests(self, num_pages: u64, num_requests: nat, seed: u64) -> Seq<PageId> {
        Seq::new(num_requests, |k: int| self.request(num_pages, seed, k as nat))
    }
}

/// Which patterns can be followed: any of them over some pages, if a distribution has an
/// entry for each page, never decreasing, and ends at the whole; and one without a
/// distribution over no pages, where nothing is asked for.
pub proof fn law_patterns_cover_all_pages(cdf: Vec<u64>, num_pages: u64, num_requests: nat)
    ensures
        Pattern::Sequential.covers(num_pages, num_requests) <==> 0 < num_pages || num_requests == 0,
        Pattern::Uniform.covers(num_pages, num_requests) <==> 0 < num_pages || num_requests == 0,
        (Pattern::Zipf { cdf }).covers(num_pages, num_requests) <==> {
            &&& 0 < cdf@.len() == num_pages
            &&& forall|i: int, j: int| 0 <= i <= j < cdf@.len() ==> cdf@[i] <= cdf@[j]
            &&& cdf@[cdf@.len() - 1] >= 0x20_0000_0000_0000
        },
{
}

/// The requests of a run over the pages `0..num_pages`. The same arguments always
/// give the same requests.
pub fn generate(pattern: &Pattern, num_pages: u64, num_requests: usize, seed: u64) -> (requests:
    Vec<PageId>)
    requires
        pattern.covers(num_pages, num_requests as nat),
    ensures
        requests@ == pattern.requests(num_pages, num_requests as nat, seed),
        forall|k: int| 0 <= k < requests@.len() ==> #[trigger] requests@[k] < num_pages,
{
    let mut rng = seed_generator(seed);
    let mut requests: Vec<PageId> = Vec::with_capacity(num_requests);
    for k in 0..num_requests
        invariant
            pattern.covers(num_pages, num_requests as nat),
            generator_state(rng) == pattern.state(num_pages, seed, k as nat),
            requests@ == pattern.requests(num_pages, k as nat, seed),
            forall|i: int| 0 <= i < requests@.len() ==> #[trigger] requests@[i] < num_pages,
    {
        let id = match pattern {
            Pattern::Sequential => (k as u64) % num_pages,
            Pattern::Uniform => draw_in_range(&mut rng, 0, num_pages),
            Pattern::Zipf { cdf } => sample_zipf(cdf, &mut rng),
        };
        assert(id == pattern.request(num_pages, seed, k as nat));
        requests.push(id);
        assert(requests@ =~= pattern.requests(num_pages, (k + 1) as nat, seed));
    }
    requests
}

/// Draws a page from a distribution.
fn sample_zipf(cdf: &Vec<u64>, rng: &mut StdRng) -> (id: PageId)
    requires
        whole(cdf@),
    ensures
        id == rank(cdf@, draw_of(word_draw(generator_state(*old(rng))).0)),
        id < cdf@.len(),
        id > 0 ==> cdf@[id - 1] <= draw_of(word_draw(generator_state(*old(rng))).0),
        draw_of(word_draw(generator_state(*old(rng))).0) < cdf@[id as int],
        generator_state(*final(rng)) == word_draw(generator_state(*old(rng))).1,
{
    let word = draw_word(rng);
    assert(word >> 11 < 0x20_0000_0000_0000) by (bit_vector);
    let id = rank_of(cdf, word >> 11);
    id as PageId
}

/// The page that a draw falls on: the first whose entry is greater than the draw.
pub fn rank_of(cdf: &Vec<u64>, draw: u64) -> (index: usize)
    requires
        ascending(cdf@),
    ensures
        index == rank(cdf@, draw),
        index <= cdf@.len(),
        forall|i: int| 0 <= i < index ==> #[trigger] cdf@[i] <= draw,
        forall|i: int| index <= i < cdf@.len() ==> #[trigger] cdf@[i] > draw,
{
    let mut low: usize = 0;
    let mut high: usize = cdf.len();
    while low < high
        invariant
            ascending(cdf@),
            low <= high <= cdf@.len(),
            forall|i: int| 0 <= i < low ==> #[trigger] cdf@[i] <= draw,
            forall|i: int| high <= i < cdf@.len() ==> #[trigger] cdf@[i] > draw,
        decreases high - low,
    {
        let middle: usize = low + (high - low) / 2;
        if cdf[middle] <= draw {
            low = middle + 1;
        } else {
            high = middle;
        }
    }
    proof {
        lemma_rank(cdf@, draw, low as nat);
    }
    low
}

/// An index splits a sequence into entries up to `draw` and entries above it only
/// where it is the rank.
proof fn lemma_rank(cdf: Seq<u64>, draw: u64, index: nat)
    requires
        index <= cdf.len(),
        forall|i: int| 0 <= i < index ==> #[trigger] cdf[i] <= draw,
        forall|i: int| index <= i < cdf.len() ==> #[trigger] cdf[i] > draw,
    ensures
        rank(cdf, draw) == index,
    decreases cdf.len(),
{
    if index > 0 {
        let rest = cdf.drop_first();
        assert forall|i: int| 0 <= i < index - 1 implies #[trigger] rest[i] <= draw by {
            assert(rest[i] == cdf[i + 1]);
        }
        assert forall|i: int| index - 1 <= i < rest.len() implies #[trigger] rest[i] > draw by {
            assert(rest[i] == cdf[i + 1]);
        }
        lemma_rank(rest, draw, (index - 1) as nat);
    }
}

} // verus!
