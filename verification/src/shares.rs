//! How the draws of a distribution are shared out among the pages.

use crate::workload::{
    draw_of, range_draw, rank, seeded_state, whole, word_draw, Pattern, WHOLE,
};
use vstd::arithmetic::power::{lemma_pow_positive, pow};
use vstd::prelude::*;
use vstd::set_lib::{lemma_int_range, set_int_range};

verus! {

/// The number of draws that fall on the pages before `k`.
pub open spec fn edge(cdf: Seq<u64>, k: int) -> int {
    if k == 0 {
        0
    } else if cdf[k - 1] < WHOLE {
        cdf[k - 1] as int
    } else {
        WHOLE as int
    }
}

/// The number of draws that fall on page `k`.
pub open spec fn share(cdf: Seq<u64>, k: int) -> int {
    edge(cdf, k + 1) - edge(cdf, k)
}

/// The draws that fall on page `k`.
pub open spec fn draws_of(cdf: Seq<u64>, k: int) -> Set<int> {
    Set::new(|draw: int| 0 <= draw < WHOLE && rank(cdf, draw as u64) == k)
}

/// The sum of all weights.
pub open spec fn total(weights: Seq<nat>) -> nat
    decreases weights.len(),
{
    if weights.len() == 0 {
        0
    } else {
        total(weights.drop_last()) + weights.last()
    }
}

/// Whether every entry of `cdf` is off by `error` draws at most from the share of the
/// weight that the pages up to it have together.
pub open spec fn follows(cdf: Seq<u64>, weights: Seq<nat>, error: nat) -> bool {
    &&& cdf.len() == weights.len()
    &&& 0 < total(weights)
    &&& forall|k: int|
        0 <= k < cdf.len() ==> {
            let exact = WHOLE * total(weights.take(k + 1));
            exact - error * total(weights) <= (#[trigger] cdf[k]) * total(weights) <= exact
                + error * total(weights)
        }
}

/// Whether page `k` has a weight in proportion to 1 / (k + 1)^skew.
pub open spec fn zipf(weights: Seq<nat>, skew: nat) -> bool {
    forall|k: int|
        0 <= k < weights.len() ==> (#[trigger] weights[k]) * pow(k + 1, skew) == weights[0]
}

proof fn lemma_rank_splits(cdf: Seq<u64>, draw: u64)
    ensures
        rank(cdf, draw) <= cdf.len(),
        forall|i: int| 0 <= i < rank(cdf, draw) ==> #[trigger] cdf[i] <= draw,
        rank(cdf, draw) < cdf.len() ==> cdf[rank(cdf, draw) as int] > draw,
    decreases cdf.len(),
{
    if cdf.len() > 0 && cdf[0] <= draw {
        let rest = cdf.drop_first();
        lemma_rank_splits(rest, draw);
        assert forall|i: int| 0 <= i < rank(cdf, draw) implies #[trigger] cdf[i] <= draw by {
            if i > 0 {
                assert(rest[i - 1] == cdf[i]);
            }
        }
    }
}

/// Inverse sampling: a draw falls on the first page where it lies below the page's entry,
/// and on any other where it lies between the entry before and the page's own. There is
/// always a page that it falls on.
pub proof fn law_draws_fall_between_the_entries(cdf: Seq<u64>, draw: u64, k: int)
    requires
        whole(cdf),
        draw < WHOLE,
        0 <= k < cdf.len(),
    ensures
        rank(cdf, draw) < cdf.len(),
        rank(cdf, draw) == k <==> (k == 0 || cdf[k - 1] <= draw) && draw < cdf[k],
{
    lemma_rank_splits(cdf, draw);
    let r = rank(cdf, draw) as int;
    if r == cdf.len() {
        assert(cdf[r - 1] <= draw);
    }
    if r < k {
        assert(cdf[r] <= cdf[k - 1]);
    }
    if r > k {
        assert(cdf[k] <= draw);
    }
}

/// Every page gets its share: of all draws, as many fall on a page as its entry is above
/// the one before.
pub proof fn law_pages_get_their_share(cdf: Seq<u64>, k: int)
    requires
        whole(cdf),
        0 <= k < cdf.len(),
    ensures
        draws_of(cdf, k).finite(),
        draws_of(cdf, k).len() == share(cdf, k),
        0 <= share(cdf, k),
{
    let (low, high) = (edge(cdf, k), edge(cdf, k + 1));
    if k > 0 {
        assert(cdf[k - 1] <= cdf[k]);
    }
    assert forall|draw: int| draws_of(cdf, k).contains(draw) <==> low <= draw < high by {
        if 0 <= draw < WHOLE {
            law_draws_fall_between_the_entries(cdf, draw as u64, k);
        }
    }
    assert(draws_of(cdf, k) =~= set_int_range(low, high));
    lemma_int_range(low, high);
}

proof fn lemma_total_take(weights: Seq<nat>, k: int)
    requires
        0 <= k <= weights.len(),
    ensures
        total(weights.take(k)) <= total(weights),
        k < weights.len() ==> total(weights.take(k + 1)) == total(weights.take(k)) + weights[k],
    decreases weights.len(),
{
    if k < weights.len() {
        assert(weights.take(k + 1).drop_last() =~= weights.take(k));
        lemma_total_take(weights.drop_last(), k);
        assert(weights.drop_last().take(k) =~= weights.take(k));
    } else {
        assert(weights.take(k) =~= weights);
    }
}

/// The number of draws before a page is off by `error` at most.
proof fn lemma_edge(cdf: Seq<u64>, weights: Seq<nat>, error: nat, k: int)
    requires
        follows(cdf, weights, error),
        0 <= k <= cdf.len(),
    ensures
        ({
            let exact = WHOLE * total(weights.take(k));
            exact - error * total(weights) <= edge(cdf, k) * total(weights) <= exact + error
                * total(weights)
        }),
{
    let sum = total(weights) as int;
    let exact = WHOLE * total(weights.take(k));
    lemma_total_take(weights, k);
    let slack = error * sum;
    assert(0 <= slack) by (nonlinear_arith)
        requires
            slack == error * sum,
            0 <= sum,
    ;
    if k == 0 {
        assert(weights.take(0) =~= Seq::empty());
    } else {
        let entry = cdf[k - 1] as int;
        if entry >= WHOLE {
            let above = entry * sum;
            assert(WHOLE * sum <= above) by (nonlinear_arith)
                requires
                    above == entry * sum,
                    entry >= WHOLE,
                    0 <= sum,
            ;
        }
    }
}

/// The pages are asked for in proportion to their weights: up to the rounding of the
/// entries, the share that a page has of the draws is the share that it has of the weight.
pub proof fn law_shares_follow_the_weights(
    cdf: Seq<u64>,
    weights: Seq<nat>,
    error: nat,
    k: int,
)
    requires
        follows(cdf, weights, error),
        0 <= k < cdf.len(),
    ensures
        WHOLE * weights[k] - 2 * error * total(weights) <= share(cdf, k) * total(weights) <= WHOLE
            * weights[k] + 2 * error * total(weights),
{
    let sum = total(weights) as int;
    lemma_edge(cdf, weights, error, k);
    lemma_edge(cdf, weights, error, k + 1);
    lemma_total_take(weights, k);
    let (low, high) = (edge(cdf, k), edge(cdf, k + 1));
    assert((high - low) * sum == high * sum - low * sum) by (nonlinear_arith);
    assert(2 * error * sum == 2 * (error * sum)) by (nonlinear_arith);
}

/// A page with more weight is asked for more often: up to the rounding of the entries, no
/// page gets more draws than one that weighs at least as much.
pub proof fn law_heavier_pages_are_likelier(
    cdf: Seq<u64>,
    weights: Seq<nat>,
    error: nat,
    i: int,
    j: int,
)
    requires
        follows(cdf, weights, error),
        0 <= i < cdf.len(),
        0 <= j < cdf.len(),
        weights[j] <= weights[i],
    ensures
        share(cdf, j) <= share(cdf, i) + 4 * error,
{
    let sum = total(weights) as int;
    law_shares_follow_the_weights(cdf, weights, error, i);
    law_shares_follow_the_weights(cdf, weights, error, j);
    let (a, b) = (share(cdf, i), share(cdf, j));
    assert(2 * error * sum == 2 * (error * sum)) by (nonlinear_arith);
    assert((a + 4 * error) * sum == a * sum + 4 * (error * sum)) by (nonlinear_arith);
    assert(b <= a + 4 * error) by (nonlinear_arith)
        requires
            b * sum <= (a + 4 * error) * sum,
            0 < sum,
    ;
}

proof fn lemma_pow_grows(a: int, b: int, e: nat)
    requires
        0 < a <= b,
    ensures
        0 < pow(a, e) <= pow(b, e),
    decreases e,
{
    reveal(pow);
    lemma_pow_positive(a, e);
    if e > 0 {
        lemma_pow_grows(a, b, (e - 1) as nat);
        let (p, q) = (pow(a, (e - 1) as nat), pow(b, (e - 1) as nat));
        assert(a * p <= b * q) by (nonlinear_arith)
            requires
                0 < a <= b,
                0 < p <= q,
        ;
    }
}

/// In a Zipf distribution page 0 is the most frequently requested, and a larger id is never
/// likelier than a smaller one, up to the rounding of the entries.
pub proof fn law_smaller_ids_are_likelier(
    cdf: Seq<u64>,
    weights: Seq<nat>,
    skew: nat,
    error: nat,
    i: int,
    j: int,
)
    requires
        zipf(weights, skew),
        follows(cdf, weights, error),
        0 <= i <= j < cdf.len(),
    ensures
        weights[j] <= weights[i],
        share(cdf, j) <= share(cdf, i) + 4 * error,
{
    lemma_pow_grows(i + 1, j + 1, skew);
    let (u, v) = (weights[i] as int, weights[j] as int);
    let (p, q) = (pow(i + 1, skew), pow(j + 1, skew));
    assert(v <= u) by (nonlinear_arith)
        requires
            u * p == v * q,
            0 < p <= q,
            0 <= u,
            0 <= v,
    ;
    law_heavier_pages_are_likelier(cdf, weights, error, i, j);
}

/// `states` is what a generator goes through that was seeded with `seed` and draws word
/// after word.
pub open spec fn draws_words(states: Seq<Seq<u32>>, seed: u64) -> bool {
    &&& 0 < states.len()
    &&& states[0] == seeded_state(seed)
    &&& forall|i: int| 0 <= i < states.len() - 1 ==> #[trigger] states[i + 1] == word_draw(
        states[i],
    ).1
}

/// `states` is what a generator goes through that was seeded with `seed` and draws numbers
/// below `bound`.
pub open spec fn draws_numbers(states: Seq<Seq<u32>>, seed: u64, bound: u64) -> bool {
    &&& 0 < states.len()
    &&& states[0] == seeded_state(seed)
    &&& forall|i: int| 0 <= i < states.len() - 1 ==> #[trigger] states[i + 1] == range_draw(
        states[i],
        0,
        bound,
    ).1
}

/// Request `k` of a workload with a distribution is for the page on whose draws the upper 53
/// bits of word `k` of the seeded generator fall: for page `i` where they lie from the
/// entry before, or zero, up to its own. Of all draws, as many make it page `i` as page
/// `i` has for its share.
pub proof fn law_requests_follow_the_distribution(
    cdf: Vec<u64>,
    num_pages: u64,
    num_requests: nat,
    seed: u64,
    states: Seq<Seq<u32>>,
    k: int,
    i: int,
)
    requires
        whole(cdf@),
        cdf@.len() == num_pages,
        draws_words(states, seed),
        0 <= k < num_requests,
        k < states.len(),
        0 <= i < num_pages,
    ensures
        ({
            let requests = (Pattern::Zipf { cdf }).requests(num_pages, num_requests, seed);
            let draw = word_draw(states[k]).0 as int / 2048;
            let low = if i == 0 {
                0
            } else {
                cdf@[i - 1] as int
            };
            &&& requests.len() == num_requests
            &&& requests[k] < num_pages
            &&& requests[k] == i <==> low <= draw < cdf@[i]
            &&& requests[k] == i <==> draws_of(cdf@, i).contains(draw)
            &&& draws_of(cdf@, i).len() == share(cdf@, i)
        }),
{
    let pattern = Pattern::Zipf { cdf };
    lemma_word_states(pattern, num_pages, seed, states, k);
    let word = word_draw(states[k]).0;
    let draw = draw_of(word);
    assert(word >> 11 == word / 2048) by (bit_vector);
    assert(word >> 11 < 0x20_0000_0000_0000) by (bit_vector);
    law_draws_fall_between_the_entries(cdf@, draw, i);
    law_pages_get_their_share(cdf@, i);
}

proof fn lemma_word_states(
    pattern: Pattern,
    num_pages: u64,
    seed: u64,
    states: Seq<Seq<u32>>,
    k: int,
)
    requires
        pattern is Zipf,
        draws_words(states, seed),
        0 <= k < states.len(),
    ensures
        pattern.state(num_pages, seed, k as nat) == states[k],
    decreases k,
{
    if k > 0 {
        lemma_word_states(pattern, num_pages, seed, states, k - 1);
        assert(states[(k - 1) + 1] == word_draw(states[k - 1]).1);
    }
}

/// Request `k` of a uniform workload is number `k` that the seeded generator draws from the
/// pages.
pub proof fn law_uniform_requests_are_drawn_from_all_pages(
    num_pages: u64,
    num_requests: nat,
    seed: u64,
    states: Seq<Seq<u32>>,
    k: int,
)
    requires
        draws_numbers(states, seed, num_pages),
        0 <= k < num_requests,
        k < states.len(),
    ensures
        Pattern::Uniform.requests(num_pages, num_requests, seed).len() == num_requests,
        Pattern::Uniform.requests(num_pages, num_requests, seed)[k] == range_draw(
            states[k],
            0,
            num_pages,
        ).0,
{
    lemma_number_states(num_pages, seed, states, k);
}

proof fn lemma_number_states(num_pages: u64, seed: u64, states: Seq<Seq<u32>>, k: int)
    requires
        draws_numbers(states, seed, num_pages),
        0 <= k < states.len(),
    ensures
        Pattern::Uniform.state(num_pages, seed, k as nat) == states[k],
    decreases k,
{
    if k > 0 {
        lemma_number_states(num_pages, seed, states, k - 1);
        assert(states[(k - 1) + 1] == range_draw(states[k - 1], 0, num_pages).1);
    }
}

/// The requests of a sequential workload begin with page 0, and each is for the page after
/// the one before, or for page 0 after the last page.
pub proof fn law_sequential_requests_go_round(
    num_pages: u64,
    num_requests: nat,
    seed: u64,
    k: int,
)
    requires
        0 < num_pages,
        0 <= k < num_requests,
    ensures
        ({
            let requests = Pattern::Sequential.requests(num_pages, num_requests, seed);
            &&& requests.len() == num_requests
            &&& requests[0] == 0
            &&& requests[k] < num_pages
            &&& k + 1 < num_requests ==> requests[k + 1] == if requests[k] + 1 == num_pages {
                0
            } else {
                requests[k] + 1
            }
        }),
{
    let n = num_pages as int;
    vstd::arithmetic::div_mod::lemma_small_mod(0, num_pages as nat);
    vstd::arithmetic::div_mod::lemma_fundamental_div_mod(k, n);
    vstd::arithmetic::div_mod::lemma_mod_bound(k, n);
    let (q, r) = (k / n, k % n);
    if r + 1 == n {
        assert(k + 1 == n * (q + 1) + 0) by (nonlinear_arith)
            requires
                k == n * q + r,
                r + 1 == n,
        ;
        vstd::arithmetic::div_mod::lemma_fundamental_div_mod_converse(k + 1, n, q + 1, 0);
    } else {
        assert(k + 1 == n * q + (r + 1));
        assert(n * q == q * n) by (nonlinear_arith);
        vstd::arithmetic::div_mod::lemma_fundamental_div_mod_converse(k + 1, n, q, r + 1);
    }
}

} // verus!
