//! Latencies: the clock they are read from and the histogram they are kept in.

use hdrhistogram::errors::{CreationError, RecordError};
use hdrhistogram::Histogram;
use vstd::multiset::Multiset;
use vstd::prelude::*;

verus! {

/// The shortest latency that a histogram of latencies tells from none, in
/// nanoseconds.
pub const LOWEST_LATENCY: u64 = 1;

/// The longest latency that a histogram of latencies is sure to take, in
/// nanoseconds: one minute.
pub const HIGHEST_LATENCY: u64 = 60_000_000_000;

/// The number of decimal digits to which a histogram of latencies is exact.
pub const LATENCY_DIGITS: u8 = 3;

/// A point in time, as the system's monotonic clock gives it.
#[verifier::external_type_specification]
#[verifier::external_body]
pub struct ExInstant(std::time::Instant);

/// Why `Histogram::new_with_bounds` refuses its bounds.
#[verifier::external_type_specification]
#[verifier::external_body]
pub struct ExCreationError(hdrhistogram::errors::CreationError);

/// Why `Histogram::record` refuses a value.
#[verifier::external_type_specification]
#[verifier::external_body]
pub struct ExRecordError(hdrhistogram::errors::RecordError);

/// `Instant::now` reads the clock. Nothing is promised of the time.
pub assume_specification[ std::time::Instant::now ]() -> std::time::Instant;

/// `Instant::elapsed` reads the clock again. Nothing is promised of the time that
/// has passed.
pub assume_specification[ std::time::Instant::elapsed ](
    start: &std::time::Instant,
) -> std::time::Duration;

/// `Duration::as_nanos` counts the nanoseconds of a duration. Nothing is promised of
/// their number, as nothing is known of the duration.
pub assume_specification[ std::time::Duration::as_nanos ](duration: &std::time::Duration) -> u128;

/// A histogram of latencies. It keeps one count for each run of neighbouring values
/// that it does not tell apart.
#[verifier::external_body]
pub struct LatencyHistogram {
    counts: Histogram<u64>,
}

/// What a histogram has counted: for each of its counts, as many copies of the
/// lowest value that belongs to the count.
pub uninterp spec fn recorded(histogram: LatencyHistogram) -> Multiset<u64>;

/// The bounds that a histogram was made with: the lowest value that it tells from
/// zero, the highest that it is sure to take, and the number of exact digits.
pub uninterp spec fn bounds(histogram: LatencyHistogram) -> (u64, u64, u8);

/// The number of neighbouring values that a histogram of latencies counts together with
/// `nanos`. Values of up to 11 bits are told apart; each further bit doubles the number.
pub open spec fn granule(nanos: u64) -> nat
    decreases nanos,
{
    if nanos < 2048 {
        1
    } else {
        2 * granule(nanos / 2)
    }
}

/// The lowest value that a histogram of latencies counts together with `nanos`: its 11
/// highest bits, followed by zeroes.
pub open spec fn slot(nanos: u64) -> u64 {
    (nanos - nanos as nat % granule(nanos)) as u64
}

/// Whether a histogram of latencies takes `nanos`: it covers the values below the least
/// power of two above its highest latency.
pub open spec fn in_range(nanos: u64) -> bool {
    nanos < 0x10_0000_0000
}

/// `Histogram::new_with_bounds` makes a histogram that has counted nothing. It takes
/// a lowest value from 1 on, a highest value of at least twice that, and up to five
/// digits; for a lowest value below 2^32 nothing else can stop it.
#[verifier::external_body]
fn new_with_bounds(low: u64, high: u64, digits: u8) -> (r: Result<LatencyHistogram, CreationError>)
    ensures
        r matches Ok(histogram) ==> {
            &&& recorded(histogram) == Multiset::<u64>::empty()
            &&& bounds(histogram) == (low, high, digits)
            &&& 1 <= low && 2 * low <= high && digits <= 5
        },
        1 <= low <= u32::MAX && 2 * low <= high && digits <= 5 ==> r is Ok,
{
    Ok(LatencyHistogram { counts: Histogram::<u64>::new_with_bounds(low, high, digits)? })
}

/// `Histogram::record`, on a histogram with the bounds for latencies, counts a value once,
/// at the lowest value that belongs with it. It takes the values below 2^36; for any other
/// it returns an error and counts nothing. A count stops growing at the greatest `u64`.
#[verifier::external_body]
fn record(histogram: &mut LatencyHistogram, value: u64) -> (r: Result<(), RecordError>)
    requires
        bounds(*old(histogram)) == (LOWEST_LATENCY, HIGHEST_LATENCY, LATENCY_DIGITS),
    ensures
        bounds(*final(histogram)) == bounds(*old(histogram)),
        r is Ok <==> in_range(value),
        r is Ok && recorded(*old(histogram)).len() < u64::MAX ==> recorded(*final(histogram))
            == recorded(*old(histogram)).insert(slot(value)),
        r is Err ==> recorded(*final(histogram)) == recorded(*old(histogram)),
{
    histogram.counts.record(value)
}

/// `Histogram::iter_recorded`, on a histogram with the bounds for latencies, gives each
/// count that is not zero, in ascending order, with the highest value that belongs to it.
#[verifier::external_body]
fn iter_recorded(histogram: &LatencyHistogram) -> (counts: Vec<(u64, u64)>)
    requires
        bounds(*histogram) == (LOWEST_LATENCY, HIGHEST_LATENCY, LATENCY_DIGITS),
    ensures
        forall|i: int, j: int|
            0 <= i < j < counts@.len() ==> (#[trigger] counts@[i]).0 < (#[trigger] counts@[j]).0,
        forall|i: int|
            0 <= i < counts@.len() ==> {
                &&& (#[trigger] counts@[i]).0 == slot(counts@[i].0) + granule(counts@[i].0) - 1
                &&& counts@[i].1 > 0
                &&& counts@[i].1 == recorded(*histogram).count(slot(counts@[i].0))
            },
        forall|value: u64| #[trigger]
            recorded(*histogram).count(value) > 0 ==> exists|i: int|
                0 <= i < counts@.len() && slot((#[trigger] counts@[i]).0) == value,
{
    histogram.counts.iter_recorded().map(|v| (v.value_iterated_to(), v.count_at_value())).collect()
}

/// A latency that a histogram could not take.
#[derive(Clone, Copy, Debug, PartialEq, Eq, Structural)]
pub struct LatencyOutOfRange {
    pub nanos: u64,
}

impl LatencyHistogram {
    /// A histogram of latencies up to a minute, which has counted nothing.
    pub fn new() -> (histogram: Self)
        ensures
            recorded(histogram) == Multiset::<u64>::empty(),
            histogram.wf(),
    {
        new_with_bounds(LOWEST_LATENCY, HIGHEST_LATENCY, LATENCY_DIGITS).unwrap()
    }

    /// Counts one latency. One that is out of range is handed back as an error, and
    /// is not counted; that can only be one of more than a minute.
    pub fn record(&mut self, nanos: u64) -> (r: Result<(), LatencyOutOfRange>)
        requires
            old(self).wf(),
        ensures
            final(self).wf(),
            r == if in_range(nanos) {
                Ok(())
            } else {
                Err(LatencyOutOfRange { nanos })
            },
            nanos <= HIGHEST_LATENCY ==> r is Ok,
            r is Ok && recorded(*old(self)).len() < u64::MAX ==> recorded(*final(self)) == recorded(
                *old(self),
            ).insert(slot(nanos)),
            r is Err ==> recorded(*final(self)) == recorded(*old(self)),
    {
        match record(self, nanos) {
            Ok(()) => Ok(()),
            Err(_) => Err(LatencyOutOfRange { nanos }),
        }
    }

    /// The histogram was made for latencies up to a minute.
    pub open spec fn wf(self) -> bool {
        bounds(self) == (LOWEST_LATENCY, HIGHEST_LATENCY, LATENCY_DIGITS)
    }

    /// The latencies counted, in ascending order, each with its count. A latency that
    /// stands for several is the highest of them.
    pub fn counts(&self) -> (counts: Vec<(u64, u64)>)
        requires
            self.wf(),
        ensures
            forall|i: int, j: int|
                0 <= i < j < counts@.len() ==> (#[trigger] counts@[i]).0 < (#[trigger] counts@[j]).0,
            forall|i: int|
                0 <= i < counts@.len() ==> {
                    &&& (#[trigger] counts@[i]).0 == slot(counts@[i].0) + granule(counts@[i].0) - 1
                    &&& counts@[i].1 > 0
                    &&& counts@[i].1 == recorded(*self).count(slot(counts@[i].0))
                },
            forall|value: u64| #[trigger]
                recorded(*self).count(value) > 0 ==> exists|i: int|
                    0 <= i < counts@.len() && slot((#[trigger] counts@[i]).0) == value,
    {
        iter_recorded(self)
    }
}

/// Latencies are counted to three digits: what a latency is counted at is never above it,
/// nor below it by more than a thousandth; latencies that are counted together have no
/// other one between them; and a latency below 2048 nanoseconds is counted at itself.
pub proof fn law_latencies_are_exact_to_three_digits(nanos: u64, longer: u64)
    ensures
        slot(nanos) <= nanos,
        (nanos - slot(nanos)) * 1000 <= nanos,
        nanos < 2048 ==> slot(nanos) == nanos,
        nanos <= longer ==> slot(nanos) <= slot(longer),
        slot(slot(nanos)) == slot(nanos),
{
    lemma_slot(nanos);
    if nanos <= longer {
        lemma_slot_grows(nanos, longer);
    }
    lemma_slot_again(nanos);
}

/// Halving a long latency halves what it is counted at.
proof fn lemma_slot_doubles(nanos: u64)
    requires
        nanos >= 2048,
    ensures
        slot(nanos) == 2 * slot(nanos / 2),
        granule(nanos) == 2 * granule(nanos / 2),
        granule(nanos) > 0,
{
    let half = nanos / 2;
    lemma_granule_positive(half);
    let (n, m, h) = (nanos as int, half as int, granule(half) as int);
    let bit = n - 2 * m;
    vstd::arithmetic::div_mod::lemma_fundamental_div_mod(m, h);
    vstd::arithmetic::div_mod::lemma_mod_bound(m, h);
    let (q, r) = (m / h, m % h);
    assert(n == q * (2 * h) + (2 * r + bit)) by (nonlinear_arith)
        requires
            m == h * q + r,
            n == 2 * m + bit,
    ;
    vstd::arithmetic::div_mod::lemma_fundamental_div_mod_converse(n, 2 * h, q, 2 * r + bit);
    assert(0 <= h * q) by (nonlinear_arith)
        requires
            0 <= q,
            0 < h,
    ;
}

proof fn lemma_granule_positive(nanos: u64)
    ensures
        granule(nanos) > 0,
    decreases nanos,
{
    if nanos >= 2048 {
        lemma_granule_positive(nanos / 2);
    }
}

proof fn lemma_slot(nanos: u64)
    ensures
        slot(nanos) <= nanos < slot(nanos) + granule(nanos),
        nanos < 2048 ==> slot(nanos) == nanos,
        nanos >= 1024 ==> 1024 * granule(nanos) <= nanos,
        nanos >= 2048 ==> slot(nanos) >= 2048,
    decreases nanos,
{
    if nanos >= 2048 {
        lemma_slot(nanos / 2);
        lemma_slot_doubles(nanos);
    } else {
        assert(nanos as nat % 1 == 0);
    }
}

proof fn lemma_slot_grows(nanos: u64, longer: u64)
    requires
        nanos <= longer,
    ensures
        slot(nanos) <= slot(longer),
    decreases longer,
{
    lemma_slot(nanos);
    lemma_slot(longer);
    if nanos >= 2048 {
        lemma_slot_doubles(nanos);
        lemma_slot_doubles(longer);
        lemma_slot_grows(nanos / 2, longer / 2);
    }
}

proof fn lemma_slot_again(nanos: u64)
    ensures
        slot(slot(nanos)) == slot(nanos),
    decreases nanos,
{
    lemma_slot(nanos);
    if nanos >= 2048 {
        lemma_slot_doubles(nanos);
        lemma_slot_doubles(slot(nanos));
        lemma_slot_again(nanos / 2);
    }
}

} // verus!
