//! Arrival schedules: the offsets from the start of a run at which requests
//! are issued. All offsets are in nanoseconds.

use crate::arith::{lemma_div_below, wide_mul};
use vstd::prelude::*;

verus! {

/// The number of nanoseconds in a second.
pub const NANOS_PER_SEC: u64 = 1_000_000_000;

/// The highest rate, in requests per second, that a schedule can hold apart:
/// above it two arrivals would share a nanosecond.
pub const MAX_RATE: u64 = 1_000_000_000;

/// Offset `k` of a constant-rate schedule: `k / rate` seconds, rounded down to
/// a whole nanosecond.
pub open spec fn arrival_offset(rate: nat, k: nat) -> nat
    recommends
        rate > 0,
{
    k * NANOS_PER_SEC as nat / rate
}

/// The number of arrivals of a constant-rate schedule that lie before
/// `duration`: `duration * rate / NANOS_PER_SEC` requests, rounded up to a
/// whole request.
pub open spec fn arrival_count(duration: nat, rate: nat) -> nat {
    (duration * rate + (NANOS_PER_SEC - 1)) as nat / NANOS_PER_SEC as nat
}

/// Offset `k` lies before `duration` exactly for the first
/// `arrival_count(duration, rate)` arrivals.
pub proof fn lemma_arrival_in_run(duration: nat, rate: nat, k: nat)
    requires
        rate > 0,
    ensures
        arrival_offset(rate, k) < duration <==> k < arrival_count(duration, rate),
{
    let unit = NANOS_PER_SEC as int;
    let work = (duration * rate) as int;
    assert(0 <= work) by (nonlinear_arith)
        requires
            work == duration * rate,
    ;
    lemma_div_below(k * unit, rate as int, duration as int);
    // k < ceil(work / unit)  <==>  k * unit < work
    lemma_div_below(work + unit - 1, unit, k as int + 1);
    lemma_div_below(work + unit - 1, unit, k as int);
    assert((k + 1) * unit == k * unit + unit) by (nonlinear_arith);
    let count = arrival_count(duration, rate) as int;
    if k < count {
        // count > k, so the rounded-up quotient is not below k + 1
        assert(!(count < k + 1));
        assert(work + unit - 1 >= (k + 1) * unit);
    } else {
        assert(count < k + 1);
        assert(work + unit - 1 < (k + 1) * unit);
    }
}

/// Later arrivals have strictly later offsets, at any rate up to `MAX_RATE`.
pub proof fn lemma_arrivals_increase(rate: nat, j: nat, k: nat)
    requires
        0 < rate <= MAX_RATE,
        j < k,
    ensures
        arrival_offset(rate, j) < arrival_offset(rate, k),
{
    let unit = NANOS_PER_SEC as int;
    let x = j * unit;
    let y = k * unit;
    assert(y >= x + unit) by (nonlinear_arith)
        requires
            x == j * unit,
            y == k * unit,
            j + 1 <= k,
            unit >= 0,
    ;
    let bound = y / (rate as int);
    // x / rate < bound  <==>  x < bound * rate
    lemma_div_below(x, rate as int, bound);
    vstd::arithmetic::div_mod::lemma_fundamental_div_mod(y, rate as int);
    vstd::arithmetic::div_mod::lemma_mod_bound(y, rate as int);
    assert(bound * rate == rate * bound) by (nonlinear_arith);
}

/// The number of arrivals is the product of duration and rate in requests,
/// rounded up: it is the product itself where that is whole, and otherwise
/// one more than the product rounded down.
pub proof fn lemma_arrival_count_near_product(duration: nat, rate: nat)
    ensures
        (duration * rate) / NANOS_PER_SEC as nat <= arrival_count(duration, rate) <= (duration
            * rate) / NANOS_PER_SEC as nat + 1,
        (duration * rate) % NANOS_PER_SEC as nat == 0 ==> arrival_count(duration, rate) == (
        duration * rate) / NANOS_PER_SEC as nat,
{
}

/// A run of whole seconds holds exactly `rate` arrivals per second.
pub proof fn lemma_arrival_count_whole_seconds(seconds: nat, rate: nat)
    ensures
        arrival_count(seconds * NANOS_PER_SEC as nat, rate) == seconds * rate,
{
    let unit = NANOS_PER_SEC as nat;
    let product = seconds * rate;
    assert((seconds * unit) * rate == product * unit) by (nonlinear_arith)
        requires
            product == seconds * rate,
    ;
    assert((product * unit + (unit - 1)) as nat / unit == product) by {
        vstd::arithmetic::div_mod::lemma_fundamental_div_mod_converse(
            (product * unit + (unit - 1)) as int,
            unit as int,
            product as int,
            (unit - 1) as int,
        );
    }
}

/// The constant-rate schedule of a run holds as many offsets as the product of
/// duration and rate says, to within one; every offset lies before the end of
/// the run; and the offsets strictly increase.
pub proof fn lemma_constant_rate_schedule(duration: nat, rate: nat)
    requires
        0 < rate <= MAX_RATE,
    ensures
        (duration * rate) / NANOS_PER_SEC as nat <= arrival_count(duration, rate) <= (duration
            * rate) / NANOS_PER_SEC as nat + 1,
        forall|k: nat|
            k < arrival_count(duration, rate) ==> #[trigger] arrival_offset(rate, k) < duration,
        forall|j: nat, k: nat|
            j < k ==> #[trigger] arrival_offset(rate, j) < #[trigger] arrival_offset(rate, k),
{
    lemma_arrival_count_near_product(duration, rate);
    assert forall|k: nat| k < arrival_count(duration, rate) implies #[trigger] arrival_offset(
        rate,
        k,
    ) < duration by {
        lemma_arrival_in_run(duration, rate, k);
    }
    assert forall|j: nat, k: nat| j < k implies #[trigger] arrival_offset(rate, j)
        < #[trigger] arrival_offset(rate, k) by {
        lemma_arrivals_increase(rate, j, k);
    }
}

/// The generator of a constant-rate schedule: arrival `k` is due `k / rate`
/// seconds after the start, for as long as that lies before the duration.
pub struct ConstGen {
    duration: u64,
    rate: u64,
    issued: u64,
    expected: u64,
}

impl ConstGen {
    #[verifier::type_invariant]
    spec fn well_formed(self) -> bool {
        &&& 0 < self.rate <= MAX_RATE
        &&& self.expected == arrival_count(self.duration as nat, self.rate as nat)
        &&& self.expected <= usize::MAX
        &&& self.issued <= self.expected
    }

    /// The length of the run, in nanoseconds.
    pub closed spec fn duration(self) -> nat {
        self.duration as nat
    }

    /// The rate, in requests per second.
    pub closed spec fn rate(self) -> nat {
        self.rate as nat
    }

    /// The number of offsets handed out so far.
    pub closed spec fn issued(self) -> nat {
        self.issued as nat
    }

    /// Whether a constant-rate schedule can be generated for these settings:
    /// the rate is positive and at most `MAX_RATE`, and the number of arrivals
    /// fits in `usize`.
    pub open spec fn valid_config(duration: u64, rate: u64) -> bool {
        &&& 0 < rate <= MAX_RATE
        &&& arrival_count(duration as nat, rate as nat) <= usize::MAX
    }

    /// Tells whether `new` may be called with these settings.
    pub fn accepts(duration: u64, rate: u64) -> (ok: bool)
        ensures
            ok == Self::valid_config(duration, rate),
    {
        if rate == 0 || rate > MAX_RATE {
            return false;
        }
        let count: u128 = (wide_mul(duration, rate) + (NANOS_PER_SEC as u128 - 1))
            / NANOS_PER_SEC as u128;
        count <= usize::MAX as u128
    }

    /// Starts a schedule of `rate` requests per second that runs for `duration`
    /// nanoseconds.
    pub fn new(duration: u64, rate: u64) -> (gen: Self)
        requires
            Self::valid_config(duration, rate),
        ensures
            gen.duration() == duration,
            gen.rate() == rate,
            gen.issued() == 0,
    {
        let count: u128 = (wide_mul(duration, rate) + (NANOS_PER_SEC as u128 - 1))
            / NANOS_PER_SEC as u128;
        Self { duration, rate, issued: 0, expected: count as u64 }
    }

    /// The number of offsets that the whole schedule holds.
    pub fn expected_len(&self) -> (len: usize)
        ensures
            len == arrival_count(self.duration(), self.rate()),
    {
        proof {
            use_type_invariant(self);
        }
        self.expected as usize
    }

    /// Hands out the next offset of the schedule, or `None` once every offset
    /// before the duration has been handed out.
    pub fn next(&mut self) -> (offset: Option<u64>)
        ensures
            final(self).duration() == old(self).duration(),
            final(self).rate() == old(self).rate(),
            old(self).issued() < arrival_count(old(self).duration(), old(self).rate()) ==> {
                &&& offset == Some(arrival_offset(old(self).rate(), old(self).issued()) as u64)
                &&& arrival_offset(old(self).rate(), old(self).issued()) < old(self).duration()
                &&& final(self).issued() == old(self).issued() + 1
            },
            old(self).issued() >= arrival_count(old(self).duration(), old(self).rate()) ==> {
                &&& offset.is_none()
                &&& final(self).issued() == old(self).issued()
            },
    {
        proof {
            use_type_invariant(&*self);
        }
        if self.issued < self.expected {
            proof {
                lemma_arrival_in_run(self.duration as nat, self.rate as nat, self.issued as nat);
            }
            let due: u128 = wide_mul(self.issued, NANOS_PER_SEC) / self.rate as u128;
            self.issued = self.issued + 1;
            Some(due as u64)
        } else {
            None
        }
    }
}

/// The generator of a schedule with random gaps: each arrival follows the one
/// before it after a gap that the caller has drawn, and the schedule ends
/// with the first arrival that would not lie before the duration.
pub struct ExpGen {
    duration: u64,
    now: u64,
    closed: bool,
}

impl ExpGen {
    /// The length of the run, in nanoseconds.
    pub closed spec fn duration(self) -> nat {
        self.duration as nat
    }

    /// The offset of the last arrival, or 0 before the first.
    pub closed spec fn now(self) -> nat {
        self.now as nat
    }

    /// Whether the schedule has ended.
    pub closed spec fn closed(self) -> bool {
        self.closed
    }

    /// Starts a schedule that runs for `duration` nanoseconds.
    pub fn new(duration: u64) -> (gen: Self)
        ensures
            gen.duration() == duration,
            gen.now() == 0,
            !gen.closed(),
    {
        Self { duration, now: 0, closed: false }
    }

    /// Takes the next gap, in nanoseconds, and hands out the offset of the
    /// arrival that follows the last one after that gap. Once an arrival
    /// would not lie before the duration the schedule has ended, and no gap
    /// brings another arrival.
    pub fn push_gap(&mut self, gap: u64) -> (offset: Option<u64>)
        ensures
            final(self).duration() == old(self).duration(),
            !old(self).closed() && old(self).now() + gap < old(self).duration() ==> {
                &&& offset == Some((old(self).now() + gap) as u64)
                &&& final(self).now() == old(self).now() + gap
                &&& !final(self).closed()
            },
            old(self).closed() || old(self).now() + gap >= old(self).duration() ==> {
                &&& offset.is_none()
                &&& final(self).now() == old(self).now()
                &&& final(self).closed()
            },
    {
        if self.closed {
            return None;
        }
        match self.now.checked_add(gap) {
            Some(due) => {
                if due < self.duration {
                    self.now = due;
                    Some(due)
                } else {
                    self.closed = true;
                    None
                }
            },
            None => {
                self.closed = true;
                None
            },
        }
    }
}

} // verus!
