//! Schedules whose rate changes from one second to the next: a warm-up ramp
//! followed by the steady rate.

use crate::arith::wide_mul;
use crate::generator::{
    arrival_offset, lemma_arrival_in_run, lemma_arrivals_increase, MAX_RATE, NANOS_PER_SEC,
};
use vstd::prelude::*;

verus! {

/// By how much the rate grows in each second of the warm-up.
pub const RATE_INC_PER_SEC: u64 = 1000;

/// The number of requests that a list of per-second rates asks for.
pub open spec fn rate_sum(rates: Seq<u64>) -> nat
    decreases rates.len(),
{
    if rates.len() == 0 {
        0
    } else {
        rate_sum(rates.drop_last()) + rates.last() as nat
    }
}

/// The second in which arrival `k` falls: the last second before which fewer
/// than `k + 1` requests were asked for.
pub open spec fn ramp_second(rates: Seq<u64>, k: nat) -> nat
    recommends
        k < rate_sum(rates),
    decreases rates.len(),
{
    if rates.len() == 0 {
        0
    } else if k >= rate_sum(rates.drop_last()) {
        (rates.len() - 1) as nat
    } else {
        ramp_second(rates.drop_last(), k)
    }
}

/// The offset of the arrival with number `slot` inside second `second`: the
/// arrivals of a second are spread over it at that second's rate.
pub open spec fn slot_offset(rates: Seq<u64>, second: nat, slot: nat) -> nat
    recommends
        second < rates.len(),
        slot < rates[second as int],
{
    second * NANOS_PER_SEC as nat + arrival_offset(rates[second as int] as nat, slot)
}

/// Offset `k` of the ramped schedule.
pub open spec fn ramp_arrival(rates: Seq<u64>, k: nat) -> nat
    recommends
        k < rate_sum(rates),
{
    let second = ramp_second(rates, k);
    slot_offset(rates, second, (k - rate_sum(rates.take(second as int))) as nat)
}

/// Whether a ramped schedule can be generated from `rates`: no rate is above
/// `MAX_RATE`, every offset fits in 64 bits, and the number of arrivals fits in
/// `usize`.
pub open spec fn valid_rates(rates: Seq<u64>) -> bool {
    &&& forall|s: int| 0 <= s < rates.len() ==> #[trigger] rates[s] <= MAX_RATE
    &&& rates.len() * NANOS_PER_SEC as nat <= u64::MAX
    &&& rate_sum(rates) <= usize::MAX
}

/// A longer prefix of the rates asks for at least as many requests.
pub proof fn lemma_rate_sum_prefix(rates: Seq<u64>, a: int, b: int)
    requires
        0 <= a <= b <= rates.len(),
    ensures
        rate_sum(rates.take(a)) <= rate_sum(rates.take(b)),
        b == rates.len() ==> rate_sum(rates.take(b)) == rate_sum(rates),
    decreases b - a,
{
    if b == rates.len() {
        assert(rates.take(b) =~= rates);
    }
    if a < b {
        assert(rates.take(b).drop_last() =~= rates.take(b - 1));
        lemma_rate_sum_prefix(rates, a, b - 1);
    }
}

/// One more second adds that second's rate.
pub proof fn lemma_rate_sum_step(rates: Seq<u64>, s: int)
    requires
        0 <= s < rates.len(),
    ensures
        rate_sum(rates.take(s + 1)) == rate_sum(rates.take(s)) + rates[s],
{
    assert(rates.take(s + 1).drop_last() =~= rates.take(s));
}

/// An arrival whose number lies between the cumulative rates before and after
/// second `s` falls in second `s`.
pub proof fn lemma_ramp_second_found(rates: Seq<u64>, s: int, k: nat)
    requires
        0 <= s < rates.len(),
        rate_sum(rates.take(s)) <= k < rate_sum(rates.take(s + 1)),
    ensures
        ramp_second(rates, k) == s,
    decreases rates.len(),
{
    let front = rates.drop_last();
    assert(front =~= rates.take(rates.len() - 1));
    if s == rates.len() - 1 {
    } else {
        lemma_rate_sum_prefix(rates, s + 1, rates.len() - 1);
        assert(front.take(s) =~= rates.take(s));
        assert(front.take(s + 1) =~= rates.take(s + 1));
        lemma_ramp_second_found(front, s, k);
    }
}

/// Every arrival of the schedule falls in a second of the plan, after the
/// requests of the seconds before it and among those of its own second.
pub proof fn lemma_ramp_second_bounds(rates: Seq<u64>, k: nat)
    requires
        k < rate_sum(rates),
    ensures
        ramp_second(rates, k) < rates.len(),
        rate_sum(rates.take(ramp_second(rates, k) as int)) <= k,
        k < rate_sum(rates.take(ramp_second(rates, k) as int + 1)),
    decreases rates.len(),
{
    if rates.len() > 0 {
        let front = rates.drop_last();
        assert(front =~= rates.take(rates.len() - 1));
        if k >= rate_sum(front) {
            lemma_rate_sum_prefix(rates, rates.len() as int, rates.len() as int);
        } else {
            lemma_ramp_second_bounds(front, k);
            let s = ramp_second(front, k) as int;
            assert(front.take(s) =~= rates.take(s));
            assert(front.take(s + 1) =~= rates.take(s + 1));
        }
    }
}

/// The arrival with number `k` is due within the second that the cumulative
/// rates assign to it.
pub proof fn lemma_ramp_arrival_in_second(rates: Seq<u64>, k: nat)
    requires
        k < rate_sum(rates),
    ensures
        ramp_second(rates, k) * NANOS_PER_SEC as nat <= ramp_arrival(rates, k),
        ramp_arrival(rates, k) < (ramp_second(rates, k) + 1) * NANOS_PER_SEC as nat,
{
    lemma_ramp_second_bounds(rates, k);
    let s = ramp_second(rates, k) as int;
    lemma_rate_sum_step(rates, s);
    let slot = (k - rate_sum(rates.take(s))) as nat;
    let rate = rates[s] as nat;
    // within a second of `rate` requests, the first `rate` arrivals lie before its end
    crate::generator::lemma_arrival_count_whole_seconds(1, rate);
    assert(1 * NANOS_PER_SEC as nat == NANOS_PER_SEC as nat);
    assert(1 * rate == rate);
    lemma_arrival_in_run(NANOS_PER_SEC as nat, rate, slot);
    assert((s + 1) * NANOS_PER_SEC as nat == s * NANOS_PER_SEC as nat + NANOS_PER_SEC as nat)
        by (nonlinear_arith);
}

/// Later arrivals of a ramped schedule have strictly later offsets.
pub proof fn lemma_ramp_arrivals_increase(rates: Seq<u64>, j: nat, k: nat)
    requires
        forall|s: int| 0 <= s < rates.len() ==> #[trigger] rates[s] <= MAX_RATE,
        j < k < rate_sum(rates),
    ensures
        ramp_arrival(rates, j) < ramp_arrival(rates, k),
{
    lemma_ramp_second_bounds(rates, j);
    lemma_ramp_second_bounds(rates, k);
    lemma_ramp_arrival_in_second(rates, j);
    lemma_ramp_arrival_in_second(rates, k);
    let sj = ramp_second(rates, j) as int;
    let sk = ramp_second(rates, k) as int;
    if sj == sk {
        let base = rate_sum(rates.take(sj));
        lemma_rate_sum_step(rates, sj);
        assert(rates[sj] <= MAX_RATE);
        lemma_arrivals_increase(rates[sj] as nat, (j - base) as nat, (k - base) as nat);
    } else if sj < sk {
        assert((sj + 1) * NANOS_PER_SEC as nat <= sk * NANOS_PER_SEC as nat) by (nonlinear_arith)
            requires
                sj + 1 <= sk,
        ;
    } else {
        // a later second cannot hold an earlier arrival
        lemma_rate_sum_prefix(rates, sk + 1, sj);
    }
}

/// A ramped schedule holds as many offsets as its rates add up to. Each
/// offset lies in the second whose cumulative rates enclose its number, and
/// the offsets strictly increase.
pub proof fn lemma_ramped_schedule(rates: Seq<u64>)
    requires
        forall|s: int| 0 <= s < rates.len() ==> #[trigger] rates[s] <= MAX_RATE,
    ensures
        forall|k: nat|
            k < rate_sum(rates) ==> {
                let second = #[trigger] ramp_second(rates, k);
                &&& second < rates.len()
                &&& rate_sum(rates.take(second as int)) <= k < rate_sum(rates.take(second as int + 1))
                &&& second * NANOS_PER_SEC as nat <= ramp_arrival(rates, k) < (second + 1)
                    * NANOS_PER_SEC as nat
            },
        forall|j: nat, k: nat|
            j < k < rate_sum(rates) ==> #[trigger] ramp_arrival(rates, j) < #[trigger] ramp_arrival(
                rates,
                k,
            ),
{
    assert forall|k: nat| k < rate_sum(rates) implies {
        let second = #[trigger] ramp_second(rates, k);
        &&& second < rates.len()
        &&& rate_sum(rates.take(second as int)) <= k < rate_sum(rates.take(second as int + 1))
        &&& second * NANOS_PER_SEC as nat <= ramp_arrival(rates, k) < (second + 1)
            * NANOS_PER_SEC as nat
    } by {
        lemma_ramp_second_bounds(rates, k);
        lemma_ramp_arrival_in_second(rates, k);
    }
    assert forall|j: nat, k: nat| j < k < rate_sum(rates) implies #[trigger] ramp_arrival(rates, j)
        < #[trigger] ramp_arrival(rates, k) by {
        lemma_ramp_arrivals_increase(rates, j, k);
    }
}

/// The number of seconds that the warm-up before a steady `rate` takes: one
/// for every multiple of `RATE_INC_PER_SEC` below the rate.
pub open spec fn warmup_seconds(rate: nat) -> nat {
    if rate == 0 {
        0
    } else {
        ((rate - 1) / RATE_INC_PER_SEC as int) as nat
    }
}

/// The rates of the warm-up: `RATE_INC_PER_SEC` in its first second, and
/// `RATE_INC_PER_SEC` more in each following second, as long as that stays
/// below the steady rate.
pub open spec fn warmup_ramp(rate: nat) -> Seq<u64> {
    Seq::new(warmup_seconds(rate), |s: int| ((s + 1) * RATE_INC_PER_SEC) as u64)
}

/// The number of requests that are issued during the warm-up.
pub open spec fn warmup_requests(rate: nat) -> nat {
    rate_sum(warmup_ramp(rate))
}

/// `seconds` seconds at one rate.
pub open spec fn steady_rates(rate: u64, seconds: nat) -> Seq<u64> {
    Seq::new(seconds, |s: int| rate)
}

/// The per-second rates of a whole run: the warm-up, if there is one, and then
/// the steady rate for each of the `seconds` of the measurement.
pub open spec fn rate_plan(rate: u64, seconds: nat, warmup: bool) -> Seq<u64> {
    (if warmup {
        warmup_ramp(rate as nat)
    } else {
        Seq::<u64>::empty()
    }) + steady_rates(rate, seconds)
}

/// The requests of two plans run one after the other add up.
pub proof fn lemma_rate_sum_concat(front: Seq<u64>, back: Seq<u64>)
    ensures
        rate_sum(front + back) == rate_sum(front) + rate_sum(back),
    decreases back.len(),
{
    if back.len() == 0 {
        assert(front + back =~= front);
    } else {
        assert((front + back).drop_last() =~= front + back.drop_last());
        lemma_rate_sum_concat(front, back.drop_last());
    }
}

/// `seconds` seconds at one rate ask for `seconds * rate` requests.
pub proof fn lemma_rate_sum_steady(rate: u64, seconds: nat)
    ensures
        rate_sum(steady_rates(rate, seconds)) == seconds * rate,
    decreases seconds,
{
    if seconds > 0 {
        let shorter = (seconds - 1) as nat;
        assert(steady_rates(rate, seconds).drop_last() =~= steady_rates(rate, shorter));
        lemma_rate_sum_steady(rate, shorter);
        assert(seconds * rate == shorter * rate + rate) by (nonlinear_arith)
            requires
                seconds == shorter + 1,
        ;
        assert(steady_rates(rate, seconds).last() == rate);
    } else {
        assert(seconds * rate == 0) by (nonlinear_arith)
            requires
                seconds == 0,
        ;
    }
}

/// The first `t` seconds of a warm-up ask for `500 * t * (t + 1)` requests.
pub proof fn lemma_warmup_prefix(rate: nat, t: nat)
    requires
        t <= warmup_seconds(rate),
        rate <= u64::MAX,
    ensures
        rate_sum(warmup_ramp(rate).take(t as int)) == 500 * (t * (t + 1)),
    decreases t,
{
    let ramp = warmup_ramp(rate);
    if t == 0 {
        assert(0 * (0 + 1) == 0) by (nonlinear_arith);
    } else {
        let before = (t - 1) as nat;
        lemma_warmup_prefix(rate, before);
        lemma_rate_sum_step(ramp, before as int);
        assert(t * RATE_INC_PER_SEC < rate) by (nonlinear_arith)
            requires
                rate > 0,
                t <= (rate - 1) / 1000,
                RATE_INC_PER_SEC == 1000,
        ;
        assert(ramp[before as int] == t * RATE_INC_PER_SEC);
        assert(500 * (t * (t + 1)) == 500 * (before * (before + 1)) + t * 1000)
            by (nonlinear_arith)
            requires
                before == t - 1,
        ;
    }
}

/// The requests of a warm-up, in closed form.
pub proof fn lemma_warmup_requests(rate: nat)
    requires
        rate <= u64::MAX,
    ensures
        warmup_requests(rate) == 500 * (warmup_seconds(rate) * (warmup_seconds(rate) + 1)),
{
    lemma_warmup_prefix(rate, warmup_seconds(rate));
    assert(warmup_ramp(rate).take(warmup_seconds(rate) as int) =~= warmup_ramp(rate));
}

/// Before a rate that a schedule can hold, the warm-up has fewer than a
/// million seconds, and its requests fit in 64 bits with room to spare.
pub proof fn lemma_warmup_fits(rate: nat)
    requires
        rate <= MAX_RATE,
    ensures
        warmup_seconds(rate) < 1_000_000,
        warmup_requests(rate) <= 500_000_000_000_000,
{
    lemma_warmup_requests(rate);
    let n = warmup_seconds(rate);
    assert(n * (n + 1) <= 1_000_000 * 1_000_000) by (nonlinear_arith)
        requires
            n + 1 <= 1_000_000,
    ;
}

/// A whole plan asks for the requests of its warm-up and `rate` requests for
/// each second of the measurement.
pub proof fn lemma_rate_plan_sum(rate: u64, seconds: nat, warmup: bool)
    ensures
        rate_sum(rate_plan(rate, seconds, warmup)) == (if warmup {
            warmup_requests(rate as nat)
        } else {
            0
        }) + seconds * rate,
{
    let front = if warmup {
        warmup_ramp(rate as nat)
    } else {
        Seq::<u64>::empty()
    };
    lemma_rate_sum_concat(front, steady_rates(rate, seconds));
    lemma_rate_sum_steady(rate, seconds);
}

/// The number of requests to discard as warm-up before a steady `rate`, or
/// none where the run has no warm-up.
pub fn num_warmup(rate: u64, warmup: bool) -> (count: u64)
    requires
        warmup ==> warmup_requests(rate as nat) <= u64::MAX,
    ensures
        count == if warmup {
            warmup_requests(rate as nat)
        } else {
            0
        },
{
    if !warmup || rate == 0 {
        proof {
            lemma_warmup_requests(rate as nat);
            assert(0 * (0 + 1) == 0) by (nonlinear_arith);
        }
        return 0;
    }
    let steps: u64 = (rate - 1) / RATE_INC_PER_SEC;
    proof {
        lemma_warmup_requests(rate as nat);
    }
    let pairs: u128 = wide_mul(steps, steps + 1);
    assert(500 * pairs <= u64::MAX);
    (500 * pairs) as u64
}

/// Builds the per-second rates of a run: see `rate_plan`.
pub fn plan_rates(rate: u64, seconds: u64, warmup: bool) -> (rates: Vec<u64>)
    requires
        rate_plan(rate, seconds as nat, warmup).len() <= usize::MAX,
    ensures
        rates@ == rate_plan(rate, seconds as nat, warmup),
{
    let mut rates: Vec<u64> = Vec::new();
    if warmup && rate > 0 {
        let steps: u64 = (rate - 1) / RATE_INC_PER_SEC;
        let mut s: u64 = 0;
        while s < steps
            invariant
                s <= steps,
                rate > 0,
                steps == warmup_seconds(rate as nat),
                rates@ == warmup_ramp(rate as nat).take(s as int),
            decreases steps - s,
        {
            assert((s + 1) * RATE_INC_PER_SEC < rate) by (nonlinear_arith)
                requires
                    rate > 0,
                    s + 1 <= (rate - 1) / 1000,
                    RATE_INC_PER_SEC == 1000,
            ;
            rates.push((s + 1) * RATE_INC_PER_SEC);
            s += 1;
            assert(rates@ =~= warmup_ramp(rate as nat).take(s as int));
        }
        assert(rates@ =~= warmup_ramp(rate as nat));
    }
    let ghost front = rates@;
    let mut t: u64 = 0;
    while t < seconds
        invariant
            t <= seconds,
            rates@ == front + steady_rates(rate, t as nat),
        decreases seconds - t,
    {
        rates.push(rate);
        t += 1;
        assert(rates@ =~= front + steady_rates(rate, t as nat));
    }
    assert(front =~= if warmup {
        warmup_ramp(rate as nat)
    } else {
        Seq::<u64>::empty()
    });
    rates
}

/// The generator of a ramped schedule: in second `s` of the run, `rates[s]`
/// requests are issued, evenly spread over that second.
pub struct RampGen {
    rates: Vec<u64>,
    total: u64,
    second: usize,
    slot: u64,
}

impl RampGen {
    #[verifier::type_invariant]
    spec fn well_formed(self) -> bool {
        &&& valid_rates(self.rates@)
        &&& self.total == rate_sum(self.rates@)
        &&& self.second <= self.rates.len()
        &&& self.second < self.rates.len() ==> self.slot < self.rates[self.second as int]
        &&& self.second == self.rates.len() ==> self.slot == 0
    }

    /// The per-second rates of the plan.
    pub closed spec fn rates(self) -> Seq<u64> {
        self.rates@
    }

    /// The number of offsets handed out so far: the requests of the seconds
    /// that are done, and those already issued in the current second.
    pub closed spec fn issued(self) -> nat {
        rate_sum(self.rates@.take(self.second as int)) + self.slot as nat
    }

    /// Tells whether `new` may be called with these rates.
    pub fn accepts(rates: &Vec<u64>) -> (ok: bool)
        ensures
            ok == valid_rates(rates@),
    {
        if rates.len() as u128 * NANOS_PER_SEC as u128 > u64::MAX as u128 {
            return false;
        }
        let mut sum: u128 = 0;
        let mut s: usize = 0;
        while s < rates.len()
            invariant
                s <= rates.len(),
                rates.len() * NANOS_PER_SEC as nat <= u64::MAX,
                sum == rate_sum(rates@.take(s as int)),
                sum <= usize::MAX,
                forall|i: int| 0 <= i < s ==> #[trigger] rates[i] <= MAX_RATE,
            decreases rates.len() - s,
        {
            proof {
                lemma_rate_sum_step(rates@, s as int);
                lemma_rate_sum_prefix(rates@, s as int + 1, rates.len() as int);
            }
            if rates[s] > MAX_RATE {
                return false;
            }
            sum = sum + rates[s] as u128;
            if sum > usize::MAX as u128 {
                return false;
            }
            s += 1;
        }
        proof {
            lemma_rate_sum_prefix(rates@, rates.len() as int, rates.len() as int);
        }
        true
    }

    /// Starts the schedule that issues `rates[s]` requests in second `s`.
    pub fn new(rates: Vec<u64>) -> (gen: Self)
        requires
            valid_rates(rates@),
        ensures
            gen.rates() == rates@,
            gen.issued() == 0,
    {
        let mut total: u64 = 0;
        let mut s: usize = 0;
        while s < rates.len()
            invariant
                s <= rates.len(),
                valid_rates(rates@),
                total == rate_sum(rates@.take(s as int)),
            decreases rates.len() - s,
        {
            proof {
                lemma_rate_sum_step(rates@, s as int);
                lemma_rate_sum_prefix(rates@, s as int + 1, rates.len() as int);
            }
            total = total + rates[s];
            s += 1;
        }
        proof {
            lemma_rate_sum_prefix(rates@, rates.len() as int, rates.len() as int);
        }
        let second = first_busy_second(&rates, 0);
        Self { rates, total, second, slot: 0 }
    }

    /// The number of offsets that the whole schedule holds: the sum of the
    /// per-second rates.
    pub fn expected_len(&self) -> (len: usize)
        ensures
            len == rate_sum(self.rates()),
    {
        proof {
            use_type_invariant(self);
        }
        self.total as usize
    }

    /// Hands out the next offset of the schedule, or `None` once the requests
    /// of every second have been handed out.
    pub fn next(&mut self) -> (offset: Option<u64>)
        ensures
            final(self).rates() == old(self).rates(),
            old(self).issued() < rate_sum(old(self).rates()) ==> {
                &&& offset == Some(ramp_arrival(old(self).rates(), old(self).issued()) as u64)
                &&& ramp_arrival(old(self).rates(), old(self).issued()) <= u64::MAX
                &&& final(self).issued() == old(self).issued() + 1
            },
            old(self).issued() >= rate_sum(old(self).rates()) ==> {
                &&& offset.is_none()
                &&& final(self).issued() == old(self).issued()
            },
    {
        proof {
            use_type_invariant(&*self);
            lemma_rate_sum_prefix(self.rates@, self.second as int, self.rates.len() as int);
        }
        if self.second >= self.rates.len() {
            return None;
        }
        let rate: u64 = self.rates[self.second];
        proof {
            let s = self.second as int;
            lemma_rate_sum_step(self.rates@, s);
            lemma_rate_sum_prefix(self.rates@, s + 1, self.rates.len() as int);
            lemma_ramp_second_found(self.rates@, s, self.issued());
            lemma_ramp_arrival_in_second(self.rates@, self.issued());
            assert((s + 1) * NANOS_PER_SEC as nat <= self.rates.len() * NANOS_PER_SEC as nat)
                by (nonlinear_arith)
                requires
                    s + 1 <= self.rates.len(),
            ;
            assert(s * NANOS_PER_SEC as nat <= (s + 1) * NANOS_PER_SEC as nat)
                by (nonlinear_arith);
        }
        let within: u128 = wide_mul(self.slot, NANOS_PER_SEC) / rate as u128;
        let start: u64 = self.second as u64 * NANOS_PER_SEC;
        let due: u64 = start + within as u64;
        if self.slot + 1 < rate {
            self.slot = self.slot + 1;
        } else {
            let next = first_busy_second(&self.rates, self.second + 1);
            self.slot = 0;
            self.second = next;
        }
        Some(due)
    }
}

/// The first second at or after `from` in which any request is issued, or the
/// number of seconds if there is none.
fn first_busy_second(rates: &Vec<u64>, from: usize) -> (second: usize)
    requires
        from <= rates.len(),
    ensures
        from <= second <= rates.len(),
        second < rates.len() ==> rates[second as int] > 0,
        rate_sum(rates@.take(second as int)) == rate_sum(rates@.take(from as int)),
{
    let mut second: usize = from;
    while second < rates.len() && rates[second] == 0
        invariant
            from <= second <= rates.len(),
            rate_sum(rates@.take(second as int)) == rate_sum(rates@.take(from as int)),
        decreases rates.len() - second,
    {
        proof {
            lemma_rate_sum_step(rates@, second as int);
        }
        second += 1;
    }
    second
}

} // verus!
