//! Choosing between the hot and the cold instance of the target.
//!
//! A fixed share of the requests goes to the hot instance. The share is kept
//! exactly, not on average: a counter gathers the share with every request,
//! and whenever it reaches one whole request that request is sent hot.

use vstd::prelude::*;

verus! {

/// The denominator of a share: shares are counted in millionths.
pub const HOT_SCALE: u64 = 1_000_000;

/// Whether the request is routed hot when the counter stands at `counter`
/// before it: the counter, with the share added, reaches a whole request.
pub open spec fn routes_hot(share: nat, counter: nat) -> bool {
    counter + share >= HOT_SCALE
}

/// Where the counter stands after one request.
pub open spec fn next_counter(share: nat, counter: nat) -> nat {
    if routes_hot(share, counter) {
        (counter + share - HOT_SCALE) as nat
    } else {
        counter + share
    }
}

/// Where the counter stands after `requests` requests.
pub open spec fn counter_after(share: nat, counter: nat, requests: nat) -> nat
    decreases requests,
{
    if requests == 0 {
        counter
    } else {
        next_counter(share, counter_after(share, counter, (requests - 1) as nat))
    }
}

/// How many of the next `requests` requests are routed hot.
pub open spec fn hot_count(share: nat, counter: nat, requests: nat) -> nat
    decreases requests,
{
    if requests == 0 {
        0
    } else {
        hot_count(share, counter, (requests - 1) as nat) + if routes_hot(
            share,
            counter_after(share, counter, (requests - 1) as nat),
        ) {
            1nat
        } else {
            0nat
        }
    }
}

/// The counter never reaches a whole request, and what it holds is what the
/// requests so far have gathered and not yet spent: every hot request took one
/// whole request out of it.
pub proof fn lemma_counter_balance(share: nat, counter: nat, requests: nat)
    requires
        share <= HOT_SCALE,
        counter < HOT_SCALE,
    ensures
        counter_after(share, counter, requests) < HOT_SCALE,
        hot_count(share, counter, requests) * HOT_SCALE + counter_after(share, counter, requests)
            == counter + requests * share,
    decreases requests,
{
    if requests > 0 {
        let before = (requests - 1) as nat;
        lemma_counter_balance(share, counter, before);
        assert(requests * share == before * share + share) by (nonlinear_arith)
            requires
                requests == before + 1,
        ;
        let hot_before = hot_count(share, counter, before);
        assert((hot_before + 1) * HOT_SCALE == hot_before * HOT_SCALE + HOT_SCALE)
            by (nonlinear_arith);
    } else {
        assert(requests * share == 0) by (nonlinear_arith)
            requires
                requests == 0,
        ;
    }
}

/// The share that was asked for is the share that is routed hot, to within
/// one request: over any `requests` requests the number of hot ones differs
/// from `requests * share / HOT_SCALE` by less than one, whatever the counter
/// held at the start.
pub proof fn lemma_hot_share_exact(share: nat, counter: nat, requests: nat)
    requires
        share <= HOT_SCALE,
        counter < HOT_SCALE,
    ensures
        hot_count(share, counter, requests) * HOT_SCALE - requests * share < HOT_SCALE,
        requests * share - hot_count(share, counter, requests) * HOT_SCALE < HOT_SCALE,
        hot_count(share, counter, requests) == (counter + requests * share) / HOT_SCALE as nat,
        hot_count(share, counter, requests) <= requests,
{
    lemma_counter_balance(share, counter, requests);
    let hot = hot_count(share, counter, requests);
    let rest = counter_after(share, counter, requests);
    vstd::arithmetic::div_mod::lemma_fundamental_div_mod_converse(
        (counter + requests * share) as int,
        HOT_SCALE as int,
        hot as int,
        rest as int,
    );
    assert(requests * share <= requests * HOT_SCALE) by (nonlinear_arith)
        requires
            share <= HOT_SCALE,
    ;
    if hot > requests {
        assert(hot * HOT_SCALE >= requests * HOT_SCALE + HOT_SCALE) by (nonlinear_arith)
            requires
                hot >= requests + 1,
        ;
    }
}

/// With a share of one, every request is routed hot; with a share of zero,
/// none is.
pub proof fn lemma_hot_share_extremes(counter: nat, requests: nat)
    requires
        counter < HOT_SCALE,
    ensures
        hot_count(HOT_SCALE as nat, counter, requests) == requests,
        hot_count(0, counter, requests) == 0,
        routes_hot(HOT_SCALE as nat, counter),
        !routes_hot(0, counter),
    decreases requests,
{
    if requests > 0 {
        let before = (requests - 1) as nat;
        lemma_hot_share_extremes(counter, before);
        lemma_counter_balance(HOT_SCALE as nat, counter, before);
        lemma_counter_balance(0, counter, before);
    }
}

/// Hands back a number that the process-wide random generator drew.
///
/// Trusted: the body is rand's `random` for `u64`. Nothing is claimed of the
/// number: any value may come back, and two calls may differ.
#[verifier::external_body]
fn random_u64() -> u64 {
    rand::random()
}

/// The router: it holds the share of hot requests and the counter.
pub struct HotGenerator {
    share: u64,
    counter: u64,
}

impl HotGenerator {
    #[verifier::type_invariant]
    spec fn well_formed(self) -> bool {
        &&& self.share <= HOT_SCALE
        &&& self.counter < HOT_SCALE
    }

    /// The share of requests to route hot, in millionths.
    pub closed spec fn share(self) -> nat {
        self.share as nat
    }

    /// What the counter holds, in millionths of a request.
    pub closed spec fn counter(self) -> nat {
        self.counter as nat
    }

    /// A router for the given share, in millionths, whose counter starts at a
    /// random point, so that runs started together do not send their hot
    /// requests in step.
    pub fn new(share: u64) -> (gen: Self)
        requires
            share <= HOT_SCALE,
        ensures
            gen.share() == share,
            gen.counter() < HOT_SCALE,
    {
        Self::with_counter(share, random_u64() % HOT_SCALE)
    }

    /// A router for the given share whose counter starts at `counter`.
    pub fn with_counter(share: u64, counter: u64) -> (gen: Self)
        requires
            share <= HOT_SCALE,
            counter < HOT_SCALE,
        ensures
            gen.share() == share,
            gen.counter() == counter,
    {
        Self { share, counter }
    }

    /// Decides whether the next request is routed hot.
    pub fn next(&mut self) -> (hot: bool)
        ensures
            hot == routes_hot(old(self).share(), old(self).counter()),
            final(self).share() == old(self).share(),
            final(self).counter() == next_counter(old(self).share(), old(self).counter()),
            final(self).counter() < HOT_SCALE,
    {
        proof {
            use_type_invariant(&*self);
        }
        let sum: u64 = self.counter + self.share;
        if sum >= HOT_SCALE {
            self.counter = sum - HOT_SCALE;
            true
        } else {
            self.counter = sum;
            false
        }
    }
}

} // verus!
