//! The buckets of the latency histogram.
//!
//! Values below 256 have a bucket each. Above, every power of two is cut into
//! 128 buckets of equal width, so that the values of a bucket differ from its
//! top by less than one part in 128.

use crate::arith::lemma_div_below;
use vstd::prelude::*;

verus! {

/// The number of buckets that the values of 64 bits fall into.
pub const BUCKETS: usize = 7424;

/// Two to the power `s`.
pub open spec fn two_to(s: nat) -> nat
    decreases s,
{
    if s == 0 {
        1
    } else {
        2 * two_to((s - 1) as nat)
    }
}

/// How often a value has to be halved until it is below 256.
pub open spec fn shift_of(v: nat) -> nat
    decreases v,
{
    if v < 256 {
        0
    } else {
        1 + shift_of(v / 2)
    }
}

/// What is left of a value once it has been halved until it is below 256.
pub open spec fn mantissa(v: nat) -> nat
    decreases v,
{
    if v < 256 {
        v
    } else {
        mantissa(v / 2)
    }
}

/// The number of the bucket that a value falls into.
pub open spec fn bucket_of(v: nat) -> nat {
    shift_of(v) * 128 + mantissa(v)
}

/// The largest value of bucket `i`.
pub open spec fn bucket_top(i: nat) -> nat {
    if i < 256 {
        i
    } else {
        let s = (i / 128 - 1) as nat;
        ((i - 128 * s + 1) * two_to(s) - 1) as nat
    }
}

/// Powers of two are positive, and each is twice the one before.
pub proof fn lemma_two_to(s: nat)
    ensures
        two_to(s) >= 1,
        two_to(s + 1) == 2 * two_to(s),
    decreases s,
{
    if s > 0 {
        lemma_two_to((s - 1) as nat);
    }
}

/// Two to the power 56, written out.
pub proof fn lemma_two_to_56()
    ensures
        two_to(56) == 0x100_0000_0000_0000,
{
    reveal_with_fuel(two_to, 57);
}

/// A larger exponent gives a larger power of two.
pub proof fn lemma_two_to_grows(s: nat, t: nat)
    requires
        s <= t,
    ensures
        two_to(s) <= two_to(t),
    decreases t - s,
{
    if s < t {
        lemma_two_to_grows(s, (t - 1) as nat);
        lemma_two_to((t - 1) as nat);
    }
}

/// What halving leaves of a value is the value divided by two to the number
/// of times it was halved; above 255 it lies from 128 up to 255.
pub proof fn lemma_mantissa(v: nat)
    ensures
        mantissa(v) == v / two_to(shift_of(v)),
        mantissa(v) < 256,
        v >= 256 ==> mantissa(v) >= 128 && shift_of(v) >= 1,
        v < 256 ==> shift_of(v) == 0,
    decreases v,
{
    if v >= 256 {
        let half = v / 2;
        lemma_mantissa(half);
        let s = shift_of(half);
        lemma_two_to(s);
        vstd::arithmetic::div_mod::lemma_div_denominator(v as int, 2, two_to(s) as int);
        assert(shift_of(v) == s + 1);
        let d = two_to(s) as int;
        assert(two_to(shift_of(v)) == 2 * d);
        assert(mantissa(v) == mantissa(half));
        assert(mantissa(half) == (v as int / 2) / d);
        assert((v as int / 2) / d == v as int / (2 * d));
        assert(mantissa(v) == v as int / (2 * d));
    } else {
        assert(two_to(0) == 1);
        assert(shift_of(v) == 0);
        assert(v as int / 1 == v);
    }
}

/// A value of 64 bits is halved at most 56 times, and falls into one of the
/// `BUCKETS` buckets.
pub proof fn lemma_bucket_in_range(v: nat)
    requires
        v <= u64::MAX,
    ensures
        shift_of(v) <= 56,
        bucket_of(v) < BUCKETS,
{
    lemma_two_to_56();
    lemma_shift_bound(v, 56);
    lemma_mantissa(v);
}

/// A value below `256 * 2^s` is halved at most `s` times.
proof fn lemma_shift_bound(v: nat, s: nat)
    requires
        v < 256 * two_to(s),
    ensures
        shift_of(v) <= s,
    decreases s,
{
    if v >= 256 {
        if s == 0 {
        } else {
            lemma_two_to((s - 1) as nat);
            lemma_shift_bound(v / 2, (s - 1) as nat);
        }
    }
}

/// A value is halved at least as often as any smaller value.
pub proof fn lemma_shift_grows(v: nat, w: nat)
    requires
        v <= w,
    ensures
        shift_of(v) <= shift_of(w),
    decreases w,
{
    if v >= 256 {
        lemma_shift_grows(v / 2, w / 2);
    }
}

/// Larger values fall into later buckets.
pub proof fn lemma_bucket_grows(v: nat, w: nat)
    requires
        v <= w,
    ensures
        bucket_of(v) <= bucket_of(w),
{
    lemma_shift_grows(v, w);
    lemma_mantissa(v);
    lemma_mantissa(w);
    let s = shift_of(v);
    let t = shift_of(w);
    if s == t {
        let unit = two_to(s) as int;
        lemma_two_to(s);
        // v / unit <= w / unit
        lemma_div_below(v as int, unit, (w as int) / unit + 1);
        lemma_div_below(w as int, unit, (w as int) / unit + 1);
    } else {
        assert(s * 128 + 128 <= t * 128) by (nonlinear_arith)
            requires
                s + 1 <= t,
        ;
    }
}

/// A bucket's number tells how often its values were halved, and what was
/// left of them.
pub proof fn lemma_bucket_decodes(v: nat)
    requires
        v >= 256,
    ensures
        bucket_of(v) >= 256,
        bucket_of(v) / 128 - 1 == shift_of(v),
        bucket_of(v) - 128 * shift_of(v) == mantissa(v),
{
    lemma_mantissa(v);
    let s = shift_of(v);
    let m = mantissa(v);
    vstd::arithmetic::div_mod::lemma_fundamental_div_mod_converse(
        (s * 128 + m) as int,
        128,
        (s + 1) as int,
        (m - 128) as int,
    );
}

/// A value is at most the top of its bucket, and short of it by less than
/// one part in 128 of itself.
pub proof fn lemma_bucket_holds(v: nat)
    ensures
        v <= bucket_top(bucket_of(v)),
        128 * (bucket_top(bucket_of(v)) - v) <= v,
        bucket_of(bucket_top(bucket_of(v))) == bucket_of(v),
{
    lemma_mantissa(v);
    if v >= 256 {
        lemma_bucket_decodes(v);
        let s = shift_of(v);
        let m = mantissa(v);
        let unit = two_to(s);
        lemma_two_to(s);
        vstd::arithmetic::div_mod::lemma_fundamental_div_mod(v as int, unit as int);
        vstd::arithmetic::div_mod::lemma_mod_bound(v as int, unit as int);
        let rest = v % unit;
        assert(unit * m == m * unit) by (nonlinear_arith);
        assert((m + 1) * unit == m * unit + unit) by (nonlinear_arith);
        let top = bucket_top(bucket_of(v));
        assert(top == m * unit + unit - 1);
        assert(128 * unit <= m * unit) by (nonlinear_arith)
            requires
                128 <= m,
                unit >= 0,
        ;
        lemma_top_same_bucket(v, top);
    }
}

/// The top of a value's bucket falls into the same bucket.
proof fn lemma_top_same_bucket(v: nat, top: nat)
    requires
        v >= 256,
        top == (mantissa(v) + 1) * two_to(shift_of(v)) - 1,
    ensures
        bucket_of(top) == bucket_of(v),
{
    lemma_mantissa(v);
    let s = shift_of(v);
    let m = mantissa(v);
    let unit = two_to(s);
    lemma_two_to(s);
    assert((m + 1) * unit == m * unit + unit) by (nonlinear_arith);
    lemma_halving(top, m, s);
}

/// A value that is `m` whole units of `2^s` and less than one unit more, with
/// `m` from 128 up to 255, is halved `s` times and leaves `m`.
proof fn lemma_halving(w: nat, m: nat, s: nat)
    requires
        128 <= m < 256,
        s >= 1,
        m * two_to(s) <= w < (m + 1) * two_to(s),
    ensures
        shift_of(w) == s,
        mantissa(w) == m,
    decreases s,
{
    let lower = two_to((s - 1) as nat);
    let unit = two_to(s);
    lemma_two_to((s - 1) as nat);
    assert(unit == 2 * lower);
    assert(m * unit == 2 * (m * lower)) by (nonlinear_arith)
        requires
            unit == 2 * lower,
    ;
    assert((m + 1) * unit == 2 * ((m + 1) * lower)) by (nonlinear_arith)
        requires
            unit == 2 * lower,
    ;
    assert(m * lower >= 128) by (nonlinear_arith)
        requires
            m >= 128,
            lower >= 1,
    ;
    assert(w >= 256);
    assert(m * lower <= w / 2 < (m + 1) * lower);
    // w >= 2 * 128 = 256, and w / 2 lies in the same range one level down
    if s == 1 {
        assert(lower == 1);
        assert(m * lower == m) by (nonlinear_arith)
            requires
                lower == 1,
        ;
        assert((m + 1) * lower == m + 1) by (nonlinear_arith)
            requires
                lower == 1,
        ;
        assert(w / 2 == m);
        assert(shift_of(m) == 0);
        assert(mantissa(m) == m);
    } else {
        lemma_halving(w / 2, m, (s - 1) as nat);
    }
    assert(shift_of(w) == 1 + shift_of(w / 2));
    assert(mantissa(w) == mantissa(w / 2));
}

/// Finds the bucket of a value.
pub fn bucket_index(value: u64) -> (index: usize)
    ensures
        index == bucket_of(value as nat),
        index < BUCKETS,
{
    let mut left: u64 = value;
    let mut shift: usize = 0;
    proof {
        lemma_bucket_in_range(value as nat);
    }
    while left >= 256
        invariant
            shift_of(value as nat) == shift + shift_of(left as nat),
            mantissa(value as nat) == mantissa(left as nat),
            shift_of(value as nat) <= 56,
        decreases left,
    {
        left = left / 2;
        shift = shift + 1;
    }
    shift * 128 + left as usize
}

/// The largest value of a bucket.
pub fn bucket_upper(index: usize) -> (top: u64)
    requires
        index < BUCKETS,
    ensures
        top == bucket_top(index as nat),
{
    if index < 256 {
        return index as u64;
    }
    let shift: usize = index / 128 - 1;
    let left: u64 = (index - 128 * shift) as u64;
    let mut unit: u64 = 1;
    let mut done: usize = 0;
    proof {
        lemma_two_to_grows(shift as nat, 56);
        lemma_two_to_56();
    }
    while done < shift
        invariant
            done <= shift <= 56,
            unit == two_to(done as nat),
            two_to(shift as nat) <= 0x100_0000_0000_0000,
        decreases shift - done,
    {
        proof {
            lemma_two_to(done as nat);
            lemma_two_to_grows((done + 1) as nat, shift as nat);
        }
        unit = unit * 2;
        done = done + 1;
    }
    proof {
        lemma_two_to(shift as nat);
    }
    assert(left * unit + unit <= 256 * 0x100_0000_0000_0000) by (nonlinear_arith)
        requires
            left + 1 <= 256,
            unit <= 0x100_0000_0000_0000,
    ;
    assert((left + 1) * unit == left * unit + unit) by (nonlinear_arith);
    left * unit + (unit - 1)
}

} // verus!
