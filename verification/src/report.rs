//! What a run reports: the rows of the result table, the labels of the
//! summary, and the rates of the last line.

use crate::outcome::Record;
use crate::text::{decimal, push_decimal, push_scaled, scaled};
use vstd::prelude::*;
use vstd::string::StringExecFns;

verus! {

/// The first line of the result table.
pub const CSV_HEADER: &'static str =
    "instance,startTime,responseTime,connectionTimeout,functionTimeout,statusCode";

/// How a truth value is written in the result table.
pub open spec fn truth(value: bool) -> Seq<char> {
    if value {
        "true"@
    } else {
        "false"@
    }
}

/// The row of the result table for one outcome: where the request went, when
/// it started and how long it took, both in microseconds, whether it timed
/// out, whether it ended in an error, and the status of the reply, or 0 where
/// there was none.
pub open spec fn spec_csv_row(record: Record) -> Seq<char> {
    record.target() + ","@ + decimal(record.start() as nat) + ","@ + decimal(record.latency())
        + ","@ + truth(record.class().is_timeout()) + ","@ + truth(record.class().is_error())
        + ","@ + decimal(record.class().status_or_zero() as nat)
}

/// Writes the row of the result table for one outcome, without a line end.
pub fn csv_row(record: &Record) -> (row: String)
    ensures
        row@ == spec_csv_row(*record),
{
    let class = record.classification();
    let mut row = String::from_str(record.url().as_str());
    row.append(",");
    push_decimal(&mut row, record.start_time());
    row.append(",");
    push_decimal(&mut row, record.duration());
    row.append(",");
    row.append(
        if class.timeout() {
            "true"
        } else {
            "false"
        },
    );
    row.append(",");
    row.append(
        if class.error() {
            "true"
        } else {
            "false"
        },
    );
    row.append(",");
    push_decimal(&mut row, class.status() as u64);
    row
}

/// The label of a percentile in the summary: the percentile as a fraction of
/// one, so that 99 percent is `0.99` and 99.9 percent is `0.999`.
pub fn quantile_label(permille: u32) -> (label: String)
    ensures
        label@ == scaled(permille as nat, 1000),
{
    let mut label = String::new();
    assert(is_thousand()) by {
        reveal_with_fuel(crate::text::is_decimal_unit, 4);
    }
    push_scaled(&mut label, permille as u64, 1000);
    label
}

/// A latency of `micros` microseconds, written in milliseconds.
pub fn millis_text(micros: u64) -> (text: String)
    ensures
        text@ == scaled(micros as nat, 1000),
{
    let mut text = String::new();
    assert(is_thousand()) by {
        reveal_with_fuel(crate::text::is_decimal_unit, 4);
    }
    push_scaled(&mut text, micros, 1000);
    text
}

/// A thousand is a power of ten.
spec fn is_thousand() -> bool {
    crate::text::is_decimal_unit(1000)
}

/// The goodput of a run, in thousandths of a request per second: the number
/// of successes by the seconds that the run took.
pub open spec fn spec_goodput_milli(successes: nat, seconds: nat) -> nat
    recommends
        seconds > 0,
{
    successes * 1000 / seconds
}

/// The share of errors in a run, in millionths: the number of errors by the
/// number of outcomes.
pub open spec fn spec_error_ppm(errors: nat, total: nat) -> nat
    recommends
        total > 0,
{
    errors * 1_000_000 / total
}

/// Computes the goodput: see `spec_goodput_milli`.
pub fn goodput_milli(successes: u64, seconds: u64) -> (rate: u128)
    requires
        seconds > 0,
    ensures
        rate == spec_goodput_milli(successes as nat, seconds as nat),
{
    crate::arith::wide_mul(successes, 1000) / seconds as u128
}

/// Computes the share of errors: see `spec_error_ppm`.
pub fn error_ppm(errors: u64, total: u64) -> (share: u128)
    requires
        total > 0,
    ensures
        share == spec_error_ppm(errors as nat, total as nat),
{
    crate::arith::wide_mul(errors, 1_000_000) / total as u128
}

/// Where no more errors are counted than outcomes, the share of errors is at
/// most one.
pub proof fn lemma_error_share_at_most_one(errors: nat, total: nat)
    requires
        total > 0,
        errors <= total,
    ensures
        spec_error_ppm(errors, total) <= 1_000_000,
{
    assert(errors * 1_000_000 <= 1_000_000 * total) by (nonlinear_arith)
        requires
            errors <= total,
    ;
    crate::arith::lemma_div_below(
        (errors * 1_000_000) as int,
        total as int,
        1_000_001int,
    );
    assert(1_000_001 * total == 1_000_000 * total + total) by (nonlinear_arith);
}

} // verus!
