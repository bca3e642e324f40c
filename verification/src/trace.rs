//! Recorded schedules: a trace holds one offset per line, as a decimal number
//! of microseconds, in ascending order. A trace is used as it stands, and can
//! be replayed several times in a row.

use crate::arith::wide_mul;
use vstd::prelude::*;

verus! {

/// The byte that ends a line.
pub const NEWLINE: u8 = 10;

/// What is wrong with a line of a trace.
#[derive(Clone, Copy, Debug, PartialEq, Eq, Structural)]
pub enum TraceFault {
    /// The line is empty or holds something else than decimal digits.
    NotANumber,
    /// The number does not fit in 64 bits.
    TooLarge,
    /// The offset is smaller than the one on the line before.
    NotAscending,
}

/// The first fault of a trace, and the line it is on, counted from 0.
#[derive(Clone, Copy, Debug, PartialEq, Eq, Structural)]
pub struct TraceError {
    pub line: usize,
    pub fault: TraceFault,
}

/// Whether a byte is a decimal digit.
pub open spec fn is_digit(byte: u8) -> bool {
    48 <= byte <= 57
}

/// Whether a line is a decimal number: one digit or more, and nothing else.
pub open spec fn is_number(line: Seq<u8>) -> bool {
    line.len() > 0 && forall|k: int| 0 <= k < line.len() ==> is_digit(#[trigger] line[k])
}

/// The number that decimal digits spell.
pub open spec fn digits_value(digits: Seq<u8>) -> nat
    decreases digits.len(),
{
    if digits.len() == 0 {
        0
    } else {
        digits_value(digits.drop_last()) * 10 + (digits.last() - 48) as nat
    }
}

/// Reads a text byte by byte: the lines that a newline has ended so far, and
/// the bytes after the last newline.
pub open spec fn scan_lines(text: Seq<u8>) -> (Seq<Seq<u8>>, Seq<u8>)
    decreases text.len(),
{
    if text.len() == 0 {
        (Seq::empty(), Seq::empty())
    } else {
        let (done, open) = scan_lines(text.drop_last());
        if text.last() == NEWLINE {
            (done.push(open), Seq::empty())
        } else {
            (done, open.push(text.last()))
        }
    }
}

/// The lines of a text. Every newline ends a line; what follows the last
/// newline is a line of its own unless it is empty.
pub open spec fn split_lines(text: Seq<u8>) -> Seq<Seq<u8>> {
    let (done, open) = scan_lines(text);
    if open.len() > 0 {
        done.push(open)
    } else {
        done
    }
}

/// What is wrong with line `i`, if anything, given that the lines before it
/// are in order.
pub open spec fn line_fault(lines: Seq<Seq<u8>>, i: int) -> Option<TraceFault>
    recommends
        0 <= i < lines.len(),
{
    if !is_number(lines[i]) {
        Some(TraceFault::NotANumber)
    } else if digits_value(lines[i]) > u64::MAX {
        Some(TraceFault::TooLarge)
    } else if i > 0 && digits_value(lines[i]) < digits_value(lines[i - 1]) {
        Some(TraceFault::NotAscending)
    } else {
        None
    }
}

/// What parsing makes of the lines of a trace: the offsets, one per line,
/// where no line has a fault, and otherwise the first line that has one, and
/// its fault.
pub open spec fn parsed_as(lines: Seq<Seq<u8>>, result: Result<Vec<u64>, TraceError>) -> bool {
    match result {
        Ok(offsets) => {
            &&& offsets@.len() == lines.len()
            &&& forall|i: int| 0 <= i < lines.len() ==> line_fault(lines, i).is_none()
            &&& forall|i: int|
                0 <= i < lines.len() ==> #[trigger] offsets@[i] == digits_value(lines[i])
        },
        Err(error) => {
            &&& error.line < lines.len()
            &&& forall|i: int| 0 <= i < error.line ==> line_fault(lines, i).is_none()
            &&& line_fault(lines, error.line as int) == Some(error.fault)
        },
    }
}

/// Whether offsets are in ascending order; equal neighbours are in order.
pub open spec fn is_ascending(offsets: Seq<u64>) -> bool {
    forall|i: int, j: int| 0 <= i <= j < offsets.len() ==> offsets[i] <= offsets[j]
}

/// More digits never spell a smaller number.
pub proof fn lemma_digits_value_grows(digits: Seq<u8>, more: u8)
    requires
        is_digit(more),
    ensures
        digits_value(digits.push(more)) == digits_value(digits) * 10 + (more - 48),
        digits_value(digits.push(more)) >= digits_value(digits),
{
    assert(digits.push(more).drop_last() =~= digits);
}

/// The lines that a newline has ended stay as they are when the text goes on.
pub proof fn lemma_done_lines_stay(text: Seq<u8>, i: int, j: int)
    requires
        0 <= i <= j <= text.len(),
    ensures
        scan_lines(text.take(i)).0.len() <= scan_lines(text.take(j)).0.len(),
        forall|k: int|
            0 <= k < scan_lines(text.take(i)).0.len() ==> scan_lines(text.take(j)).0[k]
                == scan_lines(text.take(i)).0[k],
    decreases j - i,
{
    if i < j {
        lemma_done_lines_stay(text, i, j - 1);
        assert(text.take(j).drop_last() =~= text.take(j - 1));
    }
}

/// The lines that a newline has ended are the first lines of the text.
pub proof fn lemma_done_lines_are_lines(text: Seq<u8>, i: int)
    requires
        0 <= i <= text.len(),
    ensures
        scan_lines(text.take(i)).0.len() <= split_lines(text).len(),
        forall|k: int|
            0 <= k < scan_lines(text.take(i)).0.len() ==> split_lines(text)[k] == scan_lines(
                text.take(i),
            ).0[k],
{
    lemma_done_lines_stay(text, i, text.len() as int);
    assert(text.take(text.len() as int) =~= text);
}

/// Lines without a fault hold offsets in ascending order.
pub proof fn lemma_parsed_is_ascending(lines: Seq<Seq<u8>>, offsets: Vec<u64>)
    requires
        parsed_as(lines, Ok(offsets)),
    ensures
        is_ascending(offsets@),
{
    assert forall|i: int, j: int| 0 <= i <= j < offsets@.len() implies offsets@[i]
        <= offsets@[j] by {
        lemma_faultless_ascending(lines, offsets@, i, j);
    }
}

proof fn lemma_faultless_ascending(lines: Seq<Seq<u8>>, offsets: Seq<u64>, i: int, j: int)
    requires
        offsets.len() == lines.len(),
        forall|k: int| 0 <= k < lines.len() ==> line_fault(lines, k).is_none(),
        forall|k: int| 0 <= k < lines.len() ==> #[trigger] offsets[k] == digits_value(lines[k]),
        0 <= i <= j < offsets.len(),
    ensures
        offsets[i] <= offsets[j],
    decreases j - i,
{
    if i < j {
        lemma_faultless_ascending(lines, offsets, i, j - 1);
        assert(line_fault(lines, j).is_none());
        assert(offsets[j - 1] == digits_value(lines[j - 1]));
        assert(offsets[j] == digits_value(lines[j]));
    }
}

/// The fault of a line depends on nothing after the line.
proof fn lemma_fault_of_first_lines(first: Seq<Seq<u8>>, all: Seq<Seq<u8>>, i: int)
    requires
        first.len() <= all.len(),
        forall|k: int| 0 <= k < first.len() ==> all[k] == first[k],
        0 <= i < first.len(),
    ensures
        line_fault(all, i) == line_fault(first, i),
{
    assert(all[i] == first[i]);
    if i > 0 {
        assert(all[i - 1] == first[i - 1]);
    }
}

/// What holds of the first lines of a trace holds of the trace.
proof fn lemma_parsed_first_lines(
    first: Seq<Seq<u8>>,
    all: Seq<Seq<u8>>,
    result: Result<Vec<u64>, TraceError>,
)
    requires
        first.len() <= all.len(),
        forall|k: int| 0 <= k < first.len() ==> all[k] == first[k],
        parsed_as(first, result),
        result is Ok ==> first.len() == all.len(),
    ensures
        parsed_as(all, result),
{
    assert forall|i: int| 0 <= i < first.len() implies line_fault(all, i) == line_fault(
        first,
        i,
    ) by {
        lemma_fault_of_first_lines(first, all, i);
    }
    match result {
        Ok(offsets) => {
            assert(all =~= first);
        },
        Err(error) => {
            assert forall|i: int| 0 <= i < error.line implies line_fault(all, i).is_none() by {
                assert(line_fault(first, i).is_none());
            }
        },
    }
}

/// A faultless line after faultless lines makes faultless lines.
proof fn lemma_line_added(done: Seq<Seq<u8>>, line: Seq<u8>, before: Seq<u64>, after: Seq<u64>)
    requires
        before.len() == done.len(),
        forall|i: int| 0 <= i < done.len() ==> line_fault(done, i).is_none(),
        forall|i: int| 0 <= i < done.len() ==> #[trigger] before[i] == digits_value(done[i]),
        line_fault(done.push(line), done.len() as int).is_none(),
        after == before.push(digits_value(line) as u64),
    ensures
        after.len() == done.push(line).len(),
        forall|i: int| 0 <= i < done.len() + 1 ==> line_fault(done.push(line), i).is_none(),
        forall|i: int|
            0 <= i < done.len() + 1 ==> #[trigger] after[i] == digits_value(done.push(line)[i]),
{
    let lines = done.push(line);
    assert forall|i: int| 0 <= i < done.len() + 1 implies line_fault(lines, i).is_none() by {
        if i < done.len() {
            lemma_fault_of_first_lines(done, lines, i);
            assert(line_fault(done, i).is_none());
        }
    }
    assert forall|i: int| 0 <= i < done.len() + 1 implies #[trigger] after[i] == digits_value(
        lines[i],
    ) by {
        if i < done.len() {
            assert(after[i] == before[i]);
        }
    }
}

/// What the reader knows of the line it is in.
struct OpenLine {
    /// The number of bytes of the line so far.
    length: usize,
    /// Whether a byte of the line is no digit.
    stray: bool,
    /// Whether the digits so far spell a number above 64 bits.
    large: bool,
    /// The number that the digits so far spell, unless `stray` or `large`.
    value: u64,
}

impl OpenLine {
    /// What the reader knows is true of `line`.
    spec fn describes(self, line: Seq<u8>) -> bool {
        &&& self.length == line.len()
        &&& self.stray <==> exists|k: int| 0 <= k < line.len() && !is_digit(#[trigger] line[k])
        &&& !self.stray ==> (self.large <==> digits_value(line) > u64::MAX)
        &&& !self.stray && !self.large ==> self.value == digits_value(line)
    }

    /// Ends the line: finds its fault, if it has one, as the line that follows
    /// the faultless lines `done`, which hold `offsets`.
    fn fault(
        &self,
        offsets: &Vec<u64>,
        Ghost(done): Ghost<Seq<Seq<u8>>>,
        Ghost(line): Ghost<Seq<u8>>,
    ) -> (fault: Option<TraceFault>)
        requires
            self.describes(line),
            parsed_as(done, Ok(*offsets)),
        ensures
            fault == line_fault(done.push(line), done.len() as int),
            fault.is_none() ==> self.value == digits_value(line),
            fault matches Some(found) ==> parsed_as(
                done.push(line),
                Err(TraceError { line: offsets.len(), fault: found }),
            ),
    {
        let ghost lines = done.push(line);
        let previous: Option<u64> = if offsets.len() > 0 {
            Some(offsets[offsets.len() - 1])
        } else {
            None
        };
        proof {
            if self.stray {
                let k = choose|k: int| 0 <= k < line.len() && !is_digit(#[trigger] line[k]);
                assert(!is_number(line));
            } else if self.length > 0 {
                assert(is_number(line));
            }
            assert(lines[done.len() as int] == line);
            if done.len() > 0 {
                assert(lines[done.len() - 1] == done[done.len() - 1]);
                assert(offsets@[done.len() - 1] == digits_value(done[done.len() - 1]));
            }
            assert forall|i: int| 0 <= i < done.len() implies line_fault(lines, i).is_none() by {
                lemma_fault_of_first_lines(done, lines, i);
                assert(line_fault(done, i).is_none());
            }
        }
        if self.length == 0 || self.stray {
            Some(TraceFault::NotANumber)
        } else if self.large {
            Some(TraceFault::TooLarge)
        } else {
            match previous {
                Some(before) => if self.value < before {
                    Some(TraceFault::NotAscending)
                } else {
                    None
                },
                None => None,
            }
        }
    }

    /// Takes one more byte into the line.
    fn take_byte(&mut self, byte: u8, Ghost(line): Ghost<Seq<u8>>)
        requires
            old(self).describes(line),
            byte != NEWLINE,
            line.len() < usize::MAX,
        ensures
            final(self).describes(line.push(byte)),
    {
        let ghost longer = line.push(byte);
        if byte < 48 || byte > 57 {
            self.stray = true;
            assert(!is_digit(longer[line.len() as int]));
        } else {
            proof {
                lemma_digits_value_grows(line, byte);
                if self.stray {
                    let k = choose|k: int| 0 <= k < line.len() && !is_digit(#[trigger] line[k]);
                    assert(!is_digit(longer[k]));
                } else {
                    assert forall|k: int| 0 <= k < longer.len() implies is_digit(
                        #[trigger] longer[k],
                    ) by {
                        if k < line.len() {
                            assert(longer[k] == line[k]);
                        }
                    }
                }
            }
            if !self.stray && !self.large {
                let digit: u64 = (byte - 48) as u64;
                let wide: u128 = wide_mul(self.value, 10) + digit as u128;
                if wide > u64::MAX as u128 {
                    self.large = true;
                } else {
                    self.value = wide as u64;
                }
            }
        }
        self.length = self.length + 1;
    }
}

/// Parses a trace: one offset per line.
pub fn parse_trace(text: &[u8]) -> (result: Result<Vec<u64>, TraceError>)
    ensures
        parsed_as(split_lines(text@), result),
{
    let mut offsets: Vec<u64> = Vec::new();
    let mut open = OpenLine { length: 0, stray: false, large: false, value: 0 };
    let mut i: usize = 0;
    while i < text.len()
        invariant
            i <= text.len(),
            open.describes(scan_lines(text@.take(i as int)).1),
            scan_lines(text@.take(i as int)).1.len() <= i,
            parsed_as(scan_lines(text@.take(i as int)).0, Ok(offsets)),
        decreases text.len() - i,
    {
        let ghost done = scan_lines(text@.take(i as int)).0;
        let ghost line = scan_lines(text@.take(i as int)).1;
        proof {
            assert(text@.take(i + 1).drop_last() =~= text@.take(i as int));
        }
        let byte: u8 = text[i];
        if byte == NEWLINE {
            let ghost lines = done.push(line);
            let ghost before = offsets@;
            match open.fault(&offsets, Ghost(done), Ghost(line)) {
                Some(fault) => {
                    proof {
                        lemma_done_lines_are_lines(text@, i + 1);
                        lemma_parsed_first_lines(
                            lines,
                            split_lines(text@),
                            Err(TraceError { line: offsets.len(), fault }),
                        );
                    }
                    return Err(TraceError { line: offsets.len(), fault });
                },
                None => {
                    offsets.push(open.value);
                    proof {
                        lemma_line_added(done, line, before, offsets@);
                    }
                },
            }
            open = OpenLine { length: 0, stray: false, large: false, value: 0 };
        } else {
            open.take_byte(byte, Ghost(line));
        }
        i += 1;
    }
    let ghost done = scan_lines(text@).0;
    let ghost line = scan_lines(text@).1;
    proof {
        assert(text@.take(text.len() as int) =~= text@);
    }
    if open.length > 0 {
        let ghost before = offsets@;
        match open.fault(&offsets, Ghost(done), Ghost(line)) {
            Some(fault) => {
                return Err(TraceError { line: offsets.len(), fault });
            },
            None => {
                offsets.push(open.value);
                proof {
                    lemma_line_added(done, line, before, offsets@);
                }
            },
        }
    }
    Ok(offsets)
}

/// The trace replayed `times` times in a row: every repetition starts where
/// the one before it ended, so that repetition `r` is the trace shifted by `r`
/// times its last offset.
pub open spec fn replayed_offset(offsets: Seq<u64>, round: nat, i: int) -> nat
    recommends
        0 <= i < offsets.len(),
{
    (offsets[i] + round * offsets.last()) as nat
}

/// Whether the trace can be replayed `times` times: the replayed trace is no
/// longer than a vector can be, and its last offset fits in 64 bits.
pub open spec fn replay_fits(offsets: Seq<u64>, times: nat) -> bool {
    &&& offsets.len() * times <= usize::MAX
    &&& offsets.len() > 0 && times > 0 ==> offsets.last() * times <= u64::MAX
}

/// Replays a trace `times` times in a row. The answer is `None` where the
/// replayed trace would not fit.
pub fn replay_trace(offsets: &Vec<u64>, times: u64) -> (schedule: Option<Vec<u64>>)
    requires
        is_ascending(offsets@),
    ensures
        schedule.is_some() == replay_fits(offsets@, times as nat),
        schedule matches Some(replayed) ==> {
            &&& replayed@.len() == offsets@.len() * times
            &&& forall|round: int, i: int|
                0 <= round < times && 0 <= i < offsets@.len() ==> #[trigger] replayed@[round
                    * offsets@.len() + i] == replayed_offset(offsets@, round as nat, i)
        },
{
    let count: usize = offsets.len();
    let mut replayed: Vec<u64> = Vec::new();
    if count == 0 || times == 0 {
        assert(offsets@.len() * times == 0) by (nonlinear_arith)
            requires
                offsets@.len() == 0 || times == 0,
        ;
        return Some(replayed);
    }
    let last: u64 = offsets[count - 1];
    if wide_mul(count as u64, times) > usize::MAX as u128 || wide_mul(last, times)
        > u64::MAX as u128 {
        return None;
    }
    let mut round: u64 = 0;
    while round < times
        invariant
            round <= times,
            count == offsets.len(),
            count > 0,
            last == offsets@.last(),
            is_ascending(offsets@),
            count * times <= usize::MAX,
            last * times <= u64::MAX,
            replayed@.len() == round * count,
            forall|r: int, i: int|
                0 <= r < round && 0 <= i < count ==> #[trigger] replayed@[r * count + i]
                    == replayed_offset(offsets@, r as nat, i),
        decreases times - round,
    {
        assert(round * last + last <= times * last) by (nonlinear_arith)
            requires
                round + 1 <= times,
        ;
        assert(round * count + count <= times * count) by (nonlinear_arith)
            requires
                round + 1 <= times,
        ;
        let shift: u64 = round * last;
        let ghost before = replayed@;
        let mut i: usize = 0;
        while i < count
            invariant
                i <= count,
                round < times,
                count == offsets.len(),
                count > 0,
                last == offsets@.last(),
                is_ascending(offsets@),
                shift == round * last,
                shift + last <= u64::MAX,
                round * count + count <= usize::MAX,
                before.len() == round * count,
                replayed@.len() == round * count + i,
                forall|k: int| 0 <= k < before.len() ==> replayed@[k] == before[k],
                forall|k: int|
                    0 <= k < i ==> replayed@[round * count + k] == replayed_offset(
                        offsets@,
                        round as nat,
                        k,
                    ),
            decreases count - i,
        {
            assert(offsets@[i as int] <= offsets@[count - 1]);
            replayed.push(offsets[i] + shift);
            i += 1;
        }
        proof {
            assert forall|r: int, k: int| 0 <= r < round + 1 && 0 <= k < count implies #[trigger] replayed@[r
                * count + k] == replayed_offset(offsets@, r as nat, k) by {
                if r < round {
                    assert(r * count + count <= round * count) by (nonlinear_arith)
                        requires
                            r + 1 <= round,
                            count >= 0,
                    ;
                    assert(0 <= r * count) by (nonlinear_arith)
                        requires
                            0 <= r,
                            0 <= count,
                    ;
                    assert(replayed@[r * count + k] == before[r * count + k]);
                }
            }
            assert((round + 1) * count == round * count + count) by (nonlinear_arith);
        }
        round += 1;
    }
    assert(times * count == count * times) by (nonlinear_arith);
    Some(replayed)
}

/// A replayed trace is in ascending order.
pub proof fn lemma_replay_ascending(offsets: Seq<u64>, r: nat, i: int, s: nat, j: int)
    requires
        is_ascending(offsets),
        0 <= i < offsets.len(),
        0 <= j < offsets.len(),
        r < s || (r == s && i <= j),
    ensures
        replayed_offset(offsets, r, i) <= replayed_offset(offsets, s, j),
{
    let last = offsets.last();
    assert(offsets[i] <= offsets[offsets.len() - 1]);
    if r < s {
        assert(r * last + last <= s * last) by (nonlinear_arith)
            requires
                r + 1 <= s,
                0 <= last,
        ;
    }
}

/// The offsets of a trace, which are in microseconds, in nanoseconds. The
/// answer is `None` where an offset does not fit in 64 bits.
pub fn micros_to_nanos(offsets: &Vec<u64>) -> (nanos: Option<Vec<u64>>)
    ensures
        nanos.is_some() == (forall|i: int|
            0 <= i < offsets@.len() ==> #[trigger] offsets@[i] * 1000 <= u64::MAX),
        nanos matches Some(scaled) ==> {
            &&& scaled@.len() == offsets@.len()
            &&& forall|i: int| 0 <= i < offsets@.len() ==> #[trigger] scaled@[i] == offsets@[i] * 1000
        },
{
    let mut scaled: Vec<u64> = Vec::new();
    let mut i: usize = 0;
    while i < offsets.len()
        invariant
            i <= offsets.len(),
            scaled@.len() == i,
            forall|k: int| 0 <= k < i ==> #[trigger] offsets@[k] * 1000 <= u64::MAX,
            forall|k: int| 0 <= k < i ==> #[trigger] scaled@[k] == offsets@[k] * 1000,
        decreases offsets.len() - i,
    {
        match offsets[i].checked_mul(1000) {
            Some(value) => {
                scaled.push(value);
            },
            None => {
                assert(!(offsets@[i as int] * 1000 <= u64::MAX));
                return None;
            },
        }
        i += 1;
    }
    Some(scaled)
}

} // verus!
