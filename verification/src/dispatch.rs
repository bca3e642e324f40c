//! The dispatcher's decisions: when the request that is due at an offset is
//! issued, how the time until then is spent, and when the run is given up
//! because it cannot keep to its schedule.
//!
//! The dispatcher owns no clock. Its caller reads the time that has passed
//! since the start of the run, asks for the next step, and carries it out.
//! All times are in nanoseconds.

use vstd::prelude::*;

verus! {

/// By how much the dispatcher may be late for an offset before it gives the
/// run up, unless told otherwise: 100 ms.
pub const DEFAULT_SLACK: u64 = 100_000_000;

/// The last stretch before a deadline, which is spent spinning and not
/// sleeping: 1 ms.
pub const SPIN_WINDOW: u64 = 1_000_000;

/// What the caller of the dispatcher does next.
#[derive(Clone, Copy, Debug, PartialEq, Eq, Structural)]
pub enum Step {
    /// Give the run up: the dispatcher is `behind` the schedule by more than
    /// the slack.
    Abort { behind: u64 },
    /// Sleep for `nanos`, then ask again with the same offset.
    Sleep { nanos: u64 },
    /// Ask again at once with the same offset.
    Spin,
    /// Issue the request now, and go on to the next offset.
    Tick,
}

/// The dispatcher of a scheduled run.
#[derive(Clone, Copy, Debug, PartialEq, Eq, Structural)]
pub struct Dispatcher {
    /// By how much the dispatcher may be late for an offset.
    pub slack: u64,
    /// Whether the dispatcher is waiting for the offset it was last asked
    /// about, and has found it in time.
    pub waiting: bool,
    /// Whether the run was given up.
    pub overloaded: bool,
}

impl Dispatcher {
    /// By how much the dispatcher is late for `offset` when `elapsed` has
    /// passed since the start.
    pub open spec fn lateness(offset: u64, elapsed: u64) -> nat {
        if elapsed > offset {
            (elapsed - offset) as nat
        } else {
            0
        }
    }

    /// The step to take for the request that is due at `offset`, when
    /// `elapsed` has passed since the start of the run.
    ///
    /// A run that was given up stays given up. An offset that is taken up more
    /// than the slack after it was due gives the run up. Otherwise the request
    /// is issued once the offset is reached; until then the dispatcher sleeps
    /// up to the spin window before the offset, and spins through the window.
    pub open spec fn decide(self, offset: u64, elapsed: u64) -> Step {
        if self.overloaded || (!self.waiting && Self::lateness(offset, elapsed) > self.slack) {
            Step::Abort { behind: Self::lateness(offset, elapsed) as u64 }
        } else if elapsed >= offset {
            Step::Tick
        } else if offset - elapsed > SPIN_WINDOW {
            Step::Sleep { nanos: (offset - elapsed - SPIN_WINDOW) as u64 }
        } else {
            Step::Spin
        }
    }

    /// The dispatcher after the step for `offset` at `elapsed`.
    pub open spec fn after(self, offset: u64, elapsed: u64) -> Dispatcher {
        match self.decide(offset, elapsed) {
            Step::Abort { .. } => Dispatcher { slack: self.slack, waiting: false, overloaded: true },
            Step::Tick => Dispatcher { slack: self.slack, waiting: false, overloaded: false },
            _ => Dispatcher { slack: self.slack, waiting: true, overloaded: false },
        }
    }

    /// A dispatcher at the start of a run.
    pub fn new(slack: u64) -> (dispatcher: Self)
        ensures
            dispatcher == (Dispatcher { slack, waiting: false, overloaded: false }),
    {
        Dispatcher { slack, waiting: false, overloaded: false }
    }

    /// Decides the next step for the request that is due at `offset`. The
    /// caller asks again with the same offset until the answer is `Tick` or
    /// `Abort`.
    pub fn step(&mut self, offset: u64, elapsed: u64) -> (step: Step)
        ensures
            step == old(self).decide(offset, elapsed),
            *final(self) == old(self).after(offset, elapsed),
    {
        let behind: u64 = if elapsed > offset {
            elapsed - offset
        } else {
            0
        };
        if self.overloaded || (!self.waiting && behind > self.slack) {
            self.waiting = false;
            self.overloaded = true;
            Step::Abort { behind }
        } else if elapsed >= offset {
            self.waiting = false;
            Step::Tick
        } else if offset - elapsed > SPIN_WINDOW {
            self.waiting = true;
            Step::Sleep { nanos: offset - elapsed - SPIN_WINDOW }
        } else {
            self.waiting = true;
            Step::Spin
        }
    }

    /// Whether a run without a schedule issues another request: it does so
    /// back to back, without any deadline, until `duration` has passed.
    pub fn unbounded_tick(elapsed: u64, duration: u64) -> (tick: bool)
        ensures
            tick == (elapsed < duration),
    {
        elapsed < duration
    }
}

/// A run that was given up is never taken up again.
pub proof fn lemma_overload_is_final(dispatcher: Dispatcher, offset: u64, elapsed: u64)
    requires
        dispatcher.overloaded,
    ensures
        dispatcher.decide(offset, elapsed) is Abort,
        dispatcher.after(offset, elapsed).overloaded,
{
}

/// The run is given up exactly when a fresh offset is found more than the
/// slack late, and no request is ever issued before its offset.
pub proof fn lemma_deadline_rule(dispatcher: Dispatcher, offset: u64, elapsed: u64)
    requires
        !dispatcher.overloaded,
    ensures
        dispatcher.decide(offset, elapsed) is Abort <==> !dispatcher.waiting && elapsed > offset
            + dispatcher.slack,
        dispatcher.decide(offset, elapsed) is Tick ==> elapsed >= offset,
        dispatcher.decide(offset, elapsed) matches Step::Sleep { nanos } ==> elapsed + nanos
            + SPIN_WINDOW == offset,
        dispatcher.decide(offset, elapsed) is Spin ==> offset - SPIN_WINDOW <= elapsed < offset,
{
}

} // verus!
