//! What became of one request: the reply as the transport saw it, and the
//! class under which the measurement counts it.

use crate::wire::{be_value, decode_u64_be};
use vstd::prelude::*;

verus! {

/// What the transport reports of one request.
#[derive(Debug)]
pub enum Reply {
    /// The target answered with this status and body.
    Answered { status: u16, payload: Vec<u8> },
    /// No answer came within the timeout.
    TimedOut,
    /// No connection to the target could be made.
    ConnectFailed,
    /// The exchange failed in some other way.
    Failed,
}

/// The class of an outcome.
#[derive(Clone, Copy, Debug, PartialEq, Eq, Structural)]
pub enum Classification {
    /// The target answered without an error status. `verified` tells whether
    /// the body carried the expected checksum, where one was expected.
    Success { status: u16, verified: Option<bool> },
    /// No answer came within the timeout.
    Timeout,
    /// The target answered with an error status.
    StatusError { status: u16 },
    /// No connection to the target could be made.
    ConnectError,
    /// The exchange failed in some other way.
    OtherError,
}

/// Whether a status tells of an error on the client's or the server's side.
pub open spec fn is_error_status(status: u16) -> bool {
    400 <= status <= 599
}

/// Whether a body carries the checksum: it is exactly eight bytes long and
/// spells the checksum as a big-endian integer.
pub open spec fn carries_checksum(payload: Seq<u8>, checksum: u64) -> bool {
    payload.len() == 8 && be_value(payload) == checksum
}

/// The class of a reply, given the checksum that a correct body carries, if
/// the workload has one.
pub open spec fn spec_classify(reply: Reply, expected: Option<u64>) -> Classification {
    match reply {
        Reply::Answered { status, payload } => if is_error_status(status) {
            Classification::StatusError { status }
        } else {
            Classification::Success {
                status,
                verified: match expected {
                    Some(checksum) => Some(carries_checksum(payload@, checksum)),
                    None => None,
                },
            }
        },
        Reply::TimedOut => Classification::Timeout,
        Reply::ConnectFailed => Classification::ConnectError,
        Reply::Failed => Classification::OtherError,
    }
}

/// Classifies a reply.
pub fn classify(reply: &Reply, expected: Option<u64>) -> (class: Classification)
    ensures
        class == spec_classify(*reply, expected),
{
    match reply {
        Reply::Answered { status, payload } => {
            if 400 <= *status && *status <= 599 {
                Classification::StatusError { status: *status }
            } else {
                let verified = match expected {
                    Some(checksum) => {
                        let carried = match decode_u64_be(payload.as_slice()) {
                            Some(value) => value == checksum,
                            None => false,
                        };
                        Some(carried)
                    },
                    None => None,
                };
                Classification::Success { status: *status, verified }
            }
        },
        Reply::TimedOut => Classification::Timeout,
        Reply::ConnectFailed => Classification::ConnectError,
        Reply::Failed => Classification::OtherError,
    }
}

impl Classification {
    /// The target's answer was wrong: it answered without an error status, but
    /// the body did not carry the expected checksum.
    pub open spec fn is_integrity_failure(self) -> bool {
        self matches Classification::Success { verified: Some(false), .. }
    }

    /// The request counts as a success: the target answered without an error
    /// status, and no checksum contradicts the answer.
    pub open spec fn is_success(self) -> bool {
        self is Success && !self.is_integrity_failure()
    }

    /// No answer came within the timeout.
    pub open spec fn is_timeout(self) -> bool {
        self is Timeout
    }

    /// The request failed for another reason than a timeout or a wrong answer:
    /// an error status, no connection, or another failure of the exchange.
    pub open spec fn is_error(self) -> bool {
        self is StatusError || self is ConnectError || self is OtherError
    }

    /// The status that the target answered with, or 0 where it did not answer.
    pub open spec fn status_or_zero(self) -> u16 {
        match self {
            Classification::Success { status, .. } => status,
            Classification::StatusError { status } => status,
            _ => 0,
        }
    }

    /// See `is_integrity_failure`.
    pub fn integrity_failure(&self) -> (b: bool)
        ensures
            b == self.is_integrity_failure(),
    {
        match self {
            Classification::Success { verified: Some(false), .. } => true,
            _ => false,
        }
    }

    /// See `is_success`.
    pub fn success(&self) -> (b: bool)
        ensures
            b == self.is_success(),
    {
        match self {
            Classification::Success { verified: Some(false), .. } => false,
            Classification::Success { .. } => true,
            _ => false,
        }
    }

    /// See `is_timeout`.
    pub fn timeout(&self) -> (b: bool)
        ensures
            b == self.is_timeout(),
    {
        match self {
            Classification::Timeout => true,
            _ => false,
        }
    }

    /// See `is_error`.
    pub fn error(&self) -> (b: bool)
        ensures
            b == self.is_error(),
    {
        match self {
            Classification::StatusError { .. } => true,
            Classification::ConnectError => true,
            Classification::OtherError => true,
            _ => false,
        }
    }

    /// See `status_or_zero`.
    pub fn status(&self) -> (status: u16)
        ensures
            status == self.status_or_zero(),
    {
        match self {
            Classification::Success { status, .. } => *status,
            Classification::StatusError { status } => *status,
            _ => 0,
        }
    }
}

/// Every outcome falls under exactly one of four heads: success, integrity
/// failure, timeout, or error.
pub proof fn lemma_classes_partition(class: Classification)
    ensures
        class.is_success() || class.is_integrity_failure() || class.is_timeout()
            || class.is_error(),
        !(class.is_success() && class.is_integrity_failure()),
        !(class.is_success() && class.is_timeout()),
        !(class.is_success() && class.is_error()),
        !(class.is_integrity_failure() && class.is_timeout()),
        !(class.is_integrity_failure() && class.is_error()),
        !(class.is_timeout() && class.is_error()),
{
}

/// A reply without an error status whose body does not spell the expected
/// checksum is an integrity failure, and is no error, timeout or success.
pub proof fn lemma_wrong_checksum_is_integrity_failure(
    status: u16,
    payload: Vec<u8>,
    checksum: u64,
)
    requires
        !is_error_status(status),
        !carries_checksum(payload@, checksum),
    ensures
        spec_classify(Reply::Answered { status, payload }, Some(checksum)).is_integrity_failure(),
        !spec_classify(Reply::Answered { status, payload }, Some(checksum)).is_error(),
        !spec_classify(Reply::Answered { status, payload }, Some(checksum)).is_success(),
{
}

/// The outcome of one request: when it started and ended, where it went, and
/// its class. Times are in microseconds since the epoch.
#[derive(Debug)]
pub struct Record {
    start: u64,
    end: u64,
    target: String,
    class: Classification,
}

impl Record {
    #[verifier::type_invariant]
    spec fn well_formed(self) -> bool {
        self.start <= self.end
    }

    /// When the request was sent.
    pub closed spec fn start(self) -> u64 {
        self.start
    }

    /// When the reply, or the failure, came.
    pub closed spec fn end(self) -> u64 {
        self.end
    }

    /// Where the request was sent.
    pub closed spec fn target(self) -> Seq<char> {
        self.target@
    }

    /// The class of the outcome.
    pub closed spec fn class(self) -> Classification {
        self.class
    }

    /// How long the request took.
    pub open spec fn latency(self) -> nat {
        (self.end() - self.start()) as nat
    }

    /// Records an outcome. A request cannot end before it started.
    pub fn new(start: u64, end: u64, target: String, class: Classification) -> (record: Self)
        requires
            start <= end,
        ensures
            record.start() == start,
            record.end() == end,
            record.target() == target@,
            record.class() == class,
    {
        Self { start, end, target, class }
    }

    /// When the request was sent, in microseconds since the epoch.
    pub fn start_time(&self) -> (start: u64)
        ensures
            start == self.start(),
    {
        self.start
    }

    /// How long the request took, in microseconds.
    pub fn duration(&self) -> (micros: u64)
        ensures
            micros == self.latency(),
            self.start() <= self.end(),
    {
        proof {
            use_type_invariant(self);
        }
        self.end - self.start
    }

    /// Where the request was sent.
    pub fn url(&self) -> (target: &String)
        ensures
            target@ == self.target(),
    {
        &self.target
    }

    /// The class of the outcome.
    pub fn classification(&self) -> (class: Classification)
        ensures
            class == self.class(),
    {
        self.class
    }
}

} // verus!
