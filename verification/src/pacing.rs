//! Decisions of the waiting and retrying loops; the loops themselves run
//! where the clock and sleeping are available.
use vstd::prelude::*;

use crate::mesh::MeshError;

verus! {

/// The longest wait for events: sixty seconds, in nanoseconds.
pub const MAX_WAIT_NANOS: u128 = 60_000_000_000;

/// The shortest poll interval: ten milliseconds, in nanoseconds.
pub const MIN_POLL_NANOS: u128 = 10_000_000;

/// The longest poll interval: five seconds, in nanoseconds.
pub const MAX_POLL_NANOS: u128 = 5_000_000_000;

/// Whether a wait of `timeout_nanos` polling every `poll_nanos` may start.
pub open spec fn wait_admissible(timeout_nanos: u128, poll_nanos: u128) -> Result<(), MeshError> {
    if timeout_nanos > MAX_WAIT_NANOS {
        Err(MeshError::TimeoutTooLong)
    } else if poll_nanos < MIN_POLL_NANOS || poll_nanos > MAX_POLL_NANOS {
        Err(MeshError::PollIntervalOutOfRange)
    } else {
        Ok(())
    }
}

/// Checks [`wait_admissible`].
pub fn check_wait(timeout_nanos: u128, poll_nanos: u128) -> (r: Result<(), MeshError>)
    ensures
        r == wait_admissible(timeout_nanos, poll_nanos),
{
    if timeout_nanos > MAX_WAIT_NANOS {
        Err(MeshError::TimeoutTooLong)
    } else if poll_nanos < MIN_POLL_NANOS || poll_nanos > MAX_POLL_NANOS {
        Err(MeshError::PollIntervalOutOfRange)
    } else {
        Ok(())
    }
}

/// What a waiting loop does after one look at the journal.
#[derive(Clone, Copy, PartialEq, Eq, Structural, Debug)]
pub enum WaitStep {
    /// Events were found: hand them over.
    Deliver,
    /// The deadline has passed: answer with no events.
    GiveUp,
    /// Sleep this many nanoseconds and look again.
    Sleep(u128),
}

/// The next step of a wait that has run `elapsed_nanos` of `timeout_nanos`:
/// deliver found events, give up at the deadline, or sleep one poll
/// interval but never past the deadline.
pub open spec fn next_wait_step(found: bool, elapsed_nanos: u128, timeout_nanos: u128, poll_nanos: u128) -> WaitStep {
    if found {
        WaitStep::Deliver
    } else if elapsed_nanos >= timeout_nanos {
        WaitStep::GiveUp
    } else if poll_nanos <= timeout_nanos - elapsed_nanos {
        WaitStep::Sleep(poll_nanos)
    } else {
        WaitStep::Sleep((timeout_nanos - elapsed_nanos) as u128)
    }
}

/// Decides [`next_wait_step`].
pub fn wait_step(found: bool, elapsed_nanos: u128, timeout_nanos: u128, poll_nanos: u128) -> (s: WaitStep)
    ensures
        s == next_wait_step(found, elapsed_nanos, timeout_nanos, poll_nanos),
{
    if found {
        WaitStep::Deliver
    } else if elapsed_nanos >= timeout_nanos {
        WaitStep::GiveUp
    } else if poll_nanos <= timeout_nanos - elapsed_nanos {
        WaitStep::Sleep(poll_nanos)
    } else {
        WaitStep::Sleep(timeout_nanos - elapsed_nanos)
    }
}

/// Attempts of one database write before it fails.
pub const WRITE_ATTEMPTS: u32 = 8;

/// The first back-off delay of a busy database, in milliseconds.
pub const FIRST_BACKOFF_MILLIS: u64 = 10;

/// What a write loop does after an attempt failed.
#[derive(Clone, Copy, PartialEq, Eq, Structural, Debug)]
pub enum RetryStep {
    /// Sleep `pause_millis`, then try again with `next_delay_millis`.
    Retry { pause_millis: u64, next_delay_millis: u64 },
    /// Report the failure.
    Fail,
}

/// After attempt `attempt` (counting from zero) failed: a busy or locked
/// database is retried after the current delay, doubling it, while
/// attempts remain; any other failure is reported at once.
pub open spec fn next_retry_step(attempt: u32, busy: bool, delay_millis: u64) -> RetryStep {
    if busy && attempt + 1 < WRITE_ATTEMPTS {
        RetryStep::Retry {
            pause_millis: delay_millis,
            next_delay_millis: if delay_millis * 2 > u64::MAX {
                u64::MAX
            } else {
                (delay_millis * 2) as u64
            },
        }
    } else {
        RetryStep::Fail
    }
}

/// Decides [`next_retry_step`].
pub fn retry_step(attempt: u32, busy: bool, delay_millis: u64) -> (s: RetryStep)
    ensures
        s == next_retry_step(attempt, busy, delay_millis),
{
    if busy && attempt < WRITE_ATTEMPTS - 1 {
        let next = if delay_millis > u64::MAX / 2 {
            u64::MAX
        } else {
            delay_millis * 2
        };
        RetryStep::Retry { pause_millis: delay_millis, next_delay_millis: next }
    } else {
        RetryStep::Fail
    }
}

/// The shortest heartbeat interval of a supervised session: ten
/// milliseconds, in nanoseconds.
pub const MIN_HEARTBEAT_NANOS: u128 = 10_000_000;

/// Accepts a heartbeat interval of at least [`MIN_HEARTBEAT_NANOS`].
pub fn check_heartbeat_interval(interval_nanos: u128) -> (r: Result<(), MeshError>)
    ensures
        r is Ok <==> interval_nanos >= MIN_HEARTBEAT_NANOS,
        r is Err ==> r == Err::<(), MeshError>(MeshError::HeartbeatTooFrequent),
{
    if interval_nanos < MIN_HEARTBEAT_NANOS {
        Err(MeshError::HeartbeatTooFrequent)
    } else {
        Ok(())
    }
}

} // verus!
