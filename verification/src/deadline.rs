//! The time budget of a search, read from the monotonic clock at a bounded
//! interval.

use vstd::prelude::*;
use std::time::{Duration, Instant};

verus! {

/// How many calls of [`Deadline::expired`] share one reading of the clock.
pub const CHECK_INTERVAL: u32 = 64;

#[verifier::external_type_specification]
#[verifier::external_body]
pub struct ExInstant(Instant);

/// `std::time::Instant::now`: a reading of the monotonic clock. It depends
/// on when it is called, so nothing is claimed of it.
#[verifier::external_body]
fn clock_now() -> Instant {
    Instant::now()
}

/// `std::time::Instant::elapsed`: the time that has passed since `start`
/// was read. It depends on when it is called, so nothing is claimed of it.
#[verifier::external_body]
fn clock_elapsed(start: &Instant) -> Duration {
    start.elapsed()
}

/// `std::time::Duration::as_nanos`: the duration in whole nanoseconds.
/// Nothing is claimed of the number.
#[verifier::external_body]
fn duration_nanos(span: &Duration) -> u128 {
    span.as_nanos()
}

/// Whether a time budget of `timeout_ms` milliseconds is exceeded once
/// `elapsed_nanos` nanoseconds have passed.
pub fn budget_exceeded(elapsed_nanos: u128, timeout_ms: u64) -> (over: bool)
    ensures
        over == (elapsed_nanos > timeout_ms * 1_000_000),
{
    elapsed_nanos > (timeout_ms as u128) * 1_000_000
}

/// A time budget that started to run when it was made.
pub struct Deadline {
    start: Instant,
    timeout_ms: Option<u64>,
    calls: u32,
}

impl Deadline {
    /// The budget in milliseconds, if there is one.
    pub closed spec fn budget(&self) -> Option<u64> {
        self.timeout_ms
    }

    /// How many calls of `expired` have been made since the clock was last
    /// due to be read.
    pub closed spec fn calls(&self) -> nat {
        self.calls as nat
    }

    /// The counter stays below the interval.
    pub closed spec fn wf(&self) -> bool {
        self.calls < CHECK_INTERVAL
    }

    /// Whether there is a budget at all.
    pub open spec fn limited(&self) -> bool {
        self.budget() is Some
    }

    /// A budget of `timeout_ms` milliseconds from now on; without a
    /// number, a budget that never runs out.
    pub fn start(timeout_ms: Option<u64>) -> (deadline: Deadline)
        ensures
            deadline.wf(),
            deadline.budget() == timeout_ms,
            deadline.calls() == 0,
    {
        Deadline { start: clock_now(), timeout_ms, calls: 0 }
    }

    /// Whether the budget is found to be exceeded.
    ///
    /// Without a budget the answer is `false` and nothing changes. With
    /// one, the clock is read at the first call and then at every
    /// `CHECK_INTERVAL`-th; the calls between answer `false`.
    pub fn expired(&mut self) -> (over: bool)
        requires
            old(self).wf(),
        ensures
            final(self).wf(),
            final(self).budget() == old(self).budget(),
            final(self).calls() == if old(self).limited() {
                (old(self).calls() + 1) % (CHECK_INTERVAL as nat)
            } else {
                old(self).calls()
            },
            over ==> old(self).limited() && old(self).calls() == 0,
    {
        match self.timeout_ms {
            None => false,
            Some(timeout_ms) => {
                let due = self.calls == 0;
                self.calls = if self.calls >= CHECK_INTERVAL - 1 {
                    0
                } else {
                    self.calls + 1
                };
                if due {
                    let span = clock_elapsed(&self.start);
                    budget_exceeded(duration_nanos(&span), timeout_ms)
                } else {
                    false
                }
            },
        }
    }
}

} // verus!
