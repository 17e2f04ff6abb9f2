//! How long to wait after a failed call, and when to stop trying.

use vstd::prelude::*;

verus! {

/// Bounded exponential backoff: the wait doubles with every failure up to a
/// cap, and after `max_attempts` failed attempts the call is given up.
#[derive(Debug, Clone, Copy, PartialEq, Eq, Structural)]
pub struct RetryPolicy {
    pub max_attempts: u32,
    pub base_delay_ms: u64,
    pub max_delay_ms: u64,
}

/// What to do after a failed attempt.
#[derive(Debug, Clone, Copy, PartialEq, Eq, Structural)]
pub enum RetryDecision {
    /// Try again once this many milliseconds have passed.
    RetryAfter(u64),
    /// The attempts are used up: the failure is fatal.
    GiveUp,
}

/// `base` doubled `times` times.
pub open spec fn doubled(base: nat, times: nat) -> nat
    decreases times,
{
    if times == 0 {
        base
    } else {
        2 * doubled(base, (times - 1) as nat)
    }
}

/// The wait after the failure number `failures`, counted from one: the base
/// delay after the first, twice as long after each further one, never more
/// than the cap.
pub open spec fn backoff(policy: RetryPolicy, failures: nat) -> nat {
    let raw = doubled(policy.base_delay_ms as nat, if failures == 0 {
        0
    } else {
        (failures - 1) as nat
    });
    if raw <= policy.max_delay_ms {
        raw
    } else {
        policy.max_delay_ms as nat
    }
}

/// What `policy` decides after the failure number `failures`.
pub open spec fn decision(policy: RetryPolicy, failures: nat) -> RetryDecision {
    if failures < policy.max_attempts {
        RetryDecision::RetryAfter(backoff(policy, failures) as u64)
    } else {
        RetryDecision::GiveUp
    }
}

impl RetryPolicy {
    /// Five attempts, half a second at first, thirty seconds at most.
    pub fn standard() -> (policy: RetryPolicy)
        ensures
            policy == (RetryPolicy { max_attempts: 5, base_delay_ms: 500, max_delay_ms: 30_000 }),
    {
        RetryPolicy { max_attempts: 5, base_delay_ms: 500, max_delay_ms: 30_000 }
    }

    /// The wait after the failure number `failures`.
    pub fn delay_ms(&self, failures: u32) -> (ms: u64)
        ensures
            ms == backoff(*self, failures as nat),
    {
        let cap: u64 = self.max_delay_ms;
        let steps: u32 = if failures == 0 {
            0
        } else {
            failures - 1
        };
        let mut wait: u64 = if self.base_delay_ms <= cap {
            self.base_delay_ms
        } else {
            cap
        };
        let mut done: u32 = 0;
        while done < steps
            invariant
                done <= steps,
                cap == self.max_delay_ms,
                wait <= cap,
                wait == if doubled(self.base_delay_ms as nat, done as nat) <= cap {
                    doubled(self.base_delay_ms as nat, done as nat)
                } else {
                    cap as nat
                },
            decreases steps - done,
        {
            wait = if wait >= cap - wait {
                cap
            } else {
                wait + wait
            };
            done = done + 1;
        }
        wait
    }

    /// Whether to try again after the failure number `failures`, and when.
    pub fn decide(&self, failures: u32) -> (next: RetryDecision)
        ensures
            next == decision(*self, failures as nat),
    {
        if failures < self.max_attempts {
            RetryDecision::RetryAfter(self.delay_ms(failures))
        } else {
            RetryDecision::GiveUp
        }
    }
}

/// The wait never exceeds the cap, and a later failure never waits less.
pub proof fn lemma_backoff_bounded(policy: RetryPolicy, failures: nat)
    ensures
        backoff(policy, failures) <= policy.max_delay_ms,
        backoff(policy, failures) <= backoff(policy, failures + 1),
{
    if failures > 0 {
        assert(doubled(policy.base_delay_ms as nat, failures) == 2 * doubled(
            policy.base_delay_ms as nat,
            (failures - 1) as nat,
        ));
    }
}

} // verus!
