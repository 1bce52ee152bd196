use vstd::prelude::*;

verus! {

/// Tracks an optional caller deadline across repeated waits.
///
/// Instants are absolute times in milliseconds from an arbitrary monotonic
/// origin chosen by the caller; the tracker itself never reads a clock, it is
/// pure computation over the stored deadline. A timeout of `None` means
/// "wait forever".
pub struct PollTimeout {
    /// The absolute deadline in milliseconds, or `None` for "no deadline".
    pub deadline: Option<u64>,
}

/// The absolute deadline implied by starting a timeout of `timeout`
/// milliseconds at instant `now`, saturating at the largest representable
/// instant.
pub open spec fn deadline_for(timeout: Option<u64>, now: u64) -> Option<u64> {
    match timeout {
        None => None,
        Some(t) => if now + t <= u64::MAX {
            Some((now + t) as u64)
        } else {
            Some(u64::MAX)
        },
    }
}

impl PollTimeout {
    /// The deadline has passed at instant `now`. A tracker without a deadline
    /// never elapses.
    pub open spec fn spec_elapsed(self, now: u64) -> bool {
        match self.deadline {
            None => false,
            Some(d) => now >= d,
        }
    }

    /// Time remaining at instant `now`: `None` when there is no deadline,
    /// `Some(0)` once the deadline has passed, never negative.
    pub open spec fn spec_leftover(self, now: u64) -> Option<u64> {
        match self.deadline {
            None => None,
            Some(d) => if now >= d {
                Some(0u64)
            } else {
                Some((d - now) as u64)
            },
        }
    }

    /// Starts tracking the given timeout (in milliseconds) from instant `now`.
    pub fn new(timeout: Option<u64>, now: u64) -> (r: PollTimeout)
        ensures
            r.deadline == deadline_for(timeout, now),
    {
        match timeout {
            None => PollTimeout { deadline: None },
            Some(t) => {
                let d: u64 = if t <= u64::MAX - now {
                    now + t
                } else {
                    u64::MAX
                };
                PollTimeout { deadline: Some(d) }
            },
        }
    }

    /// True once the deadline has passed; always false for "wait forever".
    pub fn elapsed(&self, now: u64) -> (r: bool)
        ensures
            r == self.spec_elapsed(now),
    {
        match self.deadline {
            None => false,
            Some(d) => now >= d,
        }
    }

    /// The time remaining before the deadline at instant `now`, in
    /// milliseconds; `None` means "no deadline", `Some(0)` means the deadline
    /// has passed.
    pub fn leftover(&self, now: u64) -> (r: Option<u64>)
        ensures
            r == self.spec_leftover(now),
    {
        match self.deadline {
            None => None,
            Some(d) => if now >= d {
                Some(0u64)
            } else {
                Some(d - now)
            },
        }
    }
}

/// Once elapsed, always elapsed: querying the tracker later (the clock is
/// monotonic) can never re-arm it.
pub proof fn lemma_elapsed_never_rearms(t: PollTimeout, n1: u64, n2: u64)
    requires
        t.spec_elapsed(n1),
        n1 <= n2,
    ensures
        t.spec_elapsed(n2),
{
}

/// The remaining time is zero exactly when a deadline exists and has passed;
/// before the deadline it is strictly positive, so a wait started with it is
/// never cut short.
pub proof fn lemma_leftover_zero_iff_elapsed(t: PollTimeout, now: u64)
    ensures
        t.spec_leftover(now) == Some(0u64) <==> (t.deadline is Some && t.spec_elapsed(now)),
        (t.deadline is Some && !t.spec_elapsed(now)) ==> t.spec_leftover(now)->Some_0 > 0,
{
}

} // verus!
