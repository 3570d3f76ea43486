//! The decisions of the client that calls the remote judge: when the next
//! call may go out, how many calls were made, and what to do with a reply.
//! Time is counted in nanoseconds from any fixed origin.
use vstd::prelude::*;

verus! {

/// The pacing state shared by all calls: the earliest instant at which the
/// next call may go out, and the number of calls made.
#[derive(Clone, Copy, Debug)]
pub struct Pacer {
    pub earliest_next_call: u64,
    pub calls: u64,
}

/// The next call's slot: `spacing` after the previous slot, or now if that
/// has passed (capped at the largest representable instant).
pub open spec fn next_slot(previous: u64, now: u64, spacing: u64) -> u64 {
    let due = if previous + spacing <= u64::MAX {
        (previous + spacing) as u64
    } else {
        u64::MAX
    };
    if due >= now {
        due
    } else {
        now
    }
}

impl Pacer {
    /// A pacer whose first call may go out at `now`, with no calls made.
    pub fn new(now: u64) -> (r: Pacer)
        ensures
            r.earliest_next_call == now,
            r.calls == 0,
    {
        Pacer { earliest_next_call: now, calls: 0 }
    }

    /// Takes the next slot: returns the instant to wait for before calling,
    /// which becomes the earliest instant of the call after it.
    pub fn acquire(&mut self, now: u64, spacing: u64) -> (slot: u64)
        ensures
            slot == next_slot(old(self).earliest_next_call, now, spacing),
            final(self).earliest_next_call == slot,
            final(self).calls == old(self).calls,
    {
        let due = self.earliest_next_call.saturating_add(spacing);
        let slot = if due >= now {
            due
        } else {
            now
        };
        self.earliest_next_call = slot;
        slot
    }

    /// Counts one call made (the count stops at its largest value).
    pub fn record_call(&mut self)
        ensures
            final(self).calls == if old(self).calls < u64::MAX {
                (old(self).calls + 1) as u64
            } else {
                u64::MAX
            },
            final(self).earliest_next_call == old(self).earliest_next_call,
    {
        self.calls = self.calls.saturating_add(1);
    }

    /// Number of calls made.
    pub fn num_calls(&self) -> (r: u64)
        ensures
            r == self.calls,
    {
        self.calls
    }
}

/// What to do with the judge's reply.
#[derive(Clone, Copy, Debug, PartialEq, Eq, Structural)]
pub enum ReplyAction {
    /// Read the score from the reply.
    Accept,
    /// Rate limited: wait for the next slot and send the same request again.
    Retry,
    /// Any other failure: the run cannot go on.
    Fatal,
}

/// HTTP status of a rate-limited reply.
pub const TOO_MANY_REQUESTS: u16 = 429;

/// Classifies a reply by its HTTP status: success (2xx) is accepted, a
/// rate-limit reply is retried, anything else is fatal.
pub fn classify_reply(status: u16) -> (r: ReplyAction)
    ensures
        r == (if status == TOO_MANY_REQUESTS {
            ReplyAction::Retry
        } else if 200 <= status < 300 {
            ReplyAction::Accept
        } else {
            ReplyAction::Fatal
        }),
{
    if status == TOO_MANY_REQUESTS {
        ReplyAction::Retry
    } else if 200 <= status && status < 300 {
        ReplyAction::Accept
    } else {
        ReplyAction::Fatal
    }
}

} // verus!
