//! The leaf primitive shared by both bridges: a suspension cell holding an
//! optional result and an optional wake token.
//!
//! "Suspension" in this runtime means a poll returns
//! [`PollResult::Pending`] and control goes back to the scheduler; the task
//! is resumed only when the owning component hands the stored wake token
//! back to the scheduler. A wake token is a plain integer naming the
//! suspended task; dispatching it is the caller's job, so the cell itself
//! stays a pure value.

use vstd::prelude::*;

verus! {

/// Outcome of polling a suspension cell: either nothing is available yet,
/// or the resolved value is handed over.
#[derive(Debug, PartialEq, Eq)]
pub enum PollResult<T> {
    Pending,
    Ready(T),
}

/// A suspend/resume cell: one producer stores a result exactly once, one
/// consumer polls for it and leaves a wake token while the result is not
/// there yet.
///
/// The value is stored strictly before the waiter token is surrendered for
/// dispatch, so a woken consumer always observes the value
/// (see [`lemma_wake_ordering`]).
pub struct SuspendState<T> {
    /// The resolved value, once the producer has delivered it.
    pub result: Option<T>,
    /// Wake token of the most recent poller, if it found no result.
    pub waiter: Option<u64>,
}

impl<T> SuspendState<T> {
    /// The state of a freshly created cell: no result, no waiter.
    pub open spec fn spec_new() -> Self {
        SuspendState { result: None, waiter: None }
    }

    /// Resolution as a transition: the value is stored and the registered
    /// waiter (if any) is surrendered to the caller for dispatch.
    pub open spec fn spec_resolve(self, value: T) -> (Self, Option<u64>) {
        (SuspendState { result: Some(value), waiter: None }, self.waiter)
    }

    /// Polling as a transition: a stored result is consumed; otherwise the
    /// poller's wake token replaces any previous one.
    pub open spec fn spec_poll(self, waker: u64) -> (Self, PollResult<T>) {
        match self.result {
            Some(v) => (
                SuspendState { result: None, waiter: self.waiter },
                PollResult::Ready(v),
            ),
            None => (
                SuspendState { result: None, waiter: Some(waker) },
                PollResult::Pending,
            ),
        }
    }

    /// Creates an empty cell.
    pub fn new() -> (s: Self)
        ensures
            s == Self::spec_new(),
    {
        SuspendState { result: None, waiter: None }
    }

    /// Stores `value` and returns the wake token that must now be
    /// dispatched, if a poller left one.
    ///
    /// A cell is resolved at most once: resolving an already resolved cell
    /// is a logic error in the owning component, so it is ruled out here.
    pub fn resolve(&mut self, value: T) -> (w: Option<u64>)
        requires
            old(self).result is None,
        ensures
            (*final(self), w) == old(self).spec_resolve(value),
    {
        self.result = Some(value);
        let w = self.waiter;
        self.waiter = None;
        w
    }

    /// Consumes a stored result, or registers `waker` (overwriting any
    /// previous token — only the most recent poller is woken) and reports
    /// `Pending`.
    pub fn poll(&mut self, waker: u64) -> (r: PollResult<T>)
        ensures
            (*final(self), r) == old(self).spec_poll(waker),
    {
        let stored = self.result.take();
        match stored {
            Some(v) => PollResult::Ready(v),
            None => {
                self.waiter = Some(waker);
                PollResult::Pending
            },
        }
    }
}

/// Wake ordering law: resolving a cell and then polling it — in logical
/// event order, whatever the interleaving with earlier polls — always
/// yields the resolved value, never `Pending`, because the value is stored
/// before the wake token is surrendered.
pub proof fn lemma_wake_ordering<T>(s: SuspendState<T>, value: T, waker: u64)
    requires
        s.result is None,
    ensures
        ({
            let (resolved, _) = s.spec_resolve(value);
            let (after, r) = resolved.spec_poll(waker);
            &&& r == PollResult::Ready(value)
            &&& after.result is None
        }),
{
}

} // verus!
