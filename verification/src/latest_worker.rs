//! A background worker that only cares about the latest request: at most
//! one computation runs, at most one request waits (a newer one replaces
//! it), and a computation overtaken by a newer request is told to give up
//! and never publishes its result.

use vstd::prelude::*;

verus! {

/// The worker's bookkeeping by value.
pub ghost struct SlotView<T> {
    /// A computation is running.
    pub running: bool,
    /// A newer request arrived while it runs: its result is stale.
    pub superseded: bool,
    /// The request waiting for the running computation to end.
    pub pending: Option<T>,
    /// The worker was shut down.
    pub stopped: bool,
}

/// The bookkeeping of a latest-request worker.
pub struct LatestSlot<T> {
    running: bool,
    superseded: bool,
    pending: Option<T>,
    stopped: bool,
}

impl<T> View for LatestSlot<T> {
    type V = SlotView<T>;

    closed spec fn view(&self) -> SlotView<T> {
        SlotView { running: self.running, superseded: self.superseded, pending: self.pending, stopped: self.stopped }
    }
}

/// The worker after a request is submitted, and whether to start
/// computing it now.
pub open spec fn submit_spec<T>(v: SlotView<T>, request: T) -> (SlotView<T>, bool) {
    if v.stopped {
        (v, false)
    } else if !v.running {
        (SlotView { running: true, superseded: false, ..v }, true)
    } else {
        (SlotView { superseded: true, pending: Some(request), ..v }, false)
    }
}

/// The worker after the running computation ended; whether its result is
/// published; the request to compute next, if any.
pub open spec fn finished_spec<T>(v: SlotView<T>) -> (SlotView<T>, bool, Option<T>) {
    if v.stopped {
        (SlotView { running: false, superseded: false, pending: None, stopped: true }, false, None)
    } else {
        (
            SlotView { running: v.pending is Some, superseded: false, pending: None, stopped: false },
            !v.superseded,
            v.pending,
        )
    }
}

impl<T> LatestSlot<T> {
    pub fn new() -> (r: Self)
        ensures
            r@ == (SlotView::<T> { running: false, superseded: false, pending: None, stopped: false }),
    {
        LatestSlot { running: false, superseded: false, pending: None, stopped: false }
    }

    /// Take a request. Returns it back when it is to be computed now;
    /// otherwise it waits, replacing any request that waited before it.
    pub fn submit(&mut self, request: T) -> (r: Option<T>)
        ensures
            final(self)@ == submit_spec(old(self)@, request).0,
            submit_spec(old(self)@, request).1 ==> r == Some(request),
            !submit_spec(old(self)@, request).1 ==> r is None,
    {
        if self.stopped {
            None
        } else if !self.running {
            self.running = true;
            self.superseded = false;
            Some(request)
        } else {
            self.superseded = true;
            self.pending = Some(request);
            None
        }
    }

    /// Whether the running computation should give up: a newer request
    /// arrived, or the worker was shut down.
    pub fn cancelled(&self) -> (r: bool)
        ensures
            r == (self@.superseded || self@.stopped),
    {
        self.superseded || self.stopped
    }

    /// Whether the worker was shut down.
    pub fn stopped(&self) -> (r: bool)
        ensures
            r == self@.stopped,
    {
        self.stopped
    }

    /// The running computation ended. Returns whether to publish its result,
    /// and the request to compute next.
    pub fn finished(&mut self) -> (r: (bool, Option<T>))
        ensures
            final(self)@ == finished_spec(old(self)@).0,
            r.0 == finished_spec(old(self)@).1,
            r.1 == finished_spec(old(self)@).2,
    {
        if self.stopped {
            self.running = false;
            self.superseded = false;
            self.pending = None;
            (false, None)
        } else {
            let publish = !self.superseded;
            let next = self.pending.take();
            self.running = next.is_some();
            self.superseded = false;
            (publish, next)
        }
    }

    /// Shut the worker down: the waiting request is dropped, the running
    /// computation is told to give up, and nothing publishes any more.
    pub fn stop(&mut self)
        ensures
            final(self)@ == (SlotView::<T> { pending: None, stopped: true, ..old(self)@ }),
    {
        self.stopped = true;
        self.pending = None;
    }
}

/// At most one computation runs: a request submitted while one runs never
/// starts another.
pub proof fn law_one_computation_at_a_time<T>(v: SlotView<T>, request: T)
    requires
        v.running,
    ensures
        !submit_spec(v, request).1,
        submit_spec(v, request).0.running,
{
}

/// The latest request wins: whatever was submitted while a computation
/// ran, the result of that computation is not published, and the last
/// request submitted is the one computed next.
pub proof fn law_latest_request_wins<T>(v: SlotView<T>, first: T, second: T)
    requires
        v.running,
        !v.stopped,
    ensures
        ({
            let w = submit_spec(submit_spec(v, first).0, second).0;
            &&& !finished_spec(w).1
            &&& finished_spec(w).2 == Some(second)
            &&& finished_spec(w).0.running
        }),
{
}

/// An undisturbed computation publishes, and the worker goes idle.
pub proof fn law_undisturbed_results_publish<T>(v: SlotView<T>)
    requires
        v.running,
        !v.superseded,
        v.pending is None,
        !v.stopped,
    ensures
        finished_spec(v).1,
        finished_spec(v).2 is None,
        !finished_spec(v).0.running,
{
}

/// After shutdown nothing publishes and nothing new starts.
pub proof fn law_nothing_after_stop<T>(v: SlotView<T>, request: T)
    requires
        v.stopped,
    ensures
        !submit_spec(v, request).1,
        !finished_spec(v).1,
        finished_spec(v).2 is None,
{
}

} // verus!
