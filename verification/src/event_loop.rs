//! When the event loop wakes up next. Times are milliseconds on the
//! runtime's monotonic clock.

use vstd::prelude::*;

verus! {

/// With cursor blinking off, the loop still wakes this often, so that
/// transient messages expire.
pub const MAINTENANCE_WAKE_MS: u64 = 600;

/// What the next wake-up depends on.
pub struct WakeInputs {
    pub now: u64,
    /// When the cursor last blinked.
    pub last_tick: u64,
    /// The blink period; zero turns blinking off.
    pub cursor_blink_ms: u64,
    /// Every pending deadline: debounces, request timeouts, scheduled
    /// restarts, a transient message's expiry, deferred startup work.
    pub deadlines: Vec<u64>,
    /// When the pointer started dwelling for a hover, if it does.
    pub hover_dwell_started: Option<u64>,
    pub hover_delay_ms: u64,
}

pub open spec fn min_int(a: int, b: int) -> int {
    if a <= b {
        a
    } else {
        b
    }
}

/// The earliest of `base` and the deadlines later than `now`. A deadline
/// already past is left out: its check ran this tick, and waiting for an
/// instant in the past would spin the loop.
pub open spec fn earliest(base: int, now: int, deadlines: Seq<u64>) -> int
    decreases deadlines.len(),
{
    if deadlines.len() == 0 {
        base
    } else if deadlines.last() > now {
        min_int(earliest(base, now, deadlines.drop_last()), deadlines.last() as int)
    } else {
        earliest(base, now, deadlines.drop_last())
    }
}

/// The wake-up the blink schedule asks for.
pub open spec fn blink_wake(w: WakeInputs) -> int {
    if w.cursor_blink_ms == 0 {
        w.now + MAINTENANCE_WAKE_MS
    } else {
        w.last_tick + w.cursor_blink_ms
    }
}

/// The next wake-up: the next blink or the earliest pending deadline that
/// is still ahead, and the end of a hover dwell if that is still ahead.
/// Deadlines already past, a dwell's among them, need no wake-up.
pub open spec fn next_wake_spec(w: WakeInputs) -> int {
    let e = earliest(blink_wake(w), w.now as int, w.deadlines@);
    match w.hover_dwell_started {
        Some(started) => if started + w.hover_delay_ms > w.now {
            min_int(e, started + w.hover_delay_ms)
        } else {
            e
        },
        None => e,
    }
}

pub open spec fn wake_fits(w: WakeInputs) -> bool {
    &&& w.now + MAINTENANCE_WAKE_MS <= u64::MAX
    &&& w.last_tick + w.cursor_blink_ms <= u64::MAX
    &&& (w.hover_dwell_started matches Some(s) ==> s + w.hover_delay_ms <= u64::MAX)
}

proof fn lemma_earliest_bounds(base: int, now: int, deadlines: Seq<u64>)
    ensures
        earliest(base, now, deadlines) <= base,
        earliest(base, now, deadlines) == base || exists|i: int|
            0 <= i < deadlines.len() && deadlines[i] > now && earliest(base, now, deadlines) == deadlines[i],
        forall|i: int| 0 <= i < deadlines.len() && deadlines[i] > now ==> earliest(base, now, deadlines) <= deadlines[i],
    decreases deadlines.len(),
{
    if deadlines.len() > 0 {
        let init = deadlines.drop_last();
        lemma_earliest_bounds(base, now, init);
        assert forall|i: int| 0 <= i < deadlines.len() && deadlines[i] > now implies earliest(base, now, deadlines)
            <= deadlines[i] by {
            if i < init.len() {
                assert(init[i] == deadlines[i]);
            }
        }
        if earliest(base, now, deadlines) != base && earliest(base, now, deadlines) != deadlines.last() {
            let i = choose|i: int| 0 <= i < init.len() && init[i] > now && earliest(base, now, init) == init[i];
            assert(init[i] == deadlines[i]);
        }
    }
}

/// The instant the event loop must run again.
pub fn next_wake(w: &WakeInputs) -> (r: u64)
    requires
        wake_fits(*w),
    ensures
        r == next_wake_spec(*w),
        (w.cursor_blink_ms != 0 ==> w.last_tick + w.cursor_blink_ms > w.now) ==> r > w.now,
{
    let mut next = if w.cursor_blink_ms == 0 {
        w.now + MAINTENANCE_WAKE_MS
    } else {
        w.last_tick + w.cursor_blink_ms
    };
    let mut i: usize = 0;
    while i < w.deadlines.len()
        invariant
            0 <= i <= w.deadlines@.len(),
            next == earliest(blink_wake(*w), w.now as int, w.deadlines@.take(i as int)),
        decreases w.deadlines@.len() - i,
    {
        proof {
            assert(w.deadlines@.take(i + 1).drop_last() =~= w.deadlines@.take(i as int));
        }
        if w.deadlines[i] > w.now && w.deadlines[i] < next {
            next = w.deadlines[i];
        }
        i = i + 1;
    }
    proof {
        assert(w.deadlines@.take(w.deadlines@.len() as int) =~= w.deadlines@);
    }
    if let Some(started) = w.hover_dwell_started {
        let dwell_deadline = started + w.hover_delay_ms;
        if dwell_deadline > w.now && dwell_deadline < next {
            next = dwell_deadline;
        }
    }
    proof {
        lemma_earliest_bounds(blink_wake(*w), w.now as int, w.deadlines@);
    }
    next
}

/// The loop never schedules a wake-up in the past, which would spin it:
/// whatever deadlines have passed, and whatever an expired hover dwell
/// says, the next wake-up is ahead as long as the next blink is.
pub proof fn law_next_wake_is_ahead(w: WakeInputs)
    requires
        w.cursor_blink_ms != 0 ==> w.last_tick + w.cursor_blink_ms > w.now,
    ensures
        next_wake_spec(w) > w.now,
{
    lemma_earliest_bounds(blink_wake(w), w.now as int, w.deadlines@);
}

/// The wake-up is the earliest of the next blink, every deadline still
/// ahead and the end of a dwell still ahead: it never comes later than any
/// of them, and it is one of them.
pub proof fn law_next_wake_serves_every_deadline(w: WakeInputs)
    ensures
        next_wake_spec(w) <= blink_wake(w),
        forall|i: int| 0 <= i < w.deadlines@.len() && w.deadlines@[i] > w.now ==> next_wake_spec(w) <= w.deadlines@[i],
        w.hover_dwell_started matches Some(s) ==> (s + w.hover_delay_ms > w.now ==> next_wake_spec(w) <= s
            + w.hover_delay_ms),
        next_wake_spec(w) == blink_wake(w) || (exists|i: int|
            0 <= i < w.deadlines@.len() && w.deadlines@[i] > w.now && next_wake_spec(w) == w.deadlines@[i]) || (
        w.hover_dwell_started is Some && next_wake_spec(w) == w.hover_dwell_started->0 + w.hover_delay_ms
            && w.hover_dwell_started->0 + w.hover_delay_ms > w.now),
{
    lemma_earliest_bounds(blink_wake(w), w.now as int, w.deadlines@);
}

} // verus!
