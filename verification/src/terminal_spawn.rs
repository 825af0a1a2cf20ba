//! Spawning terminal sessions in the background: one spawn in flight at a
//! time, a per-session "spawn pending" marker that cancelling clears, and
//! what becomes of a spawned terminal once it arrives.

use vstd::prelude::*;

verus! {

/// What the spawning thread reported.
#[derive(Clone, Copy, Debug, PartialEq, Eq, Structural)]
pub enum SpawnEvent {
    /// A terminal for this session is ready.
    Spawned(u64),
    /// The spawn failed.
    Failed,
    /// The spawning thread is gone without a word.
    Disconnected,
}

/// What the runtime does with one report.
#[derive(Clone, Copy, Debug, PartialEq, Eq, Structural)]
pub enum SpawnAction {
    /// Install the new terminal and show it.
    Keep(u64),
    /// Nobody wants it any more: kill its process.
    Kill(u64),
    /// Tell the user the spawn failed.
    ReportFailure,
    /// Nothing to do.
    Nothing,
}

/// The spawns by value.
pub ghost struct SpawnView {
    /// The session whose spawn is in flight, if any.
    pub in_flight: Option<u64>,
    /// The sessions marked as waiting for a spawn.
    pub pending: Set<u64>,
}

/// Background terminal spawns.
pub struct TerminalSpawns {
    in_flight: Option<u64>,
    pending: Vec<u64>,
}

impl View for TerminalSpawns {
    type V = SpawnView;

    closed spec fn view(&self) -> SpawnView {
        SpawnView { in_flight: self.in_flight, pending: self.pending@.to_set() }
    }
}

/// Whether a spawn request starts a spawn: only when none is in flight.
pub open spec fn request_spec(v: SpawnView, session: u64) -> (SpawnView, bool) {
    match v.in_flight {
        Some(p) => (SpawnView { pending: if p != session { v.pending.remove(session) } else { v.pending }, ..v }, false),
        None => (SpawnView { in_flight: Some(session), pending: v.pending.insert(session) }, true),
    }
}

/// One report of the in-flight spawn for session `flight`, with the
/// terminal panel present or not.
pub open spec fn event_spec(pending: Set<u64>, flight: u64, e: SpawnEvent, panel_present: bool) -> (Set<u64>, SpawnAction) {
    match e {
        SpawnEvent::Spawned(s) => {
            let keep = pending.contains(s) && panel_present;
            let after = if s != flight {
                pending.remove(s).remove(flight)
            } else {
                pending.remove(s)
            };
            (after, if keep { SpawnAction::Keep(s) } else { SpawnAction::Kill(s) })
        },
        SpawnEvent::Failed => (pending.remove(flight), SpawnAction::ReportFailure),
        SpawnEvent::Disconnected => (pending.remove(flight), SpawnAction::Nothing),
    }
}

/// The reports of one drain, in order.
pub open spec fn events_spec(pending: Set<u64>, flight: u64, es: Seq<SpawnEvent>, panel_present: bool) -> (
    Set<u64>,
    Seq<SpawnAction>,
)
    decreases es.len(),
{
    if es.len() == 0 {
        (pending, Seq::empty())
    } else {
        let (p, acts) = events_spec(pending, flight, es.drop_last(), panel_present);
        let (q, a) = event_spec(p, flight, es.last(), panel_present);
        (q, acts.push(a))
    }
}

fn remove_id(v: &mut Vec<u64>, id: u64)
    requires
        old(v)@.no_duplicates(),
    ensures
        final(v)@.no_duplicates(),
        final(v)@.to_set() == old(v)@.to_set().remove(id),
{
    let ghost before = v@;
    let mut out: Vec<u64> = Vec::new();
    let mut i: usize = 0;
    while i < v.len()
        invariant
            0 <= i <= v@.len(),
            v@ == before,
            before.no_duplicates(),
            out@.no_duplicates(),
            forall|x: u64| out@.contains(x) <==> (before.take(i as int).contains(x) && x != id),
        decreases v@.len() - i,
    {
        let x = v[i];
        let ghost t0 = before.take(i as int);
        let ghost t1 = before.take(i + 1);
        proof {
            assert(t1 =~= t0.push(x));
            assert(!t0.contains(x)) by {
                if t0.contains(x) {
                    let k = choose|k: int| 0 <= k < t0.len() && t0[k] == x;
                    assert(before[k] == before[i as int]);
                }
            }
        }
        if x != id {
            let ghost o = out@;
            out.push(x);
            proof {
                assert(out@ =~= o.push(x));
                assert forall|a: int, b: int| 0 <= a < b < out@.len() implies out@[a] != out@[b] by {
                    if b == o.len() {
                        assert(o.contains(o[a]));
                    }
                }
                assert forall|y: u64| out@.contains(y) <==> (t1.contains(y) && y != id) by {
                    assert(o.contains(y) <==> (t0.contains(y) && y != id));
                    if out@.contains(y) {
                        let k = choose|k: int| 0 <= k < out@.len() && out@[k] == y;
                        if k < o.len() {
                            assert(o[k] == y);
                            assert(o.contains(y));
                            let j = choose|j: int| 0 <= j < t0.len() && t0[j] == y;
                            assert(t1[j] == y);
                        } else {
                            assert(y == x);
                            assert(t1[t0.len() as int] == y);
                        }
                    }
                    if t1.contains(y) && y != id {
                        let k = choose|k: int| 0 <= k < t1.len() && t1[k] == y;
                        if k < t0.len() {
                            assert(t0[k] == y);
                            assert(t0.contains(y));
                            assert(o.contains(y));
                            let j = choose|j: int| 0 <= j < o.len() && o[j] == y;
                            assert(out@[j] == y);
                        } else {
                            assert(y == x);
                            assert(out@[o.len() as int] == y);
                        }
                    }
                }
            }
        } else {
            proof {
                assert forall|y: u64| out@.contains(y) <==> (t1.contains(y) && y != id) by {
                    if t1.contains(y) {
                        let k = choose|k: int| 0 <= k < t1.len() && t1[k] == y;
                        if k < t0.len() {
                            assert(t0[k] == y);
                        }
                    }
                    if t0.contains(y) {
                        let k = choose|k: int| 0 <= k < t0.len() && t0[k] == y;
                        assert(t1[k] == y);
                    }
                }
            }
        }
        i = i + 1;
    }
    proof {
        assert(before.take(before.len() as int) =~= before);
        assert(out@.to_set() =~= before.to_set().remove(id));
    }
    *v = out;
}

fn contains_id(v: &Vec<u64>, id: u64) -> (r: bool)
    ensures
        r == v@.to_set().contains(id),
{
    let mut i: usize = 0;
    while i < v.len()
        invariant
            0 <= i <= v@.len(),
            forall|k: int| 0 <= k < i ==> v@[k] != id,
        decreases v@.len() - i,
    {
        if v[i] == id {
            proof {
                assert(v@.contains(id));
            }
            return true;
        }
        i = i + 1;
    }
    false
}

impl TerminalSpawns {
    pub closed spec fn wf(&self) -> bool {
        self.pending@.no_duplicates()
    }

    pub fn new() -> (r: Self)
        ensures
            r.wf(),
            r@ == (SpawnView { in_flight: None, pending: Set::empty() }),
    {
        let r = TerminalSpawns { in_flight: None, pending: Vec::new() };
        proof {
            assert(r.pending@.to_set() =~= Set::<u64>::empty());
        }
        r
    }

    /// Whether a session is marked as waiting for its spawn.
    pub fn is_pending(&self, session: u64) -> (r: bool)
        ensures
            r == self@.pending.contains(session),
    {
        contains_id(&self.pending, session)
    }

    /// Mark a session as waiting for its spawn.
    pub fn mark_pending(&mut self, session: u64)
        requires
            old(self).wf(),
        ensures
            final(self).wf(),
            final(self)@ == (SpawnView { pending: old(self)@.pending.insert(session), ..old(self)@ }),
    {
        if !contains_id(&self.pending, session) {
            let ghost before = self.pending@;
            self.pending.push(session);
            proof {
                assert forall|a: int, b: int| 0 <= a < b < self.pending@.len() implies self.pending@[a]
                    != self.pending@[b] by {
                    if b == before.len() {
                        assert(before.contains(before[a]));
                    }
                }
                assert(self.pending@ =~= before.push(session));
                assert forall|x: u64| self.pending@.contains(x) <==> (before.contains(x) || x == session) by {
                    if self.pending@.contains(x) {
                        let k = choose|k: int| 0 <= k < self.pending@.len() && self.pending@[k] == x;
                        if k < before.len() {
                            assert(before[k] == x);
                        }
                    }
                    if before.contains(x) {
                        let k = choose|k: int| 0 <= k < before.len() && before[k] == x;
                        assert(self.pending@[k] == x);
                    }
                    if x == session {
                        assert(self.pending@[before.len() as int] == x);
                    }
                }
                assert(self.pending@.to_set() =~= before.to_set().insert(session));
            }
        } else {
            proof {
                assert(self.pending@.to_set() =~= self.pending@.to_set().insert(session));
            }
        }
    }

    /// Cancel the wait for a session: its terminal will be killed when it
    /// arrives.
    pub fn clear_pending(&mut self, session: u64)
        requires
            old(self).wf(),
        ensures
            final(self).wf(),
            final(self)@ == (SpawnView { pending: old(self)@.pending.remove(session), ..old(self)@ }),
    {
        remove_id(&mut self.pending, session);
    }

    /// A terminal for `session` was asked for. Returns whether to start the
    /// spawn: while another spawn is in flight the request is dropped (and a
    /// different session's marker cleared, so nothing waits for it).
    pub fn request(&mut self, session: u64) -> (start: bool)
        requires
            old(self).wf(),
        ensures
            final(self).wf(),
            (final(self)@, start) == request_spec(old(self)@, session),
    {
        match self.in_flight {
            Some(p) => {
                if p != session {
                    remove_id(&mut self.pending, session);
                }
                false
            },
            None => {
                self.mark_pending(session);
                self.in_flight = Some(session);
                true
            },
        }
    }

    /// The reports of one drain of the spawning thread, in order; the
    /// terminal panel is present or not. Any report ends the flight.
    pub fn reports(&mut self, events: &Vec<SpawnEvent>, panel_present: bool) -> (r: Vec<SpawnAction>)
        requires
            old(self).wf(),
        ensures
            final(self).wf(),
            match old(self)@.in_flight {
                None => r@.len() == 0 && final(self)@ == old(self)@,
                Some(flight) => {
                    &&& (final(self)@.pending, r@) == events_spec(old(self)@.pending, flight, events@, panel_present)
                    &&& final(self)@.in_flight == if events@.len() > 0 {
                        None
                    } else {
                        old(self)@.in_flight
                    }
                },
            },
    {
        let flight = match self.in_flight {
            Some(f) => f,
            None => return Vec::new(),
        };
        let mut actions: Vec<SpawnAction> = Vec::new();
        let mut i: usize = 0;
        proof {
            assert(events@.take(0) =~= Seq::<SpawnEvent>::empty());
        }
        while i < events.len()
            invariant
                0 <= i <= events@.len(),
                self.wf(),
                self.in_flight == old(self).in_flight,
                old(self)@.in_flight == Some(flight),
                (self@.pending, actions@) == events_spec(old(self)@.pending, flight, events@.take(i as int), panel_present),
            decreases events@.len() - i,
        {
            proof {
                assert(events@.take(i + 1).drop_last() =~= events@.take(i as int));
                assert(events@.take(i + 1).last() == events@[i as int]);
            }
            let action = match events[i] {
                SpawnEvent::Spawned(s) => {
                    let keep = self.is_pending(s) && panel_present;
                    self.clear_pending(s);
                    if s != flight {
                        self.clear_pending(flight);
                    }
                    if keep {
                        SpawnAction::Keep(s)
                    } else {
                        SpawnAction::Kill(s)
                    }
                },
                SpawnEvent::Failed => {
                    self.clear_pending(flight);
                    SpawnAction::ReportFailure
                },
                SpawnEvent::Disconnected => {
                    self.clear_pending(flight);
                    SpawnAction::Nothing
                },
            };
            actions.push(action);
            i = i + 1;
        }
        proof {
            assert(events@.take(events@.len() as int) =~= events@);
        }
        if events.len() > 0 {
            self.in_flight = None;
        }
        actions
    }
}

/// A spawned terminal is installed only if its session still waits for it
/// and the terminal panel is there: a cancelled request never produces a
/// session.
pub proof fn law_cancelled_spawns_are_killed(pending: Set<u64>, flight: u64, s: u64, panel_present: bool)
    requires
        !pending.contains(s) || !panel_present,
    ensures
        event_spec(pending, flight, SpawnEvent::Spawned(s), panel_present).1 == SpawnAction::Kill(s),
        !event_spec(pending, flight, SpawnEvent::Spawned(s), panel_present).0.contains(s),
{
}

/// At most one spawn is in flight: a second request while one flies never
/// starts another, and a repeated request for the flying session keeps its
/// marker.
pub proof fn law_one_spawn_in_flight(v: SpawnView, session: u64)
    requires
        v.in_flight is Some,
    ensures
        !request_spec(v, session).1,
        request_spec(v, session).0.in_flight == v.in_flight,
        v.in_flight == Some(session) ==> request_spec(v, session).0.pending == v.pending,
{
}

} // verus!
