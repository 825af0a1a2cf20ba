//! Language-server process supervision: which `(server, root)` pairs run,
//! crash-restart backoff and giving up, the cap on roots outside the
//! workspace, and the memo of servers whose binary is missing.
//!
//! The processes themselves live with the caller, filed under the same
//! keys; every decision about them is taken here.

use vstd::prelude::*;
use vstd::arithmetic::power::lemma_pow0;
use vstd::arithmetic::power2::{pow2, lemma_pow2_unfold};
use crate::completion::strings_view;
use crate::paths::{path_starts_with, std_path_starts_with};
use crate::server_keys::{filtered, keys_view, lists_keys, KeyTable, KeyView, ServerKey};

verus! {

/// Roots outside the workspace (a standard library, a registry cache, ...)
/// are capped per session, so files opened all over the file system do not
/// spawn an unbounded number of servers.
pub const MAX_DETACHED_ROOTS: usize = 4;

/// Crash-restart attempts before a server gives up and reports `Failed`.
pub const MAX_RESTART_ATTEMPTS: u8 = 3;

/// Exponential crash-restart backoff:
/// `RESTART_BACKOFF_BASE_MS * 2^(attempt - 1)`, capped at
/// `RESTART_BACKOFF_MAX_MS`.
pub const RESTART_BACKOFF_BASE_MS: u64 = 200;

pub const RESTART_BACKOFF_MAX_MS: u64 = 5_000;

/// The delay before the `attempt`-th restart, in milliseconds.
pub open spec fn backoff_spec(attempt: nat) -> nat {
    let d = RESTART_BACKOFF_BASE_MS as nat * pow2((attempt - 1) as nat);
    if d < RESTART_BACKOFF_MAX_MS {
        d
    } else {
        RESTART_BACKOFF_MAX_MS as nat
    }
}

/// The delay before the `attempt`-th restart: 200 ms, 400 ms, 800 ms, ...
/// capped at five seconds, so a flapping server never spins the event loop.
pub fn restart_backoff_ms(attempt: u8) -> (r: u64)
    requires
        attempt >= 1,
    ensures
        r == backoff_spec(attempt as nat),
        r <= RESTART_BACKOFF_MAX_MS,
{
    let mut d: u64 = RESTART_BACKOFF_BASE_MS;
    let mut k: u8 = 1;
    proof {
        lemma_pow0(2);
    }
    while k < attempt
        invariant
            1 <= k <= attempt,
            d == backoff_spec(k as nat),
        decreases attempt - k,
    {
        proof {
            lemma_pow2_unfold(k as nat);
        }
        d = if d >= RESTART_BACKOFF_MAX_MS / 2 {
            RESTART_BACKOFF_MAX_MS
        } else {
            d * 2
        };
        k = k + 1;
    }
    d
}

/// What became of a root whose server exited.
#[derive(Clone, Copy, PartialEq, Eq, Structural, Debug)]
pub enum RestartState {
    /// A restart is scheduled; this is its attempt number.
    Restarting(u8),
    /// The server gave up at this root.
    Failed,
}

/// A root whose server process exited, and what happens next there.
#[derive(Clone, Debug)]
pub struct ExitedRoot {
    pub root: String,
    pub state: RestartState,
}

pub ghost struct ExitedView {
    pub root: Seq<char>,
    pub state: RestartState,
}

impl View for ExitedRoot {
    type V = ExitedView;

    open spec fn view(&self) -> ExitedView {
        ExitedView { root: self.root@, state: self.state }
    }
}

pub open spec fn exited_view(s: Seq<ExitedRoot>) -> Seq<ExitedView> {
    s.map_values(|e: ExitedRoot| e@)
}

pub open spec fn exited_roots(s: Seq<ExitedView>) -> Seq<Seq<char>> {
    s.map_values(|e: ExitedView| e.root)
}

/// Everything the supervisor knows.
pub ghost struct SupervisorView {
    /// Running servers, with the generation of their process.
    pub servers: Map<KeyView, u64>,
    /// Roots outside the workspace that a server was started at.
    pub detached_roots: Seq<Seq<char>>,
    /// Crashes since the root was last ready or manually restarted.
    pub attempts: Map<KeyView, u8>,
    /// Roots a server gave up on, oldest first.
    pub failed: Seq<KeyView>,
    /// Scheduled crash restarts, in milliseconds.
    pub deadlines: Map<KeyView, u64>,
    /// A deliberate shutdown is under way: exits are expected.
    pub shutting_down: bool,
    /// Respawned servers whose next readiness must reopen documents.
    pub resync: Set<KeyView>,
    /// Keys whose server binary could not be started.
    pub missing: Set<KeyView>,
}

/// The roots a server gave up on, oldest first.
pub open spec fn failed_roots_of(failed: Seq<KeyView>, server_id: Seq<char>) -> Seq<Seq<char>>
    decreases failed.len(),
{
    if failed.len() == 0 {
        Seq::empty()
    } else {
        let r = failed_roots_of(failed.drop_last(), server_id);
        if failed.last().0 == server_id {
            r.push(failed.last().1)
        } else {
            r
        }
    }
}

/// The failed entries of the servers that `keep` keeps, in order.
pub open spec fn failed_keeping(failed: Seq<KeyView>, keep: spec_fn(Seq<char>) -> bool) -> Seq<KeyView>
    decreases failed.len(),
{
    if failed.len() == 0 {
        Seq::empty()
    } else {
        let r = failed_keeping(failed.drop_last(), keep);
        if keep(failed.last().0) {
            r.push(failed.last())
        } else {
            r
        }
    }
}

/// The failed entries of servers other than `server_id`, in order.
pub open spec fn failed_without(failed: Seq<KeyView>, server_id: Seq<char>) -> Seq<KeyView> {
    failed_keeping(failed, |x: Seq<char>| x != server_id)
}

/// Where a server would run at `root`, that root lies outside the
/// workspace (or there is no workspace).
pub open spec fn is_detached(root: Seq<char>, workspace_root: Option<Seq<char>>) -> bool {
    match workspace_root {
        None => true,
        Some(w) => !std_path_starts_with(root, w),
    }
}

/// Whether a file opened under `key.1` should start its server there, and
/// if so whether the start claims a detached-root slot: not when the server
/// runs there already, nor when its binary was found missing there, nor for
/// a new detached root once `MAX_DETACHED_ROOTS` are taken.
pub open spec fn ensure_spec(st: SupervisorView, key: KeyView, workspace_root: Option<Seq<char>>) -> Option<bool> {
    if st.servers.contains_key(key) || st.missing.contains(key) {
        None
    } else {
        let detached = is_detached(key.1, workspace_root);
        let already = st.detached_roots.contains(key.1);
        if detached && !already && st.detached_roots.len() >= MAX_DETACHED_ROOTS {
            None
        } else {
            Some(detached && !already)
        }
    }
}

pub open spec fn opt_view(o: Option<&String>) -> Option<Seq<char>> {
    match o {
        Some(s) => Some(s@),
        None => None,
    }
}

pub proof fn lemma_failed_keeping_step(failed: Seq<KeyView>, i: int, keep: spec_fn(Seq<char>) -> bool)
    requires
        0 <= i < failed.len(),
    ensures
        failed_keeping(failed.take(i + 1), keep) == if keep(failed[i].0) {
            failed_keeping(failed.take(i), keep).push(failed[i])
        } else {
            failed_keeping(failed.take(i), keep)
        },
        failed_roots_of(failed.take(i + 1), failed[i].0) == failed_roots_of(failed.take(i), failed[i].0).push(
            failed[i].1,
        ),
        forall|id: Seq<char>|
            id != failed[i].0 ==> failed_roots_of(failed.take(i + 1), id) == failed_roots_of(failed.take(i), id),
{
    assert(failed.take(i + 1).drop_last() =~= failed.take(i));
}

/// Dropping the entries of the servers `b` rejects, then those `a`
/// rejects, drops those either rejects.
pub proof fn lemma_failed_keeping_twice(failed: Seq<KeyView>, a: spec_fn(Seq<char>) -> bool, b: spec_fn(Seq<char>) -> bool)
    ensures
        failed_keeping(failed_keeping(failed, b), a) == failed_keeping(failed, |x: Seq<char>| b(x) && a(x)),
    decreases failed.len(),
{
    if failed.len() > 0 {
        lemma_failed_keeping_twice(failed.drop_last(), a, b);
        let inner = failed_keeping(failed, b);
        let r = failed_keeping(failed.drop_last(), b);
        if b(failed.last().0) {
            assert(inner.drop_last() =~= r);
        } else {
        }
    }
}

/// The crash count a root reaches with one more crash.
pub open spec fn next_attempt(st: SupervisorView, key: KeyView) -> int {
    if st.attempts.contains_key(key) {
        st.attempts[key] + 1
    } else {
        1
    }
}

/// One root's server exited: its process is gone and its crash count grows;
/// past `MAX_RESTART_ATTEMPTS` the server gives up there, otherwise a
/// restart is scheduled after the backoff.
pub open spec fn exit_step(st: SupervisorView, server_id: Seq<char>, root: Seq<char>, now: u64) -> (
    SupervisorView,
    ExitedView,
) {
    let key = (server_id, root);
    let a = next_attempt(st, key);
    let st1 = SupervisorView {
        servers: st.servers.remove(key),
        attempts: st.attempts.insert(key, a as u8),
        ..st
    };
    if a > MAX_RESTART_ATTEMPTS {
        (SupervisorView { failed: st1.failed.push(key), ..st1 }, ExitedView { root, state: RestartState::Failed })
    } else {
        (
            SupervisorView {
                deadlines: st1.deadlines.insert(key, (now + backoff_spec(a as nat)) as u64),
                ..st1
            },
            ExitedView { root, state: RestartState::Restarting(a as u8) },
        )
    }
}

/// The roots' servers exited, one after the other.
pub open spec fn exit_all(st: SupervisorView, server_id: Seq<char>, roots: Seq<Seq<char>>, now: u64) -> (
    SupervisorView,
    Seq<ExitedView>,
)
    decreases roots.len(),
{
    if roots.len() == 0 {
        (st, Seq::empty())
    } else {
        let (s1, r1) = exit_all(st, server_id, roots.drop_last(), now);
        let (s2, e) = exit_step(s1, server_id, roots.last(), now);
        (s2, r1.push(e))
    }
}

/// The process that exited is the one running at `root`: a message about
/// an older process of a server that was since restarted is not.
pub open spec fn exiting(st: SupervisorView, server_id: Seq<char>, generation: u64, root: Seq<char>) -> bool {
    &&& !st.shutting_down
    &&& st.servers.contains_key((server_id, root))
    &&& st.servers[(server_id, root)] == generation
}

/// The exits report the roots in the order they were given.
pub proof fn lemma_exit_all_roots(st: SupervisorView, server_id: Seq<char>, roots: Seq<Seq<char>>, now: u64)
    ensures
        exited_roots(exit_all(st, server_id, roots, now).1) == roots,
    decreases roots.len(),
{
    if roots.len() > 0 {
        lemma_exit_all_roots(st, server_id, roots.drop_last(), now);
        let r1 = exit_all(st, server_id, roots.drop_last(), now).1;
        let r = exit_all(st, server_id, roots, now).1;
        assert(exited_roots(r) =~= exited_roots(r1).push(roots.last()));
        assert(roots =~= roots.drop_last().push(roots.last()));
    } else {
        assert(exited_roots(exit_all(st, server_id, roots, now).1) =~= roots);
    }
}

/// Some key among the first `n` belongs to the server `x`.
pub open spec fn listed_before(keys: Seq<KeyView>, n: int, x: Seq<char>) -> bool {
    exists|j: int| 0 <= j < n && keys[j].0 == x
}

/// Keeping every server keeps every entry.
pub proof fn lemma_failed_keeping_all(failed: Seq<KeyView>, keep: spec_fn(Seq<char>) -> bool)
    requires
        forall|x: Seq<char>| #[trigger] keep(x),
    ensures
        failed_keeping(failed, keep) == failed,
    decreases failed.len(),
{
    if failed.len() > 0 {
        lemma_failed_keeping_all(failed.drop_last(), keep);
        assert(failed.drop_last().push(failed.last()) =~= failed);
    }
}

/// Two tests that agree keep the same entries.
pub proof fn lemma_failed_keeping_ext(failed: Seq<KeyView>, a: spec_fn(Seq<char>) -> bool, b: spec_fn(Seq<char>) -> bool)
    requires
        forall|x: Seq<char>| #[trigger] a(x) == b(x),
    ensures
        failed_keeping(failed, a) == failed_keeping(failed, b),
    decreases failed.len(),
{
    if failed.len() > 0 {
        lemma_failed_keeping_ext(failed.drop_last(), a, b);
        assert(a(failed.last().0) == b(failed.last().0));
    }
}

/// Supervision state for every language server of the session.
pub struct LspSupervisor {
    servers: KeyTable<u64>,
    detached_roots: Vec<String>,
    restart_attempts: KeyTable<u8>,
    failed_roots: Vec<ServerKey>,
    restart_deadlines: KeyTable<u64>,
    shutting_down: bool,
    resync_pending: KeyTable<()>,
    missing_servers: KeyTable<()>,
}

impl View for LspSupervisor {
    type V = SupervisorView;

    closed spec fn view(&self) -> SupervisorView {
        SupervisorView {
            servers: self.servers@,
            detached_roots: strings_view(self.detached_roots@),
            attempts: self.restart_attempts@,
            failed: keys_view(self.failed_roots@),
            deadlines: self.restart_deadlines@,
            shutting_down: self.shutting_down,
            resync: self.resync_pending@.dom(),
            missing: self.missing_servers@.dom(),
        }
    }
}

impl LspSupervisor {
    pub closed spec fn wf(&self) -> bool {
        &&& self.servers.wf()
        &&& self.restart_attempts.wf()
        &&& self.restart_deadlines.wf()
        &&& self.resync_pending.wf()
        &&& self.missing_servers.wf()
        &&& strings_view(self.detached_roots@).no_duplicates()
        &&& self.detached_roots@.len() <= MAX_DETACHED_ROOTS
    }

    pub fn new() -> (r: Self)
        ensures
            r.wf(),
            r@ == (SupervisorView {
                servers: Map::empty(),
                detached_roots: Seq::empty(),
                attempts: Map::empty(),
                failed: Seq::empty(),
                deadlines: Map::empty(),
                shutting_down: false,
                resync: Set::empty(),
                missing: Set::empty(),
            }),
    {
        let r = LspSupervisor {
            servers: KeyTable::new(),
            detached_roots: Vec::new(),
            restart_attempts: KeyTable::new(),
            failed_roots: Vec::new(),
            restart_deadlines: KeyTable::new(),
            shutting_down: false,
            resync_pending: KeyTable::new(),
            missing_servers: KeyTable::new(),
        };
        proof {
            assert(strings_view(r.detached_roots@) =~= Seq::<Seq<char>>::empty());
            assert(keys_view(r.failed_roots@) =~= Seq::<KeyView>::empty());
            assert(r.resync_pending@.dom() =~= Set::<KeyView>::empty());
            assert(r.missing_servers@.dom() =~= Set::<KeyView>::empty());
        }
        r
    }

    /// A server process runs at this root.
    pub fn is_running(&self, server_id: &String, root: &String) -> (r: bool)
        requires
            self.wf(),
        ensures
            r == self@.servers.contains_key((server_id@, root@)),
    {
        self.servers.contains(server_id, root)
    }

    /// The generation of the process running at this root.
    pub fn generation(&self, server_id: &String, root: &String) -> (r: Option<u64>)
        requires
            self.wf(),
        ensures
            r == (if self@.servers.contains_key((server_id@, root@)) {
                Some(self@.servers[(server_id@, root@)])
            } else {
                None
            }),
    {
        self.servers.get(server_id, root)
    }

    /// The roots a server runs at, each once.
    pub fn roots_for(&self, server_id: &String) -> (r: Vec<String>)
        requires
            self.wf(),
        ensures
            strings_view(r@).no_duplicates(),
            forall|root: Seq<char>|
                strings_view(r@).contains(root) <==> self@.servers.contains_key((server_id@, root)),
    {
        self.servers.roots_of(server_id)
    }

    /// The crash count of a root.
    pub fn restart_attempts(&self, server_id: &String, root: &String) -> (r: Option<u8>)
        requires
            self.wf(),
        ensures
            r == (if self@.attempts.contains_key((server_id@, root@)) {
                Some(self@.attempts[(server_id@, root@)])
            } else {
                None
            }),
    {
        self.restart_attempts.get(server_id, root)
    }

    /// When a scheduled restart of a root is due.
    pub fn restart_deadline(&self, server_id: &String, root: &String) -> (r: Option<u64>)
        requires
            self.wf(),
        ensures
            r == (if self@.deadlines.contains_key((server_id@, root@)) {
                Some(self@.deadlines[(server_id@, root@)])
            } else {
                None
            }),
    {
        self.restart_deadlines.get(server_id, root)
    }

    /// A start of this server at this root found no binary.
    pub fn is_missing(&self, server_id: &String, root: &String) -> (r: bool)
        requires
            self.wf(),
        ensures
            r == self@.missing.contains((server_id@, root@)),
    {
        self.missing_servers.contains(server_id, root)
    }

    /// The roots outside the workspace that servers were started at.
    pub fn detached_roots(&self) -> (r: &Vec<String>)
        ensures
            strings_view(r@) == self@.detached_roots,
    {
        &self.detached_roots
    }

    /// The server `server_id` reports that its process of `generation`
    /// exited. Every root running that very process loses it and counts a
    /// crash; a restart is scheduled after the backoff, or, past
    /// `MAX_RESTART_ATTEMPTS`, the server gives up at that root. A message
    /// about an older process (already replaced), or one that arrives during
    /// a deliberate shutdown, changes nothing. The caller reaps the returned
    /// roots' processes and drops their diagnostics and requests.
    pub fn server_exited(&mut self, server_id: &String, generation: u64, now: u64) -> (r: Vec<ExitedRoot>)
        requires
            old(self).wf(),
            now + RESTART_BACKOFF_MAX_MS <= u64::MAX,
            forall|root: Seq<char>|
                exiting(old(self)@, server_id@, generation, root) ==> next_attempt(old(self)@, (server_id@, root))
                    <= u8::MAX,
        ensures
            final(self).wf(),
            exited_roots(exited_view(r@)).no_duplicates(),
            forall|root: Seq<char>|
                exited_roots(exited_view(r@)).contains(root) <==> exiting(old(self)@, server_id@, generation, root),
            final(self)@ == exit_all(old(self)@, server_id@, exited_roots(exited_view(r@)), now).0,
            exited_view(r@) == exit_all(old(self)@, server_id@, exited_roots(exited_view(r@)), now).1,
    {
        let ghost st = self@;
        let mut out: Vec<ExitedRoot> = Vec::new();
        if self.shutting_down {
            proof {
                assert(exited_roots(exited_view(out@)) =~= Seq::<Seq<char>>::empty());
            }
            return out;
        }
        let candidates = self.servers.roots_of(server_id);
        let mut roots: Vec<String> = Vec::new();
        let mut i: usize = 0;
        while i < candidates.len()
            invariant
                self@ == st,
                self.wf(),
                !st.shutting_down,
                0 <= i <= candidates@.len(),
                strings_view(candidates@).no_duplicates(),
                forall|root: Seq<char>|
                    strings_view(candidates@).contains(root) <==> st.servers.contains_key((server_id@, root)),
                strings_view(roots@).no_duplicates(),
                forall|root: Seq<char>|
                    strings_view(roots@).contains(root) <==> exists|j: int|
                        0 <= j < i && candidates@[j]@ == root && exiting(st, server_id@, generation, root),
            decreases candidates@.len() - i,
        {
            let c = &candidates[i];
            let ghost prev = roots@;
            proof {
                assert(strings_view(candidates@)[i as int] == c@);
                assert(strings_view(candidates@).contains(c@));
                assert(st.servers.contains_key((server_id@, c@)));
            }
            if self.servers.get(server_id, c) == Some(generation) {
                roots.push(c.clone());
            }
            proof {
                let rv = strings_view(roots@);
                let pv = strings_view(prev);
                let cv = strings_view(candidates@);
                if exiting(st, server_id@, generation, c@) {
                    assert(rv =~= pv.push(c@));
                    assert(!pv.contains(c@)) by {
                        if pv.contains(c@) {
                            let j = choose|j: int| 0 <= j < i && candidates@[j]@ == c@ && exiting(st, server_id@, generation, c@);
                            assert(cv[j] == cv[i as int]);
                        }
                    }
                    assert forall|a: int, b: int| 0 <= a < rv.len() && 0 <= b < rv.len() && a != b implies rv[a] != rv[b] by {
                        if a < pv.len() && b < pv.len() {
                        } else if a < pv.len() {
                            assert(pv.contains(rv[a]));
                        } else {
                            assert(pv.contains(rv[b]));
                        }
                    }
                } else {
                    assert(rv == pv);
                }
                assert forall|root: Seq<char>| rv.contains(root) <==> exists|j: int|
                    0 <= j < i + 1 && candidates@[j]@ == root && exiting(st, server_id@, generation, root) by {
                    if exists|j: int| 0 <= j < i + 1 && candidates@[j]@ == root && exiting(st, server_id@, generation, root) {
                        let j = choose|j: int| 0 <= j < i + 1 && candidates@[j]@ == root && exiting(st, server_id@, generation, root);
                        if j < i {
                            assert(pv.contains(root));
                            let a = choose|a: int| 0 <= a < pv.len() && pv[a] == root;
                            assert(rv[a] == root);
                        } else {
                            assert(rv[rv.len() - 1] == root);
                        }
                    }
                    if rv.contains(root) && !pv.contains(root) {
                        let a = choose|a: int| 0 <= a < rv.len() && rv[a] == root;
                        if a < pv.len() {
                            assert(pv[a] == root);
                        }
                    }
                }
            }
            i = i + 1;
        }
        let ghost rv = strings_view(roots@);
        proof {
            assert forall|root: Seq<char>| rv.contains(root) <==> exiting(st, server_id@, generation, root) by {
                if exiting(st, server_id@, generation, root) {
                    assert(strings_view(candidates@).contains(root));
                    let j = choose|j: int| 0 <= j < candidates@.len() && strings_view(candidates@)[j] == root;
                }
            }
            assert(rv.take(0) =~= Seq::<Seq<char>>::empty());
        }
        let n = roots.len();
        let mut k: usize = 0;
        while k < n
            invariant
                n == rv.len(),
                rv == strings_view(roots@),
                rv.no_duplicates(),
                forall|root: Seq<char>| rv.contains(root) ==> exiting(st, server_id@, generation, root),
                forall|root: Seq<char>|
                    exiting(st, server_id@, generation, root) ==> next_attempt(st, (server_id@, root)) <= u8::MAX,
                now + RESTART_BACKOFF_MAX_MS <= u64::MAX,
                0 <= k <= n,
                self.wf(),
                self@ == exit_all(st, server_id@, rv.take(k as int), now).0,
                exited_view(out@) == exit_all(st, server_id@, rv.take(k as int), now).1,
                forall|j: int|
                    k <= j < n ==> #[trigger] next_attempt(self@, (server_id@, rv[j])) == next_attempt(
                        st,
                        (server_id@, rv[j]),
                    ),
            decreases n - k,
        {
            let root = &roots[k];
            let ghost before = self@;
            proof {
                assert(rv[k as int] == root@);
                assert(rv.take(k as int + 1).drop_last() =~= rv.take(k as int));
                assert(rv.take(k as int + 1).last() == root@);
                assert(rv.contains(root@));
                assert(next_attempt(before, (server_id@, rv[k as int])) == next_attempt(st, (server_id@, rv[k as int])));
                assert(next_attempt(before, (server_id@, root@)) <= u8::MAX);
            }
            self.servers.remove(server_id, root);
            let a: u8 = match self.restart_attempts.get(server_id, root) {
                Some(x) => x + 1,
                None => 1,
            };
            self.restart_attempts.insert(server_id, root, a);
            if a > MAX_RESTART_ATTEMPTS {
                let ghost fv = self.failed_roots@;
                self.failed_roots.push(ServerKey { server_id: server_id.clone(), root: root.clone() });
                proof {
                    assert(keys_view(self.failed_roots@) =~= keys_view(fv).push((server_id@, root@)));
                }
                out.push(ExitedRoot { root: root.clone(), state: RestartState::Failed });
            } else {
                let delay = restart_backoff_ms(a);
                self.restart_deadlines.insert(server_id, root, now + delay);
                out.push(ExitedRoot { root: root.clone(), state: RestartState::Restarting(a) });
            }
            proof {
                let (s2, e) = exit_step(before, server_id@, root@, now);
                assert(self@ == s2);
                assert(exited_view(out@) =~= exit_all(st, server_id@, rv.take(k as int), now).1.push(e));
                assert forall|j: int| k + 1 <= j < n implies #[trigger] next_attempt(self@, (server_id@, rv[j]))
                    == next_attempt(st, (server_id@, rv[j])) by {
                    assert(rv[j] != rv[k as int]);
                    assert(next_attempt(before, (server_id@, rv[j])) == next_attempt(st, (server_id@, rv[j])));
                }
            }
            k = k + 1;
        }
        proof {
            assert(rv.take(n as int) =~= rv);
            assert(exited_roots(exited_view(out@)) =~= rv) by {
                lemma_exit_all_roots(st, server_id@, rv, now);
            }
        }
        out
    }

    /// Remove the failed roots of `server_id` and give them back, oldest
    /// first.
    fn take_failed(&mut self, server_id: &String) -> (r: Vec<String>)
        requires
            old(self).wf(),
        ensures
            final(self).wf(),
            strings_view(r@) == failed_roots_of(old(self)@.failed, server_id@),
            final(self)@ == (SupervisorView { failed: failed_without(old(self)@.failed, server_id@), ..old(self)@ }),
    {
        let ghost fv = keys_view(self.failed_roots@);
        let ghost keep = |x: Seq<char>| x != server_id@;
        let mut kept: Vec<ServerKey> = Vec::new();
        let mut taken: Vec<String> = Vec::new();
        let n = self.failed_roots.len();
        let mut i: usize = 0;
        proof {
            assert(fv.take(0) =~= Seq::<KeyView>::empty());
            assert(keys_view(kept@) =~= Seq::<KeyView>::empty());
            assert(strings_view(taken@) =~= Seq::<Seq<char>>::empty());
        }
        while i < n
            invariant
                fv == keys_view(self.failed_roots@),
                n == fv.len(),
                0 <= i <= n,
                keep == (|x: Seq<char>| x != server_id@),
                keys_view(kept@) == failed_keeping(fv.take(i as int), keep),
                strings_view(taken@) == failed_roots_of(fv.take(i as int), server_id@),
            decreases n - i,
        {
            let e = &self.failed_roots[i];
            proof {
                lemma_failed_keeping_step(fv, i as int, keep);
                assert(fv[i as int] == e@);
            }
            let ghost pk = kept@;
            let ghost pt = taken@;
            if e.server_id == *server_id {
                taken.push(e.root.clone());
                proof {
                    assert(strings_view(taken@) =~= strings_view(pt).push(e.root@));
                }
            } else {
                kept.push(ServerKey { server_id: e.server_id.clone(), root: e.root.clone() });
                proof {
                    assert(keys_view(kept@) =~= keys_view(pk).push(e@));
                }
            }
            i = i + 1;
        }
        proof {
            assert(fv.take(n as int) =~= fv);
        }
        self.failed_roots = kept;
        taken
    }

    /// The restart backoffs scheduled for `now` or earlier, each once; they
    /// are no longer scheduled. The caller respawns each one whose server is
    /// still configured.
    pub fn take_due_restarts(&mut self, now: u64) -> (r: Vec<ServerKey>)
        requires
            old(self).wf(),
        ensures
            final(self).wf(),
            final(self)@ == (SupervisorView {
                deadlines: filtered(old(self)@.deadlines, |k: KeyView, v: u64| v > now),
                ..old(self)@
            }),
            lists_keys(r@, old(self)@.deadlines, |k: KeyView, v: u64| v <= now),
    {
        self.restart_deadlines.take_due(now)
    }

    /// A respawned server must reopen its documents when it is next ready.
    pub fn mark_resync(&mut self, server_id: &String, root: &String)
        requires
            old(self).wf(),
        ensures
            final(self).wf(),
            final(self)@ == (SupervisorView {
                resync: old(self)@.resync.insert((server_id@, root@)),
                ..old(self)@
            }),
    {
        self.resync_pending.insert(server_id, root, ());
        proof {
            assert(self.resync_pending@.dom() =~= old(self)@.resync.insert((server_id@, root@)));
        }
    }

    /// About to start a server at a root: false when one already runs
    /// there, which guards against starting a second process for the same
    /// key. Otherwise a start is attempted, so a missing binary recorded
    /// there is forgotten.
    pub fn begin_spawn(&mut self, server_id: &String, root: &String) -> (r: bool)
        requires
            old(self).wf(),
        ensures
            final(self).wf(),
            r == !old(self)@.servers.contains_key((server_id@, root@)),
            final(self)@ == if r {
                SupervisorView { missing: old(self)@.missing.remove((server_id@, root@)), ..old(self)@ }
            } else {
                old(self)@
            },
    {
        if self.servers.contains(server_id, root) {
            return false;
        }
        self.missing_servers.remove(server_id, root);
        proof {
            assert(self.missing_servers@.dom() =~= old(self)@.missing.remove((server_id@, root@)));
        }
        true
    }

    /// The outcome of a start: the generation of the new process, or
    /// `None` when its binary could not be started, which is remembered so
    /// that opening more files there does not try again.
    pub fn spawn_finished(&mut self, server_id: &String, root: &String, generation: Option<u64>)
        requires
            old(self).wf(),
        ensures
            final(self).wf(),
            final(self)@ == match generation {
                Some(g) => SupervisorView {
                    servers: old(self)@.servers.insert((server_id@, root@), g),
                    ..old(self)@
                },
                None => SupervisorView {
                    missing: old(self)@.missing.insert((server_id@, root@)),
                    ..old(self)@
                },
            },
    {
        match generation {
            Some(g) => {
                self.servers.insert(server_id, root, g);
            },
            None => {
                self.missing_servers.insert(server_id, root, ());
                proof {
                    assert(self.missing_servers@.dom() =~= old(self)@.missing.insert((server_id@, root@)));
                }
            },
        }
    }

    /// Whether opening a file under `root` should start `server_id` there:
    /// `None` to do nothing, or whether a successful start claims a
    /// detached-root slot.
    pub fn ensure_decision(&self, server_id: &String, root: &String, workspace_root: Option<&String>) -> (r: Option<bool>)
        requires
            self.wf(),
        ensures
            r == ensure_spec(self@, (server_id@, root@), opt_view(workspace_root)),
    {
        if self.servers.contains(server_id, root) || self.missing_servers.contains(server_id, root) {
            return None;
        }
        let detached = match workspace_root {
            None => true,
            Some(w) => !path_starts_with(root, w),
        };
        let already = self.has_detached_root(root);
        if detached && !already && self.detached_roots.len() >= MAX_DETACHED_ROOTS {
            return None;
        }
        Some(detached && !already)
    }

    fn has_detached_root(&self, root: &String) -> (r: bool)
        ensures
            r == self@.detached_roots.contains(root@),
    {
        let mut i: usize = 0;
        while i < self.detached_roots.len()
            invariant
                0 <= i <= self.detached_roots@.len(),
                forall|k: int| 0 <= k < i ==> self.detached_roots@[k]@ != root@,
            decreases self.detached_roots@.len() - i,
        {
            if self.detached_roots[i] == *root {
                proof {
                    assert(strings_view(self.detached_roots@)[i as int] == root@);
                }
                return true;
            }
            i = i + 1;
        }
        proof {
            if strings_view(self.detached_roots@).contains(root@) {
                let k = choose|k: int| 0 <= k < self.detached_roots@.len() && strings_view(self.detached_roots@)[k] == root@;
            }
        }
        false
    }

    /// A server started at a detached root: it takes one of the
    /// `MAX_DETACHED_ROOTS` slots, unless it has one or none is left.
    pub fn claim_detached_root(&mut self, root: &String)
        requires
            old(self).wf(),
        ensures
            final(self).wf(),
            final(self)@ == if !old(self)@.detached_roots.contains(root@) && old(self)@.detached_roots.len()
                < MAX_DETACHED_ROOTS {
                SupervisorView { detached_roots: old(self)@.detached_roots.push(root@), ..old(self)@ }
            } else {
                old(self)@
            },
    {
        if !self.has_detached_root(root) && self.detached_roots.len() < MAX_DETACHED_ROOTS {
            let ghost prev = self.detached_roots@;
            self.detached_roots.push(root.clone());
            proof {
                let nv = strings_view(self.detached_roots@);
                let pv = strings_view(prev);
                assert(nv =~= pv.push(root@));
                assert forall|a: int, b: int| 0 <= a < nv.len() && 0 <= b < nv.len() && a != b implies nv[a] != nv[b] by {
                    if a < pv.len() && b < pv.len() {
                    } else if a < pv.len() {
                        assert(pv.contains(nv[a]));
                    } else {
                        assert(pv.contains(nv[b]));
                    }
                }
            }
        }
    }

    /// A manual restart is a deliberate retry, not another crash: the
    /// server's crash counts, scheduled restarts and missing-binary memos
    /// are forgotten.
    pub fn reset_for_manual_restart(&mut self, server_id: &String)
        requires
            old(self).wf(),
        ensures
            final(self).wf(),
            final(self)@ == (SupervisorView {
                attempts: filtered(old(self)@.attempts, |k: KeyView, v: u8| k.0 != server_id@),
                deadlines: filtered(old(self)@.deadlines, |k: KeyView, v: u64| k.0 != server_id@),
                missing: old(self)@.missing.filter(|k: KeyView| k.0 != server_id@),
                ..old(self)@
            }),
    {
        self.restart_attempts.remove_server(server_id);
        self.restart_deadlines.remove_server(server_id);
        self.missing_servers.remove_server(server_id);
        proof {
            assert(self.missing_servers@.dom() =~= old(self)@.missing.filter(|k: KeyView| k.0 != server_id@));
        }
    }

    /// The roots at which a manual restart respawns `server_id`: where it
    /// runs now, or, when it runs nowhere, the roots it gave up on (which
    /// are then forgotten). Its processes are stopped (the caller kills
    /// them) and each root reopens its documents once ready again.
    pub fn restart_roots(&mut self, server_id: &String) -> (r: Vec<String>)
        requires
            old(self).wf(),
        ensures
            final(self).wf(),
            (exists|root: Seq<char>| old(self)@.servers.contains_key((server_id@, root))) ==> {
                &&& strings_view(r@).no_duplicates()
                &&& forall|root: Seq<char>|
                    strings_view(r@).contains(root) <==> old(self)@.servers.contains_key((server_id@, root))
                &&& final(self)@.failed == old(self)@.failed
            },
            !(exists|root: Seq<char>| old(self)@.servers.contains_key((server_id@, root))) ==> {
                &&& strings_view(r@) == failed_roots_of(old(self)@.failed, server_id@)
                &&& final(self)@.failed == failed_without(old(self)@.failed, server_id@)
            },
            final(self)@.servers == filtered(old(self)@.servers, |k: KeyView, v: u64| k.0 != server_id@),
            final(self)@.resync == old(self)@.resync.union(
                Set::new(|k: KeyView| k.0 == server_id@ && strings_view(r@).contains(k.1)),
            ),
            final(self)@.detached_roots == old(self)@.detached_roots,
            final(self)@.attempts == old(self)@.attempts,
            final(self)@.deadlines == old(self)@.deadlines,
            final(self)@.shutting_down == old(self)@.shutting_down,
            final(self)@.missing == old(self)@.missing,
    {
        let ghost st = self@;
        let running = self.servers.roots_of(server_id);
        let roots = if running.len() > 0 {
            proof {
                assert(strings_view(running@).contains(running@[0]@)) by {
                    assert(strings_view(running@)[0] == running@[0]@);
                }
                assert(st.servers.contains_key((server_id@, running@[0]@)));
            }
            running
        } else {
            proof {
                assert forall|root: Seq<char>| !st.servers.contains_key((server_id@, root)) by {
                    if st.servers.contains_key((server_id@, root)) {
                        assert(strings_view(running@).contains(root));
                    }
                }
            }
            self.take_failed(server_id)
        };
        self.servers.remove_server(server_id);
        let ghost mid = self@;
        let ghost rv = strings_view(roots@);
        let mut i: usize = 0;
        proof {
            assert(self.resync_pending@.dom() =~= st.resync.union(
                Set::new(|k: KeyView| k.0 == server_id@ && rv.take(0).contains(k.1)),
            ));
        }
        while i < roots.len()
            invariant
                rv == strings_view(roots@),
                0 <= i <= roots@.len(),
                self.wf(),
                self@ == (SupervisorView { resync: self@.resync, ..mid }),
                self.resync_pending@.dom() == st.resync.union(
                    Set::new(|k: KeyView| k.0 == server_id@ && rv.take(i as int).contains(k.1)),
                ),
            decreases roots@.len() - i,
        {
            self.resync_pending.insert(server_id, &roots[i], ());
            proof {
                assert(rv[i as int] == roots@[i as int]@);
                let t1 = rv.take(i + 1);
                let t0 = rv.take(i as int);
                assert(t1 =~= t0.push(rv[i as int]));
                assert forall|k: KeyView| (k.0 == server_id@ && t1.contains(k.1)) <==> ((k.0 == server_id@
                    && t0.contains(k.1)) || k == (server_id@, rv[i as int])) by {
                    if t1.contains(k.1) {
                        let j = choose|j: int| 0 <= j < t1.len() && t1[j] == k.1;
                        if j < i {
                            assert(t0[j] == k.1);
                        }
                    }
                    if t0.contains(k.1) {
                        let j = choose|j: int| 0 <= j < t0.len() && t0[j] == k.1;
                        assert(t1[j] == k.1);
                    }
                    if k == (server_id@, rv[i as int]) {
                        assert(t1[i as int] == k.1);
                    }
                }
                assert(self.resync_pending@.dom() =~= st.resync.union(
                    Set::new(|k: KeyView| k.0 == server_id@ && rv.take(i + 1).contains(k.1)),
                ));
            }
            i = i + 1;
        }
        proof {
            assert(rv.take(roots@.len() as int) =~= rv);
        }
        roots
    }

    /// The server was disabled: it stops at every root (the caller kills
    /// the returned roots' processes) and its given-up roots are forgotten.
    pub fn teardown_server(&mut self, server_id: &String) -> (r: Vec<String>)
        requires
            old(self).wf(),
        ensures
            final(self).wf(),
            strings_view(r@).no_duplicates(),
            forall|root: Seq<char>|
                strings_view(r@).contains(root) <==> old(self)@.servers.contains_key((server_id@, root)),
            final(self)@ == (SupervisorView {
                servers: filtered(old(self)@.servers, |k: KeyView, v: u64| k.0 != server_id@),
                failed: failed_without(old(self)@.failed, server_id@),
                ..old(self)@
            }),
    {
        let roots = self.servers.roots_of(server_id);
        self.servers.remove_server(server_id);
        let _ = self.take_failed(server_id);
        roots
    }

    /// Every server stops (language servers were switched off, or the
    /// editor quits): the caller shuts down the returned keys' processes.
    /// The given-up roots of the stopped servers are forgotten.
    pub fn teardown_all(&mut self) -> (r: Vec<ServerKey>)
        requires
            old(self).wf(),
        ensures
            final(self).wf(),
            lists_keys(r@, old(self)@.servers, |k: KeyView, v: u64| true),
            final(self)@ == (SupervisorView {
                servers: Map::empty(),
                failed: failed_keeping(
                    old(self)@.failed,
                    |x: Seq<char>| !exists|root: Seq<char>| old(self)@.servers.contains_key((x, root)),
                ),
                ..old(self)@
            }),
    {
        let ghost st = self@;
        let keys = self.servers.keys();
        self.servers.clear();
        let ghost kv = keys_view(keys@);
        let mut i: usize = 0;
        proof {
            assert(failed_keeping(st.failed, |x: Seq<char>| !listed_before(kv, 0, x)) =~= st.failed)
                by {
                lemma_failed_keeping_all(st.failed, |x: Seq<char>| !listed_before(kv, 0, x));
            }
        }
        while i < keys.len()
            invariant
                kv == keys_view(keys@),
                0 <= i <= keys@.len(),
                self.wf(),
                self@ == (SupervisorView {
                    servers: Map::empty(),
                    failed: failed_keeping(st.failed, |x: Seq<char>| !listed_before(kv, i as int, x)),
                    ..st
                }),
            decreases keys@.len() - i,
        {
            let ghost before = self@.failed;
            let _ = self.take_failed(&keys[i].server_id);
            proof {
                assert(kv[i as int] == keys@[i as int]@);
                let p = |x: Seq<char>| !listed_before(kv, i as int, x);
                let q = |x: Seq<char>| x != kv[i as int].0;
                lemma_failed_keeping_twice(st.failed, q, p);
                lemma_failed_keeping_ext(
                    st.failed,
                    |x: Seq<char>| p(x) && q(x),
                    |x: Seq<char>| !listed_before(kv, i + 1, x),
                );
            }
            i = i + 1;
        }
        proof {
            assert forall|x: Seq<char>| #[trigger] listed_before(kv, keys@.len() as int, x) == (exists|root: Seq<char>|
                st.servers.contains_key((x, root))) by {
                if exists|root: Seq<char>| st.servers.contains_key((x, root)) {
                    let root = choose|root: Seq<char>| st.servers.contains_key((x, root));
                    assert(kv.contains((x, root)));
                    let j = choose|j: int| 0 <= j < kv.len() && kv[j] == (x, root);
                }
                if listed_before(kv, keys@.len() as int, x) {
                    let j = choose|j: int| 0 <= j < keys@.len() && kv[j].0 == x;
                    assert(kv.contains(kv[j]));
                    assert(st.servers.contains_key((x, kv[j].1)));
                }
            }
            lemma_failed_keeping_ext(
                st.failed,
                |x: Seq<char>| !listed_before(kv, keys@.len() as int, x),
                |x: Seq<char>| !exists|root: Seq<char>| st.servers.contains_key((x, root)),
            );
        }
        keys
    }

    /// The editor quits: a deliberate shutdown starts (exits no longer
    /// restart anything) and every server stops; the caller shuts down the
    /// returned keys' processes.
    pub fn begin_quit(&mut self) -> (r: Vec<ServerKey>)
        requires
            old(self).wf(),
        ensures
            final(self).wf(),
            lists_keys(r@, old(self)@.servers, |k: KeyView, v: u64| true),
            final(self)@ == (SupervisorView { servers: Map::empty(), shutting_down: true, ..old(self)@ }),
    {
        self.shutting_down = true;
        let keys = self.servers.keys();
        self.servers.clear();
        keys
    }

    /// A server became ready at a root: it has proven it is not crash
    /// looping, so its crash count is forgotten. Returns whether it was
    /// respawned and must reopen its documents now.
    pub fn server_ready(&mut self, server_id: &String, root: &String) -> (r: bool)
        requires
            old(self).wf(),
        ensures
            final(self).wf(),
            r == old(self)@.resync.contains((server_id@, root@)),
            final(self)@ == (SupervisorView {
                attempts: old(self)@.attempts.remove((server_id@, root@)),
                resync: old(self)@.resync.remove((server_id@, root@)),
                ..old(self)@
            }),
    {
        self.restart_attempts.remove(server_id, root);
        let was = self.resync_pending.remove(server_id, root);
        proof {
            assert(self.resync_pending@.dom() =~= old(self)@.resync.remove((server_id@, root@)));
        }
        was.is_some()
    }

    /// Language servers were switched on: every start may be tried again.
    pub fn enable_all(&mut self)
        requires
            old(self).wf(),
        ensures
            final(self).wf(),
            final(self)@ == (SupervisorView { missing: Set::empty(), ..old(self)@ }),
    {
        self.missing_servers.clear();
        proof {
            assert(self.missing_servers@.dom() =~= Set::<KeyView>::empty());
        }
    }

    /// One server was switched on: its starts may be tried again.
    pub fn enable_server(&mut self, server_id: &String)
        requires
            old(self).wf(),
        ensures
            final(self).wf(),
            final(self)@ == (SupervisorView {
                missing: old(self)@.missing.filter(|k: KeyView| k.0 != server_id@),
                ..old(self)@
            }),
    {
        self.missing_servers.remove_server(server_id);
        proof {
            assert(self.missing_servers@.dom() =~= old(self)@.missing.filter(|k: KeyView| k.0 != server_id@));
        }
    }

    pub fn is_shutting_down(&self) -> (r: bool)
        ensures
            r == self@.shutting_down,
    {
        self.shutting_down
    }

    /// Mark or unmark a deliberate shutdown: while it lasts, exits are
    /// expected and restart nothing.
    pub fn set_shutting_down(&mut self, shutting_down: bool)
        requires
            old(self).wf(),
        ensures
            final(self).wf(),
            final(self)@ == (SupervisorView { shutting_down, ..old(self)@ }),
    {
        self.shutting_down = shutting_down;
    }
}


/// An exit message about a process that no longer runs anywhere (its
/// roots were restarted since), or one received during a deliberate
/// shutdown, changes nothing.
pub proof fn law_stale_exit_changes_nothing(
    st: SupervisorView,
    server_id: Seq<char>,
    generation: u64,
    roots: Seq<Seq<char>>,
    now: u64,
)
    requires
        forall|root: Seq<char>| roots.contains(root) <==> exiting(st, server_id, generation, root),
        forall|root: Seq<char>| !exiting(st, server_id, generation, root),
    ensures
        exit_all(st, server_id, roots, now).0 == st,
        exit_all(st, server_id, roots, now).1.len() == 0,
{
    if roots.len() > 0 {
        assert(roots.contains(roots[0]));
    }
}

/// A crash is counted against its own `(server, root)` key alone: the
/// process, crash count and scheduled restart of every other key, even one
/// of the same server at another root, are untouched.
pub proof fn law_crashes_are_counted_per_root(
    st: SupervisorView,
    server_id: Seq<char>,
    roots: Seq<Seq<char>>,
    now: u64,
    other: KeyView,
)
    requires
        !(other.0 == server_id && roots.contains(other.1)),
    ensures
        exit_all(st, server_id, roots, now).0.attempts.contains_key(other) == st.attempts.contains_key(other),
        exit_all(st, server_id, roots, now).0.attempts[other] == st.attempts[other],
        exit_all(st, server_id, roots, now).0.servers.contains_key(other) == st.servers.contains_key(other),
        exit_all(st, server_id, roots, now).0.servers[other] == st.servers[other],
        exit_all(st, server_id, roots, now).0.deadlines.contains_key(other) == st.deadlines.contains_key(other),
        exit_all(st, server_id, roots, now).0.deadlines[other] == st.deadlines[other],
    decreases roots.len(),
{
    if roots.len() > 0 {
        let init = roots.drop_last();
        assert(!(other.0 == server_id && init.contains(other.1))) by {
            if other.0 == server_id && init.contains(other.1) {
                let j = choose|j: int| 0 <= j < init.len() && init[j] == other.1;
                assert(roots[j] == other.1);
            }
        }
        law_crashes_are_counted_per_root(st, server_id, init, now, other);
        assert(other != (server_id, roots.last())) by {
            if other == (server_id, roots.last()) {
                assert(roots[roots.len() - 1] == other.1);
            }
        }
    }
}

/// Each root whose process exited counts one more crash. Up to
/// `MAX_RESTART_ATTEMPTS` crashes a restart is scheduled after the backoff;
/// one more and the server gives up there: the root is remembered among
/// the server's failed roots, for a manual restart to use.
pub proof fn law_each_exit_counts_one_crash(
    st: SupervisorView,
    server_id: Seq<char>,
    roots: Seq<Seq<char>>,
    now: u64,
    i: int,
)
    requires
        roots.no_duplicates(),
        0 <= i < roots.len(),
    ensures
        ({
            let after = exit_all(st, server_id, roots, now).0;
            let key = (server_id, roots[i]);
            let a = next_attempt(st, key);
            &&& after.attempts.contains_key(key)
            &&& after.attempts[key] == a as u8
            &&& !after.servers.contains_key(key)
            &&& a > MAX_RESTART_ATTEMPTS ==> failed_roots_of(after.failed, server_id).contains(roots[i])
            &&& a <= MAX_RESTART_ATTEMPTS ==> after.deadlines.contains_key(key) && after.deadlines[key] == (now
                + backoff_spec(a as nat)) as u64
        }),
    decreases roots.len(),
{
    let init = roots.drop_last();
    let (s1, r1) = exit_all(st, server_id, init, now);
    let key = (server_id, roots[i]);
    assert(init.no_duplicates()) by {
        assert forall|a: int, b: int| 0 <= a < init.len() && 0 <= b < init.len() && a != b implies init[a] != init[b] by {
            assert(init[a] == roots[a] && init[b] == roots[b]);
        }
    }
    if i == roots.len() - 1 {
        assert(!init.contains(roots[i])) by {
            if init.contains(roots[i]) {
                let j = choose|j: int| 0 <= j < init.len() && init[j] == roots[i];
                assert(roots[j] == roots[i]);
            }
        }
        law_crashes_are_counted_per_root(st, server_id, init, now, key);
        assert(next_attempt(s1, key) == next_attempt(st, key));
        let f = s1.failed.push(key);
        assert(f.drop_last() =~= s1.failed);
        let fr = failed_roots_of(f, server_id);
        assert(fr[fr.len() - 1] == roots[i]);
    } else {
        assert(init[i] == roots[i]);
        law_each_exit_counts_one_crash(st, server_id, init, now, i);
        assert(roots.last() != roots[i]);
        let last = (server_id, roots.last());
        assert(last != key);
        let a = next_attempt(s1, last);
        if a > MAX_RESTART_ATTEMPTS {
            let f = s1.failed.push(last);
            assert(f.drop_last() =~= s1.failed);
            let fr0 = failed_roots_of(s1.failed, server_id);
            let fr = failed_roots_of(f, server_id);
            assert(fr =~= fr0.push(roots.last()));
            if fr0.contains(roots[i]) {
                let j = choose|j: int| 0 <= j < fr0.len() && fr0[j] == roots[i];
                assert(fr[j] == roots[i]);
            }
        }
    }
}

/// Exits during a deliberate shutdown are expected and never counted.
pub proof fn law_shutdown_exits_are_ignored(st: SupervisorView, server_id: Seq<char>, generation: u64, root: Seq<char>)
    requires
        st.shutting_down,
    ensures
        !exiting(st, server_id, generation, root),
{
}

/// A root whose server binary was found missing is not tried again by
/// opening files there.
pub proof fn law_missing_servers_are_not_retried(st: SupervisorView, key: KeyView, workspace_root: Option<Seq<char>>)
    requires
        st.missing.contains(key),
    ensures
        ensure_spec(st, key, workspace_root) is None,
{
}

/// A manual restart forgets every missing-binary memo of the server, so
/// the next file opened may try to start it again.
pub proof fn law_manual_restart_forgets_missing(missing: Set<KeyView>, server_id: Seq<char>, root: Seq<char>)
    ensures
        !missing.filter(|k: KeyView| k.0 != server_id).contains((server_id, root)),
{
}

/// Detached roots are claimed at most `MAX_DETACHED_ROOTS` times, each
/// root once.
pub proof fn law_detached_roots_are_capped(s: LspSupervisor)
    requires
        s.wf(),
    ensures
        s@.detached_roots.len() <= MAX_DETACHED_ROOTS,
        s@.detached_roots.no_duplicates(),
{
}

/// The backoff never exceeds its cap and never shrinks as crashes add up.
pub proof fn law_backoff_grows_up_to_its_cap(a: nat, b: nat)
    requires
        1 <= a <= b,
    ensures
        backoff_spec(a) <= backoff_spec(b),
        backoff_spec(b) <= RESTART_BACKOFF_MAX_MS,
    decreases b - a,
{
    if a < b {
        law_backoff_grows_up_to_its_cap(a, (b - 1) as nat);
        lemma_pow2_unfold((b - 1) as nat);
    }
}

/// Opening a file under a key's root, as `ensure_decision`, `begin_spawn`,
/// `spawn_finished` and `claim_detached_root` do it in turn: nothing when no
/// start is due; otherwise a start whose `outcome` is the new process's
/// generation, or `None` when its binary could not be started. Only a
/// server that runs claims a detached-root slot.
pub open spec fn open_step(st: SupervisorView, key: KeyView, workspace_root: Option<Seq<char>>, outcome: Option<u64>) -> SupervisorView {
    match ensure_spec(st, key, workspace_root) {
        None => st,
        Some(claims) => {
            let begun = SupervisorView { missing: st.missing.remove(key), ..st };
            match outcome {
                None => SupervisorView { missing: begun.missing.insert(key), ..begun },
                Some(g) => {
                    let started = SupervisorView { servers: begun.servers.insert(key, g), ..begun };
                    if claims && !started.detached_roots.contains(key.1) && started.detached_roots.len()
                        < MAX_DETACHED_ROOTS {
                        SupervisorView { detached_roots: started.detached_roots.push(key.1), ..started }
                    } else {
                        started
                    }
                },
            }
        },
    }
}

/// Opening files of one server under each of `roots` in turn, every start
/// succeeding with generation `g`.
pub open spec fn opens_after(st: SupervisorView, server_id: Seq<char>, roots: Seq<Seq<char>>, workspace_root: Option<Seq<char>>, g: u64) -> SupervisorView
    decreases roots.len(),
{
    if roots.len() == 0 {
        st
    } else {
        open_step(opens_after(st, server_id, roots.drop_last(), workspace_root, g), (server_id, roots.last()), workspace_root, Some(g))
    }
}

/// A start whose binary is missing is remembered and takes no detached
/// slot, and opening more files there starts nothing.
pub proof fn law_failed_spawns_are_memoized(st: SupervisorView, key: KeyView, workspace_root: Option<Seq<char>>)
    ensures
        open_step(st, key, workspace_root, None).detached_roots == st.detached_roots,
        open_step(st, key, workspace_root, None).servers == st.servers,
        ensure_spec(st, key, workspace_root) is Some ==> open_step(st, key, workspace_root, None).missing.contains(key),
        ensure_spec(st, key, workspace_root) is Some ==> open_step(
            open_step(st, key, workspace_root, None),
            key,
            workspace_root,
            None,
        ) == open_step(st, key, workspace_root, None),
{
}

/// Without a workspace every root is detached: opening files of a server
/// under distinct new roots, one after another, starts it at the first
/// `MAX_DETACHED_ROOTS` of them, which take the detached slots in order;
/// every further root is never started.
pub proof fn law_detached_roots_fill_in_order(st: SupervisorView, server_id: Seq<char>, roots: Seq<Seq<char>>, g: u64)
    requires
        st.detached_roots.len() == 0,
        roots.no_duplicates(),
        forall|i: int| 0 <= i < roots.len() ==> !st.servers.contains_key((server_id, #[trigger] roots[i])),
        forall|i: int| 0 <= i < roots.len() ==> !st.missing.contains((server_id, #[trigger] roots[i])),
    ensures
        opens_after(st, server_id, roots, None, g).detached_roots == roots.take(
            if roots.len() < MAX_DETACHED_ROOTS { roots.len() as int } else { MAX_DETACHED_ROOTS as int },
        ),
        forall|i: int|
            0 <= i < roots.len() ==> (opens_after(st, server_id, roots, None, g).servers.contains_key(
                (server_id, #[trigger] roots[i]),
            ) <==> i < MAX_DETACHED_ROOTS),
    decreases roots.len(),
{
    if roots.len() > 0 {
        let init = roots.drop_last();
        let k = roots.len() - 1;
        assert forall|a: int, b: int| 0 <= a < b < init.len() implies init[a] != init[b] by {
            assert(init[a] == roots[a] && init[b] == roots[b]);
        }
        assert forall|i: int| 0 <= i < init.len() implies !st.servers.contains_key((server_id, #[trigger] init[i])) by {
            assert(init[i] == roots[i]);
        }
        assert forall|i: int| 0 <= i < init.len() implies !st.missing.contains((server_id, #[trigger] init[i])) by {
            assert(init[i] == roots[i]);
        }
        law_detached_roots_fill_in_order(st, server_id, init, g);
        let prev = opens_after(st, server_id, init, None, g);
        let root = roots[k];
        let key = (server_id, root);
        let n = if init.len() < MAX_DETACHED_ROOTS { init.len() as int } else { MAX_DETACHED_ROOTS as int };
        assert(prev.detached_roots == roots.take(n)) by {
            assert(init.take(n) =~= roots.take(n));
        }
        assert(!prev.detached_roots.contains(root)) by {
            if prev.detached_roots.contains(root) {
                let j = choose|j: int| 0 <= j < prev.detached_roots.len() && prev.detached_roots[j] == root;
                assert(roots[j] == root);
            }
        }
        assert(!prev.servers.contains_key(key)) by {
            if prev.servers.contains_key(key) {
                lemma_opens_touch_only_their_roots(st, server_id, init, g, root);
            }
        }
        assert(!prev.missing.contains(key)) by {
            lemma_opens_touch_only_their_roots(st, server_id, init, g, root);
        }
        let next = opens_after(st, server_id, roots, None, g);
        assert(next == open_step(prev, key, None, Some(g)));
        if k < MAX_DETACHED_ROOTS {
            assert(next.detached_roots == prev.detached_roots.push(root));
            assert(roots.take(n).push(root) =~= roots.take(n + 1));
        } else {
            assert(next == prev);
            assert(roots.take(n) =~= roots.take(MAX_DETACHED_ROOTS as int));
        }
        assert forall|i: int| 0 <= i < roots.len() implies (next.servers.contains_key((server_id, #[trigger] roots[i]))
            <==> i < MAX_DETACHED_ROOTS) by {
            if i < k {
                assert(init[i] == roots[i]);
                assert(roots[i] != root);
            }
        }
    }
}

proof fn lemma_opens_touch_only_their_roots(st: SupervisorView, server_id: Seq<char>, roots: Seq<Seq<char>>, g: u64, other: Seq<char>)
    requires
        !roots.contains(other),
    ensures
        opens_after(st, server_id, roots, None, g).servers.contains_key((server_id, other)) == st.servers.contains_key(
            (server_id, other),
        ),
        opens_after(st, server_id, roots, None, g).missing.contains((server_id, other)) == st.missing.contains(
            (server_id, other),
        ),
    decreases roots.len(),
{
    if roots.len() > 0 {
        let init = roots.drop_last();
        assert(!init.contains(other)) by {
            if init.contains(other) {
                let j = choose|j: int| 0 <= j < init.len() && init[j] == other;
                assert(roots[j] == other);
            }
        }
        assert(roots.last() != other) by {
            assert(roots[roots.len() - 1] == roots.last());
        }
        lemma_opens_touch_only_their_roots(st, server_id, init, g, other);
    }
}

} // verus!
