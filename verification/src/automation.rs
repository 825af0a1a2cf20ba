//! Requests that reach a running editor from outside (open these paths,
//! wait until they are closed) and small routing rules of the runtime.

use vstd::prelude::*;
use crate::recency::{compare_chars, lemma_lex_irreflexive, lemma_lex_trans, lex_lt, sorted_strict};
use crate::text::chars_of;

verus! {

/// A path to open, with an optional 1-indexed line and column.
#[derive(Clone, Debug)]
pub struct OpenPath {
    pub path: String,
    pub line: Option<usize>,
    pub column: Option<usize>,
}

/// A request to open `path`, at `line` and `column` when given.
pub fn open_path(path: &str, line: Option<usize>, column: Option<usize>) -> (r: OpenPath)
    ensures
        r.path@ == path@,
        r.line == line,
        r.column == column,
{
    OpenPath { path: path.to_string(), line, column }
}

/// Where to place the cursor for a 1-indexed `line` and `column`: nowhere
/// without a line; a missing column means the first; zero counts as one.
pub fn cursor_target(line: Option<usize>, column: Option<usize>) -> (r: Option<(usize, usize)>)
    ensures
        match line {
            None => r is None,
            Some(l) => r == Some(
                (
                    if l == 0 {
                        0usize
                    } else {
                        (l - 1) as usize
                    },
                    match column {
                        Some(c) if c > 0 => (c - 1) as usize,
                        _ => 0usize,
                    },
                ),
            ),
        },
{
    match line {
        None => None,
        Some(l) => {
            let c = match column {
                Some(c) => c,
                None => 1,
            };
            Some((l.saturating_sub(1), c.saturating_sub(1)))
        },
    }
}

/// A 0-indexed position moved onto the document: the line at most its
/// last, the column at most that line's length.
pub fn clamped_document_position(line_lengths: &Vec<usize>, line: usize, column: usize) -> (r: (usize, usize))
    requires
        line_lengths@.len() > 0,
    ensures
        r.0 == if line < line_lengths@.len() {
            line as int
        } else {
            line_lengths@.len() - 1
        },
        r.1 == if column <= line_lengths@[r.0 as int] {
            column
        } else {
            line_lengths@[r.0 as int]
        },
{
    let last = line_lengths.len() - 1;
    let l = if line < last {
        line
    } else {
        last
    };
    let len = line_lengths[l];
    (l, if column < len {
        column
    } else {
        len
    })
}

/// A diagnostics publish older than the last one seen for its document is
/// out of order and dropped; one without a version never is.
pub fn is_stale_diagnostics_publish(incoming: Option<i64>, last_seen: Option<i64>) -> (r: bool)
    ensures
        r == (incoming is Some && last_seen is Some && incoming->0 < last_seen->0),
{
    match (incoming, last_seen) {
        (Some(v), Some(last)) => v < last,
        _ => false,
    }
}

/// The version stored for a document after a publish: a stale publish
/// changes nothing; a fresh one stores its version when it carries one and
/// leaves the stored version alone when it carries none.
pub open spec fn version_after(incoming: Option<i64>, last_seen: Option<i64>) -> Option<i64> {
    if incoming is Some && last_seen is Some && incoming->0 < last_seen->0 {
        last_seen
    } else if incoming is Some {
        incoming
    } else {
        last_seen
    }
}

/// What a diagnostics publish does to the store: whether its diagnostics
/// replace the stored ones (it is not stale), and the version stored for
/// its document afterwards.
pub fn diagnostics_publish_outcome(incoming: Option<i64>, last_seen: Option<i64>) -> (r: (bool, Option<i64>))
    ensures
        r.0 == !(incoming is Some && last_seen is Some && incoming->0 < last_seen->0),
        r.1 == version_after(incoming, last_seen),
{
    if is_stale_diagnostics_publish(incoming, last_seen) {
        (false, last_seen)
    } else {
        match incoming {
            Some(v) => (true, Some(v)),
            None => (true, last_seen),
        }
    }
}

/// The version stored after a run of publishes for one document, in order.
pub open spec fn version_after_all(incoming: Seq<Option<i64>>, last_seen: Option<i64>) -> Option<i64>
    decreases incoming.len(),
{
    if incoming.len() == 0 {
        last_seen
    } else {
        version_after(incoming.last(), version_after_all(incoming.drop_last(), last_seen))
    }
}

/// Whatever publishes arrive, and in whatever order, the version stored for
/// a document never goes back, and once one is stored one stays stored.
pub proof fn law_stored_version_never_decreases(incoming: Seq<Option<i64>>, last_seen: Option<i64>)
    ensures
        last_seen matches Some(l) ==> (version_after_all(incoming, last_seen) matches Some(v) && l <= v),
    decreases incoming.len(),
{
    if incoming.len() > 0 {
        law_stored_version_never_decreases(incoming.drop_last(), last_seen);
    }
}

/// A `didChange` debounce is armed only for a document some server has
/// open; for any other document an edit schedules nothing.
pub fn arms_did_change_debounce(open_documents: &Vec<u64>, document_id: u64) -> (r: bool)
    ensures
        r == open_documents@.contains(document_id),
{
    contains_id(open_documents, document_id)
}

/// Where keyboard focus is, as far as key bindings care.
#[derive(Clone, Copy, Debug)]
pub struct KeymapFocus {
    pub has_modal: bool,
    pub option_double_tapped: bool,
    pub alt_pressed: bool,
    pub sidebar_focused: bool,
    pub outline_dock_focused: bool,
    pub problems_dock_focused: bool,
    pub terminal_dock_focused: bool,
    pub csv_editing: bool,
}

/// Only global bindings apply while a modal is open, after an Option
/// double tap with Alt held, or while a dock, the sidebar or a CSV cell
/// editor has focus.
pub fn should_skip_non_global_keymap(f: KeymapFocus) -> (r: bool)
    ensures
        r == (f.has_modal || (f.option_double_tapped && f.alt_pressed) || f.sidebar_focused
            || f.outline_dock_focused || f.problems_dock_focused || f.terminal_dock_focused || f.csv_editing),
{
    f.has_modal || (f.option_double_tapped && f.alt_pressed) || f.sidebar_focused || f.outline_dock_focused
        || f.problems_dock_focused || f.terminal_dock_focused || f.csv_editing
}

/// A client waiting (`--wait`) until every document in `remaining` is
/// closed; an `exit_only` waiter is answered when the editor exits.
/// `ticket` tells the caller whom to answer.
#[derive(Clone, Debug)]
pub struct DocumentWaiter {
    pub remaining: Vec<u64>,
    pub exit_only: bool,
    pub ticket: u64,
}

pub ghost struct WaiterView {
    pub remaining: Seq<u64>,
    pub exit_only: bool,
    pub ticket: u64,
}

impl View for DocumentWaiter {
    type V = WaiterView;

    open spec fn view(&self) -> WaiterView {
        WaiterView { remaining: self.remaining@, exit_only: self.exit_only, ticket: self.ticket }
    }
}

pub open spec fn waiters_view(s: Seq<DocumentWaiter>) -> Seq<WaiterView> {
    s.map_values(|w: DocumentWaiter| w@)
}

/// The waiter for an open request that asked to wait: it waits for every
/// document the request opened (each once); when it opened none (only
/// directories, say), it is answered only when the editor exits.
pub fn waiter_for(opened: &Vec<u64>, ticket: u64) -> (r: DocumentWaiter)
    ensures
        r.ticket == ticket,
        r.exit_only == (opened@.len() == 0),
        r.remaining@.no_duplicates(),
        forall|d: u64| r.remaining@.contains(d) <==> opened@.contains(d),
{
    let mut remaining: Vec<u64> = Vec::new();
    let mut i: usize = 0;
    while i < opened.len()
        invariant
            0 <= i <= opened@.len(),
            remaining@.no_duplicates(),
            forall|d: u64| remaining@.contains(d) <==> opened@.take(i as int).contains(d),
        decreases opened@.len() - i,
    {
        let d = opened[i];
        let seen = contains_id(&remaining, d);
        let ghost before = remaining@;
        let ghost t0 = opened@.take(i as int);
        let ghost t1 = opened@.take(i + 1);
        proof {
            assert(t1 =~= t0.push(d));
            assert forall|x: u64| t1.contains(x) <==> (t0.contains(x) || x == d) by {
                if t1.contains(x) {
                    let j = choose|j: int| 0 <= j < t1.len() && t1[j] == x;
                    if j < t0.len() {
                        assert(t0[j] == x);
                    }
                }
                if t0.contains(x) {
                    let j = choose|j: int| 0 <= j < t0.len() && t0[j] == x;
                    assert(t1[j] == x);
                }
                if x == d {
                    assert(t1[t0.len() as int] == x);
                }
            }
        }
        if !seen {
            remaining.push(d);
            proof {
                assert(remaining@ =~= before.push(d));
                assert forall|a: int, b: int| 0 <= a < b < remaining@.len() implies remaining@[a] != remaining@[b] by {
                    if b == before.len() {
                        assert(before.contains(before[a]));
                    }
                }
                assert forall|x: u64| remaining@.contains(x) <==> t1.contains(x) by {
                    if remaining@.contains(x) {
                        let j = choose|j: int| 0 <= j < remaining@.len() && remaining@[j] == x;
                        if j < before.len() {
                            assert(before.contains(x));
                        }
                    }
                    if before.contains(x) {
                        let j = choose|j: int| 0 <= j < before.len() && before[j] == x;
                        assert(remaining@[j] == x);
                    }
                    if x == d {
                        assert(remaining@[before.len() as int] == x);
                    }
                }
            }
        }
        i = i + 1;
    }
    proof {
        assert(opened@.take(opened@.len() as int) =~= opened@);
    }
    DocumentWaiter { remaining, exit_only: opened.len() == 0, ticket }
}

fn contains_id(ids: &Vec<u64>, id: u64) -> (r: bool)
    ensures
        r == ids@.contains(id),
{
    let mut i: usize = 0;
    while i < ids.len()
        invariant
            0 <= i <= ids@.len(),
            forall|k: int| 0 <= k < i ==> ids@[k] != id,
        decreases ids@.len() - i,
    {
        if ids[i] == id {
            return true;
        }
        i = i + 1;
    }
    false
}

/// A waiter after documents were closed: it forgets the closed ones.
pub open spec fn still_waiting(w: WaiterView, open: Seq<u64>) -> WaiterView {
    if w.exit_only {
        w
    } else {
        WaiterView { remaining: w.remaining.filter(|d: u64| open.contains(d)), ..w }
    }
}

/// The waiter has nothing left to wait for.
pub open spec fn is_done(w: WaiterView, open: Seq<u64>) -> bool {
    !w.exit_only && still_waiting(w, open).remaining.len() == 0
}

/// The waiters still waiting, in order.
pub open spec fn waiting_after(ws: Seq<WaiterView>, open: Seq<u64>) -> Seq<WaiterView>
    decreases ws.len(),
{
    if ws.len() == 0 {
        Seq::empty()
    } else {
        let r = waiting_after(ws.drop_last(), open);
        if is_done(ws.last(), open) {
            r
        } else {
            r.push(still_waiting(ws.last(), open))
        }
    }
}

/// The tickets of the waiters that are done, in order.
pub open spec fn done_tickets(ws: Seq<WaiterView>, open: Seq<u64>) -> Seq<u64>
    decreases ws.len(),
{
    if ws.len() == 0 {
        Seq::empty()
    } else {
        let r = done_tickets(ws.drop_last(), open);
        if is_done(ws.last(), open) {
            r.push(ws.last().ticket)
        } else {
            r
        }
    }
}

fn retain_open(remaining: &Vec<u64>, open: &Vec<u64>) -> (r: Vec<u64>)
    ensures
        r@ == remaining@.filter(|d: u64| open@.contains(d)),
{
    let mut out: Vec<u64> = Vec::new();
    let mut i: usize = 0;
    while i < remaining.len()
        invariant
            0 <= i <= remaining@.len(),
            out@ == remaining@.take(i as int).filter(|d: u64| open@.contains(d)),
        decreases remaining@.len() - i,
    {
        let d = remaining[i];
        let mut found = false;
        let mut j: usize = 0;
        while j < open.len()
            invariant
                0 <= j <= open@.len(),
                found == open@.take(j as int).contains(d),
            decreases open@.len() - j,
        {
            let ghost t0 = open@.take(j as int);
            let ghost t1 = open@.take(j + 1);
            proof {
                assert(t1 =~= t0.push(open@[j as int]));
            }
            if open[j] == d {
                found = true;
            }
            proof {
                if open@[j as int] == d {
                    assert(t1[j as int] == d);
                }
                if t1.contains(d) && open@[j as int] != d {
                    let k = choose|k: int| 0 <= k < t1.len() && t1[k] == d;
                    assert(t0[k] == d);
                }
                if t0.contains(d) {
                    let k = choose|k: int| 0 <= k < t0.len() && t0[k] == d;
                    assert(t1[k] == d);
                }
            }
            j = j + 1;
        }
        proof {
            assert(open@.take(open@.len() as int) =~= open@);
            let f = |d: u64| open@.contains(d);
            assert(remaining@.take(i + 1).drop_last() =~= remaining@.take(i as int));
            assert(remaining@.take(i + 1) =~= remaining@.take(i as int).push(d));
            reveal(Seq::filter);
        }
        if found {
            out.push(d);
        }
        i = i + 1;
    }
    proof {
        assert(remaining@.take(remaining@.len() as int) =~= remaining@);
    }
    out
}

/// Answer every waiter whose documents have all been closed (`open` lists
/// the documents still open; ids are never reused, so a missing id means
/// closed). Gives back their tickets, in order; the others stay, minus
/// the documents closed since.
pub fn poll_document_waiters(waiters: &mut Vec<DocumentWaiter>, open: &Vec<u64>) -> (r: Vec<u64>)
    ensures
        waiters_view(final(waiters)@) == waiting_after(waiters_view(old(waiters)@), open@),
        r@ == done_tickets(waiters_view(old(waiters)@), open@),
{
    let ghost ws = waiters_view(waiters@);
    let mut kept: Vec<DocumentWaiter> = Vec::new();
    let mut done: Vec<u64> = Vec::new();
    let n = waiters.len();
    let mut i: usize = 0;
    while i < n
        invariant
            n == waiters@.len(),
            ws == waiters_view(waiters@),
            0 <= i <= n,
            waiters_view(kept@) == waiting_after(ws.take(i as int), open@),
            done@ == done_tickets(ws.take(i as int), open@),
        decreases n - i,
    {
        let w = &waiters[i];
        proof {
            assert(ws.take(i + 1).drop_last() =~= ws.take(i as int));
            assert(ws.take(i + 1).last() == w@);
        }
        let ghost pk = kept@;
        if w.exit_only {
            kept.push(DocumentWaiter { remaining: w.remaining.clone(), exit_only: true, ticket: w.ticket });
            proof {
                assert(waiters_view(kept@) =~= waiters_view(pk).push(w@));
            }
        } else {
            let remaining = retain_open(&w.remaining, open);
            if remaining.len() == 0 {
                done.push(w.ticket);
            } else {
                kept.push(DocumentWaiter { remaining, exit_only: false, ticket: w.ticket });
                proof {
                    assert(waiters_view(kept@) =~= waiters_view(pk).push(still_waiting(w@, open@)));
                }
            }
        }
        i = i + 1;
    }
    proof {
        assert(ws.take(n as int) =~= ws);
    }
    *waiters = kept;
    done
}

/// The tickets of the given waiters, in order.
pub open spec fn tickets_of(ws: Seq<WaiterView>) -> Seq<u64> {
    ws.map_values(|w: WaiterView| w.ticket)
}

/// The editor is exiting: every waiter is answered, whether it waited for
/// documents or for the exit. Gives back all their tickets, in order, and
/// leaves no waiter behind.
pub fn answer_exit_waiters(waiters: &mut Vec<DocumentWaiter>) -> (r: Vec<u64>)
    ensures
        final(waiters)@.len() == 0,
        r@ == tickets_of(waiters_view(old(waiters)@)),
{
    let ghost ws = waiters_view(waiters@);
    let mut tickets: Vec<u64> = Vec::new();
    let mut i: usize = 0;
    while i < waiters.len()
        invariant
            ws == waiters_view(waiters@),
            0 <= i <= waiters@.len(),
            tickets@ == tickets_of(ws.take(i as int)),
        decreases waiters@.len() - i,
    {
        proof {
            assert(tickets_of(ws.take(i + 1)) =~= tickets_of(ws.take(i as int)).push(waiters@[i as int].ticket));
        }
        tickets.push(waiters[i].ticket);
        i = i + 1;
    }
    proof {
        assert(ws.take(waiters@.len() as int) =~= ws);
    }
    waiters.clear();
    tickets
}

/// A waiter that waits only for the exit (its request opened no document)
/// outlives every poll unchanged, and is answered when the editor exits.
pub proof fn law_exit_only_waiters_answer_only_at_exit(ws: Seq<WaiterView>, open: Seq<u64>, k: int)
    requires
        0 <= k < ws.len(),
        ws[k].exit_only,
    ensures
        waiting_after(ws, open).contains(ws[k]),
        tickets_of(ws).contains(ws[k].ticket),
    decreases ws.len(),
{
    let r = waiting_after(ws.drop_last(), open);
    if k == ws.len() - 1 {
        assert(!is_done(ws.last(), open));
        assert(still_waiting(ws.last(), open) == ws[k]);
        assert(r.push(ws[k])[r.len() as int] == ws[k]);
    } else {
        assert(ws.drop_last()[k] == ws[k]);
        law_exit_only_waiters_answer_only_at_exit(ws.drop_last(), open, k);
        let j = choose|j: int| 0 <= j < r.len() && r[j] == ws[k];
        if !is_done(ws.last(), open) {
            assert(r.push(still_waiting(ws.last(), open))[j] == ws[k]);
        }
    }
    assert(tickets_of(ws)[k] == ws[k].ticket);
}

/// The waiters after one poll for each of the given sets of open documents,
/// in turn.
pub open spec fn polls_after(ws: Seq<WaiterView>, opens: Seq<Seq<u64>>) -> Seq<WaiterView>
    decreases opens.len(),
{
    if opens.len() == 0 {
        ws
    } else {
        waiting_after(polls_after(ws, opens.drop_last()), opens.last())
    }
}

/// An open request that waits but opened no document (nothing given, or
/// only directories) gets a waiter that no poll ever answers, whatever
/// documents open and close meanwhile, and that the exit answers: its
/// waiter is exit-only and waits for nothing, is never done, stays among
/// the waiters through every poll, and its ticket is among those the exit
/// answers.
pub proof fn law_a_wait_without_documents_ends_only_at_exit(
    ws: Seq<WaiterView>,
    ticket: u64,
    opens: Seq<Seq<u64>>,
    open: Seq<u64>,
)
    requires
        ws.contains(WaiterView { remaining: Seq::empty(), exit_only: true, ticket }),
    ensures
        !is_done(WaiterView { remaining: Seq::empty(), exit_only: true, ticket }, open),
        polls_after(ws, opens).contains(WaiterView { remaining: Seq::empty(), exit_only: true, ticket }),
        tickets_of(polls_after(ws, opens)).contains(ticket),
    decreases opens.len(),
{
    let w = WaiterView { remaining: Seq::empty(), exit_only: true, ticket };
    if opens.len() > 0 {
        law_a_wait_without_documents_ends_only_at_exit(ws, ticket, opens.drop_last(), open);
        let prev = polls_after(ws, opens.drop_last());
        let k = choose|k: int| 0 <= k < prev.len() && prev[k] == w;
        law_exit_only_waiters_answer_only_at_exit(prev, opens.last(), k);
    }
    let now = polls_after(ws, opens);
    let k = choose|k: int| 0 <= k < now.len() && now[k] == w;
    law_exit_only_waiters_answer_only_at_exit(now, open, k);
}


/// The most frames a frame profile may cover.
pub const MAX_PROFILE_FRAMES: usize = 10_000;

/// Whether a frame profile of `frames` frames may start: the count is in
/// range and no other frame profile runs. The error is the message the
/// client gets.
pub fn frame_profile_request(frames: usize, running: bool) -> (r: Result<usize, &'static str>)
    ensures
        (frames == 0 || frames > MAX_PROFILE_FRAMES) ==> r == Err::<usize, &'static str>("frames must be between 1 and 10000"),
        (1 <= frames <= MAX_PROFILE_FRAMES && running) ==> r == Err::<usize, &'static str>("a frame profile is already running"),
        (1 <= frames <= MAX_PROFILE_FRAMES && !running) ==> r == Ok::<usize, &'static str>(frames),
{
    if frames == 0 || frames > MAX_PROFILE_FRAMES {
        Err("frames must be between 1 and 10000")
    } else if running {
        Err("a frame profile is already running")
    } else {
        Ok(frames)
    }
}

/// The frames a profile still waits for after one more presented frame;
/// `None` once it is complete.
pub open spec fn frame_step(remaining: nat) -> Option<nat> {
    if remaining <= 1 {
        None
    } else {
        Some((remaining - 1) as nat)
    }
}

/// One presented frame of a running profile; `None` when the profile is
/// complete and its answer goes out.
pub fn frame_presented(remaining: usize) -> (r: Option<usize>)
    ensures
        match r {
            Some(n) => frame_step(remaining as nat) == Some(n as nat),
            None => frame_step(remaining as nat) is None,
        },
{
    let left = remaining.saturating_sub(1);
    if left == 0 {
        None
    } else {
        Some(left)
    }
}

/// The state of a profile of `frames` frames after `k` presented frames:
/// `None` once it completed.
pub open spec fn frames_left(frames: nat, k: nat) -> Option<nat>
    decreases k,
{
    if k == 0 {
        Some(frames)
    } else {
        match frames_left(frames, (k - 1) as nat) {
            Some(n) => frame_step(n),
            None => None,
        }
    }
}

/// A frame profile of `n` frames answers after exactly `n` presented
/// frames, never earlier.
pub proof fn law_frame_profile_completes_after_its_frames(n: nat, k: nat)
    requires
        1 <= n,
    ensures
        k < n ==> frames_left(n, k) == Some((n - k) as nat),
        k >= n ==> frames_left(n, k) is None,
    decreases k,
{
    if k > 0 {
        law_frame_profile_completes_after_its_frames(n, (k - 1) as nat);
    }
}

/// Whether a syntax profile may start: it needs text to type, no other
/// syntax profile running, and a highlighted document. The error is the
/// message the client gets.
pub fn syntax_profile_gate(text_empty: bool, running: bool, has_highlighting: bool) -> (r: Result<(), &'static str>)
    ensures
        text_empty ==> r == Err::<(), &'static str>("profile text must not be empty"),
        !text_empty && running ==> r == Err::<(), &'static str>("a syntax profile is already running"),
        !text_empty && !running && !has_highlighting ==> r == Err::<(), &'static str>(
            "the active document has no syntax highlighter",
        ),
        !text_empty && !running && has_highlighting ==> r == Ok::<(), &'static str>(()),
{
    if text_empty {
        Err("profile text must not be empty")
    } else if running {
        Err("a syntax profile is already running")
    } else if !has_highlighting {
        Err("the active document has no syntax highlighter")
    } else {
        Ok(())
    }
}

/// A bound action as the automation client lists it.
#[derive(Clone, Debug)]
pub struct ActionEntry {
    pub name: String,
    pub label: String,
    pub keybinding: String,
}

/// An action by value.
pub type ActionView = (Seq<char>, Seq<char>, Seq<char>);

impl View for ActionEntry {
    type V = ActionView;

    open spec fn view(&self) -> ActionView {
        (self.name@, self.label@, self.keybinding@)
    }
}

pub open spec fn actions_view(s: Seq<ActionEntry>) -> Seq<ActionView> {
    s.map_values(|a: ActionEntry| a@)
}

pub open spec fn action_names(s: Seq<ActionView>) -> Seq<Seq<char>> {
    s.map_values(|a: ActionView| a.0)
}

/// The binding at `i` is the first one with its action name.
pub open spec fn first_of_name(s: Seq<ActionView>, i: int) -> bool {
    0 <= i < s.len() && forall|j: int| 0 <= j < i ==> (#[trigger] s[j]).0 != s[i].0
}

/// `a` is the first binding of its name.
pub open spec fn is_first_binding(input: Seq<ActionView>, a: ActionView) -> bool {
    exists|i: int| first_of_name(input, i) && a == input[i]
}

/// The action list: one entry per action name, the first binding of that
/// name, ordered by name.
pub open spec fn is_action_list(input: Seq<ActionView>, r: Seq<ActionView>) -> bool {
    &&& sorted_strict(action_names(r))
    &&& forall|k: int| 0 <= k < r.len() ==> is_first_binding(input, #[trigger] r[k])
    &&& forall|i: int| #[trigger] first_of_name(input, i) ==> r.contains(input[i])
}

fn copy_action(a: &ActionEntry) -> (r: ActionEntry)
    ensures
        r@ == a@,
{
    ActionEntry { name: a.name.clone(), label: a.label.clone(), keybinding: a.keybinding.clone() }
}

/// Where `name` goes in a list sorted by name: after every smaller name;
/// `true` when the name is already there.
fn find_slot(out: &Vec<ActionEntry>, name: &Vec<char>) -> (r: (usize, bool))
    requires
        sorted_strict(action_names(actions_view(out@))),
    ensures
        r.0 <= out@.len(),
        forall|k: int| 0 <= k < r.0 ==> lex_lt(#[trigger] action_names(actions_view(out@))[k], name@),
        r.1 ==> r.0 < out@.len() && action_names(actions_view(out@))[r.0 as int] == name@,
        !r.1 ==> r.0 == out@.len() || lex_lt(name@, action_names(actions_view(out@))[r.0 as int]),
{
    let ghost on = action_names(actions_view(out@));
    let mut p: usize = 0;
    while p < out.len()
        invariant
            0 <= p <= out@.len(),
            on == action_names(actions_view(out@)),
            forall|k: int| 0 <= k < p ==> lex_lt(#[trigger] on[k], name@),
        decreases out@.len() - p,
    {
        let other = chars_of(out[p].name.as_str());
        let c = compare_chars(&other, name);
        proof {
            assert(on[p as int] == other@);
        }
        if c == 0 {
            return (p, true);
        }
        if c > 0 {
            return (p, false);
        }
        p = p + 1;
    }
    (p, false)
}

/// Inserting a name at its slot keeps a list of names sorted.
proof fn lemma_insert_sorted(on: Seq<Seq<char>>, p: int, name: Seq<char>)
    requires
        0 <= p <= on.len(),
        sorted_strict(on),
        forall|k: int| 0 <= k < p ==> lex_lt(#[trigger] on[k], name),
        p == on.len() || lex_lt(name, on[p]),
    ensures
        sorted_strict(on.insert(p, name)),
{
    let nn = on.insert(p, name);
    assert forall|a: int, b: int| 0 <= a < b < nn.len() implies lex_lt(#[trigger] nn[a], #[trigger] nn[b]) by {
        if b < p {
            assert(nn[a] == on[a] && nn[b] == on[b]);
        } else if b == p {
            assert(nn[a] == on[a]);
        } else if a < p {
            assert(nn[a] == on[a] && nn[b] == on[b - 1]);
            if b - 1 > p {
                lemma_lex_trans(name, on[p], on[b - 1]);
            }
            lemma_lex_trans(on[a], name, on[b - 1]);
        } else if a == p {
            assert(nn[b] == on[b - 1]);
            if b - 1 > p {
                lemma_lex_trans(name, on[p], on[b - 1]);
            }
        } else {
            assert(nn[a] == on[a - 1] && nn[b] == on[b - 1]);
        }
    }
}

/// After the first `i` bindings: the list is sorted by name, its entry `k`
/// is the binding `src[k]`, the first of its name, and every name seen so
/// far is listed.
pub open spec fn listed_so_far(input: Seq<ActionView>, i: int, out: Seq<ActionView>, src: Seq<int>) -> bool {
    &&& sorted_strict(action_names(out))
    &&& src.len() == out.len()
    &&& forall|k: int| 0 <= k < out.len() ==> 0 <= #[trigger] src[k] < i && first_of_name(input, src[k]) && out[k] == input[src[k]]
    &&& forall|j: int| 0 <= j < i ==> action_names(out).contains(#[trigger] input[j].0)
}

proof fn lemma_listed_new(input: Seq<ActionView>, i: int, out: Seq<ActionView>, src: Seq<int>, p: int)
    requires
        0 <= i < input.len(),
        listed_so_far(input, i, out, src),
        0 <= p <= out.len(),
        forall|k: int| 0 <= k < p ==> lex_lt(#[trigger] action_names(out)[k], input[i].0),
        p == out.len() || lex_lt(input[i].0, action_names(out)[p]),
    ensures
        listed_so_far(input, i + 1, out.insert(p, input[i]), src.insert(p, i)),
{
    let on = action_names(out);
    let name = input[i].0;
    assert(!on.contains(name)) by {
        if on.contains(name) {
            let k = choose|k: int| 0 <= k < on.len() && on[k] == name;
            if k < p {
                lemma_lex_irreflexive(name);
            } else {
                if k > p {
                    lemma_lex_trans(name, on[p], on[k]);
                }
                lemma_lex_irreflexive(name);
            }
        }
    }
    assert(first_of_name(input, i)) by {
        assert forall|j: int| 0 <= j < i implies (#[trigger] input[j]).0 != input[i].0 by {
            assert(on.contains(input[j].0));
        }
    }
    lemma_insert_sorted(on, p, name);
    let nv = out.insert(p, input[i]);
    let ns = src.insert(p, i);
    assert(action_names(nv) =~= on.insert(p, name));
    assert forall|k: int| 0 <= k < nv.len() implies 0 <= #[trigger] ns[k] < i + 1 && first_of_name(input, ns[k]) && nv[k]
        == input[ns[k]] by {
        if k < p {
            assert(ns[k] == src[k] && nv[k] == out[k]);
        } else if k > p {
            assert(ns[k] == src[k - 1] && nv[k] == out[k - 1]);
        }
    }
    assert forall|j: int| 0 <= j < i + 1 implies action_names(nv).contains(#[trigger] input[j].0) by {
        if j == i {
            assert(action_names(nv)[p] == name);
        } else {
            assert(on.contains(input[j].0));
            let k = choose|k: int| 0 <= k < on.len() && on[k] == input[j].0;
            if k < p {
                assert(action_names(nv)[k] == input[j].0);
            } else {
                assert(action_names(nv)[k + 1] == input[j].0);
            }
        }
    }
}

proof fn lemma_listed_done(input: Seq<ActionView>, out: Seq<ActionView>, src: Seq<int>)
    requires
        listed_so_far(input, input.len() as int, out, src),
    ensures
        is_action_list(input, out),
{
    assert forall|k: int| 0 <= k < out.len() implies is_first_binding(input, #[trigger] out[k]) by {
        let j = src[k];
        assert(first_of_name(input, j) && out[k] == input[j]);
    }
    assert forall|i: int| #[trigger] first_of_name(input, i) implies out.contains(input[i]) by {
        assert(action_names(out).contains(input[i].0));
        let k = choose|k: int| 0 <= k < action_names(out).len() && action_names(out)[k] == input[i].0;
        let j = src[k];
        assert(first_of_name(input, j) && out[k] == input[j]);
        assert(input[j].0 == input[i].0);
        if j < i {
            assert(input[j].0 != input[i].0);
        } else if j > i {
            assert(input[i].0 != input[j].0);
        }
        assert(out[k] == input[i]);
    }
}

/// The bound actions as the automation client lists them: sorted by name,
/// each name once (its first binding).
pub fn action_list(bindings: &Vec<ActionEntry>) -> (r: Vec<ActionEntry>)
    ensures
        is_action_list(actions_view(bindings@), actions_view(r@)),
{
    let ghost input = actions_view(bindings@);
    let mut out: Vec<ActionEntry> = Vec::new();
    let ghost mut src: Seq<int> = Seq::empty();
    let mut i: usize = 0;
    proof {
        assert(actions_view(out@) =~= Seq::<ActionView>::empty());
        assert(action_names(actions_view(out@)) =~= Seq::<Seq<char>>::empty());
    }
    while i < bindings.len()
        invariant
            0 <= i <= bindings@.len(),
            input == actions_view(bindings@),
            listed_so_far(input, i as int, actions_view(out@), src),
        decreases bindings@.len() - i,
    {
        let name = chars_of(bindings[i].name.as_str());
        let ghost ov = actions_view(out@);
        let (p, found) = find_slot(&out, &name);
        proof {
            assert(input[i as int].0 == name@);
        }
        if found {
            proof {
                assert(action_names(ov)[p as int] == name@);
                assert forall|j: int| 0 <= j < i + 1 implies action_names(ov).contains(#[trigger] input[j].0) by {
                    if j == i {
                        assert(action_names(ov)[p as int] == input[j].0);
                    }
                }
            }
        } else {
            proof {
                lemma_listed_new(input, i as int, ov, src, p as int);
            }
            let entry = copy_action(&bindings[i]);
            out.insert(p, entry);
            proof {
                assert(actions_view(out@) =~= ov.insert(p as int, input[i as int]));
                src = src.insert(p as int, i as int);
            }
        }
        i = i + 1;
    }
    proof {
        lemma_listed_done(input, actions_view(out@), src);
    }
    out
}

} // verus!
