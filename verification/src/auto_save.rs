//! Per-document auto-save deadlines. One event-loop wake serves every
//! document. Times are milliseconds on the runtime's monotonic clock.

use vstd::prelude::*;

verus! {

/// When documents are saved without an explicit request.
#[derive(Clone, Copy, PartialEq, Eq, Structural, Debug)]
pub enum AutoSaveMode {
    Off,
    OnFocusLoss,
    AfterDelay,
    OnFocusLossAndDelay,
}

impl AutoSaveMode {
    pub open spec fn on_focus_loss_spec(self) -> bool {
        self == AutoSaveMode::OnFocusLoss || self == AutoSaveMode::OnFocusLossAndDelay
    }

    pub open spec fn after_delay_spec(self) -> bool {
        self == AutoSaveMode::AfterDelay || self == AutoSaveMode::OnFocusLossAndDelay
    }

    pub fn on_focus_loss(&self) -> (r: bool)
        ensures
            r == self.on_focus_loss_spec(),
    {
        *self == AutoSaveMode::OnFocusLoss || *self == AutoSaveMode::OnFocusLossAndDelay
    }

    pub fn after_delay(&self) -> (r: bool)
        ensures
            r == self.after_delay_spec(),
    {
        *self == AutoSaveMode::AfterDelay || *self == AutoSaveMode::OnFocusLossAndDelay
    }
}

/// The auto-save policy: its mode and the idle delay in milliseconds.
#[derive(Clone, Copy, PartialEq, Eq, Structural, Debug)]
pub struct AutoSaveConfig {
    pub mode: AutoSaveMode,
    pub delay_ms: u64,
}

impl Default for AutoSaveConfig {
    fn default() -> (r: AutoSaveConfig)
        ensures
            r == (AutoSaveConfig { mode: AutoSaveMode::Off, delay_ms: 1000 }),
    {
        AutoSaveConfig { mode: AutoSaveMode::Off, delay_ms: 1000 }
    }
}

/// Why a save was requested.
#[derive(Clone, Copy, PartialEq, Eq, Structural, Debug)]
pub enum SaveReason {
    Idle,
    FocusLoss,
}

/// What the scheduler reads of one open document.
#[derive(Clone, Debug)]
pub struct DocumentState {
    pub id: u64,
    pub revision: u64,
    pub path: Option<String>,
    pub is_modified: bool,
    /// The editor allows an automatic save now (no write in flight, ...).
    pub eligible: bool,
}

/// What the scheduler reads of the editor: the configured policy and every
/// open document, each id at most once.
#[derive(Clone, Debug)]
pub struct AutoSaveModel {
    pub policy: AutoSaveConfig,
    pub documents: Vec<DocumentState>,
}

/// A save the runtime should perform.
#[derive(Clone, Debug)]
pub struct AutoSaveRequest {
    pub document_id: u64,
    pub revision: u64,
    pub path: String,
    pub policy: AutoSaveConfig,
    pub reason: SaveReason,
}

pub ghost struct DocView {
    pub revision: u64,
    pub path: Option<Seq<char>>,
    pub is_modified: bool,
    pub eligible: bool,
}

pub ghost struct PendingView {
    pub path: Seq<char>,
    pub revision: u64,
    pub idle: Option<u64>,
    pub focus_loss: bool,
}

pub ghost struct RequestView {
    pub document_id: u64,
    pub revision: u64,
    pub path: Seq<char>,
    pub policy: AutoSaveConfig,
    pub reason: SaveReason,
}

impl View for AutoSaveRequest {
    type V = RequestView;

    open spec fn view(&self) -> RequestView {
        RequestView {
            document_id: self.document_id,
            revision: self.revision,
            path: self.path@,
            policy: self.policy,
            reason: self.reason,
        }
    }
}

pub open spec fn doc_view(d: DocumentState) -> DocView {
    DocView {
        revision: d.revision,
        path: match d.path {
            Some(p) => Some(p@),
            None => None,
        },
        is_modified: d.is_modified,
        eligible: d.eligible,
    }
}

/// No document id occurs twice.
pub open spec fn distinct_ids(docs: Seq<DocumentState>) -> bool {
    forall|i: int, j: int| 0 <= i < docs.len() && 0 <= j < docs.len() && i != j ==> docs[i].id != docs[j].id
}

/// The open documents by id.
pub open spec fn docs_map(docs: Seq<DocumentState>) -> Map<u64, DocView> {
    Map::new(
        |id: u64| exists|i: int| 0 <= i < docs.len() && docs[i].id == id,
        |id: u64| doc_view(docs[choose|i: int| 0 <= i < docs.len() && docs[i].id == id]),
    )
}

pub open spec fn map_get<K, V>(m: Map<K, V>, k: K) -> Option<V> {
    if m.contains_key(k) {
        Some(m[k])
    } else {
        None
    }
}

/// What is pending for a document after its state is (re)recorded: nothing
/// for an unsaved-to-disk or unmodified document; the existing entry when
/// auto-save is off or nothing changed; otherwise a fresh entry whose idle
/// deadline starts now and which remembers a focus loss already owed.
pub open spec fn record_entry(
    old: Option<PendingView>,
    policy: AutoSaveConfig,
    focused: bool,
    doc: DocView,
    now: u64,
) -> Option<PendingView> {
    if !(doc.path is Some && doc.is_modified) {
        None
    } else if policy.mode == AutoSaveMode::Off {
        old
    } else if old matches Some(p) && p.revision == doc.revision && p.path == doc.path->0 {
        old
    } else {
        Some(
            PendingView {
                path: doc.path->0,
                revision: doc.revision,
                idle: if policy.mode.after_delay_spec() {
                    Some((now + policy.delay_ms) as u64)
                } else {
                    None
                },
                focus_loss: policy.mode.on_focus_loss_spec() && (!focused || (old matches Some(
                    p,
                ) && p.focus_loss)),
            },
        )
    }
}

pub ghost struct SchedulerView {
    pub policy: AutoSaveConfig,
    pub pending: Map<u64, PendingView>,
    pub focused: bool,
    pub composition: Option<u64>,
}

/// Bring the scheduler up to date with the editor: a changed policy drops
/// every deadline; closed documents are forgotten; every open document's
/// state is recorded.
pub open spec fn sync_spec(st: SchedulerView, docs: Map<u64, DocView>, policy: AutoSaveConfig, now: u64) -> SchedulerView {
    let base = if st.policy != policy {
        Map::<u64, PendingView>::empty()
    } else {
        st.pending
    };
    SchedulerView {
        policy,
        pending: Map::new(
            |id: u64|
                docs.contains_key(id) && record_entry(map_get(base, id), policy, st.focused, docs[id], now)
                    is Some,
            |id: u64| record_entry(map_get(base, id), policy, st.focused, docs[id], now)->0,
        ),
        focused: st.focused,
        composition: match st.composition {
            Some(c) => if docs.contains_key(c) {
                Some(c)
            } else {
                None
            },
            None => None,
        },
    }
}

/// A pending save is due now: a focus loss is owed, or its idle deadline has
/// passed.
pub open spec fn is_due(p: PendingView, now: u64) -> bool {
    p.focus_loss || (p.idle matches Some(d) && d <= now)
}

/// Due, and neither held by an IME composition nor blocked by the editor.
pub open spec fn fires(st: SchedulerView, docs: Map<u64, DocView>, id: u64, now: u64) -> bool {
    &&& st.pending.contains_key(id)
    &&& is_due(st.pending[id], now)
    &&& st.composition != Some(id)
    &&& docs.contains_key(id) && docs[id].eligible
}


/// Requesting a save for a document that fires now.
pub open spec fn request_spec(st: SchedulerView, id: u64) -> RequestView {
    let p = st.pending[id];
    RequestView {
        document_id: id,
        revision: p.revision,
        path: p.path,
        policy: st.policy,
        reason: if p.focus_loss {
            SaveReason::FocusLoss
        } else {
            SaveReason::Idle
        },
    }
}

/// One pending entry after a take: a firing entry's idle deadline and owed
/// focus loss are consumed.
pub open spec fn take_view(st: SchedulerView, docs: Map<u64, DocView>, now: u64, id: u64, p: PendingView) -> PendingView {
    if fires(st, docs, id, now) {
        PendingView { idle: None, focus_loss: false, ..p }
    } else {
        p
    }
}

/// The pending entries after the firing ones were requested.
pub open spec fn after_take(st: SchedulerView, docs: Map<u64, DocView>, now: u64) -> SchedulerView {
    SchedulerView {
        pending: Map::new(
            |id: u64| st.pending.contains_key(id),
            |id: u64| take_view(st, docs, now, id, st.pending[id]),
        ),
        ..st
    }
}

/// Requests strictly ordered by document id.
pub open spec fn sorted_requests(r: Seq<AutoSaveRequest>) -> bool {
    forall|a: int, b: int| 0 <= a < b < r.len() ==> r[a].document_id < r[b].document_id
}

/// The scheduler after a focus change: a lost focus marks every pending
/// document as owing a save when the policy saves on focus loss.
pub open spec fn focus_spec(st: SchedulerView, docs: Map<u64, DocView>, policy: AutoSaveConfig, focused: bool, now: u64) -> SchedulerView {
    let s = sync_spec(st, docs, policy, now);
    let lost = s.focused && !focused;
    SchedulerView {
        focused,
        pending: if lost && policy.mode.on_focus_loss_spec() {
            Map::new(
                |id: u64| s.pending.contains_key(id),
                |id: u64| PendingView { focus_loss: true, ..s.pending[id] },
            )
        } else {
            s.pending
        },
        ..s
    }
}

/// The earliest idle deadline strictly after `now`, if any.
pub open spec fn is_next_deadline(pending: Map<u64, PendingView>, now: u64, r: Option<u64>) -> bool {
    match r {
        Some(d) => {
            &&& d > now
            &&& exists|id: u64| pending.contains_key(id) && pending[id].idle == Some(d)
            &&& forall|id: u64, e: u64|
                pending.contains_key(id) && pending[id].idle == Some(e) && e > now ==> d <= e
        },
        None => forall|id: u64, e: u64|
            pending.contains_key(id) && pending[id].idle == Some(e) ==> e <= now,
    }
}

struct Pending {
    id: u64,
    path: String,
    revision: u64,
    idle: Option<u64>,
    focus_loss: bool,
}

spec fn pview(p: Pending) -> PendingView {
    PendingView { path: p.path@, revision: p.revision, idle: p.idle, focus_loss: p.focus_loss }
}

spec fn opt_pview(p: Option<Pending>) -> Option<PendingView> {
    match p {
        Some(x) => Some(pview(x)),
        None => None,
    }
}

spec fn distinct_pending(v: Seq<Pending>) -> bool {
    forall|i: int, j: int| 0 <= i < v.len() && 0 <= j < v.len() && i != j ==> v[i].id != v[j].id
}

spec fn pending_map(v: Seq<Pending>) -> Map<u64, PendingView> {
    Map::new(
        |id: u64| exists|i: int| 0 <= i < v.len() && v[i].id == id,
        |id: u64| pview(v[choose|i: int| 0 <= i < v.len() && v[i].id == id]),
    )
}

proof fn lemma_pending_map_at(v: Seq<Pending>, i: int)
    requires
        distinct_pending(v),
        0 <= i < v.len(),
    ensures
        pending_map(v).contains_key(v[i].id),
        pending_map(v)[v[i].id] == pview(v[i]),
{
    let id = v[i].id;
    assert(exists|k: int| 0 <= k < v.len() && v[k].id == id);
    let k = choose|k: int| 0 <= k < v.len() && v[k].id == id;
    assert(k == i);
}

proof fn lemma_docs_map_at(docs: Seq<DocumentState>, i: int)
    requires
        distinct_ids(docs),
        0 <= i < docs.len(),
    ensures
        docs_map(docs).contains_key(docs[i].id),
        docs_map(docs)[docs[i].id] == doc_view(docs[i]),
{
    let id = docs[i].id;
    assert(exists|k: int| 0 <= k < docs.len() && docs[k].id == id);
    let k = choose|k: int| 0 <= k < docs.len() && docs[k].id == id;
    assert(k == i);
}

/// The entry `record_entry` describes, built from the document.
fn record_pending(old: Option<Pending>, policy: AutoSaveConfig, focused: bool, doc: &DocumentState, now: u64) -> (r: Option<Pending>)
    requires
        now + policy.delay_ms <= u64::MAX,
        old matches Some(p) ==> p.id == doc.id,
    ensures
        opt_pview(r) == record_entry(opt_pview(old), policy, focused, doc_view(*doc), now),
        r matches Some(p) ==> p.id == doc.id,
{
    let path = match &doc.path {
        Some(path) => path,
        None => {
            return None;
        },
    };
    if !doc.is_modified {
        return None;
    }
    if policy.mode == AutoSaveMode::Off {
        return old;
    }
    if let Some(p) = &old {
        if p.revision == doc.revision && p.path == *path {
            return old;
        }
    }
    let owed = match &old {
        Some(p) => p.focus_loss,
        None => false,
    };
    Some(
        Pending {
            id: doc.id,
            path: path.clone(),
            revision: doc.revision,
            idle: if policy.mode.after_delay() {
                Some(now + policy.delay_ms)
            } else {
                None
            },
            focus_loss: policy.mode.on_focus_loss() && (!focused || owed),
        },
    )
}

/// Remove and return the entry for `id`, if any.
fn take_pending(v: &mut Vec<Pending>, id: u64) -> (r: Option<Pending>)
    requires
        distinct_pending(old(v)@),
    ensures
        distinct_pending(final(v)@),
        opt_pview(r) == map_get(pending_map(old(v)@), id),
        r matches Some(p) ==> p.id == id,
        pending_map(final(v)@) == pending_map(old(v)@).remove(id),
        forall|k: int| 0 <= k < final(v)@.len() ==> exists|j: int| 0 <= j < old(v)@.len() && old(v)@[j].id == #[trigger] final(v)@[k].id,
{
    let ghost ov = v@;
    let mut i: usize = 0;
    while i < v.len()
        invariant
            ov == v@,
            0 <= i <= v@.len(),
            forall|k: int| 0 <= k < i ==> v@[k].id != id,
        ensures
            0 <= i <= v@.len(),
            forall|k: int| 0 <= k < i ==> v@[k].id != id,
            i < v@.len() ==> v@[i as int].id == id,
        decreases v@.len() - i,
    {
        if v[i].id == id {
            break;
        }
        i = i + 1;
    }
    if i == v.len() {
        assert(!pending_map(ov).contains_key(id));
        assert(pending_map(ov).remove(id) =~= pending_map(ov));
        return None;
    }
    let p = v.remove(i);
    proof {
        lemma_pending_map_at(ov, i as int);
        let nv = v@;
        assert(nv =~= ov.remove(i as int));
        assert forall|a: int, b: int| 0 <= a < nv.len() && 0 <= b < nv.len() && a != b implies nv[a].id != nv[b].id by {
            let ia = if a < i { a } else { a + 1 };
            let ib = if b < i { b } else { b + 1 };
            assert(nv[a] == ov[ia] && nv[b] == ov[ib]);
        }
        assert forall|k: int| 0 <= k < nv.len() implies exists|j: int| 0 <= j < ov.len() && ov[j].id == #[trigger] nv[k].id by {
            let ik = if k < i { k } else { k + 1 };
            assert(nv[k] == ov[ik]);
        }
        assert forall|x: u64| pending_map(nv).contains_key(x) <==> pending_map(ov).remove(id).contains_key(x) by {
            if pending_map(nv).contains_key(x) {
                let k = choose|k: int| 0 <= k < nv.len() && nv[k].id == x;
                let ik = if k < i { k } else { k + 1 };
                assert(nv[k] == ov[ik]);
            }
            if pending_map(ov).remove(id).contains_key(x) {
                let j = choose|j: int| 0 <= j < ov.len() && ov[j].id == x;
                assert(j != i);
                let kj = if j < i { j } else { j - 1 };
                assert(nv[kj] == ov[j]);
            }
        }
        assert forall|x: u64| #[trigger] pending_map(nv).contains_key(x) implies pending_map(nv)[x] == pending_map(ov).remove(id)[x] by {
            let k = choose|k: int| 0 <= k < nv.len() && nv[k].id == x;
            lemma_pending_map_at(nv, k);
            let ik = if k < i { k } else { k + 1 };
            assert(nv[k] == ov[ik]);
            lemma_pending_map_at(ov, ik);
        }
        assert(pending_map(nv) =~= pending_map(ov).remove(id));
    }
    Some(p)
}


proof fn lemma_pending_map_push(v: Seq<Pending>, p: Pending)
    requires
        distinct_pending(v),
        forall|k: int| 0 <= k < v.len() ==> v[k].id != p.id,
    ensures
        distinct_pending(v.push(p)),
        pending_map(v.push(p)) == pending_map(v).insert(p.id, pview(p)),
{
    let nv = v.push(p);
    assert forall|a: int, b: int| 0 <= a < nv.len() && 0 <= b < nv.len() && a != b implies nv[a].id != nv[b].id by {
        if a < v.len() && b < v.len() {
            assert(nv[a] == v[a] && nv[b] == v[b]);
        } else if a < v.len() {
            assert(nv[a] == v[a]);
        } else {
            assert(nv[b] == v[b]);
        }
    }
    assert forall|x: u64| pending_map(nv).contains_key(x) <==> pending_map(v).insert(p.id, pview(p)).contains_key(x) by {
        if pending_map(nv).contains_key(x) {
            let k = choose|k: int| 0 <= k < nv.len() && nv[k].id == x;
            if k < v.len() {
                assert(nv[k] == v[k]);
            }
        }
        if pending_map(v).contains_key(x) {
            let k = choose|k: int| 0 <= k < v.len() && v[k].id == x;
            assert(nv[k] == v[k]);
        }
        if x == p.id {
            assert(nv[v.len() as int] == p);
        }
    }
    assert forall|x: u64| #[trigger] pending_map(nv).contains_key(x) implies pending_map(nv)[x] == pending_map(v).insert(p.id, pview(p))[x] by {
        let k = choose|k: int| 0 <= k < nv.len() && nv[k].id == x;
        lemma_pending_map_at(nv, k);
        if k < v.len() {
            assert(nv[k] == v[k]);
            lemma_pending_map_at(v, k);
        }
    }
    assert(pending_map(nv) =~= pending_map(v).insert(p.id, pview(p)));
}

proof fn lemma_pending_len(v: Seq<Pending>)
    requires
        distinct_pending(v),
    ensures
        pending_map(v).len() == v.len(),
{
    let ids = v.map_values(|p: Pending| p.id);
    assert(pending_map(v).dom() =~= ids.to_set()) by {
        assert forall|x: u64| pending_map(v).dom().contains(x) <==> ids.to_set().contains(x) by {
            if pending_map(v).dom().contains(x) {
                let i = choose|i: int| 0 <= i < v.len() && v[i].id == x;
                assert(ids[i] == x);
            }
            if ids.to_set().contains(x) {
                let i = choose|i: int| 0 <= i < ids.len() && ids[i] == x;
                assert(v[i].id == x);
            }
        }
    }
    assert(ids.no_duplicates()) by {
        assert forall|a: int, b: int| 0 <= a < ids.len() && 0 <= b < ids.len() && a != b implies ids[a] != ids[b] by {}
    }
    ids.unique_seq_to_set();
}

proof fn lemma_pending_map_update(ov: Seq<Pending>, nv: Seq<Pending>, f: spec_fn(u64, PendingView) -> PendingView)
    requires
        distinct_pending(ov),
        ov.len() == nv.len(),
        forall|k: int| 0 <= k < nv.len() ==> #[trigger] nv[k].id == ov[k].id,
        forall|k: int| 0 <= k < nv.len() ==> #[trigger] pview(nv[k]) == f(ov[k].id, pview(ov[k])),
    ensures
        distinct_pending(nv),
        pending_map(nv) == Map::new(
            |id: u64| pending_map(ov).contains_key(id),
            |id: u64| f(id, pending_map(ov)[id]),
        ),
{
    let want = Map::new(
        |id: u64| pending_map(ov).contains_key(id),
        |id: u64| f(id, pending_map(ov)[id]),
    );
    assert forall|a: int, b: int| 0 <= a < nv.len() && 0 <= b < nv.len() && a != b implies nv[a].id != nv[b].id by {
        assert(nv[a].id == ov[a].id && nv[b].id == ov[b].id);
    }
    assert forall|x: u64| pending_map(nv).contains_key(x) <==> want.contains_key(x) by {
        if pending_map(nv).contains_key(x) {
            let k = choose|k: int| 0 <= k < nv.len() && nv[k].id == x;
            assert(ov[k].id == x);
        }
        if pending_map(ov).contains_key(x) {
            let k = choose|k: int| 0 <= k < ov.len() && ov[k].id == x;
            assert(nv[k].id == x);
        }
    }
    assert forall|x: u64| #[trigger] pending_map(nv).contains_key(x) implies pending_map(nv)[x] == want[x] by {
        let k = choose|k: int| 0 <= k < nv.len() && nv[k].id == x;
        lemma_pending_map_at(nv, k);
        assert(ov[k].id == x);
        lemma_pending_map_at(ov, k);
    }
    assert(pending_map(nv) =~= want);
}

proof fn lemma_absent_id(v: Seq<Pending>, id: u64)
    requires
        !pending_map(v).contains_key(id),
    ensures
        forall|k: int| 0 <= k < v.len() ==> v[k].id != id,
{
    assert forall|k: int| 0 <= k < v.len() implies v[k].id != id by {
        if v[k].id == id {
            assert(pending_map(v).contains_key(id));
        }
    }
}

/// Recording a document twice in a row records it once.
proof fn lemma_record_idempotent(o: Option<PendingView>, policy: AutoSaveConfig, focused: bool, doc: DocView, now: u64)
    ensures
        record_entry(record_entry(o, policy, focused, doc, now), policy, focused, doc, now) == record_entry(
            o,
            policy,
            focused,
            doc,
            now,
        ),
{
}

/// Whether the document `id` is open and the editor allows saving it now.
fn doc_eligible(model: &AutoSaveModel, id: u64) -> (r: bool)
    requires
        distinct_ids(model.documents@),
    ensures
        r == (docs_map(model.documents@).contains_key(id) && docs_map(model.documents@)[id].eligible),
{
    match find_doc(model, id) {
        Some(j) => {
            proof {
                lemma_docs_map_at(model.documents@, j as int);
            }
            model.documents[j].eligible
        },
        None => false,
    }
}

/// The position of the open document `id`.
fn find_doc(model: &AutoSaveModel, id: u64) -> (r: Option<usize>)
    ensures
        r matches Some(j) ==> j < model.documents@.len() && model.documents@[j as int].id == id,
        r is None ==> !docs_map(model.documents@).contains_key(id),
{
    let mut j: usize = 0;
    while j < model.documents.len()
        invariant
            0 <= j <= model.documents@.len(),
            forall|k: int| 0 <= k < j ==> model.documents@[k].id != id,
        decreases model.documents@.len() - j,
    {
        if model.documents[j].id == id {
            return Some(j);
        }
        j = j + 1;
    }
    None
}

/// Insert a request into a list kept in document-id order.
fn insert_sorted(v: &mut Vec<AutoSaveRequest>, req: AutoSaveRequest)
    requires
        sorted_requests(old(v)@),
        forall|t: int| 0 <= t < old(v)@.len() ==> old(v)@[t].document_id != req.document_id,
    ensures
        sorted_requests(final(v)@),
        final(v)@.len() == old(v)@.len() + 1,
        forall|t: int| 0 <= t < final(v)@.len() ==> #[trigger] final(v)@[t] == req || exists|u: int|
            0 <= u < old(v)@.len() && old(v)@[u] == final(v)@[t],
        forall|u: int| 0 <= u < old(v)@.len() ==> exists|t: int|
            0 <= t < final(v)@.len() && final(v)@[t] == #[trigger] old(v)@[u],
        exists|t: int| 0 <= t < final(v)@.len() && final(v)@[t] == req,
{
    let ghost ov = v@;
    let mut pos: usize = 0;
    while pos < v.len()
        invariant
            0 <= pos <= v@.len(),
            v@ == ov,
            forall|t: int| 0 <= t < ov.len() ==> ov[t].document_id != req.document_id,
            forall|t: int| 0 <= t < pos ==> v@[t].document_id < req.document_id,
        ensures
            0 <= pos <= v@.len(),
            forall|t: int| 0 <= t < pos ==> v@[t].document_id < req.document_id,
            pos < v@.len() ==> v@[pos as int].document_id > req.document_id,
        decreases v@.len() - pos,
    {
        if v[pos].document_id > req.document_id {
            break;
        }
        pos = pos + 1;
    }
    v.insert(pos, req);
    proof {
        let nv = v@;
        assert(nv =~= ov.insert(pos as int, req));
        assert forall|a: int, b: int| 0 <= a < b < nv.len() implies nv[a].document_id < nv[b].document_id by {
            if b < pos {
            } else if b == pos {
            } else if a < pos {
                assert(nv[b] == ov[b - 1]);
            } else if a == pos {
                assert(nv[b] == ov[b - 1]);
                assert(ov[pos as int].document_id <= ov[b - 1].document_id);
            } else {
                assert(nv[a] == ov[a - 1] && nv[b] == ov[b - 1]);
            }
        }
        assert forall|t: int| 0 <= t < nv.len() implies #[trigger] nv[t] == req || exists|u: int|
            0 <= u < ov.len() && ov[u] == nv[t] by {
            if t < pos {
                assert(ov[t] == nv[t]);
            } else if t > pos {
                assert(ov[t - 1] == nv[t]);
            }
        }
        assert forall|u: int| 0 <= u < ov.len() implies exists|t: int|
            0 <= t < nv.len() && nv[t] == #[trigger] ov[u] by {
            if u < pos {
                assert(nv[u] == ov[u]);
            } else {
                assert(nv[u + 1] == ov[u]);
            }
        }
        assert(nv[pos as int] == req);
    }
}

/// Deadlines for documents with unsaved edits, plus whether the window has
/// focus and which document an IME composition is editing.
pub struct AutoSaveScheduler {
    policy: AutoSaveConfig,
    documents: Vec<Pending>,
    focused: bool,
    pub composition: Option<u64>,
}

impl View for AutoSaveScheduler {
    type V = SchedulerView;

    closed spec fn view(&self) -> SchedulerView {
        SchedulerView {
            policy: self.policy,
            pending: pending_map(self.documents@),
            focused: self.focused,
            composition: self.composition,
        }
    }
}

impl Default for AutoSaveScheduler {
    fn default() -> (r: AutoSaveScheduler)
        ensures
            r.wf(),
            r@ == (SchedulerView {
                policy: AutoSaveConfig { mode: AutoSaveMode::Off, delay_ms: 1000 },
                pending: Map::empty(),
                focused: true,
                composition: None,
            }),
    {
        let r = AutoSaveScheduler {
            policy: AutoSaveConfig::default(),
            documents: Vec::new(),
            focused: true,
            composition: None,
        };
        assert(pending_map(r.documents@) =~= Map::<u64, PendingView>::empty());
        r
    }
}

impl AutoSaveScheduler {
    pub closed spec fn wf(&self) -> bool {
        distinct_pending(self.documents@)
    }

    /// How many documents have a pending save.
    pub fn pending_count(&self) -> (r: usize)
        requires
            self.wf(),
        ensures
            r == self@.pending.len(),
    {
        proof {
            lemma_pending_len(self.documents@);
        }
        self.documents.len()
    }

    /// Forget a document's deadline.
    pub fn cancel(&mut self, id: u64)
        requires
            old(self).wf(),
        ensures
            final(self).wf(),
            final(self)@ == (SchedulerView { pending: old(self)@.pending.remove(id), ..old(self)@ }),
    {
        let _ = take_pending(&mut self.documents, id);
    }

    fn sync(&mut self, model: &AutoSaveModel, now: u64)
        requires
            old(self).wf(),
            distinct_ids(model.documents@),
            now + model.policy.delay_ms <= u64::MAX,
        ensures
            final(self).wf(),
            final(self)@ == sync_spec(old(self)@, docs_map(model.documents@), model.policy, now),
    {
        let ghost st = self@;
        let ghost docs = model.documents@;
        let ghost dm = docs_map(docs);
        let ghost base = if st.policy != model.policy {
            Map::<u64, PendingView>::empty()
        } else {
            st.pending
        };
        if self.policy != model.policy {
            self.policy = model.policy;
            self.documents = Vec::new();
            assert(pending_map(self.documents@) =~= Map::<u64, PendingView>::empty());
        }
        let mut next: Vec<Pending> = Vec::new();
        let n = model.documents.len();
        let mut i: usize = 0;
        while i < n
            invariant
                n == docs.len(),
                docs == model.documents@,
                distinct_ids(docs),
                dm == docs_map(docs),
                now + model.policy.delay_ms <= u64::MAX,
                self.policy == model.policy,
                self.focused == st.focused,
                self.composition == st.composition,
                0 <= i <= n,
                distinct_pending(self.documents@),
                distinct_pending(next@),
                forall|k: int|
                    0 <= k < next@.len() ==> exists|j: int|
                        0 <= j < i && docs[j].id == #[trigger] next@[k].id,
                forall|j: int|
                    0 <= j < i ==> map_get(pending_map(next@), #[trigger] docs[j].id) == record_entry(
                        map_get(base, docs[j].id),
                        model.policy,
                        st.focused,
                        doc_view(docs[j]),
                        now,
                    ),
                forall|x: u64|
                    map_get(pending_map(self.documents@), x) == if exists|j: int| 0 <= j < i && docs[j].id == x {
                        None
                    } else {
                        map_get(base, x)
                    },
            decreases n - i,
        {
            let doc = &model.documents[i];
            let ghost before = self.documents@;
            let old = take_pending(&mut self.documents, doc.id);
            proof {
                assert(opt_pview(old) == map_get(base, doc.id)) by {
                    assert(!exists|j: int| 0 <= j < i && docs[j].id == doc.id);
                }
            }
            let rec = record_pending(old, self.policy, self.focused, doc, now);
            let ghost prev = next@;
            if let Some(p) = rec {
                proof {
                    assert forall|k: int| 0 <= k < prev.len() implies prev[k].id != p.id by {
                        let j = choose|j: int| 0 <= j < i && docs[j].id == prev[k].id;
                    }
                    lemma_pending_map_push(prev, p);
                }
                next.push(p);
            }
            proof {
                assert forall|x: u64| map_get(pending_map(self.documents@), x) == (if exists|j: int|
                    0 <= j < i + 1 && docs[j].id == x {
                    None
                } else {
                    map_get(base, x)
                }) by {
                    let prior = map_get(pending_map(before), x);
                    assert(prior == if exists|j: int| 0 <= j < i && docs[j].id == x {
                        None
                    } else {
                        map_get(base, x)
                    });
                    if x == docs[i as int].id {
                        assert(exists|j: int| 0 <= j < i + 1 && docs[j].id == x);
                        assert(!pending_map(self.documents@).contains_key(x));
                    } else {
                        assert(map_get(pending_map(self.documents@), x) == prior);
                        if exists|j: int| 0 <= j < i + 1 && docs[j].id == x {
                            let j = choose|j: int| 0 <= j < i + 1 && docs[j].id == x;
                            assert(exists|j2: int| 0 <= j2 < i && docs[j2].id == x);
                        }
                    }
                }
                assert forall|k: int| 0 <= k < next@.len() implies exists|j: int|
                    0 <= j < i + 1 && docs[j].id == #[trigger] next@[k].id by {
                    if k < prev.len() {
                        assert(next@[k] == prev[k]);
                        let j = choose|j: int| 0 <= j < i && docs[j].id == prev[k].id;
                    } else {
                        assert(docs[i as int].id == next@[k].id);
                    }
                }
                assert forall|j: int| 0 <= j < i + 1 implies map_get(pending_map(next@), #[trigger] docs[j].id)
                    == record_entry(map_get(base, docs[j].id), model.policy, st.focused, doc_view(docs[j]), now) by {
                    if j < i {
                        assert(docs[j].id != docs[i as int].id);
                    }
                }
            }
            i = i + 1;
        }
        self.documents = next;
        if let Some(c) = self.composition {
            let mut found = false;
            let mut j: usize = 0;
            while j < n
                invariant
                    n == docs.len(),
                    docs == model.documents@,
                    0 <= j <= n,
                    found <==> exists|k: int| 0 <= k < j && docs[k].id == c,
                decreases n - j,
            {
                if model.documents[j].id == c {
                    found = true;
                }
                j = j + 1;
            }
            if !found {
                self.composition = None;
            }
        }
        proof {
            let got = pending_map(self.documents@);
            let want = sync_spec(st, dm, model.policy, now).pending;
            assert forall|x: u64| got.contains_key(x) <==> want.contains_key(x) by {
                if got.contains_key(x) {
                    let k = choose|k: int| 0 <= k < self.documents@.len() && self.documents@[k].id == x;
                    let j = choose|j: int| 0 <= j < n && docs[j].id == self.documents@[k].id;
                    lemma_docs_map_at(docs, j);
                }
                if want.contains_key(x) {
                    let j = choose|j: int| 0 <= j < docs.len() && docs[j].id == x;
                    lemma_docs_map_at(docs, j);
                }
            }
            assert forall|x: u64| #[trigger] got.contains_key(x) implies got[x] == want[x] by {
                let k = choose|k: int| 0 <= k < self.documents@.len() && self.documents@[k].id == x;
                let j = choose|j: int| 0 <= j < n && docs[j].id == self.documents@[k].id;
                lemma_docs_map_at(docs, j);
            }
            assert(got =~= want);
        }
    }
    /// A document was edited to `revision`. A revision already recorded
    /// keeps its deadline, so a repeated notification does not delay a save.
    pub fn edited(&mut self, model: &AutoSaveModel, id: u64, revision: u64, now: u64)
        requires
            old(self).wf(),
            distinct_ids(model.documents@),
            now + model.policy.delay_ms <= u64::MAX,
        ensures
            final(self).wf(),
            final(self)@ == sync_spec(old(self)@, docs_map(model.documents@), model.policy, now),
    {
        self.sync(model, now);
        let ghost s = self@;
        if let Some(j) = find_doc(model, id) {
            let doc = &model.documents[j];
            if doc.revision == revision {
                let ghost before = self.documents@;
                let old = take_pending(&mut self.documents, id);
                let rec = record_pending(old, self.policy, self.focused, doc, now);
                proof {
                    lemma_docs_map_at(model.documents@, j as int);
                    lemma_record_idempotent(
                        map_get(s.pending, id),
                        model.policy,
                        s.focused,
                        doc_view(*doc),
                        now,
                    );
                }
                let ghost taken = self.documents@;
                if let Some(p) = rec {
                    proof {
                        lemma_absent_id(taken, id);
                        lemma_pending_map_push(taken, p);
                    }
                    self.documents.push(p);
                }
                proof {
                    assert(pending_map(self.documents@) =~= s.pending);
                }
            }
        }
    }

    /// The window gained or lost focus.
    pub fn focus_changed(&mut self, model: &AutoSaveModel, focused: bool, now: u64)
        requires
            old(self).wf(),
            distinct_ids(model.documents@),
            now + model.policy.delay_ms <= u64::MAX,
        ensures
            final(self).wf(),
            final(self)@ == focus_spec(old(self)@, docs_map(model.documents@), model.policy, focused, now),
    {
        self.sync(model, now);
        let ghost s = self@;
        let lost = self.focused && !focused;
        self.focused = focused;
        if lost && self.policy.mode.on_focus_loss() {
            let ghost orig = self.documents@;
            let n = self.documents.len();
            let mut i: usize = 0;
            while i < n
                invariant
                    n == orig.len(),
                    self.documents@.len() == n,
                    0 <= i <= n,
                    self.focused == focused,
                    self.policy == s.policy,
                    self.composition == s.composition,
                    forall|k: int| 0 <= k < n ==> #[trigger] self.documents@[k].id == orig[k].id,
                    forall|k: int|
                        0 <= k < i ==> #[trigger] pview(self.documents@[k]) == (PendingView {
                            focus_loss: true,
                            ..pview(orig[k])
                        }),
                    forall|k: int| i <= k < n ==> #[trigger] self.documents@[k] == orig[k],
                decreases n - i,
            {
                let p = &self.documents[i];
                let q = Pending {
                    id: p.id,
                    path: p.path.clone(),
                    revision: p.revision,
                    idle: p.idle,
                    focus_loss: true,
                };
                self.documents.set(i, q);
                i = i + 1;
            }
            proof {
                let f = |id: u64, v: PendingView| PendingView { focus_loss: true, ..v };
                assert forall|k: int| 0 <= k < n implies #[trigger] pview(self.documents@[k]) == f(
                    orig[k].id,
                    pview(orig[k]),
                ) by {}
                lemma_pending_map_update(orig, self.documents@, f);
                assert(pending_map(self.documents@) =~= focus_spec(
                    old(self)@,
                    docs_map(model.documents@),
                    model.policy,
                    focused,
                    now,
                ).pending);
            }
        }
    }

    /// The saves due at `now`, in document-id order. A due save that an IME
    /// composition or the editor holds back stays pending, so it is retried
    /// on a later call; `next_deadline` leaves past deadlines out, so such a
    /// save never makes the event loop spin.
    #[verifier::rlimit(60)]
    pub fn take_due(&mut self, model: &AutoSaveModel, now: u64) -> (r: Vec<AutoSaveRequest>)
        requires
            old(self).wf(),
            distinct_ids(model.documents@),
            now + model.policy.delay_ms <= u64::MAX,
        ensures
            final(self).wf(),
            final(self)@ == after_take(
                sync_spec(old(self)@, docs_map(model.documents@), model.policy, now),
                docs_map(model.documents@),
                now,
            ),
            sorted_requests(r@),
            forall|t: int|
                0 <= t < r@.len() ==> fires(
                    sync_spec(old(self)@, docs_map(model.documents@), model.policy, now),
                    docs_map(model.documents@),
                    #[trigger] r@[t].document_id,
                    now,
                ) && r@[t]@ == request_spec(
                    sync_spec(old(self)@, docs_map(model.documents@), model.policy, now),
                    r@[t].document_id,
                ),
            forall|id: u64|
                fires(
                    sync_spec(old(self)@, docs_map(model.documents@), model.policy, now),
                    docs_map(model.documents@),
                    id,
                    now,
                ) ==> exists|t: int| 0 <= t < r@.len() && #[trigger] r@[t].document_id == id,
    {
        self.sync(model, now);
        let ghost s = self@;
        let ghost dm = docs_map(model.documents@);
        let ghost orig = self.documents@;
        proof {
            assert forall|k: int| 0 <= k < orig.len() implies s.pending.contains_key(#[trigger] orig[k].id)
                && s.pending[orig[k].id] == pview(orig[k]) by {
                lemma_pending_map_at(orig, k);
            }
        }
        let mut requests: Vec<AutoSaveRequest> = Vec::new();
        let n = self.documents.len();
        let mut i: usize = 0;
        while i < n
            invariant
                n == orig.len(),
                self.documents@.len() == n,
                0 <= i <= n,
                distinct_pending(orig),
                forall|k: int|
                    0 <= k < n ==> s.pending.contains_key(#[trigger] orig[k].id) && s.pending[orig[k].id]
                        == pview(orig[k]),
                s.composition == self.composition,
                s.policy == self.policy,
                s.focused == self.focused,
                dm == docs_map(model.documents@),
                distinct_ids(model.documents@),
                forall|k: int| 0 <= k < n ==> #[trigger] self.documents@[k].id == orig[k].id,
                forall|k: int|
                    0 <= k < i ==> #[trigger] pview(self.documents@[k]) == take_view(
                        s,
                        dm,
                        now,
                        orig[k].id,
                        pview(orig[k]),
                    ),
                forall|k: int| i <= k < n ==> #[trigger] self.documents@[k] == orig[k],
                sorted_requests(requests@),
                forall|t: int|
                    0 <= t < requests@.len() ==> fires(s, dm, #[trigger] requests@[t].document_id, now)
                        && requests@[t]@ == request_spec(s, requests@[t].document_id) && exists|k: int|
                        0 <= k < i && orig[k].id == requests@[t].document_id,
                forall|k: int|
                    0 <= k < i && fires(s, dm, #[trigger] orig[k].id, now) ==> exists|t: int|
                        0 <= t < requests@.len() && requests@[t].document_id == orig[k].id,
            decreases n - i,
        {
            let p = &self.documents[i];
            let due = p.focus_loss || match p.idle {
                Some(d) => d <= now,
                None => false,
            };
            let held = match self.composition {
                Some(c) => c == p.id,
                None => false,
            };
            if due && !held && doc_eligible(model, p.id) {
                let id = p.id;
                let req = AutoSaveRequest {
                    document_id: id,
                    revision: p.revision,
                    path: p.path.clone(),
                    policy: self.policy,
                    reason: if p.focus_loss {
                        SaveReason::FocusLoss
                    } else {
                        SaveReason::Idle
                    },
                };
                let q = Pending {
                    id,
                    path: p.path.clone(),
                    revision: p.revision,
                    idle: None,
                    focus_loss: false,
                };
                self.documents.set(i, q);
                proof {
                    assert forall|t: int| 0 <= t < requests@.len() implies requests@[t].document_id != id by {
                        let k = choose|k: int| 0 <= k < i && orig[k].id == requests@[t].document_id;
                    }
                }
                let ghost prev = requests@;
                insert_sorted(&mut requests, req);
                proof {
                    assert forall|t: int| 0 <= t < requests@.len() implies fires(
                        s,
                        dm,
                        #[trigger] requests@[t].document_id,
                        now,
                    ) && requests@[t]@ == request_spec(s, requests@[t].document_id) && exists|k: int|
                        0 <= k < i + 1 && orig[k].id == requests@[t].document_id by {
                        if requests@[t] != req {
                            let u = choose|u: int| 0 <= u < prev.len() && prev[u] == requests@[t];
                            assert(fires(s, dm, prev[u].document_id, now));
                        }
                    }
                    assert forall|k: int|
                        0 <= k < i + 1 && fires(s, dm, #[trigger] orig[k].id, now) implies exists|t: int|
                        0 <= t < requests@.len() && requests@[t].document_id == orig[k].id by {
                        if k < i {
                            let u = choose|u: int| 0 <= u < prev.len() && prev[u].document_id == orig[k].id;
                            let t = choose|t: int| 0 <= t < requests@.len() && requests@[t] == prev[u];
                        } else {
                            let t = choose|t: int| 0 <= t < requests@.len() && requests@[t] == req;
                        }
                    }
                }
            }
            i = i + 1;
        }
        proof {
            let f = |id: u64, v: PendingView| take_view(s, dm, now, id, v);
            assert forall|k: int| 0 <= k < n implies #[trigger] pview(self.documents@[k]) == f(
                orig[k].id,
                pview(orig[k]),
            ) by {}
            lemma_pending_map_update(orig, self.documents@, f);
            assert(pending_map(self.documents@) =~= after_take(s, dm, now).pending);
            assert forall|id: u64| fires(s, dm, id, now) implies exists|t: int|
                0 <= t < requests@.len() && #[trigger] requests@[t].document_id == id by {
                let k = choose|k: int| 0 <= k < orig.len() && orig[k].id == id;
                assert(fires(s, dm, orig[k].id, now));
            }
        }
        requests
    }

    /// The earliest idle deadline still ahead of `now`. A deadline that has
    /// passed is left out: its save is held back and waits for the next event.
    pub fn next_deadline(&self, now: u64) -> (r: Option<u64>)
        requires
            self.wf(),
        ensures
            is_next_deadline(self@.pending, now, r),
    {
        let ghost v = self.documents@;
        let mut best: Option<u64> = None;
        let mut i: usize = 0;
        while i < self.documents.len()
            invariant
                v == self.documents@,
                distinct_pending(v),
                0 <= i <= v.len(),
                match best {
                    Some(d) => {
                        &&& d > now
                        &&& exists|k: int| 0 <= k < i && v[k].idle == Some(d)
                        &&& forall|k: int, e: u64|
                            0 <= k < i && v[k].idle == Some(e) && e > now ==> d <= e
                    },
                    None => forall|k: int, e: u64| 0 <= k < i && v[k].idle == Some(e) ==> e <= now,
                },
            decreases v.len() - i,
        {
            if let Some(d) = self.documents[i].idle {
                if d > now {
                    match best {
                        Some(b) => {
                            if d < b {
                                best = Some(d);
                            }
                        },
                        None => {
                            best = Some(d);
                        },
                    }
                }
            }
            i = i + 1;
        }
        proof {
            let pm = pending_map(v);
            match best {
                Some(d) => {
                    let k = choose|k: int| 0 <= k < v.len() && v[k].idle == Some(d);
                    lemma_pending_map_at(v, k);
                    assert(pm.contains_key(v[k].id) && pm[v[k].id].idle == Some(d));
                    assert forall|id: u64, e: u64|
                        pm.contains_key(id) && pm[id].idle == Some(e) && e > now implies d <= e by {
                        let k2 = choose|k2: int| 0 <= k2 < v.len() && v[k2].id == id;
                        lemma_pending_map_at(v, k2);
                    }
                },
                None => {
                    assert forall|id: u64, e: u64| pm.contains_key(id) && pm[id].idle == Some(e) implies e
                        <= now by {
                        let k2 = choose|k2: int| 0 <= k2 < v.len() && v[k2].id == id;
                        lemma_pending_map_at(v, k2);
                    }
                },
            }
        }
        best
    }
}


/// Once `take_due` has requested the saves due at `now`, asking again at the
/// same time with the same editor state requests nothing: a trigger is
/// consumed by its request, and a held-back save stays held back.
pub proof fn law_requested_saves_are_not_repeated(
    st: SchedulerView,
    docs: Map<u64, DocView>,
    policy: AutoSaveConfig,
    now: u64,
    id: u64,
)
    ensures
        !fires(
            sync_spec(after_take(sync_spec(st, docs, policy, now), docs, now), docs, policy, now),
            docs,
            id,
            now,
        ),
{
    let s1 = sync_spec(st, docs, policy, now);
    let s2 = after_take(s1, docs, now);
    let s3 = sync_spec(s2, docs, policy, now);
    if s3.pending.contains_key(id) {
        assert(s2.pending.contains_key(id));
        assert(s3.pending[id] == s2.pending[id]);
    }
}

/// Switching auto-save off drops every deadline that was pending.
pub proof fn law_turning_auto_save_off_drops_deadlines(
    st: SchedulerView,
    docs: Map<u64, DocView>,
    policy: AutoSaveConfig,
    now: u64,
)
    requires
        st.policy != policy,
        policy.mode == AutoSaveMode::Off,
    ensures
        sync_spec(st, docs, policy, now).pending == Map::<u64, PendingView>::empty(),
{
    assert(sync_spec(st, docs, policy, now).pending =~= Map::<u64, PendingView>::empty());
}

/// A closed document has no deadline and no composition.
pub proof fn law_closed_documents_are_forgotten(
    st: SchedulerView,
    docs: Map<u64, DocView>,
    policy: AutoSaveConfig,
    now: u64,
    id: u64,
)
    requires
        !docs.contains_key(id),
    ensures
        !sync_spec(st, docs, policy, now).pending.contains_key(id),
        sync_spec(st, docs, policy, now).composition != Some(id),
{
}

/// Seeing a revision that is already recorded keeps its deadline: a repeated
/// notification never postpones a save.
pub proof fn law_unchanged_revision_keeps_deadline(
    st: SchedulerView,
    docs: Map<u64, DocView>,
    policy: AutoSaveConfig,
    now: u64,
    id: u64,
)
    requires
        st.policy == policy,
        st.pending.contains_key(id),
        docs.contains_key(id),
        docs[id].path == Some(st.pending[id].path),
        docs[id].is_modified,
        docs[id].revision == st.pending[id].revision,
    ensures
        sync_spec(st, docs, policy, now).pending.contains_key(id),
        sync_spec(st, docs, policy, now).pending[id] == st.pending[id],
{
}

/// While the window is unfocused, a newly recorded revision owes a save at
/// once when the policy saves on focus loss.
pub proof fn law_new_edits_while_unfocused_owe_a_save(
    st: SchedulerView,
    docs: Map<u64, DocView>,
    policy: AutoSaveConfig,
    now: u64,
    id: u64,
)
    requires
        !st.focused,
        policy.mode.on_focus_loss_spec(),
        docs.contains_key(id),
        docs[id].path is Some,
        docs[id].is_modified,
        !(map_get(st.pending, id) matches Some(p) && p.revision == docs[id].revision && p.path
            == docs[id].path->0),
    ensures
        sync_spec(st, docs, policy, now).pending.contains_key(id),
        sync_spec(st, docs, policy, now).pending[id].focus_loss,
{
}

/// Each document's deadline is its own: what is pending for a document after
/// the scheduler is brought up to date depends on that document alone,
/// whatever the other documents do, and taking the due saves leaves the
/// entry of a document that does not fire as it was.
pub proof fn law_deadlines_are_independent(
    st: SchedulerView,
    docs: Map<u64, DocView>,
    other_docs: Map<u64, DocView>,
    policy: AutoSaveConfig,
    now: u64,
    id: u64,
)
    requires
        docs.contains_key(id) == other_docs.contains_key(id),
        docs.contains_key(id) ==> docs[id] == other_docs[id],
    ensures
        sync_spec(st, docs, policy, now).pending.contains_key(id) == sync_spec(st, other_docs, policy, now).pending.contains_key(id),
        sync_spec(st, docs, policy, now).pending.contains_key(id) ==> sync_spec(st, docs, policy, now).pending[id]
            == sync_spec(st, other_docs, policy, now).pending[id],
        st.pending.contains_key(id) && !fires(st, docs, id, now) ==> after_take(st, docs, now).pending.contains_key(id)
            && after_take(st, docs, now).pending[id] == st.pending[id],
{
}

/// A save comes due once: after a document's due save was requested, no
/// later time brings it due again while the editor still shows the same
/// revision; only a new edit owes another save.
pub proof fn law_a_due_save_fires_once(
    st: SchedulerView,
    docs: Map<u64, DocView>,
    policy: AutoSaveConfig,
    now: u64,
    later: u64,
    id: u64,
)
    requires
        fires(sync_spec(st, docs, policy, now), docs, id, now),
    ensures
        !fires(sync_spec(after_take(sync_spec(st, docs, policy, now), docs, now), docs, policy, later), docs, id, later),
{
    let s1 = sync_spec(st, docs, policy, now);
    let s2 = after_take(s1, docs, now);
    let s3 = sync_spec(s2, docs, policy, later);
    assert(s2.pending.contains_key(id));
    if policy.mode != AutoSaveMode::Off {
        assert(s2.pending[id].revision == docs[id].revision && s2.pending[id].path == docs[id].path->0);
    }
    assert(s3.pending.contains_key(id) ==> s3.pending[id] == s2.pending[id]);
}

/// A lost focus is remembered for new edits: with a policy that saves on
/// focus loss, losing the focus makes a modified document's save due; once
/// that save was requested, a new edit while the window is still unfocused
/// makes a save due again, and once that one was requested nothing more is
/// due.
pub proof fn law_focus_loss_is_owed_again_after_a_new_edit(
    st: SchedulerView,
    docs: Map<u64, DocView>,
    policy: AutoSaveConfig,
    now: u64,
    id: u64,
    revision: u64,
)
    requires
        st.focused,
        st.composition != Some(id),
        policy.mode.on_focus_loss_spec(),
        docs.contains_key(id),
        docs[id].path is Some,
        docs[id].is_modified,
        docs[id].eligible,
        revision != docs[id].revision,
    ensures
        ({
            let edited = docs.insert(id, DocView { revision, ..docs[id] });
            let s1 = focus_spec(st, docs, policy, false, now);
            let s2 = after_take(sync_spec(s1, docs, policy, now), docs, now);
            let s3 = after_take(sync_spec(s2, edited, policy, now), edited, now);
            &&& fires(sync_spec(s1, docs, policy, now), docs, id, now)
            &&& fires(sync_spec(s2, edited, policy, now), edited, id, now)
            &&& !fires(sync_spec(s3, edited, policy, now), edited, id, now)
        }),
{
    let edited = docs.insert(id, DocView { revision, ..docs[id] });
    let s0 = sync_spec(st, docs, policy, now);
    let s1 = focus_spec(st, docs, policy, false, now);
    assert(s0.pending.contains_key(id));
    assert(s1.pending.contains_key(id) && s1.pending[id].focus_loss);
    let t1 = sync_spec(s1, docs, policy, now);
    assert(t1.pending[id] == s1.pending[id]);
    let s2 = after_take(t1, docs, now);
    let t2 = sync_spec(s2, edited, policy, now);
    assert(!s2.focused);
    assert(t2.pending.contains_key(id) && t2.pending[id].focus_loss);
    law_requested_saves_are_not_repeated(s2, edited, policy, now, id);
}

} // verus!
