//! The recency ring: snippets of the places recently edited or visited,
//! committed once the editor has been idle, and attached to inline
//! requests as extra context. Pending work is positions only; nothing is
//! read from disk. Times are milliseconds.

use vstd::prelude::*;

use crate::completion::{
    ChunkView, ContextChunk, ContextStrategy, InlineJob, ProviderConfig, ProviderView, chunks_view, opt_view,
};
use crate::paths::{path_starts_with, std_path_starts_with};
use crate::recency::{IndexedChunk, jaccard_similar, token_set};
use crate::recency_capture::{capture, capture_spec, line_range, line_range_spec, opt_str};
use crate::rope_text::{rope_len_lines, rope_line_starts};

verus! {

/// How long the editor must stay idle before pending places are captured.
pub const IDLE_MS: u64 = 750;

/// What the ring reads of one open document.
pub struct RingDocument {
    pub id: u64,
    pub revision: u64,
    /// The cursor line of an editor that shows the document as plain text,
    /// if one does.
    pub plain_editor_line: Option<usize>,
    pub file_path: Option<String>,
    /// The path with symlinks resolved, once known.
    pub identity_path: Option<String>,
    pub buffer: ropey::Rope,
}

/// The focused editor.
#[derive(Clone, Copy, Debug)]
pub struct FocusedEditor {
    pub document: u64,
    pub plain_text: bool,
    pub line: usize,
    pub column: usize,
}

/// What the ring reads of the editor: the inline-completion settings, the
/// workspace, the open documents (each id at most once) and the focus.
pub struct RingModel {
    pub completion_enabled: bool,
    pub inline_enabled: bool,
    pub provider_name: String,
    /// The configured inline provider, when the name resolves.
    pub provider: Option<ProviderConfig>,
    pub workspace_root: Option<String>,
    pub documents: Vec<RingDocument>,
    pub focused: Option<FocusedEditor>,
}

pub ghost struct RingDocView {
    pub id: u64,
    pub revision: u64,
    pub plain_editor_line: Option<usize>,
    pub file_path: Option<Seq<char>>,
    pub identity_path: Option<Seq<char>>,
    pub buffer: ropey::Rope,
}

impl View for RingDocument {
    type V = RingDocView;

    open spec fn view(&self) -> RingDocView {
        RingDocView {
            id: self.id,
            revision: self.revision,
            plain_editor_line: self.plain_editor_line,
            file_path: opt_view(self.file_path),
            identity_path: opt_view(self.identity_path),
            buffer: self.buffer,
        }
    }
}

pub ghost struct RingModelView {
    pub completion_enabled: bool,
    pub inline_enabled: bool,
    pub provider_name: Seq<char>,
    pub provider: Option<ProviderView>,
    pub root: Option<Seq<char>>,
    pub documents: Seq<RingDocView>,
    pub focused: Option<FocusedEditor>,
}

impl View for RingModel {
    type V = RingModelView;

    open spec fn view(&self) -> RingModelView {
        RingModelView {
            completion_enabled: self.completion_enabled,
            inline_enabled: self.inline_enabled,
            provider_name: self.provider_name@,
            provider: match self.provider {
                Some(p) => Some(p@),
                None => None,
            },
            root: opt_view(self.workspace_root),
            documents: self.documents@.map_values(|d: RingDocument| d@),
            focused: self.focused,
        }
    }
}

/// No document id occurs twice.
pub open spec fn distinct_documents(m: RingModelView) -> bool {
    forall|i: int, j: int|
        0 <= i < m.documents.len() && 0 <= j < m.documents.len() && i != j ==> m.documents[i].id
            != m.documents[j].id
}

/// The position of the open document `id`.
pub open spec fn find_document(m: RingModelView, id: u64) -> Option<int> {
    if exists|i: int| 0 <= i < m.documents.len() && m.documents[i].id == id {
        Some(choose|i: int| 0 <= i < m.documents.len() && m.documents[i].id == id)
    } else {
        None
    }
}

/// A document the ring may read: open in a plain-text editor and, inside a
/// workspace, proven (by its resolved path) to lie in it. An unresolved
/// path cannot prove that symlinks stay in scope.
pub open spec fn doc_eligible(m: RingModelView, d: RingDocView) -> bool {
    &&& d.plain_editor_line is Some
    &&& match m.root {
        Some(root) => d.file_path is Some ==> (d.identity_path is Some && std_path_starts_with(
            d.identity_path->0,
            root,
        )),
        None => true,
    }
}

/// The position of `id` when the ring may read it.
pub open spec fn eligible_document(m: RingModelView, id: u64) -> Option<int> {
    match find_document(m, id) {
        Some(i) => if doc_eligible(m, m.documents[i]) {
            Some(i)
        } else {
            None
        },
        None => None,
    }
}

/// The path a document's snippets are filed under.
pub open spec fn source_path(d: RingDocView) -> Option<Seq<char>> {
    match d.identity_path {
        Some(p) => Some(p),
        None => d.file_path,
    }
}

/// Where the cursor is, in a document the ring may read.
#[derive(Clone, Copy, PartialEq, Eq, Structural, Debug)]
pub struct Visit {
    pub document: u64,
    pub line: usize,
    pub column: usize,
    pub revision: u64,
}

/// A place to capture once the editor is idle.
#[derive(Clone, Copy, PartialEq, Eq, Structural, Debug)]
pub struct Anchor {
    pub document: u64,
    pub line: usize,
}

pub ghost struct ScopeView {
    pub provider_name: Seq<char>,
    pub provider: ProviderView,
    pub root: Option<Seq<char>>,
}

pub ghost struct StoredView {
    pub document: u64,
    pub start: usize,
    pub end: usize,
    pub path: Option<Seq<char>>,
    pub payload: ChunkView,
}

pub ghost struct RingView {
    pub scope: Option<ScopeView>,
    pub active: Option<Visit>,
    pub pending: Seq<Anchor>,
    pub chunks: Seq<StoredView>,
    pub deadline: Option<u64>,
}

pub open spec fn empty_ring() -> RingView {
    RingView { scope: None, active: None, pending: Seq::empty(), chunks: Seq::empty(), deadline: None }
}

/// The provider whose prompts carry recency context, if inline completion
/// is on and its provider asks for a recency ring.
pub open spec fn ring_provider(m: RingModelView) -> Option<ProviderView> {
    if m.completion_enabled && m.inline_enabled && m.provider is Some && m.provider->0.context is RecencyRing {
        m.provider
    } else {
        None
    }
}

/// The cursor's place, when the focused editor shows a readable document as
/// plain text.
pub open spec fn current_visit(m: RingModelView) -> Option<Visit> {
    match m.focused {
        Some(f) => if f.plain_text && eligible_document(m, f.document) is Some {
            Some(
                Visit {
                    document: f.document,
                    line: f.line,
                    column: f.column,
                    revision: m.documents[eligible_document(m, f.document)->0].revision,
                },
            )
        } else {
            None
        },
        None => None,
    }
}

/// Queue a place: an earlier entry for the same place moves to the back;
/// the oldest entries make room for it within `limit`.
pub open spec fn enqueue_spec(pending: Seq<Anchor>, document: u64, line: usize, limit: nat) -> Seq<Anchor> {
    let p = pending.filter(|a: Anchor| !(a.document == document && a.line == line));
    let q = if p.len() >= limit {
        p.skip(p.len() - limit + 1)
    } else {
        p
    };
    q.push(Anchor { document, line })
}

pub open spec fn abs_diff(a: usize, b: usize) -> int {
    if a >= b {
        a - b
    } else {
        b - a
    }
}

/// Moving the cursor from `from` to `to` queues the place left and the
/// place reached, unless they are the same place: same document, fewer than
/// `chunk_lines` lines apart.
pub open spec fn moved_away(from: Visit, to: Visit, chunk_lines: usize) -> bool {
    from.document != to.document || abs_diff(to.line, from.line) >= chunk_lines
}

/// The ring after the cursor moved to `current`.
pub open spec fn visit_spec(s: RingView, current: Option<Visit>, max_chunks: nat, chunk_lines: usize, now: u64) -> RingView {
    let p1 = match s.active {
        Some(prev) => if current is None || moved_away(prev, current->0, chunk_lines) {
            enqueue_spec(s.pending, prev.document, prev.line, max_chunks)
        } else {
            s.pending
        },
        None => s.pending,
    };
    let p2 = match current {
        Some(v) => if s.active is None || moved_away(s.active->0, v, chunk_lines) {
            enqueue_spec(p1, v.document, v.line, max_chunks)
        } else {
            p1
        },
        None => p1,
    };
    RingView {
        active: current,
        pending: p2,
        deadline: if p2.len() > 0 {
            Some((now + IDLE_MS) as u64)
        } else {
            s.deadline
        },
        ..s
    }
}

pub open spec fn anchor_eligible(m: RingModelView) -> spec_fn(Anchor) -> bool {
    |a: Anchor| eligible_document(m, a.document) is Some
}

/// A stored snippet still describes an open, readable document at the
/// same path.
pub open spec fn stored_current(m: RingModelView) -> spec_fn(StoredView) -> bool {
    |c: StoredView|
        eligible_document(m, c.document) is Some && source_path(m.documents[eligible_document(m, c.document)->0])
            == c.path
}

/// Snippets of other documents, or of lines outside `range`, survive a
/// capture of `range` in `document`: revisiting an overlapping region
/// replaces its snippet even after a rewrite.
pub open spec fn clear_of(document: u64, range: (int, int)) -> spec_fn(StoredView) -> bool {
    |c: StoredView| c.document != document || c.start >= range.1 || range.0 >= c.end
}

/// Snippets that are not near duplicates of `p` survive its commit.
pub open spec fn unlike(p: ChunkView) -> spec_fn(StoredView) -> bool {
    |c: StoredView| !jaccard_similar(token_set(c.payload.text), token_set(p.text), c.payload.text, p.text)
}

/// The oldest snippets make room for one more within `max`.
pub open spec fn make_room(c: Seq<StoredView>, max: nat) -> Seq<StoredView> {
    if c.len() >= max {
        c.skip(c.len() - max + 1)
    } else {
        c
    }
}

/// Capturing one queued place: a place in a document the ring may no
/// longer read is skipped; otherwise its region replaces overlapping
/// snippets of the document, and its snippet, when one can be taken,
/// replaces near duplicates and joins as the newest.
pub open spec fn commit_step(chunks: Seq<StoredView>, m: RingModelView, a: Anchor, max: nat, lines: usize) -> Seq<StoredView> {
    match eligible_document(m, a.document) {
        None => chunks,
        Some(i) => {
            let d = m.documents[i];
            let range = line_range_spec(rope_line_starts(d.buffer).len() as int, a.line as int, lines as int);
            let c1 = chunks.filter(clear_of(a.document, range));
            match capture_spec(source_path(d), m.root, a.document, d.buffer, a.line as int, lines as int) {
                None => c1,
                Some(p) => make_room(c1.filter(unlike(p)), max).push(
                    StoredView {
                        document: a.document,
                        start: range.0 as usize,
                        end: range.1 as usize,
                        path: source_path(d),
                        payload: p,
                    },
                ),
            }
        },
    }
}

/// Capturing the queued places in order.
pub open spec fn commit_all(chunks: Seq<StoredView>, m: RingModelView, anchors: Seq<Anchor>, max: nat, lines: usize) -> Seq<StoredView>
    decreases anchors.len(),
{
    if anchors.len() == 0 {
        chunks
    } else {
        commit_step(commit_all(chunks, m, anchors.drop_last(), max, lines), m, anchors.last(), max, lines)
    }
}

/// The ring serves this provider for this workspace.
pub open spec fn same_scope(scope: Option<ScopeView>, m: RingModelView, p: ProviderView) -> bool {
    scope matches Some(sc) && sc.provider_name == m.provider_name && sc.provider == p && sc.root == m.root
}

/// The ring after observing the editor at `now`: without a recency
/// provider it is empty; a new provider, endpoint or workspace starts it
/// afresh; snippets and places of documents it may no longer read are
/// dropped; a cursor move queues places and restarts the idle wait; once
/// the editor has been idle long enough the queued places are captured.
/// Nothing stays scheduled without queued places.
pub open spec fn observe_spec(s: RingView, m: RingModelView, now: u64) -> RingView {
    match ring_provider(m) {
        None => empty_ring(),
        Some(p) => {
            let s1 = if same_scope(s.scope, m, p) {
                s
            } else {
                RingView { scope: Some(ScopeView { provider_name: m.provider_name, provider: p, root: m.root }), ..empty_ring() }
            };
            let limits = p.context.limits_spec()->0;
            let max = limits.0 as nat;
            let lines = limits.1;
            let s2 = RingView {
                pending: s1.pending.filter(anchor_eligible(m)),
                chunks: s1.chunks.filter(stored_current(m)),
                ..s1
            };
            let cur = current_visit(m);
            let s3 = if cur != s2.active {
                visit_spec(s2, cur, max, lines, now)
            } else {
                s2
            };
            let s4 = if s3.deadline matches Some(d) && now >= d {
                RingView {
                    chunks: commit_all(s3.chunks, m, s3.pending, max, lines),
                    pending: Seq::empty(),
                    deadline: None,
                    ..s3
                }
            } else {
                s3
            };
            if s4.pending.len() == 0 {
                RingView { deadline: None, ..s4 }
            } else {
                s4
            }
        },
    }
}

/// The editor state the ring can work with: distinct document ids, and a
/// recency provider keeping at least one snippet.
pub open spec fn ring_inputs_ok(m: RingModelView) -> bool {
    &&& distinct_documents(m)
    &&& ring_provider(m) matches Some(p) ==> (p.context.limits_spec()->0).0 >= 1
}

/// The ring after a save of `document` was reported: a successful save
/// can belong to a background pane, so the document's place (the cursor of
/// an editor showing it) is queued and captured from the open buffer at
/// idle, never from the saved snapshot.
pub open spec fn saved_spec(s: RingView, m: RingModelView, document: u64, now: u64) -> RingView {
    let s1 = observe_spec(s, m, now);
    match s1.scope {
        None => s1,
        Some(sc) => match eligible_document(m, document) {
            Some(i) => RingView {
                pending: enqueue_spec(
                    s1.pending,
                    document,
                    m.documents[i].plain_editor_line->0,
                    (sc.provider.context.limits_spec()->0).0 as nat,
                ),
                deadline: Some((now + IDLE_MS) as u64),
                ..s1
            },
            None => s1,
        },
    }
}

/// The context an inline job carries: the committed snippets, oldest
/// first, when the ring serves the job's provider and may read the job's
/// document; otherwise none. Nothing else of the job changes.
pub open spec fn attached_context(s: RingView, m: RingModelView, job: crate::completion::JobView) -> Seq<ChunkView> {
    if s.scope matches Some(sc) && sc.provider == job.provider && eligible_document(m, job.request.snapshot.document_id)
        is Some {
        s.chunks.map_values(|c: StoredView| c.payload)
    } else {
        Seq::empty()
    }
}

struct Scope {
    provider_name: String,
    provider: ProviderConfig,
    root: Option<String>,
}

struct Stored {
    document: u64,
    start: usize,
    end: usize,
    path: Option<String>,
    chunk: IndexedChunk,
}

spec fn stored_view(s: Stored) -> StoredView {
    StoredView { document: s.document, start: s.start, end: s.end, path: opt_view(s.path), payload: s.chunk.payload_view() }
}

spec fn stored_views(s: Seq<Stored>) -> Seq<StoredView> {
    s.map_values(|x: Stored| stored_view(x))
}

/// Recently visited places and the snippets committed for them.
pub struct InlineContextRing {
    scope: Option<Scope>,
    active: Option<Visit>,
    pending: Vec<Anchor>,
    chunks: Vec<Stored>,
    deadline: Option<u64>,
}

impl View for InlineContextRing {
    type V = RingView;

    closed spec fn view(&self) -> RingView {
        RingView {
            scope: match self.scope {
                Some(s) => Some(ScopeView { provider_name: s.provider_name@, provider: s.provider@, root: opt_view(s.root) }),
                None => None,
            },
            active: self.active,
            pending: self.pending@,
            chunks: stored_views(self.chunks@),
            deadline: self.deadline,
        }
    }
}

fn find_document_exec(m: &RingModel, id: u64) -> (r: Option<usize>)
    requires
        distinct_documents(m@),
    ensures
        match r {
            Some(i) => find_document(m@, id) == Some(i as int) && i < m.documents@.len(),
            None => find_document(m@, id) is None,
        },
{
    let mut i: usize = 0;
    while i < m.documents.len()
        invariant
            0 <= i <= m.documents@.len(),
            distinct_documents(m@),
            forall|k: int| 0 <= k < i ==> m.documents@[k].id != id,
        decreases m.documents@.len() - i,
    {
        if m.documents[i].id == id {
            proof {
                assert(m@.documents[i as int] == m.documents@[i as int]@);
                assert(m@.documents[i as int].id == id);
                assert(exists|k: int| 0 <= k < m@.documents.len() && m@.documents[k].id == id);
                let k = choose|k: int| 0 <= k < m@.documents.len() && m@.documents[k].id == id;
                assert(k == i);
            }
            return Some(i);
        }
        i = i + 1;
    }
    proof {
        if exists|k: int| 0 <= k < m@.documents.len() && m@.documents[k].id == id {
            let k = choose|k: int| 0 <= k < m@.documents.len() && m@.documents[k].id == id;
            assert(m.documents@[k].id == id);
        }
    }
    None
}

/// The position of `id` when the ring may read it: open in a plain-text
/// editor and, inside a workspace, proven to lie in it.
pub fn eligible_index(m: &RingModel, id: u64) -> (r: Option<usize>)
    requires
        distinct_documents(m@),
    ensures
        match r {
            Some(i) => eligible_document(m@, id) == Some(i as int) && i < m.documents@.len(),
            None => eligible_document(m@, id) is None,
        },
{
    let i = match find_document_exec(m, id) {
        Some(i) => i,
        None => {
            return None;
        },
    };
    let d = &m.documents[i];
    proof {
        assert(m@.documents[i as int] == d@);
    }
    if d.plain_editor_line.is_none() {
        return None;
    }
    if let Some(root) = &m.workspace_root {
        if d.file_path.is_some() {
            match &d.identity_path {
                None => {
                    return None;
                },
                Some(p) => {
                    if !path_starts_with(p, root) {
                        return None;
                    }
                },
            }
        }
    }
    Some(i)
}

fn current_visit_exec(m: &RingModel) -> (r: Option<Visit>)
    requires
        distinct_documents(m@),
    ensures
        r == current_visit(m@),
{
    match m.focused {
        Some(f) => {
            if !f.plain_text {
                return None;
            }
            match eligible_index(m, f.document) {
                Some(i) => {
                    proof {
                        assert(m@.documents[i as int] == m.documents@[i as int]@);
                    }
                    Some(Visit { document: f.document, line: f.line, column: f.column, revision: m.documents[i].revision })
                },
                None => None,
            }
        },
        None => None,
    }
}

fn abs_diff_exec(a: usize, b: usize) -> (r: usize)
    ensures
        r == abs_diff(a, b),
{
    if a >= b {
        a - b
    } else {
        b - a
    }
}

/// Keep the anchors that `keep` keeps, in order.
fn retain_anchors(v: &Vec<Anchor>, Ghost(keep): Ghost<spec_fn(Anchor) -> bool>, m: &RingModel, document: u64, line: usize, by_place: bool) -> (r: Vec<Anchor>)
    requires
        distinct_documents(m@),
        by_place ==> keep == (|a: Anchor| !(a.document == document && a.line == line)),
        !by_place ==> keep == anchor_eligible(m@),
    ensures
        r@ == v@.filter(keep),
{
    let mut out: Vec<Anchor> = Vec::new();
    let mut i: usize = 0;
    proof {
        assert(v@.take(0).filter(keep) =~= Seq::<Anchor>::empty()) by {
            reveal(Seq::filter);
        }
    }
    while i < v.len()
        invariant
            0 <= i <= v@.len(),
            out@ == v@.take(i as int).filter(keep),
            distinct_documents(m@),
            by_place ==> keep == (|a: Anchor| !(a.document == document && a.line == line)),
            !by_place ==> keep == anchor_eligible(m@),
        decreases v@.len() - i,
    {
        let a = v[i];
        let k = if by_place {
            !(a.document == document && a.line == line)
        } else {
            eligible_index(m, a.document).is_some()
        };
        proof {
            assert(v@.take(i + 1) =~= v@.take(i as int).push(a));
            v@.take(i as int).lemma_filter_push(a, keep);
        }
        if k {
            out.push(a);
        }
        i = i + 1;
    }
    proof {
        assert(v@.take(v@.len() as int) =~= v@);
    }
    out
}

impl InlineContextRing {
    pub closed spec fn wf(&self) -> bool {
        forall|i: int| 0 <= i < self.chunks@.len() ==> (#[trigger] self.chunks@[i]).chunk.wf()
    }

    /// An empty ring, with no scope.
    pub fn new() -> (r: Self)
        ensures
            r.wf(),
            r@ == empty_ring(),
    {
        let r = InlineContextRing { scope: None, active: None, pending: Vec::new(), chunks: Vec::new(), deadline: None };
        assert(stored_views(r.chunks@) =~= Seq::<StoredView>::empty());
        r
    }

    /// When pending places are due for capture.
    pub fn deadline(&self) -> (r: Option<u64>)
        ensures
            r == self@.deadline,
    {
        self.deadline
    }

    /// The places waiting for capture, oldest first.
    pub fn pending(&self) -> (r: &Vec<Anchor>)
        ensures
            r@ == self@.pending,
    {
        &self.pending
    }

    /// How many snippets are committed.
    pub fn chunk_count(&self) -> (r: usize)
        ensures
            r == self@.chunks.len(),
    {
        self.chunks.len()
    }

    /// The committed snippet at `index` (oldest first), with the lines it
    /// covers and the document it came from.
    pub fn chunk_at(&self, index: usize) -> (r: (u64, usize, usize, &ContextChunk))
        requires
            index < self@.chunks.len(),
        ensures
            r.0 == self@.chunks[index as int].document,
            r.1 == self@.chunks[index as int].start,
            r.2 == self@.chunks[index as int].end,
            r.3@ == self@.chunks[index as int].payload,
    {
        let s = &self.chunks[index];
        (s.document, s.start, s.end, s.chunk.payload())
    }

    /// Whether the ring currently serves a provider.
    pub fn has_scope(&self) -> (r: bool)
        ensures
            r == self@.scope is Some,
    {
        self.scope.is_some()
    }

    /// Keep the snippets that `by` keeps, in order.
    fn retain_chunks(&mut self, Ghost(keep): Ghost<spec_fn(StoredView) -> bool>, by: ChunkFilter, m: &RingModel)
        requires
            old(self).wf(),
            distinct_documents(m@),
            chunk_rule(by, m@, keep),
        ensures
            final(self).wf(),
            final(self)@ == (RingView { chunks: old(self)@.chunks.filter(keep), ..old(self)@ }),
    {
        let ghost orig = self.chunks@;
        let ghost ov = stored_views(orig);
        let ghost s0 = self@;
        let mut rest: Vec<Stored> = Vec::new();
        std::mem::swap(&mut rest, &mut self.chunks);
        let n = rest.len();
        let mut i: usize = 0;
        proof {
            assert(ov.take(0).filter(keep) =~= Seq::<StoredView>::empty()) by {
                reveal(Seq::filter);
            }
            assert(stored_views(self.chunks@) =~= Seq::<StoredView>::empty());
        }
        while i < n
            invariant
                n == orig.len(),
                0 <= i <= n,
                rest@ == orig.subrange(i as int, n as int),
                ov == stored_views(orig),
                forall|k: int| 0 <= k < n ==> (#[trigger] orig[k]).chunk.wf(),
                forall|k: int| 0 <= k < self.chunks@.len() ==> (#[trigger] self.chunks@[k]).chunk.wf(),
                stored_views(self.chunks@) == ov.take(i as int).filter(keep),
                self@ == (RingView { chunks: self@.chunks, ..s0 }),
                ov == s0.chunks,
                distinct_documents(m@),
                chunk_rule(by, m@, keep),
            decreases n - i,
        {
            let st = rest.remove(0);
            proof {
                assert(st == orig[i as int]);
                assert(ov[i as int] == stored_view(st));
            }
            let kept = match by {
                ChunkFilter::ClearOf(document, start, end) => st.document != document || st.start >= end || start >= st.end,
                ChunkFilter::Unlike(other) => !st.chunk.similar(other),
                ChunkFilter::Current => match eligible_index(m, st.document) {
                    Some(j) => {
                        let d = &m.documents[j];
                        proof {
                            assert(m@.documents[j as int] == d@);
                        }
                        let src = match &d.identity_path {
                            Some(p) => Some(p),
                            None => d.file_path.as_ref(),
                        };
                        match (src, &st.path) {
                            (Some(a), Some(b)) => *a == *b,
                            (None, None) => true,
                            _ => false,
                        }
                    },
                    None => false,
                },
            };
            proof {
                assert(ov.take(i + 1) =~= ov.take(i as int).push(ov[i as int]));
                ov.take(i as int).lemma_filter_push(ov[i as int], keep);
                assert(kept == keep(ov[i as int]));
                assert(rest@ =~= orig.subrange(i + 1, n as int));
            }
            let ghost prev = self.chunks@;
            if kept {
                self.chunks.push(st);
                proof {
                    assert(stored_views(self.chunks@) =~= stored_views(prev).push(stored_view(st)));
                }
            }
            i = i + 1;
        }
        proof {
            assert(ov.take(n as int) =~= ov);
        }
    }

    /// Capture one queued place; see `commit_step`.
    fn commit_one(&mut self, m: &RingModel, a: Anchor, max: usize, lines: usize)
        requires
            old(self).wf(),
            distinct_documents(m@),
            max >= 1,
        ensures
            final(self).wf(),
            final(self)@ == (RingView { chunks: commit_step(old(self)@.chunks, m@, a, max as nat, lines), ..old(self)@ }),
    {
        let i = match eligible_index(m, a.document) {
            Some(i) => i,
            None => {
                return;
            },
        };
        let d = &m.documents[i];
        proof {
            assert(m@.documents[i as int] == d@);
        }
        let count = rope_len_lines(&d.buffer);
        let range = line_range(count, a.line, lines);
        let ghost clear = clear_of(a.document, (range.0 as int, range.1 as int));
        self.retain_chunks(Ghost(clear), ChunkFilter::ClearOf(a.document, range.0, range.1), m);
        let source = match &d.identity_path {
            Some(p) => Some(p),
            None => d.file_path.as_ref(),
        };
        let captured = capture(source, m.workspace_root.as_ref(), a.document, &d.buffer, a.line, lines);
        let payload = match captured {
            Some(c) => c,
            None => {
                return;
            },
        };
        let indexed = IndexedChunk::new(payload);
        let ghost p = indexed.payload_view();
        self.retain_chunks(Ghost(unlike(p)), ChunkFilter::Unlike(&indexed), m);
        let ghost before = stored_views(self.chunks@);
        if self.chunks.len() >= max {
            let drop = self.chunks.len() - max + 1;
            let mut k: usize = 0;
            while k < drop
                invariant
                    0 <= k <= drop,
                    drop <= before.len(),
                    stored_views(self.chunks@) == before.skip(k as int),
                    self.wf(),
                    self@ == (RingView { chunks: self@.chunks, ..old(self)@ }),
                decreases drop - k,
            {
                let ghost prev = self.chunks@;
                assert(stored_views(prev).len() == prev.len());
                assert(before.skip(k as int).len() > 0);
                let _ = self.chunks.remove(0);
                proof {
                    assert(stored_views(self.chunks@) =~= stored_views(prev).skip(1));
                    assert(before.skip(k as int).skip(1) =~= before.skip(k + 1));
                }
                k = k + 1;
            }
        }
        let path = match source {
            Some(p) => Some(p.clone()),
            None => None,
        };
        let ghost prev = self.chunks@;
        self.chunks.push(Stored { document: a.document, start: range.0, end: range.1, path, chunk: indexed });
        proof {
            assert(stored_views(self.chunks@) =~= stored_views(prev).push(stored_view(self.chunks@.last())));
        }
    }

    /// Capture every queued place, oldest first; the queue empties.
    fn commit(&mut self, m: &RingModel, max: usize, lines: usize)
        requires
            old(self).wf(),
            distinct_documents(m@),
            max >= 1,
        ensures
            final(self).wf(),
            final(self)@ == (RingView {
                chunks: commit_all(old(self)@.chunks, m@, old(self)@.pending, max as nat, lines),
                pending: Seq::empty(),
                ..old(self)@
            }),
    {
        let mut anchors: Vec<Anchor> = Vec::new();
        std::mem::swap(&mut anchors, &mut self.pending);
        let ghost c0 = old(self)@.chunks;
        let mut i: usize = 0;
        proof {
            assert(anchors@.take(0) =~= Seq::<Anchor>::empty());
        }
        while i < anchors.len()
            invariant
                0 <= i <= anchors@.len(),
                anchors@ == old(self)@.pending,
                self.wf(),
                distinct_documents(m@),
                max >= 1,
                self@ == (RingView {
                    chunks: commit_all(c0, m@, anchors@.take(i as int), max as nat, lines),
                    pending: Seq::empty(),
                    ..old(self)@
                }),
            decreases anchors@.len() - i,
        {
            let a = anchors[i];
            proof {
                assert(anchors@.take(i + 1).drop_last() =~= anchors@.take(i as int));
                assert(anchors@.take(i + 1).last() == a);
            }
            self.commit_one(m, a, max, lines);
            i = i + 1;
        }
        proof {
            assert(anchors@.take(anchors@.len() as int) =~= anchors@);
        }
    }

    /// Observe the editor (not syntax replies, redraws or cursor blinks);
    /// called before requests and after each batch of runtime events. See
    /// `observe_spec`.
    pub fn observe(&mut self, m: &RingModel, now: u64)
        requires
            old(self).wf(),
            ring_inputs_ok(m@),
            now + IDLE_MS <= u64::MAX,
        ensures
            final(self).wf(),
            final(self)@ == observe_spec(old(self)@, m@, now),
    {
        let provider = if m.completion_enabled && m.inline_enabled {
            match &m.provider {
                Some(p) => match p.context {
                    ContextStrategy::RecencyRing { .. } => Some(p),
                    _ => None,
                },
                None => None,
            }
        } else {
            None
        };
        let provider = match provider {
            Some(p) => p,
            None => {
                *self = InlineContextRing::new();
                return;
            },
        };
        let same = match &self.scope {
            Some(sc) => sc.provider_name == m.provider_name && sc.provider.same_as(provider) && crate::completion::opt_string_eq(&sc.root, &m.workspace_root),
            None => false,
        };
        if !same {
            *self = InlineContextRing::new();
            self.scope = Some(Scope {
                provider_name: m.provider_name.clone(),
                provider: provider.copy(),
                root: crate::completion::opt_string_copy(&m.workspace_root),
            });
        }
        let (max_chunks, chunk_lines) = match provider.context.limits() {
            Some(l) => l,
            None => {
                return;
            },
        };
        let ghost s1 = self@;
        let ghost keep_anchor = anchor_eligible(m@);
        self.pending = retain_anchors(&self.pending, Ghost(keep_anchor), m, 0, 0, false);
        self.retain_chunks(Ghost(stored_current(m@)), ChunkFilter::Current, m);
        let current = current_visit_exec(m);
        if current != self.active {
            if let Some(previous) = self.active {
                let leave = match current {
                    None => true,
                    Some(v) => v.document != previous.document || abs_diff_exec(v.line, previous.line) >= chunk_lines,
                };
                if leave {
                    self.enqueue(previous.document, previous.line, max_chunks);
                }
            }
            if let Some(v) = current {
                let arrive = match self.active {
                    None => true,
                    Some(previous) => previous.document != v.document || abs_diff_exec(v.line, previous.line) >= chunk_lines,
                };
                if arrive {
                    self.enqueue(v.document, v.line, max_chunks);
                }
            }
            self.active = current;
            if self.pending.len() > 0 {
                self.deadline = Some(now + IDLE_MS);
            }
        }
        let due = match self.deadline {
            Some(d) => now >= d,
            None => false,
        };
        if due {
            self.commit(m, max_chunks, chunk_lines);
            self.deadline = None;
        }
        if self.pending.len() == 0 {
            self.deadline = None;
        }
    }

    /// A save of `document` was reported; see `saved_spec`.
    pub fn saved(&mut self, m: &RingModel, document: u64, now: u64)
        requires
            old(self).wf(),
            ring_inputs_ok(m@),
            now + IDLE_MS <= u64::MAX,
        ensures
            final(self).wf(),
            final(self)@ == saved_spec(old(self)@, m@, document, now),
    {
        self.observe(m, now);
        let limit = match &self.scope {
            None => {
                return;
            },
            Some(sc) => match sc.provider.context.limits() {
                Some(l) => l.0,
                None => {
                    return;
                },
            },
        };
        proof {
            assert(ring_provider(m@) is Some);
        }
        if let Some(i) = eligible_index(m, document) {
            proof {
                assert(m@.documents[i as int] == m.documents@[i as int]@);
            }
            let line = match m.documents[i].plain_editor_line {
                Some(l) => l,
                None => {
                    return;
                },
            };
            self.enqueue(document, line, limit);
            self.deadline = Some(now + IDLE_MS);
        }
    }

    /// Attach the committed snippets to an inline job; see
    /// `attached_context`.
    pub fn attach(&mut self, m: &RingModel, job: &mut InlineJob, now: u64)
        requires
            old(self).wf(),
            ring_inputs_ok(m@),
            now + IDLE_MS <= u64::MAX,
        ensures
            final(self).wf(),
            final(self)@ == observe_spec(old(self)@, m@, now),
            final(job)@ == (crate::completion::JobView {
                request: crate::completion::RequestView {
                    extra_context: attached_context(final(self)@, m@, old(job)@),
                    ..old(job)@.request
                },
                ..old(job)@
            }),
    {
        self.observe(m, now);
        let mut extra: Vec<ContextChunk> = Vec::new();
        let serves = match &self.scope {
            Some(sc) => sc.provider.same_as(&job.provider),
            None => false,
        };
        if serves && eligible_index(m, job.request.snapshot.document_id).is_some() {
            let mut i: usize = 0;
            while i < self.chunks.len()
                invariant
                    0 <= i <= self.chunks@.len(),
                    chunks_view(extra@) == self@.chunks.map_values(|c: StoredView| c.payload).take(i as int),
                decreases self.chunks@.len() - i,
            {
                extra.push(self.chunks[i].chunk.payload().copy());
                proof {
                    let all = self@.chunks.map_values(|c: StoredView| c.payload);
                    assert(all[i as int] == stored_view(self.chunks@[i as int]).payload);
                    assert(all.take(i + 1) =~= all.take(i as int).push(all[i as int]));
                    assert(chunks_view(extra@) =~= all.take(i + 1));
                }
                i = i + 1;
            }
            proof {
                let all = self@.chunks.map_values(|c: StoredView| c.payload);
                assert(all.take(self.chunks@.len() as int) =~= all);
            }
        } else {
            proof {
                assert(chunks_view(extra@) =~= Seq::<ChunkView>::empty());
            }
        }
        job.request.extra_context = extra;
    }

    /// Queue a place for capture; see `enqueue_spec`.
    pub fn enqueue(&mut self, document: u64, line: usize, limit: usize)
        requires
            limit >= 1,
        ensures
            final(self)@ == (RingView { pending: enqueue_spec(old(self)@.pending, document, line, limit as nat), ..old(self)@ }),
            final(self).wf() == old(self).wf(),
    {
        let ghost keep = |a: Anchor| !(a.document == document && a.line == line);
        let dummy = RingModel {
            completion_enabled: false,
            inline_enabled: false,
            provider_name: String::new(),
            provider: None,
            workspace_root: None,
            documents: Vec::new(),
            focused: None,
        };
        let mut p = retain_anchors(&self.pending, Ghost(keep), &dummy, document, line, true);
        if p.len() >= limit {
            let drop = p.len() - limit + 1;
            let mut q: Vec<Anchor> = Vec::new();
            let mut i: usize = drop;
            while i < p.len()
                invariant
                    drop <= i <= p@.len(),
                    q@ == p@.subrange(drop as int, i as int),
                decreases p@.len() - i,
            {
                q.push(p[i]);
                proof {
                    assert(p@.subrange(drop as int, i + 1) =~= p@.subrange(drop as int, i as int).push(p@[i as int]));
                }
                i = i + 1;
            }
            proof {
                assert(q@ =~= p@.skip(drop as int));
            }
            p = q;
        }
        p.push(Anchor { document, line });
        self.pending = p;
    }
}

/// Which snippets a filtering pass keeps.
pub enum ChunkFilter<'a> {
    /// Those clear of lines `start..end` of a document.
    ClearOf(u64, usize, usize),
    /// Those that are not near duplicates of a new snippet.
    Unlike(&'a IndexedChunk),
    /// Those of open, readable documents at the same path.
    Current,
}

pub open spec fn chunk_rule(by: ChunkFilter, m: RingModelView, keep: spec_fn(StoredView) -> bool) -> bool {
    match by {
        ChunkFilter::ClearOf(document, start, end) => keep == clear_of(document, (start as int, end as int)),
        ChunkFilter::Unlike(other) => other.wf() && keep == unlike(other.payload_view()),
        ChunkFilter::Current => keep == stored_current(m),
    }
}


/// Without a recency provider (completion or inline completion off, or a
/// provider that wants other context) the ring holds nothing at all.
pub proof fn law_disabled_ring_is_empty(s: RingView, m: RingModelView, now: u64)
    requires
        ring_provider(m) is None,
    ensures
        observe_spec(s, m, now) == empty_ring(),
{
}

/// No idle deadline stays armed without places waiting for capture, so the
/// event loop never spins on an empty ring.
pub proof fn law_no_deadline_without_pending(s: RingView, m: RingModelView, now: u64)
    ensures
        observe_spec(s, m, now).pending.len() == 0 ==> observe_spec(s, m, now).deadline is None,
{
}

/// A new provider, endpoint or workspace cannot inherit old context: the
/// ring that starts afresh holds no snippet yet.
pub proof fn law_new_scope_starts_without_context(s: RingView, m: RingModelView, now: u64)
    requires
        ring_provider(m) matches Some(p) && !same_scope(s.scope, m, p),
        now + IDLE_MS <= u64::MAX,
    ensures
        observe_spec(s, m, now).chunks.len() == 0,
{
    let p = ring_provider(m)->0;
    let fresh = RingView { scope: Some(ScopeView { provider_name: m.provider_name, provider: p, root: m.root }), ..empty_ring() };
    assert(fresh.pending.filter(anchor_eligible(m)) =~= Seq::<Anchor>::empty()) by {
        reveal(Seq::filter);
    }
    assert(fresh.chunks.filter(stored_current(m)) =~= Seq::<StoredView>::empty()) by {
        reveal(Seq::filter);
    }
}

/// The queue of places never grows past its limit.
pub proof fn law_enqueue_respects_the_limit(pending: Seq<Anchor>, document: u64, line: usize, limit: nat)
    requires
        limit >= 1,
        pending.len() <= limit,
    ensures
        enqueue_spec(pending, document, line, limit).len() <= limit,
        enqueue_spec(pending, document, line, limit).last() == (Anchor { document, line }),
{
    let p = pending.filter(|a: Anchor| !(a.document == document && a.line == line));
    pending.lemma_filter_len(|a: Anchor| !(a.document == document && a.line == line));
}

/// Capturing a place keeps the ring within `max` snippets, and afterwards
/// no older snippet of the same document overlaps the captured lines: a
/// revisited region replaces its snapshot, even after a rewrite or a
/// deletion.
pub proof fn law_capture_replaces_overlaps_within_the_limit(
    chunks: Seq<StoredView>,
    m: RingModelView,
    a: Anchor,
    max: nat,
    lines: usize,
)
    requires
        max >= 1,
        chunks.len() <= max,
        eligible_document(m, a.document) is Some,
    ensures
        ({
            let d = m.documents[eligible_document(m, a.document)->0];
            let range = line_range_spec(rope_line_starts(d.buffer).len() as int, a.line as int, lines as int);
            let after = commit_step(chunks, m, a, max, lines);
            let captured = capture_spec(source_path(d), m.root, a.document, d.buffer, a.line as int, lines as int);
            &&& after.len() <= max
            &&& forall|k: int|
                0 <= k < after.len() && !(captured is Some && k == after.len() - 1) ==> #[trigger] clear_of(
                    a.document,
                    range,
                )(after[k])
        }),
{
    let d = m.documents[eligible_document(m, a.document)->0];
    let range = line_range_spec(rope_line_starts(d.buffer).len() as int, a.line as int, lines as int);
    let keep = clear_of(a.document, range);
    let c1 = chunks.filter(keep);
    chunks.lemma_filter_len(keep);
    assert forall|k: int| 0 <= k < c1.len() implies #[trigger] keep(c1[k]) by {
        chunks.lemma_filter_pred(keep, k);
    }
    match capture_spec(source_path(d), m.root, a.document, d.buffer, a.line as int, lines as int) {
        None => {},
        Some(p) => {
            let c2 = c1.filter(unlike(p));
            c1.lemma_filter_len(unlike(p));
            assert forall|k: int| 0 <= k < c2.len() implies #[trigger] keep(c2[k]) by {
                assert(c2.contains(c2[k]));
                c1.lemma_filter_contains_rev(unlike(p), c2[k]);
                assert(c1.contains(c2[k]));
                let j = choose|j: int| 0 <= j < c1.len() && c1[j] == c2[k];
            }
            let c3 = make_room(c2, max);
            assert forall|k: int| 0 <= k < c3.len() implies #[trigger] keep(c3[k]) by {
                if c2.len() >= max {
                    assert(c3[k] == c2[k + c2.len() - max + 1]);
                }
            }
            let after = c3.push(
                StoredView { document: a.document, start: range.0 as usize, end: range.1 as usize, path: source_path(d), payload: p },
            );
            assert forall|k: int| 0 <= k < after.len() - 1 implies #[trigger] keep(after[k]) by {
                assert(after[k] == c3[k]);
            }
        },
    }
}


/// Places are captured only once the editor has been idle. Queued places
/// whose document can no longer be captured (closed, or no longer shown as
/// plain text) are dropped first. Then, while the cursor stays where it was,
/// observing before the deadline adds no snippet and keeps the deadline (as
/// long as places are still queued), and observing at or after it captures
/// every queued place and clears the deadline; a cursor move instead
/// captures nothing and restarts the idle wait, `IDLE_MS` from the move,
/// whenever places are queued.
pub proof fn law_commits_only_after_idle(s: RingView, m: RingModelView, now: u64, dl: u64)
    requires
        ring_provider(m) matches Some(p) && same_scope(s.scope, m, p),
        s.deadline == Some(dl),
        now + IDLE_MS <= u64::MAX,
    ensures
        current_visit(m) == s.active && now < dl ==> {
            &&& observe_spec(s, m, now).chunks == s.chunks.filter(stored_current(m))
            &&& observe_spec(s, m, now).pending == s.pending.filter(anchor_eligible(m))
            &&& observe_spec(s, m, now).deadline == if s.pending.filter(anchor_eligible(m)).len() > 0 {
                Some(dl)
            } else {
                None
            }
        },
        current_visit(m) == s.active && now >= dl ==> {
            let limits = (ring_provider(m)->0).context.limits_spec()->0;
            &&& observe_spec(s, m, now).chunks == commit_all(
                s.chunks.filter(stored_current(m)),
                m,
                s.pending.filter(anchor_eligible(m)),
                limits.0 as nat,
                limits.1,
            )
            &&& observe_spec(s, m, now).pending.len() == 0
            &&& observe_spec(s, m, now).deadline is None
        },
        current_visit(m) is Some && current_visit(m) != s.active ==> {
            &&& observe_spec(s, m, now).chunks == s.chunks.filter(stored_current(m))
            &&& observe_spec(s, m, now).pending.len() > 0 ==> observe_spec(s, m, now).deadline == Some(
                (now + IDLE_MS) as u64,
            )
        },
{
    let p = ring_provider(m)->0;
    let limits = p.context.limits_spec()->0;
    let cur = current_visit(m);
    let s2 = RingView { pending: s.pending.filter(anchor_eligible(m)), chunks: s.chunks.filter(stored_current(m)), ..s };
    if cur is Some && cur != s.active {
        let s3 = visit_spec(s2, cur, limits.0 as nat, limits.1, now);
        if s3.pending.len() == 0 && now >= dl {
            assert(commit_all(s3.chunks, m, s3.pending, limits.0 as nat, limits.1) == s3.chunks);
        }
    }
}


/// Two stored snippets clash when they cover overlapping lines of one
/// document, or when they are near duplicates.
pub open spec fn clash(a: StoredView, b: StoredView) -> bool {
    ||| (a.document == b.document && a.start < b.end && b.start < a.end)
    ||| jaccard_similar(token_set(a.payload.text), token_set(b.payload.text), a.payload.text, b.payload.text)
}

/// No older snippet clashes with a newer one.
pub open spec fn chunks_apart(c: Seq<StoredView>) -> bool {
    forall|i: int, j: int| 0 <= i < j < c.len() ==> !clash(#[trigger] c[i], #[trigger] c[j])
}

/// What the ring keeps true between observations, for a provider keeping
/// `max` snippets: at most `max` snippets and `max` queued places, no two
/// snippets clashing, and no deadline without queued places.
pub open spec fn ring_invariant(s: RingView, max: nat) -> bool {
    &&& s.chunks.len() <= max
    &&& s.pending.len() <= max
    &&& chunks_apart(s.chunks)
    &&& s.pending.len() == 0 ==> s.deadline is None
}

proof fn lemma_filter_apart(c: Seq<StoredView>, f: spec_fn(StoredView) -> bool)
    requires
        chunks_apart(c),
    ensures
        chunks_apart(c.filter(f)),
        c.filter(f).len() <= c.len(),
        forall|x: StoredView| #[trigger] c.filter(f).contains(x) ==> c.contains(x) && f(x),
    decreases c.len(),
{
    reveal(Seq::filter);
    if c.len() > 0 {
        let init = c.drop_last();
        assert(chunks_apart(init)) by {
            assert forall|i: int, j: int| 0 <= i < j < init.len() implies !clash(#[trigger] init[i], #[trigger] init[j]) by {
                assert(init[i] == c[i] && init[j] == c[j]);
            }
        }
        lemma_filter_apart(init, f);
        let r = init.filter(f);
        let last = c[c.len() - 1];
        assert(c.filter(f) == if f(last) { r.push(last) } else { r });
        if f(last) {
            let n = r.push(last);
            assert forall|i: int, j: int| 0 <= i < j < n.len() implies !clash(#[trigger] n[i], #[trigger] n[j]) by {
                if j == r.len() {
                    assert(r[i] == n[i]);
                    assert(r.contains(n[i]));
                    assert(init.contains(n[i]));
                    let k = choose|k: int| 0 <= k < init.len() && init[k] == n[i];
                    assert(init[k] == c[k]);
                    assert(!clash(c[k], c[c.len() - 1]));
                } else {
                    assert(n[i] == r[i] && n[j] == r[j]);
                }
            }
            assert forall|x: StoredView| #[trigger] n.contains(x) implies c.contains(x) && f(x) by {
                let k = choose|k: int| 0 <= k < n.len() && n[k] == x;
                if k < r.len() {
                    assert(r[k] == x);
                    assert(r.contains(x));
                    assert(init.contains(x));
                    let k2 = choose|k2: int| 0 <= k2 < init.len() && init[k2] == x;
                    assert(init[k2] == c[k2]);
                } else {
                    assert(c[c.len() - 1] == x);
                }
            }
        } else {
            assert forall|x: StoredView| #[trigger] r.contains(x) implies c.contains(x) && f(x) by {
                assert(init.contains(x));
                let k2 = choose|k2: int| 0 <= k2 < init.len() && init[k2] == x;
                assert(init[k2] == c[k2]);
            }
        }
    }
}

proof fn lemma_make_room_apart(c: Seq<StoredView>, max: nat)
    requires
        chunks_apart(c),
        max >= 1,
    ensures
        chunks_apart(make_room(c, max)),
        make_room(c, max).len() < max,
        forall|x: StoredView| make_room(c, max).contains(x) ==> c.contains(x),
{
    if c.len() >= max {
        let n = (c.len() - max + 1) as int;
        let r = c.skip(n);
        assert forall|i: int, j: int| 0 <= i < j < r.len() implies !clash(#[trigger] r[i], #[trigger] r[j]) by {
            assert(r[i] == c[i + n] && r[j] == c[j + n]);
        }
        assert forall|x: StoredView| r.contains(x) implies c.contains(x) by {
            let k = choose|k: int| 0 <= k < r.len() && r[k] == x;
            assert(c[k + n] == x);
        }
    }
}

proof fn lemma_commit_step_keeps(chunks: Seq<StoredView>, m: RingModelView, a: Anchor, max: nat, lines: usize)
    requires
        chunks_apart(chunks),
        chunks.len() <= max,
        max >= 1,
    ensures
        chunks_apart(commit_step(chunks, m, a, max, lines)),
        commit_step(chunks, m, a, max, lines).len() <= max,
{
    match eligible_document(m, a.document) {
        None => {},
        Some(i) => {
            let d = m.documents[i];
            let count = rope_line_starts(d.buffer).len() as int;
            let range = line_range_spec(count, a.line as int, lines as int);
            let c1 = chunks.filter(clear_of(a.document, range));
            lemma_filter_apart(chunks, clear_of(a.document, range));
            match capture_spec(source_path(d), m.root, a.document, d.buffer, a.line as int, lines as int) {
                None => {},
                Some(p) => {
                    let c2 = c1.filter(unlike(p));
                    lemma_filter_apart(c1, unlike(p));
                    lemma_make_room_apart(c2, max);
                    let c3 = make_room(c2, max);
                    let e = StoredView {
                        document: a.document,
                        start: range.0 as usize,
                        end: range.1 as usize,
                        path: source_path(d),
                        payload: p,
                    };
                    assert(0 <= range.0 <= range.1 <= count);
                    let n = c3.push(e);
                    assert forall|x: int, y: int| 0 <= x < y < n.len() implies !clash(#[trigger] n[x], #[trigger] n[y]) by {
                        if y == c3.len() {
                            assert(c3.contains(n[x]));
                            assert(c2.contains(n[x]));
                            assert(c1.contains(n[x]));
                        } else {
                            assert(n[x] == c3[x] && n[y] == c3[y]);
                        }
                    }
                }
            }
        }
    }
}

proof fn lemma_commit_all_keeps(chunks: Seq<StoredView>, m: RingModelView, anchors: Seq<Anchor>, max: nat, lines: usize)
    requires
        chunks_apart(chunks),
        chunks.len() <= max,
        max >= 1,
    ensures
        chunks_apart(commit_all(chunks, m, anchors, max, lines)),
        commit_all(chunks, m, anchors, max, lines).len() <= max,
    decreases anchors.len(),
{
    if anchors.len() > 0 {
        lemma_commit_all_keeps(chunks, m, anchors.drop_last(), max, lines);
        lemma_commit_step_keeps(commit_all(chunks, m, anchors.drop_last(), max, lines), m, anchors.last(), max, lines);
    }
}

/// Observing keeps the ring's invariant: at most `max` snippets and `max`
/// queued places, no snippet overlapping an older one of the same document
/// or nearly duplicating it, and no deadline without queued places. (A ring
/// that starts afresh, for a new provider or workspace, starts within it.)
pub proof fn law_observe_keeps_the_ring_invariant(s: RingView, m: RingModelView, now: u64)
    requires
        ring_provider(m) matches Some(p) && (p.context.limits_spec()->0).0 >= 1 && (same_scope(s.scope, m, p)
            ==> ring_invariant(s, (p.context.limits_spec()->0).0 as nat)),
        now + IDLE_MS <= u64::MAX,
    ensures
        ring_invariant(observe_spec(s, m, now), ((ring_provider(m)->0).context.limits_spec()->0).0 as nat),
{
    let p = ring_provider(m)->0;
    let limits = p.context.limits_spec()->0;
    let max = limits.0 as nat;
    let lines = limits.1;
    let s1 = if same_scope(s.scope, m, p) {
        s
    } else {
        RingView { scope: Some(ScopeView { provider_name: m.provider_name, provider: p, root: m.root }), ..empty_ring() }
    };
    assert(chunks_apart(s1.chunks));
    assert(s1.chunks.len() <= max && s1.pending.len() <= max);
    let s2 = RingView { pending: s1.pending.filter(anchor_eligible(m)), chunks: s1.chunks.filter(stored_current(m)), ..s1 };
    lemma_filter_apart(s1.chunks, stored_current(m));
    s1.pending.lemma_filter_len(anchor_eligible(m));
    let cur = current_visit(m);
    let s3 = if cur != s2.active {
        visit_spec(s2, cur, max, lines, now)
    } else {
        s2
    };
    if cur != s2.active {
        let p1 = match s2.active {
            Some(prev) => if cur is None || moved_away(prev, cur->0, lines) {
                enqueue_spec(s2.pending, prev.document, prev.line, max)
            } else {
                s2.pending
            },
            None => s2.pending,
        };
        if let Some(prev) = s2.active {
            law_enqueue_respects_the_limit(s2.pending, prev.document, prev.line, max);
        }
        assert(p1.len() <= max);
        if let Some(v) = cur {
            law_enqueue_respects_the_limit(p1, v.document, v.line, max);
        }
    }
    assert(s3.pending.len() <= max);
    assert(s3.chunks == s2.chunks);
    if s3.deadline matches Some(d) && now >= d {
        lemma_commit_all_keeps(s3.chunks, m, s3.pending, max, lines);
    }
}

} // verus!
