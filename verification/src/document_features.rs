//! Background document-feature requests (inlay hints, code lenses, ...) in
//! flight, filed by request key and tied to the process generation that was
//! asked, since a replacement process can reuse the same request id.

use vstd::prelude::*;
use crate::lsp_supervisor::LspSupervisor;

verus! {

/// How long a background feature request may stay unanswered.
pub const DOCUMENT_FEATURE_TIMEOUT_MS: u64 = 10_000;

/// `(server id, root, request id)`, by value.
pub type RequestKeyView = (Seq<char>, Seq<char>, u64);

/// The key of one request to one server process.
#[derive(Clone, Debug)]
pub struct RequestKey {
    pub server_id: String,
    pub root: String,
    pub request_id: u64,
}

impl View for RequestKey {
    type V = RequestKeyView;

    open spec fn view(&self) -> RequestKeyView {
        (self.server_id@, self.root@, self.request_id)
    }
}

pub open spec fn request_keys_view(s: Seq<RequestKey>) -> Seq<RequestKeyView> {
    s.map_values(|k: RequestKey| k@)
}

/// A request in flight: for which document revision, to which process
/// generation, until when (milliseconds), and what the caller needs to
/// interpret the answer.
#[derive(Clone, Copy, Debug)]
pub struct PendingFeature<T> {
    pub document_id: u64,
    pub revision: u64,
    pub generation: u64,
    pub deadline: u64,
    pub payload: T,
}

struct Row<T> {
    key: RequestKey,
    pending: PendingFeature<T>,
}

spec fn distinct_rows<T>(s: Seq<Row<T>>) -> bool {
    forall|i: int, j: int| 0 <= i < s.len() && 0 <= j < s.len() && i != j ==> s[i].key@ != s[j].key@
}

spec fn rows_map<T>(s: Seq<Row<T>>) -> Map<RequestKeyView, PendingFeature<T>> {
    Map::new(
        |k: RequestKeyView| exists|i: int| 0 <= i < s.len() && s[i].key@ == k,
        |k: RequestKeyView| s[choose|i: int| 0 <= i < s.len() && s[i].key@ == k].pending,
    )
}

proof fn lemma_rows_at<T>(s: Seq<Row<T>>, i: int)
    requires
        distinct_rows(s),
        0 <= i < s.len(),
    ensures
        rows_map(s).contains_key(s[i].key@),
        rows_map(s)[s[i].key@] == s[i].pending,
{
    let k = s[i].key@;
    assert(exists|j: int| 0 <= j < s.len() && s[j].key@ == k);
    let j = choose|j: int| 0 <= j < s.len() && s[j].key@ == k;
    assert(j == i);
}

proof fn lemma_rows_push<T>(s: Seq<Row<T>>, r: Row<T>)
    requires
        distinct_rows(s),
        !rows_map(s).contains_key(r.key@),
    ensures
        distinct_rows(s.push(r)),
        rows_map(s.push(r)) == rows_map(s).insert(r.key@, r.pending),
{
    let n = s.push(r);
    assert forall|a: int, b: int| 0 <= a < n.len() && 0 <= b < n.len() && a != b implies n[a].key@ != n[b].key@ by {
        if a < s.len() && b < s.len() {
            assert(n[a] == s[a] && n[b] == s[b]);
        } else if a < s.len() {
            assert(n[a] == s[a]);
            assert(rows_map(s).contains_key(s[a].key@));
        } else {
            assert(n[b] == s[b]);
            assert(rows_map(s).contains_key(s[b].key@));
        }
    }
    let want = rows_map(s).insert(r.key@, r.pending);
    assert forall|k: RequestKeyView| rows_map(n).contains_key(k) <==> want.contains_key(k) by {
        if rows_map(n).contains_key(k) {
            let i = choose|i: int| 0 <= i < n.len() && n[i].key@ == k;
            if i < s.len() {
                assert(n[i] == s[i]);
            }
        }
        if rows_map(s).contains_key(k) {
            let i = choose|i: int| 0 <= i < s.len() && s[i].key@ == k;
            assert(n[i] == s[i]);
        }
        if k == r.key@ {
            assert(n[s.len() as int] == r);
        }
    }
    assert forall|k: RequestKeyView| #[trigger] rows_map(n).contains_key(k) implies rows_map(n)[k] == want[k] by {
        let i = choose|i: int| 0 <= i < n.len() && n[i].key@ == k;
        lemma_rows_at(n, i);
        if i < s.len() {
            assert(n[i] == s[i]);
            lemma_rows_at(s, i);
        }
    }
    assert(rows_map(n) =~= want);
}

/// The requests of `m` that `keep` keeps.
pub open spec fn kept<T>(
    m: Map<RequestKeyView, PendingFeature<T>>,
    keep: spec_fn(RequestKeyView, PendingFeature<T>) -> bool,
) -> Map<RequestKeyView, PendingFeature<T>> {
    Map::new(|k: RequestKeyView| m.contains_key(k) && keep(k, m[k]), |k: RequestKeyView| m[k])
}

proof fn lemma_retain_step<T>(
    s: Seq<Row<T>>,
    i: int,
    out: Seq<Row<T>>,
    keep: spec_fn(RequestKeyView, PendingFeature<T>) -> bool,
)
    requires
        distinct_rows(s),
        0 <= i < s.len(),
        distinct_rows(out),
        rows_map(out) == kept(rows_map(s.take(i)), keep),
    ensures
        keep(s[i].key@, s[i].pending) ==> distinct_rows(out.push(s[i])) && rows_map(out.push(s[i])) == kept(
            rows_map(s.take(i + 1)),
            keep,
        ),
        !keep(s[i].key@, s[i].pending) ==> rows_map(out) == kept(rows_map(s.take(i + 1)), keep),
{
    let p = s.take(i);
    let q = s.take(i + 1);
    assert(q =~= p.push(s[i]));
    assert(distinct_rows(p)) by {
        assert forall|a: int, b: int| 0 <= a < p.len() && 0 <= b < p.len() && a != b implies p[a].key@ != p[b].key@ by {
            assert(p[a] == s[a] && p[b] == s[b]);
        }
    }
    assert(!rows_map(p).contains_key(s[i].key@)) by {
        if rows_map(p).contains_key(s[i].key@) {
            let j = choose|j: int| 0 <= j < p.len() && p[j].key@ == s[i].key@;
            assert(p[j] == s[j]);
        }
    }
    lemma_rows_push(p, s[i]);
    if keep(s[i].key@, s[i].pending) {
        assert(!rows_map(out).contains_key(s[i].key@));
        lemma_rows_push(out, s[i]);
        assert(rows_map(out.push(s[i])) =~= kept(rows_map(q), keep));
    } else {
        assert(rows_map(out) =~= kept(rows_map(q), keep));
    }
}

/// The process that was asked still runs under that key.
pub open spec fn same_process(servers: Map<(Seq<char>, Seq<char>), u64>, k: RequestKeyView, generation: u64) -> bool {
    servers.contains_key((k.0, k.1)) && servers[(k.0, k.1)] == generation
}

/// The keys listed, each once, are exactly the keys of `m` that `pick` picks.
pub open spec fn lists_requests<T>(
    r: Seq<RequestKey>,
    m: Map<RequestKeyView, PendingFeature<T>>,
    pick: spec_fn(RequestKeyView, PendingFeature<T>) -> bool,
) -> bool {
    &&& request_keys_view(r).no_duplicates()
    &&& forall|k: RequestKeyView| request_keys_view(r).contains(k) <==> (m.contains_key(k) && pick(k, m[k]))
}

/// What became of a response.
pub enum FeatureResponse<T> {
    /// No request is filed under its key.
    Unknown,
    /// It is dropped: answered by an older process, abandoned, late, or its
    /// process is gone.
    Dropped,
    /// It answers this request, which it completes.
    Resolved(PendingFeature<T>),
}

/// The background feature requests in flight.
pub struct DocumentFeatures<T> {
    rows: Vec<Row<T>>,
}

impl<T> View for DocumentFeatures<T> {
    type V = Map<RequestKeyView, PendingFeature<T>>;

    closed spec fn view(&self) -> Map<RequestKeyView, PendingFeature<T>> {
        rows_map(self.rows@)
    }
}

impl<T: Copy> DocumentFeatures<T> {
    pub closed spec fn wf(&self) -> bool {
        distinct_rows(self.rows@)
    }

    pub fn new() -> (r: Self)
        ensures
            r.wf(),
            r@ == Map::<RequestKeyView, PendingFeature<T>>::empty(),
    {
        let r = DocumentFeatures { rows: Vec::new() };
        assert(rows_map(r.rows@) =~= Map::<RequestKeyView, PendingFeature<T>>::empty());
        r
    }

    pub fn is_empty(&self) -> (r: bool)
        requires
            self.wf(),
        ensures
            r == (self@ == Map::<RequestKeyView, PendingFeature<T>>::empty()),
    {
        if self.rows.len() == 0 {
            assert(rows_map(self.rows@) =~= Map::<RequestKeyView, PendingFeature<T>>::empty());
            true
        } else {
            proof {
                lemma_rows_at(self.rows@, 0);
                assert(!Map::<RequestKeyView, PendingFeature<T>>::empty().contains_key(self.rows@[0].key@));
            }
            false
        }
    }

    fn position(&self, key: &RequestKey) -> (r: Option<usize>)
        requires
            self.wf(),
        ensures
            match r {
                Some(i) => i < self.rows@.len() && self.rows@[i as int].key@ == key@,
                None => !self@.contains_key(key@),
            },
    {
        let mut i: usize = 0;
        while i < self.rows.len()
            invariant
                0 <= i <= self.rows@.len(),
                forall|k: int| 0 <= k < i ==> self.rows@[k].key@ != key@,
            decreases self.rows@.len() - i,
        {
            let row = &self.rows[i];
            if row.key.request_id == key.request_id && row.key.server_id == key.server_id && row.key.root == key.root {
                return Some(i);
            }
            i = i + 1;
        }
        proof {
            if self@.contains_key(key@) {
                let k = choose|k: int| 0 <= k < self.rows@.len() && self.rows@[k].key@ == key@;
            }
        }
        None
    }

    pub fn get(&self, key: &RequestKey) -> (r: Option<PendingFeature<T>>)
        requires
            self.wf(),
        ensures
            r == (if self@.contains_key(key@) {
                Some(self@[key@])
            } else {
                None
            }),
    {
        match self.position(key) {
            Some(i) => {
                proof {
                    lemma_rows_at(self.rows@, i as int);
                }
                Some(self.rows[i].pending)
            },
            None => None,
        }
    }

    /// File a request, replacing any filed under the same key.
    pub fn insert(&mut self, key: RequestKey, pending: PendingFeature<T>)
        requires
            old(self).wf(),
        ensures
            final(self).wf(),
            final(self)@ == old(self)@.insert(key@, pending),
    {
        let ghost k = key@;
        let _ = self.remove(&key);
        proof {
            assert(!self@.contains_key(k));
            lemma_rows_push(self.rows@, Row { key, pending });
        }
        self.rows.push(Row { key, pending });
        proof {
            assert(self@ =~= old(self)@.insert(k, pending));
        }
    }

    /// Remove a request, giving it back.
    pub fn remove(&mut self, key: &RequestKey) -> (r: Option<PendingFeature<T>>)
        requires
            old(self).wf(),
        ensures
            final(self).wf(),
            final(self)@ == old(self)@.remove(key@),
            r == (if old(self)@.contains_key(key@) {
                Some(old(self)@[key@])
            } else {
                None
            }),
    {
        let r = self.get(key);
        let ghost k = key@;
        let ghost keep = |x: RequestKeyView, p: PendingFeature<T>| x != key@;
        let _ = self.retain(Ghost(keep), Ghost(Map::empty()), RetainBy::Key(key), None);
        proof {
            assert(self@ =~= old(self)@.remove(k));
        }
        r
    }

    /// File a request just sent for a document revision to the process of
    /// `generation`; it expires `DOCUMENT_FEATURE_TIMEOUT_MS` from `now`.
    pub fn file_request(&mut self, key: RequestKey, document_id: u64, revision: u64, generation: u64, payload: T, now: u64)
        requires
            old(self).wf(),
            now + DOCUMENT_FEATURE_TIMEOUT_MS <= u64::MAX,
        ensures
            final(self).wf(),
            final(self)@ == old(self)@.insert(
                key@,
                PendingFeature { document_id, revision, generation, deadline: (now + DOCUMENT_FEATURE_TIMEOUT_MS) as u64, payload },
            ),
    {
        let pending = PendingFeature { document_id, revision, generation, deadline: now + DOCUMENT_FEATURE_TIMEOUT_MS, payload };
        self.insert(key, pending);
    }

    /// Forget every request of a document. Gives back the keys whose
    /// process is still the one that was asked, for the caller to cancel;
    /// a replacement process may have reused an old request id, and must
    /// not see it cancelled.
    pub fn cancel_document(&mut self, document_id: u64, sup: &LspSupervisor) -> (r: Vec<RequestKey>)
        requires
            old(self).wf(),
            sup.wf(),
        ensures
            final(self).wf(),
            final(self)@ == kept(old(self)@, |x: RequestKeyView, p: PendingFeature<T>| p.document_id != document_id),
            lists_requests(
                r@,
                old(self)@,
                |x: RequestKeyView, p: PendingFeature<T>| p.document_id == document_id && same_process(
                    sup@.servers,
                    x,
                    p.generation,
                ),
            ),
    {
        let ghost keep = |x: RequestKeyView, p: PendingFeature<T>| p.document_id != document_id;
        let r = self.retain(Ghost(keep), Ghost(sup@.servers), RetainBy::Document(document_id), Some(sup));
        proof {
            assert forall|k: RequestKeyView| request_keys_view(r@).contains(k) <==> (old(self)@.contains_key(k)
                && (old(self)@[k].document_id == document_id && same_process(sup@.servers, k, old(self)@[k].generation))) by {}
        }
        r
    }

    /// Drop the requests past their deadline and those whose process is
    /// gone or was replaced. Gives back the keys of the expired ones whose
    /// process still runs, for the caller to cancel.
    pub fn sweep(&mut self, now: u64, sup: &LspSupervisor) -> (r: Vec<RequestKey>)
        requires
            old(self).wf(),
            sup.wf(),
        ensures
            final(self).wf(),
            final(self)@ == kept(
                old(self)@,
                |x: RequestKeyView, p: PendingFeature<T>| p.deadline > now && same_process(sup@.servers, x, p.generation),
            ),
            lists_requests(
                r@,
                old(self)@,
                |x: RequestKeyView, p: PendingFeature<T>| p.deadline <= now && same_process(sup@.servers, x, p.generation),
            ),
    {
        let ghost keep = |x: RequestKeyView, p: PendingFeature<T>| p.deadline > now && same_process(sup@.servers, x, p.generation);
        let r = self.retain(Ghost(keep), Ghost(sup@.servers), RetainBy::Live(now), Some(sup));
        proof {
            assert forall|k: RequestKeyView| request_keys_view(r@).contains(k) <==> (old(self)@.contains_key(k)
                && (old(self)@[k].deadline <= now && same_process(sup@.servers, k, old(self)@[k].generation))) by {}
        }
        r
    }

    /// The earliest deadline of a request in flight.
    pub fn earliest_deadline(&self) -> (r: Option<u64>)
        requires
            self.wf(),
        ensures
            r is None ==> forall|k: RequestKeyView| !self@.contains_key(k),
            r matches Some(d) ==> {
                &&& exists|k: RequestKeyView| self@.contains_key(k) && self@[k].deadline == d
                &&& forall|k: RequestKeyView| self@.contains_key(k) ==> d <= #[trigger] self@[k].deadline
            },
    {
        let ghost s = self.rows@;
        let mut best: Option<u64> = None;
        let mut i: usize = 0;
        while i < self.rows.len()
            invariant
                s == self.rows@,
                0 <= i <= s.len(),
                match best {
                    None => i == 0,
                    Some(d) => {
                        &&& exists|j: int| 0 <= j < i && s[j].pending.deadline == d
                        &&& forall|j: int| 0 <= j < i ==> d <= #[trigger] s[j].pending.deadline
                    },
                },
            decreases s.len() - i,
        {
            let d = self.rows[i].pending.deadline;
            best = match best {
                None => Some(d),
                Some(b) => if d < b {
                    Some(d)
                } else {
                    Some(b)
                },
            };
            i = i + 1;
        }
        proof {
            match best {
                None => {
                    assert(s.len() == 0);
                    assert forall|k: RequestKeyView| !self@.dom().contains(k) by {
                        if rows_map(s).contains_key(k) {
                            let j = choose|j: int| 0 <= j < s.len() && s[j].key@ == k;
                        }
                    }
                    assert(self@.dom() =~= Set::<RequestKeyView>::empty());
                },
                Some(d) => {
                    let j = choose|j: int| 0 <= j < i && s[j].pending.deadline == d;
                    lemma_rows_at(s, j);
                    assert(self@.contains_key(s[j].key@) && self@[s[j].key@].deadline == d);
                    assert forall|k: RequestKeyView| self@.contains_key(k) implies d <= #[trigger] self@[k].deadline by {
                        let j2 = choose|j2: int| 0 <= j2 < s.len() && s[j2].key@ == k;
                        lemma_rows_at(s, j2);
                    }
                },
            }
        }
        best
    }

    /// A response arrived for `key` from the process of `generation`.
    /// A response from an older process leaves a newer request under the
    /// same key alone. Otherwise the request is complete, and the response
    /// counts only when it was not abandoned, arrived in time, and its
    /// process still runs.
    pub fn take_response(&mut self, key: &RequestKey, generation: u64, abandoned: bool, now: u64, sup: &LspSupervisor) -> (r: FeatureResponse<T>)
        requires
            old(self).wf(),
            sup.wf(),
        ensures
            final(self).wf(),
            !old(self)@.contains_key(key@) ==> r is Unknown && final(self)@ == old(self)@,
            old(self)@.contains_key(key@) && old(self)@[key@].generation != generation ==> r is Dropped && final(self)@
                == old(self)@,
            old(self)@.contains_key(key@) && old(self)@[key@].generation == generation ==> {
                &&& final(self)@ == old(self)@.remove(key@)
                &&& r == if !abandoned && now < old(self)@[key@].deadline && same_process(sup@.servers, key@, generation) {
                    FeatureResponse::Resolved(old(self)@[key@])
                } else {
                    FeatureResponse::Dropped
                }
            },
    {
        let pending = match self.get(key) {
            None => {
                return FeatureResponse::Unknown;
            },
            Some(p) => p,
        };
        if pending.generation != generation {
            return FeatureResponse::Dropped;
        }
        let _ = self.remove(key);
        if abandoned || pending.deadline <= now || sup.generation(&key.server_id, &key.root) != Some(generation) {
            return FeatureResponse::Dropped;
        }
        FeatureResponse::Resolved(pending)
    }

    /// Keep the requests that `by` keeps; give back the keys of the dropped
    /// ones whose process (per `sup`) is still the one that was asked.
    fn retain(
        &mut self,
        Ghost(keep): Ghost<spec_fn(RequestKeyView, PendingFeature<T>) -> bool>,
        Ghost(servers): Ghost<Map<(Seq<char>, Seq<char>), u64>>,
        by: RetainBy,
        sup: Option<&LspSupervisor>,
    ) -> (r: Vec<RequestKey>)
        requires
            old(self).wf(),
            retain_rule(by, sup, keep, servers),
        ensures
            final(self).wf(),
            final(self)@ == kept(old(self)@, keep),
            lists_requests(
                r@,
                old(self)@,
                |x: RequestKeyView, p: PendingFeature<T>| !keep(x, p) && same_process(servers, x, p.generation),
            ),
    {
        let ghost s = self.rows@;
        let ghost drop = |x: RequestKeyView, p: PendingFeature<T>| !keep(x, p) && same_process(servers, x, p.generation);
        let mut out: Vec<Row<T>> = Vec::new();
        let mut cancel: Vec<RequestKey> = Vec::new();
        let n = self.rows.len();
        let mut i: usize = 0;
        proof {
            assert(rows_map(s.take(0)) =~= Map::<RequestKeyView, PendingFeature<T>>::empty());
            assert(rows_map(out@) =~= Map::<RequestKeyView, PendingFeature<T>>::empty());
            assert(kept(rows_map(s.take(0)), keep) =~= Map::<RequestKeyView, PendingFeature<T>>::empty());
        }
        while i < n
            invariant
                s == self.rows@,
                n == s.len(),
                0 <= i <= n,
                distinct_rows(s),
                distinct_rows(out@),
                rows_map(out@) == kept(rows_map(s.take(i as int)), keep),
                request_keys_view(cancel@).no_duplicates(),
                forall|k: RequestKeyView|
                    request_keys_view(cancel@).contains(k) <==> exists|j: int|
                        0 <= j < i && s[j].key@ == k && drop(s[j].key@, s[j].pending),
                drop == (|x: RequestKeyView, p: PendingFeature<T>| !keep(x, p) && same_process(servers, x, p.generation)),
                retain_rule(by, sup, keep, servers),
            decreases n - i,
        {
            let row = &self.rows[i];
            let live = match sup {
                Some(sv) => sv.generation(&row.key.server_id, &row.key.root) == Some(row.pending.generation),
                None => false,
            };
            let keeps = match by {
                RetainBy::Key(key) => !(row.key.request_id == key.request_id && row.key.server_id == key.server_id
                    && row.key.root == key.root),
                RetainBy::Document(d) => row.pending.document_id != d,
                RetainBy::Live(now) => row.pending.deadline > now && live,
            };
            proof {
                lemma_retain_step(s, i as int, out@, keep);
                assert(keeps == keep(s[i as int].key@, s[i as int].pending));
                assert(live == same_process(servers, s[i as int].key@, s[i as int].pending.generation));
            }
            let ghost prev = cancel@;
            if keeps {
                out.push(Row { key: copy_key(&row.key), pending: row.pending });
                assert(out@.last() == s[i as int]);
            } else if live {
                cancel.push(copy_key(&row.key));
            }
            proof {
                let cv = request_keys_view(cancel@);
                let pv = request_keys_view(prev);
                let ki = s[i as int].key@;
                if !keeps && live {
                    assert(cv =~= pv.push(ki));
                    assert(!pv.contains(ki)) by {
                        if pv.contains(ki) {
                            let j = choose|j: int| 0 <= j < i && s[j].key@ == ki && drop(s[j].key@, s[j].pending);
                        }
                    }
                    assert forall|a: int, b: int| 0 <= a < cv.len() && 0 <= b < cv.len() && a != b implies cv[a] != cv[b] by {
                        if a < pv.len() && b < pv.len() {
                        } else if a < pv.len() {
                            assert(pv.contains(cv[a]));
                        } else {
                            assert(pv.contains(cv[b]));
                        }
                    }
                } else {
                    assert(cancel@ == prev);
                }
                assert forall|k: RequestKeyView| cv.contains(k) <==> exists|j: int|
                    0 <= j < i + 1 && s[j].key@ == k && drop(s[j].key@, s[j].pending) by {
                    if exists|j: int| 0 <= j < i + 1 && s[j].key@ == k && drop(s[j].key@, s[j].pending) {
                        let j = choose|j: int| 0 <= j < i + 1 && s[j].key@ == k && drop(s[j].key@, s[j].pending);
                        if j < i {
                            assert(pv.contains(k));
                            let a = choose|a: int| 0 <= a < pv.len() && pv[a] == k;
                            assert(cv[a] == k);
                        } else {
                            assert(cv[cv.len() - 1] == k);
                        }
                    }
                    if cv.contains(k) && !pv.contains(k) {
                        let a = choose|a: int| 0 <= a < cv.len() && cv[a] == k;
                        if a < pv.len() {
                            assert(pv[a] == k);
                        }
                    }
                }
            }
            i = i + 1;
        }
        proof {
            assert(s.take(n as int) =~= s);
            let m = rows_map(s);
            assert forall|k: RequestKeyView| request_keys_view(cancel@).contains(k) <==> (m.contains_key(k) && drop(k, m[k])) by {
                if m.contains_key(k) {
                    let j = choose|j: int| 0 <= j < s.len() && s[j].key@ == k;
                    lemma_rows_at(s, j);
                }
                if request_keys_view(cancel@).contains(k) {
                    let j = choose|j: int| 0 <= j < n && s[j].key@ == k && drop(s[j].key@, s[j].pending);
                    lemma_rows_at(s, j);
                }
            }
        }
        self.rows = out;
        cancel
    }
}

/// A copy of a request key.
pub fn copy_key(k: &RequestKey) -> (r: RequestKey)
    ensures
        r == *k,
{
    RequestKey { server_id: k.server_id.clone(), root: k.root.clone(), request_id: k.request_id }
}

/// What a filtering pass keeps, and which process table it consults.
pub open spec fn retain_rule<T>(
    by: RetainBy,
    sup: Option<&LspSupervisor>,
    keep: spec_fn(RequestKeyView, PendingFeature<T>) -> bool,
    servers: Map<(Seq<char>, Seq<char>), u64>,
) -> bool {
    &&& match sup {
        Some(sv) => sv.wf() && servers == sv@.servers,
        None => servers == Map::<(Seq<char>, Seq<char>), u64>::empty(),
    }
    &&& match by {
        RetainBy::Key(key) => keep == (|x: RequestKeyView, p: PendingFeature<T>| x != key@),
        RetainBy::Document(d) => keep == (|x: RequestKeyView, p: PendingFeature<T>| p.document_id != d),
        RetainBy::Live(now) => keep == (|x: RequestKeyView, p: PendingFeature<T>| p.deadline > now && same_process(
            servers,
            x,
            p.generation,
        )),
    }
}

/// Which requests a filtering pass keeps.
pub enum RetainBy<'a> {
    /// Drop the request under this key.
    Key(&'a RequestKey),
    /// Drop the requests of this document.
    Document(u64),
    /// Drop the requests past their deadline at this time, or whose process
    /// is gone.
    Live(u64),
}

} // verus!
