//! Per-document debounce deadlines: at most one armed deadline per document,
//! re-arming replaces it, and a tick fires every deadline that has passed,
//! once.

use vstd::prelude::*;

verus! {

/// One armed deadline: the document, the instant (in milliseconds) and what
/// firing it needs.
#[derive(Clone, Copy, Debug)]
pub struct Debounce<V> {
    pub document_id: u64,
    pub deadline: u64,
    pub value: V,
}

/// No document occurs twice.
pub open spec fn distinct_docs<V>(s: Seq<Debounce<V>>) -> bool {
    forall|i: int, j: int| 0 <= i < s.len() && 0 <= j < s.len() && i != j ==> s[i].document_id != s[j].document_id
}

/// The rows as a map from document to `(deadline, value)`.
pub open spec fn rows_map<V>(s: Seq<Debounce<V>>) -> Map<u64, (u64, V)> {
    Map::new(
        |d: u64| exists|i: int| 0 <= i < s.len() && s[i].document_id == d,
        |d: u64| {
            let i = choose|i: int| 0 <= i < s.len() && s[i].document_id == d;
            (s[i].deadline, s[i].value)
        },
    )
}

/// The armed deadlines that `keep` keeps.
pub open spec fn filtered<V>(m: Map<u64, (u64, V)>, keep: spec_fn(u64, u64) -> bool) -> Map<u64, (u64, V)> {
    Map::new(|d: u64| m.contains_key(d) && keep(d, m[d].0), |d: u64| m[d])
}

/// The deadlines that have passed at `now`.
pub open spec fn due<V>(m: Map<u64, (u64, V)>, now: u64) -> Map<u64, (u64, V)> {
    filtered(m, |d: u64, deadline: u64| deadline <= now)
}

/// The deadlines still ahead at `now`.
pub open spec fn pending<V>(m: Map<u64, (u64, V)>, now: u64) -> Map<u64, (u64, V)> {
    filtered(m, |d: u64, deadline: u64| deadline > now)
}

proof fn lemma_rows_at<V>(s: Seq<Debounce<V>>, i: int)
    requires
        distinct_docs(s),
        0 <= i < s.len(),
    ensures
        rows_map(s).contains_key(s[i].document_id),
        rows_map(s)[s[i].document_id] == (s[i].deadline, s[i].value),
{
    let d = s[i].document_id;
    assert(exists|j: int| 0 <= j < s.len() && s[j].document_id == d);
    let j = choose|j: int| 0 <= j < s.len() && s[j].document_id == d;
    assert(j == i);
}

proof fn lemma_rows_push<V>(s: Seq<Debounce<V>>, e: Debounce<V>)
    requires
        distinct_docs(s),
        !rows_map(s).contains_key(e.document_id),
    ensures
        distinct_docs(s.push(e)),
        rows_map(s.push(e)) == rows_map(s).insert(e.document_id, (e.deadline, e.value)),
{
    let n = s.push(e);
    assert forall|a: int, b: int| 0 <= a < n.len() && 0 <= b < n.len() && a != b implies n[a].document_id
        != n[b].document_id by {
        if a < s.len() && b < s.len() {
            assert(n[a] == s[a] && n[b] == s[b]);
        } else if a < s.len() {
            assert(n[a] == s[a]);
            assert(rows_map(s).contains_key(s[a].document_id));
        } else {
            assert(n[b] == s[b]);
            assert(rows_map(s).contains_key(s[b].document_id));
        }
    }
    let want = rows_map(s).insert(e.document_id, (e.deadline, e.value));
    assert forall|d: u64| rows_map(n).contains_key(d) <==> want.contains_key(d) by {
        if rows_map(n).contains_key(d) {
            let i = choose|i: int| 0 <= i < n.len() && n[i].document_id == d;
            if i < s.len() {
                assert(n[i] == s[i]);
            }
        }
        if rows_map(s).contains_key(d) {
            let i = choose|i: int| 0 <= i < s.len() && s[i].document_id == d;
            assert(n[i] == s[i]);
        }
        if d == e.document_id {
            assert(n[s.len() as int] == e);
        }
    }
    assert forall|d: u64| #[trigger] rows_map(n).contains_key(d) implies rows_map(n)[d] == want[d] by {
        let i = choose|i: int| 0 <= i < n.len() && n[i].document_id == d;
        lemma_rows_at(n, i);
        if i < s.len() {
            assert(n[i] == s[i]);
            lemma_rows_at(s, i);
        }
    }
    assert(rows_map(n) =~= want);
}

/// One step of a filtering loop: the rows kept from a prefix of `s`.
proof fn lemma_filter_step<V>(
    s: Seq<Debounce<V>>,
    i: int,
    out: Seq<Debounce<V>>,
    keep: spec_fn(u64, u64) -> bool,
)
    requires
        distinct_docs(s),
        0 <= i < s.len(),
        distinct_docs(out),
        rows_map(out) == filtered(rows_map(s.take(i)), keep),
    ensures
        keep(s[i].document_id, s[i].deadline) ==> distinct_docs(out.push(s[i])) && rows_map(out.push(s[i]))
            == filtered(rows_map(s.take(i + 1)), keep),
        !keep(s[i].document_id, s[i].deadline) ==> rows_map(out) == filtered(rows_map(s.take(i + 1)), keep),
{
    let p = s.take(i);
    let q = s.take(i + 1);
    assert(q =~= p.push(s[i]));
    assert(distinct_docs(p)) by {
        assert forall|a: int, b: int| 0 <= a < p.len() && 0 <= b < p.len() && a != b implies p[a].document_id
            != p[b].document_id by {
            assert(p[a] == s[a] && p[b] == s[b]);
        }
    }
    assert(!rows_map(p).contains_key(s[i].document_id)) by {
        if rows_map(p).contains_key(s[i].document_id) {
            let j = choose|j: int| 0 <= j < p.len() && p[j].document_id == s[i].document_id;
            assert(p[j] == s[j]);
        }
    }
    lemma_rows_push(p, s[i]);
    if keep(s[i].document_id, s[i].deadline) {
        assert(!rows_map(out).contains_key(s[i].document_id));
        lemma_rows_push(out, s[i]);
        assert(rows_map(out.push(s[i])) =~= filtered(rows_map(q), keep));
    } else {
        assert(rows_map(out) =~= filtered(rows_map(q), keep));
    }
}

/// Whether a split keeps the row of document `d` with this deadline: a row
/// of another document than `document_id`, ahead of `now`.
pub open spec fn keeps(document_id: Option<u64>, now: Option<u64>, d: u64, deadline: u64) -> bool {
    (document_id matches Some(x) ==> d != x) && (now matches Some(t) ==> deadline > t)
}

/// The armed debounce deadlines, at most one per document.
pub struct Debounces<V> {
    rows: Vec<Debounce<V>>,
}

impl<V> View for Debounces<V> {
    type V = Map<u64, (u64, V)>;

    closed spec fn view(&self) -> Map<u64, (u64, V)> {
        rows_map(self.rows@)
    }
}

impl<V: Copy> Debounces<V> {
    pub closed spec fn wf(&self) -> bool {
        distinct_docs(self.rows@)
    }

    pub fn new() -> (r: Self)
        ensures
            r.wf(),
            r@ == Map::<u64, (u64, V)>::empty(),
    {
        let r = Debounces { rows: Vec::new() };
        proof {
            assert(r@ =~= Map::<u64, (u64, V)>::empty());
        }
        r
    }

    pub fn is_empty(&self) -> (r: bool)
        requires
            self.wf(),
        ensures
            r == (self@.dom() == Set::<u64>::empty()),
    {
        proof {
            if self.rows@.len() > 0 {
                lemma_rows_at(self.rows@, 0);
            }
            if self.rows@.len() == 0 {
                assert(self@.dom() =~= Set::<u64>::empty());
            }
        }
        self.rows.len() == 0
    }

    /// The deadline armed for a document, with its value.
    pub fn get(&self, document_id: u64) -> (r: Option<(u64, V)>)
        requires
            self.wf(),
        ensures
            r == (if self@.contains_key(document_id) {
                Some(self@[document_id])
            } else {
                None
            }),
    {
        let mut i: usize = 0;
        while i < self.rows.len()
            invariant
                0 <= i <= self.rows@.len(),
                distinct_docs(self.rows@),
                forall|k: int| 0 <= k < i ==> self.rows@[k].document_id != document_id,
            decreases self.rows@.len() - i,
        {
            if self.rows[i].document_id == document_id {
                proof {
                    lemma_rows_at(self.rows@, i as int);
                }
                return Some((self.rows[i].deadline, self.rows[i].value));
            }
            i = i + 1;
        }
        proof {
            if self@.contains_key(document_id) {
                let k = choose|k: int| 0 <= k < self.rows@.len() && self.rows@[k].document_id == document_id;
            }
        }
        None
    }

    /// Keep the rows of documents other than `document_id` (all of them
    /// when it is `None`) whose deadline is ahead of `now` (any deadline
    /// when `now` is `None`); hand back the others.
    fn split(&mut self, document_id: Option<u64>, now: Option<u64>) -> (r: Vec<Debounce<V>>)
        requires
            old(self).wf(),
        ensures
            final(self).wf(),
            final(self)@ == filtered(old(self)@, |d: u64, deadline: u64| keeps(document_id, now, d, deadline)),
            distinct_docs(r@),
            rows_map(r@) == filtered(old(self)@, |d: u64, deadline: u64| !keeps(document_id, now, d, deadline)),
    {
        let ghost s = self.rows@;
        let ghost keep = |d: u64, deadline: u64| keeps(document_id, now, d, deadline);
        let ghost drop = |d: u64, deadline: u64| !keeps(document_id, now, d, deadline);
        let mut kept: Vec<Debounce<V>> = Vec::new();
        let mut taken: Vec<Debounce<V>> = Vec::new();
        let mut i: usize = 0;
        proof {
            assert(rows_map(kept@) =~= filtered(rows_map(s.take(0)), keep));
            assert(rows_map(taken@) =~= filtered(rows_map(s.take(0)), drop));
        }
        while i < self.rows.len()
            invariant
                self.rows@ == s,
                distinct_docs(s),
                0 <= i <= s.len(),
                distinct_docs(kept@),
                distinct_docs(taken@),
                keep == (|d: u64, deadline: u64| keeps(document_id, now, d, deadline)),
                drop == (|d: u64, deadline: u64| !keeps(document_id, now, d, deadline)),
                rows_map(kept@) == filtered(rows_map(s.take(i as int)), keep),
                rows_map(taken@) == filtered(rows_map(s.take(i as int)), drop),
            decreases s.len() - i,
        {
            let row = self.rows[i];
            let other = match document_id {
                Some(x) => row.document_id != x,
                None => true,
            };
            let ahead = match now {
                Some(t) => row.deadline > t,
                None => true,
            };
            proof {
                lemma_filter_step(s, i as int, kept@, keep);
                lemma_filter_step(s, i as int, taken@, drop);
            }
            if other && ahead {
                kept.push(row);
            } else {
                taken.push(row);
            }
            i = i + 1;
        }
        proof {
            assert(s.take(s.len() as int) =~= s);
        }
        self.rows = kept;
        taken
    }

    /// Arm (or re-arm) the deadline of a document; an earlier one is
    /// replaced.
    pub fn schedule(&mut self, document_id: u64, deadline: u64, value: V)
        requires
            old(self).wf(),
        ensures
            final(self).wf(),
            final(self)@ == old(self)@.insert(document_id, (deadline, value)),
    {
        let _ = self.split(Some(document_id), None);
        let row = Debounce { document_id, deadline, value };
        proof {
            assert(!self@.contains_key(document_id));
            lemma_rows_push(self.rows@, row);
        }
        self.rows.push(row);
        proof {
            assert(self@ =~= old(self)@.insert(document_id, (deadline, value)));
        }
    }

    /// Disarm the deadline of a document, giving back what it held.
    pub fn cancel(&mut self, document_id: u64) -> (r: Option<(u64, V)>)
        requires
            old(self).wf(),
        ensures
            final(self).wf(),
            final(self)@ == old(self)@.remove(document_id),
            r == (if old(self)@.contains_key(document_id) {
                Some(old(self)@[document_id])
            } else {
                None
            }),
    {
        let r = self.get(document_id);
        let _ = self.split(Some(document_id), None);
        proof {
            assert(self@ =~= old(self)@.remove(document_id));
        }
        r
    }

    /// Disarm and hand back every deadline that has passed at `now`, each
    /// document once, with what firing it needs; the others stay armed.
    pub fn take_due(&mut self, now: u64) -> (r: Vec<(u64, V)>)
        requires
            old(self).wf(),
        ensures
            final(self).wf(),
            final(self)@ == pending(old(self)@, now),
            r@.map_values(|e: (u64, V)| e.0).no_duplicates(),
            forall|i: int| 0 <= i < r@.len() ==> #[trigger] due(old(self)@, now).contains_key(r@[i].0)
                && old(self)@[r@[i].0].1 == r@[i].1,
            forall|d: u64| #[trigger] due(old(self)@, now).contains_key(d) ==> exists|i: int|
                0 <= i < r@.len() && r@[i].0 == d,
    {
        let taken = self.split(None, Some(now));
        proof {
            assert(self@ =~= pending(old(self)@, now));
            assert(rows_map(taken@) =~= due(old(self)@, now));
        }
        let mut r: Vec<(u64, V)> = Vec::new();
        let mut i: usize = 0;
        while i < taken.len()
            invariant
                0 <= i <= taken@.len(),
                distinct_docs(taken@),
                rows_map(taken@) == due(old(self)@, now),
                r@.len() == i,
                forall|k: int| 0 <= k < i ==> r@[k] == (taken@[k].document_id, taken@[k].value),
            decreases taken@.len() - i,
        {
            r.push((taken[i].document_id, taken[i].value));
            i = i + 1;
        }
        proof {
            let ids = r@.map_values(|e: (u64, V)| e.0);
            assert forall|a: int, b: int| 0 <= a < ids.len() && 0 <= b < ids.len() && a != b implies ids[a]
                != ids[b] by {
                assert(ids[a] == taken@[a].document_id && ids[b] == taken@[b].document_id);
            }
            assert forall|k: int| 0 <= k < r@.len() implies #[trigger] due(old(self)@, now).contains_key(r@[k].0)
                && old(self)@[r@[k].0].1 == r@[k].1 by {
                lemma_rows_at(taken@, k);
            }
            assert forall|d: u64| #[trigger] due(old(self)@, now).contains_key(d) implies exists|k: int|
                0 <= k < r@.len() && r@[k].0 == d by {
                let k = choose|k: int| 0 <= k < taken@.len() && taken@[k].document_id == d;
                assert(r@[k].0 == d);
            }
        }
        r
    }

    /// The earliest armed deadline, if any.
    pub fn earliest(&self) -> (r: Option<u64>)
        requires
            self.wf(),
        ensures
            r is None <==> self@.dom() == Set::<u64>::empty(),
            r matches Some(t) ==> (exists|d: u64| #[trigger] self@.contains_key(d) && self@[d].0 == t)
                && forall|d: u64| #[trigger] self@.contains_key(d) ==> t <= self@[d].0,
    {
        let mut best: Option<u64> = None;
        let mut i: usize = 0;
        while i < self.rows.len()
            invariant
                0 <= i <= self.rows@.len(),
                distinct_docs(self.rows@),
                best is None <==> i == 0,
                best matches Some(t) ==> (exists|k: int| 0 <= k < i && self.rows@[k].deadline == t)
                    && forall|k: int| 0 <= k < i ==> t <= #[trigger] self.rows@[k].deadline,
            decreases self.rows@.len() - i,
        {
            let t = self.rows[i].deadline;
            best = match best {
                Some(b) => if t < b { Some(t) } else { Some(b) },
                None => Some(t),
            };
            i = i + 1;
        }
        proof {
            let s = self.rows@;
            if s.len() == 0 {
                assert(self@.dom() =~= Set::<u64>::empty());
            } else {
                lemma_rows_at(s, 0);
                assert(self@.dom().contains(s[0].document_id));
            }
            if let Some(t) = best {
                let k = choose|k: int| 0 <= k < s.len() && s[k].deadline == t;
                lemma_rows_at(s, k);
                assert forall|d: u64| #[trigger] self@.contains_key(d) implies t <= self@[d].0 by {
                    let j = choose|j: int| 0 <= j < s.len() && s[j].document_id == d;
                    lemma_rows_at(s, j);
                }
            }
        }
        best
    }
}

/// Firing takes each passed deadline once: what stays armed after a tick
/// holds nothing due at that instant, so a second tick at the same instant
/// fires nothing.
pub proof fn law_fired_deadlines_do_not_fire_again<V>(m: Map<u64, (u64, V)>, now: u64)
    ensures
        due(pending(m, now), now) == Map::<u64, (u64, V)>::empty(),
{
    assert(due(pending(m, now), now) =~= Map::<u64, (u64, V)>::empty());
}

/// A tick loses nothing: every armed deadline is either fired or still
/// armed, never both.
pub proof fn law_tick_partitions_deadlines<V>(m: Map<u64, (u64, V)>, now: u64)
    ensures
        due(m, now).dom().disjoint(pending(m, now).dom()),
        due(m, now).union_prefer_right(pending(m, now)) == m,
{
    assert(due(m, now).union_prefer_right(pending(m, now)) =~= m);
}

/// Re-arming a document's debounce keeps only the latest deadline.
pub proof fn law_rearming_replaces<V>(m: Map<u64, (u64, V)>, d: u64, first: (u64, V), second: (u64, V))
    ensures
        m.insert(d, first).insert(d, second) == m.insert(d, second),
{
    assert(m.insert(d, first).insert(d, second) =~= m.insert(d, second));
}

} // verus!
