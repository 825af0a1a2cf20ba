//! The syntax worker's queue: parse requests coalesce per document, the
//! latest one winning, and clearing a document drops its queued parse.

use vstd::prelude::*;

verus! {

/// What the worker receives.
pub enum SyntaxWork<V> {
    /// Parse a document with this request.
    Parse(u64, V),
    /// Forget a document: its queued parse and its cached parser state.
    Clear(u64),
}

/// No document occurs twice.
pub open spec fn distinct_docs<V>(s: Seq<(u64, V)>) -> bool {
    forall|i: int, j: int| 0 <= i < s.len() && 0 <= j < s.len() && i != j ==> s[i].0 != s[j].0
}

/// The rows as a map from document to request.
pub open spec fn rows_map<V>(s: Seq<(u64, V)>) -> Map<u64, V> {
    Map::new(
        |d: u64| exists|i: int| 0 <= i < s.len() && s[i].0 == d,
        |d: u64| s[choose|i: int| 0 <= i < s.len() && s[i].0 == d].1,
    )
}

proof fn lemma_rows_at<V>(s: Seq<(u64, V)>, i: int)
    requires
        distinct_docs(s),
        0 <= i < s.len(),
    ensures
        rows_map(s).contains_key(s[i].0),
        rows_map(s)[s[i].0] == s[i].1,
{
    let d = s[i].0;
    assert(exists|j: int| 0 <= j < s.len() && s[j].0 == d);
    let j = choose|j: int| 0 <= j < s.len() && s[j].0 == d;
    assert(j == i);
}

proof fn lemma_rows_remove<V>(s: Seq<(u64, V)>, i: int)
    requires
        distinct_docs(s),
        0 <= i < s.len(),
    ensures
        distinct_docs(s.remove(i)),
        rows_map(s.remove(i)) == rows_map(s).remove(s[i].0),
{
    let n = s.remove(i);
    assert forall|a: int, b: int| 0 <= a < n.len() && 0 <= b < n.len() && a != b implies n[a].0 != n[b].0 by {
        let a2 = if a < i { a } else { a + 1 };
        let b2 = if b < i { b } else { b + 1 };
        assert(n[a] == s[a2] && n[b] == s[b2]);
    }
    let want = rows_map(s).remove(s[i].0);
    assert forall|d: u64| rows_map(n).contains_key(d) <==> want.contains_key(d) by {
        if rows_map(n).contains_key(d) {
            let j = choose|j: int| 0 <= j < n.len() && n[j].0 == d;
            let j2 = if j < i { j } else { j + 1 };
            assert(n[j] == s[j2]);
        }
        if want.contains_key(d) {
            let j = choose|j: int| 0 <= j < s.len() && s[j].0 == d;
            assert(j != i);
            let j2 = if j < i { j } else { j - 1 };
            assert(n[j2] == s[j]);
        }
    }
    assert forall|d: u64| #[trigger] rows_map(n).contains_key(d) implies rows_map(n)[d] == want[d] by {
        let j = choose|j: int| 0 <= j < n.len() && n[j].0 == d;
        lemma_rows_at(n, j);
        let j2 = if j < i { j } else { j + 1 };
        assert(n[j] == s[j2]);
        lemma_rows_at(s, j2);
    }
    assert(rows_map(n) =~= want);
}

proof fn lemma_rows_push<V>(s: Seq<(u64, V)>, e: (u64, V))
    requires
        distinct_docs(s),
        !rows_map(s).contains_key(e.0),
    ensures
        distinct_docs(s.push(e)),
        rows_map(s.push(e)) == rows_map(s).insert(e.0, e.1),
{
    let n = s.push(e);
    assert forall|a: int, b: int| 0 <= a < n.len() && 0 <= b < n.len() && a != b implies n[a].0 != n[b].0 by {
        if a < s.len() && b < s.len() {
            assert(n[a] == s[a] && n[b] == s[b]);
        } else if a < s.len() {
            assert(n[a] == s[a]);
            assert(rows_map(s).contains_key(s[a].0));
        } else {
            assert(n[b] == s[b]);
            assert(rows_map(s).contains_key(s[b].0));
        }
    }
    let want = rows_map(s).insert(e.0, e.1);
    assert forall|d: u64| rows_map(n).contains_key(d) <==> want.contains_key(d) by {
        if rows_map(n).contains_key(d) {
            let i = choose|i: int| 0 <= i < n.len() && n[i].0 == d;
            if i < s.len() {
                assert(n[i] == s[i]);
            }
        }
        if rows_map(s).contains_key(d) {
            let i = choose|i: int| 0 <= i < s.len() && s[i].0 == d;
            assert(n[i] == s[i]);
        }
        if d == e.0 {
            assert(n[s.len() as int] == e);
        }
    }
    assert forall|d: u64| #[trigger] rows_map(n).contains_key(d) implies rows_map(n)[d] == want[d] by {
        let i = choose|i: int| 0 <= i < n.len() && n[i].0 == d;
        lemma_rows_at(n, i);
        if i < s.len() {
            assert(n[i] == s[i]);
            lemma_rows_at(s, i);
        }
    }
    assert(rows_map(n) =~= want);
}

/// The parses waiting for the worker, at most one per document.
pub struct ParseQueue<V> {
    rows: Vec<(u64, V)>,
}

impl<V> View for ParseQueue<V> {
    type V = Map<u64, V>;

    closed spec fn view(&self) -> Map<u64, V> {
        rows_map(self.rows@)
    }
}

impl<V> ParseQueue<V> {
    pub closed spec fn wf(&self) -> bool {
        distinct_docs(self.rows@)
    }

    pub fn new() -> (r: Self)
        ensures
            r.wf(),
            r@ == Map::<u64, V>::empty(),
    {
        let r = ParseQueue { rows: Vec::new() };
        proof {
            assert(r@ =~= Map::<u64, V>::empty());
        }
        r
    }

    fn position(&self, document_id: u64) -> (r: Option<usize>)
        requires
            self.wf(),
        ensures
            match r {
                Some(i) => i < self.rows@.len() && self.rows@[i as int].0 == document_id,
                None => !self@.contains_key(document_id),
            },
    {
        let mut i: usize = 0;
        while i < self.rows.len()
            invariant
                0 <= i <= self.rows@.len(),
                forall|k: int| 0 <= k < i ==> self.rows@[k].0 != document_id,
            decreases self.rows@.len() - i,
        {
            if self.rows[i].0 == document_id {
                return Some(i);
            }
            i = i + 1;
        }
        proof {
            if self@.contains_key(document_id) {
                let k = choose|k: int| 0 <= k < self.rows@.len() && self.rows@[k].0 == document_id;
            }
        }
        None
    }

    /// Drop the queued parse of a document, giving it back.
    pub fn remove(&mut self, document_id: u64) -> (r: Option<V>)
        requires
            old(self).wf(),
        ensures
            final(self).wf(),
            final(self)@ == old(self)@.remove(document_id),
            r == (if old(self)@.contains_key(document_id) {
                Some(old(self)@[document_id])
            } else {
                None
            }),
    {
        match self.position(document_id) {
            Some(i) => {
                proof {
                    lemma_rows_at(self.rows@, i as int);
                    lemma_rows_remove(self.rows@, i as int);
                }
                let (_, v) = self.rows.remove(i);
                Some(v)
            },
            None => {
                proof {
                    assert(self@ =~= old(self)@.remove(document_id));
                }
                None
            },
        }
    }

    /// Queue a parse, replacing an earlier one of the same document.
    pub fn request(&mut self, document_id: u64, request: V)
        requires
            old(self).wf(),
        ensures
            final(self).wf(),
            final(self)@ == old(self)@.insert(document_id, request),
    {
        let _ = self.remove(document_id);
        proof {
            lemma_rows_push(self.rows@, (document_id, request));
        }
        self.rows.push((document_id, request));
        proof {
            assert(self@ =~= old(self)@.insert(document_id, request));
        }
    }

    /// Take one received message; a `Clear` names the document whose cached
    /// parser state goes too.
    pub fn handle(&mut self, work: SyntaxWork<V>) -> (r: Option<u64>)
        requires
            old(self).wf(),
        ensures
            final(self).wf(),
            match work {
                SyntaxWork::Parse(d, v) => final(self)@ == old(self)@.insert(d, v) && r is None,
                SyntaxWork::Clear(d) => final(self)@ == old(self)@.remove(d) && r == Some(d),
            },
    {
        match work {
            SyntaxWork::Parse(d, v) => {
                self.request(d, v);
                None
            },
            SyntaxWork::Clear(d) => {
                let _ = self.remove(d);
                Some(d)
            },
        }
    }

    /// Hand over every queued parse, each document once, leaving the queue
    /// empty.
    pub fn drain(&mut self) -> (r: Vec<(u64, V)>)
        requires
            old(self).wf(),
        ensures
            final(self).wf(),
            final(self)@ == Map::<u64, V>::empty(),
            distinct_docs(r@),
            rows_map(r@) == old(self)@,
    {
        let mut out: Vec<(u64, V)> = Vec::new();
        std::mem::swap(&mut out, &mut self.rows);
        proof {
            assert(self@ =~= Map::<u64, V>::empty());
        }
        out
    }
}

/// The worker parses each document once per batch, with the request that
/// came last: two requests for one document, with anything for other
/// documents between, leave only the second queued.
pub proof fn law_latest_request_wins<V>(m: Map<u64, V>, d: u64, first: V, second: V, e: u64, other: V)
    requires
        e != d,
    ensures
        m.insert(d, first).insert(e, other).insert(d, second)[d] == second,
        m.insert(d, first).insert(e, other).insert(d, second) == m.insert(e, other).insert(d, second),
{
    assert(m.insert(d, first).insert(e, other).insert(d, second) =~= m.insert(e, other).insert(d, second));
}

/// A clear cancels a queued parse, whatever was queued before it.
pub proof fn law_clear_cancels_queued_parse<V>(m: Map<u64, V>, d: u64, v: V)
    ensures
        !m.insert(d, v).remove(d).contains_key(d),
        m.insert(d, v).remove(d) == m.remove(d),
{
    assert(m.insert(d, v).remove(d) =~= m.remove(d));
}

} // verus!
