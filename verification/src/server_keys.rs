//! A small table keyed by `(server id, root)`: the key under which every
//! language-server process and its bookkeeping is filed.

use vstd::prelude::*;
use crate::completion::strings_view;

verus! {

/// A `(server id, root)` key, by value.
pub type KeyView = (Seq<char>, Seq<char>);


/// A `(server id, root)` key, as owned strings.
#[derive(Clone, Debug)]
pub struct ServerKey {
    pub server_id: String,
    pub root: String,
}

impl View for ServerKey {
    type V = KeyView;

    open spec fn view(&self) -> KeyView {
        (self.server_id@, self.root@)
    }
}

pub open spec fn keys_view(s: Seq<ServerKey>) -> Seq<KeyView> {
    s.map_values(|k: ServerKey| k@)
}

/// The keys of a list, each once, and exactly the keys of `m` that `pick`
/// picks.
pub open spec fn lists_keys<V>(r: Seq<ServerKey>, m: Map<KeyView, V>, pick: spec_fn(KeyView, V) -> bool) -> bool {
    &&& keys_view(r).no_duplicates()
    &&& forall|k: KeyView| keys_view(r).contains(k) <==> (m.contains_key(k) && pick(k, m[k]))
}

/// One row of a table: a key and its value.
pub struct Keyed<V> {
    pub server_id: String,
    pub root: String,
    pub value: V,
}

pub open spec fn key_of<V>(e: Keyed<V>) -> KeyView {
    (e.server_id@, e.root@)
}

/// No key occurs twice.
pub open spec fn distinct_keys<V>(s: Seq<Keyed<V>>) -> bool {
    forall|i: int, j: int| 0 <= i < s.len() && 0 <= j < s.len() && i != j ==> key_of(s[i]) != key_of(s[j])
}

/// The rows as a map from key to value.
pub open spec fn rows_map<V>(s: Seq<Keyed<V>>) -> Map<KeyView, V> {
    Map::new(
        |k: KeyView| exists|i: int| 0 <= i < s.len() && key_of(s[i]) == k,
        |k: KeyView| s[choose|i: int| 0 <= i < s.len() && key_of(s[i]) == k].value,
    )
}

/// The entries of `m` that `keep` keeps.
pub open spec fn filtered<V>(m: Map<KeyView, V>, keep: spec_fn(KeyView, V) -> bool) -> Map<KeyView, V> {
    Map::new(|k: KeyView| m.contains_key(k) && keep(k, m[k]), |k: KeyView| m[k])
}

pub proof fn lemma_rows_at<V>(s: Seq<Keyed<V>>, i: int)
    requires
        distinct_keys(s),
        0 <= i < s.len(),
    ensures
        rows_map(s).contains_key(key_of(s[i])),
        rows_map(s)[key_of(s[i])] == s[i].value,
{
    let k = key_of(s[i]);
    assert(exists|j: int| 0 <= j < s.len() && key_of(s[j]) == k);
    let j = choose|j: int| 0 <= j < s.len() && key_of(s[j]) == k;
    assert(j == i);
}

pub proof fn lemma_rows_push<V>(s: Seq<Keyed<V>>, e: Keyed<V>)
    requires
        distinct_keys(s),
        !rows_map(s).contains_key(key_of(e)),
    ensures
        distinct_keys(s.push(e)),
        rows_map(s.push(e)) == rows_map(s).insert(key_of(e), e.value),
{
    let n = s.push(e);
    assert forall|a: int, b: int| 0 <= a < n.len() && 0 <= b < n.len() && a != b implies key_of(n[a]) != key_of(
        n[b],
    ) by {
        if a < s.len() && b < s.len() {
            assert(n[a] == s[a] && n[b] == s[b]);
        } else if a < s.len() {
            assert(n[a] == s[a]);
            assert(rows_map(s).contains_key(key_of(s[a])));
        } else {
            assert(n[b] == s[b]);
            assert(rows_map(s).contains_key(key_of(s[b])));
        }
    }
    let want = rows_map(s).insert(key_of(e), e.value);
    assert forall|k: KeyView| rows_map(n).contains_key(k) <==> want.contains_key(k) by {
        if rows_map(n).contains_key(k) {
            let i = choose|i: int| 0 <= i < n.len() && key_of(n[i]) == k;
            if i < s.len() {
                assert(n[i] == s[i]);
            }
        }
        if rows_map(s).contains_key(k) {
            let i = choose|i: int| 0 <= i < s.len() && key_of(s[i]) == k;
            assert(n[i] == s[i]);
        }
        if k == key_of(e) {
            assert(n[s.len() as int] == e);
        }
    }
    assert forall|k: KeyView| #[trigger] rows_map(n).contains_key(k) implies rows_map(n)[k] == want[k] by {
        let i = choose|i: int| 0 <= i < n.len() && key_of(n[i]) == k;
        lemma_rows_at(n, i);
        if i < s.len() {
            assert(n[i] == s[i]);
            lemma_rows_at(s, i);
        }
    }
    assert(rows_map(n) =~= want);
}

pub proof fn lemma_rows_empty<V>(s: Seq<Keyed<V>>)
    requires
        s.len() == 0,
    ensures
        rows_map(s) == Map::<KeyView, V>::empty(),
{
    assert(rows_map(s) =~= Map::<KeyView, V>::empty());
}

/// One step of a filtering loop: the rows kept from a prefix of `s`.
pub proof fn lemma_filter_step<V>(s: Seq<Keyed<V>>, i: int, out: Seq<Keyed<V>>, keep: spec_fn(KeyView, V) -> bool)
    requires
        distinct_keys(s),
        0 <= i < s.len(),
        distinct_keys(out),
        rows_map(out) == filtered(rows_map(s.take(i)), keep),
    ensures
        keep(key_of(s[i]), s[i].value) ==> distinct_keys(out.push(s[i])) && rows_map(out.push(s[i]))
            == filtered(rows_map(s.take(i + 1)), keep),
        !keep(key_of(s[i]), s[i].value) ==> rows_map(out) == filtered(rows_map(s.take(i + 1)), keep),
{
    let p = s.take(i);
    let q = s.take(i + 1);
    assert(q =~= p.push(s[i]));
    assert(distinct_keys(p)) by {
        assert forall|a: int, b: int| 0 <= a < p.len() && 0 <= b < p.len() && a != b implies key_of(p[a])
            != key_of(p[b]) by {
            assert(p[a] == s[a] && p[b] == s[b]);
        }
    }
    assert(!rows_map(p).contains_key(key_of(s[i]))) by {
        if rows_map(p).contains_key(key_of(s[i])) {
            let j = choose|j: int| 0 <= j < p.len() && key_of(p[j]) == key_of(s[i]);
            assert(p[j] == s[j]);
        }
    }
    lemma_rows_push(p, s[i]);
    if keep(key_of(s[i]), s[i].value) {
        assert(!rows_map(out).contains_key(key_of(s[i])));
        lemma_rows_push(out, s[i]);
        assert(rows_map(out.push(s[i])) =~= filtered(rows_map(q), keep));
    } else {
        assert(rows_map(out) =~= filtered(rows_map(q), keep));
    }
}

pub proof fn lemma_take_all<V>(s: Seq<Keyed<V>>)
    ensures
        s.take(s.len() as int) == s,
{
    assert(s.take(s.len() as int) =~= s);
}

/// A table from `(server id, root)` to a value, each key at most once.
pub struct KeyTable<V> {
    rows: Vec<Keyed<V>>,
}

impl<V> View for KeyTable<V> {
    type V = Map<KeyView, V>;

    closed spec fn view(&self) -> Map<KeyView, V> {
        rows_map(self.rows@)
    }
}

impl<V: Copy> KeyTable<V> {
    pub closed spec fn wf(&self) -> bool {
        distinct_keys(self.rows@)
    }

    pub fn new() -> (r: Self)
        ensures
            r.wf(),
            r@ == Map::<KeyView, V>::empty(),
    {
        let r = KeyTable { rows: Vec::new() };
        proof {
            lemma_rows_empty(r.rows@);
        }
        r
    }

    fn position(&self, server_id: &String, root: &String) -> (r: Option<usize>)
        requires
            self.wf(),
        ensures
            match r {
                Some(i) => i < self.rows@.len() && key_of(self.rows@[i as int]) == (server_id@, root@),
                None => !self@.contains_key((server_id@, root@)),
            },
    {
        let mut i: usize = 0;
        while i < self.rows.len()
            invariant
                0 <= i <= self.rows@.len(),
                forall|k: int| 0 <= k < i ==> key_of(self.rows@[k]) != (server_id@, root@),
            decreases self.rows@.len() - i,
        {
            let row = &self.rows[i];
            if row.server_id == *server_id && row.root == *root {
                return Some(i);
            }
            i = i + 1;
        }
        proof {
            if self@.contains_key((server_id@, root@)) {
                let k = choose|k: int| 0 <= k < self.rows@.len() && key_of(self.rows@[k]) == (server_id@, root@);
            }
        }
        None
    }

    pub fn contains(&self, server_id: &String, root: &String) -> (r: bool)
        requires
            self.wf(),
        ensures
            r == self@.contains_key((server_id@, root@)),
    {
        match self.position(server_id, root) {
            Some(i) => {
                proof {
                    lemma_rows_at(self.rows@, i as int);
                }
                true
            },
            None => false,
        }
    }

    pub fn get(&self, server_id: &String, root: &String) -> (r: Option<V>)
        requires
            self.wf(),
        ensures
            r == (if self@.contains_key((server_id@, root@)) {
                Some(self@[(server_id@, root@)])
            } else {
                None
            }),
    {
        match self.position(server_id, root) {
            Some(i) => {
                proof {
                    lemma_rows_at(self.rows@, i as int);
                }
                Some(self.rows[i].value)
            },
            None => None,
        }
    }

    pub fn len(&self) -> (r: usize)
        requires
            self.wf(),
        ensures
            r == self@.len(),
    {
        proof {
            self.lemma_len();
        }
        self.rows.len()
    }

    proof fn lemma_len(&self)
        requires
            self.wf(),
        ensures
            self@.dom().finite(),
            self@.len() == self.rows@.len(),
        decreases self.rows@.len(),
    {
        let s = self.rows@;
        let keys = s.map_values(|e: Keyed<V>| key_of(e));
        assert(self@.dom() =~= keys.to_set()) by {
            assert forall|k: KeyView| self@.dom().contains(k) <==> keys.to_set().contains(k) by {
                if self@.dom().contains(k) {
                    let i = choose|i: int| 0 <= i < s.len() && key_of(s[i]) == k;
                    assert(keys[i] == k);
                }
                if keys.to_set().contains(k) {
                    let i = choose|i: int| 0 <= i < keys.len() && keys[i] == k;
                    assert(key_of(s[i]) == k);
                }
            }
        }
        assert(keys.no_duplicates()) by {
            assert forall|a: int, b: int| 0 <= a < keys.len() && 0 <= b < keys.len() && a != b implies keys[a]
                != keys[b] by {}
        }
        keys.unique_seq_to_set();
    }

    /// Set the value under a key, adding the key if it is new.
    pub fn insert(&mut self, server_id: &String, root: &String, value: V)
        requires
            old(self).wf(),
        ensures
            final(self).wf(),
            final(self)@ == old(self)@.insert((server_id@, root@), value),
    {
        let row = Keyed { server_id: server_id.clone(), root: root.clone(), value };
        match self.position(server_id, root) {
            Some(i) => {
                let ghost s = self.rows@;
                self.rows.set(i, row);
                proof {
                    let n = self.rows@;
                    assert forall|a: int, b: int| 0 <= a < n.len() && 0 <= b < n.len() && a != b implies key_of(
                        n[a],
                    ) != key_of(n[b]) by {
                        assert(key_of(n[a]) == key_of(s[a]) && key_of(n[b]) == key_of(s[b]));
                    }
                    let want = rows_map(s).insert((server_id@, root@), value);
                    assert forall|k: KeyView| rows_map(n).contains_key(k) <==> want.contains_key(k) by {
                        if rows_map(n).contains_key(k) {
                            let j = choose|j: int| 0 <= j < n.len() && key_of(n[j]) == k;
                            assert(key_of(s[j]) == k);
                        }
                        if rows_map(s).contains_key(k) {
                            let j = choose|j: int| 0 <= j < s.len() && key_of(s[j]) == k;
                            assert(key_of(n[j]) == k);
                        }
                    }
                    assert forall|k: KeyView| #[trigger] rows_map(n).contains_key(k) implies rows_map(n)[k]
                        == want[k] by {
                        let j = choose|j: int| 0 <= j < n.len() && key_of(n[j]) == k;
                        lemma_rows_at(n, j);
                        if j != i {
                            lemma_rows_at(s, j);
                        }
                    }
                    assert(rows_map(n) =~= want);
                }
            },
            None => {
                proof {
                    lemma_rows_push(self.rows@, row);
                }
                self.rows.push(row);
            },
        }
    }

    /// Remove a key, giving back its value.
    pub fn remove(&mut self, server_id: &String, root: &String) -> (r: Option<V>)
        requires
            old(self).wf(),
        ensures
            final(self).wf(),
            final(self)@ == old(self)@.remove((server_id@, root@)),
            r == (if old(self)@.contains_key((server_id@, root@)) {
                Some(old(self)@[(server_id@, root@)])
            } else {
                None
            }),
    {
        let r = self.get(server_id, root);
        let ghost key = (server_id@, root@);
        let ghost keep = |k: KeyView, v: V| k != key;
        self.retain_rows(Ghost(keep), server_id, Some(root));
        proof {
            assert(self@ =~= old(self)@.remove(key));
        }
        r
    }

    /// Remove every key of the server `server_id`.
    pub fn remove_server(&mut self, server_id: &String)
        requires
            old(self).wf(),
        ensures
            final(self).wf(),
            final(self)@ == filtered(old(self)@, |k: KeyView, v: V| k.0 != server_id@),
    {
        let ghost keep = |k: KeyView, v: V| k.0 != server_id@;
        self.retain_rows(Ghost(keep), server_id, None);
    }

    /// Keep the rows whose key differs from `(server_id, root)` or, without
    /// a root, whose server id differs from `server_id`.
    fn retain_rows(&mut self, Ghost(keep): Ghost<spec_fn(KeyView, V) -> bool>, server_id: &String, root: Option<&String>)
        requires
            old(self).wf(),
            root is None ==> keep == (|k: KeyView, v: V| k.0 != server_id@),
            root matches Some(r) ==> keep == (|k: KeyView, v: V| k != (server_id@, r@)),
        ensures
            final(self).wf(),
            final(self)@ == filtered(old(self)@, keep),
    {
        let ghost s = self.rows@;
        let mut out: Vec<Keyed<V>> = Vec::new();
        let mut rows = Vec::new();
        std::mem::swap(&mut rows, &mut self.rows);
        let n = rows.len();
        let mut i: usize = 0;
        proof {
            lemma_rows_empty(out@);
            assert(rows_map(s.take(0)) =~= Map::<KeyView, V>::empty());
            assert(filtered(rows_map(s.take(0)), keep) =~= Map::<KeyView, V>::empty());
        }
        while i < n
            invariant
                rows@ == s,
                n == s.len(),
                0 <= i <= n,
                distinct_keys(s),
                distinct_keys(out@),
                rows_map(out@) == filtered(rows_map(s.take(i as int)), keep),
                root is None ==> keep == (|k: KeyView, v: V| k.0 != server_id@),
                root matches Some(r) ==> keep == (|k: KeyView, v: V| k != (server_id@, r@)),
            decreases n - i,
        {
            let row = &rows[i];
            let kept = match root {
                None => !(row.server_id == *server_id),
                Some(r) => !(row.server_id == *server_id && row.root == *r),
            };
            proof {
                lemma_filter_step(s, i as int, out@, keep);
            }
            if kept {
                let copy = Keyed { server_id: row.server_id.clone(), root: row.root.clone(), value: row.value };
                assert(copy == s[i as int]);
                out.push(copy);
            }
            i = i + 1;
        }
        proof {
            lemma_take_all(s);
        }
        self.rows = out;
    }

    /// The roots at which the server `server_id` has a key, in table order.
    pub fn roots_of(&self, server_id: &String) -> (r: Vec<String>)
        requires
            self.wf(),
        ensures
            strings_view(r@).no_duplicates(),
            forall|root: Seq<char>|
                strings_view(r@).contains(root) <==> self@.contains_key((server_id@, root)),
    {
        let ghost s = self.rows@;
        let mut out: Vec<String> = Vec::new();
        let mut i: usize = 0;
        while i < self.rows.len()
            invariant
                s == self.rows@,
                distinct_keys(s),
                0 <= i <= s.len(),
                forall|a: int, b: int| 0 <= a < b < out@.len() ==> out@[a]@ != out@[b]@,
                forall|root: Seq<char>|
                    strings_view(out@).contains(root) <==> exists|k: int|
                        0 <= k < i && key_of(s[k]) == (server_id@, root),
            decreases s.len() - i,
        {
            let row = &self.rows[i];
            if row.server_id == *server_id {
                let ghost prev = out@;
                out.push(row.root.clone());
                proof {
                    assert forall|a: int, b: int| 0 <= a < b < out@.len() implies out@[a]@ != out@[b]@ by {
                        if b == prev.len() {
                            assert(strings_view(prev)[a] == prev[a]@);
                            if out@[a]@ == row.root@ {
                                assert(strings_view(prev).contains(row.root@));
                                let k = choose|k: int| 0 <= k < i && key_of(s[k]) == (server_id@, row.root@);
                                assert(key_of(s[k]) == key_of(s[i as int]));
                            }
                        } else {
                            assert(out@[a] == prev[a] && out@[b] == prev[b]);
                        }
                    }
                    assert forall|root: Seq<char>| strings_view(out@).contains(root) <==> exists|k: int|
                        0 <= k < i + 1 && key_of(s[k]) == (server_id@, root) by {
                        let mv = strings_view(out@);
                        let pv = strings_view(prev);
                        assert(mv =~= pv.push(row.root@));
                        if key_of(s[i as int]) == (server_id@, root) {
                            assert(mv[prev.len() as int] == root);
                        }
                        if mv.contains(root) && !pv.contains(root) {
                            let j = choose|j: int| 0 <= j < mv.len() && mv[j] == root;
                            if j < pv.len() {
                                assert(pv[j] == root);
                            }
                        }
                        if pv.contains(root) {
                            let j = choose|j: int| 0 <= j < pv.len() && pv[j] == root;
                            assert(mv[j] == root);
                        }
                    }
                }
            } else {
                proof {
                    assert forall|root: Seq<char>| strings_view(out@).contains(root) <==> exists|k: int|
                        0 <= k < i + 1 && key_of(s[k]) == (server_id@, root) by {
                        if exists|k: int| 0 <= k < i + 1 && key_of(s[k]) == (server_id@, root) {
                            let k = choose|k: int| 0 <= k < i + 1 && key_of(s[k]) == (server_id@, root);
                            assert(k != i);
                        }
                    }
                }
            }
            i = i + 1;
        }
        proof {
            let mv = strings_view(out@);
            assert(mv.no_duplicates()) by {
                assert forall|a: int, b: int| 0 <= a < mv.len() && 0 <= b < mv.len() && a != b implies mv[a]
                    != mv[b] by {
                    if a < b {
                        assert(out@[a]@ != out@[b]@);
                    } else {
                        assert(out@[b]@ != out@[a]@);
                    }
                }
            }
            assert forall|root: Seq<char>| mv.contains(root) <==> self@.contains_key((server_id@, root)) by {
                if self@.contains_key((server_id@, root)) {
                    let k = choose|k: int| 0 <= k < s.len() && key_of(s[k]) == (server_id@, root);
                }
            }
        }
        out
    }
    /// Remove every key.
    pub fn clear(&mut self)
        ensures
            final(self).wf(),
            final(self)@ == Map::<KeyView, V>::empty(),
    {
        self.rows = Vec::new();
        proof {
            lemma_rows_empty(self.rows@);
        }
    }

    /// Every key, each once.
    pub fn keys(&self) -> (r: Vec<ServerKey>)
        requires
            self.wf(),
        ensures
            lists_keys(r@, self@, |k: KeyView, v: V| true),
    {
        let ghost s = self.rows@;
        let mut out: Vec<ServerKey> = Vec::new();
        let mut i: usize = 0;
        while i < self.rows.len()
            invariant
                s == self.rows@,
                distinct_keys(s),
                0 <= i <= s.len(),
                out@.len() == i,
                forall|k: int| 0 <= k < i ==> #[trigger] out@[k]@ == key_of(s[k]),
            decreases s.len() - i,
        {
            let row = &self.rows[i];
            out.push(ServerKey { server_id: row.server_id.clone(), root: row.root.clone() });
            i = i + 1;
        }
        proof {
            let kv = keys_view(out@);
            assert forall|a: int, b: int| 0 <= a < kv.len() && 0 <= b < kv.len() && a != b implies kv[a] != kv[b] by {
                assert(kv[a] == key_of(s[a]) && kv[b] == key_of(s[b]));
            }
            assert forall|k: KeyView| kv.contains(k) <==> self@.contains_key(k) by {
                if kv.contains(k) {
                    let a = choose|a: int| 0 <= a < kv.len() && kv[a] == k;
                    assert(kv[a] == key_of(s[a]));
                }
                if self@.contains_key(k) {
                    let a = choose|a: int| 0 <= a < s.len() && key_of(s[a]) == k;
                    assert(kv[a] == key_of(s[a]));
                }
            }
        }
        out
    }
}

impl KeyTable<u64> {
    /// Remove the keys whose time has come (value at most `now`) and give
    /// them back.
    pub fn take_due(&mut self, now: u64) -> (r: Vec<ServerKey>)
        requires
            old(self).wf(),
        ensures
            final(self).wf(),
            final(self)@ == filtered(old(self)@, |k: KeyView, v: u64| v > now),
            lists_keys(r@, old(self)@, |k: KeyView, v: u64| v <= now),
    {
        let ghost s = self.rows@;
        let ghost keep = |k: KeyView, v: u64| v > now;
        let mut out: Vec<Keyed<u64>> = Vec::new();
        let mut due: Vec<ServerKey> = Vec::new();
        let mut rows = Vec::new();
        std::mem::swap(&mut rows, &mut self.rows);
        let n = rows.len();
        let mut i: usize = 0;
        proof {
            lemma_rows_empty(out@);
            assert(rows_map(s.take(0)) =~= Map::<KeyView, u64>::empty());
            assert(filtered(rows_map(s.take(0)), keep) =~= Map::<KeyView, u64>::empty());
        }
        while i < n
            invariant
                rows@ == s,
                n == s.len(),
                0 <= i <= n,
                distinct_keys(s),
                distinct_keys(out@),
                keep == (|k: KeyView, v: u64| v > now),
                rows_map(out@) == filtered(rows_map(s.take(i as int)), keep),
                keys_view(due@).no_duplicates(),
                forall|k: KeyView|
                    keys_view(due@).contains(k) <==> exists|j: int| 0 <= j < i && key_of(s[j]) == k && s[j].value <= now,
            decreases n - i,
        {
            let row = &rows[i];
            proof {
                lemma_filter_step(s, i as int, out@, keep);
            }
            let ghost prev = due@;
            if row.value > now {
                let copy = Keyed { server_id: row.server_id.clone(), root: row.root.clone(), value: row.value };
                assert(copy == s[i as int]);
                out.push(copy);
            } else {
                due.push(ServerKey { server_id: row.server_id.clone(), root: row.root.clone() });
            }
            proof {
                let kv = keys_view(due@);
                let pv = keys_view(prev);
                if row.value > now {
                    assert(due@ == prev);
                } else {
                    assert(kv =~= pv.push(key_of(s[i as int])));
                    assert forall|a: int, b: int| 0 <= a < kv.len() && 0 <= b < kv.len() && a != b implies kv[a]
                        != kv[b] by {
                        if a < pv.len() && b < pv.len() {
                        } else if a < pv.len() {
                            assert(pv.contains(kv[a]));
                            let j = choose|j: int| 0 <= j < i && key_of(s[j]) == pv[a] && s[j].value <= now;
                        } else {
                            assert(pv.contains(kv[b]));
                            let j = choose|j: int| 0 <= j < i && key_of(s[j]) == pv[b] && s[j].value <= now;
                        }
                    }
                }
                assert forall|k: KeyView| kv.contains(k) <==> exists|j: int|
                    0 <= j < i + 1 && key_of(s[j]) == k && s[j].value <= now by {
                    if row.value <= now {
                        if k == key_of(s[i as int]) {
                            assert(kv[pv.len() as int] == k);
                        }
                        if kv.contains(k) && k != key_of(s[i as int]) {
                            let a = choose|a: int| 0 <= a < kv.len() && kv[a] == k;
                            assert(pv[a] == k);
                        }
                        if pv.contains(k) {
                            let a = choose|a: int| 0 <= a < pv.len() && pv[a] == k;
                            assert(kv[a] == k);
                        }
                    }
                    if exists|j: int| 0 <= j < i + 1 && key_of(s[j]) == k && s[j].value <= now {
                        let j = choose|j: int| 0 <= j < i + 1 && key_of(s[j]) == k && s[j].value <= now;
                        if j < i {
                            assert(pv.contains(k));
                            if row.value <= now {
                                let a = choose|a: int| 0 <= a < pv.len() && pv[a] == k;
                                assert(kv[a] == k);
                            }
                        }
                    }
                }
            }
            i = i + 1;
        }
        proof {
            lemma_take_all(s);
            assert forall|k: KeyView| keys_view(due@).contains(k) <==> (rows_map(s).contains_key(k) && rows_map(s)[k] <= now) by {
                if rows_map(s).contains_key(k) {
                    let j = choose|j: int| 0 <= j < s.len() && key_of(s[j]) == k;
                    lemma_rows_at(s, j);
                }
                if keys_view(due@).contains(k) {
                    let j = choose|j: int| 0 <= j < n && key_of(s[j]) == k && s[j].value <= now;
                    lemma_rows_at(s, j);
                }
            }
        }
        self.rows = out;
        due
    }
}

} // verus!
