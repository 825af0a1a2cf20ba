//! Diagnostics publishes within one drain of server messages: each publish
//! replaces the whole set for its URI, so of several publishes for one URI
//! only the newest by version order is applied; one older than what was
//! already seen for the URI is stale and dropped.

use vstd::prelude::*;

verus! {

/// A `publishDiagnostics` message: its URI, its document version if the
/// server sent one, and the version last stored for that URI, if any.
pub struct PublishItem {
    pub uri: String,
    pub version: Option<i64>,
    pub stored: Option<i64>,
}

/// A publish by value.
pub struct PublishView {
    pub uri: Seq<char>,
    pub version: Option<i64>,
    pub stored: Option<i64>,
}

pub open spec fn publish_view(p: PublishItem) -> PublishView {
    PublishView { uri: p.uri@, version: p.version, stored: p.stored }
}

/// A drained message by value: a publish, or any other message (`None`).
pub open spec fn batch_view(s: Seq<Option<PublishItem>>) -> Seq<Option<PublishView>> {
    s.map_values(
        |m: Option<PublishItem>|
            match m {
                Some(p) => Some(publish_view(p)),
                None => None,
            },
    )
}

/// Per URI, while the drain is scanned: the newest version seen so far (if
/// any publish carried one) and the position of the publish that wins so
/// far.
pub type Winners = Map<Seq<char>, (Option<i64>, int)>;

/// Whether a publish is stale: it carries a version older than the newest
/// seen for its URI in this drain, or else than the stored one.
pub open spec fn stale_in(w: Winners, p: PublishView) -> bool {
    let baseline = if w.contains_key(p.uri) && w[p.uri].0 is Some {
        w[p.uri].0
    } else {
        p.stored
    };
    p.version is Some && baseline is Some && p.version->0 < baseline->0
}

/// The scan after the message at position `idx`.
pub open spec fn scan_step(w: Winners, idx: int, m: Option<PublishView>) -> Winners {
    match m {
        None => w,
        Some(p) => if stale_in(w, p) {
            w
        } else {
            let newest = if p.version is Some {
                p.version
            } else if w.contains_key(p.uri) {
                w[p.uri].0
            } else {
                None
            };
            w.insert(p.uri, (newest, idx))
        },
    }
}

/// The scan after the first `n` messages.
pub open spec fn scan(batch: Seq<Option<PublishView>>, n: int) -> Winners
    decreases n,
{
    if n <= 0 {
        Map::empty()
    } else {
        scan_step(scan(batch, n - 1), n - 1, batch[n - 1])
    }
}

/// Whether the message at `idx` is applied: every other message is; a
/// publish is when it is the winner for its URI over the whole drain.
pub open spec fn applied(batch: Seq<Option<PublishView>>, idx: int) -> bool {
    match batch[idx] {
        None => true,
        Some(p) => {
            let w = scan(batch, batch.len() as int);
            w.contains_key(p.uri) && w[p.uri].1 == idx
        },
    }
}

/// One row of the scan: a URI, its newest version, its winner.
struct Row {
    uri: String,
    newest: Option<i64>,
    winner: usize,
}

spec fn distinct_uris(s: Seq<Row>) -> bool {
    forall|i: int, j: int| 0 <= i < s.len() && 0 <= j < s.len() && i != j ==> s[i].uri@ != s[j].uri@
}

spec fn rows_map(s: Seq<Row>) -> Winners {
    Map::new(
        |u: Seq<char>| exists|i: int| 0 <= i < s.len() && s[i].uri@ == u,
        |u: Seq<char>| {
            let i = choose|i: int| 0 <= i < s.len() && s[i].uri@ == u;
            (s[i].newest, s[i].winner as int)
        },
    )
}

proof fn lemma_rows_at(s: Seq<Row>, i: int)
    requires
        distinct_uris(s),
        0 <= i < s.len(),
    ensures
        rows_map(s).contains_key(s[i].uri@),
        rows_map(s)[s[i].uri@] == (s[i].newest, s[i].winner as int),
{
    let u = s[i].uri@;
    assert(exists|j: int| 0 <= j < s.len() && s[j].uri@ == u);
    let j = choose|j: int| 0 <= j < s.len() && s[j].uri@ == u;
    assert(j == i);
}

proof fn lemma_rows_set(s: Seq<Row>, i: int, e: Row)
    requires
        distinct_uris(s),
        0 <= i < s.len(),
        e.uri@ == s[i].uri@,
    ensures
        distinct_uris(s.update(i, e)),
        rows_map(s.update(i, e)) == rows_map(s).insert(e.uri@, (e.newest, e.winner as int)),
{
    let n = s.update(i, e);
    assert forall|a: int, b: int| 0 <= a < n.len() && 0 <= b < n.len() && a != b implies n[a].uri@ != n[b].uri@ by {
        assert(n[a].uri@ == s[a].uri@ && n[b].uri@ == s[b].uri@);
    }
    let want = rows_map(s).insert(e.uri@, (e.newest, e.winner as int));
    assert forall|u: Seq<char>| rows_map(n).contains_key(u) <==> want.contains_key(u) by {
        if rows_map(n).contains_key(u) {
            let j = choose|j: int| 0 <= j < n.len() && n[j].uri@ == u;
            assert(s[j].uri@ == u);
        }
        if rows_map(s).contains_key(u) {
            let j = choose|j: int| 0 <= j < s.len() && s[j].uri@ == u;
            assert(n[j].uri@ == u);
        }
        if u == e.uri@ {
            assert(n[i].uri@ == u);
        }
    }
    assert forall|u: Seq<char>| #[trigger] rows_map(n).contains_key(u) implies rows_map(n)[u] == want[u] by {
        let j = choose|j: int| 0 <= j < n.len() && n[j].uri@ == u;
        lemma_rows_at(n, j);
        if j != i {
            lemma_rows_at(s, j);
        }
    }
    assert(rows_map(n) =~= want);
}

proof fn lemma_rows_push(s: Seq<Row>, e: Row)
    requires
        distinct_uris(s),
        !rows_map(s).contains_key(e.uri@),
    ensures
        distinct_uris(s.push(e)),
        rows_map(s.push(e)) == rows_map(s).insert(e.uri@, (e.newest, e.winner as int)),
{
    let n = s.push(e);
    assert forall|a: int, b: int| 0 <= a < n.len() && 0 <= b < n.len() && a != b implies n[a].uri@ != n[b].uri@ by {
        if a < s.len() && b < s.len() {
            assert(n[a] == s[a] && n[b] == s[b]);
        } else if a < s.len() {
            assert(n[a] == s[a]);
            assert(rows_map(s).contains_key(s[a].uri@));
        } else {
            assert(n[b] == s[b]);
            assert(rows_map(s).contains_key(s[b].uri@));
        }
    }
    let want = rows_map(s).insert(e.uri@, (e.newest, e.winner as int));
    assert forall|u: Seq<char>| rows_map(n).contains_key(u) <==> want.contains_key(u) by {
        if rows_map(n).contains_key(u) {
            let j = choose|j: int| 0 <= j < n.len() && n[j].uri@ == u;
            if j < s.len() {
                assert(n[j] == s[j]);
            }
        }
        if rows_map(s).contains_key(u) {
            let j = choose|j: int| 0 <= j < s.len() && s[j].uri@ == u;
            assert(n[j] == s[j]);
        }
        if u == e.uri@ {
            assert(n[s.len() as int] == e);
        }
    }
    assert forall|u: Seq<char>| #[trigger] rows_map(n).contains_key(u) implies rows_map(n)[u] == want[u] by {
        let j = choose|j: int| 0 <= j < n.len() && n[j].uri@ == u;
        lemma_rows_at(n, j);
        if j < s.len() {
            assert(n[j] == s[j]);
            lemma_rows_at(s, j);
        }
    }
    assert(rows_map(n) =~= want);
}

fn find_row(rows: &Vec<Row>, uri: &String) -> (r: Option<usize>)
    requires
        distinct_uris(rows@),
    ensures
        match r {
            Some(i) => i < rows@.len() && rows@[i as int].uri@ == uri@,
            None => !rows_map(rows@).contains_key(uri@),
        },
{
    let mut i: usize = 0;
    while i < rows.len()
        invariant
            0 <= i <= rows@.len(),
            forall|k: int| 0 <= k < i ==> rows@[k].uri@ != uri@,
        decreases rows@.len() - i,
    {
        if rows[i].uri == *uri {
            return Some(i);
        }
        i = i + 1;
    }
    proof {
        if rows_map(rows@).contains_key(uri@) {
            let k = choose|k: int| 0 <= k < rows@.len() && rows@[k].uri@ == uri@;
        }
    }
    None
}

/// Which drained messages to apply, position by position; see `applied`.
pub fn coalesce_publishes(batch: &Vec<Option<PublishItem>>) -> (r: Vec<bool>)
    ensures
        r@.len() == batch@.len(),
        forall|idx: int| 0 <= idx < batch@.len() ==> #[trigger] r@[idx] == applied(batch_view(batch@), idx),
{
    let ghost bv = batch_view(batch@);
    let mut rows: Vec<Row> = Vec::new();
    let mut n: usize = 0;
    proof {
        assert(rows_map(rows@) =~= scan(bv, 0));
    }
    while n < batch.len()
        invariant
            0 <= n <= batch@.len(),
            bv == batch_view(batch@),
            distinct_uris(rows@),
            rows_map(rows@) == scan(bv, n as int),
            forall|k: int| 0 <= k < rows@.len() ==> (#[trigger] rows@[k]).winner < n,
        decreases batch@.len() - n,
    {
        let ghost w = rows_map(rows@);
        match &batch[n] {
            None => {},
            Some(p) => {
                let pos = find_row(&rows, &p.uri);
                let running = match pos {
                    Some(i) => rows[i].newest,
                    None => None,
                };
                let baseline = match running {
                    Some(v) => Some(v),
                    None => p.stored,
                };
                proof {
                    if let Some(i) = pos {
                        lemma_rows_at(rows@, i as int);
                    }
                    assert(bv[n as int] == Some(publish_view(*p)));
                }
                let stale = match (p.version, baseline) {
                    (Some(v), Some(last)) => v < last,
                    _ => false,
                };
                if !stale {
                    let newest = match p.version {
                        Some(v) => Some(v),
                        None => running,
                    };
                    match pos {
                        Some(i) => {
                            let row = Row { uri: p.uri.clone(), newest, winner: n };
                            proof {
                                lemma_rows_set(rows@, i as int, row);
                            }
                            rows.set(i, row);
                        },
                        None => {
                            let row = Row { uri: p.uri.clone(), newest, winner: n };
                            proof {
                                lemma_rows_push(rows@, row);
                            }
                            rows.push(row);
                        },
                    }
                }
            },
        }
        proof {
            assert(scan(bv, n + 1) == scan_step(scan(bv, n as int), n as int, bv[n as int]));
        }
        n = n + 1;
    }
    let mut r: Vec<bool> = Vec::new();
    let mut idx: usize = 0;
    while idx < batch.len()
        invariant
            0 <= idx <= batch@.len(),
            bv == batch_view(batch@),
            distinct_uris(rows@),
            rows_map(rows@) == scan(bv, bv.len() as int),
            r@.len() == idx,
            forall|k: int| 0 <= k < idx ==> #[trigger] r@[k] == applied(bv, k),
        decreases batch@.len() - idx,
    {
        let keep = match &batch[idx] {
            None => true,
            Some(p) => {
                proof {
                    assert(bv[idx as int] == Some(publish_view(*p)));
                }
                match find_row(&rows, &p.uri) {
                    Some(i) => {
                        proof {
                            lemma_rows_at(rows@, i as int);
                        }
                        rows[i].winner == idx
                    },
                    None => false,
                }
            },
        };
        r.push(keep);
        idx = idx + 1;
    }
    r
}

/// At most one publish per URI is applied from a drain.
pub proof fn law_one_publish_per_uri(batch: Seq<Option<PublishView>>, a: int, b: int)
    requires
        0 <= a < batch.len(),
        0 <= b < batch.len(),
        a != b,
        batch[a] matches Some(p) && batch[b] matches Some(q) && p.uri == q.uri,
    ensures
        !(applied(batch, a) && applied(batch, b)),
{
}

/// Messages other than publishes are always applied.
pub proof fn law_other_messages_pass(batch: Seq<Option<PublishView>>, idx: int)
    requires
        0 <= idx < batch.len(),
        batch[idx] is None,
    ensures
        applied(batch, idx),
{
}


proof fn lemma_scan_bounds(batch: Seq<Option<PublishView>>, n: int)
    requires
        0 <= n <= batch.len(),
    ensures
        forall|u: Seq<char>| #[trigger] scan(batch, n).contains_key(u) ==> 0 <= scan(batch, n)[u].1 < n,
    decreases n,
{
    if n > 0 {
        lemma_scan_bounds(batch, n - 1);
        assert(scan(batch, n) == scan_step(scan(batch, n - 1), n - 1, batch[n - 1]));
        assert forall|u: Seq<char>| #[trigger] scan(batch, n).contains_key(u) implies 0 <= scan(batch, n)[u].1 < n by {
            if scan(batch, n - 1).contains_key(u) {
                assert(scan(batch, n - 1)[u].1 < n - 1);
            }
        }
    }
}

proof fn lemma_scan_keeps(batch: Seq<Option<PublishView>>, n: int, m: int, u: Seq<char>)
    requires
        0 <= n <= m <= batch.len(),
        scan(batch, n).contains_key(u),
    ensures
        scan(batch, m).contains_key(u),
        scan(batch, m)[u].1 >= scan(batch, n)[u].1,
    decreases m - n,
{
    if m > n {
        lemma_scan_keeps(batch, n, m - 1, u);
        lemma_scan_bounds(batch, m - 1);
    }
}

/// The publish applied for a URI is the last one in the drain that was not
/// stale when it came: every later publish for that URI was older than
/// what had been seen.
pub proof fn law_applied_publish_is_the_last_fresh_one(batch: Seq<Option<PublishView>>, a: int, b: int)
    requires
        0 <= a < b < batch.len(),
        batch[a] matches Some(p) && batch[b] matches Some(q) && p.uri == q.uri,
        applied(batch, a),
    ensures
        stale_in(scan(batch, b), batch[b]->0),
{
    let q = batch[b]->0;
    if !stale_in(scan(batch, b), q) {
        assert(scan(batch, b + 1) == scan_step(scan(batch, b), b, batch[b]));
        assert(scan(batch, b + 1)[q.uri].1 == b);
        lemma_scan_keeps(batch, b + 1, batch.len() as int, q.uri);
    }
}

/// Every publish for `uri` in the drain was read against the same stored
/// version: the one stored before the drain.
pub open spec fn stored_before(batch: Seq<Option<PublishView>>, uri: Seq<char>, stored: Option<i64>) -> bool {
    forall|i: int|
        0 <= i < batch.len() && (#[trigger] batch[i]) is Some && batch[i]->0.uri == uri ==> batch[i]->0.stored == stored
}

proof fn lemma_newest_not_below_stored(batch: Seq<Option<PublishView>>, n: int, uri: Seq<char>, stored: Option<i64>)
    requires
        0 <= n <= batch.len(),
        stored_before(batch, uri, stored),
    ensures
        scan(batch, n).contains_key(uri) && scan(batch, n)[uri].0 is Some && stored is Some ==> stored->0 <= scan(
            batch,
            n,
        )[uri].0->0,
    decreases n,
{
    if n > 0 {
        lemma_newest_not_below_stored(batch, n - 1, uri, stored);
        assert(scan(batch, n) == scan_step(scan(batch, n - 1), n - 1, batch[n - 1]));
    }
}

proof fn lemma_winner_was_fresh(batch: Seq<Option<PublishView>>, n: int, uri: Seq<char>)
    requires
        0 <= n <= batch.len(),
        scan(batch, n).contains_key(uri),
    ensures
        0 <= scan(batch, n)[uri].1 < n,
        batch[scan(batch, n)[uri].1] matches Some(p) && p.uri == uri && !stale_in(
            scan(batch, scan(batch, n)[uri].1),
            p,
        ),
    decreases n,
{
    assert(scan(batch, n) == scan_step(scan(batch, n - 1), n - 1, batch[n - 1]));
    if scan(batch, n - 1).contains_key(uri) && scan(batch, n)[uri] == scan(batch, n - 1)[uri] {
        lemma_winner_was_fresh(batch, n - 1, uri);
    }
}

/// Over one drain, the publish applied for a URI is one the store keeps:
/// measured against the version stored before the drain it is not stale,
/// so the URI's diagnostics become those of the last publish that was fresh
/// when it came, and the version stored for the URI does not go back.
pub proof fn law_a_drain_stores_its_last_fresh_publish(batch: Seq<Option<PublishView>>, a: int)
    requires
        0 <= a < batch.len(),
        batch[a] is Some,
        applied(batch, a),
        stored_before(batch, batch[a]->0.uri, batch[a]->0.stored),
    ensures
        !(batch[a]->0.version is Some && batch[a]->0.stored is Some && batch[a]->0.version->0
            < batch[a]->0.stored->0),
        batch[a]->0.stored matches Some(l) ==> (if batch[a]->0.version is Some {
            batch[a]->0.version
        } else {
            batch[a]->0.stored
        }) matches Some(v) && l <= v,
{
    let p = batch[a]->0;
    let n = batch.len() as int;
    lemma_winner_was_fresh(batch, n, p.uri);
    lemma_newest_not_below_stored(batch, a, p.uri, p.stored);
}

} // verus!
