//! Worker-local reuse of normalized inline results. No source text is
//! persisted; entry count and retained payload are bounded.

use std::collections::VecDeque;
use std::hash::{DefaultHasher, Hash, Hasher};

use vstd::prelude::*;

use crate::completion::{
    chunks_copy, chunks_eq, chunks_view, opt_string_copy, opt_string_eq, opt_view, strings_view,
    ChunkView, ContextChunk, InlineJob, InlineRequest, JobView, ProviderConfig, ProviderView, RequestView,
};
use crate::text::{byte_len, chars_of, string_of_range};

verus! {

/// At most this many results are retained.
pub const ENTRY_LIMIT: usize = 256;

/// At most this many bytes of requests and results are retained.
pub const PAYLOAD_LIMIT: usize = 8388608;

/// A result keeps at most this many alternatives.
pub const MAX_ALTERNATIVES: usize = 3;

/// The prompt keeps at most this many characters before the cursor.
pub const PREFIX_BUDGET_CHARS: usize = 2048;

/// Bytes charged for each context chunk record, besides its text.
pub const CHUNK_RECORD_BYTES: usize = 48;

/// Bytes charged for each retained string record, besides its text.
pub const STRING_RECORD_BYTES: usize = 24;

/// What `DefaultHasher::new` computes for a prefix of the given characters.
pub uninterp spec fn std_prefix_hash(prefix: Seq<char>) -> u64;

/// Hash of a request prefix, used as a cheap first filter for exact replays.
///
/// Feeds the string to a fresh `DefaultHasher` (`<str as Hash>::hash`, then
/// `Hasher::finish`). The contract claims only that the result is a function
/// of the characters: `DefaultHasher::new` documents that all instances it
/// creates are the same.
#[verifier::external_body]
pub fn prefix_hash(prefix: &str) -> (h: u64)
    ensures
        h == std_prefix_hash(prefix@),
{
    let mut hash = DefaultHasher::new();
    prefix.hash(&mut hash);
    hash.finish()
}

// ---------------------------------------------------------------------------
// Cursor arithmetic

/// The editor position after one more character: LF starts a new row at
/// column zero, anything else (CR included) advances the column.
pub open spec fn advance(p: (int, int), c: char) -> (int, int) {
    if c == '\n' {
        (p.0 + 1, 0)
    } else {
        (p.0, p.1 + 1)
    }
}

/// The position reached from `start` after the first `n` characters of `text`.
pub open spec fn position_after(text: Seq<char>, start: (int, int), n: int) -> (int, int)
    decreases n,
{
    if n <= 0 || n > text.len() {
        start
    } else {
        advance(position_after(text, start, n - 1), text[n - 1])
    }
}

/// Row-major order of positions.
pub open spec fn before(a: (int, int), b: (int, int)) -> bool {
    a.0 < b.0 || (a.0 == b.0 && a.1 < b.1)
}

/// How many characters of a candidate the cursor consumed in moving from
/// `start` to `target`: the `n >= 1` after which the position is exactly
/// `target`, if there is one.
pub open spec fn consumed_spec(text: Seq<char>, start: (int, int), target: (int, int)) -> Option<int> {
    if exists|n: int| 1 <= n <= text.len() && position_after(text, start, n) == target {
        Some(choose|n: int| 1 <= n <= text.len() && position_after(text, start, n) == target)
    } else {
        None
    }
}

/// Positions strictly increase along the text.
pub proof fn lemma_position_increases(text: Seq<char>, start: (int, int), k: int, m: int)
    requires
        0 <= k < m <= text.len(),
    ensures
        before(position_after(text, start, k), position_after(text, start, m)),
    decreases m - k,
{
    if m - 1 > k {
        lemma_position_increases(text, start, k, m - 1);
    }
}

/// Locate the new cursor in a candidate using the editor's character-column
/// convention: the number of characters typed, if the cursor stands inside
/// or at the end of the candidate.
fn consumed_at_cursor(text: &Vec<char>, old: (usize, usize), new: (usize, usize)) -> (r: Option<usize>)
    ensures
        match r {
            Some(n) => consumed_spec(text@, (old.0 as int, old.1 as int), (new.0 as int, new.1 as int))
                == Some(n as int),
            None => consumed_spec(text@, (old.0 as int, old.1 as int), (new.0 as int, new.1 as int))
                is None,
        },
{
    let ghost start = (old.0 as int, old.1 as int);
    let ghost target = (new.0 as int, new.1 as int);
    let tl = new.0 as u128;
    let tc = new.1 as u128;
    let mut pl = old.0 as u128;
    let mut pc = old.1 as u128;
    if !(pl < tl || (pl == tl && pc < tc)) {
        assert forall|n: int| 1 <= n <= text@.len() implies position_after(text@, start, n)
            != target by {
            lemma_position_increases(text@, start, 0, n);
        }
        return None;
    }
    let mut i: usize = 0;
    while i < text.len()
        invariant
            0 <= i <= text@.len(),
            (pl as int, pc as int) == position_after(text@, start, i as int),
            pl <= old.0 + i,
            pc <= old.1 + i,
            before((pl as int, pc as int), target),
            tl == new.0,
            tc == new.1,
            start == (old.0 as int, old.1 as int),
            target == (new.0 as int, new.1 as int),
            forall|m: int| 1 <= m <= i ==> position_after(text@, start, m) != target,
        decreases text.len() - i,
    {
        if text[i] == '\n' {
            pl = pl + 1;
            pc = 0;
        } else {
            pc = pc + 1;
        }
        assert((pl as int, pc as int) == position_after(text@, start, i + 1));
        if pl == tl && pc == tc {
            proof {
                let n = i + 1;
                assert(position_after(text@, start, n as int) == target);
                let c = choose|c: int| 1 <= c <= text@.len() && position_after(text@, start, c) == target;
                if c < n {
                    lemma_position_increases(text@, start, c, n as int);
                } else if c > n {
                    lemma_position_increases(text@, start, n as int, c);
                }
            }
            return Some(i + 1);
        }
        if tl < pl || (tl == pl && tc < pc) {
            assert forall|n: int| 1 <= n <= text@.len() implies position_after(text@, start, n)
                != target by {
                if n > i + 1 {
                    lemma_position_increases(text@, start, i + 1, n);
                }
            }
            return None;
        }
        i = i + 1;
    }
    None
}

// ---------------------------------------------------------------------------
// Replaying a stored result

/// The prompt that typing `typed` after `old_prefix` would produce (its last
/// `PREFIX_BUDGET_CHARS` characters) is exactly `new_prefix`.
pub open spec fn window_matches(old_prefix: Seq<char>, typed: Seq<char>, new_prefix: Seq<char>) -> bool {
    let w = old_prefix + typed;
    let k = if w.len() < PREFIX_BUDGET_CHARS { w.len() as int } else { PREFIX_BUDGET_CHARS as int };
    new_prefix == w.subrange(w.len() - k, w.len() as int)
}

fn window_matches_exec(old_prefix: &Vec<char>, text: &Vec<char>, typed: usize, new_prefix: &Vec<char>) -> (r: bool)
    requires
        typed <= text@.len(),
    ensures
        r == window_matches(old_prefix@, text@.take(typed as int), new_prefix@),
{
    let ghost w = old_prefix@ + text@.take(typed as int);
    let ol = old_prefix.len();
    let wl: u128 = ol as u128 + typed as u128;
    let k: u128 = if wl < PREFIX_BUDGET_CHARS as u128 { wl } else { PREFIX_BUDGET_CHARS as u128 };
    assert(w.len() == wl);
    if new_prefix.len() as u128 != k {
        return false;
    }
    let nl = new_prefix.len();
    let mut j: usize = 0;
    while j < nl
        invariant
            nl == new_prefix@.len(),
            nl == k,
            k <= wl,
            wl == ol + typed,
            ol == old_prefix@.len(),
            typed <= text@.len(),
            w == old_prefix@ + text@.take(typed as int),
            w.len() == wl,
            0 <= j <= nl,
            forall|q: int| 0 <= q < j ==> new_prefix@[q] == w[wl - k + q],
        decreases nl - j,
    {
        let idx: u128 = wl - k + j as u128;
        let c = if idx < ol as u128 {
            old_prefix[idx as usize]
        } else {
            text[(idx - ol as u128) as usize]
        };
        if new_prefix[j] != c {
            assert(new_prefix@[j as int] != w.subrange(wl - k, wl as int)[j as int]);
            return false;
        }
        j = j + 1;
    }
    assert(new_prefix@ =~= w.subrange(wl - k, wl as int));
    true
}

/// What one served candidate still offers after the cursor moved from `old`
/// to `new`: the untyped remainder, when the typed part is exactly what the
/// new prompt shows and something remains.
pub open spec fn partial_one(text: Seq<char>, old: RequestView, new: RequestView) -> Option<Seq<char>> {
    match consumed_spec(
        text,
        (old.snapshot.line as int, old.snapshot.column as int),
        (new.snapshot.line as int, new.snapshot.column as int),
    ) {
        None => None,
        Some(k) => if k == text.len() {
            None
        } else if window_matches(old.prefix, text.take(k), new.prefix) {
            Some(text.skip(k))
        } else {
            None
        },
    }
}

/// The remainders of all served candidates, in order.
pub open spec fn partial_all(served: Seq<Seq<char>>, old: RequestView, new: RequestView) -> Seq<Seq<char>>
    decreases served.len(),
{
    if served.len() == 0 {
        Seq::empty()
    } else {
        let rest = partial_all(served.drop_last(), old, new);
        match partial_one(served.last(), old, new) {
            Some(t) => rest.push(t),
            None => rest,
        }
    }
}


// ---------------------------------------------------------------------------
// Entries

/// Bytes of the UTF-8 encoding of `s`.
pub open spec fn blen(s: Seq<char>) -> int {
    vstd::utf8::encode_utf8(s).len() as int
}

pub open spec fn opt_blen(o: Option<Seq<char>>) -> int {
    match o {
        Some(s) => blen(s),
        None => 0,
    }
}

pub open spec fn chunks_blen(cs: Seq<ChunkView>) -> int
    decreases cs.len(),
{
    if cs.len() == 0 {
        0
    } else {
        chunks_blen(cs.drop_last()) + blen(cs.last().filename) + blen(cs.last().text)
    }
}

pub open spec fn strs_blen(ss: Seq<Seq<char>>) -> int
    decreases ss.len(),
{
    if ss.len() == 0 {
        0
    } else {
        strs_blen(ss.drop_last()) + blen(ss.last())
    }
}

/// Bytes charged for retaining a result: every retained string plus a fixed
/// record size for each chunk and each alternative.
pub open spec fn entry_payload(
    r: RequestView,
    p: ProviderView,
    texts: Seq<Seq<char>>,
    served: Seq<Seq<char>>,
) -> int {
    blen(r.prefix) + blen(r.suffix) + r.extra_context.len() * CHUNK_RECORD_BYTES + chunks_blen(
        r.extra_context,
    ) + opt_blen(r.language) + opt_blen(r.file_path) + blen(p.url) + opt_blen(p.model) + opt_blen(
        p.api_key_env,
    ) + texts.len() * STRING_RECORD_BYTES + strs_blen(texts) + served.len() * STRING_RECORD_BYTES
        + strs_blen(served)
}

/// `x`, saturated at `usize::MAX`.
pub open spec fn capped(x: int) -> int {
    if x > usize::MAX {
        usize::MAX as int
    } else {
        x
    }
}

fn sat_add(a: usize, b: usize) -> (r: usize)
    ensures
        r == capped(a + b),
{
    a.saturating_add(b)
}

fn sat_mul(a: usize, b: usize) -> (r: usize)
    requires
        b > 0,
    ensures
        r == capped(a * b),
{
    if a > usize::MAX / b {
        assert(a * b > usize::MAX) by (nonlinear_arith)
            requires
                a > usize::MAX / b,
                b > 0,
        ;
        usize::MAX
    } else {
        assert(a * b <= usize::MAX) by (nonlinear_arith)
            requires
                a <= usize::MAX / b,
                b > 0,
        ;
        a * b
    }
}

fn str_bytes(s: &String) -> (r: usize)
    ensures
        r == blen(s@),
{
    byte_len(s)
}

fn opt_bytes(o: &Option<String>) -> (r: usize)
    ensures
        r == opt_blen(opt_view(*o)),
{
    match o {
        Some(s) => str_bytes(s),
        None => 0,
    }
}

fn chunks_bytes(cs: &Vec<ContextChunk>) -> (r: usize)
    ensures
        r == capped(chunks_blen(chunks_view(cs@))),
{
    let mut acc: usize = 0;
    let mut i: usize = 0;
    while i < cs.len()
        invariant
            0 <= i <= cs.len(),
            acc == capped(chunks_blen(chunks_view(cs@).take(i as int))),
        decreases cs.len() - i,
    {
        proof {
            lemma_chunks_blen_nonneg(chunks_view(cs@).take(i as int));
            assert(chunks_view(cs@).take(i + 1).drop_last() =~= chunks_view(cs@).take(i as int));
        }
        acc = sat_add(acc, str_bytes(&cs[i].filename));
        acc = sat_add(acc, str_bytes(&cs[i].text));
        i = i + 1;
    }
    assert(chunks_view(cs@).take(cs.len() as int) =~= chunks_view(cs@));
    acc
}

fn strs_bytes(ss: &Vec<String>) -> (r: usize)
    ensures
        r == capped(strs_blen(strings_view(ss@))),
{
    let mut acc: usize = 0;
    let mut i: usize = 0;
    while i < ss.len()
        invariant
            0 <= i <= ss.len(),
            acc == capped(strs_blen(strings_view(ss@).take(i as int))),
        decreases ss.len() - i,
    {
        proof {
            lemma_strs_blen_nonneg(strings_view(ss@).take(i as int));
            assert(strings_view(ss@).take(i + 1).drop_last() =~= strings_view(ss@).take(i as int));
        }
        acc = sat_add(acc, str_bytes(&ss[i]));
        i = i + 1;
    }
    assert(strings_view(ss@).take(ss.len() as int) =~= strings_view(ss@));
    acc
}

pub proof fn lemma_chunks_blen_nonneg(cs: Seq<ChunkView>)
    ensures
        chunks_blen(cs) >= 0,
    decreases cs.len(),
{
    if cs.len() > 0 {
        lemma_chunks_blen_nonneg(cs.drop_last());
    }
}

pub proof fn lemma_strs_blen_nonneg(ss: Seq<Seq<char>>)
    ensures
        strs_blen(ss) >= 0,
    decreases ss.len(),
{
    if ss.len() > 0 {
        lemma_strs_blen_nonneg(ss.drop_last());
    }
}

/// The first `n` strings (at most all of them), copied.
fn strings_prefix(v: &[String], n: usize) -> (r: Vec<String>)
    ensures
        strings_view(r@) == strings_view(v@).take(if v@.len() < n { v@.len() as int } else { n as int }),
{
    let end = if v.len() < n { v.len() } else { n };
    let mut r: Vec<String> = Vec::new();
    let mut i: usize = 0;
    while i < end
        invariant
            end <= v@.len(),
            0 <= i <= end,
            r@.len() == i,
            forall|j: int| 0 <= j < i ==> r@[j]@ == v@[j]@,
        decreases end - i,
    {
        r.push(v[i].clone());
        i = i + 1;
    }
    assert(strings_view(r@) =~= strings_view(v@).take(end as int));
    r
}

struct Entry {
    request: InlineRequest,
    provider: ProviderConfig,
    prefix_hash: u64,
    texts: Vec<String>,
    served: Vec<String>,
    payload_bytes: usize,
}

/// A retained result: the request and provider it answered, the raw
/// alternatives, the alternatives as they were shown, and its charged size.
pub ghost struct EntryView {
    pub request: RequestView,
    pub provider: ProviderView,
    pub prefix_hash: u64,
    pub texts: Seq<Seq<char>>,
    pub served: Seq<Seq<char>>,
    pub payload: int,
}

impl View for Entry {
    type V = EntryView;

    closed spec fn view(&self) -> EntryView {
        EntryView {
            request: self.request@,
            provider: self.provider@,
            prefix_hash: self.prefix_hash,
            texts: strings_view(self.texts@),
            served: strings_view(self.served@),
            payload: self.payload_bytes as int,
        }
    }
}

/// Same document, provider, language, path, text after the cursor and extra
/// context: everything but the cursor and the prefix.
pub open spec fn same_origin(e: EntryView, job: JobView) -> bool {
    &&& e.request.snapshot.document_id == job.request.snapshot.document_id
    &&& e.provider == job.provider
    &&& e.request.language == job.request.language
    &&& e.request.file_path == job.request.file_path
    &&& e.request.suffix == job.request.suffix
    &&& e.request.extra_context == job.request.extra_context
}

/// The same origin, cursor and prefix: the very prompt the entry answered.
pub open spec fn same_context(e: EntryView, job: JobView) -> bool {
    &&& same_origin(e, job)
    &&& e.request.snapshot.line == job.request.snapshot.line
    &&& e.request.snapshot.column == job.request.snapshot.column
    &&& e.request.prefix == job.request.prefix
}

/// Two entries answer the same prompt.
pub open spec fn same_entry_context(a: EntryView, b: EntryView) -> bool {
    same_context(a, JobView { request: b.request, provider: b.provider })
}

/// What an entry offers to a request: its raw alternatives for the exact
/// prompt, otherwise the remainders of the served alternatives the user has
/// been typing, if any.
#[verifier::opaque]
pub open spec fn replay_spec(e: EntryView, job: JobView) -> Option<Seq<Seq<char>>> {
    if !same_origin(e, job) {
        None
    } else if e.prefix_hash == std_prefix_hash(job.request.prefix) && same_context(e, job) {
        Some(e.texts)
    } else {
        let p = partial_all(e.served, e.request, job.request);
        if p.len() == 0 {
            None
        } else {
            Some(p)
        }
    }
}

pub open spec fn opt_strings_view(o: Option<Vec<String>>) -> Option<Seq<Seq<char>>> {
    match o {
        Some(v) => Some(strings_view(v@)),
        None => None,
    }
}

impl Entry {
    fn matches_origin(&self, job: &InlineJob) -> (r: bool)
        ensures
            r == same_origin(self@, job@),
    {
        self.request.snapshot.document_id == job.request.snapshot.document_id
            && self.provider.same_as(&job.provider) && opt_string_eq(
            &self.request.language,
            &job.request.language,
        ) && opt_string_eq(&self.request.file_path, &job.request.file_path)
            && self.request.suffix == job.request.suffix && chunks_eq(
            &self.request.extra_context,
            &job.request.extra_context,
        )
    }

    fn matches_context(&self, job: &InlineJob) -> (r: bool)
        ensures
            r == same_context(self@, job@),
    {
        self.matches_origin(job) && self.request.snapshot.line == job.request.snapshot.line
            && self.request.snapshot.column == job.request.snapshot.column && self.request.prefix
            == job.request.prefix
    }

    fn replay(&self, job: &InlineJob, hash: u64) -> (r: Option<Vec<String>>)
        requires
            hash == std_prefix_hash(job@.request.prefix),
        ensures
            opt_strings_view(r) == replay_spec(self@, job@),
    {
        reveal(replay_spec);
        if !self.matches_origin(job) {
            return None;
        }
        if self.prefix_hash == hash && self.matches_context(job) {
            return Some(strings_prefix(self.texts.as_slice(), self.texts.len()));
        }
        let ghost served = strings_view(self.served@);
        let ghost old = self.request@;
        let ghost new = job.request@;
        let old_prefix = chars_of(&self.request.prefix);
        let new_prefix = chars_of(&job.request.prefix);
        let from = (self.request.snapshot.line, self.request.snapshot.column);
        let to = (job.request.snapshot.line, job.request.snapshot.column);
        let mut out: Vec<String> = Vec::new();
        let mut i: usize = 0;
        while i < self.served.len()
            invariant
                0 <= i <= self.served@.len(),
                served == strings_view(self.served@),
                old == self.request@,
                new == job.request@,
                old_prefix@ == old.prefix,
                new_prefix@ == new.prefix,
                from == (old.snapshot.line, old.snapshot.column),
                to == (new.snapshot.line, new.snapshot.column),
                strings_view(out@) == partial_all(served.take(i as int), old, new),
            decreases self.served@.len() - i,
        {
            let t = chars_of(&self.served[i]);
            assert(served.take(i + 1).drop_last() =~= served.take(i as int));
            assert(served.take(i + 1).last() == t@);
            match consumed_at_cursor(&t, from, to) {
                Some(k) => {
                    if k < t.len() && window_matches_exec(&old_prefix, &t, k, &new_prefix) {
                        let rest = string_of_range(t.as_slice(), k, t.len());
                        assert(rest@ =~= t@.skip(k as int));
                        out.push(rest);
                        assert(strings_view(out@) =~= partial_all(served.take(i + 1), old, new));
                    } else {
                        assert(strings_view(out@) =~= partial_all(served.take(i + 1), old, new));
                    }
                },
                None => {
                    assert(strings_view(out@) =~= partial_all(served.take(i + 1), old, new));
                },
            }
            i = i + 1;
        }
        assert(served.take(self.served@.len() as int) =~= served);
        if out.len() == 0 {
            None
        } else {
            Some(out)
        }
    }
}


// ---------------------------------------------------------------------------
// The cache

pub open spec fn sum_payload(es: Seq<EntryView>) -> int
    decreases es.len(),
{
    if es.len() == 0 {
        0
    } else {
        es[0].payload + sum_payload(es.drop_first())
    }
}

pub proof fn lemma_sum_push(es: Seq<EntryView>, e: EntryView)
    ensures
        sum_payload(es.push(e)) == sum_payload(es) + e.payload,
    decreases es.len(),
{
    assert(es.push(e)[0] == if es.len() > 0 { es[0] } else { e });
    if es.len() > 0 {
        assert(es.push(e).drop_first() =~= es.drop_first().push(e));
        lemma_sum_push(es.drop_first(), e);
    } else {
        assert(es.push(e).drop_first() =~= Seq::<EntryView>::empty());
        assert(sum_payload(Seq::<EntryView>::empty()) == 0);
    }
}

pub proof fn lemma_sum_remove(es: Seq<EntryView>, i: int)
    requires
        0 <= i < es.len(),
    ensures
        sum_payload(es) == sum_payload(es.remove(i)) + es[i].payload,
    decreases i,
{
    if i == 0 {
        assert(es.remove(0) =~= es.drop_first());
    } else {
        assert(es.remove(i).drop_first() =~= es.drop_first().remove(i - 1));
        lemma_sum_remove(es.drop_first(), i - 1);
    }
}

pub proof fn lemma_sum_nonneg(es: Seq<EntryView>)
    requires
        forall|k: int| 0 <= k < es.len() ==> es[k].payload >= 0,
    ensures
        sum_payload(es) >= 0,
    decreases es.len(),
{
    if es.len() > 0 {
        lemma_sum_nonneg(es.drop_first());
    }
}

/// A well-formed entry: hashed by its prefix, holding one to
/// `MAX_ALTERNATIVES` raw and served alternatives, charged its exact size,
/// which fits the payload limit.
pub open spec fn entry_ok(e: EntryView) -> bool {
    &&& e.prefix_hash == std_prefix_hash(e.request.prefix)
    &&& 0 < e.texts.len() <= MAX_ALTERNATIVES
    &&& 0 < e.served.len() <= MAX_ALTERNATIVES
    &&& e.payload == entry_payload(e.request, e.provider, e.texts, e.served)
    &&& 0 <= e.payload <= PAYLOAD_LIMIT
}

/// The cache's invariant over its entries, least recently used first: within
/// both limits, every entry well formed, no two answering the same prompt.
#[verifier::opaque]
pub open spec fn entries_wf(es: Seq<EntryView>) -> bool {
    &&& es.len() <= ENTRY_LIMIT
    &&& forall|k: int| 0 <= k < es.len() ==> entry_ok(#[trigger] es[k])
    &&& forall|i: int, j: int|
        0 <= i < es.len() && 0 <= j < es.len() && i != j ==> !same_entry_context(
            #[trigger] es[i],
            #[trigger] es[j],
        )
    &&& sum_payload(es) <= PAYLOAD_LIMIT
}

/// The most recently used entry that offers something to `job`, among the
/// first `n`; -1 if none does.
pub open spec fn last_hit(es: Seq<EntryView>, job: JobView, n: int) -> int
    decreases n,
{
    if n <= 0 {
        -1
    } else if replay_spec(es[n - 1], job) is Some {
        n - 1
    } else {
        last_hit(es, job, n - 1)
    }
}

/// What a lookup answers and the entries it leaves: explicit requests always
/// go to the provider; otherwise the most recently used entry that offers
/// something answers and becomes the most recently used.
pub open spec fn get_spec(es: Seq<EntryView>, job: JobView) -> (Option<Seq<Seq<char>>>, Seq<EntryView>) {
    if job.request.explicit {
        (None, es)
    } else {
        let i = last_hit(es, job, es.len() as int);
        if i < 0 {
            (None, es)
        } else {
            (replay_spec(es[i], job), es.remove(i).push(es[i]))
        }
    }
}

/// The first entry from index `i` on that answers exactly `job`'s prompt; -1
/// if none does.
pub open spec fn first_context_from(es: Seq<EntryView>, job: JobView, i: int) -> int
    decreases es.len() - i,
{
    if i < 0 || i >= es.len() {
        -1
    } else if same_context(es[i], job) {
        i
    } else {
        first_context_from(es, job, i + 1)
    }
}

/// Drop least recently used entries until one more of size `p` fits both
/// limits.
pub open spec fn evict(es: Seq<EntryView>, p: int) -> Seq<EntryView>
    decreases es.len(),
{
    if es.len() > 0 && (es.len() >= ENTRY_LIMIT || sum_payload(es) + p > PAYLOAD_LIMIT) {
        evict(es.drop_first(), p)
    } else {
        es
    }
}

/// The first `MAX_ALTERNATIVES` alternatives (all of them if fewer).
pub open spec fn take_alternatives(v: Seq<Seq<char>>) -> Seq<Seq<char>> {
    v.take(if v.len() < MAX_ALTERNATIVES { v.len() as int } else { MAX_ALTERNATIVES as int })
}

/// The entry recorded for `job`'s answer.
pub open spec fn new_entry(job: JobView, texts: Seq<Seq<char>>, served: Seq<Seq<char>>) -> EntryView {
    let t = take_alternatives(texts);
    let s = take_alternatives(served);
    EntryView {
        request: job.request,
        provider: job.provider,
        prefix_hash: std_prefix_hash(job.request.prefix),
        texts: t,
        served: s,
        payload: entry_payload(job.request, job.provider, t, s),
    }
}

/// Recording an answer: any older answer to the same prompt is forgotten;
/// an answer with no raw or no served alternative, or one larger than the
/// payload limit, is not kept; otherwise the least recently used entries
/// make room and the answer becomes the most recently used.
pub open spec fn insert_spec(
    es: Seq<EntryView>,
    job: JobView,
    texts: Seq<Seq<char>>,
    served: Seq<Seq<char>>,
) -> Seq<EntryView> {
    let i = first_context_from(es, job, 0);
    let kept = if i >= 0 {
        es.remove(i)
    } else {
        es
    };
    if texts.len() == 0 || served.len() == 0 {
        kept
    } else {
        let e = new_entry(job, texts, served);
        if e.payload > PAYLOAD_LIMIT {
            kept
        } else {
            evict(kept, e.payload).push(e)
        }
    }
}

proof fn lemma_wf_push(es: Seq<EntryView>, e: EntryView)
    requires
        entries_wf(es),
        entry_ok(e),
        es.len() < ENTRY_LIMIT,
        sum_payload(es) + e.payload <= PAYLOAD_LIMIT,
        forall|k: int| 0 <= k < es.len() ==> !same_entry_context(#[trigger] es[k], e),
    ensures
        entries_wf(es.push(e)),
{
    reveal(entries_wf);
    let ns = es.push(e);
    lemma_sum_push(es, e);
    assert forall|a: int, b: int|
        0 <= a < ns.len() && 0 <= b < ns.len() && a != b implies !same_entry_context(
        #[trigger] ns[a],
        #[trigger] ns[b],
    ) by {
        if a < es.len() && b < es.len() {
            assert(ns[a] == es[a] && ns[b] == es[b]);
        } else if a < es.len() {
            assert(ns[a] == es[a] && ns[b] == e);
        } else {
            assert(ns[b] == es[b] && ns[a] == e);
            assert(!same_entry_context(es[b], e));
        }
    }
    assert forall|q: int| 0 <= q < ns.len() implies entry_ok(#[trigger] ns[q]) by {
        if q < es.len() {
            assert(ns[q] == es[q]);
        }
    }
}

proof fn lemma_wf_remove(es: Seq<EntryView>, k: int)
    requires
        entries_wf(es),
        0 <= k < es.len(),
    ensures
        entries_wf(es.remove(k)),
        sum_payload(es.remove(k)) == sum_payload(es) - es[k].payload,
        sum_payload(es.remove(k)) >= 0,
{
    reveal(entries_wf);
    let ns = es.remove(k);
    lemma_sum_remove(es, k);
    assert forall|a: int, b: int|
        0 <= a < ns.len() && 0 <= b < ns.len() && a != b implies !same_entry_context(
        #[trigger] ns[a],
        #[trigger] ns[b],
    ) by {
        let ia = if a < k { a } else { a + 1 };
        let ib = if b < k { b } else { b + 1 };
        assert(ns[a] == es[ia] && ns[b] == es[ib]);
    }
    assert forall|q: int| 0 <= q < ns.len() implies entry_ok(#[trigger] ns[q]) by {
        let iq = if q < k { q } else { q + 1 };
        assert(ns[q] == es[iq]);
    }
    lemma_sum_nonneg(ns);
}

proof fn lemma_move_to_back(es: Seq<EntryView>, k: int)
    requires
        entries_wf(es),
        0 <= k < es.len(),
    ensures
        entries_wf(es.remove(k).push(es[k])),
        sum_payload(es.remove(k).push(es[k])) == sum_payload(es),
{
    reveal(entries_wf);
    let rs = es.remove(k);
    lemma_wf_remove(es, k);
    assert forall|q: int| 0 <= q < rs.len() implies !same_entry_context(#[trigger] rs[q], es[k]) by {
        let iq = if q < k { q } else { q + 1 };
        assert(rs[q] == es[iq]);
        assert(!same_entry_context(es[k], es[iq]));
    }
    lemma_wf_push(rs, es[k]);
    lemma_sum_push(rs, es[k]);
}

proof fn lemma_get_hit(es: Seq<EntryView>, job: JobView, k: int)
    requires
        0 <= k < es.len(),
        !job.request.explicit,
        replay_spec(es[k], job) is Some,
        last_hit(es, job, es.len() as int) == last_hit(es, job, k + 1),
    ensures
        get_spec(es, job) == (replay_spec(es[k], job), es.remove(k).push(es[k])),
{
    assert(last_hit(es, job, k + 1) == k);
}

proof fn lemma_wf_bounds(es: Seq<EntryView>)
    requires
        entries_wf(es),
    ensures
        es.len() <= ENTRY_LIMIT,
        sum_payload(es) <= PAYLOAD_LIMIT,
        forall|k: int| 0 <= k < es.len() ==> entry_ok(#[trigger] es[k]),
{
    reveal(entries_wf);
}

proof fn lemma_unique_context(es: Seq<EntryView>, job: JobView, i: int)
    requires
        entries_wf(es),
        0 <= i < es.len(),
        same_context(es[i], job),
    ensures
        forall|k: int| 0 <= k < es.len() && k != i ==> !same_context(#[trigger] es[k], job),
{
    reveal(entries_wf);
    assert forall|k: int| 0 <= k < es.len() && k != i implies !same_context(#[trigger] es[k], job) by {
        if same_context(es[k], job) {
            assert(same_entry_context(es[k], es[i]));
        }
    }
}

/// Reusable inline results for automatic requests.
pub struct InlineCache {
    entries: VecDeque<Entry>,
    payload_bytes: usize,
}

impl Default for InlineCache {
    fn default() -> (c: InlineCache)
        ensures
            c.wf(),
            c.entries_view() == Seq::<EntryView>::empty(),
    {
        InlineCache::new()
    }
}

impl InlineCache {
    /// The retained results, least recently used first.
    pub closed spec fn entries_view(&self) -> Seq<EntryView> {
        self.entries@.map_values(|e: Entry| e@)
    }

    pub closed spec fn wf(&self) -> bool {
        &&& entries_wf(self.entries_view())
        &&& self.payload_bytes == sum_payload(self.entries_view())
    }

    pub fn new() -> (c: InlineCache)
        ensures
            c.wf(),
            c.entries_view() == Seq::<EntryView>::empty(),
    {
        let c = InlineCache { entries: VecDeque::new(), payload_bytes: 0 };
        assert(c.entries_view() =~= Seq::<EntryView>::empty());
        reveal(entries_wf);
        c
    }

    /// Number of retained results.
    pub fn len(&self) -> (n: usize)
        requires
            self.wf(),
        ensures
            n == self.entries_view().len(),
            n <= ENTRY_LIMIT,
    {
        proof {
            lemma_wf_bounds(self.entries_view());
        }
        self.entries.len()
    }

    /// Bytes charged for the retained results.
    pub fn payload_bytes(&self) -> (n: usize)
        requires
            self.wf(),
        ensures
            n == sum_payload(self.entries_view()),
            n <= PAYLOAD_LIMIT,
    {
        proof {
            lemma_wf_bounds(self.entries_view());
        }
        self.payload_bytes
    }

    /// Explicit requests refresh the provider. Automatic requests may reuse
    /// exact context or a still-matching remainder after typing/acceptance.
    pub fn get(&mut self, job: &InlineJob) -> (r: Option<Vec<String>>)
        requires
            old(self).wf(),
        ensures
            final(self).wf(),
            opt_strings_view(r) == get_spec(old(self).entries_view(), job@).0,
            final(self).entries_view() == get_spec(old(self).entries_view(), job@).1,
            final(self).entries_view().len() <= ENTRY_LIMIT,
            sum_payload(final(self).entries_view()) <= PAYLOAD_LIMIT,
    {
        let ghost es = self.entries_view();
        proof {
            lemma_wf_bounds(es);
        }
        if job.request.explicit {
            return None;
        }
        let hash = prefix_hash(job.request.prefix.as_str());
        let mut i = self.entries.len();
        while i > 0
            invariant
                self.wf(),
                es == self.entries_view(),
                es == old(self).entries_view(),
                i <= es.len(),
                hash == std_prefix_hash(job@.request.prefix),
                !job@.request.explicit,
                last_hit(es, job@, es.len() as int) == last_hit(es, job@, i as int),
            decreases i,
        {
            assert(self.entries@[i - 1]@ == es[i - 1]);
            let found = self.entries[i - 1].replay(job, hash);
            assert(opt_strings_view(found) == replay_spec(es[i - 1], job@));
            if found.is_some() {
                self.move_to_back(i - 1);
                proof {
                    lemma_get_hit(es, job@, i - 1);
                    lemma_wf_bounds(self.entries_view());
                }
                return found;
            }
            i = i - 1;
        }
        None
    }

    /// Make entry `k` the most recently used.
    fn move_to_back(&mut self, k: usize)
        requires
            old(self).wf(),
            k < old(self).entries_view().len(),
        ensures
            final(self).wf(),
            final(self).entries_view() == old(self).entries_view().remove(k as int).push(
                old(self).entries_view()[k as int],
            ),
    {
        let ghost es = self.entries_view();
        let moved = self.entries.remove(k);
        if let Some(e) = moved {
            self.entries.push_back(e);
        }
        proof {
            assert(self.entries_view() =~= es.remove(k as int).push(es[k as int]));
            lemma_move_to_back(es, k as int);
        }
    }

    /// Forget the answer recorded for exactly `job`'s prompt, if any.
    fn forget_context(&mut self, job: &InlineJob)
        requires
            old(self).wf(),
        ensures
            final(self).wf(),
            final(self).entries_view() == ({
                let es = old(self).entries_view();
                let i = first_context_from(es, job@, 0);
                if i >= 0 {
                    es.remove(i)
                } else {
                    es
                }
            }),
            forall|k: int|
                0 <= k < final(self).entries_view().len() ==> !same_context(
                    #[trigger] final(self).entries_view()[k],
                    job@,
                ),
    {
        let ghost es = self.entries_view();
        let ghost jv = job@;
        let n = self.entries.len();
        let mut i: usize = 0;
        while i < n
            invariant
                self.wf(),
                es == self.entries_view(),
                n == es.len(),
                jv == job@,
                0 <= i <= n,
                forall|k: int| 0 <= k < i ==> !same_context(#[trigger] es[k], jv),
                first_context_from(es, jv, 0) == first_context_from(es, jv, i as int),
            ensures
                0 <= i <= n,
                forall|k: int| 0 <= k < i ==> !same_context(#[trigger] es[k], jv),
                first_context_from(es, jv, 0) == first_context_from(es, jv, i as int),
                i < n ==> same_context(es[i as int], jv),
            decreases n - i,
        {
            assert(self.entries@[i as int]@ == es[i as int]);
            let hit = self.entries[i].matches_context(job);
            assert(hit == same_context(es[i as int], jv));
            if hit {
                break;
            }
            i = i + 1;
        }
        if i < n {
            assert(self.entries@[i as int]@ == es[i as int]);
            let removed = self.entries.remove(i);
            proof {
                lemma_wf_remove(es, i as int);
                assert(self.entries_view() =~= es.remove(i as int));
            }
            if let Some(old) = removed {
                assert(old@ == es[i as int]);
                self.payload_bytes = self.payload_bytes - old.payload_bytes;
            }
            proof {
                let kept = es.remove(i as int);
                lemma_unique_context(es, jv, i as int);
                assert forall|k: int| 0 <= k < kept.len() implies !same_context(#[trigger] kept[k], jv) by {
                    let ik = if k < i { k } else { k + 1 };
                    assert(kept[k] == es[ik]);
                }
            }
        }
    }

    /// Drop least recently used entries until one more of `p` bytes fits.
    fn make_room(&mut self, p: usize)
        requires
            old(self).wf(),
            p <= PAYLOAD_LIMIT,
        ensures
            final(self).wf(),
            final(self).entries_view() == evict(old(self).entries_view(), p as int),
            final(self).entries_view().len() < ENTRY_LIMIT,
            sum_payload(final(self).entries_view()) + p <= PAYLOAD_LIMIT,
            exists|d: int|
                0 <= d <= old(self).entries_view().len() && final(self).entries_view()
                    == old(self).entries_view().skip(d),
    {
        let ghost es = self.entries_view();
        let ghost mut dropped: int = 0;
        assert(es.skip(0) =~= es);
        proof {
            lemma_wf_bounds(es);
        }
        while self.entries.len() >= ENTRY_LIMIT || self.payload_bytes + p > PAYLOAD_LIMIT
            invariant
                self.wf(),
                self.payload_bytes <= PAYLOAD_LIMIT,
                p <= PAYLOAD_LIMIT,
                0 <= dropped <= es.len(),
                self.entries_view() == es.skip(dropped),
                evict(self.entries_view(), p as int) == evict(es, p as int),
            decreases self.entries@.len(),
        {
            let ghost cur = self.entries_view();
            let popped = self.entries.pop_front();
            proof {
                assert(self.entries_view() =~= cur.drop_first());
                assert(cur.drop_first() =~= cur.remove(0));
                lemma_wf_remove(cur, 0);
                lemma_wf_bounds(cur.drop_first());
                assert(es.skip(dropped + 1) =~= cur.drop_first());
                dropped = dropped + 1;
            }
            if let Some(old) = popped {
                assert(cur[0] == old@);
                self.payload_bytes = self.payload_bytes - old.payload_bytes;
            }
        }
    }

    /// The entry recorded for `job`'s answer, unless it exceeds the payload limit.
    fn make_entry(job: &InlineJob, texts: &[String], served: &[String]) -> (r: Option<Entry>)
        requires
            texts@.len() > 0,
            served@.len() > 0,
        ensures
            match r {
                Some(e) => e@ == new_entry(job@, strings_view(texts@), strings_view(served@))
                    && entry_ok(e@),
                None => new_entry(job@, strings_view(texts@), strings_view(served@)).payload
                    > PAYLOAD_LIMIT,
            },
    {
        let ghost ne = new_entry(job@, strings_view(texts@), strings_view(served@));
        let kept_texts = strings_prefix(texts, MAX_ALTERNATIVES);
        let kept_served = strings_prefix(served, MAX_ALTERNATIVES);
        let mut entry = Entry {
            request: job.request.copy(),
            provider: job.provider.copy(),
            prefix_hash: prefix_hash(job.request.prefix.as_str()),
            texts: kept_texts,
            served: kept_served,
            payload_bytes: 0,
        };
        let ghost r = ne.request;
        let ghost pv = ne.provider;
        proof {
            lemma_chunks_blen_nonneg(r.extra_context);
            lemma_strs_blen_nonneg(ne.texts);
            lemma_strs_blen_nonneg(ne.served);
            assert(strings_view(entry.texts@) == ne.texts);
            assert(strings_view(entry.served@) == ne.served);
            assert(entry.texts@.len() == ne.texts.len());
            assert(entry.served@.len() == ne.served.len());
            assert(entry.request.extra_context@.len() == r.extra_context.len());
        }
        // Count retained strings, not just the strings a caller might look at.
        // Fixed entry metadata is separately bounded by ENTRY_LIMIT.
        let ghost mut acc: int = blen(r.prefix);
        let mut payload = str_bytes(&entry.request.prefix);
        assert(payload == capped(acc));
        proof { acc = acc + blen(r.suffix); }
        payload = sat_add(payload, str_bytes(&entry.request.suffix));
        assert(payload == capped(acc));
        proof { acc = acc + r.extra_context.len() * CHUNK_RECORD_BYTES; }
        payload = sat_add(payload, sat_mul(entry.request.extra_context.len(), CHUNK_RECORD_BYTES));
        assert(payload == capped(acc));
        proof { acc = acc + chunks_blen(r.extra_context); }
        payload = sat_add(payload, chunks_bytes(&entry.request.extra_context));
        assert(payload == capped(acc));
        proof { acc = acc + opt_blen(r.language); }
        payload = sat_add(payload, opt_bytes(&entry.request.language));
        assert(payload == capped(acc));
        proof { acc = acc + opt_blen(r.file_path); }
        payload = sat_add(payload, opt_bytes(&entry.request.file_path));
        assert(payload == capped(acc));
        proof { acc = acc + blen(pv.url); }
        payload = sat_add(payload, str_bytes(&entry.provider.url));
        assert(payload == capped(acc));
        proof { acc = acc + opt_blen(pv.model); }
        payload = sat_add(payload, opt_bytes(&entry.provider.model));
        assert(payload == capped(acc));
        proof { acc = acc + opt_blen(pv.api_key_env); }
        payload = sat_add(payload, opt_bytes(&entry.provider.api_key_env));
        assert(payload == capped(acc));
        proof { acc = acc + ne.texts.len() * STRING_RECORD_BYTES; }
        payload = sat_add(payload, sat_mul(entry.texts.len(), STRING_RECORD_BYTES));
        assert(payload == capped(acc));
        proof { acc = acc + strs_blen(ne.texts); }
        payload = sat_add(payload, strs_bytes(&entry.texts));
        assert(payload == capped(acc));
        proof { acc = acc + ne.served.len() * STRING_RECORD_BYTES; }
        payload = sat_add(payload, sat_mul(entry.served.len(), STRING_RECORD_BYTES));
        assert(payload == capped(acc));
        proof { acc = acc + strs_blen(ne.served); }
        payload = sat_add(payload, strs_bytes(&entry.served));
        assert(payload == capped(acc));
        assert(acc == ne.payload);
        if payload > PAYLOAD_LIMIT {
            return None;
        }
        entry.payload_bytes = payload;
        assert(entry@ == ne);
        Some(entry)
    }

    pub fn insert(&mut self, job: &InlineJob, texts: &[String], served: &[String])
        requires
            old(self).wf(),
        ensures
            final(self).wf(),
            final(self).entries_view() == insert_spec(
                old(self).entries_view(),
                job@,
                strings_view(texts@),
                strings_view(served@),
            ),
            final(self).entries_view().len() <= ENTRY_LIMIT,
            sum_payload(final(self).entries_view()) <= PAYLOAD_LIMIT,
    {
        // A fresh empty/rejected/oversize result must not leave an older
        // answer at this exact context available to the next automatic request.
        self.forget_context(job);
        proof {
            lemma_wf_bounds(self.entries_view());
        }
        if texts.len() == 0 || served.len() == 0 {
            return;
        }
        let made = InlineCache::make_entry(job, texts, served);
        let entry = match made {
            Some(entry) => entry,
            None => {
                return;
            },
        };
        let ghost kept = self.entries_view();
        self.make_room(entry.payload_bytes);
        proof {
            let cur = self.entries_view();
            let d = choose|d: int| 0 <= d <= kept.len() && cur == kept.skip(d);
            assert forall|k: int| 0 <= k < cur.len() implies !same_entry_context(
                #[trigger] cur[k],
                entry@,
            ) by {
                assert(cur[k] == kept[k + d]);
            }
            lemma_wf_push(cur, entry@);
            lemma_sum_push(cur, entry@);
        }
        self.payload_bytes = self.payload_bytes + entry.payload_bytes;
        self.entries.push_back(entry);
        proof {
            assert(self.entries_view() =~= evict(kept, entry@.payload).push(entry@));
            lemma_wf_bounds(self.entries_view());
        }
    }
}


// ---------------------------------------------------------------------------
// Laws

proof fn lemma_first_context(es: Seq<EntryView>, job: JobView, start: int)
    requires
        0 <= start <= es.len(),
    ensures
        ({
            let r = first_context_from(es, job, start);
            &&& r == -1 ==> forall|k: int| start <= k < es.len() ==> !same_context(#[trigger] es[k], job)
            &&& r != -1 ==> start <= r < es.len() && same_context(es[r], job)
        }),
    decreases es.len() - start,
{
    if start < es.len() && !same_context(es[start], job) {
        lemma_first_context(es, job, start + 1);
    }
}

proof fn lemma_partial_len(served: Seq<Seq<char>>, old: RequestView, new: RequestView)
    ensures
        partial_all(served, old, new).len() <= served.len(),
    decreases served.len(),
{
    if served.len() > 0 {
        lemma_partial_len(served.drop_last(), old, new);
    }
}

/// Explicit requests always go to the provider: a lookup answers nothing and
/// leaves the cache as it was.
pub proof fn law_explicit_requests_bypass(es: Seq<EntryView>, job: JobView)
    requires
        job.request.explicit,
    ensures
        get_spec(es, job) == (None::<Seq<Seq<char>>>, es),
{
}

/// An answer just recorded for a prompt is what the next automatic request
/// with that very prompt gets back: its first `MAX_ALTERNATIVES` raw
/// alternatives.
pub proof fn law_exact_answer_replays_after_insert(
    es: Seq<EntryView>,
    job: JobView,
    texts: Seq<Seq<char>>,
    served: Seq<Seq<char>>,
)
    requires
        entries_wf(es),
        !job.request.explicit,
        texts.len() > 0,
        served.len() > 0,
        new_entry(job, texts, served).payload <= PAYLOAD_LIMIT,
    ensures
        get_spec(insert_spec(es, job, texts, served), job).0 == Some(take_alternatives(texts)),
{
    reveal(replay_spec);
    let ns = insert_spec(es, job, texts, served);
    let e = new_entry(job, texts, served);
    assert(ns.last() == e);
    assert(replay_spec(e, job) == Some(e.texts));
    assert(last_hit(ns, job, ns.len() as int) == ns.len() - 1);
}

/// A result with no raw or no served alternative is not cached, and it
/// also removes any older answer to the same prompt.
pub proof fn law_rejected_answer_clears_its_prompt(
    es: Seq<EntryView>,
    job: JobView,
    texts: Seq<Seq<char>>,
    served: Seq<Seq<char>>,
)
    requires
        entries_wf(es),
        texts.len() == 0 || served.len() == 0,
    ensures
        forall|k: int|
            0 <= k < insert_spec(es, job, texts, served).len() ==> !same_context(
                #[trigger] insert_spec(es, job, texts, served)[k],
                job,
            ),
{
    lemma_first_context(es, job, 0);
    let i = first_context_from(es, job, 0);
    let ns = insert_spec(es, job, texts, served);
    if i >= 0 {
        lemma_unique_context(es, job, i);
        assert forall|k: int| 0 <= k < ns.len() implies !same_context(#[trigger] ns[k], job) by {
            let ik = if k < i { k } else { k + 1 };
            assert(ns[k] == es[ik]);
        }
    }
}

/// Every answer holds between one and `MAX_ALTERNATIVES` alternatives.
pub proof fn law_answers_hold_at_most_max_alternatives(es: Seq<EntryView>, job: JobView)
    requires
        entries_wf(es),
    ensures
        get_spec(es, job).0 matches Some(t) ==> 0 < t.len() <= MAX_ALTERNATIVES,
{
    reveal(replay_spec);
    lemma_wf_bounds(es);
    let i = last_hit(es, job, es.len() as int);
    lemma_last_hit_range(es, job, es.len() as int);
    if !job.request.explicit && i >= 0 {
        lemma_partial_len(es[i].served, es[i].request, job.request);
    }
}

proof fn lemma_last_hit_range(es: Seq<EntryView>, job: JobView, n: int)
    requires
        0 <= n <= es.len(),
    ensures
        -1 <= last_hit(es, job, n) < n,
        last_hit(es, job, n) >= 0 ==> replay_spec(es[last_hit(es, job, n)], job) is Some,
    decreases n,
{
    if n > 0 && replay_spec(es[n - 1], job) is None {
        lemma_last_hit_range(es, job, n - 1);
    }
}


/// Whatever sequence of lookups and inserts built it, the cache holds at
/// most `ENTRY_LIMIT` results and at most `PAYLOAD_LIMIT` charged bytes (the
/// sum of its entries' charges); every result has between one and
/// `MAX_ALTERNATIVES` raw and served alternatives; and no two results
/// answer the same prompt.
pub proof fn law_cache_invariant(c: InlineCache)
    requires
        c.wf(),
    ensures
        c.entries_view().len() <= ENTRY_LIMIT,
        sum_payload(c.entries_view()) <= PAYLOAD_LIMIT,
        forall|k: int|
            0 <= k < c.entries_view().len() ==> 0 < (#[trigger] c.entries_view()[k]).texts.len() <= MAX_ALTERNATIVES
                && 0 < c.entries_view()[k].served.len() <= MAX_ALTERNATIVES,
        forall|i: int, j: int|
            0 <= i < c.entries_view().len() && 0 <= j < c.entries_view().len() && i != j ==> !same_entry_context(
                #[trigger] c.entries_view()[i],
                #[trigger] c.entries_view()[j],
            ),
{
    reveal(entries_wf);
}

} // verus!
