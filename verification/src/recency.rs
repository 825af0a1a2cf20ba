//! Idle-committed, window-local recency context: token-set similarity of
//! captured snippets, snippet capture and the ring of recent edit sites.

use vstd::prelude::*;

use crate::completion::ContextChunk;
use crate::text::chars_of;

verus! {

// ---------------------------------------------------------------------------
// Tokens

/// What `char::is_alphanumeric` answers for a character.
pub uninterp spec fn std_is_alphanumeric(c: char) -> bool;

/// Whether a character is alphanumeric in the Unicode sense.
///
/// Calls `char::is_alphanumeric`, which is `is_alphabetic() ||
/// is_numeric()`. The contract claims that the answer depends on the
/// character alone, and, for an ASCII character, that it is true exactly for
/// the letters `A`-`Z`, `a`-`z` and the digits `0`-`9` (the ASCII members of
/// Unicode's alphabetic and numeric classes). Which other characters count is
/// left to the name.
#[verifier::external_body]
fn is_alphanumeric(c: char) -> (r: bool)
    ensures
        r == std_is_alphanumeric(c),
        (c as u32) < 0x80 ==> (r <==> ((0x30 <= (c as u32) <= 0x39) || (0x41 <= (c as u32) <= 0x5a) || (0x61
            <= (c as u32) <= 0x7a))),
{
    c.is_alphanumeric()
}

/// Characters that make up tokens: alphanumerics and `_`.
pub open spec fn is_word_char(c: char) -> bool {
    std_is_alphanumeric(c) || c == '_'
}

/// `text[a..b]` is a token: a maximal run of word characters.
pub open spec fn is_token_at(text: Seq<char>, a: int, b: int) -> bool {
    &&& 0 <= a < b <= text.len()
    &&& forall|k: int| a <= k < b ==> is_word_char(#[trigger] text[k])
    &&& (a == 0 || !is_word_char(text[a - 1]))
    &&& (b == text.len() || !is_word_char(text[b]))
}

/// The distinct tokens of a text.
pub open spec fn token_set(text: Seq<char>) -> Set<Seq<char>> {
    Set::new(|t: Seq<char>| exists|a: int, b: int| is_token_at(text, a, b) && t == text.subrange(a, b))
}

/// Lexicographic order of character sequences by code point, which is the
/// order of their UTF-8 encodings.
pub open spec fn lex_lt(a: Seq<char>, b: Seq<char>) -> bool
    decreases a.len(),
{
    if a.len() == 0 {
        b.len() > 0
    } else if b.len() == 0 {
        false
    } else if a[0] < b[0] {
        true
    } else if a[0] == b[0] {
        lex_lt(a.drop_first(), b.drop_first())
    } else {
        false
    }
}

pub proof fn lemma_lex_irreflexive(a: Seq<char>)
    ensures
        !lex_lt(a, a),
    decreases a.len(),
{
    if a.len() > 0 {
        lemma_lex_irreflexive(a.drop_first());
    }
}

pub proof fn lemma_lex_trans(a: Seq<char>, b: Seq<char>, c: Seq<char>)
    requires
        lex_lt(a, b),
        lex_lt(b, c),
    ensures
        lex_lt(a, c),
    decreases a.len(),
{
    if a.len() > 0 && b.len() > 0 && c.len() > 0 && a[0] == b[0] && b[0] == c[0] {
        lemma_lex_trans(a.drop_first(), b.drop_first(), c.drop_first());
    }
}

pub proof fn lemma_lex_total(a: Seq<char>, b: Seq<char>)
    ensures
        a == b || lex_lt(a, b) || lex_lt(b, a),
    decreases a.len(),
{
    if a.len() > 0 && b.len() > 0 && a[0] == b[0] {
        lemma_lex_total(a.drop_first(), b.drop_first());
        if a.drop_first() == b.drop_first() {
            assert(a =~= b) by {
                assert forall|k: int| 0 <= k < a.len() implies a[k] == b[k] by {
                    if k > 0 {
                        assert(a[k] == a.drop_first()[k - 1]);
                        assert(b[k] == b.drop_first()[k - 1]);
                    }
                }
            }
        }
    } else if a.len() == 0 && b.len() == 0 {
        assert(a =~= b);
    }
}

/// Strictly increasing: sorted with no repeats.
pub open spec fn sorted_strict(s: Seq<Seq<char>>) -> bool {
    forall|i: int, j: int| 0 <= i < j < s.len() ==> lex_lt(#[trigger] s[i], #[trigger] s[j])
}

/// Compare two character sequences: negative, zero or positive as the first
/// orders before, equal to or after the second.
pub(crate) fn compare_chars(a: &Vec<char>, b: &Vec<char>) -> (r: i8)
    ensures
        r < 0 <==> lex_lt(a@, b@),
        r == 0 <==> a@ == b@,
        r > 0 <==> lex_lt(b@, a@),
{
    let mut i: usize = 0;
    assert(a@.skip(0) =~= a@);
    assert(b@.skip(0) =~= b@);
    while i < a.len() && i < b.len()
        invariant
            0 <= i <= a@.len(),
            i <= b@.len(),
            a@.take(i as int) == b@.take(i as int),
            lex_lt(a@, b@) == lex_lt(a@.skip(i as int), b@.skip(i as int)),
            lex_lt(b@, a@) == lex_lt(b@.skip(i as int), a@.skip(i as int)),
        decreases a@.len() - i,
    {
        let x = a[i];
        let y = b[i];
        if x != y {
            proof {
                assert(a@.skip(i as int)[0] == x);
                assert(b@.skip(i as int)[0] == y);
            }
            if x < y {
                return -1;
            } else {
                return 1;
            }
        }
        proof {
            assert(a@.skip(i as int).drop_first() =~= a@.skip(i + 1));
            assert(b@.skip(i as int).drop_first() =~= b@.skip(i + 1));
            assert(a@.take(i + 1) =~= a@.take(i as int).push(x));
            assert(b@.take(i + 1) =~= b@.take(i as int).push(y));
        }
        i = i + 1;
    }
    proof {
        lemma_lex_irreflexive(a@);
        if a@.len() == b@.len() {
            assert(a@ =~= a@.take(i as int));
            assert(b@ =~= b@.take(i as int));
        }
    }
    if a.len() < b.len() {
        -1
    } else if a.len() == b.len() {
        0
    } else {
        1
    }
}


proof fn lemma_run_start_unique(text: Seq<char>, a: int, s: int, i: int)
    requires
        0 <= a < i <= text.len(),
        0 <= s < i,
        forall|k: int| a <= k < i ==> is_word_char(#[trigger] text[k]),
        forall|k: int| s <= k < i ==> is_word_char(#[trigger] text[k]),
        a == 0 || !is_word_char(text[a - 1]),
        s == 0 || !is_word_char(text[s - 1]),
    ensures
        a == s,
{
    if a < s {
        assert(is_word_char(text[s - 1]));
    } else if s < a {
        assert(is_word_char(text[a - 1]));
    }
}

pub open spec fn chars_seqs(v: Seq<Vec<char>>) -> Seq<Seq<char>> {
    v.map_values(|x: Vec<char>| x@)
}

/// `text[a..b]`, copied.
fn copy_range(text: &Vec<char>, a: usize, b: usize) -> (r: Vec<char>)
    requires
        a <= b <= text@.len(),
    ensures
        r@ == text@.subrange(a as int, b as int),
{
    let mut r: Vec<char> = Vec::new();
    let mut k = a;
    while k < b
        invariant
            a <= k <= b,
            b <= text@.len(),
            r@ == text@.subrange(a as int, k as int),
        decreases b - k,
    {
        r.push(text[k]);
        k = k + 1;
        assert(r@ =~= text@.subrange(a as int, k as int));
    }
    r
}

/// Every token of the text, in order of appearance (repeats included).
fn tokens_in_order(text: &Vec<char>) -> (r: Vec<Vec<char>>)
    ensures
        chars_seqs(r@).to_set() == token_set(text@),
{
    let ghost t = text@;
    let mut r: Vec<Vec<char>> = Vec::new();
    let mut start: Option<usize> = None;
    let mut i: usize = 0;
    while i < text.len()
        invariant
            t == text@,
            0 <= i <= t.len(),
            forall|q: int| 0 <= q < r@.len() ==> token_set(t).contains(#[trigger] r@[q]@),
            forall|a: int, b: int|
                is_token_at(t, a, b) && b < i ==> chars_seqs(r@).contains(t.subrange(a, b)),
            match start {
                Some(s) => s < i && (forall|k: int| s <= k < i ==> is_word_char(#[trigger] t[k])) && (
                s == 0 || !is_word_char(t[s - 1])),
                None => i == 0 || !is_word_char(t[i - 1]),
            },
        decreases t.len() - i,
    {
        let c = text[i];
        let word = is_alphanumeric(c) || c == '_';
        if word {
            if start.is_none() {
                start = Some(i);
            }
            proof {
                assert forall|a: int, b: int| is_token_at(t, a, b) && b < i + 1 implies chars_seqs(
                    r@,
                ).contains(t.subrange(a, b)) by {
                    if b == i {
                        assert(!is_word_char(t[b]));
                    }
                }
            }
        } else {
            match start {
                Some(s) => {
                    let tok = copy_range(text, s, i);
                    let ghost old_r = r@;
                    r.push(tok);
                    proof {
                        assert(is_token_at(t, s as int, i as int));
                        assert forall|q: int| 0 <= q < r@.len() implies token_set(t).contains(
                            #[trigger] r@[q]@,
                        ) by {
                            if q < old_r.len() {
                                assert(r@[q] == old_r[q]);
                            } else {
                                assert(r@[q]@ == t.subrange(s as int, i as int));
                            }
                        }
                        assert forall|a: int, b: int|
                            is_token_at(t, a, b) && b < i + 1 implies chars_seqs(r@).contains(
                            t.subrange(a, b),
                        ) by {
                            if b == i {
                                lemma_run_start_unique(t, a, s as int, i as int);
                                assert(chars_seqs(r@)[r@.len() - 1] == t.subrange(a, b));
                            } else {
                                assert(chars_seqs(old_r).contains(t.subrange(a, b)));
                                let q = choose|q: int|
                                    0 <= q < chars_seqs(old_r).len() && chars_seqs(old_r)[q]
                                        == t.subrange(a, b);
                                assert(chars_seqs(r@)[q] == t.subrange(a, b));
                            }
                        }
                    }
                    start = None;
                },
                None => {
                    proof {
                        assert forall|a: int, b: int|
                            is_token_at(t, a, b) && b < i + 1 implies chars_seqs(r@).contains(
                            t.subrange(a, b),
                        ) by {
                            if b == i {
                                assert(is_word_char(t[b - 1]));
                            }
                        }
                    }
                },
            }
        }
        i = i + 1;
    }
    let ghost old_r = r@;
    match start {
        Some(s) => {
            let tok = copy_range(text, s, text.len());
            r.push(tok);
            proof {
                assert(is_token_at(t, s as int, t.len() as int));
            }
        },
        None => {},
    }
    proof {
        let cs = chars_seqs(r@);
        assert forall|x: Seq<char>| cs.to_set().contains(x) <==> token_set(t).contains(x) by {
            if cs.to_set().contains(x) {
                let q = choose|q: int| 0 <= q < cs.len() && cs[q] == x;
                if q < old_r.len() {
                    assert(r@[q] == old_r[q]);
                } else {
                    match start {
                        Some(s) => {
                            assert(r@[q]@ == t.subrange(s as int, t.len() as int));
                        },
                        None => {},
                    }
                }
                assert(token_set(t).contains(r@[q]@));
            }
            if token_set(t).contains(x) {
                let (a, b) = choose|a: int, b: int| is_token_at(t, a, b) && x == t.subrange(a, b);
                if b < t.len() {
                    let q = choose|q: int|
                        0 <= q < chars_seqs(old_r).len() && chars_seqs(old_r)[q] == x;
                    assert(cs[q] == x);
                } else {
                    match start {
                        Some(s) => {
                            lemma_run_start_unique(t, a, s as int, t.len() as int);
                            assert(cs[cs.len() - 1] == x);
                        },
                        None => {
                            assert(is_word_char(t[b - 1]));
                        },
                    }
                }
            }
        }
        assert(cs.to_set() =~= token_set(t));
    }
    r
}


/// Add `t` to a strictly sorted list, keeping it strictly sorted.
fn sorted_insert(v: &mut Vec<Vec<char>>, t: Vec<char>)
    requires
        sorted_strict(chars_seqs(old(v)@)),
    ensures
        sorted_strict(chars_seqs(final(v)@)),
        chars_seqs(final(v)@).to_set() == chars_seqs(old(v)@).to_set().insert(t@),
{
    let ghost old_s = chars_seqs(v@);
    let mut p: usize = 0;
    let mut c: i8 = -1;
    while p < v.len()
        invariant
            0 <= p <= v@.len(),
            old_s == chars_seqs(v@),
            forall|q: int| 0 <= q < p ==> lex_lt(#[trigger] old_s[q], t@),
        ensures
            0 <= p <= v@.len(),
            forall|q: int| 0 <= q < p ==> lex_lt(#[trigger] old_s[q], t@),
            p < v@.len() ==> !lex_lt(old_s[p as int], t@),
            p < v@.len() ==> (c == 0 <==> old_s[p as int] == t@),
        decreases v@.len() - p,
    {
        c = compare_chars(&v[p], &t);
        assert(old_s[p as int] == v@[p as int]@);
        if c >= 0 {
            break;
        }
        p = p + 1;
    }
    if p < v.len() && c == 0 {
        proof {
            assert(old_s.to_set().insert(t@) =~= old_s.to_set());
        }
        return;
    }
    let ghost tv = t@;
    v.insert(p, t);
    proof {
        let ns = chars_seqs(v@);
        assert(ns =~= old_s.insert(p as int, tv));
        if p < old_s.len() {
            lemma_lex_total(old_s[p as int], tv);
        }
        assert forall|i: int, j: int| 0 <= i < j < ns.len() implies lex_lt(
            #[trigger] ns[i],
            #[trigger] ns[j],
        ) by {
            if j < p {
            } else if i < p && j == p {
            } else if i < p {
                assert(ns[j] == old_s[j - 1]);
            } else if i == p {
                assert(ns[j] == old_s[j - 1]);
                if j - 1 > p {
                    lemma_lex_trans(tv, old_s[p as int], old_s[j - 1]);
                }
            } else {
                assert(ns[i] == old_s[i - 1]);
                assert(ns[j] == old_s[j - 1]);
            }
        }
        assert forall|x: Seq<char>| ns.to_set().contains(x) <==> old_s.to_set().insert(tv).contains(x) by {
            if ns.to_set().contains(x) {
                let q = choose|q: int| 0 <= q < ns.len() && ns[q] == x;
                if q < p {
                    assert(old_s[q] == x);
                } else if q > p {
                    assert(old_s[q - 1] == x);
                }
            }
            if old_s.to_set().contains(x) {
                let q = choose|q: int| 0 <= q < old_s.len() && old_s[q] == x;
                if q < p {
                    assert(ns[q] == x);
                } else {
                    assert(ns[q + 1] == x);
                }
            }
            if x == tv {
                assert(ns[p as int] == x);
            }
        }
        assert(ns.to_set() =~= old_s.to_set().insert(tv));
    }
}

/// The Jaccard test the ring uses for near duplicates: strictly more than 90%
/// of the union of token sets is shared; two texts without tokens are
/// similar only when equal.
pub open spec fn jaccard_similar(a: Set<Seq<char>>, b: Set<Seq<char>>, ta: Seq<char>, tb: Seq<char>) -> bool {
    let i = a.intersect(b).len();
    let u = a.len() + b.len() - i;
    if u == 0 {
        ta == tb
    } else {
        i * 10 > u * 9
    }
}

/// A captured snippet with its distinct tokens in sorted order. Only the
/// payload leaves the runtime; the index is neither transmitted nor cached.
pub struct IndexedChunk {
    payload: ContextChunk,
    tokens: Vec<Vec<char>>,
}

impl IndexedChunk {
    /// The snippet that is sent to the provider.
    pub closed spec fn payload_view(&self) -> crate::completion::ChunkView {
        self.payload@
    }

    pub fn payload(&self) -> (r: &ContextChunk)
        ensures
            r@ == self.payload_view(),
    {
        &self.payload
    }

    /// The distinct tokens, in increasing order.
    pub closed spec fn tokens_view(&self) -> Seq<Seq<char>> {
        chars_seqs(self.tokens@)
    }

    /// The distinct tokens, in increasing order.
    pub fn tokens(&self) -> (r: &Vec<Vec<char>>)
        ensures
            chars_seqs(r@) == self.tokens_view(),
    {
        &self.tokens
    }

    /// The index holds the distinct tokens of the payload's text, each once,
    /// in increasing order.
    pub open spec fn wf(&self) -> bool {
        &&& sorted_strict(self.tokens_view())
        &&& self.tokens_view().to_set() == token_set(self.payload_view().text)
    }

    /// Index a snippet once, not once per comparison: the tokens are the
    /// distinct maximal runs of word characters of its text, sorted, each
    /// once.
    pub fn new(payload: ContextChunk) -> (r: IndexedChunk)
        ensures
            r.wf(),
            r.payload_view() == payload@,
            sorted_strict(r.tokens_view()),
            r.tokens_view().to_set() == token_set(payload@.text),
    {
        let text = chars_of(payload.text.as_str());
        let all = tokens_in_order(&text);
        let mut tokens: Vec<Vec<char>> = Vec::new();
        let mut i: usize = 0;
        assert(chars_seqs(tokens@).to_set() =~= chars_seqs(all@).take(0).to_set());
        while i < all.len()
            invariant
                0 <= i <= all@.len(),
                sorted_strict(chars_seqs(tokens@)),
                chars_seqs(tokens@).to_set() == chars_seqs(all@).take(i as int).to_set(),
            decreases all@.len() - i,
        {
            let tok = copy_range(&all[i], 0, all[i].len());
            assert(tok@ =~= all@[i as int]@);
            sorted_insert(&mut tokens, tok);
            proof {
                let cs = chars_seqs(all@);
                assert(cs.take(i + 1) =~= cs.take(i as int).push(cs[i as int]));
                cs.take(i as int).lemma_push_to_set_commute(cs[i as int]);
            }
            i = i + 1;
        }
        assert(chars_seqs(all@).take(all@.len() as int) =~= chars_seqs(all@));
        IndexedChunk { payload, tokens }
    }
}


// ---------------------------------------------------------------------------
// Similarity

/// Elements shared by two sorted lists, counted by merging them.
pub open spec fn common_count(a: Seq<Seq<char>>, b: Seq<Seq<char>>) -> int
    decreases a.len() + b.len(),
{
    if a.len() == 0 || b.len() == 0 {
        0
    } else if lex_lt(a[0], b[0]) {
        common_count(a.drop_first(), b)
    } else if lex_lt(b[0], a[0]) {
        common_count(a, b.drop_first())
    } else {
        1 + common_count(a.drop_first(), b.drop_first())
    }
}

proof fn lemma_common_count_bound(a: Seq<Seq<char>>, b: Seq<Seq<char>>)
    ensures
        0 <= common_count(a, b) <= a.len(),
        common_count(a, b) <= b.len(),
    decreases a.len() + b.len(),
{
    if a.len() > 0 && b.len() > 0 {
        if lex_lt(a[0], b[0]) {
            lemma_common_count_bound(a.drop_first(), b);
        } else if lex_lt(b[0], a[0]) {
            lemma_common_count_bound(a, b.drop_first());
        } else {
            lemma_common_count_bound(a.drop_first(), b.drop_first());
        }
    }
}

proof fn lemma_sorted_drop_first(a: Seq<Seq<char>>)
    requires
        sorted_strict(a),
        a.len() > 0,
    ensures
        sorted_strict(a.drop_first()),
        a.to_set() == a.drop_first().to_set().insert(a[0]),
        !a.drop_first().to_set().contains(a[0]),
        forall|j: int| 0 < j < a.len() ==> lex_lt(a[0], #[trigger] a[j]),
{
    let d = a.drop_first();
    assert forall|i: int, j: int| 0 <= i < j < d.len() implies lex_lt(#[trigger] d[i], #[trigger] d[j]) by {
        assert(d[i] == a[i + 1] && d[j] == a[j + 1]);
    }
    assert forall|x: Seq<char>| a.to_set().contains(x) <==> d.to_set().insert(a[0]).contains(x) by {
        if a.to_set().contains(x) {
            let q = choose|q: int| 0 <= q < a.len() && a[q] == x;
            if q > 0 {
                assert(d[q - 1] == x);
            }
        }
        if d.to_set().contains(x) {
            let q = choose|q: int| 0 <= q < d.len() && d[q] == x;
            assert(a[q + 1] == x);
        }
    }
    assert(a.to_set() =~= d.to_set().insert(a[0]));
    if d.to_set().contains(a[0]) {
        let q = choose|q: int| 0 <= q < d.len() && d[q] == a[0];
        assert(lex_lt(a[0], a[q + 1]));
        lemma_lex_irreflexive(a[0]);
    }
}

/// Everything in a sorted list is at least its first element.
proof fn lemma_below_first_absent(x: Seq<char>, b: Seq<Seq<char>>)
    requires
        sorted_strict(b),
        b.len() > 0,
        lex_lt(x, b[0]),
    ensures
        !b.to_set().contains(x),
{
    if b.to_set().contains(x) {
        let q = choose|q: int| 0 <= q < b.len() && b[q] == x;
        lemma_lex_irreflexive(x);
        if q > 0 {
            lemma_lex_trans(x, b[0], b[q]);
        }
    }
}

proof fn lemma_common_count_sets(a: Seq<Seq<char>>, b: Seq<Seq<char>>)
    requires
        sorted_strict(a),
        sorted_strict(b),
    ensures
        common_count(a, b) == a.to_set().intersect(b.to_set()).len(),
    decreases a.len() + b.len(),
{
    broadcast use vstd::set::group_set_axioms, vstd::seq_lib::seq_to_set_is_finite;

    if a.len() == 0 || b.len() == 0 {
        assert(a.to_set().intersect(b.to_set()) =~= Set::<Seq<char>>::empty());
    } else if lex_lt(a[0], b[0]) {
        lemma_sorted_drop_first(a);
        lemma_below_first_absent(a[0], b);
        lemma_common_count_sets(a.drop_first(), b);
        assert(a.to_set().intersect(b.to_set()) =~= a.drop_first().to_set().intersect(b.to_set()));
    } else if lex_lt(b[0], a[0]) {
        lemma_sorted_drop_first(b);
        lemma_below_first_absent(b[0], a);
        lemma_common_count_sets(a, b.drop_first());
        assert(a.to_set().intersect(b.to_set()) =~= a.to_set().intersect(b.drop_first().to_set()));
    } else {
        lemma_lex_total(a[0], b[0]);
        lemma_sorted_drop_first(a);
        lemma_sorted_drop_first(b);
        lemma_common_count_sets(a.drop_first(), b.drop_first());
        let rest = a.drop_first().to_set().intersect(b.drop_first().to_set());
        assert(a.to_set().intersect(b.to_set()) =~= rest.insert(a[0]));
        assert(!rest.contains(a[0]));
    }
}

proof fn lemma_sorted_len(a: Seq<Seq<char>>)
    requires
        sorted_strict(a),
    ensures
        a.to_set().len() == a.len(),
{
    assert(a.no_duplicates()) by {
        assert forall|i: int, j: int| 0 <= i < a.len() && 0 <= j < a.len() && i != j implies a[i]
            != a[j] by {
            lemma_lex_irreflexive(a[i]);
        }
    }
    a.unique_seq_to_set();
}

impl IndexedChunk {
    /// Strict >0.9 Jaccard similarity of token sets; no ranking and no
    /// hash-only equality.
    pub fn similar(&self, other: &IndexedChunk) -> (r: bool)
        requires
            self.wf(),
            other.wf(),
        ensures
            r == jaccard_similar(
                token_set(self.payload_view().text),
                token_set(other.payload_view().text),
                self.payload_view().text,
                other.payload_view().text,
            ),
    {
        let ghost a = self.tokens_view();
        let ghost b = other.tokens_view();
        proof {
            lemma_sorted_len(a);
            lemma_sorted_len(b);
            lemma_common_count_sets(a, b);
            lemma_common_count_bound(a, b);
        }
        let la = self.tokens.len();
        let lb = other.tokens.len();
        let total: u128 = la as u128 + lb as u128;
        if total == 0 {
            assert(a.to_set().intersect(b.to_set()) =~= Set::<Seq<char>>::empty());
            return self.payload.text == other.payload.text;
        }
        let mut left: usize = 0;
        let mut right: usize = 0;
        let mut intersection: u128 = 0;
        assert(a.skip(0) =~= a);
        assert(b.skip(0) =~= b);
        while left < la && right < lb
            invariant
                la == a.len(),
                lb == b.len(),
                total == la + lb,
                a == self.tokens_view(),
                b == other.tokens_view(),
                sorted_strict(a),
                sorted_strict(b),
                self.wf(),
                other.wf(),
                a.to_set().len() == la,
                b.to_set().len() == lb,
                common_count(a, b) == a.to_set().intersect(b.to_set()).len(),
                common_count(a, b) <= la,
                0 <= left <= la,
                0 <= right <= lb,
                intersection <= left,
                intersection + common_count(a.skip(left as int), b.skip(right as int)) == common_count(a, b),
            decreases la - left + lb - right,
        {
            // Even matching every remaining token cannot exceed the strict
            // threshold. This is an exact bound, not approximate matching.
            let rest_a = (la - left) as u128;
            let rest_b = (lb - right) as u128;
            let possible = intersection + if rest_a < rest_b { rest_a } else { rest_b };
            proof {
                lemma_common_count_bound(a.skip(left as int), b.skip(right as int));
            }
            if possible * 10 <= (total - possible) * 9 {
                proof {
                    let i = common_count(a, b);
                    assert(i <= possible);
                    assert(i * 10 <= (total - i) * 9);
                }
                return false;
            }
            let x = &self.tokens[left];
            let y = &other.tokens[right];
            let c = compare_chars(x, y);
            proof {
                let sa = a.skip(left as int);
                let sb = b.skip(right as int);
                assert(sa[0] == x@ && sb[0] == y@);
                assert(sa.drop_first() =~= a.skip(left + 1));
                assert(sb.drop_first() =~= b.skip(right + 1));
            }
            if c < 0 {
                left = left + 1;
            } else if c > 0 {
                right = right + 1;
            } else {
                proof {
                    lemma_lex_irreflexive(x@);
                }
                intersection = intersection + 1;
                left = left + 1;
                right = right + 1;
            }
        }
        proof {
            assert(common_count(a.skip(left as int), b.skip(right as int)) == 0);
        }
        intersection * 10 > (total - intersection) * 9
    }
}

} // verus!
