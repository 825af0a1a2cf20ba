//! Recognising and choosing the editor's daily-rotated log files.

use vstd::prelude::*;
use crate::text::chars_of;
use crate::recency::{compare_chars, lemma_lex_irreflexive, lemma_lex_total, lemma_lex_trans, lex_lt};

verus! {

/// `token.log`, the base log name.
pub open spec fn base_log_name() -> Seq<char> {
    seq!['t', 'o', 'k', 'e', 'n', '.', 'l', 'o', 'g']
}

/// `token.log.`, the prefix of a rotated log name.
pub open spec fn rotated_log_prefix() -> Seq<char> {
    base_log_name().push('.')
}

/// A `YYYY-MM-DD` stamp: ten ASCII characters, `-` at offsets 4 and 7,
/// decimal digits elsewhere.
pub open spec fn is_date_stamp(d: Seq<char>) -> bool {
    &&& d.len() == 10
    &&& forall|i: int|
        0 <= i < 10 ==> if i == 4 || i == 7 {
            d[i] == '-'
        } else {
            '0' <= #[trigger] d[i] <= '9'
        }
}

/// `token.log` itself, or `token.log.` followed by a date stamp.
pub open spec fn is_log_name_spec(name: Seq<char>) -> bool {
    ||| name == base_log_name()
    ||| {
        &&& name.len() == 20
        &&& name.subrange(0, 10) == rotated_log_prefix()
        &&& is_date_stamp(name.subrange(10, 20))
    }
}

/// Whether a directory entry name is one of the editor's log files.
pub fn is_log_name(name: &str) -> (r: bool)
    ensures
        r == is_log_name_spec(name@),
{
    let c = chars_of(name);
    let base = ['t', 'o', 'k', 'e', 'n', '.', 'l', 'o', 'g'];
    assert(base@ == base_log_name());
    if c.len() == 9 {
        let mut i: usize = 0;
        while i < 9
            invariant
                c@ == name@,
                c.len() == 9,
                base@ == base_log_name(),
                0 <= i <= 9,
                forall|j: int| 0 <= j < i ==> c@[j] == base@[j],
            decreases 9 - i,
        {
            if c[i] != base[i] {
                return false;
            }
            i = i + 1;
        }
        assert(c@ =~= base_log_name());
        return true;
    }
    if c.len() != 20 {
        return false;
    }
    let mut i: usize = 0;
    while i < 20
        invariant
            c@ == name@,
            c.len() == 20,
            base@ == base_log_name(),
            0 <= i <= 20,
            forall|j: int| 0 <= j < i && j < 9 ==> c@[j] == base@[j],
            i > 9 ==> c@[9] == '.',
            forall|j: int|
                10 <= j < i ==> if j == 14 || j == 17 {
                    c@[j] == '-'
                } else {
                    '0' <= #[trigger] c@[j] <= '9'
                },
        decreases 20 - i,
    {
        let ch = c[i];
        let ok = if i < 9 {
            ch == base[i]
        } else if i == 9 {
            ch == '.'
        } else if i == 14 || i == 17 {
            ch == '-'
        } else {
            '0' <= ch && ch <= '9'
        };
        if !ok {
            proof {
                if i < 10 {
                    assert(name@.subrange(0, 10)[i as int] == c@[i as int]);
                    assert(rotated_log_prefix()[i as int] == (if i < 9 { base@[i as int] } else { '.' }));
                } else {
                    assert(name@.subrange(10, 20)[i - 10] == c@[i as int]);
                }
            }
            return false;
        }
        i = i + 1;
    }
    assert(name@.subrange(0, 10) =~= rotated_log_prefix());
    assert forall|k: int| 0 <= k < 10 implies (if k == 4 || k == 7 {
        name@.subrange(10, 20)[k] == '-'
    } else {
        '0' <= #[trigger] name@.subrange(10, 20)[k] <= '9'
    }) by {
        assert(name@.subrange(10, 20)[k] == c@[k + 10]);
    }
    true
}

/// A directory entry of the log directory.
#[derive(Clone, Debug)]
pub struct LogEntry {
    pub name: String,
    pub is_file: bool,
}

/// A regular file with a log name.
pub open spec fn is_log_file(e: LogEntry) -> bool {
    e.is_file && is_log_name_spec(e.name@)
}

/// Which entry holds the latest log: the greatest log name, which for
/// `token.log.YYYY-MM-DD` is the newest day and leaves a bare `token.log` as
/// the fallback. Backups, similar names and directories are ignored.
pub open spec fn is_latest_log(entries: Seq<LogEntry>, r: Option<usize>) -> bool {
    match r {
        None => forall|j: int| 0 <= j < entries.len() ==> !is_log_file(#[trigger] entries[j]),
        Some(i) => {
            &&& i < entries.len()
            &&& is_log_file(entries[i as int])
            &&& forall|j: int|
                0 <= j < entries.len() && is_log_file(#[trigger] entries[j]) ==> !lex_lt(entries[i as int].name@, entries[j].name@)
            &&& forall|j: int|
                0 <= j < i && is_log_file(#[trigger] entries[j]) ==> lex_lt(entries[j].name@, entries[i as int].name@)
        },
    }
}

/// The entry holding the latest log, if any; see `is_latest_log`.
pub fn latest_log(entries: &Vec<LogEntry>) -> (r: Option<usize>)
    ensures
        is_latest_log(entries@, r),
{
    let mut best: Option<usize> = None;
    let mut best_chars: Vec<char> = Vec::new();
    let mut i: usize = 0;
    while i < entries.len()
        invariant
            0 <= i <= entries@.len(),
            match best {
                None => forall|j: int| 0 <= j < i ==> !is_log_file(#[trigger] entries@[j]),
                Some(b) => {
                    &&& b < i
                    &&& best_chars@ == entries@[b as int].name@
                    &&& is_log_file(entries@[b as int])
                    &&& forall|j: int|
                        0 <= j < i && is_log_file(#[trigger] entries@[j]) ==> !lex_lt(
                            entries@[b as int].name@,
                            entries@[j].name@,
                        )
                    &&& forall|j: int|
                        0 <= j < b && is_log_file(#[trigger] entries@[j]) ==> lex_lt(
                            entries@[j].name@,
                            entries@[b as int].name@,
                        )
                },
            },
        decreases entries@.len() - i,
    {
        let e = &entries[i];
        if e.is_file && is_log_name(e.name.as_str()) {
            let chars = chars_of(e.name.as_str());
            let newer = match best {
                None => true,
                Some(_) => compare_chars(&chars, &best_chars) > 0,
            };
            proof {
                if let Some(b) = best {
                    lemma_lex_total(chars@, best_chars@);
                    lemma_lex_irreflexive(chars@);
                    if newer {
                        assert forall|j: int|
                            0 <= j < i + 1 && is_log_file(#[trigger] entries@[j]) implies !lex_lt(
                            entries@[i as int].name@,
                            entries@[j].name@,
                        ) by {
                            if j < i && lex_lt(chars@, entries@[j].name@) {
                                lemma_lex_trans(best_chars@, chars@, entries@[j].name@);
                            }
                        }
                        assert forall|j: int| 0 <= j < i && is_log_file(#[trigger] entries@[j]) implies lex_lt(
                            entries@[j].name@,
                            entries@[i as int].name@,
                        ) by {
                            lemma_lex_total(entries@[j].name@, best_chars@);
                            if entries@[j].name@ != best_chars@ {
                                if lex_lt(entries@[j].name@, best_chars@) {
                                    lemma_lex_trans(entries@[j].name@, best_chars@, chars@);
                                }
                            }
                        }
                    }
                } else {
                    lemma_lex_irreflexive(chars@);
                }
            }
            if newer {
                best = Some(i);
                best_chars = chars;
            }
        }
        i = i + 1;
    }
    best
}

} // verus!
