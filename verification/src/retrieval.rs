//! Budgets and filters of opt-in workspace retrieval: which open buffers
//! stand in for files on disk, which directory entries a walk visits, and
//! how the shared byte budget is spent.

use vstd::prelude::*;
use crate::paths::{path_starts_with, std_path_starts_with};

verus! {

/// Largest source file considered, in bytes.
pub const FILE_BYTES: usize = 262_144;

/// Bytes of source a retrieval pass may read in all.
pub const INDEX_BYTES: usize = 16_777_216;

/// Files a retrieval pass may index.
pub const MAX_FILES: usize = 4_096;

/// How long one pass may walk the workspace, in milliseconds.
pub const WALK_BUDGET_MS: u64 = 250;

/// Directory entries a pass looks at, at most.
pub const WALK_ENTRIES: usize = 20_000;

/// Deepest directory level a walk descends to.
pub const WALK_DEPTH: usize = 20;

/// An open buffer stands in for its file when it is shown as plain text
/// and is small enough; otherwise it masks the file (its disk content must
/// not be used either).
pub fn buffer_admissible(plain_text: bool, len_bytes: usize) -> (r: bool)
    ensures
        r == (plain_text && len_bytes <= FILE_BYTES),
{
    plain_text && len_bytes <= FILE_BYTES
}

/// Which admissible buffers (`Some(len)`, in path order) fit the index
/// budget, spent in order: the others mask their files.
pub open spec fn buffers_kept(sizes: Seq<Option<usize>>, budget: nat) -> Seq<bool>
    decreases sizes.len(),
{
    if sizes.len() == 0 {
        Seq::empty()
    } else {
        let r = buffers_kept(sizes.drop_last(), budget);
        let spent = budget_spent(sizes.drop_last(), budget);
        match sizes.last() {
            Some(len) => r.push(len <= budget - spent),
            None => r.push(false),
        }
    }
}

/// Bytes of the budget the kept buffers use.
pub open spec fn budget_spent(sizes: Seq<Option<usize>>, budget: nat) -> nat
    decreases sizes.len(),
{
    if sizes.len() == 0 {
        0
    } else {
        let spent = budget_spent(sizes.drop_last(), budget);
        match sizes.last() {
            Some(len) => if len <= budget - spent {
                spent + len as nat
            } else {
                spent
            },
            None => spent,
        }
    }
}

proof fn lemma_budget_spent_bound(sizes: Seq<Option<usize>>, budget: nat)
    ensures
        budget_spent(sizes, budget) <= budget,
    decreases sizes.len(),
{
    if sizes.len() > 0 {
        lemma_budget_spent_bound(sizes.drop_last(), budget);
    }
}

/// Mark which buffers are kept within `INDEX_BYTES`; see `buffers_kept`.
pub fn keep_buffers(sizes: &Vec<Option<usize>>) -> (r: Vec<bool>)
    ensures
        r@ == buffers_kept(sizes@, INDEX_BYTES as nat),
{
    let mut out: Vec<bool> = Vec::new();
    let mut remaining: usize = INDEX_BYTES;
    let mut i: usize = 0;
    while i < sizes.len()
        invariant
            0 <= i <= sizes@.len(),
            out@ == buffers_kept(sizes@.take(i as int), INDEX_BYTES as nat),
            remaining == INDEX_BYTES - budget_spent(sizes@.take(i as int), INDEX_BYTES as nat),
        decreases sizes@.len() - i,
    {
        proof {
            assert(sizes@.take(i + 1).drop_last() =~= sizes@.take(i as int));
            lemma_budget_spent_bound(sizes@.take(i as int), INDEX_BYTES as nat);
        }
        match sizes[i] {
            Some(len) => {
                if len <= remaining {
                    remaining = remaining - len;
                    out.push(true);
                } else {
                    out.push(false);
                }
            },
            None => {
                out.push(false);
            },
        }
        i = i + 1;
    }
    proof {
        assert(sizes@.take(sizes@.len() as int) =~= sizes@);
    }
    out
}

/// Directories the walk never enters.
pub open spec fn excluded_name(name: Seq<char>) -> bool {
    ||| name == seq!['t', 'a', 'r', 'g', 'e', 't']
    ||| name == seq!['n', 'o', 'd', 'e', '_', 'm', 'o', 'd', 'u', 'l', 'e', 's']
    ||| name == seq!['v', 'e', 'n', 'd', 'o', 'r']
    ||| name == seq!['d', 'i', 's', 't']
    ||| name == seq!['b', 'u', 'i', 'l', 'd']
}

/// The walk visits the root and every entry whose name is valid Unicode,
/// not hidden (leading `.`) and not a build or dependency directory.
pub open spec fn walk_allows(depth: usize, name: Option<Seq<char>>) -> bool {
    depth == 0 || (name matches Some(n) && !(n.len() > 0 && n[0] == '.') && !excluded_name(n))
}

fn chars_eq(a: &Vec<char>, b: &[char]) -> (r: bool)
    ensures
        r == (a@ == b@),
{
    if a.len() != b.len() {
        return false;
    }
    let mut i: usize = 0;
    while i < a.len()
        invariant
            a@.len() == b@.len(),
            0 <= i <= a@.len(),
            forall|k: int| 0 <= k < i ==> a@[k] == b@[k],
        decreases a@.len() - i,
    {
        if a[i] != b[i] {
            return false;
        }
        i = i + 1;
    }
    assert(a@ =~= b@);
    true
}

/// Whether the walk visits an entry at `depth` named `name` (`None` when
/// the name is not valid Unicode).
pub fn walk_entry_allowed(depth: usize, name: Option<&str>) -> (r: bool)
    ensures
        r == walk_allows(
            depth,
            match name {
                Some(n) => Some(n@),
                None => None,
            },
        ),
{
    if depth == 0 {
        return true;
    }
    let n = match name {
        Some(n) => crate::text::chars_of(n),
        None => {
            return false;
        },
    };
    if n.len() > 0 && n[0] == '.' {
        return false;
    }
    let t = ['t', 'a', 'r', 'g', 'e', 't'];
    let nm = ['n', 'o', 'd', 'e', '_', 'm', 'o', 'd', 'u', 'l', 'e', 's'];
    let v = ['v', 'e', 'n', 'd', 'o', 'r'];
    let d = ['d', 'i', 's', 't'];
    let b = ['b', 'u', 'i', 'l', 'd'];
    let excluded = chars_eq(&n, &t) || chars_eq(&n, &nm) || chars_eq(&n, &v) || chars_eq(&n, &d) || chars_eq(&n, &b);
    proof {
        assert(t@ =~= seq!['t', 'a', 'r', 'g', 'e', 't']);
        assert(nm@ =~= seq!['n', 'o', 'd', 'e', '_', 'm', 'o', 'd', 'u', 'l', 'e', 's']);
        assert(v@ =~= seq!['v', 'e', 'n', 'd', 'o', 'r']);
        assert(d@ =~= seq!['d', 'i', 's', 't']);
        assert(b@ =~= seq!['b', 'u', 'i', 'l', 'd']);
    }
    !excluded
}

/// Where the text of a walked file comes from.
#[derive(Clone, Copy, PartialEq, Eq, Structural, Debug)]
pub enum TextSource {
    /// The open buffer, which fits the remaining budget.
    Buffer,
    /// Nothing: the buffer masks the file, or does not fit.
    Skip,
    /// The file on disk, within the remaining budget.
    Disk,
}

/// The state of one retrieval pass: the bytes left to read and the files
/// indexed so far.
pub struct RetrievalPass {
    pub remaining: usize,
    pub files: usize,
}

impl RetrievalPass {
    pub fn new() -> (r: Self)
        ensures
            r.remaining == INDEX_BYTES,
            r.files == 0,
    {
        RetrievalPass { remaining: INDEX_BYTES, files: 0 }
    }

    /// The walk stops once enough files are indexed, the budget is spent
    /// or its time is up.
    pub fn should_stop(&self, elapsed_ms: u64) -> (r: bool)
        ensures
            r == (self.files >= MAX_FILES || self.remaining == 0 || elapsed_ms >= WALK_BUDGET_MS),
    {
        self.files >= MAX_FILES || self.remaining == 0 || elapsed_ms >= WALK_BUDGET_MS
    }

    /// Where a walked file's text comes from, given its open buffer: none
    /// open means disk; an open buffer that masks it (`Some(None)`) or does
    /// not fit means nothing; a fitting buffer is used and paid for.
    pub fn text_source(&mut self, buffer: Option<Option<usize>>) -> (r: TextSource)
        ensures
            r == match buffer {
                None => TextSource::Disk,
                Some(Some(len)) => if len <= old(self).remaining {
                    TextSource::Buffer
                } else {
                    TextSource::Skip
                },
                Some(None) => TextSource::Skip,
            },
            final(self).files == old(self).files,
            final(self).remaining == if r == TextSource::Buffer {
                old(self).remaining - buffer->0->0
            } else {
                old(self).remaining as int
            },
    {
        match buffer {
            None => TextSource::Disk,
            Some(Some(len)) => if len <= self.remaining {
                self.remaining = self.remaining - len;
                TextSource::Buffer
            } else {
                TextSource::Skip
            },
            Some(None) => TextSource::Skip,
        }
    }

    /// How many bytes a disk read may take: what is left, and no more than
    /// one file's worth.
    pub fn read_limit(&self) -> (r: usize)
        ensures
            r == if self.remaining < FILE_BYTES {
                self.remaining
            } else {
                FILE_BYTES
            },
    {
        if self.remaining < FILE_BYTES {
            self.remaining
        } else {
            FILE_BYTES
        }
    }

    /// A disk read took `bytes`: they are paid for whether or not the text
    /// is then accepted.
    pub fn paid(&mut self, bytes: usize)
        ensures
            final(self).files == old(self).files,
            final(self).remaining == if bytes <= old(self).remaining {
                old(self).remaining - bytes
            } else {
                0
            },
    {
        self.remaining = self.remaining.saturating_sub(bytes);
    }

    /// A file was indexed.
    pub fn indexed(&mut self)
        requires
            old(self).files < usize::MAX,
        ensures
            final(self).files == old(self).files + 1,
            final(self).remaining == old(self).remaining,
    {
        self.files = self.files + 1;
    }
}

pub open spec fn disk_text_ok(is_file: bool, file_len: u64, limit: usize, text: Option<Seq<char>>, canonical: bool) -> bool {
    &&& is_file
    &&& file_len <= limit
    &&& text is Some
    &&& crate::text::utf8_len(text->0) <= limit
    &&& !text->0.contains('\0')
    &&& canonical
}

/// A file read from disk is used when it is a regular file within the read
/// limit, valid UTF-8 without NUL characters, and its path is still its own
/// canonical path (no alias, no symlink crossed since it was listed).
pub fn accept_disk_text(is_file: bool, file_len: u64, limit: usize, text: Option<&str>, canonical: bool) -> (r: bool)
    ensures
        r == disk_text_ok(
            is_file,
            file_len,
            limit,
            match text {
                Some(t) => Some(t@),
                None => None,
            },
            canonical,
        ),
{
    if !is_file || file_len > limit as u64 {
        return false;
    }
    let t = match text {
        Some(t) => t,
        None => {
            return false;
        },
    };
    let chars = crate::text::chars_of(t);
    let mut bytes: usize = 0;
    let mut i: usize = 0;
    while i < chars.len()
        invariant
            chars@ == t@,
            text == Some(t),
            is_file,
            file_len <= limit,
            0 <= i <= chars@.len(),
            bytes == crate::text::utf8_len(chars@.take(i as int)),
            bytes <= limit,
            forall|k: int| 0 <= k < i ==> chars@[k] != '\0',
        decreases chars@.len() - i,
    {
        let c = chars[i];
        proof {
            assert(chars@.take(i + 1).drop_last() =~= chars@.take(i as int));
        }
        let w = crate::text::char_len_utf8(c);
        if w > limit - bytes {
            proof {
                assert(chars@.take(i + 1).last() == c);
                assert(crate::text::utf8_len(chars@.take(i + 1)) > limit);
                lemma_utf8_prefix_le(chars@, i + 1);
                assert(crate::text::utf8_len(t@) > limit);
            }
            return false;
        }
        if c == '\0' {
            proof {
                assert(t@[i as int] == '\0');
                assert(t@.contains('\0'));
            }
            return false;
        }
        bytes = bytes + w;
        i = i + 1;
    }
    proof {
        assert(chars@.take(chars@.len() as int) =~= chars@);
        if t@.contains('\0') {
            let k = choose|k: int| 0 <= k < t@.len() && t@[k] == '\0';
            assert(chars@[k] != '\0');
        }
    }
    canonical
}

proof fn lemma_utf8_prefix_le(s: Seq<char>, k: int)
    requires
        0 <= k <= s.len(),
    ensures
        crate::text::utf8_len(s.take(k)) <= crate::text::utf8_len(s),
    decreases s.len() - k,
{
    if k < s.len() {
        assert(s.take(k + 1).drop_last() =~= s.take(k));
        lemma_utf8_prefix_le(s, k + 1);
    } else {
        assert(s.take(k) =~= s);
    }
}


/// Whether a retrieval pass may walk the workspace at all: its root must be
/// its own canonical path (no symlinked root), and the active document, if
/// it has a path, must lie under the root.
pub fn scope_allows(root: &String, root_is_canonical: bool, active: Option<&String>) -> (r: bool)
    ensures
        r == (root_is_canonical && match active {
            Some(a) => std_path_starts_with(a@, root@),
            None => true,
        }),
{
    if !root_is_canonical {
        return false;
    }
    match active {
        Some(a) => path_starts_with(a, root),
        None => true,
    }
}

} // verus!
