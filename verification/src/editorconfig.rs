//! Discovery of the EditorConfig files that apply to a file: the
//! `.editorconfig` of each ancestor directory, nearest first, until one
//! declares itself the root, within a size budget per file and per chain.
//!
//! The walk is a state machine: the caller asks for the next file to look
//! at, reports what the file system said of it, and hands over the text of
//! each file that passed the budget; parsing the text is the caller's.

use vstd::prelude::*;
use crate::paths::{path_ancestors, path_join, std_path_ancestors, std_path_join};
use crate::text::{chars_of, string_of};

verus! {

/// The largest `.editorconfig` file that is read, in bytes.
pub const FILE_LIMIT: u64 = 1_048_576;

/// The most bytes read over the whole chain of files.
pub const CHAIN_LIMIT: u64 = 4_194_304;

pub open spec fn config_name() -> Seq<char> {
    ".editorconfig"@
}

pub open spec fn file_limit_message() -> Seq<char> {
    "Config is not a file within the 1 MiB limit"@
}

pub open spec fn chain_limit_message() -> Seq<char> {
    "EditorConfig chain exceeds the 4 MiB limit"@
}

/// The `.editorconfig` paths to look at for a file: one in each ancestor
/// directory, nearest first (the file itself is not a directory).
pub open spec fn candidates_spec(path: Seq<char>) -> Seq<Seq<char>> {
    let a = std_path_ancestors(path);
    if a.len() == 0 {
        Seq::empty()
    } else {
        Seq::new((a.len() - 1) as nat, |i: int| std_path_join(a[i + 1], config_name()))
    }
}

/// The diagnostic for a config file that could not be used.
pub open spec fn diagnostic(config: Seq<char>, error: Seq<char>) -> Seq<char> {
    config + ": "@ + error
}

/// The walk by value.
pub ghost struct ChainView {
    pub candidates: Seq<Seq<char>>,
    pub next: nat,
    pub total: nat,
    pub stopped: bool,
    pub dependencies: Seq<Seq<char>>,
    pub diagnostics: Seq<Seq<char>>,
}

/// The config file to look at next, if the walk goes on.
pub open spec fn next_config_spec(v: ChainView) -> Option<Seq<char>> {
    if v.stopped || v.next >= v.candidates.len() {
        None
    } else {
        Some(v.candidates[v.next as int])
    }
}

/// Whether a config file of this kind and size is read, given what the
/// chain has read so far.
pub open spec fn admits_spec(v: ChainView, is_file: bool, len: u64) -> bool {
    is_file && len <= FILE_LIMIT && v.total < CHAIN_LIMIT
}

/// Whether a text of this length, read after the rest of the chain, is
/// within both budgets.
pub open spec fn fits_spec(v: ChainView, text_len: nat) -> bool {
    text_len <= FILE_LIMIT && v.total + text_len <= CHAIN_LIMIT
}

/// What a walk leaves: every config path it looked at (present or not),
/// the diagnostics, and whether any config could not be used.
pub struct ChainOutcome {
    pub dependencies: Vec<String>,
    pub diagnostics: Vec<String>,
    pub incomplete: bool,
}

/// A walk up the ancestors of one file.
pub struct ConfigChain {
    candidates: Vec<String>,
    next: usize,
    total: u64,
    stopped: bool,
    dependencies: Vec<String>,
    diagnostics: Vec<String>,
}

pub open spec fn strings(s: Seq<String>) -> Seq<Seq<char>> {
    s.map_values(|x: String| x@)
}

impl View for ConfigChain {
    type V = ChainView;

    closed spec fn view(&self) -> ChainView {
        ChainView {
            candidates: strings(self.candidates@),
            next: self.next as nat,
            total: self.total as nat,
            stopped: self.stopped,
            dependencies: strings(self.dependencies@),
            diagnostics: strings(self.diagnostics@),
        }
    }
}

/// The walk has looked at a prefix of the candidates, and recorded exactly
/// those, in order.
pub open spec fn chain_ok(v: ChainView) -> bool {
    &&& v.next <= v.candidates.len()
    &&& v.dependencies == v.candidates.take(v.next as int)
}

impl ConfigChain {
    pub closed spec fn wf(&self) -> bool {
        chain_ok(self@)
    }

    /// Start a walk for `path`, which the caller has made absolute and
    /// normalized.
    pub fn for_file(path: &String) -> (r: ConfigChain)
        ensures
            r.wf(),
            r@ == (ChainView {
                candidates: candidates_spec(path@),
                next: 0,
                total: 0,
                stopped: false,
                dependencies: Seq::empty(),
                diagnostics: Seq::empty(),
            }),
    {
        let ancestors = path_ancestors(path);
        let ghost a = ancestors@.map_values(|s: String| s@);
        let mut candidates: Vec<String> = Vec::new();
        let mut i: usize = 1;
        while i < ancestors.len()
            invariant
                1 <= i <= ancestors@.len() || ancestors@.len() == 0,
                a == ancestors@.map_values(|s: String| s@),
                a == std_path_ancestors(path@),
                candidates@.len() == if ancestors@.len() == 0 { 0 } else { i - 1 },
                forall|k: int| 0 <= k < candidates@.len() ==> #[trigger] candidates@[k]@ == std_path_join(a[k + 1], config_name()),
            decreases ancestors@.len() - i,
        {
            let joined = path_join(&ancestors[i], ".editorconfig");
            candidates.push(joined);
            i = i + 1;
        }
        let r = ConfigChain {
            candidates,
            next: 0,
            total: 0,
            stopped: false,
            dependencies: Vec::new(),
            diagnostics: Vec::new(),
        };
        proof {
            assert(strings(r.candidates@) =~= candidates_spec(path@));
            assert(strings(r.dependencies@) =~= Seq::<Seq<char>>::empty());
            assert(strings(r.diagnostics@) =~= Seq::<Seq<char>>::empty());
            assert(strings(r.candidates@).take(0) =~= Seq::<Seq<char>>::empty());
        }
        r
    }

    /// The next config file to look at, recorded as a dependency; `None`
    /// once a root file was read or every ancestor was looked at.
    pub fn next_config(&mut self) -> (r: Option<String>)
        requires
            old(self).wf(),
        ensures
            final(self).wf(),
            match r {
                Some(c) => next_config_spec(old(self)@) == Some(c@) && final(self)@ == (ChainView {
                    next: old(self)@.next + 1,
                    dependencies: old(self)@.dependencies.push(c@),
                    ..old(self)@
                }),
                None => next_config_spec(old(self)@) is None && final(self)@ == old(self)@,
            },
    {
        if self.stopped || self.next >= self.candidates.len() {
            return None;
        }
        let c = self.candidates[self.next].clone();
        self.dependencies.push(c.clone());
        self.next = self.next + 1;
        proof {
            let o = old(self)@;
            assert(strings(self.dependencies@) =~= o.dependencies.push(c@));
            assert(o.candidates.take(o.next + 1 as int) =~= o.candidates.take(o.next as int).push(c@));
        }
        Some(c)
    }

    fn note(&mut self, config: &String, error: &str)
        requires
            old(self).wf(),
        ensures
            final(self).wf(),
            final(self)@ == (ChainView {
                diagnostics: old(self)@.diagnostics.push(diagnostic(config@, error@)),
                ..old(self)@
            }),
    {
        let mut chars = chars_of(config.as_str());
        chars.push(':');
        chars.push(' ');
        let mut e = chars_of(error);
        chars.append(&mut e);
        let message = string_of(chars.as_slice());
        proof {
            reveal_strlit(": ");
            assert(message@ =~= diagnostic(config@, error@));
        }
        self.diagnostics.push(message);
        proof {
            assert(strings(self.diagnostics@) =~= old(self)@.diagnostics.push(diagnostic(config@, error@)));
        }
    }

    /// Whether to read `config`, which the file system says is a regular
    /// file or not and holds `len` bytes. A refused file gets a
    /// diagnostic.
    pub fn consider(&mut self, config: &String, is_file: bool, len: u64) -> (r: bool)
        requires
            old(self).wf(),
        ensures
            final(self).wf(),
            r == admits_spec(old(self)@, is_file, len),
            r ==> final(self)@ == old(self)@,
            !r ==> final(self)@ == (ChainView {
                diagnostics: old(self)@.diagnostics.push(diagnostic(config@, file_limit_message())),
                ..old(self)@
            }),
    {
        if is_file && len <= FILE_LIMIT && self.total < CHAIN_LIMIT {
            true
        } else {
            self.note(config, "Config is not a file within the 1 MiB limit");
            false
        }
    }

    /// Count a text of `text_len` bytes read from `config` against the
    /// chain, and say whether it is within both budgets; one that is not
    /// gets a diagnostic and is not to be used.
    pub fn account(&mut self, config: &String, text_len: usize) -> (r: bool)
        requires
            old(self).wf(),
        ensures
            final(self).wf(),
            r == fits_spec(old(self)@, text_len as nat),
            final(self)@.total == if old(self)@.total + text_len <= u64::MAX {
                old(self)@.total + text_len
            } else {
                u64::MAX as int
            },
            final(self)@.diagnostics == if r {
                old(self)@.diagnostics
            } else {
                old(self)@.diagnostics.push(diagnostic(config@, chain_limit_message()))
            },
            final(self)@.candidates == old(self)@.candidates,
            final(self)@.next == old(self)@.next,
            final(self)@.stopped == old(self)@.stopped,
            final(self)@.dependencies == old(self)@.dependencies,
    {
        let len = text_len as u64;
        self.total = self.total.saturating_add(len);
        if text_len as u64 <= FILE_LIMIT && self.total <= CHAIN_LIMIT {
            true
        } else {
            self.note(config, "EditorConfig chain exceeds the 4 MiB limit");
            false
        }
    }

    /// A config file that could not be read; `error` says why.
    pub fn failed(&mut self, config: &String, error: &String)
        requires
            old(self).wf(),
        ensures
            final(self).wf(),
            final(self)@ == (ChainView {
                diagnostics: old(self)@.diagnostics.push(diagnostic(config@, error@)),
                ..old(self)@
            }),
    {
        self.note(config, error.as_str());
    }

    /// A config file was read but did not parse; `error` is the parser's
    /// message.
    pub fn parse_failed(&mut self, error: String)
        requires
            old(self).wf(),
        ensures
            final(self).wf(),
            final(self)@ == (ChainView { diagnostics: old(self)@.diagnostics.push(error@), ..old(self)@ }),
    {
        self.diagnostics.push(error);
        proof {
            assert(strings(self.diagnostics@) =~= old(self)@.diagnostics.push(error@));
        }
    }

    /// A config file parsed into a layer; a root layer ends the walk.
    pub fn layer_read(&mut self, root: bool)
        requires
            old(self).wf(),
        ensures
            final(self).wf(),
            final(self)@ == (ChainView { stopped: old(self)@.stopped || root, ..old(self)@ }),
    {
        if root {
            self.stopped = true;
        }
    }

    /// End the walk.
    pub fn finish(self) -> (r: ChainOutcome)
        requires
            self.wf(),
        ensures
            strings(r.dependencies@) == self@.dependencies,
            strings(r.diagnostics@) == self@.diagnostics,
            r.incomplete == (self@.diagnostics.len() > 0),
    {
        let incomplete = self.diagnostics.len() > 0;
        ChainOutcome { dependencies: self.dependencies, diagnostics: self.diagnostics, incomplete }
    }
}

/// A root config file ends the walk: after it, no further ancestor is
/// looked at.
pub proof fn law_root_ends_walk(v: ChainView)
    requires
        v.stopped,
    ensures
        next_config_spec(v) is None,
{
}

/// The walk looks at the ancestors nearest first and records each one it
/// looked at, whether or not a file was there: after `k` steps the
/// dependencies are the `k` nearest candidates.
pub proof fn law_dependencies_are_nearest_first(v: ChainView)
    requires
        chain_ok(v),
    ensures
        v.dependencies.len() == v.next,
        forall|i: int| 0 <= i < v.next ==> v.dependencies[i] == v.candidates[i],
{
}

/// Once the chain has read its whole budget, every further config file is
/// refused, whatever its size.
pub proof fn law_spent_budget_refuses_everything(v: ChainView, is_file: bool, len: u64)
    requires
        v.total >= CHAIN_LIMIT,
    ensures
        !admits_spec(v, is_file, len),
{
}

/// The walk after `steps` turns of the loop that reads it: each turn takes
/// the next config (`next_config`) and, when the layer read there is a root
/// (`root_at` of its position), ends the walk (`layer_read`). What else a
/// turn does (refusals, failures, budgets) only adds diagnostics.
pub open spec fn walk_view(v: ChainView, root_at: spec_fn(int) -> bool, steps: nat) -> ChainView
    decreases steps,
{
    if steps == 0 {
        v
    } else {
        match next_config_spec(v) {
            None => v,
            Some(c) => walk_view(
                ChainView {
                    next: v.next + 1,
                    dependencies: v.dependencies.push(c),
                    stopped: v.stopped || root_at(v.next as int),
                    ..v
                },
                root_at,
                (steps - 1) as nat,
            ),
        }
    }
}

proof fn lemma_walk(v: ChainView, root_at: spec_fn(int) -> bool, steps: nat)
    requires
        chain_ok(v),
        !v.stopped,
    ensures
        forall|j: int|
            v.next <= j < v.next + steps && j < v.candidates.len() && #[trigger] root_at(j) && (forall|k: int|
                v.next <= k < j ==> !(#[trigger] root_at(k))) ==> walk_view(v, root_at, steps).dependencies == v.candidates.take(j + 1),
        (forall|k: int| v.next <= k < v.next + steps && k < v.candidates.len() ==> !(#[trigger] root_at(k))) ==> walk_view(
            v,
            root_at,
            steps,
        ).dependencies == v.candidates.take(
            if v.next + steps < v.candidates.len() { (v.next + steps) as int } else { v.candidates.len() as int },
        ),
    decreases steps,
{
    if steps > 0 && v.next < v.candidates.len() {
        let c = v.candidates[v.next as int];
        let v2 = ChainView {
            next: v.next + 1,
            dependencies: v.dependencies.push(c),
            stopped: v.stopped || root_at(v.next as int),
            ..v
        };
        assert(v.candidates.take(v.next as int).push(c) =~= v.candidates.take(v.next + 1 as int));
        if root_at(v.next as int) {
            assert(walk_view(v2, root_at, (steps - 1) as nat) == v2);
        } else {
            lemma_walk(v2, root_at, (steps - 1) as nat);
        }
    }
}

/// EditorConfig discovery stops at the nearest root: walking the
/// ancestors of a file nearest first, the configs looked at (present or
/// not) are every candidate up to and including the first whose layer is a
/// root, or every candidate when none is.
pub proof fn law_discovery_stops_at_the_nearest_root(v: ChainView, root_at: spec_fn(int) -> bool)
    requires
        v.next == 0,
        v.dependencies.len() == 0,
        !v.stopped,
    ensures
        forall|j: int|
            0 <= j < v.candidates.len() && #[trigger] root_at(j) && (forall|k: int| 0 <= k < j ==> !(#[trigger] root_at(k)))
                ==> walk_view(v, root_at, v.candidates.len()).dependencies == v.candidates.take(j + 1),
        (forall|k: int| 0 <= k < v.candidates.len() ==> !(#[trigger] root_at(k))) ==> walk_view(
            v,
            root_at,
            v.candidates.len(),
        ).dependencies == v.candidates,
{
    assert(v.candidates.take(0) =~= v.dependencies);
    lemma_walk(v, root_at, v.candidates.len());
    assert(v.candidates.take(v.candidates.len() as int) =~= v.candidates);
}

} // verus!
