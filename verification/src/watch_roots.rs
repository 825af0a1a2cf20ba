//! The directories watched for changes to open documents: each document's
//! parent (which survives atomic replacement of the file) and grandparent
//! (which sees the parent deleted and recreated). The watching itself is
//! done by the caller; this decides what to watch and remembers what is.

use vstd::prelude::*;

use crate::completion::strings_view;
use crate::paths::{path_ancestors, std_path_ancestors};

verus! {

/// How many ancestors of each document are watched.
pub const WATCHED_ANCESTORS: usize = 2;

/// The directories being watched, each once.
pub struct WatchRoots {
    roots: Vec<String>,
}

/// The changes that bring the watched set to the desired one.
pub struct WatchPlan {
    /// Watched directories no longer wanted.
    pub unwatch: Vec<String>,
    /// Wanted directories not yet watched, each once.
    pub watch: Vec<String>,
}

fn contains_string(v: &Vec<String>, s: &String) -> (r: bool)
    ensures
        r == strings_view(v@).contains(s@),
{
    let mut i: usize = 0;
    while i < v.len()
        invariant
            0 <= i <= v@.len(),
            forall|k: int| 0 <= k < i ==> v@[k]@ != s@,
        decreases v@.len() - i,
    {
        if v[i] == *s {
            proof {
                assert(strings_view(v@)[i as int] == s@);
            }
            return true;
        }
        i = i + 1;
    }
    proof {
        if strings_view(v@).contains(s@) {
            let k = choose|k: int| 0 <= k < v@.len() && strings_view(v@)[k] == s@;
        }
    }
    false
}

impl View for WatchRoots {
    type V = Set<Seq<char>>;

    closed spec fn view(&self) -> Set<Seq<char>> {
        strings_view(self.roots@).to_set()
    }
}

impl WatchRoots {
    pub closed spec fn wf(&self) -> bool {
        strings_view(self.roots@).no_duplicates()
    }

    pub fn new() -> (r: Self)
        ensures
            r.wf(),
            r@ == Set::<Seq<char>>::empty(),
    {
        let r = WatchRoots { roots: Vec::new() };
        assert(strings_view(r.roots@) =~= Seq::<Seq<char>>::empty());
        assert(strings_view(r.roots@).to_set() =~= Set::<Seq<char>>::empty());
        r
    }

    pub fn contains(&self, root: &String) -> (r: bool)
        ensures
            r == self@.contains(root@),
    {
        contains_string(&self.roots, root)
    }

    /// What to unwatch and what to watch so that exactly the `desired`
    /// directories are watched. Forgets the unwatched ones at once; the
    /// caller reports each watch that succeeds with `watched`.
    pub fn sync(&mut self, desired: &Vec<String>) -> (r: WatchPlan)
        requires
            old(self).wf(),
        ensures
            final(self).wf(),
            final(self)@ == old(self)@.intersect(strings_view(desired@).to_set()),
            strings_view(r.unwatch@).to_set() == old(self)@.difference(strings_view(desired@).to_set()),
            strings_view(r.watch@).no_duplicates(),
            strings_view(r.watch@).to_set() == strings_view(desired@).to_set().difference(old(self)@),
    {
        let ghost want = strings_view(desired@).to_set();
        let ghost before = self@;
        let mut keep: Vec<String> = Vec::new();
        let mut unwatch: Vec<String> = Vec::new();
        let mut i: usize = 0;
        while i < self.roots.len()
            invariant
                0 <= i <= self.roots@.len(),
                strings_view(self.roots@).no_duplicates(),
                want == strings_view(desired@).to_set(),
                strings_view(keep@).no_duplicates(),
                forall|x: Seq<char>|
                    #[trigger] strings_view(keep@).contains(x) <==> (strings_view(self.roots@).take(i as int).contains(x)
                        && want.contains(x)),
                forall|x: Seq<char>|
                    #[trigger] strings_view(unwatch@).contains(x) <==> (strings_view(self.roots@).take(i as int).contains(x)
                        && !want.contains(x)),
            decreases self.roots@.len() - i,
        {
            let r = &self.roots[i];
            let ghost rv = strings_view(self.roots@);
            let ghost t0 = rv.take(i as int);
            let ghost t1 = rv.take(i + 1);
            proof {
                assert(t1 =~= t0.push(r@));
                assert(rv[i as int] == r@);
                assert(!t0.contains(r@)) by {
                    if t0.contains(r@) {
                        let k = choose|k: int| 0 <= k < t0.len() && t0[k] == r@;
                        assert(rv[k] == rv[i as int]);
                    }
                }
            }
            let ghost pk = strings_view(keep@);
            let ghost pu = strings_view(unwatch@);
            proof {
                assert forall|x: Seq<char>| pk.contains(x) <==> (t0.contains(x) && want.contains(x)) by {
                    assert(strings_view(keep@).contains(x) <==> (strings_view(self.roots@).take(i as int).contains(x)
                        && want.contains(x)));
                }
                assert forall|x: Seq<char>| pu.contains(x) <==> (t0.contains(x) && !want.contains(x)) by {
                    assert(strings_view(unwatch@).contains(x) <==> (strings_view(self.roots@).take(i as int).contains(x)
                        && !want.contains(x)));
                }
            }
            let inwant = contains_string(desired, r);
            if inwant {
                keep.push(r.clone());
            } else {
                unwatch.push(r.clone());
            }
            proof {
                if inwant {
                    assert(strings_view(keep@) =~= pk.push(r@));
                    assert(strings_view(unwatch@) =~= pu);
                    assert(!pk.contains(r@));
                    lemma_push_distinct(pk, r@);
                } else {
                    assert(strings_view(unwatch@) =~= pu.push(r@));
                    assert(strings_view(keep@) =~= pk);
                }
                assert forall|x: Seq<char>| strings_view(keep@).contains(x) <==> (t1.contains(x) && want.contains(x)) by {
                    lemma_push_contains(t0, r@, x);
                    if inwant {
                        lemma_push_contains(pk, r@, x);
                    }
                }
                assert forall|x: Seq<char>| strings_view(unwatch@).contains(x) <==> (t1.contains(x) && !want.contains(x)) by {
                    lemma_push_contains(t0, r@, x);
                    if !inwant {
                        lemma_push_contains(pu, r@, x);
                    }
                }
            }
            i = i + 1;
        }
        proof {
            let rv = strings_view(self.roots@);
            assert(rv.take(self.roots@.len() as int) =~= rv);
            assert forall|x: Seq<char>| #[trigger] strings_view(keep@).contains(x) <==> (before.contains(x) && want.contains(x)) by {
                assert(strings_view(keep@).contains(x) <==> (rv.take(self.roots@.len() as int).contains(x) && want.contains(x)));
            }
            assert forall|x: Seq<char>| #[trigger] strings_view(unwatch@).contains(x) <==> (before.contains(x) && !want.contains(x)) by {
                assert(strings_view(unwatch@).contains(x) <==> (rv.take(self.roots@.len() as int).contains(x) && !want.contains(x)));
            }
        }
        let mut watch: Vec<String> = Vec::new();
        let mut j: usize = 0;
        while j < desired.len()
            invariant
                0 <= j <= desired@.len(),
                want == strings_view(desired@).to_set(),
                strings_view(watch@).no_duplicates(),
                forall|x: Seq<char>|
                    #[trigger] strings_view(watch@).contains(x) <==> (strings_view(desired@).take(j as int).contains(x) && !before.contains(x)),
                before == strings_view(self.roots@).to_set(),
                forall|x: Seq<char>| #[trigger] strings_view(keep@).contains(x) <==> (before.contains(x) && want.contains(x)),
                forall|x: Seq<char>| #[trigger] strings_view(unwatch@).contains(x) <==> (before.contains(x) && !want.contains(x)),
                strings_view(keep@).no_duplicates(),
            decreases desired@.len() - j,
        {
            let d = &desired[j];
            let ghost dv = strings_view(desired@);
            let ghost t0 = dv.take(j as int);
            let ghost t1 = dv.take(j + 1);
            let ghost pw = strings_view(watch@);
            proof {
                assert forall|x: Seq<char>| pw.contains(x) <==> (t0.contains(x) && !before.contains(x)) by {
                    assert(strings_view(watch@).contains(x) <==> (strings_view(desired@).take(j as int).contains(x)
                        && !before.contains(x)));
                }
                assert(t1 =~= t0.push(d@));
                assert(dv[j as int] == d@);
            }
            let fresh = !contains_string(&self.roots, d) && !contains_string(&watch, d);
            if fresh {
                watch.push(d.clone());
            }
            proof {
                if fresh {
                    assert(strings_view(watch@) =~= pw.push(d@));
                    lemma_push_distinct(pw, d@);
                } else {
                    assert(strings_view(watch@) =~= pw);
                }
                assert forall|x: Seq<char>| strings_view(watch@).contains(x) <==> (t1.contains(x) && !before.contains(x)) by {
                    lemma_push_contains(t0, d@, x);
                    if fresh {
                        lemma_push_contains(pw, d@, x);
                    }
                }
            }
            j = j + 1;
        }
        proof {
            assert(strings_view(desired@).take(desired@.len() as int) =~= strings_view(desired@));
        }
        self.roots = keep;
        proof {
            assert(self@ =~= before.intersect(want));
            assert(strings_view(unwatch@).to_set() =~= before.difference(want));
            assert(strings_view(watch@).to_set() =~= want.difference(before));
        }
        WatchPlan { unwatch, watch }
    }

    /// A directory is now watched.
    pub fn watched(&mut self, root: &String)
        requires
            old(self).wf(),
        ensures
            final(self).wf(),
            final(self)@ == old(self)@.insert(root@),
    {
        if !contains_string(&self.roots, root) {
            let ghost pv = strings_view(self.roots@);
            self.roots.push(root.clone());
            proof {
                let nv = strings_view(self.roots@);
                assert(nv =~= pv.push(root@));
                assert forall|a: int, b: int| 0 <= a < nv.len() && 0 <= b < nv.len() && a != b implies nv[a] != nv[b] by {
                    if a == pv.len() {
                        assert(pv.contains(nv[b]));
                    } else if b == pv.len() {
                        assert(pv.contains(nv[a]));
                    }
                }
                assert forall|x: Seq<char>| #[trigger] nv.to_set().contains(x) <==> pv.to_set().insert(root@).contains(x) by {
                    lemma_push_contains(pv, root@, x);
                }
                assert(self@ =~= old(self)@.insert(root@));
            }
        } else {
            proof {
                assert(self@ =~= old(self)@.insert(root@));
            }
        }
    }

    /// Watching a directory failed: it is not watched.
    pub fn unwatched(&mut self, root: &String)
        requires
            old(self).wf(),
        ensures
            final(self).wf(),
            final(self)@ == old(self)@.remove(root@),
    {
        let mut keep: Vec<String> = Vec::new();
        let mut i: usize = 0;
        let ghost rv = strings_view(self.roots@);
        while i < self.roots.len()
            invariant
                0 <= i <= self.roots@.len(),
                rv == strings_view(self.roots@),
                rv.no_duplicates(),
                strings_view(keep@).no_duplicates(),
                forall|x: Seq<char>| #[trigger] strings_view(keep@).contains(x) <==> (rv.take(i as int).contains(x) && x != root@),
            decreases self.roots@.len() - i,
        {
            let r = &self.roots[i];
            let ghost pk = strings_view(keep@);
            proof {
                assert(rv.take(i + 1) =~= rv.take(i as int).push(r@));
                assert(rv[i as int] == r@);
            }
            if !(*r == *root) {
                keep.push(r.clone());
                proof {
                    assert(strings_view(keep@) =~= pk.push(r@));
                    assert(!rv.take(i as int).contains(r@)) by {
                        if rv.take(i as int).contains(r@) {
                            let k = choose|k: int| 0 <= k < i && rv.take(i as int)[k] == r@;
                            assert(rv[k] == rv[i as int]);
                        }
                    }
                    assert forall|a: int, b: int| 0 <= a < strings_view(keep@).len() && 0 <= b < strings_view(keep@).len() && a != b
                        implies strings_view(keep@)[a] != strings_view(keep@)[b] by {
                        if a == pk.len() {
                            assert(pk.contains(strings_view(keep@)[b]));
                        } else if b == pk.len() {
                            assert(pk.contains(strings_view(keep@)[a]));
                        }
                    }
                }
            }
            proof {
                assert forall|x: Seq<char>| strings_view(keep@).contains(x) <==> (rv.take(i + 1).contains(x) && x != root@) by {
                    lemma_push_contains(pk, r@, x);
                    lemma_push_contains(rv.take(i as int), r@, x);
                }
            }
            i = i + 1;
        }
        proof {
            assert(rv.take(rv.len() as int) =~= rv);
        }
        self.roots = keep;
        proof {
            assert(self@ =~= old(self)@.remove(root@));
        }
    }
}

proof fn lemma_push_distinct(s: Seq<Seq<char>>, e: Seq<char>)
    requires
        s.no_duplicates(),
        !s.contains(e),
    ensures
        s.push(e).no_duplicates(),
{
    let n = s.push(e);
    assert forall|a: int, b: int| 0 <= a < n.len() && 0 <= b < n.len() && a != b implies n[a] != n[b] by {
        if a == s.len() {
            assert(s[b] == n[b]);
        } else if b == s.len() {
            assert(s[a] == n[a]);
        } else {
            assert(s[a] == n[a] && s[b] == n[b]);
        }
    }
}

proof fn lemma_push_contains(s: Seq<Seq<char>>, e: Seq<char>, x: Seq<char>)
    ensures
        s.push(e).contains(x) <==> (s.contains(x) || x == e),
{
    if s.contains(x) {
        let k = choose|k: int| 0 <= k < s.len() && s[k] == x;
        assert(s.push(e)[k] == x);
    }
    if x == e {
        assert(s.push(e)[s.len() as int] == x);
    }
    if s.push(e).contains(x) && x != e {
        let k = choose|k: int| 0 <= k < s.push(e).len() && s.push(e)[k] == x;
        assert(s[k] == x);
    }
}


/// The ancestors of a document, nearest first, without the document itself.
pub open spec fn parents_of(path: Seq<char>) -> Seq<Seq<char>> {
    let a = std_path_ancestors(path);
    if a.len() == 0 {
        a
    } else {
        a.drop_first()
    }
}

/// See `parents_of`.
pub fn document_parents(path: &String) -> (r: Vec<String>)
    ensures
        strings_view(r@) == parents_of(path@),
{
    let all = path_ancestors(path);
    let ghost a = all@.map_values(|s: String| s@);
    let mut out: Vec<String> = Vec::new();
    let mut i: usize = 1;
    while i < all.len()
        invariant
            1 <= i,
            i <= all@.len() || all@.len() == 0,
            a == all@.map_values(|s: String| s@),
            a == std_path_ancestors(path@),
            out@.len() == if all@.len() == 0 { 0 } else { i - 1 },
            forall|k: int| 0 <= k < out@.len() ==> #[trigger] out@[k]@ == a[k + 1],
        decreases all@.len() - i,
    {
        out.push(all[i].clone());
        i = i + 1;
    }
    proof {
        assert(strings_view(out@) =~= parents_of(path@));
    }
    out
}

/// The first `n` of the candidates that are directories, in order.
pub open spec fn first_dirs(c: Seq<(Seq<char>, bool)>, n: nat) -> Seq<Seq<char>>
    decreases c.len(),
{
    if c.len() == 0 || n == 0 {
        Seq::empty()
    } else if c[0].1 {
        seq![c[0].0] + first_dirs(c.drop_first(), (n - 1) as nat)
    } else {
        first_dirs(c.drop_first(), n)
    }
}

pub open spec fn candidates_view(c: Seq<(String, bool)>) -> Seq<(Seq<char>, bool)> {
    c.map_values(|x: (String, bool)| (x.0@, x.1))
}

/// The directories to watch for one document, given its parents (nearest
/// first) and which of them are directories: the nearest
/// `WATCHED_ANCESTORS` that are.
pub fn watch_targets(candidates: &Vec<(String, bool)>) -> (r: Vec<String>)
    ensures
        strings_view(r@) == first_dirs(candidates_view(candidates@), WATCHED_ANCESTORS as nat),
{
    let ghost cv = candidates_view(candidates@);
    let mut out: Vec<String> = Vec::new();
    let mut i: usize = 0;
    proof {
        assert(cv.skip(0) =~= cv);
        assert(strings_view(out@) =~= Seq::<Seq<char>>::empty());
        assert(strings_view(out@) + first_dirs(cv, WATCHED_ANCESTORS as nat) =~= first_dirs(cv, WATCHED_ANCESTORS as nat));
    }
    while i < candidates.len() && out.len() < WATCHED_ANCESTORS
        invariant
            0 <= i <= candidates@.len(),
            cv == candidates_view(candidates@),
            out@.len() <= WATCHED_ANCESTORS,
            first_dirs(cv, WATCHED_ANCESTORS as nat) == strings_view(out@) + first_dirs(
                cv.skip(i as int),
                (WATCHED_ANCESTORS - out@.len()) as nat,
            ),
        decreases candidates@.len() - i,
    {
        let ghost rest = cv.skip(i as int);
        let ghost n = (WATCHED_ANCESTORS - out@.len()) as nat;
        proof {
            assert(rest.drop_first() =~= cv.skip(i + 1));
            assert(rest[0] == (candidates@[i as int].0@, candidates@[i as int].1));
        }
        if candidates[i].1 {
            let ghost before = strings_view(out@);
            out.push(candidates[i].0.clone());
            proof {
                assert(strings_view(out@) =~= before.push(candidates@[i as int].0@));
                assert(first_dirs(rest, n) == seq![rest[0].0] + first_dirs(rest.drop_first(), (n - 1) as nat));
                assert(before + first_dirs(rest, n) =~= strings_view(out@) + first_dirs(cv.skip(i + 1), (n - 1) as nat));
            }
        }
        i = i + 1;
    }
    proof {
        let n = (WATCHED_ANCESTORS - out@.len()) as nat;
        if i == candidates@.len() {
            assert(cv.skip(i as int).len() == 0);
        }
        assert(first_dirs(cv.skip(i as int), n) =~= Seq::<Seq<char>>::empty());
        assert(strings_view(out@) + Seq::<Seq<char>>::empty() =~= strings_view(out@));
    }
    out
}

/// The directories watched after `sync` to `desired` and the reports for
/// its plan: those kept, and those of the plan's `watch` list whose watch
/// succeeded (`ok`; `watched` is called for them and `unwatched` for the
/// others).
pub open spec fn watched_after(before: Set<Seq<char>>, desired: Set<Seq<char>>, ok: Set<Seq<char>>) -> Set<Seq<char>> {
    before.intersect(desired).union(desired.difference(before).intersect(ok))
}

/// Watched directories follow the open documents: after a sync and its
/// reports only directories some document needs are watched; all of them
/// are when every new watch succeeds; and a sync without documents leaves
/// nothing watched.
pub proof fn law_watched_directories_follow_the_documents(
    before: Set<Seq<char>>,
    desired: Set<Seq<char>>,
    ok: Set<Seq<char>>,
)
    ensures
        watched_after(before, desired, ok).subset_of(desired),
        desired.difference(before).subset_of(ok) ==> watched_after(before, desired, ok) == desired,
        watched_after(before, Set::empty(), ok) == Set::<Seq<char>>::empty(),
{
    assert(watched_after(before, Set::empty(), ok) =~= Set::<Seq<char>>::empty());
    if desired.difference(before).subset_of(ok) {
        assert(watched_after(before, desired, ok) =~= desired);
    }
}

} // verus!
