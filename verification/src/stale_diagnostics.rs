//! Which diagnostics go stale when a language server's roots go away (a
//! crash or a manual restart): those of every document the server served
//! under those roots, open or not.

use vstd::prelude::*;
use crate::paths::{path_starts_with, std_path_starts_with};

verus! {

/// The server route of an open document.
pub struct OpenRoute {
    pub document_id: u64,
    pub server_id: String,
    pub root: String,
    pub uri: String,
}

/// A stored diagnostics publish: its URI and, when the URI names a local
/// file, that file's path.
pub struct StoredPublish {
    pub uri: String,
    pub path: Option<String>,
}

/// What to clear: the open documents whose marks go, and every URI whose
/// stored diagnostics go.
pub struct StaleDiagnostics {
    pub documents: Vec<u64>,
    pub uris: Vec<String>,
}

/// Two paths with the same components, as `Path` equality compares them:
/// each is a whole-component prefix of the other.
pub open spec fn same_path(a: Seq<char>, b: Seq<char>) -> bool {
    std_path_starts_with(a, b) && std_path_starts_with(b, a)
}

/// An open document served by `server_id` under one of `roots`.
pub open spec fn affected(o: OpenRoute, server_id: Seq<char>, roots: Seq<Seq<char>>) -> bool {
    o.server_id@ == server_id && exists|j: int| 0 <= j < roots.len() && same_path(o.root@, roots[j])
}

/// A stored publish for a file under one of `roots`.
pub open spec fn under_roots(p: StoredPublish, roots: Seq<Seq<char>>) -> bool {
    p.path matches Some(path) && exists|j: int| 0 <= j < roots.len() && std_path_starts_with(path@, roots[j])
}

/// The URIs whose diagnostics go stale.
pub open spec fn stale_uri(
    open: Seq<OpenRoute>,
    stored: Seq<StoredPublish>,
    server_id: Seq<char>,
    roots: Seq<Seq<char>>,
    uri: Seq<char>,
) -> bool {
    (exists|i: int| 0 <= i < open.len() && affected(open[i], server_id, roots) && open[i].uri@ == uri)
        || (exists|i: int| 0 <= i < stored.len() && under_roots(stored[i], roots) && stored[i].uri@ == uri)
}

/// The ids of the affected open documents, in order.
pub open spec fn affected_ids(open: Seq<OpenRoute>, server_id: Seq<char>, roots: Seq<Seq<char>>) -> Seq<u64>
    decreases open.len(),
{
    if open.len() == 0 {
        Seq::empty()
    } else {
        let rest = affected_ids(open.drop_last(), server_id, roots);
        if affected(open.last(), server_id, roots) {
            rest.push(open.last().document_id)
        } else {
            rest
        }
    }
}

pub open spec fn uris_view(s: Seq<String>) -> Seq<Seq<char>> {
    s.map_values(|u: String| u@)
}

fn matches_root(path: &String, roots: &Vec<String>, whole: bool) -> (r: bool)
    ensures
        whole ==> (r <==> exists|j: int| 0 <= j < roots@.len() && same_path(path@, roots@[j]@)),
        !whole ==> (r <==> exists|j: int| 0 <= j < roots@.len() && std_path_starts_with(path@, roots@[j]@)),
{
    let mut j: usize = 0;
    while j < roots.len()
        invariant
            0 <= j <= roots@.len(),
            whole ==> forall|k: int| 0 <= k < j ==> !same_path(path@, roots@[k]@),
            !whole ==> forall|k: int| 0 <= k < j ==> !std_path_starts_with(path@, roots@[k]@),
        decreases roots@.len() - j,
    {
        let hit = if whole {
            path_starts_with(path, &roots[j]) && path_starts_with(&roots[j], path)
        } else {
            path_starts_with(path, &roots[j])
        };
        if hit {
            return true;
        }
        j = j + 1;
    }
    false
}

fn push_new(uris: &mut Vec<String>, uri: &String)
    requires
        uris_view(old(uris)@).no_duplicates(),
    ensures
        uris_view(final(uris)@).no_duplicates(),
        forall|u: Seq<char>| uris_view(final(uris)@).contains(u) <==> (uris_view(old(uris)@).contains(u) || u == uri@),
{
    let mut k: usize = 0;
    while k < uris.len()
        invariant
            0 <= k <= uris@.len(),
            uris@ == old(uris)@,
            uris_view(uris@).no_duplicates(),
            forall|m: int| 0 <= m < k ==> uris@[m]@ != uri@,
        decreases uris@.len() - k,
    {
        if uris[k] == *uri {
            proof {
                assert(uris_view(uris@)[k as int] == uri@);
            }
            return;
        }
        k = k + 1;
    }
    let ghost before = uris_view(uris@);
    uris.push(uri.clone());
    proof {
        let after = uris_view(uris@);
        assert(after =~= before.push(uri@));
        assert(!before.contains(uri@)) by {
            if before.contains(uri@) {
                let m = choose|m: int| 0 <= m < before.len() && before[m] == uri@;
                assert(uris@[m]@ == uri@);
            }
        }
        assert forall|u: Seq<char>| after.contains(u) <==> (before.contains(u) || u == uri@) by {
            if after.contains(u) {
                let m = choose|m: int| 0 <= m < after.len() && after[m] == u;
                if m < before.len() {
                    assert(before[m] == u);
                }
            }
            if before.contains(u) {
                let m = choose|m: int| 0 <= m < before.len() && before[m] == u;
                assert(after[m] == u);
            }
            if u == uri@ {
                assert(after[before.len() as int] == u);
            }
        }
    }
}

/// The diagnostics made stale by the roots `roots` of server `server_id`
/// going away: the marks of the open documents it served under those roots,
/// and the stored diagnostics of those documents and of every file under
/// those roots, each URI once.
pub fn stale_for_roots(
    open: &Vec<OpenRoute>,
    stored: &Vec<StoredPublish>,
    server_id: &String,
    roots: &Vec<String>,
) -> (r: StaleDiagnostics)
    ensures
        r.documents@ == affected_ids(open@, server_id@, uris_view(roots@)),
        uris_view(r.uris@).no_duplicates(),
        forall|u: Seq<char>| #![trigger uris_view(r.uris@).contains(u)] uris_view(r.uris@).contains(u) <==> stale_uri(
            open@,
            stored@,
            server_id@,
            uris_view(roots@),
            u,
        ),
{
    let ghost rv = uris_view(roots@);
    let mut documents: Vec<u64> = Vec::new();
    let mut uris: Vec<String> = Vec::new();
    let mut i: usize = 0;
    while i < open.len()
        invariant
            0 <= i <= open@.len(),
            rv == uris_view(roots@),
            documents@ == affected_ids(open@.take(i as int), server_id@, rv),
            uris_view(uris@).no_duplicates(),
            forall|u: Seq<char>| uris_view(uris@).contains(u) <==> exists|k: int|
                0 <= k < i && affected(open@[k], server_id@, rv) && open@[k].uri@ == u,
        decreases open@.len() - i,
    {
        let o = &open[i];
        proof {
            assert(open@.take(i + 1).drop_last() =~= open@.take(i as int));
            assert(open@.take(i + 1).last() == open@[i as int]);
        }
        let hit = o.server_id == *server_id && matches_root(&o.root, roots, true);
        proof {
            assert(hit == affected(open@[i as int], server_id@, rv)) by {
                if affected(open@[i as int], server_id@, rv) {
                    let j = choose|j: int| 0 <= j < rv.len() && same_path(o.root@, rv[j]);
                    assert(rv[j] == roots@[j]@);
                }
                if hit {
                    let j = choose|j: int| 0 <= j < roots@.len() && same_path(o.root@, roots@[j]@);
                    assert(rv[j] == roots@[j]@);
                }
            }
        }
        if hit {
            documents.push(o.document_id);
            push_new(&mut uris, &o.uri);
        }
        i = i + 1;
    }
    proof {
        assert(open@.take(open@.len() as int) =~= open@);
    }
    let mut s: usize = 0;
    while s < stored.len()
        invariant
            0 <= s <= stored@.len(),
            rv == uris_view(roots@),
            uris_view(uris@).no_duplicates(),
            forall|u: Seq<char>| uris_view(uris@).contains(u) <==> ((exists|k: int|
                0 <= k < open@.len() && affected(open@[k], server_id@, rv) && open@[k].uri@ == u) || (exists|k: int|
                0 <= k < s && under_roots(stored@[k], rv) && stored@[k].uri@ == u)),
        decreases stored@.len() - s,
    {
        let p = &stored[s];
        let hit = match &p.path {
            Some(path) => matches_root(path, roots, false),
            None => false,
        };
        proof {
            assert(hit == under_roots(stored@[s as int], rv)) by {
                if let Some(path) = p.path {
                    if under_roots(stored@[s as int], rv) {
                        let j = choose|j: int| 0 <= j < rv.len() && std_path_starts_with(path@, rv[j]);
                        assert(rv[j] == roots@[j]@);
                    }
                    if hit {
                        let j = choose|j: int| 0 <= j < roots@.len() && std_path_starts_with(path@, roots@[j]@);
                        assert(rv[j] == roots@[j]@);
                    }
                }
            }
        }
        if hit {
            push_new(&mut uris, &p.uri);
        }
        s = s + 1;
    }
    StaleDiagnostics { documents, uris }
}


/// What a clear repaints.
#[derive(Clone, Copy, Debug, PartialEq, Eq, Structural)]
pub enum ClearRepaint {
    /// Nothing visible changed.
    Nothing,
    /// Marks went from the editor: repaint the editor area (its gutter may
    /// narrow).
    Editor,
    /// The Problems panel shows rows that went: repaint everything.
    Full,
}

/// The repaint after clearing: the whole window when the Problems panel is
/// open, else the editor when a cleared document had marks.
pub fn clear_repaint(any_had_marks: bool, problems_panel_open: bool) -> (r: ClearRepaint)
    ensures
        r == if problems_panel_open {
            ClearRepaint::Full
        } else if any_had_marks {
            ClearRepaint::Editor
        } else {
            ClearRepaint::Nothing
        },
{
    if problems_panel_open {
        ClearRepaint::Full
    } else if any_had_marks {
        ClearRepaint::Editor
    } else {
        ClearRepaint::Nothing
    }
}

} // verus!
