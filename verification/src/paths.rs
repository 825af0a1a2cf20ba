//! File-system paths as strings, with the component rules of `std::path`.
//! Paths are POSIX paths: the library runs on Unix, where `/` is the only
//! separator.

use vstd::prelude::*;

verus! {

/// Whether `base` is a prefix of `path`, whole components only, as
/// `std::path::Path::starts_with` decides it.
pub uninterp spec fn std_path_starts_with(path: Seq<char>, base: Seq<char>) -> bool;

/// Calls `Path::starts_with`; the contract names its result, which depends
/// on the two paths alone.
#[verifier::external_body]
pub(crate) fn path_starts_with(path: &String, base: &String) -> (r: bool)
    ensures
        r == std_path_starts_with(path@, base@),
{
    std::path::Path::new(path.as_str()).starts_with(std::path::Path::new(base.as_str()))
}

/// The rest of `path` after the whole components of `base`, as
/// `Path::strip_prefix` gives it; `None` when `base` is not a prefix.
pub uninterp spec fn std_path_strip_prefix(path: Seq<char>, base: Seq<char>) -> Option<Seq<char>>;

/// Calls `Path::strip_prefix` and turns the rest back into a string; the
/// contract names the result, which depends on the two paths alone.
#[verifier::external_body]
pub(crate) fn path_strip_prefix(path: &String, base: &String) -> (r: Option<String>)
    ensures
        match r {
            Some(s) => std_path_strip_prefix(path@, base@) == Some(s@),
            None => std_path_strip_prefix(path@, base@) is None,
        },
{
    match std::path::Path::new(path.as_str()).strip_prefix(base.as_str()) {
        Ok(rest) => match rest.to_str() {
            Some(s) => Some(s.to_string()),
            None => None,
        },
        Err(_) => None,
    }
}

/// The last component of a path, as `Path::file_name` gives it.
pub uninterp spec fn std_path_file_name(path: Seq<char>) -> Option<Seq<char>>;

/// Calls `Path::file_name`; the contract names the result, which depends
/// on the path alone.
#[verifier::external_body]
pub(crate) fn path_file_name(path: &String) -> (r: Option<String>)
    ensures
        match r {
            Some(s) => std_path_file_name(path@) == Some(s@),
            None => std_path_file_name(path@) is None,
        },
{
    match std::path::Path::new(path.as_str()).file_name() {
        Some(name) => match name.to_str() {
            Some(s) => Some(s.to_string()),
            None => None,
        },
        None => None,
    }
}

/// The ancestors of a path, the path itself first, as `Path::ancestors`
/// lists them.
pub uninterp spec fn std_path_ancestors(path: Seq<char>) -> Seq<Seq<char>>;

/// Collects `Path::ancestors`; the contract names the result, which
/// depends on the path alone.
#[verifier::external_body]
pub(crate) fn path_ancestors(path: &String) -> (r: Vec<String>)
    ensures
        r@.map_values(|s: String| s@) == std_path_ancestors(path@),
{
    let mut out = Vec::new();
    for ancestor in std::path::Path::new(path.as_str()).ancestors() {
        out.push(ancestor.to_string_lossy().into_owned());
    }
    out
}

/// `base` joined with `name`, as `Path::join` builds it.
pub uninterp spec fn std_path_join(base: Seq<char>, name: Seq<char>) -> Seq<char>;

/// Calls `Path::join`; the contract names the result, which depends on the
/// two paths alone.
#[verifier::external_body]
pub(crate) fn path_join(base: &String, name: &str) -> (r: String)
    ensures
        r@ == std_path_join(base@, name@),
{
    std::path::Path::new(base.as_str()).join(name).to_string_lossy().into_owned()
}

/// Whether a path is absolute, as `Path::is_absolute` decides it.
pub uninterp spec fn std_path_is_absolute(path: Seq<char>) -> bool;

/// Calls `Path::is_absolute`; the contract names the result, which depends
/// on the path alone.
#[verifier::external_body]
pub(crate) fn path_is_absolute(path: &String) -> (r: bool)
    ensures
        r == std_path_is_absolute(path@),
{
    std::path::Path::new(path.as_str()).is_absolute()
}

/// The path without its last component, as `Path::parent` gives it; `None`
/// for a root or an empty path.
pub uninterp spec fn std_path_parent(path: Seq<char>) -> Option<Seq<char>>;

/// Calls `Path::parent`; the contract names the result, which depends on
/// the path alone.
#[verifier::external_body]
pub(crate) fn path_parent(path: &String) -> (r: Option<String>)
    ensures
        match r {
            Some(s) => std_path_parent(path@) == Some(s@),
            None => std_path_parent(path@) is None,
        },
{
    match std::path::Path::new(path.as_str()).parent() {
        Some(parent) => Some(parent.to_string_lossy().into_owned()),
        None => None,
    }
}

/// One component of a path, as `std::path::Component` has it.
#[derive(Clone, Debug)]
pub enum PathPart {
    Prefix(String),
    Root,
    Current,
    Parent,
    Normal(String),
}

/// A path component by value.
pub ghost enum PartView {
    Prefix(Seq<char>),
    Root,
    Current,
    Parent,
    Normal(Seq<char>),
}

impl View for PathPart {
    type V = PartView;

    open spec fn view(&self) -> PartView {
        match self {
            PathPart::Prefix(s) => PartView::Prefix(s@),
            PathPart::Root => PartView::Root,
            PathPart::Current => PartView::Current,
            PathPart::Parent => PartView::Parent,
            PathPart::Normal(s) => PartView::Normal(s@),
        }
    }
}

pub open spec fn parts_view(s: Seq<PathPart>) -> Seq<PartView> {
    s.map_values(|p: PathPart| p@)
}

/// The components of a path, as `Path::components` lists them.
pub uninterp spec fn std_path_components(path: Seq<char>) -> Seq<PartView>;

/// A file name as a normal component holds it: not empty, no separator, and
/// neither `.` nor `..`.
pub open spec fn is_name(n: Seq<char>) -> bool {
    &&& n.len() > 0
    &&& !n.contains('/')
    &&& n != seq!['.']
    &&& n != seq!['.', '.']
}

/// Components with nothing left to resolve: a root, if any, first, and
/// then names only.
pub open spec fn plain_parts(p: Seq<PartView>) -> bool {
    forall|i: int|
        0 <= i < p.len() ==> ((#[trigger] p[i]) is Root && i == 0) || (p[i] matches PartView::Normal(n) && is_name(n))
}

/// No component is a (Windows) prefix.
pub open spec fn no_prefix(p: Seq<PartView>) -> bool {
    forall|i: int| 0 <= i < p.len() ==> !((#[trigger] p[i]) is Prefix)
}

/// Calls `Path::components`; the contract names the result, which depends
/// on the path alone, and claims what the documentation of `Component`
/// gives: a normal component is a name (separators split components, and `.`
/// and `..` are components of their own), and the root comes first, or right
/// after a prefix. On Unix an absolute path is one that has a root, so its
/// first component is the root.
#[verifier::external_body]
pub(crate) fn path_components(path: &String) -> (r: Vec<PathPart>)
    ensures
        parts_view(r@) == std_path_components(path@),
        forall|i: int|
            0 <= i < r@.len() ==> ((#[trigger] parts_view(r@)[i]) matches PartView::Normal(n) ==> is_name(n)),
        forall|i: int|
            0 <= i < r@.len() ==> ((#[trigger] parts_view(r@)[i]) is Root ==> (i == 0 || (i == 1
                && parts_view(r@)[0] is Prefix))),
        std_path_is_absolute(path@) ==> r@.len() > 0 && parts_view(r@)[0] is Root,
{
    let mut out = Vec::new();
    for part in std::path::Path::new(path.as_str()).components() {
        out.push(match part {
            std::path::Component::Prefix(p) => PathPart::Prefix(p.as_os_str().to_string_lossy().into_owned()),
            std::path::Component::RootDir => PathPart::Root,
            std::path::Component::CurDir => PathPart::Current,
            std::path::Component::ParentDir => PathPart::Parent,
            std::path::Component::Normal(n) => PathPart::Normal(n.to_string_lossy().into_owned()),
        });
    }
    out
}

/// The path that pushing these components onto an empty `PathBuf` builds.
pub uninterp spec fn std_path_from_parts(parts: Seq<PartView>) -> Seq<char>;

/// Pushes the components onto a new `PathBuf`; the contract names the
/// result, which depends on the components alone, and claims that a root
/// followed by names, or names alone, read back as the same components:
/// pushing the root gives `/`, and pushing a name appends it after one
/// separator. A path that starts with the root is absolute on Unix.
#[verifier::external_body]
pub(crate) fn path_from_parts(parts: &Vec<PathPart>) -> (r: String)
    ensures
        r@ == std_path_from_parts(parts_view(parts@)),
        plain_parts(parts_view(parts@)) ==> std_path_components(r@) == parts_view(parts@),
        plain_parts(parts_view(parts@)) && parts@.len() > 0 && parts_view(parts@)[0] is Root ==> std_path_is_absolute(r@),
{
    let mut path = std::path::PathBuf::new();
    for part in parts {
        match part {
            PathPart::Prefix(p) => path.push(p),
            PathPart::Root => path.push(std::path::MAIN_SEPARATOR_STR),
            PathPart::Current => path.push("."),
            PathPart::Parent => path.push(".."),
            PathPart::Normal(n) => path.push(n),
        }
    }
    path.to_string_lossy().into_owned()
}

/// The components of a relative path that are appended to a base: all of
/// them but a leading `.`.
pub open spec fn appended_parts(parts: Seq<PartView>) -> Seq<PartView> {
    if parts.len() > 0 && parts[0] is Current {
        parts.drop_first()
    } else {
        parts
    }
}

/// Calls `std::path::absolute`, which makes a path absolute without touching
/// the file system, by POSIX rules on Unix: `.` and repeated separators go,
/// `..` stays. An absolute path needs nothing else, so it never fails and
/// keeps its components. A relative one is appended to the current
/// directory, so the result ends with its components (but a leading `.`);
/// which directory that is depends on the process's environment and is not
/// named, and getting it may fail.
#[verifier::external_body]
pub(crate) fn absolute_path(path: &str) -> (r: Option<String>)
    ensures
        r matches Some(a) ==> std_path_is_absolute(a@),
        r matches Some(a) ==> (std_path_is_absolute(path@) ==> std_path_components(a@) == std_path_components(path@)),
        r matches Some(a) ==> (!std_path_is_absolute(path@) ==> std_path_components(a@).len() >= appended_parts(
            std_path_components(path@),
        ).len() && std_path_components(a@).subrange(
            std_path_components(a@).len() - appended_parts(std_path_components(path@)).len(),
            std_path_components(a@).len() as int,
        ) == appended_parts(std_path_components(path@))),
        std_path_is_absolute(path@) ==> r is Some,
{
    match std::path::absolute(path) {
        Ok(p) => Some(p.to_string_lossy().into_owned()),
        Err(_) => None,
    }
}

/// Components after resolving `.` and `..` lexically: `.` disappears and
/// `..` removes the name before it, if any (never a root).
pub open spec fn normalize_parts_spec(parts: Seq<PartView>) -> Seq<PartView>
    decreases parts.len(),
{
    if parts.len() == 0 {
        Seq::empty()
    } else {
        let r = normalize_parts_spec(parts.drop_last());
        match parts.last() {
            PartView::Current => r,
            PartView::Parent => if r.len() > 0 && r.last() is Normal {
                r.drop_last()
            } else {
                r
            },
            p => r.push(p),
        }
    }
}

/// Components as `Path::components` lists them when there is no prefix: the
/// root, if any, first, and names as normal components.
pub open spec fn listed_parts(p: Seq<PartView>) -> bool {
    &&& no_prefix(p)
    &&& forall|i: int| 0 <= i < p.len() ==> ((#[trigger] p[i]) is Root ==> i == 0)
    &&& forall|i: int| 0 <= i < p.len() ==> ((#[trigger] p[i]) matches PartView::Normal(n) ==> is_name(n))
}

proof fn lemma_normalize_is_plain(p: Seq<PartView>)
    requires
        listed_parts(p),
    ensures
        plain_parts(normalize_parts_spec(p)),
    decreases p.len(),
{
    if p.len() > 0 {
        let init = p.drop_last();
        assert(listed_parts(init)) by {
            assert forall|i: int| 0 <= i < init.len() implies !((#[trigger] init[i]) is Prefix) by {
                assert(init[i] == p[i]);
            }
        }
        lemma_normalize_is_plain(init);
        let r = normalize_parts_spec(init);
        let last = p[p.len() - 1];
        assert(!(last is Prefix));
        if last is Root {
            assert(p.len() - 1 == 0);
            assert(init.len() == 0);
            assert(r.len() == 0);
            assert(r.push(last)[0] == last);
        } else if last is Normal {
            let q = r.push(last);
            assert forall|i: int| 0 <= i < q.len() implies ((#[trigger] q[i]) is Root && i == 0) || (q[i] matches PartView::Normal(n) && is_name(n)) by {
                if i < r.len() {
                    assert(q[i] == r[i]);
                }
            }
        } else if last is Parent && r.len() > 0 && r.last() is Normal {
            let q = r.drop_last();
            assert forall|i: int| 0 <= i < q.len() implies ((#[trigger] q[i]) is Root && i == 0) || (q[i] matches PartView::Normal(n) && is_name(n)) by {
                assert(q[i] == r[i]);
            }
        }
    }
}

proof fn lemma_plain_parts_are_normal(p: Seq<PartView>)
    requires
        plain_parts(p),
    ensures
        normalize_parts_spec(p) == p,
    decreases p.len(),
{
    if p.len() > 0 {
        let init = p.drop_last();
        assert(plain_parts(init)) by {
            assert forall|i: int| 0 <= i < init.len() implies ((#[trigger] init[i]) is Root && i == 0) || (init[i] matches PartView::Normal(n) && is_name(n)) by {
                assert(init[i] == p[i]);
            }
        }
        lemma_plain_parts_are_normal(init);
        assert(p[p.len() - 1] is Root || p[p.len() - 1] is Normal);
        assert(init.push(p.last()) =~= p);
    }
}

proof fn lemma_normalize_keeps_root(p: Seq<PartView>)
    requires
        p.len() > 0,
        p[0] is Root,
    ensures
        normalize_parts_spec(p).len() > 0,
        normalize_parts_spec(p)[0] is Root,
    decreases p.len(),
{
    if p.len() == 1 {
        assert(p.drop_last().len() == 0);
    } else {
        let init = p.drop_last();
        assert(init[0] == p[0]);
        lemma_normalize_keeps_root(init);
        let r = normalize_parts_spec(init);
        if r.len() == 1 {
            assert(!(r.last() is Normal));
        }
        assert(r.push(p.last())[0] == r[0]);
    }
}

/// Normalizing leaves nothing to normalize: what comes out of it is a root,
/// if any, and names, and normalizing that again changes nothing.
pub proof fn law_normalizing_is_idempotent(p: Seq<PartView>)
    requires
        listed_parts(p),
    ensures
        plain_parts(normalize_parts_spec(p)),
        normalize_parts_spec(normalize_parts_spec(p)) == normalize_parts_spec(p),
{
    lemma_normalize_is_plain(p);
    lemma_plain_parts_are_normal(normalize_parts_spec(p));
}

fn copy_part(p: &PathPart) -> (r: PathPart)
    ensures
        r@ == p@,
{
    match p {
        PathPart::Prefix(s) => PathPart::Prefix(s.clone()),
        PathPart::Root => PathPart::Root,
        PathPart::Current => PathPart::Current,
        PathPart::Parent => PathPart::Parent,
        PathPart::Normal(s) => PathPart::Normal(s.clone()),
    }
}

/// Resolve `.` and `..` components lexically; see `normalize_parts_spec`.
pub fn normalize_parts(parts: &Vec<PathPart>) -> (r: Vec<PathPart>)
    ensures
        parts_view(r@) == normalize_parts_spec(parts_view(parts@)),
{
    let mut out: Vec<PathPart> = Vec::new();
    let mut i: usize = 0;
    while i < parts.len()
        invariant
            0 <= i <= parts@.len(),
            parts_view(out@) == normalize_parts_spec(parts_view(parts@).take(i as int)),
        decreases parts@.len() - i,
    {
        let ghost pv = parts_view(parts@);
        proof {
            assert(pv.take(i + 1).drop_last() =~= pv.take(i as int));
            assert(pv.take(i + 1).last() == parts@[i as int]@);
        }
        let ghost prev = out@;
        match &parts[i] {
            PathPart::Current => {},
            PathPart::Parent => {
                let pop = match out.last() {
                    Some(PathPart::Normal(_)) => true,
                    _ => false,
                };
                if pop {
                    let _ = out.pop();
                    proof {
                        assert(parts_view(out@) =~= parts_view(prev).drop_last());
                    }
                }
            },
            p => {
                out.push(copy_part(p));
                proof {
                    assert(parts_view(out@) =~= parts_view(prev).push(p@));
                }
            },
        }
        i = i + 1;
    }
    proof {
        assert(parts_view(parts@).take(parts@.len() as int) =~= parts_view(parts@));
    }
    out
}

/// A path with `.` and `..` resolved lexically, without touching the file
/// system. Its components are a root, if any, and names (no `.` or `..`
/// is left), and normalizing it again gives it back.
pub fn normalized(path: &String) -> (r: String)
    ensures
        r@ == std_path_from_parts(normalize_parts_spec(std_path_components(path@))),
        no_prefix(std_path_components(path@)) ==> plain_parts(std_path_components(r@))
            && std_path_components(r@) == normalize_parts_spec(std_path_components(path@)),
        no_prefix(std_path_components(path@)) ==> r@ == std_path_from_parts(
            normalize_parts_spec(std_path_components(r@)),
        ),
        no_prefix(std_path_components(path@)) && std_path_is_absolute(path@) ==> std_path_is_absolute(r@),
{
    let parts = path_components(path);
    let norm = normalize_parts(&parts);
    let r = path_from_parts(&norm);
    proof {
        let c = std_path_components(path@);
        if no_prefix(c) {
            assert(listed_parts(c)) by {
                assert forall|i: int| 0 <= i < c.len() implies ((#[trigger] c[i]) is Root ==> i == 0) by {
                    assert(c[i] == parts_view(parts@)[i]);
                }
                assert forall|i: int| 0 <= i < c.len() implies ((#[trigger] c[i]) matches PartView::Normal(n) ==> is_name(n)) by {
                    assert(c[i] == parts_view(parts@)[i]);
                }
            }
            law_normalizing_is_idempotent(c);
            if std_path_is_absolute(path@) {
                lemma_normalize_keeps_root(c);
            }
        }
    }
    r
}

/// How a path was made absolute: an absolute path keeps its components; a
/// relative one ends up after some absolute base, with its components but a
/// leading `.`.
pub open spec fn absolutized(path: Seq<char>, absolute: Seq<char>) -> bool {
    let a = std_path_components(absolute);
    let tail = appended_parts(std_path_components(path));
    &&& std_path_is_absolute(absolute)
    &&& std_path_is_absolute(path) ==> a == std_path_components(path)
    &&& !std_path_is_absolute(path) ==> a.len() >= tail.len() && a.subrange(a.len() - tail.len(), a.len() as int)
        == tail
}

/// A path made absolute (relative to the current directory, or unchanged
/// when that directory cannot be had) and then normalized lexically;
/// symlinks are not resolved. A path that is already absolute is only
/// normalized, and normalizing the result again changes nothing.
pub fn absolute_normalized(path: &str) -> (r: String)
    ensures
        exists|absolute: Seq<char>|
            #![trigger std_path_components(absolute)]
            (absolute == path@ || absolutized(path@, absolute)) && r@ == std_path_from_parts(
                normalize_parts_spec(std_path_components(absolute)),
            ),
        std_path_is_absolute(path@) ==> r@ == std_path_from_parts(normalize_parts_spec(std_path_components(path@))),
        std_path_is_absolute(path@) && no_prefix(std_path_components(path@)) ==> plain_parts(std_path_components(r@))
            && r@ == std_path_from_parts(normalize_parts_spec(std_path_components(r@))) && std_path_is_absolute(r@),
{
    let absolute = match absolute_path(path) {
        Some(a) => a,
        None => path.to_owned(),
    };
    let r = normalized(&absolute);
    proof {
        assert((absolute@ == path@ || absolutized(path@, absolute@)) && r@ == std_path_from_parts(
            normalize_parts_spec(std_path_components(absolute@)),
        ));
    }
    r
}

} // verus!
