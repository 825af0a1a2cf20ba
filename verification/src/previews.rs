//! Keeping the preview webviews in step with the previews the model holds:
//! which webviews close, which are created, moved or refreshed, and where
//! an HTML preview loads its local resources from.

use vstd::prelude::*;
use crate::paths::{path_parent, std_path_parent};

verus! {

/// What happens to one preview's webview this frame.
#[derive(Clone, Copy, Debug, PartialEq, Eq, Structural)]
pub enum PreviewAction {
    /// Nothing: the document is gone, or its content could not be rendered.
    Skip,
    /// Create the webview with fresh content.
    Create,
    /// Move the webview to the preview's rectangle.
    Reposition,
    /// Move it and load fresh content.
    RepositionAndRefresh,
}

/// Whether a preview's content must be rendered: its webview is new or its
/// document changed since it was last shown.
pub open spec fn wants_content_spec(has_webview: bool, needs_refresh: bool) -> bool {
    !has_webview || needs_refresh
}

pub fn wants_content(has_webview: bool, needs_refresh: bool) -> (r: bool)
    ensures
        r == wants_content_spec(has_webview, needs_refresh),
{
    !has_webview || needs_refresh
}

pub open spec fn preview_action_spec(
    document_present: bool,
    has_webview: bool,
    needs_refresh: bool,
    content_ready: bool,
) -> PreviewAction {
    if !document_present || (wants_content_spec(has_webview, needs_refresh) && !content_ready) {
        PreviewAction::Skip
    } else if !has_webview {
        PreviewAction::Create
    } else if needs_refresh {
        PreviewAction::RepositionAndRefresh
    } else {
        PreviewAction::Reposition
    }
}

/// The action for one preview: `content_ready` says whether content was
/// rendered, when `wants_content` asked for it.
pub fn preview_action(document_present: bool, has_webview: bool, needs_refresh: bool, content_ready: bool) -> (r:
    PreviewAction)
    ensures
        r == preview_action_spec(document_present, has_webview, needs_refresh, content_ready),
{
    if !document_present || (wants_content(has_webview, needs_refresh) && !content_ready) {
        PreviewAction::Skip
    } else if !has_webview {
        PreviewAction::Create
    } else if needs_refresh {
        PreviewAction::RepositionAndRefresh
    } else {
        PreviewAction::Reposition
    }
}

/// Whether the preview records the document revision as shown: after a
/// successful creation, or a refresh.
pub fn records_revision(action: PreviewAction, created: bool) -> (r: bool)
    ensures
        r == ((action == PreviewAction::Create && created) || action == PreviewAction::RepositionAndRefresh),
{
    match action {
        PreviewAction::Create => created,
        PreviewAction::RepositionAndRefresh => true,
        _ => false,
    }
}

/// The webviews to close: those of previews the model no longer holds, in
/// the order the webviews are listed.
pub open spec fn to_close(previews: Seq<u64>, active: Seq<u64>) -> Seq<u64> {
    active.filter(|id: u64| !previews.contains(id))
}

fn holds(ids: &Vec<u64>, id: u64) -> (r: bool)
    ensures
        r == ids@.contains(id),
{
    let mut i: usize = 0;
    while i < ids.len()
        invariant
            0 <= i <= ids@.len(),
            forall|k: int| 0 <= k < i ==> ids@[k] != id,
        decreases ids@.len() - i,
    {
        if ids[i] == id {
            return true;
        }
        i = i + 1;
    }
    false
}

/// See `to_close`.
pub fn webviews_to_close(previews: &Vec<u64>, active: &Vec<u64>) -> (r: Vec<u64>)
    ensures
        r@ == to_close(previews@, active@),
{
    let mut out: Vec<u64> = Vec::new();
    let mut i: usize = 0;
    while i < active.len()
        invariant
            0 <= i <= active@.len(),
            out@ == to_close(previews@, active@.take(i as int)),
        decreases active@.len() - i,
    {
        proof {
            assert(active@.take(i + 1).drop_last() =~= active@.take(i as int));
            assert(active@.take(i + 1).last() == active@[i as int]);
            reveal_with_fuel(Seq::filter, 1);
        }
        if !holds(previews, active[i]) {
            out.push(active[i]);
        }
        i = i + 1;
    }
    proof {
        assert(active@.take(active@.len() as int) =~= active@);
    }
    out
}

/// The directory an HTML preview loads local resources from: its file's
/// parent directory. Other previews, and files without a parent, load
/// none.
pub fn resource_base(is_html: bool, file_path: Option<&String>) -> (r: Option<String>)
    ensures
        match r {
            Some(dir) => is_html && (file_path matches Some(f) && std_path_parent(f@) == Some(dir@)),
            None => !is_html || file_path is None || (file_path matches Some(f) && std_path_parent(f@) is None),
        },
{
    if !is_html {
        return None;
    }
    match file_path {
        Some(f) => path_parent(f),
        None => None,
    }
}

/// A webview is created once: after its creation the preview has a
/// webview, so the same preview is never created again while it stays.
pub proof fn law_webview_created_once(needs_refresh: bool, content_ready: bool)
    ensures
        preview_action_spec(true, true, needs_refresh, content_ready) != PreviewAction::Create,
{
}

/// A preview whose webview closes is not among the model's previews, and
/// every webview without a preview closes.
pub proof fn law_closed_webviews_are_orphans(previews: Seq<u64>, active: Seq<u64>, id: u64)
    ensures
        to_close(previews, active).contains(id) <==> (active.contains(id) && !previews.contains(id)),
{
    let f = |x: u64| !previews.contains(x);
    let c = active.filter(f);
    if c.contains(id) {
        active.lemma_filter_contains_rev(f, id);
        let k = choose|k: int| 0 <= k < c.len() && c[k] == id;
        active.lemma_filter_pred(f, k);
    }
    if active.contains(id) && !previews.contains(id) {
        let k = choose|k: int| 0 <= k < active.len() && active[k] == id;
        active.lemma_filter_contains(f, k);
    }
}

} // verus!
