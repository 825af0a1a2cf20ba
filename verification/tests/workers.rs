use token_runtime::automation::diagnostics_publish_outcome;
use token_runtime::diagnostics_publish::{coalesce_publishes, PublishItem};
use token_runtime::latest_worker::LatestSlot;
use token_runtime::previews::{preview_action, records_revision, resource_base, wants_content, webviews_to_close, PreviewAction};
use token_runtime::stale_diagnostics::{clear_repaint, stale_for_roots, ClearRepaint, OpenRoute, StoredPublish};
use token_runtime::syntax_queue::{ParseQueue, SyntaxWork};
use token_runtime::terminal_spawn::{SpawnAction, SpawnEvent, TerminalSpawns};

#[test]
fn syntax_queue_keeps_only_the_latest_request_per_document() {
    let mut q: ParseQueue<&str> = ParseQueue::new();
    assert_eq!(q.handle(SyntaxWork::Parse(1, "rev 1")), None);
    assert_eq!(q.handle(SyntaxWork::Parse(2, "other")), None);
    assert_eq!(q.handle(SyntaxWork::Parse(1, "rev 2")), None);
    let mut batch = q.drain();
    batch.sort();
    assert_eq!(batch, vec![(1, "rev 2"), (2, "other")]);
    assert!(q.drain().is_empty());
}

#[test]
fn syntax_queue_clear_drops_the_queued_parse() {
    let mut q: ParseQueue<String> = ParseQueue::new();
    q.request(4, "text".to_string());
    q.request(5, "more".to_string());
    assert_eq!(q.handle(SyntaxWork::Clear(4)), Some(4));
    assert_eq!(q.handle(SyntaxWork::Clear(9)), Some(9));
    assert_eq!(q.remove(4), None);
    assert_eq!(q.drain(), vec![(5, "more".to_string())]);
}

fn route(document_id: u64, server_id: &str, root: &str, uri: &str) -> OpenRoute {
    OpenRoute {
        document_id,
        server_id: server_id.to_string(),
        root: root.to_string(),
        uri: uri.to_string(),
    }
}

#[test]
fn crashed_server_roots_stale_open_and_stored_diagnostics() {
    let open = vec![
        route(1, "rust-analyzer", "/ws/a", "file:///ws/a/src/lib.rs"),
        route(2, "rust-analyzer", "/ws/b", "file:///ws/b/main.rs"),
        route(3, "pyright", "/ws/a", "file:///ws/a/tool.py"),
        route(4, "rust-analyzer", "/ws/a/", "file:///ws/a/build.rs"),
    ];
    let stored = vec![
        StoredPublish { uri: "file:///ws/a/src/lib.rs".to_string(), path: Some("/ws/a/src/lib.rs".to_string()) },
        StoredPublish { uri: "file:///ws/a/closed.rs".to_string(), path: Some("/ws/a/closed.rs".to_string()) },
        StoredPublish { uri: "file:///ws/ab/x.rs".to_string(), path: Some("/ws/ab/x.rs".to_string()) },
        StoredPublish { uri: "untitled:1".to_string(), path: None },
    ];
    let stale = stale_for_roots(&open, &stored, &"rust-analyzer".to_string(), &vec!["/ws/a".to_string()]);
    assert_eq!(stale.documents, vec![1, 4]);
    let mut uris = stale.uris.clone();
    uris.sort();
    assert_eq!(
        uris,
        vec![
            "file:///ws/a/build.rs".to_string(),
            "file:///ws/a/closed.rs".to_string(),
            "file:///ws/a/src/lib.rs".to_string(),
        ]
    );
}

#[test]
fn no_roots_stale_nothing() {
    let open = vec![route(1, "rust-analyzer", "/ws/a", "file:///ws/a/src/lib.rs")];
    let stored = vec![StoredPublish { uri: "file:///ws/a/x.rs".to_string(), path: Some("/ws/a/x.rs".to_string()) }];
    let stale = stale_for_roots(&open, &stored, &"rust-analyzer".to_string(), &Vec::new());
    assert!(stale.documents.is_empty());
    assert!(stale.uris.is_empty());
}

fn publish(uri: &str, version: Option<i64>, stored: Option<i64>) -> Option<PublishItem> {
    Some(PublishItem { uri: uri.to_string(), version, stored })
}

#[test]
fn stale_version_publish_in_one_drain_is_dropped() {
    let batch = vec![publish("file:///main.rs", Some(2), None), None, publish("file:///main.rs", Some(1), None)];
    assert_eq!(coalesce_publishes(&batch), vec![true, true, false]);
}

#[test]
fn successive_publishes_coalesce_to_the_newest() {
    let batch = vec![
        publish("file:///a.rs", Some(1), None),
        publish("file:///b.rs", None, None),
        publish("file:///a.rs", Some(3), None),
        publish("file:///b.rs", None, None),
        publish("file:///a.rs", Some(3), None),
        None,
    ];
    assert_eq!(coalesce_publishes(&batch), vec![false, false, false, true, true, true]);
}

#[test]
fn publishes_older_than_the_stored_version_are_never_applied() {
    let batch = vec![publish("file:///a.rs", Some(4), Some(5)), publish("file:///c.rs", Some(1), Some(1))];
    assert_eq!(coalesce_publishes(&batch), vec![false, true]);
    let unversioned = vec![publish("file:///a.rs", None, Some(5))];
    assert_eq!(coalesce_publishes(&unversioned), vec![true]);
}

#[test]
fn clearing_diagnostics_for_a_root_sweeps_the_model_mirror_including_unopened_files() {
    let stored = vec![StoredPublish {
        uri: "file:///tmp/proj-clear-mirror/unopened.rs".to_string(),
        path: Some("/tmp/proj-clear-mirror/unopened.rs".to_string()),
    }];
    let stale = stale_for_roots(
        &Vec::new(),
        &stored,
        &"rust-analyzer".to_string(),
        &vec!["/tmp/proj-clear-mirror".to_string()],
    );
    assert_eq!(stale.uris, vec!["file:///tmp/proj-clear-mirror/unopened.rs".to_string()]);
    assert!(stale.documents.is_empty());
}

#[test]
fn webviews_follow_the_model_previews() {
    assert_eq!(webviews_to_close(&vec![1, 3], &vec![3, 2, 1, 7]), vec![2, 7]);
    assert!(webviews_to_close(&vec![1], &Vec::new()).is_empty());
    assert!(wants_content(false, false));
    assert!(wants_content(true, true));
    assert!(!wants_content(true, false));
    assert_eq!(preview_action(false, false, true, true), PreviewAction::Skip);
    assert_eq!(preview_action(true, false, false, false), PreviewAction::Skip);
    assert_eq!(preview_action(true, false, false, true), PreviewAction::Create);
    assert_eq!(preview_action(true, true, false, false), PreviewAction::Reposition);
    assert_eq!(preview_action(true, true, true, true), PreviewAction::RepositionAndRefresh);
    assert!(records_revision(PreviewAction::Create, true));
    assert!(!records_revision(PreviewAction::Create, false));
    assert!(records_revision(PreviewAction::RepositionAndRefresh, false));
    assert!(!records_revision(PreviewAction::Reposition, true));
}

#[test]
fn html_previews_load_resources_next_to_their_file() {
    let file = "/site/pages/index.html".to_string();
    assert_eq!(resource_base(true, Some(&file)), Some("/site/pages".to_string()));
    assert_eq!(resource_base(false, Some(&file)), None);
    assert_eq!(resource_base(true, None), None);
    assert_eq!(resource_base(true, Some(&"/".to_string())), None);
}

#[test]
fn terminal_spawn_result_is_discarded_when_request_is_cancelled() {
    let mut spawns = TerminalSpawns::new();
    assert!(spawns.request(99));
    spawns.clear_pending(99);
    let actions = spawns.reports(&vec![SpawnEvent::Spawned(99)], true);
    assert_eq!(actions, vec![SpawnAction::Kill(99)]);
    assert!(!spawns.is_pending(99));
}

#[test]
fn pending_terminal_spawn_is_kept_after_the_panel_moves_docks() {
    let mut spawns = TerminalSpawns::new();
    assert!(spawns.request(99));
    // The terminal panel moved to another dock and was hidden there: it
    // is still present, so the requested terminal is kept.
    assert_eq!(spawns.reports(&vec![SpawnEvent::Spawned(99)], true), vec![SpawnAction::Keep(99)]);
    assert!(!spawns.is_pending(99));
}

#[test]
fn ignored_terminal_spawn_command_clears_its_pending_marker() {
    let mut spawns = TerminalSpawns::new();
    assert!(spawns.request(6));
    spawns.mark_pending(7);
    assert!(!spawns.request(7));
    assert!(!spawns.is_pending(7));
    assert!(spawns.is_pending(6));
}

#[test]
fn duplicate_terminal_spawn_command_preserves_in_flight_pending_marker() {
    let mut spawns = TerminalSpawns::new();
    assert!(spawns.request(7));
    assert!(!spawns.request(7));
    assert!(spawns.is_pending(7));
}

#[test]
fn a_failed_or_vanished_spawn_ends_the_flight() {
    let mut spawns = TerminalSpawns::new();
    assert!(spawns.request(3));
    assert_eq!(spawns.reports(&vec![SpawnEvent::Failed], true), vec![SpawnAction::ReportFailure]);
    assert!(!spawns.is_pending(3));
    assert!(spawns.request(4));
    assert!(spawns.reports(&Vec::new(), true).is_empty());
    assert!(spawns.is_pending(4));
    assert_eq!(spawns.reports(&vec![SpawnEvent::Disconnected], true), vec![SpawnAction::Nothing]);
    assert!(!spawns.is_pending(4));
    assert!(spawns.request(5), "a new spawn may start once the flight ended");
}

#[test]
fn clearing_diagnostics_for_a_root_damages_the_editor_area() {
    let open = vec![route(1, "rust-analyzer", "/tmp/proj-clear-damage", "file:///tmp/proj-clear-damage/main.rs")];
    let stale = stale_for_roots(&open, &Vec::new(), &"rust-analyzer".to_string(), &vec!["/tmp/proj-clear-damage".to_string()]);
    assert_eq!(stale.documents, vec![1]);
    // The document had a mark, and the Problems panel is closed.
    assert_eq!(clear_repaint(true, false), ClearRepaint::Editor);
    assert_eq!(clear_repaint(false, true), ClearRepaint::Full);
    assert_eq!(clear_repaint(false, false), ClearRepaint::Nothing);
}

#[test]
fn find_async_worker_coalesces_pending_requests_and_runs_off_thread() {
    let mut slot: LatestSlot<&str> = LatestSlot::new();
    assert_eq!(slot.submit("foo"), Some("foo"));
    assert_eq!(slot.submit("bar"), None);
    assert_eq!(slot.submit("absent"), None);
    assert!(slot.cancelled(), "the running scan is told it was overtaken");
    // The first scan ends: its result is stale, the latest request runs.
    assert_eq!(slot.finished(), (false, Some("absent")));
    assert!(!slot.cancelled());
    assert_eq!(slot.finished(), (true, None));
}

#[test]
fn find_async_worker_drop_does_not_wait_for_computation_or_publish_after_stop() {
    let mut slot: LatestSlot<&str> = LatestSlot::new();
    assert_eq!(slot.submit("foo"), Some("foo"));
    slot.stop();
    assert!(slot.cancelled());
    assert!(slot.stopped());
    assert_eq!(slot.finished(), (false, None), "nothing publishes after stop");
    assert_eq!(slot.submit("bar"), None);
}

#[test]
fn a_drain_stores_its_last_fresh_publish_and_keeps_the_version_rising() {
    let stored = Some(5);
    let versions = [Some(7), Some(6), None, Some(9), Some(8), Some(2)];
    let batch: Vec<_> = versions.iter().map(|v| publish("file:///a.rs", *v, stored)).collect();
    let applied = coalesce_publishes(&batch);
    assert_eq!(applied, vec![false, false, false, true, false, false]);
    let winner = applied.iter().position(|a| *a).unwrap();
    assert_eq!(diagnostics_publish_outcome(versions[winner], stored), (true, Some(9)));
}
