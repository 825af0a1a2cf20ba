use token_runtime::lsp_supervisor::{
    restart_backoff_ms, LspSupervisor, RestartState, MAX_DETACHED_ROOTS, MAX_RESTART_ATTEMPTS,
};

fn s(text: &str) -> String {
    text.to_string()
}

/// A running server at `root` whose process has `generation`.
fn running(sup: &mut LspSupervisor, server: &str, root: &str, generation: u64) {
    let (server, root) = (s(server), s(root));
    assert!(sup.begin_spawn(&server, &root));
    sup.spawn_finished(&server, &root, Some(generation));
}

#[test]
fn exited_message_with_stale_generation_is_ignored() {
    let mut sup = LspSupervisor::new();
    let server_id = s("rust-analyzer");
    let root = s("/tmp/proj-a");
    let real_generation = 7;
    running(&mut sup, "rust-analyzer", "/tmp/proj-a", real_generation);

    // A generation that doesn't match the live process (an EOF from a
    // process already killed and replaced) must not touch the current one
    // or count a crash.
    let exited = sup.server_exited(&server_id, real_generation.wrapping_add(1), 0);

    assert!(exited.is_empty());
    assert!(sup.is_running(&server_id, &root));
    assert_eq!(sup.restart_attempts(&server_id, &root), None);
}

#[test]
fn exited_message_with_matching_generation_removes_handle_and_bumps_attempts() {
    let mut sup = LspSupervisor::new();
    let server_id = s("rust-analyzer");
    let root = s("/tmp/proj-b");
    running(&mut sup, "rust-analyzer", "/tmp/proj-b", 3);

    let exited = sup.server_exited(&server_id, 3, 1_000);

    assert!(!sup.is_running(&server_id, &root));
    assert_eq!(sup.restart_attempts(&server_id, &root), Some(1));
    assert_eq!(exited.len(), 1);
    assert_eq!(exited[0].root, root);
    assert_eq!(exited[0].state, RestartState::Restarting(1));
    assert_eq!(sup.restart_deadline(&server_id, &root), Some(1_200));
}

/// The backoff-window duplicate-spawn race: a crash removes the dead
/// process and arms a backoff deadline; a file open during that window
/// starts a replacement directly, and the deadline that fires later must not
/// start a second process on top of it.
#[test]
fn restart_deadline_does_not_duplicate_spawn_a_root_already_running() {
    let mut sup = LspSupervisor::new();
    let server_id = s("rust-analyzer");
    let root = s("/tmp/proj-backoff-race");
    running(&mut sup, "rust-analyzer", "/tmp/proj-backoff-race", 1);
    sup.server_exited(&server_id, 1, 0);
    assert_eq!(sup.restart_deadline(&server_id, &root), Some(200));

    // The concurrent respawn during the backoff window.
    running(&mut sup, "rust-analyzer", "/tmp/proj-backoff-race", 2);

    let due = sup.take_due_restarts(200);
    assert_eq!(due.len(), 1);
    assert_eq!(due[0].server_id, server_id);
    assert_eq!(due[0].root, root);
    assert_eq!(sup.restart_deadline(&server_id, &root), None);
    sup.mark_resync(&server_id, &root);
    // The guard short-circuits: the running process is kept.
    assert!(!sup.begin_spawn(&server_id, &root));
    assert_eq!(sup.generation(&server_id, &root), Some(2));
}

#[test]
fn restart_attempts_are_scoped_per_root_not_per_server_id() {
    let mut sup = LspSupervisor::new();
    let server_id = s("rust-analyzer");
    let root_a = s("/tmp/proj-c");
    let root_b = s("/tmp/proj-d");
    running(&mut sup, "rust-analyzer", "/tmp/proj-c", 11);
    sup.server_exited(&server_id, 11, 0);

    // root_b never crashed; its count must stay untouched by root_a's.
    assert_eq!(sup.restart_attempts(&server_id, &root_a), Some(1));
    assert_eq!(sup.restart_attempts(&server_id, &root_b), None);
}

#[test]
fn exceeding_max_restart_attempts_reports_failed_and_retains_the_root() {
    let mut sup = LspSupervisor::new();
    let server_id = s("rust-analyzer");
    let root = s("/tmp/proj-e");
    let mut last = Vec::new();
    for generation in 0..=u64::from(MAX_RESTART_ATTEMPTS) {
        running(&mut sup, "rust-analyzer", "/tmp/proj-e", generation);
        last = sup.server_exited(&server_id, generation, 0);
    }

    assert_eq!(sup.restart_attempts(&server_id, &root), Some(MAX_RESTART_ATTEMPTS + 1));
    assert_eq!(last[0].state, RestartState::Failed);
    assert!(!sup.is_running(&server_id, &root));
    // The root is remembered: a manual restart, with nothing running, uses it.
    assert_eq!(sup.restart_roots(&server_id), vec![root.clone()]);
}

#[test]
fn manual_restart_falls_back_to_failed_roots_when_no_handle_is_running() {
    let mut sup = LspSupervisor::new();
    let server_id = s("rust-analyzer");
    let root = s("/tmp/proj-f");
    for generation in 0..=u64::from(MAX_RESTART_ATTEMPTS) {
        running(&mut sup, "rust-analyzer", "/tmp/proj-f", generation);
        sup.server_exited(&server_id, generation, 0);
    }

    // Nothing runs for the server anywhere, so the restart falls back to
    // the roots it gave up on instead of silently doing nothing.
    sup.reset_for_manual_restart(&server_id);
    let roots = sup.restart_roots(&server_id);
    assert_eq!(roots, vec![root.clone()]);
    assert!(sup.restart_roots(&server_id).is_empty(), "the failed roots are forgotten once used");
    assert_eq!(sup.restart_attempts(&server_id, &root), None);
}

#[test]
fn detached_roots_are_capped_and_further_roots_are_not_spawned() {
    let mut sup = LspSupervisor::new();
    let server_id = s("rust-analyzer");
    let mut roots = Vec::new();
    for i in 0..MAX_DETACHED_ROOTS + 1 {
        let root = format!("/tmp/detached/proj{i}");
        // No workspace: every root is detached.
        if let Some(claim) = sup.ensure_decision(&server_id, &root, None) {
            assert!(sup.begin_spawn(&server_id, &root));
            sup.spawn_finished(&server_id, &root, Some(i as u64));
            if claim {
                sup.claim_detached_root(&root);
            }
        }
        roots.push(root);
    }

    assert_eq!(sup.detached_roots().len(), MAX_DETACHED_ROOTS);
    assert!(!sup.detached_roots().contains(roots.last().unwrap()));
    for root in &roots[..MAX_DETACHED_ROOTS] {
        assert!(sup.detached_roots().contains(root));
    }
    assert!(!sup.is_running(&server_id, roots.last().unwrap()));
}

#[test]
fn missing_server_is_memoized_and_not_retried_on_repeated_opens() {
    let mut sup = LspSupervisor::new();
    let server_id = s("rust-analyzer");
    let root_dir = s("/tmp/missing/proj");

    let claim = sup.ensure_decision(&server_id, &root_dir, None);
    assert_eq!(claim, Some(true));
    assert!(sup.begin_spawn(&server_id, &root_dir));
    // The binary could not be started.
    sup.spawn_finished(&server_id, &root_dir, None);
    assert!(sup.is_missing(&server_id, &root_dir));
    assert!(sup.detached_roots().is_empty(), "a failed spawn must not consume a detached-root slot");

    // Repeated opens of the same missing-server file are a silent no-op.
    for _ in 0..3 {
        assert_eq!(sup.ensure_decision(&server_id, &root_dir, None), None);
    }
    assert!(sup.detached_roots().is_empty());
}

#[test]
fn restart_command_clears_the_missing_server_memo() {
    let mut sup = LspSupervisor::new();
    let server_id = s("rust-analyzer");
    let root = s("/tmp/proj-missing-restart");
    assert!(sup.begin_spawn(&server_id, &root));
    sup.spawn_finished(&server_id, &root, None);
    assert!(sup.is_missing(&server_id, &root));

    sup.reset_for_manual_restart(&server_id);

    assert!(!sup.is_missing(&server_id, &root));
}

#[test]
fn quit_with_an_unhandshaked_server_does_not_pay_the_graceful_shutdown_timeout() {
    let mut sup = LspSupervisor::new();
    let server_id = s("rust-analyzer");
    let root = s("/tmp/proj-quit-unhandshaked");
    running(&mut sup, "rust-analyzer", "/tmp/proj-quit-unhandshaked", 4);

    let keys = sup.begin_quit();

    assert_eq!(keys.len(), 1);
    assert_eq!(keys[0].server_id, server_id);
    assert_eq!(keys[0].root, root);
    assert!(!sup.is_running(&server_id, &root));
    // The kill's exit message is expected and restarts nothing.
    assert!(sup.server_exited(&server_id, 4, 0).is_empty());
    assert_eq!(sup.restart_attempts(&server_id, &root), None);
}

#[test]
fn backoff_doubles_from_two_hundred_milliseconds_up_to_five_seconds() {
    assert_eq!(restart_backoff_ms(1), 200);
    assert_eq!(restart_backoff_ms(2), 400);
    assert_eq!(restart_backoff_ms(3), 800);
    assert_eq!(restart_backoff_ms(5), 3_200);
    assert_eq!(restart_backoff_ms(6), 5_000);
    assert_eq!(restart_backoff_ms(200), 5_000);
}

#[test]
fn readiness_clears_the_crash_count_and_reports_a_pending_resync() {
    let mut sup = LspSupervisor::new();
    let server_id = s("sema");
    let root = s("/w");
    running(&mut sup, "sema", "/w", 1);
    sup.server_exited(&server_id, 1, 0);
    let due = sup.take_due_restarts(1_000);
    assert_eq!(due.len(), 1);
    sup.mark_resync(&server_id, &root);
    assert!(sup.begin_spawn(&server_id, &root));
    sup.spawn_finished(&server_id, &root, Some(2));
    assert!(sup.server_ready(&server_id, &root));
    assert_eq!(sup.restart_attempts(&server_id, &root), None);
    assert!(!sup.server_ready(&server_id, &root), "the resync happens once");
}

#[test]
fn a_manual_restart_of_a_running_server_stops_every_root_and_resyncs_them() {
    let mut sup = LspSupervisor::new();
    let server_id = s("gopls");
    running(&mut sup, "gopls", "/a", 1);
    running(&mut sup, "gopls", "/b", 2);
    running(&mut sup, "other", "/a", 3);
    let mut roots = sup.restart_roots(&server_id);
    roots.sort();
    assert_eq!(roots, vec![s("/a"), s("/b")]);
    assert!(!sup.is_running(&server_id, &s("/a")));
    assert!(sup.is_running(&s("other"), &s("/a")));
    assert!(sup.server_ready(&server_id, &s("/b")));
}

#[test]
fn teardown_forgets_given_up_roots_and_workspace_roots_need_no_slot() {
    let mut sup = LspSupervisor::new();
    let server_id = s("clangd");
    running(&mut sup, "clangd", "/ws/project", 1);
    let mut roots = sup.teardown_server(&server_id);
    roots.sort();
    assert_eq!(roots, vec![s("/ws/project")]);
    assert!(!sup.is_running(&server_id, &s("/ws/project")));
    let workspace = s("/ws");
    assert_eq!(sup.ensure_decision(&server_id, &s("/ws/project"), Some(&workspace)), Some(false));
    assert_eq!(sup.ensure_decision(&server_id, &s("/elsewhere"), Some(&workspace)), Some(true));
    sup.enable_all();
    let all = sup.teardown_all();
    assert!(all.is_empty());
}

#[test]
fn roots_are_listed_per_server_and_settings_changes_reenable_missing_servers() {
    let mut sup = LspSupervisor::new();
    running(&mut sup, "rust-analyzer", "/ws/a", 1);
    running(&mut sup, "rust-analyzer", "/ws/b", 2);
    running(&mut sup, "pyright", "/ws/a", 3);
    let mut roots = sup.roots_for(&s("rust-analyzer"));
    roots.sort();
    assert_eq!(roots, vec![s("/ws/a"), s("/ws/b")]);
    assert_eq!(sup.roots_for(&s("gopls")), Vec::<String>::new());

    assert!(sup.begin_spawn(&s("gopls"), &s("/ws/c")));
    sup.spawn_finished(&s("gopls"), &s("/ws/c"), None);
    assert!(sup.begin_spawn(&s("clangd"), &s("/ws/c")));
    sup.spawn_finished(&s("clangd"), &s("/ws/c"), None);
    sup.enable_server(&s("gopls"));
    assert!(!sup.is_missing(&s("gopls"), &s("/ws/c")));
    assert!(sup.is_missing(&s("clangd"), &s("/ws/c")));
    sup.enable_all();
    assert!(!sup.is_missing(&s("clangd"), &s("/ws/c")));

    assert!(!sup.is_shutting_down());
    sup.set_shutting_down(true);
    assert!(sup.is_shutting_down());
}
