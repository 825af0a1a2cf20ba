use token_runtime::automation::{
    action_list, answer_exit_waiters, arms_did_change_debounce, diagnostics_publish_outcome, waiter_for, frame_presented, frame_profile_request, syntax_profile_gate, ActionEntry, clamped_document_position, cursor_target, is_stale_diagnostics_publish, open_path, poll_document_waiters,
    should_skip_non_global_keymap, DocumentWaiter, KeymapFocus,
};
use token_runtime::event_loop::{next_wake, WakeInputs, MAINTENANCE_WAKE_MS};

fn inputs(now: u64) -> WakeInputs {
    WakeInputs {
        now,
        last_tick: now,
        cursor_blink_ms: 500,
        deadlines: Vec::new(),
        hover_dwell_started: None,
        hover_delay_ms: 500,
    }
}

#[test]
fn next_wake_ignores_an_expired_dwell_deadline() {
    let now = 10_000;
    let mut w = inputs(now);
    w.hover_dwell_started = Some(now - 1_000);
    assert!(next_wake(&w) > now, "a past dwell deadline must not schedule an immediate (spinning) wake-up");
}

#[test]
fn settings_blink_off_uses_a_positive_maintenance_interval() {
    let now = 10_000;
    let mut w = inputs(now);
    w.cursor_blink_ms = 0;
    w.last_tick = now;
    assert_eq!(next_wake(&w), now + MAINTENANCE_WAKE_MS);
    assert!(next_wake(&w) > now);
}

#[test]
fn the_earliest_deadline_or_a_pending_dwell_wins() {
    let now = 10_000;
    let mut w = inputs(now);
    assert_eq!(next_wake(&w), now + 500);
    w.deadlines = vec![now + 900, now + 120, now + 300];
    assert_eq!(next_wake(&w), now + 120);
    w.hover_dwell_started = Some(now - 450);
    assert_eq!(next_wake(&w), now + 50);
}

#[test]
fn deadlines_already_past_do_not_schedule_a_spinning_wake_up() {
    let now = 1_000;
    let mut w = inputs(now);
    w.cursor_blink_ms = 0;
    w.deadlines = vec![500];
    assert_eq!(next_wake(&w), now + MAINTENANCE_WAKE_MS);
    w.deadlines = vec![500, now, now + 40, 900];
    assert_eq!(next_wake(&w), now + 40);
}

#[test]
fn open_paths_places_cursor_at_one_indexed_position() {
    let request = open_path("/tmp/a.rs", Some(2), Some(6));
    assert_eq!(request.path, "/tmp/a.rs");
    assert_eq!(cursor_target(request.line, request.column), Some((1, 5)));
    assert_eq!(cursor_target(Some(3), None), Some((2, 0)));
    assert_eq!(cursor_target(Some(0), Some(0)), Some((0, 0)));
    assert_eq!(cursor_target(None, Some(4)), None);
}

#[test]
fn startup_position_is_clamped_to_the_document() {
    let lines = vec![8, 8, 10, 0];
    assert_eq!(clamped_document_position(&lines, 1, 4), (1, 4));
    assert_eq!(clamped_document_position(&lines, 2, 40), (2, 10));
    assert_eq!(clamped_document_position(&lines, 99, 3), (3, 0));
}

#[test]
fn open_paths_wait_defers_until_the_tab_closes() {
    let mut waiters = vec![DocumentWaiter { remaining: vec![1], exit_only: false, ticket: 7 }];
    assert!(poll_document_waiters(&mut waiters, &vec![1, 2]).is_empty());
    assert_eq!(waiters.len(), 1);
    assert_eq!(poll_document_waiters(&mut waiters, &vec![2]), vec![7]);
    assert!(waiters.is_empty());
}

#[test]
fn open_paths_wait_on_two_files_answers_after_both_close() {
    let mut waiters = vec![DocumentWaiter { remaining: vec![1, 2], exit_only: false, ticket: 3 }];
    assert!(poll_document_waiters(&mut waiters, &vec![2]).is_empty());
    assert_eq!(waiters[0].remaining, vec![2]);
    assert_eq!(poll_document_waiters(&mut waiters, &vec![]), vec![3]);
}

#[test]
fn open_paths_wait_without_files_answers_only_on_exit() {
    let mut waiters = vec![
        DocumentWaiter { remaining: Vec::new(), exit_only: true, ticket: 1 },
        DocumentWaiter { remaining: vec![5], exit_only: false, ticket: 2 },
    ];
    assert_eq!(poll_document_waiters(&mut waiters, &vec![]), vec![2]);
    assert_eq!(waiters.len(), 1);
    assert_eq!(waiters[0].ticket, 1);
    assert!(poll_document_waiters(&mut waiters, &vec![]).is_empty());
    assert_eq!(answer_exit_waiters(&mut waiters), vec![1], "exit answers every waiter");
    assert!(waiters.is_empty());
}

#[test]
fn exit_answers_every_waiter_in_order() {
    let mut waiters = vec![
        DocumentWaiter { remaining: vec![4], exit_only: false, ticket: 8 },
        DocumentWaiter { remaining: Vec::new(), exit_only: true, ticket: 2 },
        DocumentWaiter { remaining: vec![4, 6], exit_only: false, ticket: 5 },
    ];
    assert_eq!(answer_exit_waiters(&mut waiters), vec![8, 2, 5]);
    assert!(waiters.is_empty());
    assert!(answer_exit_waiters(&mut waiters).is_empty());
}

#[test]
fn stale_diagnostics_are_only_older_versioned_publishes() {
    assert!(is_stale_diagnostics_publish(Some(3), Some(4)));
    assert!(!is_stale_diagnostics_publish(Some(4), Some(4)));
    assert!(!is_stale_diagnostics_publish(None, Some(4)));
    assert!(!is_stale_diagnostics_publish(Some(1), None));
}

#[test]
fn only_global_bindings_apply_in_modals_docks_and_after_option_double_tap() {
    let none = KeymapFocus {
        has_modal: false,
        option_double_tapped: false,
        alt_pressed: false,
        sidebar_focused: false,
        outline_dock_focused: false,
        problems_dock_focused: false,
        terminal_dock_focused: false,
        csv_editing: false,
    };
    assert!(!should_skip_non_global_keymap(none));
    assert!(should_skip_non_global_keymap(KeymapFocus { has_modal: true, ..none }));
    assert!(!should_skip_non_global_keymap(KeymapFocus { option_double_tapped: true, ..none }));
    assert!(should_skip_non_global_keymap(KeymapFocus { option_double_tapped: true, alt_pressed: true, ..none }));
    assert!(should_skip_non_global_keymap(KeymapFocus { terminal_dock_focused: true, ..none }));
}

fn action(name: &str, label: &str, keybinding: &str) -> ActionEntry {
    ActionEntry { name: name.to_string(), label: label.to_string(), keybinding: keybinding.to_string() }
}

#[test]
fn action_list_is_sorted_by_name_with_the_first_binding_of_each() {
    let bindings = vec![
        action("Save", "Save", "Cmd+S"),
        action("Copy", "Copy", "Cmd+C"),
        action("Save", "Save", "Ctrl+S"),
        action("CursorUp", "Cursor Up", "Up"),
        action("Copy", "Copy", "Ctrl+Insert"),
    ];
    let listed = action_list(&bindings);
    let names: Vec<&str> = listed.iter().map(|a| a.name.as_str()).collect();
    assert_eq!(names, vec!["Copy", "CursorUp", "Save"]);
    assert_eq!(listed[0].keybinding, "Cmd+C");
    assert_eq!(listed[2].keybinding, "Cmd+S");
    assert!(action_list(&Vec::new()).is_empty());
}

#[test]
fn frame_profiles_are_bounded_and_exclusive() {
    assert_eq!(frame_profile_request(0, false), Err("frames must be between 1 and 10000"));
    assert_eq!(frame_profile_request(10_001, false), Err("frames must be between 1 and 10000"));
    assert_eq!(frame_profile_request(5, true), Err("a frame profile is already running"));
    assert_eq!(frame_profile_request(10_000, false), Ok(10_000));
}

#[test]
fn frame_profile_answers_after_its_last_frame() {
    let mut remaining = frame_profile_request(3, false).unwrap();
    let mut frames = 0;
    loop {
        frames += 1;
        match frame_presented(remaining) {
            Some(left) => remaining = left,
            None => break,
        }
    }
    assert_eq!(frames, 3);
    assert_eq!(frame_presented(1), None);
}

#[test]
fn syntax_profile_checks_come_in_order() {
    assert_eq!(syntax_profile_gate(true, true, false), Err("profile text must not be empty"));
    assert_eq!(syntax_profile_gate(false, true, false), Err("a syntax profile is already running"));
    assert_eq!(syntax_profile_gate(false, false, false), Err("the active document has no syntax highlighter"));
    assert_eq!(syntax_profile_gate(false, false, true), Ok(()));
}

#[test]
fn open_paths_directory_is_not_awaited_on_documents() {
    // Only a directory was opened: no document to wait for.
    let waiter = waiter_for(&Vec::new(), 7);
    assert!(waiter.exit_only);
    let mut waiters = vec![waiter];
    assert!(poll_document_waiters(&mut waiters, &vec![]).is_empty());
    assert!(waiters.iter().all(|waiter| waiter.exit_only));
}

#[test]
fn a_waiter_waits_for_each_opened_document_once() {
    let waiter = waiter_for(&vec![4, 9, 4], 3);
    assert!(!waiter.exit_only);
    assert_eq!(waiter.ticket, 3);
    let mut remaining = waiter.remaining.clone();
    remaining.sort();
    assert_eq!(remaining, vec![4, 9]);
}

#[test]
fn schedule_did_change_is_a_no_op_for_a_document_no_server_has_open() {
    let open_documents: Vec<u64> = vec![3, 8];
    assert!(
        !arms_did_change_debounce(&open_documents, 5),
        "no server has this document open \u{2014} nothing should arm a debounce deadline"
    );
    assert!(!arms_did_change_debounce(&Vec::new(), 5));
    assert!(arms_did_change_debounce(&open_documents, 8));
}

#[test]
fn a_publish_stores_its_version_unless_it_is_stale() {
    assert_eq!(diagnostics_publish_outcome(Some(5), Some(4)), (true, Some(5)));
    assert_eq!(diagnostics_publish_outcome(Some(4), Some(4)), (true, Some(4)));
    assert_eq!(diagnostics_publish_outcome(Some(3), Some(4)), (false, Some(4)));
    assert_eq!(diagnostics_publish_outcome(None, Some(4)), (true, Some(4)));
    assert_eq!(diagnostics_publish_outcome(Some(1), None), (true, Some(1)));
    assert_eq!(diagnostics_publish_outcome(None, None), (true, None));
}

#[test]
fn the_stored_diagnostics_version_never_goes_back() {
    let mut stored: Option<i64> = None;
    let mut seen: Vec<Option<i64>> = Vec::new();
    for incoming in [Some(2), None, Some(7), Some(3), None, Some(7), Some(9), Some(1)] {
        let (_, after) = diagnostics_publish_outcome(incoming, stored);
        if let (Some(before), Some(now)) = (stored, after) {
            assert!(before <= now);
        }
        if stored.is_some() {
            assert!(after.is_some());
        }
        stored = after;
        seen.push(stored);
    }
    assert_eq!(seen, vec![Some(2), Some(2), Some(7), Some(7), Some(7), Some(7), Some(9), Some(9)]);
}
