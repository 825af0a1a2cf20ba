use token_runtime::auto_save::{
    AutoSaveConfig, AutoSaveMode, AutoSaveModel, AutoSaveScheduler, DocumentState, SaveReason,
};

const SECOND: u64 = 1000;

fn document(id: u64, path: &str) -> DocumentState {
    DocumentState {
        id,
        revision: 1,
        path: Some(path.to_string()),
        is_modified: true,
        eligible: true,
    }
}

fn model(mode: AutoSaveMode) -> AutoSaveModel {
    AutoSaveModel {
        policy: AutoSaveConfig { mode, delay_ms: SECOND },
        documents: vec![document(1, "/fixture/a.txt")],
    }
}

fn edit(model: &mut AutoSaveModel, id: u64) {
    for doc in model.documents.iter_mut() {
        if doc.id == id {
            doc.revision += 1;
            doc.is_modified = true;
        }
    }
}

#[test]
fn auto_save_deadlines_are_independent_and_noops_do_not_delay_them() {
    let mut model = model(AutoSaveMode::AfterDelay);
    let a = 1;
    let now = 50_000;
    let mut scheduler = AutoSaveScheduler::default();
    assert!(scheduler.take_due(&model, now).is_empty());
    let first = now + SECOND;
    assert_eq!(scheduler.next_deadline(now), Some(first));
    // An unchanged revision does not reset the deadline even if its effect repeats.
    scheduler.edited(&model, a, 1, now + 100);
    model.documents.push(document(2, "/fixture/b.txt"));
    let b = 2;
    let second_edit = now + 500;
    scheduler.edited(&model, b, 1, second_edit);
    assert!(scheduler.take_due(&model, first - 1).is_empty());
    let requests = scheduler.take_due(&model, first);
    assert_eq!(requests.len(), 1);
    assert_eq!(requests[0].document_id, a);
    assert_eq!(scheduler.next_deadline(first), Some(second_edit + SECOND));
    let requests = scheduler.take_due(&model, second_edit + SECOND);
    assert_eq!(requests.len(), 1);
    assert_eq!(requests[0].document_id, b);
    assert!(scheduler.take_due(&model, now + 5 * SECOND).is_empty());
}

#[test]
fn auto_save_focus_and_idle_modes_do_not_duplicate_a_trigger() {
    for mode in [
        AutoSaveMode::Off,
        AutoSaveMode::OnFocusLoss,
        AutoSaveMode::AfterDelay,
        AutoSaveMode::OnFocusLossAndDelay,
    ] {
        let model = model(mode);
        let now = 50_000;
        let mut scheduler = AutoSaveScheduler::default();
        scheduler.focus_changed(&model, false, now);
        let first = scheduler.take_due(&model, now);
        assert_eq!(first.len(), usize::from(mode.on_focus_loss()));
        let later = scheduler.take_due(&model, now + 2 * SECOND);
        assert_eq!(later.len(), usize::from(mode == AutoSaveMode::AfterDelay));
    }
}

#[test]
fn auto_save_composition_and_pending_writes_defer_without_busy_loop() {
    let mut model = model(AutoSaveMode::OnFocusLossAndDelay);
    let id = 1;
    let mut scheduler = AutoSaveScheduler::default();
    let now = 50_000;
    scheduler.composition = Some(id);
    scheduler.focus_changed(&model, false, now);
    let due = now + SECOND;
    assert!(scheduler.take_due(&model, due).is_empty());
    assert_eq!(scheduler.next_deadline(due), None);
    scheduler.composition = None;
    let requests = scheduler.take_due(&model, due);
    assert_eq!(requests.len(), 1);
    // The save is in flight: the editor holds further automatic saves back.
    model.documents[0].eligible = false;
    edit(&mut model, id);
    scheduler.edited(&model, id, model.documents[0].revision, due);
    assert!(scheduler.take_due(&model, due + 2 * SECOND).is_empty());
    assert_eq!(scheduler.next_deadline(due + 2 * SECOND), None);
    // The write completed.
    model.documents[0].eligible = true;
    assert_eq!(scheduler.take_due(&model, due + 2 * SECOND).len(), 1);
}

#[test]
fn auto_save_policy_changes_and_closed_documents_drop_old_deadlines() {
    let mut model = model(AutoSaveMode::AfterDelay);
    let mut scheduler = AutoSaveScheduler::default();
    let now = 50_000;
    scheduler.take_due(&model, now);
    model.policy.mode = AutoSaveMode::Off;
    assert!(scheduler.take_due(&model, now + 2 * SECOND).is_empty());
    assert_eq!(scheduler.next_deadline(now), None);
    model.policy.mode = AutoSaveMode::AfterDelay;
    scheduler.take_due(&model, now);
    model.documents.clear();
    assert!(scheduler.take_due(&model, now + 2 * SECOND).is_empty());
    assert_eq!(scheduler.pending_count(), 0);
}

#[test]
fn auto_save_focus_loss_is_remembered_for_new_edits_while_unfocused() {
    let mut model = model(AutoSaveMode::OnFocusLoss);
    let mut scheduler = AutoSaveScheduler::default();
    let now = 50_000;
    scheduler.focus_changed(&model, false, now);
    assert_eq!(scheduler.take_due(&model, now).len(), 1);
    edit(&mut model, 1);
    assert_eq!(scheduler.take_due(&model, now).len(), 1);
    assert!(scheduler.take_due(&model, now).is_empty());
}

#[test]
fn requests_carry_the_recorded_revision_path_policy_and_reason() {
    let model = model(AutoSaveMode::OnFocusLossAndDelay);
    let mut scheduler = AutoSaveScheduler::default();
    let now = 7_000;
    scheduler.take_due(&model, now);
    let requests = scheduler.take_due(&model, now + SECOND);
    assert_eq!(requests.len(), 1);
    let request = &requests[0];
    assert_eq!(request.document_id, 1);
    assert_eq!(request.revision, 1);
    assert_eq!(request.path, "/fixture/a.txt");
    assert_eq!(request.policy, model.policy);
    assert_eq!(request.reason, SaveReason::Idle);
    scheduler.focus_changed(&model, false, now + SECOND);
    let requests = scheduler.take_due(&model, now + SECOND);
    assert_eq!(requests.len(), 1);
    assert_eq!(requests[0].reason, SaveReason::FocusLoss);
}

#[test]
fn requests_come_in_document_order_and_unsaved_files_are_skipped() {
    let mut model = model(AutoSaveMode::AfterDelay);
    model.documents.insert(0, document(9, "/fixture/z.txt"));
    model.documents.push(DocumentState {
        id: 4,
        revision: 3,
        path: None,
        is_modified: true,
        eligible: true,
    });
    model.documents.push(document(5, "/fixture/e.txt"));
    let mut scheduler = AutoSaveScheduler::default();
    scheduler.take_due(&model, 0);
    assert_eq!(scheduler.pending_count(), 3);
    let ids: Vec<u64> = scheduler.take_due(&model, SECOND).iter().map(|r| r.document_id).collect();
    assert_eq!(ids, vec![1, 5, 9]);
}

#[test]
fn cancel_forgets_a_deadline() {
    let model = model(AutoSaveMode::AfterDelay);
    let mut scheduler = AutoSaveScheduler::default();
    scheduler.take_due(&model, 0);
    assert_eq!(scheduler.next_deadline(0), Some(SECOND));
    scheduler.cancel(1);
    assert_eq!(scheduler.next_deadline(0), None);
    assert_eq!(scheduler.pending_count(), 0);
}

#[test]
fn default_policy_is_off_with_a_one_second_delay() {
    let policy = AutoSaveConfig::default();
    assert_eq!(policy.mode, AutoSaveMode::Off);
    assert_eq!(policy.delay_ms, SECOND);
    assert!(AutoSaveMode::OnFocusLossAndDelay.after_delay());
    assert!(!AutoSaveMode::OnFocusLoss.after_delay());
}
