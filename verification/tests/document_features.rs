use token_runtime::document_features::{
    DocumentFeatures, FeatureResponse, RequestKey, DOCUMENT_FEATURE_TIMEOUT_MS,
};
use token_runtime::lsp_supervisor::LspSupervisor;

/// What the caller needs to interpret an answer: the feature asked for.
#[derive(Clone, Copy, Debug, PartialEq)]
enum Feature {
    InlayHints,
}

fn key(request_id: u64) -> RequestKey {
    RequestKey { server_id: "sema".to_string(), root: "/fixture".to_string(), request_id }
}

fn supervisor_with(generation: u64) -> LspSupervisor {
    let mut sup = LspSupervisor::new();
    let (id, root) = ("sema".to_string(), "/fixture".to_string());
    assert!(sup.begin_spawn(&id, &root));
    sup.spawn_finished(&id, &root, Some(generation));
    sup
}

#[test]
fn sema_old_generation_reply_cannot_consume_new_request() {
    let sup = supervisor_with(2);
    let mut features = DocumentFeatures::new();
    let document_id = 1;
    features.file_request(key(7), document_id, 0, 2, Feature::InlayHints, 0);
    let outcome = features.take_response(&key(7), 1, false, 10, &sup);
    assert!(matches!(outcome, FeatureResponse::Dropped));
    assert!(features.get(&key(7)).is_some());
    features.cancel_document(document_id, &sup);
    assert!(features.is_empty());
}

#[test]
fn sema_feature_requests_expire_when_server_disappears() {
    let sup = LspSupervisor::new();
    let mut features = DocumentFeatures::new();
    features.file_request(key(1), 1, 0, 1, Feature::InlayHints, 0);
    assert!(features.earliest_deadline().is_some());
    let cancelled = features.sweep(5, &sup);
    assert!(cancelled.is_empty(), "no process is left to cancel the request on");
    assert!(features.earliest_deadline().is_none());
}

#[test]
fn sema_cancel_old_annotations_does_not_abandon_replacement_requests() {
    for same_generation in [false, true] {
        let generation = 5;
        let sup = supervisor_with(generation);
        let mut features = DocumentFeatures::new();
        let document_id = 1;
        let asked = if same_generation { generation } else { generation.wrapping_sub(1) };
        features.file_request(key(3), document_id, 0, asked, Feature::InlayHints, 0);
        let cancelled = features.cancel_document(document_id, &sup);
        assert!(features.is_empty());
        assert_eq!(!cancelled.is_empty(), same_generation);
    }
}

#[test]
fn a_timely_answer_from_the_asked_process_resolves_its_request() {
    let sup = supervisor_with(9);
    let mut features = DocumentFeatures::new();
    features.file_request(key(4), 2, 17, 9, Feature::InlayHints, 1_000);
    assert_eq!(features.earliest_deadline(), Some(1_000 + DOCUMENT_FEATURE_TIMEOUT_MS));
    match features.take_response(&key(4), 9, false, 2_000, &sup) {
        FeatureResponse::Resolved(pending) => {
            assert_eq!(pending.document_id, 2);
            assert_eq!(pending.revision, 17);
            assert_eq!(pending.payload, Feature::InlayHints);
        },
        _ => panic!("expected the request to resolve"),
    }
    assert!(features.is_empty());
    assert!(matches!(features.take_response(&key(4), 9, false, 2_000, &sup), FeatureResponse::Unknown));
}

#[test]
fn abandoned_or_late_answers_complete_their_request_without_a_result() {
    let sup = supervisor_with(9);
    let mut features = DocumentFeatures::new();
    features.file_request(key(1), 2, 0, 9, Feature::InlayHints, 0);
    features.file_request(key(2), 2, 0, 9, Feature::InlayHints, 0);
    assert!(matches!(features.take_response(&key(1), 9, true, 5, &sup), FeatureResponse::Dropped));
    assert!(matches!(
        features.take_response(&key(2), 9, false, DOCUMENT_FEATURE_TIMEOUT_MS, &sup),
        FeatureResponse::Dropped
    ));
    assert!(features.is_empty());
}

#[test]
fn the_sweep_cancels_expired_requests_of_live_processes() {
    let sup = supervisor_with(9);
    let mut features = DocumentFeatures::new();
    features.file_request(key(1), 2, 0, 9, Feature::InlayHints, 0);
    features.file_request(key(2), 2, 0, 8, Feature::InlayHints, 0);
    features.file_request(key(3), 2, 0, 9, Feature::InlayHints, 5_000);
    let cancelled = features.sweep(DOCUMENT_FEATURE_TIMEOUT_MS, &sup);
    assert_eq!(cancelled.len(), 1);
    assert_eq!(cancelled[0].request_id, 1);
    assert!(features.get(&key(2)).is_none(), "a replaced process's request is dropped");
    assert!(features.get(&key(3)).is_some());
}
