use token_runtime::debounce::Debounces;
use token_runtime::editorconfig::{ConfigChain, CHAIN_LIMIT, FILE_LIMIT};
use token_runtime::lsp_outcomes::{
    feature_timeout_ms, on_gate_error, on_timeout, rename_message, FeatureGateError, FeatureOutcome, LspFeature,
    answer_outcome, AnswerOutcome, COMPLETION_DEBOUNCE_MS, RESOLVE_DEBOUNCE_MS,
};

#[test]
fn debounce_rearming_replaces_the_earlier_deadline() {
    let mut d: Debounces<u64> = Debounces::new();
    assert!(d.is_empty());
    d.schedule(7, 100, 1);
    d.schedule(7, 250, 2);
    assert_eq!(d.get(7), Some((250, 2)));
    assert_eq!(d.earliest(), Some(250));
    assert!(d.take_due(200).is_empty());
    assert_eq!(d.take_due(250), vec![(7, 2)]);
    assert!(d.is_empty());
}

#[test]
fn debounce_tick_fires_each_passed_deadline_once() {
    let mut d: Debounces<(u64, bool)> = Debounces::new();
    d.schedule(1, 50, (3, false));
    d.schedule(2, 500, (4, true));
    d.schedule(3, 80, (9, true));
    assert_eq!(d.earliest(), Some(50));
    let mut fired = d.take_due(100);
    fired.sort();
    assert_eq!(fired, vec![(1, (3, false)), (3, (9, true))]);
    assert!(d.take_due(100).is_empty());
    assert_eq!(d.get(2), Some((500, (4, true))));
    assert_eq!(d.earliest(), Some(500));
}

#[test]
fn debounce_cancel_disarms_only_that_document() {
    let mut d: Debounces<u64> = Debounces::new();
    d.schedule(1, 10, 11);
    d.schedule(2, 20, 22);
    assert_eq!(d.cancel(1), Some((10, 11)));
    assert_eq!(d.cancel(1), None);
    assert_eq!(d.get(1), None);
    assert_eq!(d.take_due(1_000), vec![(2, 22)]);
    assert_eq!(d.earliest(), None);
}

#[test]
fn editorconfig_walk_looks_at_ancestors_nearest_first() {
    let mut chain = ConfigChain::for_file(&"/work/project/src/main.rs".to_string());
    let mut seen = Vec::new();
    while let Some(config) = chain.next_config() {
        seen.push(config);
    }
    assert_eq!(
        seen,
        vec![
            "/work/project/src/.editorconfig".to_string(),
            "/work/project/.editorconfig".to_string(),
            "/work/.editorconfig".to_string(),
            "/.editorconfig".to_string(),
        ]
    );
    let outcome = chain.finish();
    assert_eq!(outcome.dependencies, seen);
    assert!(!outcome.incomplete);
}

#[test]
fn editorconfig_walk_stops_at_a_root_layer() {
    let mut chain = ConfigChain::for_file(&"/root/workspace/missing/file.rs".to_string());
    let first = chain.next_config().unwrap();
    assert_eq!(first, "/root/workspace/missing/.editorconfig");
    let second = chain.next_config().unwrap();
    assert!(chain.consider(&second, true, 40));
    assert!(chain.account(&second, 40));
    chain.layer_read(true);
    assert_eq!(chain.next_config(), None);
    let outcome = chain.finish();
    assert_eq!(outcome.dependencies.len(), 2);
    assert!(!outcome.incomplete);
}

#[test]
fn editorconfig_walk_refuses_oversized_and_unreadable_configs() {
    let mut chain = ConfigChain::for_file(&"/a/b/file.rs".to_string());
    let near = chain.next_config().unwrap();
    assert!(!chain.consider(&near, true, FILE_LIMIT + 1));
    let far = chain.next_config().unwrap();
    assert!(!chain.consider(&far, false, 10));
    let top = chain.next_config().unwrap();
    chain.failed(&top, &"stream did not contain valid UTF-8".to_string());
    assert_eq!(chain.next_config(), None);
    let outcome = chain.finish();
    assert!(outcome.incomplete);
    assert_eq!(outcome.diagnostics.len(), 3);
    assert_eq!(outcome.diagnostics[0], "/a/b/.editorconfig: Config is not a file within the 1 MiB limit");
    assert!(outcome.diagnostics[1].contains("limit"));
    assert_eq!(outcome.diagnostics[2], "/.editorconfig: stream did not contain valid UTF-8");
}

#[test]
fn editorconfig_chain_budget_refuses_once_spent() {
    let mut chain = ConfigChain::for_file(&"/1/2/3/4/5/6/file.rs".to_string());
    let mut read = 0u64;
    while read < CHAIN_LIMIT {
        let config = chain.next_config().unwrap();
        assert!(chain.consider(&config, true, FILE_LIMIT));
        assert!(chain.account(&config, FILE_LIMIT as usize));
        read += FILE_LIMIT;
    }
    let config = chain.next_config().unwrap();
    assert!(!chain.consider(&config, true, 1));
    let config = chain.next_config().unwrap();
    chain.parse_failed("bad section header".to_string());
    assert!(!chain.account(&config, 1));
    let outcome = chain.finish();
    assert_eq!(outcome.diagnostics[0], "/1/2/.editorconfig: Config is not a file within the 1 MiB limit");
    assert_eq!(outcome.diagnostics[1], "bad section header");
    assert_eq!(outcome.diagnostics[2], "/1/.editorconfig: EditorConfig chain exceeds the 4 MiB limit");
}

#[test]
fn navigation_features_report_indexing_while_the_server_starts() {
    assert_eq!(on_gate_error(LspFeature::Definition, FeatureGateError::NotReady), FeatureOutcome::StillIndexing);
    assert_eq!(on_gate_error(LspFeature::Hover, FeatureGateError::NoServer), FeatureOutcome::NotSupported);
    assert_eq!(on_gate_error(LspFeature::Completion, FeatureGateError::NotReady), FeatureOutcome::Silent);
    assert_eq!(on_gate_error(LspFeature::SignatureHelp, FeatureGateError::Unsupported), FeatureOutcome::Silent);
    assert_eq!(on_gate_error(LspFeature::Rename, FeatureGateError::NotReady), FeatureOutcome::RenameNotSupported);
    assert_eq!(
        on_gate_error(LspFeature::FormatOnSave, FeatureGateError::NoServer),
        FeatureOutcome::FormattingUnavailable
    );
}

#[test]
fn unanswered_requests_resolve_per_feature() {
    assert_eq!(on_timeout(LspFeature::References), FeatureOutcome::NoResult);
    assert_eq!(on_timeout(LspFeature::Hover), FeatureOutcome::EmptyContent);
    assert_eq!(on_timeout(LspFeature::PrepareRename), FeatureOutcome::RenameNoAnswer);
    assert_eq!(on_timeout(LspFeature::Completion), FeatureOutcome::Silent);
    assert_eq!(feature_timeout_ms(LspFeature::Definition), 30_000);
    assert_eq!(feature_timeout_ms(LspFeature::Completion), 10_000);
    assert_eq!(feature_timeout_ms(LspFeature::FormatOnSave), 2_000);
    assert_eq!(feature_timeout_ms(LspFeature::ResolveDocs), 3_000);
    assert_eq!(feature_timeout_ms(LspFeature::ResolveAccept), 3_000);
    assert_eq!(rename_message(FeatureOutcome::RenameNoAnswer), Some("Rename: server did not answer"));
    assert_eq!(rename_message(FeatureOutcome::RenameNotSupported), Some("Rename not supported by this server"));
    assert_eq!(rename_message(FeatureOutcome::NoResult), None);
}

#[test]
fn a_resolve_past_its_deadline_unblocks_the_accept_with_no_extras() {
    assert_eq!(on_timeout(LspFeature::ResolveAccept), FeatureOutcome::AcceptAsIs);
    assert_eq!(on_gate_error(LspFeature::ResolveAccept, FeatureGateError::NoServer), FeatureOutcome::AcceptAsIs);
}

#[test]
fn a_docs_resolve_past_its_deadline_is_dropped_silently() {
    assert_eq!(on_timeout(LspFeature::ResolveDocs), FeatureOutcome::Silent);
    assert_eq!(on_gate_error(LspFeature::ResolveDocs, FeatureGateError::Unsupported), FeatureOutcome::Silent);
}

#[test]
fn definition_request_before_handshake_completes_reports_still_indexing() {
    assert_eq!(on_gate_error(LspFeature::Definition, FeatureGateError::NotReady), FeatureOutcome::StillIndexing);
}

#[test]
fn definition_request_reports_not_supported_when_capabilities_lack_definition_provider() {
    assert_eq!(on_gate_error(LspFeature::Definition, FeatureGateError::Unsupported), FeatureOutcome::NotSupported);
}

#[test]
fn definition_request_with_no_synced_document_reports_not_supported() {
    assert_eq!(on_gate_error(LspFeature::Definition, FeatureGateError::NoServer), FeatureOutcome::NotSupported);
}

#[test]
fn hover_request_reports_not_supported_when_capabilities_lack_hover_provider() {
    assert_eq!(on_gate_error(LspFeature::Hover, FeatureGateError::Unsupported), FeatureOutcome::NotSupported);
}

#[test]
fn hover_request_with_no_synced_document_reports_not_supported() {
    assert_eq!(on_gate_error(LspFeature::Hover, FeatureGateError::NoServer), FeatureOutcome::NotSupported);
}

#[test]
fn a_hover_request_past_its_deadline_is_abandoned_with_no_content() {
    assert_eq!(on_timeout(LspFeature::Hover), FeatureOutcome::EmptyContent);
    assert_eq!(feature_timeout_ms(LspFeature::Hover), 30_000);
}

#[test]
fn a_definition_request_past_its_deadline_is_abandoned_and_reports_no_result() {
    assert_eq!(on_timeout(LspFeature::Definition), FeatureOutcome::NoResult);
    assert_eq!(feature_timeout_ms(LspFeature::Definition), 30_000);
}

/// A scheduled completion: position (line, character), revision and
/// whether a trigger character came with it.
type ScheduledCompletion = ((u32, u32), u64, bool);

#[test]
fn completion_debounce_rearm_replaces_and_fires_once() {
    let mut debounces: Debounces<ScheduledCompletion> = Debounces::new();
    let doc_id = 1;
    let position = (1, 2);
    let now = 1_000;
    debounces.schedule(doc_id, now + COMPLETION_DEBOUNCE_MS, (position, 1, true));
    debounces.schedule(doc_id, now + COMPLETION_DEBOUNCE_MS, (position, 2, false));
    assert_eq!(debounces.get(doc_id).map(|(_, scheduled)| scheduled.1), Some(2), "the newest schedule wins");
    let fired = debounces.take_due(now + COMPLETION_DEBOUNCE_MS + 1_000);
    assert_eq!(fired.len(), 1, "re-arming must replace, not accumulate");
    assert_eq!(fired[0].1 .1, 2);
    assert!(debounces.is_empty());
}

#[test]
fn cancel_completion_drops_the_resolve_debounce() {
    let mut debounces: Debounces<(u64, usize)> = Debounces::new();
    let doc_id = 1;
    debounces.schedule(doc_id, 5_000 + RESOLVE_DEBOUNCE_MS, (1, 0));
    assert!(!debounces.is_empty());
    assert_eq!(debounces.cancel(doc_id), Some((5_000 + RESOLVE_DEBOUNCE_MS, (1, 0))));
    assert!(debounces.is_empty());
}

#[test]
fn an_empty_definition_reply_reports_still_indexing_before_ready() {
    assert_eq!(answer_outcome(LspFeature::Definition, true, true), AnswerOutcome::StillIndexing);
    // The same empty reply once the server is ready is a genuine no-result.
    assert_eq!(answer_outcome(LspFeature::Definition, true, false), AnswerOutcome::NoResult);
    assert_eq!(answer_outcome(LspFeature::Definition, false, true), AnswerOutcome::Found);
}

#[test]
fn a_null_hover_reply_reports_still_indexing_before_ready() {
    assert_eq!(answer_outcome(LspFeature::Hover, true, true), AnswerOutcome::StillIndexing);
    assert_eq!(answer_outcome(LspFeature::Hover, true, false), AnswerOutcome::Found);
    assert_eq!(answer_outcome(LspFeature::References, true, false), AnswerOutcome::NoResult);
}
