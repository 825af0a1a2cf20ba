use token_runtime::completion::{
    ContextChunk, ContextStrategy, InlineJob, InlineRequest, PromptFormat, ProviderConfig, RequestSnapshot,
};
use token_runtime::inline_cache::{
    prefix_hash, InlineCache, ENTRY_LIMIT, MAX_ALTERNATIVES, PAYLOAD_LIMIT, PREFIX_BUDGET_CHARS,
};

fn provider() -> ProviderConfig {
    ProviderConfig {
        url: String::from("http://localhost:11434"),
        model: None,
        api_key_env: None,
        n: 1,
        prompt_format: PromptFormat::Native,
        context: ContextStrategy::Disabled,
    }
}

fn job(prefix: &str) -> InlineJob {
    InlineJob {
        request: InlineRequest {
            snapshot: RequestSnapshot {
                document_id: 1,
                revision: 1,
                line: 0,
                column: prefix.chars().count(),
                request_id: 1,
            },
            prefix: prefix.into(),
            suffix: "\n".into(),
            language: Some("rust".into()),
            file_path: Some("/fixture.rs".into()),
            extra_context: Vec::new(),
            explicit: false,
        },
        provider: provider(),
    }
}

fn insert(cache: &mut InlineCache, job: &InlineJob, texts: &[String]) {
    cache.insert(job, texts, texts);
}

#[test]
fn replay_consumes_served_indentation_but_exact_hits_keep_raw_candidates() {
    let original = job("    ");
    let mut cache = InlineCache::new();
    cache.insert(
        &original,
        &["first();\n\tsecond();".into()],
        &["first();\n    second();".into()],
    );
    assert_eq!(cache.get(&original).unwrap(), ["first();\n\tsecond();"]);
    let mut next = original.clone();
    next.request.prefix.push_str("first();\n    ");
    next.request.snapshot.line = 1;
    next.request.snapshot.column = 4;
    assert_eq!(cache.get(&next).unwrap(), ["second();"]);
    let rejected = job("different");
    cache.insert(&rejected, &["old();".into()], &["old();".into()]);
    cache.insert(&rejected, &["]".into()], &[]);
    assert!(cache.get(&rejected).is_none(), "fully rejected results are not cached");
}

#[test]
fn exact_replay_ignores_revision_but_checks_all_generation_context() {
    let original = job("let x = ");
    let mut cache = InlineCache::new();
    insert(&mut cache, &original, &["answer();".into()]);
    let mut request = original.clone();
    request.request.snapshot.revision = 10;
    request.request.snapshot.request_id = 20;
    assert_eq!(cache.get(&request), Some(vec!["answer();".into()]));
    let mut changed = Vec::new();
    let mut other = request.clone();
    other.request.extra_context.push(ContextChunk {
        filename: "helper.rs".into(),
        text: "fn helper() {}".into(),
    });
    changed.push(other);
    let mut other = request.clone();
    other.request.prefix = "let y = ".into();
    changed.push(other);
    let mut other = request.clone();
    other.request.suffix = "different".into();
    changed.push(other);
    let mut other = request.clone();
    other.request.language = Some("python".into());
    changed.push(other);
    let mut other = request.clone();
    other.request.file_path = Some("/other.rs".into());
    changed.push(other);
    let mut other = request.clone();
    other.request.snapshot.document_id = 2;
    changed.push(other);
    let mut other = request.clone();
    other.request.snapshot.column += 1;
    changed.push(other);
    let mut other = request.clone();
    other.provider.model = Some("other".into());
    changed.push(other);
    let mut other = request.clone();
    other.provider.api_key_env = Some("OTHER_TOKEN".into());
    changed.push(other);
    let mut other = request.clone();
    other.provider.n = 2;
    changed.push(other);
    let mut other = request.clone();
    other.provider.prompt_format = PromptFormat::Qwen;
    changed.push(other);
    let mut other = request;
    other.request.explicit = true;
    changed.push(other);
    for other in changed {
        assert!(cache.get(&other).is_none());
    }
    // A request whose prefix merely shares the hash bucket of another is
    // still compared character by character.
    assert!(cache.get(&job("let y = ")).is_none());
}

#[test]
fn replay_matches_unicode_crlf_and_alternative_prefixes() {
    let original = job("let x = ");
    let mut cache = InlineCache::new();
    insert(&mut cache, &original, &["éclair();\r\nnext();".into(), "elsewhere();".into()]);
    assert_eq!(cache.get(&job("let x = é")), Some(vec!["clair();\r\nnext();".into()]));
    let mut newline = job("let x = éclair();\r\n");
    newline.request.snapshot.line = 1;
    newline.request.snapshot.column = 0;
    assert_eq!(cache.get(&newline), Some(vec!["next();".into()]));
    let mut changed = newline.clone();
    changed.request.prefix = "let y = éclair();\r\n".into();
    assert!(cache.get(&changed).is_none());
    assert!(cache.get(&job("let x = different")).is_none());
    assert_eq!(cache.get(&original).unwrap().len(), 2, "backspace can restore alternatives");
}

#[test]
fn replay_handles_sliding_prefix_windows_and_fully_consumed_choices() {
    let original = job(&"é".repeat(PREFIX_BUDGET_CHARS));
    let mut cache = InlineCache::new();
    insert(&mut cache, &original, &["abc".into(), "abc_tail".into()]);
    let mut typed = job(&format!("{}abc", "é".repeat(PREFIX_BUDGET_CHARS - 3)));
    typed.request.snapshot.column = PREFIX_BUDGET_CHARS + 3;
    assert_eq!(cache.get(&typed), Some(vec!["_tail".into()]));
    typed.request.prefix = format!("{}abc_tail", "é".repeat(PREFIX_BUDGET_CHARS - 8));
    typed.request.snapshot.column = PREFIX_BUDGET_CHARS + 8;
    assert!(cache.get(&typed).is_none());
}

#[test]
fn lru_refreshes_hits_and_replaces_same_context() {
    let mut cache = InlineCache::new();
    for id in 0..ENTRY_LIMIT {
        let mut request = job("prefix");
        request.request.snapshot.document_id = id as u64;
        insert(&mut cache, &request, &["answer".into()]);
    }
    let mut oldest = job("prefix");
    oldest.request.snapshot.document_id = 0;
    assert!(cache.get(&oldest).is_some());
    let mut newest = oldest.clone();
    newest.request.snapshot.document_id = ENTRY_LIMIT as u64;
    insert(&mut cache, &newest, &["answer".into()]);
    assert_eq!(cache.len(), ENTRY_LIMIT);
    assert!(cache.get(&job("prefix")).is_none(), "second-oldest document was evicted");
    assert!(cache.get(&oldest).is_some());
    insert(&mut cache, &oldest, &["refreshed".into()]);
    assert_eq!(cache.len(), ENTRY_LIMIT);
    assert_eq!(cache.get(&oldest), Some(vec!["refreshed".into()]));
}

#[test]
fn payload_and_alternative_limits_are_enforced_without_negative_caching() {
    let mut cache = InlineCache::new();
    let request = job("prefix");
    insert(&mut cache, &request, &[]);
    assert!(cache.get(&request).is_none());
    insert(&mut cache, &request, &["x".repeat(PAYLOAD_LIMIT + 1)]);
    assert_eq!(cache.len(), 0);
    let text = "x".repeat(1024 * 1024);
    for id in 0..12 {
        let mut other = request.clone();
        other.request.snapshot.document_id = id;
        insert(&mut cache, &other, std::slice::from_ref(&text));
        assert!(cache.payload_bytes() <= PAYLOAD_LIMIT);
    }
    assert!(cache.len() < 8);
    insert(&mut cache, &request, &vec!["answer".into(); MAX_ALTERNATIVES + 1]);
    assert_eq!(cache.get(&request).unwrap().len(), MAX_ALTERNATIVES);
}

#[test]
fn recency_cache_accounts_for_context_and_rejects_changed_partial_replay() {
    let chunk_bytes = token_runtime::recency_capture::CHUNK_BYTES;
    let max_chunks = 8;
    let mut original = job("prefix");
    original.request.extra_context = (0..max_chunks)
        .map(|index| ContextChunk {
            filename: format!("{index}.rs"),
            text: "x".repeat(chunk_bytes),
        })
        .collect();
    let mut cache = InlineCache::new();
    for id in 0..64 {
        original.request.snapshot.document_id = id;
        insert(&mut cache, &original, &["answer".into()]);
    }
    assert!(cache.payload_bytes() <= PAYLOAD_LIMIT);
    assert!(cache.len() < 32, "context payload must evict well before the count limit");
    assert!(cache.get(&original).is_some());
    let mut partial = original.clone();
    partial.request.prefix.push('a');
    partial.request.snapshot.column += 1;
    assert_eq!(cache.get(&partial).unwrap(), ["nswer"]);
    partial.request.extra_context[0].text.push('y');
    assert!(cache.get(&partial).is_none());
    partial.request.extra_context = original.request.extra_context.clone();
    partial.request.extra_context.swap(0, 1);
    assert!(cache.get(&partial).is_none(), "chunk order is part of the actual prompt");
}

#[test]
fn prefix_hash_depends_on_the_text() {
    assert_eq!(prefix_hash("let x = "), prefix_hash("let x = "));
    assert_ne!(prefix_hash("let x = "), prefix_hash("let y = "));
}

#[test]
fn explicit_requests_are_never_served_from_the_cache() {
    let mut cache = InlineCache::new();
    let original = job("fn main() {");
    insert(&mut cache, &original, &["}".into()]);
    let mut explicit = original.clone();
    explicit.request.explicit = true;
    assert!(cache.get(&explicit).is_none());
    assert_eq!(cache.get(&original), Some(vec!["}".into()]));
}
