use std::collections::BTreeSet;

use ropey::Rope;
use token_runtime::completion::{
    ContextChunk, ContextStrategy, InlineJob, InlineRequest, PromptFormat, ProviderConfig, RequestSnapshot,
};
use token_runtime::recency::IndexedChunk;
use token_runtime::recency_capture::{capture, line_range, CHUNK_BYTES};
use token_runtime::recency_ring::{
    eligible_index, FocusedEditor, InlineContextRing, RingDocument, RingModel, IDLE_MS,
};

fn provider() -> ProviderConfig {
    ProviderConfig {
        url: "http://localhost:8080".to_string(),
        model: None,
        api_key_env: None,
        n: 1,
        prompt_format: PromptFormat::Native,
        context: ContextStrategy::RecencyRing { max_chunks: 8, chunk_lines: 4 },
    }
}

fn document(id: u64, text: &str, line: usize) -> RingDocument {
    RingDocument {
        id,
        revision: 0,
        plain_editor_line: Some(line),
        file_path: None,
        identity_path: None,
        buffer: Rope::from_str(text),
    }
}

fn model() -> RingModel {
    RingModel {
        completion_enabled: true,
        inline_enabled: true,
        provider_name: "recency-fixture".to_string(),
        provider: Some(provider()),
        workspace_root: None,
        documents: vec![document(1, "alpha beta gamma\n", 0)],
        focused: Some(FocusedEditor { document: 1, plain_text: true, line: 0, column: 0 }),
    }
}

fn doc(model: &mut RingModel, id: u64) -> &mut RingDocument {
    model.documents.iter_mut().find(|d| d.id == id).unwrap()
}

fn set_line(model: &mut RingModel, line: usize) {
    let focused = model.focused.as_mut().unwrap();
    focused.line = line;
    let id = focused.document;
    doc(model, id).plain_editor_line = Some(line);
}

fn edit(model: &mut RingModel, id: u64, insert: &str) {
    let d = doc(model, id);
    d.buffer.insert(0, insert);
    d.revision += 1;
}

fn chunk_text(ring: &InlineContextRing, index: usize) -> String {
    ring.chunk_at(index).3.text.clone()
}

#[test]
fn recency_commits_only_after_editor_idle_and_keeps_a_stable_prefix() {
    let mut model = model();
    let mut ring = InlineContextRing::new();
    let start = 100_000;
    ring.observe(&model, start);
    assert_eq!(ring.chunk_count(), 0);
    edit(&mut model, 1, "edited ");
    ring.observe(&model, start + IDLE_MS / 2);
    ring.observe(&model, start + IDLE_MS);
    assert_eq!(ring.chunk_count(), 0, "editing extends the idle deadline");
    ring.observe(&model, start + IDLE_MS * 2);
    assert_eq!(ring.chunk_count(), 1);
    let committed = ring.chunk_at(0).3.clone();
    edit(&mut model, 1, "later ");
    ring.observe(&model, start + IDLE_MS * 3);
    assert_eq!(ring.chunk_at(0).3.text, committed.text);
    assert_eq!(ring.chunk_at(0).3.filename, committed.filename);
    assert!(ring.deadline().is_none(), "no idle spin without pending captures");
    ring.saved(&model, 1, start + IDLE_MS * 4);
    ring.observe(&model, start + IDLE_MS * 5);
    assert!(chunk_text(&ring, ring.chunk_count() - 1).starts_with("later edited"));
    assert_eq!(
        ring.chunk_count(),
        1,
        "rewrites replace the same region even below the similarity threshold"
    );
    let d = doc(&mut model, 1);
    d.buffer = Rope::from_str("\n");
    d.revision += 1;
    ring.saved(&model, 1, start + IDLE_MS * 6);
    ring.observe(&model, start + IDLE_MS * 7);
    assert_eq!(ring.chunk_count(), 0, "a deleted region cannot retain its old source");
}

#[test]
fn recency_switches_jumps_close_and_provider_changes_have_bounded_lifetimes() {
    let mut model = model();
    let first = 1;
    doc(&mut model, first).buffer = Rope::from_str("zero\none\ntwo\nthree\nfour\nfive\nsix\nseven\neight\n");
    let mut ring = InlineContextRing::new();
    let start = 100_000;
    ring.observe(&model, start);
    ring.observe(&model, start + IDLE_MS);
    set_line(&mut model, 8);
    ring.observe(&model, start + IDLE_MS * 2);
    assert_eq!(ring.pending().len(), 2, "both sides of a large jump");
    ring.observe(&model, start + IDLE_MS * 3);
    assert_eq!(ring.chunk_count(), 2);
    // A new tab with a new untitled document takes the focus.
    model.documents.push(document(2, "unrelated newly opened helper\n", 0));
    model.focused = Some(FocusedEditor { document: 2, plain_text: true, line: 0, column: 0 });
    ring.observe(&model, start + IDLE_MS * 4);
    ring.observe(&model, start + IDLE_MS * 5);
    assert_eq!(ring.chunk_count(), 3);
    model.documents.retain(|d| d.id != first);
    ring.observe(&model, start + IDLE_MS * 6);
    assert_eq!(ring.chunk_count(), 1);
    assert!((0..ring.chunk_count()).all(|i| ring.chunk_at(i).0 != first));
    model.provider.as_mut().unwrap().url.push_str("/other");
    ring.observe(&model, start + IDLE_MS * 7);
    assert_eq!(ring.chunk_count(), 0, "a new endpoint cannot inherit old context");
    model.inline_enabled = false;
    ring.observe(&model, start + IDLE_MS * 8);
    assert!(ring.pending().is_empty());
    assert!(!ring.has_scope());
    assert!(ring.deadline().is_none());
}

#[test]
fn recency_similarity_is_strict_and_eviction_preserves_recency_order() {
    let similar = |a: &str, b: &str| {
        let chunk = |text: &str| IndexedChunk::new(ContextChunk { filename: String::new(), text: text.into() });
        chunk(a).similar(&chunk(b))
    };
    assert!(!similar("0 1 2 3 4 5 6 7 8", "0 1 2 3 4 5 6 7 8 9"));
    assert!(similar("0 1 2 3 4 5 6 7 8 9", "0 1 2 3 4 5 6 7 8 9 10"));
    assert!(similar("a b a", "b a"));
    assert!(!similar("!!!", "???"));
    let id = 1;
    let mut ring = InlineContextRing::new();
    for line in 0..100 {
        ring.enqueue(id, line, 8);
    }
    assert_eq!(ring.pending().len(), 8);
    assert_eq!(ring.pending()[0].line, 92);
    ring.enqueue(id, 92, 8);
    assert_eq!(ring.pending().len(), 8);
    assert_eq!(ring.pending().last().unwrap().line, 92);
}

#[test]
fn recency_revisit_replaces_overlaps_at_clamped_document_boundaries() {
    let mut model = model();
    doc(&mut model, 1).buffer = Rope::from_str("zero\none\ntwo\nthree\nfour\nfive\nsix\n");
    let mut ring = InlineContextRing::new();
    let start = 100_000;
    ring.observe(&model, start);
    ring.observe(&model, start + IDLE_MS);
    assert_eq!((ring.chunk_at(0).1, ring.chunk_at(0).2), (0, 4));
    set_line(&mut model, 4);
    ring.observe(&model, start + IDLE_MS * 2);
    ring.observe(&model, start + IDLE_MS * 3);
    assert_eq!(ring.chunk_count(), 1, "cursor distance alone misses overlap near the first line");
    assert_eq!((ring.chunk_at(0).1, ring.chunk_at(0).2), (2, 6));
    assert!(chunk_text(&ring, 0).contains("four"));
}

#[test]
fn recency_capture_bounds_unicode_and_excludes_workspace_symlink_escapes() {
    let mut model = model();
    doc(&mut model, 1).buffer = Rope::from_str(&"🦀".repeat(10_000));
    let d = &model.documents[0];
    let chunk = capture(None, None, d.id, &d.buffer, 0, 4).unwrap();
    assert_eq!(chunk.text.len(), CHUNK_BYTES);
    assert_eq!(chunk.text.chars().count(), CHUNK_BYTES / 4);
    let dir = tempfile::tempdir().unwrap();
    let root = dir.path().canonicalize().unwrap().to_str().unwrap().to_string();
    model.workspace_root = Some(root.clone());
    let path = format!("{root}/inside.rs");
    doc(&mut model, 1).file_path = Some(path.clone());
    let id = 1;
    assert!(eligible_index(&model, id).is_none(), "unresolved path cannot prove scope");
    doc(&mut model, 1).identity_path = Some(format!("{root}/helper.rs"));
    assert!(eligible_index(&model, id).is_some());
    let d = &model.documents[0];
    let source = d.identity_path.as_ref();
    assert_eq!(
        capture(source, model.workspace_root.as_ref(), d.id, &d.buffer, 0, 4).unwrap().filename,
        "helper.rs"
    );
    let parent = std::path::Path::new(&root).parent().unwrap().to_str().unwrap().to_string();
    doc(&mut model, 1).identity_path = Some(format!("{parent}/outside.rs"));
    assert!(eligible_index(&model, id).is_none(), "canonical symlink target escapes workspace");
}

#[test]
fn recency_attach_keeps_prefix_and_local_analysis_separate() {
    let model = model();
    let mut ring = InlineContextRing::new();
    let start = 100_000;
    ring.observe(&model, start);
    let request = InlineRequest {
        snapshot: RequestSnapshot { document_id: 1, revision: 0, line: 0, column: 3, request_id: 1 },
        prefix: "alp".to_string(),
        suffix: "ha beta gamma\n".to_string(),
        language: Some("rust".into()),
        file_path: None,
        extra_context: Vec::new(),
        explicit: false,
    };
    let prefix = request.prefix.clone();
    let mut job = InlineJob { request, provider: provider() };
    ring.attach(&model, &mut job, start + IDLE_MS);
    assert_eq!(job.request.extra_context.len(), 1);
    assert_eq!(job.request.prefix, prefix);
    job.provider.url.push_str("/mismatch");
    ring.attach(&model, &mut job, start + IDLE_MS * 2);
    assert!(job.request.extra_context.is_empty());
}

#[test]
fn recency_indexed_similarity_matches_token_set_oracle() {
    fn oracle(a: &str, b: &str) -> bool {
        let tokens = |text: &str| {
            text.split(|ch: char| !(ch.is_alphanumeric() || ch == '_'))
                .filter(|token| !token.is_empty())
                .map(str::to_owned)
                .collect::<BTreeSet<_>>()
        };
        let a_tokens = tokens(a);
        let b_tokens = tokens(b);
        let intersection = a_tokens.intersection(&b_tokens).count();
        let union = a_tokens.len() + b_tokens.len() - intersection;
        if union == 0 {
            a == b
        } else {
            intersection * 10 > union * 9
        }
    }
    let vocabulary = ["α", "β", "🦀", "文", "a", "b", "a_b", "A", " ", "\r\n", "!", "a", "é", "e\u{301}"];
    let mut seed = 17_u64;
    let mut make = || {
        let mut text = String::new();
        for _ in 0..80 {
            seed = seed.wrapping_mul(6364136223846793005).wrapping_add(1);
            text.push_str(vocabulary[(seed >> 32) as usize % vocabulary.len()]);
            text.push(' ');
        }
        text
    };
    let sorted = |chunk: &IndexedChunk| {
        let words: Vec<String> = chunk.tokens().iter().map(|t| t.iter().collect()).collect();
        words.windows(2).all(|pair| pair[0] < pair[1])
    };
    for case in 0..1000 {
        let a = make();
        let b = if case % 5 == 0 { a.clone() } else { make() };
        let expected = oracle(&a, &b);
        let a = IndexedChunk::new(ContextChunk { filename: String::new(), text: a });
        let b = IndexedChunk::new(ContextChunk { filename: String::new(), text: b });
        assert_eq!(a.similar(&b), expected);
        assert_eq!(b.similar(&a), expected);
        for chunk in [&a, &b] {
            assert!(sorted(chunk));
        }
    }
    for (a, b) in [("", ""), ("!!!", "???"), ("\r\n", "\n"), ("🦀", "🦀"), ("a", "")] {
        let expected = oracle(a, b);
        let a = IndexedChunk::new(ContextChunk { filename: String::new(), text: a.into() });
        let b = IndexedChunk::new(ContextChunk { filename: String::new(), text: b.into() });
        assert_eq!(a.similar(&b), expected);
    }
}

#[test]
fn snippets_are_centred_on_the_line_and_clamped_to_the_document() {
    assert_eq!(line_range(10, 0, 4), (0, 4));
    assert_eq!(line_range(10, 5, 4), (3, 7));
    assert_eq!(line_range(10, 50, 4), (7, 10));
    assert_eq!(line_range(1, 0, 64), (0, 1));
}

#[test]
fn untitled_and_detached_snippets_are_named_after_their_buffer() {
    let rope = Rope::from_str("fn main() {}\n");
    assert_eq!(capture(None, None, 42, &rope, 0, 4).unwrap().filename, "untitled-42");
    let path = "/somewhere/lib.rs".to_string();
    assert_eq!(capture(Some(&path), None, 7, &rope, 0, 4).unwrap().filename, "buffer-7/lib.rs");
    let root = "/elsewhere".to_string();
    assert!(capture(Some(&path), Some(&root), 7, &rope, 0, 4).is_none());
    let odd = "/somewhere/<odd>.rs".to_string();
    assert!(capture(Some(&odd), None, 7, &rope, 0, 4).is_none());
    let blank = Rope::from_str("   \n\t\n");
    assert!(capture(None, None, 1, &blank, 0, 4).is_none());
}

#[test]
fn observing_keeps_the_ring_within_its_limits_and_free_of_overlaps() {
    let mut model = model();
    model.provider.as_mut().unwrap().context = ContextStrategy::RecencyRing { max_chunks: 3, chunk_lines: 2 };
    let text: String = (0..60).map(|i| format!("line{i} word{}\n", i % 7)).collect();
    doc(&mut model, 1).buffer = Rope::from_str(&text);
    let mut ring = InlineContextRing::new();
    let mut now = 100_000;
    for step in 0..40usize {
        set_line(&mut model, (step * 13) % 60);
        ring.observe(&model, now);
        if step % 2 == 0 {
            now += IDLE_MS;
            ring.observe(&model, now);
        }
        now += 10;
        assert!(ring.chunk_count() <= 3);
        assert!(ring.pending().len() <= 3);
        if ring.pending().is_empty() {
            assert!(ring.deadline().is_none());
        }
        for i in 0..ring.chunk_count() {
            for j in i + 1..ring.chunk_count() {
                let (a, b) = (ring.chunk_at(i), ring.chunk_at(j));
                assert!(a.0 != b.0 || a.2 <= b.1 || b.2 <= a.1, "stored snippets of one document overlap");
            }
        }
    }
    assert!(ring.chunk_count() > 0);
}
