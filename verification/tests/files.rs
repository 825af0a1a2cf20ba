use token_runtime::formatting::{context_paths, is_valid_command, substitute_file, within_output_limit, ContextPathError};
use token_runtime::log_files::{is_log_name, latest_log, LogEntry};
use token_runtime::paths::{absolute_normalized, normalized};
use token_runtime::retrieval::{
    accept_disk_text, buffer_admissible, keep_buffers, scope_allows, walk_entry_allowed, RetrievalPass, TextSource, FILE_BYTES,
    INDEX_BYTES, MAX_FILES,
};
use token_runtime::watch_roots::{document_parents, watch_targets, WatchRoots};

fn entry(name: &str, is_file: bool) -> LogEntry {
    LogEntry { name: name.to_string(), is_file }
}

#[test]
fn config_resource_log_selects_latest_file_without_creating_an_empty_log() {
    assert_eq!(latest_log(&vec![]), None);
    let mut entries = vec![entry("token.log", true)];
    assert_eq!(latest_log(&entries), Some(0));
    for name in [
        "token.log.2026-09-05",
        "token.log.2026-09-06",
        "token.log.backup",
        "token.logger",
        "token.log.2026-09-07.bak",
    ] {
        entries.push(entry(name, true));
    }
    entries.push(entry("token.log.2026-09-08", false));
    assert_eq!(entries[latest_log(&entries).unwrap()].name, "token.log.2026-09-06");
}

#[test]
fn log_names_are_the_base_log_and_daily_rotations() {
    assert!(is_log_name("token.log"));
    assert!(is_log_name("token.log.2026-01-31"));
    assert!(!is_log_name("token.log."));
    assert!(!is_log_name("token.log.2026-1-31"));
    assert!(!is_log_name("token.log.2026_01_31"));
    assert!(!is_log_name("other.log"));
}

#[test]
fn paths_resolve_dot_components_lexically() {
    assert_eq!(normalized(&"/a/./b/../c".to_string()), "/a/c");
    assert_eq!(normalized(&"/../x".to_string()), "/x");
    assert_eq!(normalized(&"/a/b/".to_string()), "/a/b");
    assert_eq!(absolute_normalized("/w/src/../.editorconfig"), "/w/.editorconfig");
    assert!(absolute_normalized("relative/file.rs").starts_with('/'));
}

#[test]
fn normalizing_twice_changes_nothing() {
    for path in ["/a/./b/../c", "a/../../b/./c/", "./x/y/..", "/../..", "", "/a//b///c/"] {
        let once = normalized(&path.to_string());
        assert_eq!(normalized(&once), once);
        assert!(!once.split('/').any(|part| part == "." || part == ".."));
    }
}

#[test]
fn a_relative_path_is_made_absolute_with_its_components() {
    let r = absolute_normalized("./some/dir/../file.rs");
    assert!(r.starts_with('/'));
    assert!(r.ends_with("/some/file.rs"));
    assert_eq!(absolute_normalized(&r), r);
}

#[test]
fn an_absolute_path_is_only_normalized() {
    assert_eq!(absolute_normalized("/a//b/./c/"), "/a/b/c");
    assert_eq!(absolute_normalized("/a/b/../../.."), "/");
    assert_eq!(absolute_normalized("/"), "/");
}

#[test]
fn command_formatting_substitutes_filename_as_one_argument() {
    let args = vec!["--stdin-filename".to_string(), "{file}".to_string(), "x{file}y{file}".to_string()];
    let out = substitute_file(&args, "/tmp/file with spaces.py");
    assert_eq!(
        out,
        vec![
            "--stdin-filename".to_string(),
            "/tmp/file with spaces.py".to_string(),
            "x/tmp/file with spaces.pyy/tmp/file with spaces.py".to_string(),
        ]
    );
    assert_eq!(substitute_file(&vec!["{fil}".to_string()], "f"), vec!["{fil}".to_string()]);
}

#[test]
fn command_formatting_rejects_blank_and_multiline_commands() {
    assert!(is_valid_command("ruff"));
    assert!(is_valid_command("  black "));
    assert!(!is_valid_command(""));
    assert!(!is_valid_command(" \t "));
    assert!(!is_valid_command("ruff\nrm"));
    assert!(!is_valid_command("ruff\r"));
    assert!(!is_valid_command("ru\0ff"));
    assert!(within_output_limit(10, 10));
    assert!(!within_output_limit(11, 10));
}

#[test]
fn retrieval_buffers_share_the_index_budget_in_path_order() {
    assert!(buffer_admissible(true, FILE_BYTES));
    assert!(!buffer_admissible(true, FILE_BYTES + 1));
    assert!(!buffer_admissible(false, 1));
    let sizes = vec![Some(INDEX_BYTES - 10), None, Some(20), Some(10), Some(1)];
    assert_eq!(keep_buffers(&sizes), vec![true, false, false, true, false]);
}

#[test]
fn retrieval_walk_skips_hidden_and_dependency_directories() {
    assert!(walk_entry_allowed(0, Some(".hidden-root")));
    assert!(walk_entry_allowed(1, Some("helper.rs")));
    assert!(!walk_entry_allowed(1, Some(".hidden.rs")));
    assert!(!walk_entry_allowed(2, Some("node_modules")));
    assert!(!walk_entry_allowed(2, Some("target")));
    assert!(walk_entry_allowed(2, Some("targets")));
    assert!(!walk_entry_allowed(1, None));
}

#[test]
fn retrieval_budget_prefers_buffers_and_pays_for_rejected_reads() {
    let mut pass = RetrievalPass::new();
    assert!(!pass.should_stop(0));
    assert!(pass.should_stop(250));
    assert_eq!(pass.text_source(None), TextSource::Disk);
    assert_eq!(pass.text_source(Some(None)), TextSource::Skip);
    assert_eq!(pass.text_source(Some(Some(100))), TextSource::Buffer);
    assert_eq!(pass.remaining, INDEX_BYTES - 100);
    assert_eq!(pass.read_limit(), FILE_BYTES);
    // A rejected source still consumes the read budget.
    assert!(!accept_disk_text(true, 21, FILE_BYTES, Some("\0fn parse_widget() {}"), true));
    pass.paid(21);
    assert_eq!(pass.remaining, INDEX_BYTES - 121);
    assert!(accept_disk_text(true, 21, FILE_BYTES, Some("fn parse_widget() {}\n"), true));
    assert!(!accept_disk_text(true, 21, FILE_BYTES, Some("fn parse_widget() {}\n"), false));
    assert!(!accept_disk_text(true, 21, 10, Some("fn parse_widget() {}\n"), true));
    assert!(!accept_disk_text(true, 3, FILE_BYTES, None, true));
    pass.files = MAX_FILES;
    assert!(pass.should_stop(0));
}

#[test]
fn watched_directories_follow_the_open_documents() {
    let mut roots = WatchRoots::new();
    let plan = roots.sync(&vec!["/a".to_string(), "/".to_string(), "/a".to_string()]);
    assert!(plan.unwatch.is_empty());
    assert_eq!(plan.watch, vec!["/a".to_string(), "/".to_string()]);
    for root in &plan.watch {
        roots.watched(root);
    }
    let plan = roots.sync(&vec!["/b".to_string(), "/".to_string()]);
    assert_eq!(plan.unwatch, vec!["/a".to_string()]);
    assert_eq!(plan.watch, vec!["/b".to_string()]);
    assert!(!roots.contains(&"/a".to_string()));
    assert!(roots.contains(&"/".to_string()));
    roots.unwatched(&"/".to_string());
    assert!(!roots.contains(&"/".to_string()));
}

#[test]
fn a_sync_without_documents_unwatches_everything() {
    let mut roots = WatchRoots::new();
    let desired = vec!["/r/documents".to_string(), "/r".to_string()];
    let plan = roots.sync(&desired);
    for root in &plan.watch {
        roots.watched(root);
    }
    assert!(desired.iter().all(|d| roots.contains(d)));
    let plan = roots.sync(&Vec::new());
    let mut unwatched = plan.unwatch.clone();
    unwatched.sort();
    assert_eq!(unwatched, vec!["/r".to_string(), "/r/documents".to_string()]);
    assert!(plan.watch.is_empty());
    assert!(desired.iter().all(|d| !roots.contains(d)));
}

#[test]
fn formatter_context_uses_the_workspace_for_untitled_buffers() {
    let ws = "/ws".to_string();
    let cwd = "/cwd".to_string();
    assert_eq!(
        context_paths(Some(&ws), None, "untitled.rs", Some(&cwd)),
        Ok(("/ws/untitled.rs".to_string(), "/ws".to_string()))
    );
    let rel = "rel/x.rs".to_string();
    assert_eq!(
        context_paths(Some(&ws), Some(&rel), "untitled.rs", Some(&cwd)),
        Ok(("/cwd/rel/x.rs".to_string(), "/cwd/rel".to_string()))
    );
    let abs = "/project/src/main.rs".to_string();
    assert_eq!(
        context_paths(None, Some(&abs), "untitled.rs", Some(&cwd)),
        Ok(("/project/src/main.rs".to_string(), "/project/src".to_string()))
    );
}

#[test]
fn formatter_context_reports_missing_directories() {
    let abs = "/project/main.rs".to_string();
    assert_eq!(context_paths(None, Some(&abs), "untitled.rs", None), Err(ContextPathError::NoCurrentDir));
    let ws = "/ws".to_string();
    let rel = "x.rs".to_string();
    assert_eq!(context_paths(Some(&ws), Some(&rel), "untitled.rs", None), Err(ContextPathError::NoCurrentDir));
    let root = "/".to_string();
    assert_eq!(context_paths(Some(&ws), Some(&root), "untitled.rs", None), Err(ContextPathError::NoParent));
}

#[test]
fn documents_watch_their_nearest_existing_directories() {
    let parents = document_parents(&"/home/me/project/src/main.rs".to_string());
    assert_eq!(parents, vec!["/home/me/project/src", "/home/me/project", "/home/me", "/home", "/"]);
    let candidates: Vec<(String, bool)> = vec![
        ("/home/me/project/src".to_string(), false),
        ("/home/me/project".to_string(), true),
        ("/home/me".to_string(), false),
        ("/home".to_string(), true),
        ("/".to_string(), true),
    ];
    assert_eq!(watch_targets(&candidates), vec!["/home/me/project".to_string(), "/home".to_string()]);
    assert!(watch_targets(&Vec::new()).is_empty());
    let one = vec![("/only".to_string(), true), ("/".to_string(), false)];
    assert_eq!(watch_targets(&one), vec!["/only".to_string()]);
}

#[test]
fn command_formatting_untitled_python_uses_workspace_and_language_extension() {
    let dir = tempfile::tempdir().unwrap();
    let workspace = dir.path().to_string_lossy().into_owned();
    let (file, cwd) = context_paths(Some(&workspace), None, "untitled.py", None).unwrap();
    assert_eq!(std::path::PathBuf::from(file), dir.path().join("untitled.py"));
    assert_eq!(std::path::PathBuf::from(cwd), dir.path());
}

#[test]
fn retrieval_scope_needs_a_canonical_root_holding_the_active_document() {
    let root = "/ws/project".to_string();
    let inside = "/ws/project/src/lib.rs".to_string();
    let outside = "/ws/other/lib.rs".to_string();
    assert!(scope_allows(&root, true, Some(&inside)));
    assert!(scope_allows(&root, true, None));
    assert!(!scope_allows(&root, true, Some(&outside)));
    assert!(!scope_allows(&root, false, Some(&inside)));
    assert!(!scope_allows(&root, true, Some(&"/ws/projectx/a.rs".to_string())));
}
