use athanor_app::index_state::{
    backup_file_name, generation_id_for, staging_file_name, FileEntry, FileState, IndexState, IndexStateStore,
    SourceFile, INDEX_STATE_SCHEMA,
};

fn source(path: &str, hash: &str) -> SourceFile {
    SourceFile { path: path.to_string(), content_hash: Some(hash.to_string()), language_hint: Some("markdown".to_string()) }
}

#[test]
fn state_joins_snapshot_to_immutable_generation() {
    let state = IndexState::from_sources("snap_test", &[]);

    assert_eq!(state.snapshot.as_deref(), Some("snap_test"));
    assert_eq!(state.generation.as_deref(), Some("gen_snap_test"));
    assert_eq!(state.schema, INDEX_STATE_SCHEMA);
    assert_eq!(generation_id_for("snap_x"), "gen_snap_x");
}

#[test]
fn computes_changed_unchanged_and_removed_files() {
    let state = |hash: &str| FileState { content_hash: Some(hash.to_string()), language_hint: Some("markdown".to_string()) };
    let previous = IndexState {
        schema: INDEX_STATE_SCHEMA.to_string(),
        snapshot: Some("snap_previous".to_string()),
        generation: Some("gen_snap_previous".to_string()),
        files: vec![
            FileEntry { path: "docs/auth.md".to_string(), state: state("hash-a") },
            FileEntry { path: "docs/removed.md".to_string(), state: state("hash-r") },
        ],
    };
    let current = vec![source("docs/auth.md", "hash-a"), source("docs/new.md", "hash-n")];

    let affected = previous.affected_files(&current);

    assert!(affected.unchanged.contains(&"docs/auth.md".to_string()));
    assert!(affected.changed.contains(&"docs/new.md".to_string()));
    assert!(affected.removed.contains(&"docs/removed.md".to_string()));
    assert_eq!(affected.changed.len(), 1);
    assert_eq!(affected.unchanged.len(), 1);
    assert_eq!(affected.removed.len(), 1);
}

#[test]
fn rebuilt_state_sorts_files_and_detects_content_changes() {
    let state = IndexState::from_sources("snap_b", &[source("z.md", "h1"), source("a.md", "h2")]);
    assert_eq!(state.files.iter().map(|f| f.path.as_str()).collect::<Vec<_>>(), vec!["a.md", "z.md"]);
    let affected = state.affected_files(&[source("a.md", "h3"), source("z.md", "h1")]);
    assert_eq!(affected.changed, vec!["a.md"]);
    assert_eq!(affected.unchanged, vec!["z.md"]);
    assert!(affected.removed.is_empty());
    assert!(IndexState::empty().files.is_empty());
}

#[test]
fn store_falls_back_to_an_empty_state() {
    let store = IndexStateStore::new("project/.athanor/state/index-state.json".to_string());
    assert_eq!(store.path(), "project/.athanor/state/index-state.json");
    let loaded = store.load(None);
    assert!(loaded.snapshot.is_none());
    assert!(loaded.files.is_empty());
    assert_eq!(staging_file_name("index-state.json", "p1"), ".index-state.json.staging-p1");
    assert_eq!(backup_file_name("index-state.json", "p1"), ".index-state.json.backup-p1");
}
