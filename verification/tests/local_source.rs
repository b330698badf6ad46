use athanor_app::local_source::{
    content_hash_label, fnv1a64, language_hint, order_by_path, should_ignore, source_file, DiscoveryPoller,
};

#[test]
fn fnv1a64_matches_known_values() {
    assert_eq!(fnv1a64(b""), 0xcbf29ce484222325);
    assert_eq!(fnv1a64(b"a"), 0xaf63dc4c8601ec8c);
    assert_eq!(fnv1a64(b"foobar"), 0x85944171f73967e8);
}

#[test]
fn language_hint_maps_known_extensions() {
    assert_eq!(language_hint(Some("rs")).as_deref(), Some("rust"));
    assert_eq!(language_hint(Some("md")).as_deref(), Some("markdown"));
    assert_eq!(language_hint(Some("yml")).as_deref(), Some("yaml"));
    assert_eq!(language_hint(Some("cjs")).as_deref(), Some("javascript"));
    assert_eq!(language_hint(Some("tsx")).as_deref(), Some("typescriptreact"));
    assert_eq!(language_hint(Some("php")).as_deref(), Some("php"));
}

#[test]
fn language_hint_keeps_unknown_extensions_and_none() {
    assert_eq!(language_hint(Some("zig")).as_deref(), Some("zig"));
    assert_eq!(language_hint(None), None);
}

#[test]
fn should_ignore_skips_tool_directories_only() {
    for name in [".git", ".athanor", "target", "node_modules", ".idea", ".vscode"] {
        assert!(should_ignore(name), "{name}");
    }
    assert!(!should_ignore("src"));
    assert!(!should_ignore(".github"));
    assert!(!should_ignore("targets"));
}

#[test]
fn content_hash_label_pads_sixteen_hex_digits() {
    assert_eq!(content_hash_label(0xcbf29ce484222325), "fnv1a64:cbf29ce484222325");
    assert_eq!(content_hash_label(1), "fnv1a64:0000000000000001");
    assert_eq!(content_hash_label(u64::MAX), "fnv1a64:ffffffffffffffff");
}

#[test]
fn source_file_records_path_language_and_hash() {
    let file = source_file("docs/a.md".to_string(), Some("md"), b"a");
    assert_eq!(file.path, "docs/a.md");
    assert_eq!(file.language_hint.as_deref(), Some("markdown"));
    assert_eq!(file.content_hash.as_deref(), Some("fnv1a64:af63dc4c8601ec8c"));
    let bare = source_file("Makefile".to_string(), None, b"");
    assert_eq!(bare.language_hint, None);
    assert_eq!(bare.content_hash.as_deref(), Some("fnv1a64:cbf29ce484222325"));
}

#[test]
fn order_by_path_sorts_files() {
    let files = vec![
        source_file("src/lib.rs".to_string(), Some("rs"), b""),
        source_file("README.md".to_string(), Some("md"), b""),
        source_file("docs/a.md".to_string(), Some("md"), b""),
    ];
    let ordered = order_by_path(files);
    assert_eq!(ordered.iter().map(|f| f.path.as_str()).collect::<Vec<_>>(), vec!["README.md", "docs/a.md", "src/lib.rs"]);
}

#[test]
fn poller_checks_once_every_interval() {
    let mut poller = DiscoveryPoller::new(3);
    let checks = (0..7).map(|_| poller.step()).collect::<Vec<_>>();
    assert_eq!(checks, vec![false, false, true, false, false, true, false]);
    let mut every = DiscoveryPoller::new(0);
    assert!(every.step());
    assert!(every.step());
}
