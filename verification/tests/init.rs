use athanor_app::init::{default_config, init_plan, DEFAULT_CONFIG};

#[test]
fn init_plan_lists_directories_parents_first() {
    let (dirs, config) = init_plan("/work/project");
    assert_eq!(
        dirs,
        vec![
            "/work/project/.athanor".to_string(),
            "/work/project/.athanor/knowledge".to_string(),
            "/work/project/.athanor/knowledge/docs".to_string(),
            "/work/project/.athanor/generated".to_string(),
        ]
    );
    assert_eq!(config, "/work/project/athanor.toml");
}

#[test]
fn default_config_holds_the_documented_sections() {
    assert_eq!(default_config(), DEFAULT_CONFIG);
    assert!(DEFAULT_CONFIG.starts_with("# Athanor project configuration\n"));
    assert!(DEFAULT_CONFIG.contains("[docs]\neditable_path = \"docs\"\n"));
    assert!(DEFAULT_CONFIG.contains("required_fields = [\"id\", \"kind\", \"language\", \"source_language\", \"status\"]"));
    assert!(DEFAULT_CONFIG.contains("require_current_snapshot = false"));
    assert!(DEFAULT_CONFIG.ends_with("max_snapshot_batch_bytes = 536870912\n"));
}
