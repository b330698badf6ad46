use athanor_app::publication::IndexCurrent;
use athanor_app::state_selection::{current_pointer_path, project_root, select_index_state_path, StateSelectionError};

#[test]
fn pointer_selected_state_is_read_first() {
    let configured = "/work/project/.athanor/state/index-state.json";
    assert_eq!(project_root(configured), Some("/work/project".to_string()));
    assert_eq!(
        current_pointer_path(configured),
        Some("/work/project/.athanor/state/index-current.json".to_string())
    );
    let current = IndexCurrent::for_snapshot("snap_current");
    let selected = select_index_state_path(configured, Some(&current), true, true).unwrap();
    assert_eq!(selected, current.index_state_path("/work/project"));
    assert!(selected.contains("index-generations"));
}

#[test]
fn without_pointer_the_project_state_is_read() {
    let configured = "/work/project/.athanor/state/index-state.json";
    assert_eq!(select_index_state_path(configured, None, false, false).unwrap(), configured);
    assert_eq!(select_index_state_path(".athanor/state/index-state.json", None, false, false).unwrap(), ".athanor/state/index-state.json");
}

#[test]
fn pointer_with_missing_artifacts_fails_closed() {
    let configured = "/work/project/.athanor/state/index-state.json";
    let current = IndexCurrent::for_snapshot("snap_current");
    let error = select_index_state_path(configured, Some(&current), true, false).unwrap_err();
    assert!(matches!(error, StateSelectionError::MissingArtifacts { .. }));
    assert_eq!(
        error.to_string(),
        "index current pointer /work/project/.athanor/state/index-current.json selects missing artifacts"
    );
}

#[test]
fn invalid_pointer_fails_closed() {
    let configured = "/work/project/.athanor/state/index-state.json";
    let current = IndexCurrent::from_parts(
        "athanor.index_current.v0".to_string(),
        "gen_snap".to_string(),
        "snap".to_string(),
        "x".to_string(),
        "y".to_string(),
    );
    let error = select_index_state_path(configured, Some(&current), true, true).unwrap_err();
    assert!(matches!(error, StateSelectionError::InvalidPointer { .. }));
}

#[test]
fn other_paths_are_read_as_they_are() {
    assert_eq!(project_root("/tmp/custom-state.json"), None);
    assert_eq!(current_pointer_path("/tmp/custom-state.json"), None);
    let current = IndexCurrent::for_snapshot("snap_current");
    assert_eq!(select_index_state_path("/tmp/custom-state.json", Some(&current), false, false).unwrap(), "/tmp/custom-state.json");
    assert_eq!(project_root("/.athanor/state/index-state.json"), Some("/".to_string()));
}
