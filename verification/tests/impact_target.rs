use athanor_app::impact_target::{
    entities_for_files, fallback_target_path, resolve_target_entities, unchanged_analysis, ImpactError,
};
use athanor_app::json_contract_base::IMPACT_ANALYSIS_SCHEMA_V1;
use athanor_app::snapshot::{CanonicalSnapshot, Entity, SourceLocation};

fn entity(id: &str, stable_key: &str, source: Option<&str>, owners: &[&str]) -> Entity {
    Entity {
        id: id.to_string(),
        stable_key: stable_key.to_string(),
        kind: "function".to_string(),
        kind_label: "Function".to_string(),
        name: stable_key.to_string(),
        source: source.map(|path| SourceLocation { path: path.to_string(), line_start: Some(1) }),
        ownership: owners.iter().map(|owner| owner.to_string()).collect(),
        role: None,
        contract_version: None,
    }
}

fn entities() -> Vec<Entity> {
    vec![
        entity("a", "symbol://rust:login", Some("src/auth.rs"), &[]),
        entity("b", "doc://docs/auth.md", None, &["docs/auth.md"]),
        entity("c", "symbol://rust:logout", Some("src/auth.rs"), &[]),
        entity("d", "symbol://rust:main", Some("src/main.rs"), &[]),
    ]
}

#[test]
fn target_resolves_by_stable_key_first() {
    let found = resolve_target_entities(&entities(), "symbol://rust:main", "src/auth.rs").unwrap();
    assert_eq!(found.iter().map(|e| e.id.as_str()).collect::<Vec<_>>(), vec!["d"]);
}

#[test]
fn target_falls_back_to_the_file_it_names() {
    let found = resolve_target_entities(&entities(), "./src/auth.rs", "src/auth.rs").unwrap();
    assert_eq!(found.iter().map(|e| e.id.as_str()).collect::<Vec<_>>(), vec!["a", "c"]);
    let owned = resolve_target_entities(&entities(), "docs/auth.md", "docs/auth.md").unwrap();
    assert_eq!(owned.iter().map(|e| e.id.as_str()).collect::<Vec<_>>(), vec!["b"]);
}

#[test]
fn unresolved_target_is_an_error() {
    let error = resolve_target_entities(&entities(), "nothing", "nothing").unwrap_err();
    assert!(matches!(error, ImpactError::TargetNotResolved { .. }));
    assert_eq!(
        error.to_string(),
        "could not resolve target \"nothing\" to any canonical entities in the latest snapshot"
    );
    assert_eq!(
        ImpactError::NoTarget.to_string(),
        "either a target stable-key/path or the --diff flag must be provided"
    );
}

#[test]
fn fallback_target_path_normalizes_separators() {
    assert_eq!(fallback_target_path(".\\src\\auth.rs"), "src/auth.rs");
    assert_eq!(fallback_target_path("./docs/auth.md"), "docs/auth.md");
    assert_eq!(fallback_target_path("../x"), "../x");
    assert_eq!(fallback_target_path("."), ".");
}

#[test]
fn diff_selects_entities_of_changed_files() {
    let files = vec!["src/main.rs".to_string(), "docs/auth.md".to_string()];
    let found = entities_for_files(&entities(), &files);
    assert_eq!(found.iter().map(|e| e.id.as_str()).collect::<Vec<_>>(), vec!["b", "d"]);
    assert!(entities_for_files(&entities(), &Vec::new()).is_empty());
}

#[test]
fn unchanged_diff_gives_an_empty_analysis() {
    let snapshot = CanonicalSnapshot {
        snapshot: Some("snap_a".to_string()),
        entities: entities(),
        facts: Vec::new(),
        relations: Vec::new(),
        diagnostics: Vec::new(),
    };
    let analysis = unchanged_analysis(&snapshot);
    assert_eq!(analysis.schema, IMPACT_ANALYSIS_SCHEMA_V1);
    assert_eq!(analysis.snapshot, "snap_a");
    assert!(analysis.starting_entities.is_empty());
    assert!(analysis.impacted_entities.is_empty());
}
