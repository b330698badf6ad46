use athanor_app::overview::{build_repository_overview, entity_source_root, severity_rank, top_counts, OVERVIEW_SCHEMA};
use athanor_app::snapshot::{CanonicalSnapshot, Diagnostic, Entity, Evidence, Relation, SourceLocation};

fn entity(id: &str, kind: &str, stable_key: &str, name: &str, path: &str) -> Entity {
    Entity {
        id: id.to_string(),
        stable_key: stable_key.to_string(),
        kind: kind.to_string(),
        kind_label: kind.to_string(),
        name: name.to_string(),
        source: Some(SourceLocation { path: path.to_string(), line_start: Some(1) }),
        ownership: Vec::new(),
        role: None,
        contract_version: None,
    }
}

fn relation(id: &str, kind: &str, from: &Entity, to: &Entity) -> Relation {
    Relation {
        id: id.to_string(),
        kind: kind.to_string(),
        kind_label: kind.to_string(),
        from: from.id.clone(),
        to: to.id.clone(),
        status: "verified".to_string(),
        confidence: "1.0".to_string(),
        schema: None,
        evidence: Vec::new(),
    }
}

fn diagnostic(id: &str, path: &str) -> Diagnostic {
    Diagnostic {
        id: id.to_string(),
        kind: "missing_documentation".to_string(),
        severity: "high".to_string(),
        status: "open".to_string(),
        title: "Missing docs".to_string(),
        entities: Vec::new(),
        evidence: vec![Evidence { source_file: Some(path.to_string()), line_start: Some(1) }],
        module: None,
        surface: None,
        role: None,
        path: None,
        port: None,
    }
}

#[test]
fn builds_bounded_overview_with_hubs_and_counts() {
    let endpoint = entity("ent_endpoint", "api_endpoint", "api://GET:/health", "health", "openapi.yaml");
    let handler = entity("ent_handler", "function", "rust://src/lib.rs#health", "health", "src/lib.rs");
    let doc = entity("ent_doc", "documentation_page", "doc://docs/api/health.md", "Health API", "docs/api/health.md");
    let snapshot = CanonicalSnapshot {
        snapshot: Some("snap_test".to_string()),
        entities: vec![endpoint.clone(), handler.clone(), doc.clone()],
        facts: Vec::new(),
        relations: vec![
            relation("rel_impl", "implemented_by", &endpoint, &handler),
            relation("rel_docs", "documents", &doc, &endpoint),
        ],
        diagnostics: vec![diagnostic("diag_docs", "docs/api/health.md")],
    };

    let overview = build_repository_overview(&snapshot, 5);

    assert_eq!(overview.schema, OVERVIEW_SCHEMA);
    assert_eq!(overview.snapshot, "snap_test");
    assert_eq!(overview.totals.entities, 3);
    assert_eq!(overview.totals.open_diagnostics, 1);
    assert_eq!(overview.api.endpoints, 1);
    assert_eq!(overview.api.documented_endpoints, 1);
    assert_eq!(overview.api.implemented_endpoints, 1);
    assert_eq!(overview.graph_hubs[0].stable_key, "api://GET:/health");
    assert_eq!(overview.graph_hubs[0].degree, 2);
    assert_eq!(overview.open_diagnostics[0].source.as_deref(), Some("docs/api/health.md:1"));
    assert_eq!(overview.integration_boundaries.len(), 2);
    assert_eq!(overview.integration_boundaries[0].relations, 1);
    assert_eq!(overview.integration_boundaries[0].relation_ids.len(), 1);
}

#[test]
fn summarizes_modules_and_bounds_boundary_relation_ids() {
    let module = entity("ent_module", "module", "rust://crates/example/src/lib.rs", "example", "crates/example/src/lib.rs");
    let first = entity("ent_first", "function", "rust://crates/example/src/lib.rs#first", "first", "crates/example/src/lib.rs");
    let second = entity("ent_second", "function", "rust://crates/example/src/lib.rs#second", "second", "crates/example/src/lib.rs");
    let doc = entity("ent_doc", "documentation_page", "doc://docs/example.md", "Example", "docs/example.md");
    let snapshot = CanonicalSnapshot {
        snapshot: Some("snap_test".to_string()),
        entities: vec![module.clone(), first.clone(), second.clone(), doc.clone()],
        facts: Vec::new(),
        relations: vec![
            relation("rel_define_first", "defines", &module, &first),
            relation("rel_define_second", "defines", &module, &second),
            relation("rel_doc_first", "documents", &doc, &first),
            relation("rel_doc_second", "documents", &doc, &second),
        ],
        diagnostics: Vec::new(),
    };

    let overview = build_repository_overview(&snapshot, 1);

    assert_eq!(overview.module_structure.len(), 1);
    assert_eq!(overview.module_structure[0].direct_members, 2);
    assert_eq!(overview.module_structure[0].relation_ids, vec!["rel_define_first"]);
    assert_eq!(overview.module_structure[0].omitted_relation_ids, 1);
    assert_eq!(overview.integration_boundaries.len(), 1);
    assert_eq!(overview.integration_boundaries[0].from_root, "docs/example.md");
    assert_eq!(overview.integration_boundaries[0].to_root, "crates/example");
    assert_eq!(overview.integration_boundaries[0].relations, 2);
    assert_eq!(overview.integration_boundaries[0].relation_ids, vec!["rel_doc_first"]);
    assert_eq!(overview.integration_boundaries[0].omitted_relation_ids, 1);
}

#[test]
fn counts_names_most_frequent_first_then_by_name() {
    let values: Vec<String> = ["b", "a", "c", "b", "a", "d"].iter().map(|v| v.to_string()).collect();
    let counts = top_counts(&values, 3);
    assert_eq!(
        counts.iter().map(|c| (c.name.as_str(), c.count)).collect::<Vec<_>>(),
        vec![("a", 2), ("b", 2), ("c", 1)]
    );
    assert!(top_counts(&values, 0).is_empty());
    assert!(top_counts(&Vec::new(), 4).is_empty());
}

#[test]
fn derives_source_roots_from_paths_and_ownership() {
    let mut e = entity("e", "file", "file://x", "x", "crates/athanor-app/src/lib.rs");
    assert_eq!(entity_source_root(&e).as_deref(), Some("crates/athanor-app"));
    e.source = Some(SourceLocation { path: "src/lib.rs".to_string(), line_start: None });
    assert_eq!(entity_source_root(&e).as_deref(), Some("src"));
    e.source = Some(SourceLocation { path: "README.md".to_string(), line_start: None });
    assert_eq!(entity_source_root(&e).as_deref(), Some("README.md"));
    e.source = None;
    assert_eq!(entity_source_root(&e), None);
    e.ownership = vec!["docs/guide/intro.md".to_string()];
    assert_eq!(entity_source_root(&e).as_deref(), Some("docs/guide"));
}

#[test]
fn ranks_severities() {
    assert_eq!(severity_rank("critical"), 4);
    assert_eq!(severity_rank("high"), 3);
    assert_eq!(severity_rank("medium"), 2);
    assert_eq!(severity_rank("low"), 1);
    assert_eq!(severity_rank("info"), 0);
}

#[test]
fn orders_open_diagnostics_by_severity_and_skips_closed_ones() {
    let mut low = diagnostic("diag_low", "docs/a.md");
    low.severity = "low".to_string();
    let mut closed = diagnostic("diag_closed", "docs/b.md");
    closed.status = "resolved".to_string();
    closed.severity = "critical".to_string();
    let high = diagnostic("diag_high", "docs/c.md");
    let snapshot = CanonicalSnapshot {
        snapshot: None,
        entities: Vec::new(),
        facts: Vec::new(),
        relations: Vec::new(),
        diagnostics: vec![low, closed, high],
    };
    let overview = build_repository_overview(&snapshot, 10);
    assert_eq!(overview.snapshot, "unknown");
    assert_eq!(overview.totals.diagnostics, 3);
    assert_eq!(overview.totals.open_diagnostics, 2);
    assert_eq!(
        overview.open_diagnostics.iter().map(|d| d.id.as_str()).collect::<Vec<_>>(),
        vec!["diag_high", "diag_low"]
    );
}
