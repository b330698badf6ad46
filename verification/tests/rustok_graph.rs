use athanor_app::rustok::{RUSTOK_FFA_SURFACE_GRAPH_SCHEMA, RUSTOK_FFA_VIOLATIONS_GRAPH_SCHEMA};
use athanor_app::rustok_graph::{build_rustok_ffa_surface_graph, build_rustok_ffa_violations_graph, RustokGraphError};
use athanor_app::snapshot::{CanonicalSnapshot, Diagnostic, Entity, Evidence, Relation, SourceLocation};

fn entity(id: &str, stable_key: &str, kind: &str, name: &str) -> Entity {
    Entity {
        id: id.to_string(),
        stable_key: stable_key.to_string(),
        kind: kind.to_string(),
        kind_label: kind.to_string(),
        name: name.to_string(),
        source: Some(SourceLocation {
            path: stable_key.strip_prefix("doc://").unwrap_or("src/lib.rs").to_string(),
            line_start: Some(1),
        }),
        ownership: Vec::new(),
        role: None,
        contract_version: None,
    }
}

fn relation(id: &str, kind: &str, from: &Entity, to: &Entity) -> Relation {
    Relation {
        id: id.to_string(),
        kind: kind.to_string(),
        kind_label: kind.to_string(),
        from: from.id.clone(),
        to: to.id.clone(),
        status: "verified".to_string(),
        confidence: "1.0".to_string(),
        schema: None,
        evidence: vec![Evidence { source_file: Some("docs/api/health.md".to_string()), line_start: Some(1) }],
    }
}

fn ffa_diagnostic(id: &str, kind: &str, module: &str, surface: &str, role: Option<&str>, path: Option<&str>) -> Diagnostic {
    Diagnostic {
        id: id.to_string(),
        kind: kind.to_string(),
        severity: "high".to_string(),
        status: "open".to_string(),
        title: kind.to_string(),
        entities: Vec::new(),
        evidence: vec![Evidence { source_file: path.map(str::to_string), line_start: Some(1) }],
        module: Some(module.to_string()),
        surface: Some(surface.to_string()),
        role: role.map(str::to_string),
        path: path.map(str::to_string),
        port: None,
    }
}

fn surface_fixture(with_diagnostic: bool) -> CanonicalSnapshot {
    let surface = entity("ent_surface", "ffa_surface://blog/admin", "rustok_ffa_surface", "blog/admin");
    let core = entity("ent_core", "ffa_layer://blog/admin/core", "rustok_ffa_layer", "blog/admin/core");
    let file = entity(
        "ent_file",
        "file://crates/rustok-blog/admin/src/core.rs",
        "file",
        "crates/rustok-blog/admin/src/core.rs",
    );
    let diagnostics = if with_diagnostic {
        vec![ffa_diagnostic(
            "diag_core",
            "rustok_ffa_core_depends_on_leptos",
            "blog",
            "admin",
            Some("core"),
            Some("crates/rustok-blog/admin/src/core.rs"),
        )]
    } else {
        Vec::new()
    };
    CanonicalSnapshot {
        snapshot: Some("snap_test".to_string()),
        entities: vec![surface.clone(), core.clone(), file.clone()],
        facts: Vec::new(),
        relations: vec![
            relation("rel_surface_core", "contains", &surface, &core),
            relation("rel_core_file", "implemented_by", &core, &file),
        ],
        diagnostics,
    }
}

#[test]
fn ffa_surface_graph_includes_surface_layers_files_and_diagnostics() {
    let graph = build_rustok_ffa_surface_graph(&surface_fixture(true), "blog", "admin", 80, 160).unwrap();

    assert_eq!(graph.schema, RUSTOK_FFA_SURFACE_GRAPH_SCHEMA);
    assert_eq!(graph.surface.as_deref(), Some("ffa_surface://blog/admin"));
    assert_eq!(
        graph.nodes.iter().map(|node| node.id.as_str()).collect::<Vec<_>>(),
        vec!["ffa_layer://blog/admin/core", "ffa_surface://blog/admin", "file://crates/rustok-blog/admin/src/core.rs"]
    );
    assert_eq!(graph.edges.len(), 2);
    assert_eq!(graph.diagnostics.len(), 1);
}

#[test]
fn ffa_violations_graph_excludes_clean_edges() {
    let graph = build_rustok_ffa_violations_graph(&surface_fixture(true), Some("blog"), Some("admin"), 80, 160);

    assert_eq!(graph.schema, RUSTOK_FFA_VIOLATIONS_GRAPH_SCHEMA);
    assert_eq!(graph.edges.iter().map(|edge| edge.kind.as_str()).collect::<Vec<_>>(), vec!["evidenced_by", "violates"]);
    assert!(graph.edges.iter().all(|edge| edge.kind != "contains" && edge.kind != "implemented_by"));
}

#[test]
fn ffa_surface_graph_reports_node_and_edge_omissions() {
    let graph = build_rustok_ffa_surface_graph(&surface_fixture(false), "blog", "admin", 1, 1).unwrap();

    assert_eq!(graph.nodes.len(), 1);
    assert_eq!(graph.edges.len(), 0);
    assert_eq!(graph.omitted.nodes, 2);
    assert_eq!(graph.omitted.edges, 1);
}

#[test]
fn ffa_surface_graph_rejects_zero_limits_and_unknown_surfaces() {
    let snapshot = surface_fixture(false);
    assert!(matches!(build_rustok_ffa_surface_graph(&snapshot, "blog", "admin", 0, 10), Err(RustokGraphError::Limits)));
    let missing = build_rustok_ffa_surface_graph(&snapshot, "blog", "public", 10, 10).err().unwrap();
    assert_eq!(missing.to_string(), "FFA surface not found for `ffa_surface://blog/public`");
}

#[test]
fn ffa_violations_graph_without_filters_names_no_surface() {
    let graph = build_rustok_ffa_violations_graph(&surface_fixture(true), None, None, 80, 160);
    assert_eq!(graph.surface, None);
    assert_eq!(graph.nodes.len(), 3);
    assert_eq!(graph.edges[0].from, "ffa_layer://blog/admin/core");
    assert_eq!(graph.edges[0].evidence, vec!["crates/rustok-blog/admin/src/core.rs:1"]);
    assert_eq!(graph.omitted.nodes, 0);
}
