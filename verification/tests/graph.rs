use athanor_app::graph::{
    build_graph_cycles, build_graph_cycles_with_operation_context, build_graph_export, build_related_graph_with_operation_context,
    build_shortest_graph_path_with_operation_context, build_graph_hubs, build_related_graph, build_shortest_graph_path,
    graph_export_to_graphml, minimum_rotation, xml_escape, GRAPH_CYCLES_SCHEMA, GRAPH_EXPORT_SCHEMA, GRAPH_HUBS_SCHEMA,
    GRAPH_PATH_SCHEMA, GRAPH_RELATED_SCHEMA,
};
use athanor_app::snapshot::{CanonicalSnapshot, Entity, Evidence, Relation, SourceLocation};

fn entity(id: &str, stable_key: &str, kind: &str, kind_label: &str, name: &str) -> Entity {
    Entity {
        id: id.to_string(),
        stable_key: stable_key.to_string(),
        kind: kind.to_string(),
        kind_label: kind_label.to_string(),
        name: name.to_string(),
        source: Some(SourceLocation {
            path: stable_key.strip_prefix("doc://").unwrap_or("src/lib.rs").to_string(),
            line_start: Some(1),
        }),
        ownership: Vec::new(),
        role: None,
        contract_version: None,
    }
}

fn endpoint() -> Entity {
    entity("ent_endpoint", "api://GET:/health", "api_endpoint", "ApiEndpoint", "health")
}

fn handler() -> Entity {
    entity("ent_handler", "rust://src/lib.rs#health", "function", "Function", "health")
}

fn doc() -> Entity {
    entity("ent_doc", "doc://docs/api/health.md", "documentation_page", "DocumentationPage", "Health API")
}

fn schema() -> Entity {
    entity("ent_schema", "api-schema://Health", "api_schema", "ApiSchema", "Health")
}

fn function(id: &str, stable_key: &str, name: &str) -> Entity {
    entity(id, stable_key, "function", "Function", name)
}

fn relation(id: &str, kind: &str, from: &Entity, to: &Entity) -> Relation {
    Relation {
        id: id.to_string(),
        kind: kind.to_string(),
        kind_label: kind.to_string(),
        from: from.id.clone(),
        to: to.id.clone(),
        status: "verified".to_string(),
        confidence: "1.0".to_string(),
        schema: None,
        evidence: vec![Evidence { source_file: Some("docs/api/health.md".to_string()), line_start: Some(1) }],
    }
}

fn snapshot(name: Option<&str>, entities: Vec<Entity>, relations: Vec<Relation>) -> CanonicalSnapshot {
    CanonicalSnapshot {
        snapshot: name.map(str::to_string),
        entities,
        facts: Vec::new(),
        relations,
        diagnostics: Vec::new(),
    }
}

fn export_fixture() -> CanonicalSnapshot {
    let (endpoint, handler, doc) = (endpoint(), handler(), doc());
    let orphan = entity("ent_orphan", "file://orphan", "file", "File", "orphan");
    snapshot(
        Some("snap_test"),
        vec![handler.clone(), orphan, doc.clone(), endpoint.clone()],
        vec![
            relation("rel_docs", "documents", &doc, &endpoint),
            relation("rel_impl", "implemented_by", &endpoint, &handler),
        ],
    )
}

fn check_bounded_export(snapshot: &CanonicalSnapshot) {
    let export = build_graph_export(snapshot, 3, 1);

    assert_eq!(export.schema, GRAPH_EXPORT_SCHEMA);
    assert_eq!(export.snapshot, "snap_test");
    assert_eq!(
        export.nodes.iter().map(|node| node.stable_key.as_str()).collect::<Vec<_>>(),
        vec!["api://GET:/health", "doc://docs/api/health.md", "rust://src/lib.rs#health"]
    );
    assert_eq!(export.edges.len(), 1);
    assert_eq!(export.edges[0].id, "rel_docs");
    assert_eq!(export.edges[0].evidence, vec!["docs/api/health.md:1"]);
    assert_eq!(export.omitted.nodes, 1);
    assert_eq!(export.omitted.edges, 1);
}

#[test]
fn graph_exports_bounded_graph_by_degree_then_stable_key() {
    check_bounded_export(&export_fixture());
}

#[test]
fn tests_exports_bounded_graph_by_degree_then_stable_key() {
    check_bounded_export(&export_fixture());
}

fn graphml_fixture() -> String {
    let endpoint = entity("ent_endpoint", "api://GET:/health?format=<json>", "api_endpoint", "ApiEndpoint", "health & status");
    let handler = handler();
    let snapshot = snapshot(
        Some("snap_test"),
        vec![handler.clone(), endpoint.clone()],
        vec![relation("rel_impl", "implemented_by", &endpoint, &handler)],
    );
    graph_export_to_graphml(&build_graph_export(&snapshot, 10, 10))
}

#[test]
fn graph_renders_graph_export_as_graphml_with_escaped_values() {
    let graphml = graphml_fixture();

    assert!(graphml.starts_with("<?xml version=\"1.0\" encoding=\"UTF-8\"?>"));
    assert!(graphml.contains("<graphml xmlns=\"http://graphml.graphdrawing.org/xmlns\">"));
    assert!(graphml.contains("<graph id=\"snap_test\" edgedefault=\"directed\">"));
    assert!(graphml.contains("<node id=\"ent_endpoint\">"));
    assert!(graphml.contains("<data key=\"stable_key\">api://GET:/health?format=&lt;json&gt;</data>"));
    assert!(graphml.contains("<data key=\"name\">health &amp; status</data>"));
    assert!(graphml.contains("<edge id=\"rel_impl\" source=\"ent_endpoint\" target=\"ent_handler\">"));
    assert!(graphml.ends_with("</graphml>\n"));
}

#[test]
fn tests_renders_graph_export_as_graphml_with_escaped_values() {
    let graphml = graphml_fixture();

    assert!(graphml.contains("<data key=\"stable_key\">api://GET:/health?format=&lt;json&gt;</data>"));
    assert!(graphml.contains("<data key=\"name\">health &amp; status</data>"));
    assert!(graphml.ends_with("</graphml>\n"));
}

#[test]
fn escapes_xml_special_characters() {
    assert_eq!(xml_escape("a<b>&\"c'"), "a&lt;b&gt;&amp;&quot;c&apos;");
    assert_eq!(xml_escape("plain"), "plain");
}

#[test]
fn explores_related_entities_by_bounded_distance() {
    let (endpoint, handler, doc, schema) = (endpoint(), handler(), doc(), schema());
    let snapshot = snapshot(
        Some("snap_test"),
        vec![handler.clone(), schema.clone(), doc.clone(), endpoint.clone()],
        vec![
            relation("rel_docs", "documents", &doc, &endpoint),
            relation("rel_impl", "implemented_by", &endpoint, &handler),
            relation("rel_schema", "schema_for_response", &endpoint, &schema),
        ],
    );

    let related = build_related_graph(&snapshot, "api://GET:/health", 1, 3, 10).unwrap();

    assert_eq!(related.schema, GRAPH_RELATED_SCHEMA);
    assert_eq!(related.root.entity.stable_key, "api://GET:/health");
    assert_eq!(
        related.nodes.iter().map(|node| (node.distance, node.entity.stable_key.as_str())).collect::<Vec<_>>(),
        vec![(0, "api://GET:/health"), (1, "api-schema://Health"), (1, "doc://docs/api/health.md")]
    );
    assert_eq!(related.edges.iter().map(|edge| edge.id.as_str()).collect::<Vec<_>>(), vec!["rel_docs", "rel_schema"]);
    assert!(related.truncated);
}

#[test]
fn pure_related_graph_uses_canonical_cooperative_traversal() {
    let (endpoint, handler, doc) = (endpoint(), handler(), doc());
    let snapshot = snapshot(
        Some("snap_test"),
        vec![handler.clone(), doc.clone(), endpoint.clone()],
        vec![
            relation("rel_docs", "documents", &doc, &endpoint),
            relation("rel_impl", "implemented_by", &endpoint, &handler),
        ],
    );

    let related = build_related_graph(&snapshot, "api://GET:/health", 1, 3, 10).unwrap();

    assert_eq!(related.schema, GRAPH_RELATED_SCHEMA);
    assert_eq!(related.root.entity.stable_key, "api://GET:/health");
    assert_eq!(
        related.nodes.iter().map(|node| (node.distance, node.entity.stable_key.as_str())).collect::<Vec<_>>(),
        vec![(0, "api://GET:/health"), (1, "doc://docs/api/health.md"), (1, "rust://src/lib.rs#health")]
    );
    assert!(!related.truncated);
}

#[test]
fn reports_missing_related_graph_root() {
    let error = build_related_graph(&snapshot(None, Vec::new(), Vec::new()), "missing://entity", 1, 10, 10)
        .err()
        .unwrap();

    assert!(error.to_string().contains("missing://entity"));
}

#[test]
fn finds_deterministic_shortest_graph_path() {
    let (endpoint, handler, doc, schema) = (endpoint(), handler(), doc(), schema());
    let snapshot = snapshot(
        Some("snap_test"),
        vec![schema.clone(), handler.clone(), endpoint.clone(), doc.clone()],
        vec![
            relation("rel_docs", "documents", &doc, &endpoint),
            relation("rel_impl", "implemented_by", &endpoint, &handler),
            relation("rel_schema", "schema_for_response", &endpoint, &schema),
        ],
    );

    let path = build_shortest_graph_path(&snapshot, "doc://docs/api/health.md", "rust://src/lib.rs#health", 3, 10)
        .unwrap();

    assert_eq!(path.schema, GRAPH_PATH_SCHEMA);
    assert!(path.found);
    assert_eq!(path.hops, Some(2));
    assert_eq!(
        path.nodes.iter().map(|node| node.stable_key.as_str()).collect::<Vec<_>>(),
        vec!["doc://docs/api/health.md", "api://GET:/health", "rust://src/lib.rs#health"]
    );
    assert_eq!(path.edges.iter().map(|edge| edge.id.as_str()).collect::<Vec<_>>(), vec!["rel_docs", "rel_impl"]);
    assert!(!path.truncated);
}

#[test]
fn reports_truncated_graph_path_search() {
    let (endpoint, handler, doc) = (endpoint(), handler(), doc());
    let snapshot = snapshot(
        None,
        vec![handler.clone(), endpoint.clone(), doc.clone()],
        vec![
            relation("rel_docs", "documents", &doc, &endpoint),
            relation("rel_impl", "implemented_by", &endpoint, &handler),
        ],
    );

    let path = build_shortest_graph_path(&snapshot, "doc://docs/api/health.md", "rust://src/lib.rs#health", 1, 10)
        .unwrap();

    assert!(!path.found);
    assert_eq!(path.hops, None);
    assert!(path.nodes.is_empty());
    assert!(path.edges.is_empty());
    assert!(path.truncated);
}

#[test]
fn rejects_zero_graph_query_limits() {
    let snapshot = export_fixture();
    assert!(build_related_graph(&snapshot, "api://GET:/health", 1, 0, 10).is_err());
    assert!(build_shortest_graph_path(&snapshot, "api://GET:/health", "doc://docs/api/health.md", 3, 0).is_err());
    assert!(build_graph_hubs(&snapshot, 0, None, 1).is_err());
    assert!(build_graph_cycles(&snapshot, 0, 1, 1).is_err());
    let missing = build_shortest_graph_path(&snapshot, "missing://a", "doc://docs/api/health.md", 3, 10).err().unwrap();
    assert!(missing.to_string().contains("missing://a"));
}

#[test]
fn ranks_graph_hubs_and_bounds_relation_ids() {
    let (endpoint, handler, doc, schema) = (endpoint(), handler(), doc(), schema());
    let snapshot = snapshot(
        Some("snap_test"),
        vec![handler.clone(), schema.clone(), doc.clone(), endpoint.clone()],
        vec![
            relation("rel_docs", "documents", &doc, &endpoint),
            relation("rel_impl", "implemented_by", &endpoint, &handler),
            relation("rel_schema", "schema_for_response", &endpoint, &schema),
        ],
    );

    let report = build_graph_hubs(&snapshot, 2, None, 1).unwrap();

    assert_eq!(report.schema, GRAPH_HUBS_SCHEMA);
    assert_eq!(report.hubs.len(), 2);
    assert_eq!(report.omitted, 2);
    assert_eq!(report.hubs[0].entity.stable_key, "api://GET:/health");
    assert_eq!(report.hubs[0].entity.degree, 3);
    assert_eq!(report.hubs[0].incoming_degree, 1);
    assert_eq!(report.hubs[0].outgoing_degree, 2);
    assert_eq!(report.hubs[0].incoming_relation_ids, vec!["rel_docs"]);
    assert_eq!(report.hubs[0].outgoing_relation_ids, vec!["rel_impl"]);
    assert_eq!(report.hubs[0].omitted_outgoing_relation_ids, 1);
}

#[test]
fn filters_graph_hubs_by_serialized_entity_kind() {
    let (endpoint, handler) = (endpoint(), handler());
    let snapshot = snapshot(
        None,
        vec![handler.clone(), endpoint.clone()],
        vec![relation("rel_impl", "implemented_by", &endpoint, &handler)],
    );

    let report = build_graph_hubs(&snapshot, 10, Some("function"), 10).unwrap();

    assert_eq!(report.kind.as_deref(), Some("function"));
    assert_eq!(report.hubs.len(), 1);
    assert_eq!(report.hubs[0].entity.stable_key, "rust://src/lib.rs#health");
}

fn cycle_fixture(entity_order: &[usize]) -> CanonicalSnapshot {
    let first = function("ent_first", "symbol://first", "first");
    let second = function("ent_second", "symbol://second", "second");
    let third = function("ent_third", "symbol://third", "third");
    let all = [first.clone(), second.clone(), third.clone()];
    snapshot(
        Some("snap_test"),
        entity_order.iter().map(|&i| all[i].clone()).collect(),
        vec![
            relation("rel_first_second", "calls", &first, &second),
            relation("rel_second_third", "calls", &second, &third),
            relation("rel_third_first", "calls", &third, &first),
        ],
    )
}

#[test]
fn finds_unique_directed_graph_cycles() {
    let report = build_graph_cycles(&cycle_fixture(&[2, 0, 1]), 10, 4, 10).unwrap();

    assert_eq!(report.schema, GRAPH_CYCLES_SCHEMA);
    assert_eq!(report.cycles.len(), 1);
    assert_eq!(report.cycles[0].length, 3);
    assert_eq!(
        report.cycles[0].nodes.iter().map(|node| node.stable_key.as_str()).collect::<Vec<_>>(),
        vec!["symbol://first", "symbol://second", "symbol://third"]
    );
    assert_eq!(
        report.cycles[0].edges.iter().map(|edge| edge.id.as_str()).collect::<Vec<_>>(),
        vec!["rel_first_second", "rel_second_third", "rel_third_first"]
    );
    assert!(!report.truncated);
}

#[test]
fn marks_cycle_search_truncated_by_depth_and_start_limit() {
    let report = build_graph_cycles(&cycle_fixture(&[0, 1, 2]), 10, 2, 1).unwrap();

    assert!(report.cycles.is_empty());
    assert_eq!(report.start_entities, 1);
    assert_eq!(report.omitted_start_entities, 2);
    assert!(report.truncated);
}

#[test]
fn rotates_cycle_ids_to_their_smallest_start() {
    let ids = vec!["c".to_string(), "a".to_string(), "b".to_string()];
    assert_eq!(minimum_rotation(&ids), "a\u{1f}b\u{1f}c");
    assert_eq!(minimum_rotation(&vec!["x".to_string()]), "x");
}

fn cooperative_fixture() -> CanonicalSnapshot {
    let names = ["a", "b", "c"];
    let entities = names
        .iter()
        .map(|name| entity(&format!("ent_{name}"), &format!("entity://{name}"), "module", "Module", name))
        .collect::<Vec<_>>();
    let relations = [("ab", 0, 1), ("bc", 1, 2), ("ca", 2, 0), ("ac", 0, 2)]
        .iter()
        .map(|(id, from, to)| relation(&format!("rel_{id}"), "calls", &entities[*from], &entities[*to]))
        .collect::<Vec<_>>();
    snapshot(Some("snap_graph_cooperative"), entities, relations)
}

#[test]
fn cooperative_path_preserves_successful_result() {
    let snapshot = cooperative_fixture();
    let report = build_shortest_graph_path_with_operation_context(&snapshot, "entity://a", "entity://c", 4, 16, || false)
        .expect("a live operation is never cancelled")
        .unwrap();
    assert!(report.found);
    assert_eq!(report.hops, Some(1));
}

#[test]
fn cycle_search_observes_cooperative_cancellation() {
    let snapshot = cooperative_fixture();
    let asked = std::cell::Cell::new(0usize);
    let cancelled_after_start = || {
        asked.set(asked.get() + 1);
        asked.get() > 1
    };
    assert!(build_graph_cycles_with_operation_context(&snapshot, 10, 8, 10, cancelled_after_start).is_none());
    assert!(asked.get() >= 2);
    assert!(build_graph_cycles_with_operation_context(&snapshot, 10, 8, 10, || true).is_none());
    let live = build_graph_cycles_with_operation_context(&snapshot, 10, 8, 10, || false).unwrap().unwrap();
    let plain = build_graph_cycles(&snapshot, 10, 8, 10).unwrap();
    assert_eq!(live.cycles.len(), plain.cycles.len());
    assert_eq!(live.cycles.len(), 2);
}

#[test]
fn cancelled_related_graph_stops_before_work() {
    let snapshot = cooperative_fixture();
    assert!(build_related_graph_with_operation_context(&snapshot, "entity://a", 2, 10, 10, || true).is_none());
    let live = build_related_graph_with_operation_context(&snapshot, "entity://a", 2, 10, 10, || false).unwrap().unwrap();
    assert_eq!(live.nodes.len(), 3);
    let missing = build_related_graph_with_operation_context(&snapshot, "entity://z", 2, 10, 10, || false).unwrap();
    assert!(missing.is_err());
}

#[test]
fn untruncated_cycle_search_reports_every_cycle() {
    let report = build_graph_cycles(&cooperative_fixture(), 10, 8, 10).unwrap();
    assert!(!report.truncated);
    let keys = report
        .cycles
        .iter()
        .map(|cycle| minimum_rotation(&cycle.edges.iter().map(|edge| edge.id.clone()).collect()))
        .collect::<Vec<_>>();
    assert_eq!(keys, vec!["rel_ac\u{1f}rel_ca".to_string(), "rel_ab\u{1f}rel_bc\u{1f}rel_ca".to_string()]);
}

#[test]
fn escaping_keeps_distinct_texts_distinct() {
    assert_eq!(xml_escape("<"), "&lt;");
    assert_eq!(xml_escape("&lt;"), "&amp;lt;");
    assert_ne!(xml_escape("<"), xml_escape("&lt;"));
    assert_ne!(xml_escape("a&b"), xml_escape("a&amp;b"));
}

#[test]
fn shortest_path_takes_the_least_relation_id_between_two_entities() {
    let report = build_shortest_graph_path(&cooperative_fixture(), "entity://a", "entity://c", 4, 16).unwrap();
    assert!(report.found);
    assert!(!report.truncated);
    assert_eq!(report.edges.iter().map(|edge| edge.id.as_str()).collect::<Vec<_>>(), vec!["rel_ac"]);
}

#[test]
fn escapes_ampersands_in_text() {
    assert_eq!(xml_escape("health & status"), "health &amp; status");
    assert_eq!(xml_escape("'a' \"b\" <c>"), "&apos;a&apos; &quot;b&quot; &lt;c&gt;");
}
