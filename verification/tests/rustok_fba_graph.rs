use athanor_app::rustok::{
    RUSTOK_FBA_DEPENDENCIES_GRAPH_SCHEMA, RUSTOK_FBA_MODULE_GRAPH_SCHEMA, RUSTOK_FBA_PORT_GRAPH_SCHEMA,
    RUSTOK_FBA_VIOLATIONS_GRAPH_SCHEMA, RUSTOK_PAGE_BUILDER_CONSUMER_GRAPH_SCHEMA,
    RUSTOK_PAGE_BUILDER_PROVIDER_GRAPH_SCHEMA, RUSTOK_PAGE_BUILDER_VIOLATIONS_GRAPH_SCHEMA,
};
use athanor_app::rustok_fba_graph::{
    build_rustok_fba_dependencies_graph, build_rustok_fba_module_graph, build_rustok_fba_port_graph,
    build_rustok_fba_violations_graph,
};
use athanor_app::rustok_graph::RustokGraphError;
use athanor_app::rustok_page_builder_graph::{
    build_rustok_page_builder_consumer_graph, build_rustok_page_builder_provider_graph,
    build_rustok_page_builder_violations_graph,
};
use athanor_app::snapshot::{CanonicalSnapshot, Diagnostic, Entity, Evidence, Relation};

fn entity(id: &str, stable_key: &str, kind: &str, name: &str) -> Entity {
    Entity {
        id: id.to_string(),
        stable_key: stable_key.to_string(),
        kind: kind.to_string(),
        kind_label: kind.to_string(),
        name: name.to_string(),
        source: None,
        ownership: Vec::new(),
        role: None,
        contract_version: None,
    }
}

fn relation(id: &str, kind: &str, from: &Entity, to: &Entity) -> Relation {
    Relation {
        id: id.to_string(),
        kind: kind.to_string(),
        kind_label: kind.to_string(),
        from: from.id.clone(),
        to: to.id.clone(),
        status: "verified".to_string(),
        confidence: "1.0".to_string(),
        evidence: Vec::new(),
        schema: None,
    }
}

fn fba_diagnostic(id: &str, kind: &str, module: &str, port: Option<&str>, path: Option<&str>) -> Diagnostic {
    Diagnostic {
        id: id.to_string(),
        kind: kind.to_string(),
        severity: "high".to_string(),
        status: "open".to_string(),
        title: kind.to_string(),
        entities: Vec::new(),
        evidence: vec![Evidence { source_file: path.map(str::to_string), line_start: Some(1) }],
        module: Some(module.to_string()),
        surface: None,
        role: None,
        path: path.map(str::to_string),
        port: port.map(str::to_string),
    }
}

fn empty_snapshot() -> CanonicalSnapshot {
    CanonicalSnapshot { snapshot: None, entities: Vec::new(), facts: Vec::new(), relations: Vec::new(), diagnostics: Vec::new() }
}

fn inventory_fixture() -> CanonicalSnapshot {
    let module = entity("ent_fba_module", "fba_module://inventory", "rustok_fba_module", "inventory");
    let contract = entity(
        "ent_fba_contract",
        "fba_contract://inventory/inventory.reservation.v1",
        "rustok_fba_contract",
        "inventory/inventory.reservation.v1",
    );
    let port = entity(
        "ent_fba_port",
        "fba_port://inventory/InventoryReservationPort",
        "rustok_fba_port",
        "inventory/InventoryReservationPort",
    );
    let operation = entity(
        "ent_fba_operation",
        "fba_operation://inventory/InventoryReservationPort/reserve_inventory",
        "rustok_fba_operation",
        "inventory/InventoryReservationPort/reserve_inventory",
    );
    let mut snapshot = empty_snapshot();
    snapshot.snapshot = Some("snap_test".to_string());
    snapshot.relations = vec![
        relation("rel_module_contract", "contains", &module, &contract),
        relation("rel_contract_port", "contains", &contract, &port),
        relation("rel_port_operation", "contains", &port, &operation),
    ];
    snapshot.entities = vec![module, contract, port, operation];
    snapshot.diagnostics = vec![fba_diagnostic(
        "diag_fba",
        "rustok_fba_policy_missing",
        "inventory",
        Some("InventoryReservationPort"),
        Some("crates/rustok-inventory/contracts/inventory-fba-registry.json"),
    )];
    snapshot
}

#[test]
fn fba_module_graph_includes_contract_port_operation_and_diagnostics() {
    let snapshot = inventory_fixture();
    let graph = build_rustok_fba_module_graph(&snapshot, "inventory", 80, 160).unwrap();

    assert_eq!(graph.schema, RUSTOK_FBA_MODULE_GRAPH_SCHEMA);
    assert_eq!(graph.root.as_deref(), Some("fba_module://inventory"));
    assert_eq!(graph.nodes.len(), 4);
    assert_eq!(graph.edges.len(), 3);
    assert_eq!(graph.diagnostics.len(), 1);
}

#[test]
fn fba_violations_graph_excludes_clean_edges() {
    let module = entity("ent_fba_module", "fba_module://inventory", "rustok_fba_module", "inventory");
    let port = entity(
        "ent_fba_port",
        "fba_port://inventory/InventoryReservationPort",
        "rustok_fba_port",
        "inventory/InventoryReservationPort",
    );
    let file = entity(
        "ent_file",
        "file://crates/rustok-inventory/contracts/inventory-fba-registry.json",
        "file",
        "crates/rustok-inventory/contracts/inventory-fba-registry.json",
    );
    let mut snapshot = empty_snapshot();
    snapshot.entities = vec![module, port, file];
    snapshot.diagnostics = vec![fba_diagnostic(
        "diag_fba",
        "rustok_fba_policy_missing",
        "inventory",
        Some("InventoryReservationPort"),
        Some("crates/rustok-inventory/contracts/inventory-fba-registry.json"),
    )];

    let graph = build_rustok_fba_violations_graph(&snapshot, Some("inventory"), 80, 160);

    assert_eq!(graph.schema, RUSTOK_FBA_VIOLATIONS_GRAPH_SCHEMA);
    assert_eq!(graph.edges.iter().map(|edge| edge.kind.as_str()).collect::<Vec<_>>(), vec!["violates", "evidenced_by"]);
}

#[test]
fn fba_module_graph_orders_nodes_and_edges_by_key() {
    let snapshot = inventory_fixture();
    let graph = build_rustok_fba_module_graph(&snapshot, "inventory", 80, 160).unwrap();
    assert_eq!(
        graph.nodes.iter().map(|node| node.id.as_str()).collect::<Vec<_>>(),
        vec![
            "fba_contract://inventory/inventory.reservation.v1",
            "fba_module://inventory",
            "fba_operation://inventory/InventoryReservationPort/reserve_inventory",
            "fba_port://inventory/InventoryReservationPort",
        ]
    );
    assert_eq!(graph.edges[0].from, "fba_contract://inventory/inventory.reservation.v1");
    assert_eq!(graph.edges[0].to, "fba_port://inventory/InventoryReservationPort");
    assert_eq!(graph.snapshot, "snap_test");
    assert_eq!(graph.omitted.reason, "rustok_fba_graph_limits");
}

#[test]
fn fba_module_graph_truncates_and_counts_omitted() {
    let snapshot = inventory_fixture();
    let graph = build_rustok_fba_module_graph(&snapshot, "inventory", 2, 1).unwrap();
    assert_eq!(graph.nodes.len(), 2);
    assert_eq!(graph.omitted.nodes, 2);
    assert_eq!(graph.edges.len(), 1);
    assert_eq!(graph.omitted.edges, 2);
}

#[test]
fn fba_graphs_reject_zero_limits_and_missing_roots() {
    let snapshot = inventory_fixture();
    let limits = build_rustok_fba_module_graph(&snapshot, "inventory", 0, 10).err().unwrap();
    assert!(matches!(limits, RustokGraphError::FbaLimits));
    assert_eq!(limits.to_string(), "FBA graph limits must be greater than zero");
    let missing = build_rustok_fba_module_graph(&snapshot, "billing", 10, 10).err().unwrap();
    assert_eq!(missing.to_string(), "FBA module not found for `fba_module://billing`");
    let port = build_rustok_fba_port_graph(&snapshot, "inventory", "Missing", 10, 10).err().unwrap();
    assert_eq!(port.to_string(), "FBA port not found for `fba_port://inventory/Missing`");
    assert!(matches!(build_rustok_fba_dependencies_graph(&snapshot, "inventory", 10, 0), Err(RustokGraphError::FbaLimits)));
}

#[test]
fn fba_port_graph_holds_the_port_and_its_neighbors() {
    let snapshot = inventory_fixture();
    let graph = build_rustok_fba_port_graph(&snapshot, "inventory", "InventoryReservationPort", 80, 160).unwrap();
    assert_eq!(graph.schema, RUSTOK_FBA_PORT_GRAPH_SCHEMA);
    assert_eq!(graph.root.as_deref(), Some("fba_port://inventory/InventoryReservationPort"));
    assert_eq!(
        graph.nodes.iter().map(|node| node.id.as_str()).collect::<Vec<_>>(),
        vec![
            "fba_contract://inventory/inventory.reservation.v1",
            "fba_operation://inventory/InventoryReservationPort/reserve_inventory",
            "fba_port://inventory/InventoryReservationPort",
        ]
    );
    assert_eq!(graph.edges.len(), 2);
    assert_eq!(graph.diagnostics.len(), 1);
}

#[test]
fn fba_dependencies_graph_follows_dependency_keys() {
    let module = entity("ent_orders", "fba_module://orders", "rustok_fba_module", "orders");
    let dependency = entity(
        "ent_dep",
        "fba_dependency://orders/inventory/InventoryReservationPort",
        "rustok_fba_dependency",
        "orders -> inventory",
    );
    let port = entity(
        "ent_port",
        "fba_port://inventory/InventoryReservationPort",
        "rustok_fba_port",
        "inventory/InventoryReservationPort",
    );
    let other = entity("ent_other", "fba_module://billing", "rustok_fba_module", "billing");
    let mut snapshot = empty_snapshot();
    snapshot.relations = vec![
        relation("rel_uses", "depends_on", &dependency, &port),
        relation("rel_unrelated", "contains", &other, &port),
    ];
    snapshot.entities = vec![module, dependency, port, other];
    let graph = build_rustok_fba_dependencies_graph(&snapshot, "orders", 80, 160).unwrap();
    assert_eq!(graph.schema, RUSTOK_FBA_DEPENDENCIES_GRAPH_SCHEMA);
    assert_eq!(graph.root.as_deref(), Some("fba_module://orders"));
    assert_eq!(
        graph.nodes.iter().map(|node| node.id.as_str()).collect::<Vec<_>>(),
        vec![
            "fba_dependency://orders/inventory/InventoryReservationPort",
            "fba_module://orders",
            "fba_port://inventory/InventoryReservationPort",
        ]
    );
    assert_eq!(graph.edges.len(), 1);
    assert_eq!(graph.edges[0].kind, "depends_on");
    assert_eq!(graph.omitted.nodes, 0);
}

#[test]
fn fba_violations_graph_without_port_links_module_to_file() {
    let module = entity("ent_fba_module", "fba_module://inventory", "rustok_fba_module", "inventory");
    let file = entity("ent_file", "file://registry.json", "file", "registry.json");
    let mut snapshot = empty_snapshot();
    snapshot.entities = vec![module, file];
    snapshot.diagnostics = vec![fba_diagnostic("diag_a", "rustok_fba_registry_missing", "inventory", None, Some("registry.json"))];
    let graph = build_rustok_fba_violations_graph(&snapshot, None, 80, 160);
    assert_eq!(graph.root, None);
    assert_eq!(graph.nodes.len(), 2);
    assert_eq!(graph.edges.len(), 1);
    assert_eq!(graph.edges[0].from, "fba_module://inventory");
    assert_eq!(graph.edges[0].to, "file://registry.json");
    assert_eq!(graph.edges[0].kind, "evidenced_by");
    assert_eq!(graph.edges[0].evidence, vec!["registry.json:1".to_string()]);
}

fn page_builder_fixture() -> CanonicalSnapshot {
    let provider = entity(
        "ent_provider",
        "page_builder_provider://page_builder",
        "rustok_page_builder_provider",
        "page_builder",
    );
    let consumer = entity("ent_consumer", "page_builder_consumer://blog", "rustok_page_builder_consumer", "blog");
    let block = entity("ent_block", "page_builder_block://blog/hero", "rustok_page_builder_block", "blog/hero");
    let widget = entity("ent_widget", "page_builder_widget://shop/cart", "rustok_page_builder_widget", "shop/cart");
    let mut schema_relation = relation("rel_block_widget", "references", &block, &widget);
    schema_relation.schema = Some("rustok.page_builder.relation.v1".to_string());
    let plain_relation = relation("rel_widget_block", "references", &widget, &block);
    let mut snapshot = empty_snapshot();
    snapshot.relations = vec![
        relation("rel_consumes", "consumes", &consumer, &provider),
        relation("rel_block", "contains", &consumer, &block),
        schema_relation,
        plain_relation,
    ];
    snapshot.entities = vec![provider, consumer, block, widget];
    let diagnostic = fba_diagnostic("diag_pb", "rustok_page_builder_contract_missing", "blog", None, Some("blog/page.json"));
    let orphan = fba_diagnostic("diag_pb_orphan", "rustok_page_builder_contract_missing", "docs", None, Some("docs/page.json"));
    snapshot.diagnostics = vec![orphan, diagnostic];
    snapshot
}

#[test]
fn page_builder_provider_graph_follows_schema_relations() {
    let snapshot = page_builder_fixture();
    let graph = build_rustok_page_builder_provider_graph(&snapshot, 80, 160).unwrap();
    assert_eq!(graph.schema, RUSTOK_PAGE_BUILDER_PROVIDER_GRAPH_SCHEMA);
    assert_eq!(graph.root.as_deref(), Some("page_builder_provider://page_builder"));
    assert_eq!(
        graph.nodes.iter().map(|node| node.id.as_str()).collect::<Vec<_>>(),
        vec![
            "page_builder_block://blog/hero",
            "page_builder_consumer://blog",
            "page_builder_provider://page_builder",
            "page_builder_widget://shop/cart",
        ]
    );
    assert_eq!(graph.edges.iter().map(|edge| edge.kind.as_str()).collect::<Vec<_>>(), vec!["references", "consumes"]);
    assert_eq!(graph.diagnostics.len(), 2);
    assert_eq!(graph.omitted.reason, "rustok_page_builder_graph_limits");
}

#[test]
fn page_builder_consumer_graph_selects_the_module() {
    let snapshot = page_builder_fixture();
    let graph = build_rustok_page_builder_consumer_graph(&snapshot, "blog", 80, 160).unwrap();
    assert_eq!(graph.schema, RUSTOK_PAGE_BUILDER_CONSUMER_GRAPH_SCHEMA);
    assert_eq!(graph.root.as_deref(), Some("page_builder_consumer://blog"));
    assert_eq!(graph.nodes.len(), 4);
    assert_eq!(graph.edges.len(), 4);
    assert_eq!(graph.diagnostics.len(), 1);
    assert_eq!(graph.diagnostics[0].id, "diag_pb");
}

#[test]
fn page_builder_graphs_report_missing_roots() {
    let snapshot = empty_snapshot();
    let provider = build_rustok_page_builder_provider_graph(&snapshot, 10, 10).err().unwrap();
    assert_eq!(provider.to_string(), "Page Builder provider not found for `page_builder_provider://page_builder`");
    let consumer = build_rustok_page_builder_consumer_graph(&snapshot, "blog", 10, 10).err().unwrap();
    assert_eq!(consumer.to_string(), "Page Builder consumer not found for `page_builder_consumer://blog`");
}

#[test]
fn page_builder_violations_graph_falls_back_to_the_provider() {
    let snapshot = page_builder_fixture();
    let graph = build_rustok_page_builder_violations_graph(&snapshot, None, 80, 160);
    assert_eq!(graph.schema, RUSTOK_PAGE_BUILDER_VIOLATIONS_GRAPH_SCHEMA);
    assert_eq!(graph.root, None);
    assert_eq!(
        graph.edges.iter().map(|edge| (edge.from.as_str(), edge.to.as_str())).collect::<Vec<_>>(),
        Vec::<(&str, &str)>::new()
    );
    assert_eq!(
        graph.nodes.iter().map(|node| node.id.as_str()).collect::<Vec<_>>(),
        vec!["page_builder_consumer://blog", "page_builder_provider://page_builder"]
    );
    assert_eq!(graph.omitted.nodes, 0);
    assert_eq!(graph.diagnostics.len(), 2);
    let scoped = build_rustok_page_builder_violations_graph(&snapshot, Some("blog"), 80, 160);
    assert_eq!(scoped.root.as_deref(), Some("page_builder_consumer://blog"));
    assert_eq!(scoped.diagnostics.len(), 1);
}
