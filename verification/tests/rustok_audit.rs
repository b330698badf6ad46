use athanor_app::rustok::{RUSTOK_FBA_AUDIT_SCHEMA, RUSTOK_FFA_AUDIT_SCHEMA, RUSTOK_PAGE_BUILDER_AUDIT_SCHEMA};
use athanor_app::rustok_audit::{build_rustok_fba_audit, build_rustok_ffa_audit, build_rustok_page_builder_audit};
use athanor_app::snapshot::{CanonicalSnapshot, Diagnostic, Entity, Evidence, Fact, Relation, SourceLocation};

fn entity(id: &str, stable_key: &str, kind: &str, name: &str) -> Entity {
    Entity {
        id: id.to_string(),
        stable_key: stable_key.to_string(),
        kind: kind.to_string(),
        kind_label: format!("Other({kind:?})"),
        name: name.to_string(),
        source: Some(SourceLocation { path: "src/lib.rs".to_string(), line_start: Some(1) }),
        ownership: Vec::new(),
        role: None,
        contract_version: None,
    }
}

fn relation(id: &str, kind: &str, from: &Entity, to: &Entity) -> Relation {
    Relation {
        id: id.to_string(),
        kind: kind.to_string(),
        kind_label: kind.to_string(),
        from: from.id.clone(),
        to: to.id.clone(),
        status: "verified".to_string(),
        confidence: "1.0".to_string(),
        schema: None,
        evidence: Vec::new(),
    }
}

fn diagnostic(id: &str, kind: &str, module: Option<&str>, surface: Option<&str>) -> Diagnostic {
    Diagnostic {
        id: id.to_string(),
        kind: kind.to_string(),
        severity: "high".to_string(),
        status: "open".to_string(),
        title: kind.to_string(),
        entities: Vec::new(),
        evidence: vec![Evidence { source_file: Some("src/lib.rs".to_string()), line_start: Some(1) }],
        module: module.map(str::to_string),
        surface: surface.map(str::to_string),
        role: None,
        path: None,
        port: None,
    }
}

fn snapshot(entities: Vec<Entity>, relations: Vec<Relation>, diagnostics: Vec<Diagnostic>) -> CanonicalSnapshot {
    CanonicalSnapshot { snapshot: Some("snap_test".to_string()), entities, facts: Vec::new(), relations, diagnostics }
}

#[test]
fn ffa_audit_reports_surface_layers_files_and_diagnostics() {
    let surface = entity("ent_surface", "ffa_surface://blog/admin", "rustok_ffa_surface", "blog/admin");
    let core = entity("ent_core", "ffa_layer://blog/admin/core", "rustok_ffa_layer", "blog/admin/core");
    let transport = entity("ent_transport", "ffa_layer://blog/admin/transport", "rustok_ffa_layer", "blog/admin/transport");
    let ui = entity("ent_ui", "ffa_layer://blog/admin/ui_leptos", "rustok_ffa_layer", "blog/admin/ui_leptos");
    let file = entity("ent_file", "file://crates/rustok-blog/admin/src/core.rs", "file", "core.rs");
    let host = entity("ent_host", "ffa_surface://shop/host", "rustok_ffa_surface", "shop/host");
    let wiring = entity("ent_wiring", "ffa_layer://shop/host/host_wiring", "rustok_ffa_layer", "shop/host/host_wiring");
    let snapshot = snapshot(
        vec![surface.clone(), core.clone(), transport.clone(), ui.clone(), file.clone(), host.clone(), wiring.clone()],
        vec![
            relation("rel_core", "contains", &surface, &core),
            relation("rel_transport", "contains", &surface, &transport),
            relation("rel_ui", "contains", &surface, &ui),
            relation("rel_core_file", "implemented_by", &core, &file),
            relation("rel_host", "contains", &host, &wiring),
        ],
        vec![
            diagnostic("diag_b", "rustok_ffa_core_depends_on_leptos", Some("blog"), Some("admin")),
            diagnostic("diag_a", "rustok_ffa_missing_transport", Some("blog"), Some("admin")),
            diagnostic("diag_other", "missing_documentation", Some("blog"), Some("admin")),
        ],
    );

    let audit = build_rustok_ffa_audit(&snapshot);

    assert_eq!(audit.schema, RUSTOK_FFA_AUDIT_SCHEMA);
    assert_eq!(audit.snapshot, "snap_test");
    assert_eq!(audit.surfaces.len(), 2);
    let blog = &audit.surfaces[0];
    assert_eq!(blog.id, "ffa_surface://blog/admin");
    assert_eq!(blog.module, "blog");
    assert_eq!(blog.surface, "admin");
    assert_eq!(blog.layers, vec!["core", "transport", "ui_leptos"]);
    assert_eq!(blog.files, vec!["file://crates/rustok-blog/admin/src/core.rs"]);
    assert_eq!(blog.shape, "core_transport_ui");
    assert_eq!(blog.diagnostics, vec!["rustok_ffa_missing_transport", "rustok_ffa_core_depends_on_leptos"]);
    assert_eq!(audit.surfaces[1].shape, "host_wiring");
    assert_eq!(audit.summary.surfaces_total, 1);
    assert_eq!(audit.summary.core_transport_ui, 1);
    assert_eq!(audit.summary.incomplete, 0);
    assert_eq!(audit.summary.diagnostics_open, 2);
}

#[test]
fn ffa_audit_counts_incomplete_surfaces_found_only_through_layers() {
    let layer = entity("ent_layer", "ffa_layer://docs/site/core", "rustok_ffa_layer", "docs/site/core");
    let file = entity("ent_file", "file://crates/docs/site/src/lib.rs", "file", "lib.rs");
    let snapshot = snapshot(
        vec![layer.clone(), file.clone()],
        vec![relation("rel_layer_file", "implemented_by", &layer, &file)],
        vec![diagnostic("diag_x", "rustok_ffa_missing_ui", Some("other"), Some("surface"))],
    );

    let audit = build_rustok_ffa_audit(&snapshot);

    assert_eq!(audit.surfaces.len(), 1);
    assert_eq!(audit.surfaces[0].id, "ffa_surface://docs/site");
    assert_eq!(audit.surfaces[0].layers, vec!["core"]);
    assert_eq!(audit.surfaces[0].shape, "core_only");
    assert_eq!(audit.summary.surfaces_total, 1);
    assert_eq!(audit.summary.incomplete, 1);
    assert_eq!(audit.summary.diagnostics_open, 0);
}

#[test]
fn page_builder_audit_sorts_entities_and_groups_consumer_diagnostics() {
    let snapshot = snapshot(
        vec![
            entity("p2", "page_builder_provider://z", "rustok_page_builder_provider", "z"),
            entity("p1", "page_builder_provider://a", "rustok_page_builder_provider", "a"),
            entity("c1", "page_builder_consumer://shop", "rustok_page_builder_consumer", "shop"),
            entity("c2", "consumer-without-prefix", "rustok_page_builder_consumer", "blog"),
            entity("k1", "page_builder_contract://v1", "rustok_page_builder_contract", "v1"),
            entity("x1", "page_builder_capability://hero", "rustok_page_builder_capability", "hero"),
            entity("f1", "page_builder_fallback_profile://basic", "rustok_page_builder_fallback_profile", "basic"),
            entity("w1", "page_builder_wave_evidence://w1", "rustok_page_builder_wave_evidence", "w1"),
            entity("n1", "page_builder_other://n1", "rustok_page_builder_other", "n1"),
        ],
        Vec::new(),
        vec![
            diagnostic("diag_2", "rustok_page_builder_missing_fallback", Some("shop"), None),
            diagnostic("diag_1", "rustok_page_builder_unknown_capability", Some("shop"), None),
            diagnostic("diag_3", "rustok_page_builder_unowned", None, None),
            diagnostic("diag_4", "rustok_ffa_missing_ui", Some("shop"), None),
        ],
    );

    let audit = build_rustok_page_builder_audit(&snapshot);

    assert_eq!(audit.schema, RUSTOK_PAGE_BUILDER_AUDIT_SCHEMA);
    assert_eq!(audit.providers, vec!["page_builder_provider://a", "page_builder_provider://z"]);
    assert_eq!(audit.consumers.len(), 2);
    assert_eq!(audit.consumers[0].module, "blog");
    assert_eq!(audit.consumers[0].id, "consumer-without-prefix");
    assert!(audit.consumers[0].diagnostics.is_empty());
    assert_eq!(audit.consumers[1].module, "shop");
    assert_eq!(
        audit.consumers[1].diagnostics,
        vec!["rustok_page_builder_unknown_capability", "rustok_page_builder_missing_fallback"]
    );
    assert_eq!(audit.contracts, vec!["page_builder_contract://v1"]);
    assert_eq!(audit.capabilities, vec!["page_builder_capability://hero"]);
    assert_eq!(audit.fallback_profiles, vec!["page_builder_fallback_profile://basic"]);
    assert_eq!(audit.wave_evidence, vec!["page_builder_wave_evidence://w1"]);
    assert_eq!(audit.diagnostics, vec!["diag_1", "diag_2", "diag_3"]);
    assert_eq!(audit.summary.providers_total, 2);
    assert_eq!(audit.summary.consumers_total, 2);
    assert_eq!(audit.summary.diagnostics_open, 3);
}

#[test]
fn fba_audit_merges_entities_diagnostics_and_registry_facts() {
    let mut module = entity("m1", "fba_module://inventory", "rustok_fba_module", "inventory");
    module.role = Some("provider".to_string());
    let mut contract = entity("c1", "fba_contract://inventory/inventory.reservation.v1", "rustok_fba_contract", "contract");
    contract.contract_version = Some("1.0.0".to_string());
    let port = entity("p1", "fba_port://inventory/InventoryReservationPort", "rustok_fba_port", "port");
    let operation = entity("o1", "fba_operation://inventory/InventoryReservationPort/reserve_inventory", "rustok_fba_operation", "op");
    let operation_again = entity("o2", "fba_operation://inventory/InventoryReservationPort/reserve_inventory", "rustok_fba_operation", "op");
    let dependency = entity("d1", "fba_dependency://orders/inventory/reservation", "rustok_fba_dependency", "dep");
    let mut snapshot = snapshot(
        vec![module, contract, port, operation, operation_again, dependency],
        Vec::new(),
        vec![
            diagnostic("diag_b", "rustok_fba_policy_missing", Some("inventory"), None),
            diagnostic("diag_a", "rustok_fba_evidence_missing", Some("billing"), None),
            diagnostic("diag_c", "rustok_fba_unscoped", None, None),
            diagnostic("diag_d", "rustok_ffa_missing_ui", Some("inventory"), None),
        ],
    );
    snapshot.facts = vec![Fact {
        id: "fact_1".to_string(),
        kind: "rustok_fba_registry".to_string(),
        subject: "m1".to_string(),
        object: None,
        module: Some("orders".to_string()),
        role: Some("consumer".to_string()),
        status: Some("in_progress".to_string()),
        contract_version: None,
    }];

    let audit = build_rustok_fba_audit(&snapshot);

    assert_eq!(audit.schema, RUSTOK_FBA_AUDIT_SCHEMA);
    assert_eq!(audit.modules.iter().map(|m| m.module.as_str()).collect::<Vec<_>>(), vec!["billing", "inventory", "orders"]);
    let inventory = &audit.modules[1];
    assert_eq!(inventory.id, "fba_module://inventory");
    assert_eq!(inventory.role.as_deref(), Some("provider"));
    assert_eq!(inventory.contract_version.as_deref(), Some("1.0.0"));
    assert_eq!(inventory.status, None);
    assert_eq!(inventory.ports, vec!["InventoryReservationPort"]);
    assert_eq!(inventory.operations, vec!["InventoryReservationPort.reserve_inventory"]);
    assert_eq!(inventory.diagnostics, vec!["rustok_fba_policy_missing"]);
    let orders = &audit.modules[2];
    assert_eq!(orders.role.as_deref(), Some("consumer"));
    assert_eq!(orders.status.as_deref(), Some("in_progress"));
    assert_eq!(orders.dependencies, vec!["inventory:reservation"]);
    assert_eq!(audit.modules[0].diagnostics, vec!["rustok_fba_evidence_missing"]);
    assert_eq!(audit.summary.modules_total, 3);
    assert_eq!(audit.summary.provider_modules, 1);
    assert_eq!(audit.summary.consumer_modules, 1);
    assert_eq!(audit.summary.ports_total, 1);
    assert_eq!(audit.summary.operations_total, 1);
    assert_eq!(audit.summary.diagnostics_open, 2);
}
