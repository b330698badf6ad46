use athanor_app::impact::impact_snapshot;
use athanor_app::snapshot::{CanonicalSnapshot, Diagnostic, Entity, Evidence, Relation};

fn entity(id: &str, stable_key: &str, kind: &str, kind_label: &str) -> Entity {
    Entity {
        id: id.to_string(),
        stable_key: stable_key.to_string(),
        kind: kind.to_string(),
        kind_label: kind_label.to_string(),
        name: stable_key.to_string(),
        source: None,
        ownership: Vec::new(),
        role: None,
        contract_version: None,
    }
}

fn relation(id: &str, kind: &str, from: &Entity, to: &Entity) -> Relation {
    Relation {
        id: id.to_string(),
        kind: kind.to_string(),
        kind_label: kind.to_string(),
        from: from.id.clone(),
        to: to.id.clone(),
        status: "verified".to_string(),
        confidence: "1.0".to_string(),
        schema: None,
        evidence: vec![Evidence { source_file: None, line_start: None }],
    }
}

#[test]
fn traverses_impact_correctly() {
    let callee = entity("callee_id", "symbol://rust:callee", "function", "Function");
    let caller = entity("caller_id", "symbol://rust:caller", "function", "Function");
    let endpoint = entity("endpoint_id", "api://POST:/login", "api_endpoint", "ApiEndpoint");
    let doc = entity("doc_id", "doc://docs/login.md", "documentation_page", "DocumentationPage");
    let test = entity("test_id", "symbol://rust:test_login", "test_case", "TestCase");
    let snapshot = CanonicalSnapshot {
        snapshot: Some("snap_test".to_string()),
        entities: vec![callee.clone(), caller.clone(), endpoint.clone(), doc.clone(), test.clone()],
        facts: Vec::new(),
        relations: vec![
            relation("rel_call", "calls", &caller, &callee),
            relation("rel_impl", "implemented_by", &endpoint, &caller),
            relation("rel_doc", "documents", &doc, &endpoint),
            relation("rel_test", "tested_by", &caller, &test),
        ],
        diagnostics: vec![Diagnostic {
            id: "diag_1".to_string(),
            kind: "uncovered_symbol".to_string(),
            severity: "low".to_string(),
            status: "open".to_string(),
            title: "Uncovered symbol".to_string(),
            entities: vec![callee.id.clone()],
            evidence: Vec::new(),
            module: None,
            surface: None,
            role: None,
            path: None,
            port: None,
        }],
    };

    let analysis = impact_snapshot(&snapshot, vec![callee.clone()], 10);

    assert_eq!(analysis.starting_entities.len(), 1);
    assert_eq!(analysis.starting_entities[0].id, callee.id);
    let impacted_keys = analysis.impacted_entities.iter().map(|impact| impact.entity.stable_key.clone()).collect::<Vec<_>>();
    assert!(impacted_keys.contains(&caller.stable_key));
    assert!(impacted_keys.contains(&endpoint.stable_key));
    assert!(impacted_keys.contains(&doc.stable_key));
    assert!(impacted_keys.contains(&test.stable_key));
    assert_eq!(analysis.impacted_diagnostics.len(), 1);
    assert_eq!(analysis.impacted_diagnostics[0].id, "diag_1");

    let doc_impact = analysis
        .impacted_entities
        .iter()
        .find(|impact| impact.entity.id == doc.id)
        .expect("documentation page should be impacted through endpoint");
    assert_eq!(doc_impact.path_steps.len(), 3);
    assert_eq!(doc_impact.path_steps[0].relation_id, "rel_call");
    assert_eq!(doc_impact.path_steps[0].relation_kind, "calls");
    assert_eq!(doc_impact.path_steps[0].from.stable_key, callee.stable_key);
    assert_eq!(doc_impact.path_steps[0].to.stable_key, caller.stable_key);
    assert_eq!(doc_impact.path_steps[2].relation_id, "rel_doc");
    assert_eq!(doc_impact.path_steps[2].from.stable_key, endpoint.stable_key);
    assert_eq!(doc_impact.path_steps[2].to.stable_key, doc.stable_key);
}

#[test]
fn impact_reaches_each_entity_at_its_least_depth() {
    let a = entity("a", "symbol://rust:a", "function", "Function");
    let b = entity("b", "symbol://rust:b", "function", "Function");
    let c = entity("c", "symbol://rust:c", "function", "Function");
    let d = entity("d", "symbol://rust:d", "function", "Function");
    let snapshot = CanonicalSnapshot {
        snapshot: Some("snap_depth".to_string()),
        entities: vec![a.clone(), b.clone(), c.clone(), d.clone()],
        facts: Vec::new(),
        relations: vec![
            relation("rel_bc", "calls", &c, &b),
            relation("rel_ab", "calls", &b, &a),
            relation("rel_ac", "calls", &c, &a),
            relation("rel_cd", "calls", &d, &c),
        ],
        diagnostics: Vec::new(),
    };
    let analysis = impact_snapshot(&snapshot, vec![a.clone()], 5);
    let depths = analysis
        .impacted_entities
        .iter()
        .map(|impact| (impact.entity.id.as_str(), impact.depth))
        .collect::<Vec<_>>();
    assert_eq!(depths, vec![("b", 1), ("c", 1), ("d", 2)]);
    let c_impact = &analysis.impacted_entities[1];
    assert_eq!(c_impact.path_steps.len(), 1);
    assert_eq!(c_impact.path_steps[0].relation_id, "rel_ac");

    let shallow = impact_snapshot(&snapshot, vec![a.clone()], 1);
    assert_eq!(shallow.impacted_entities.len(), 2);
    let none = impact_snapshot(&snapshot, vec![a], 0);
    assert!(none.impacted_entities.is_empty());
}
