use athanor_app::pagerank::{pagerank_graph, relation_trace};
use athanor_app::snapshot::{CanonicalSnapshot, Entity, Evidence, Relation};

fn function(id: &str, stable_key: &str) -> Entity {
    Entity {
        id: id.to_string(),
        stable_key: stable_key.to_string(),
        kind: "function".to_string(),
        kind_label: "Function".to_string(),
        name: id.to_string(),
        source: None,
        ownership: Vec::new(),
        role: None,
        contract_version: None,
    }
}

fn calls(id: &str, from: &Entity, to: &Entity) -> Relation {
    Relation {
        id: id.to_string(),
        kind: "calls".to_string(),
        kind_label: "calls".to_string(),
        from: from.id.clone(),
        to: to.id.clone(),
        status: "verified".to_string(),
        confidence: "1.0".to_string(),
        schema: None,
        evidence: vec![Evidence { source_file: Some("docs/api/health.md".to_string()), line_start: Some(1) }],
    }
}

#[test]
fn pagerank_graph_orders_entities_and_collects_incoming_relations() {
    let first = function("ent_first", "symbol://first");
    let second = function("ent_second", "symbol://second");
    let aggregator = function("ent_aggregator", "symbol://aggregator");
    let sink = function("ent_sink", "symbol://sink");
    let ghost = function("ent_ghost", "symbol://ghost");
    let snapshot = CanonicalSnapshot {
        snapshot: Some("snap_test".to_string()),
        entities: vec![sink.clone(), first.clone(), aggregator.clone(), second.clone()],
        facts: Vec::new(),
        relations: vec![
            calls("rel_second_aggregator", &second, &aggregator),
            calls("rel_first_aggregator", &first, &aggregator),
            calls("rel_aggregator_sink", &aggregator, &sink),
            calls("rel_ghost_sink", &ghost, &sink),
        ],
        diagnostics: Vec::new(),
    };

    let graph = pagerank_graph(&snapshot);

    // aggregator, first, second, sink
    assert_eq!(graph.order, vec![2, 1, 3, 0]);
    assert_eq!(graph.relation_count, 3);
    assert_eq!(graph.outgoing, vec![vec![3], vec![0], vec![0], vec![]]);
    assert_eq!(graph.incoming[0], vec![1, 0]);
    assert_eq!(graph.incoming[3], vec![2]);
    let trace = relation_trace(&snapshot.relations[2]);
    assert_eq!(trace.id, "rel_aggregator_sink");
    assert_eq!(trace.from_entity_id, "ent_aggregator");
    assert_eq!(trace.evidence, vec!["docs/api/health.md:1"]);
}
