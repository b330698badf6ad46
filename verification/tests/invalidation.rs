use athanor_app::invalidation::{
    dependency_closure, plan_invalidation, AdapterInvalidationDeclaration, AffectedSubset, InvalidationPolicy,
    InvalidationScope, PlannedInvalidationScope,
};
use athanor_app::snapshot::{Entity, Relation};

fn uniform(scope: fn() -> InvalidationScope) -> InvalidationPolicy {
    InvalidationPolicy { on_add: scope(), on_remove: scope(), on_change: scope() }
}

fn declaration(name: &str, policy: InvalidationPolicy) -> AdapterInvalidationDeclaration {
    AdapterInvalidationDeclaration { adapter: name.to_string(), policy }
}

#[test]
fn defaults_to_global_for_undeclared_adapter() {
    let plan = plan_invalidation(&[declaration("checker:unknown", uniform(|| InvalidationScope::AlwaysGlobal))], false, false);
    assert_eq!(plan.scope, PlannedInvalidationScope::Global);
    assert_eq!(plan.global_adapters, vec!["checker:unknown"]);
}

#[test]
fn preserves_file_local_scope_when_all_adapters_are_local() {
    let plan = plan_invalidation(&[declaration("extractor:file", uniform(|| InvalidationScope::FileLocal))], true, false);
    assert_eq!(plan.scope, PlannedInvalidationScope::FileLocal);
    assert!(plan.global_adapters.is_empty());
}

#[test]
fn selects_dependency_closure_without_global_adapter() {
    let policy = uniform(|| InvalidationScope::DependencyClosure);
    let plan = plan_invalidation(&[declaration("linker:imports", policy)], false, true);
    assert_eq!(plan.scope, PlannedInvalidationScope::DependencyClosure);
}

#[test]
fn reports_global_adapter_for_add_specific_policy() {
    let policy = InvalidationPolicy {
        on_change: InvalidationScope::FileLocal,
        on_add: InvalidationScope::GlobalOnAdd,
        on_remove: InvalidationScope::FileLocal,
    };
    let plan = plan_invalidation(&[declaration("checker:duplicates", policy)], true, false);
    assert_eq!(plan.scope, PlannedInvalidationScope::Global);
    assert_eq!(plan.global_adapters, vec!["checker:duplicates"]);
}

#[test]
fn global_adapters_are_listed_once_in_order() {
    let plan = plan_invalidation(
        &[
            declaration("z:global", uniform(|| InvalidationScope::AlwaysGlobal)),
            declaration("a:global", uniform(|| InvalidationScope::AlwaysGlobal)),
            declaration("z:global", uniform(|| InvalidationScope::AlwaysGlobal)),
            declaration("m:local", uniform(|| InvalidationScope::FileLocal)),
        ],
        false,
        false,
    );
    assert_eq!(plan.scope, PlannedInvalidationScope::Global);
    assert_eq!(plan.global_adapters, vec!["a:global", "z:global"]);
    let empty = plan_invalidation(&[], false, false);
    assert_eq!(empty.scope, PlannedInvalidationScope::FileLocal);
}

fn entity(id: &str) -> Entity {
    Entity {
        id: id.to_string(),
        stable_key: format!("test://{id}"),
        kind: "file".to_string(),
        kind_label: "File".to_string(),
        name: id.to_string(),
        source: None,
        ownership: Vec::new(),
        role: None,
        contract_version: None,
    }
}

fn relation(id: &str, from: &Entity, to: &Entity) -> Relation {
    Relation {
        id: id.to_string(),
        kind: "contains".to_string(),
        kind_label: "contains".to_string(),
        from: from.id.clone(),
        to: to.id.clone(),
        status: "verified".to_string(),
        confidence: "1.0".to_string(),
        schema: None,
        evidence: Vec::new(),
    }
}

#[test]
fn dependency_closure_traverses_connected_relations_and_excludes_other_components() {
    let first = entity("first");
    let second = entity("second");
    let third = entity("third");
    let isolated = entity("isolated");
    let affected = AffectedSubset { entities: vec![first.clone()], facts: Vec::new(), relations: Vec::new() };
    let closure = dependency_closure(
        &affected,
        &vec![first.clone(), second.clone(), third.clone(), isolated.clone()],
        &Vec::new(),
        &vec![relation("first-second", &first, &second), relation("second-third", &second, &third)],
    );

    assert_eq!(closure.entities.len(), 3);
    assert!(closure.entities.iter().all(|entity| entity.id != isolated.id));
    assert_eq!(closure.relations.len(), 2);
}
