use athanor_app::graph::{
    GRAPH_CYCLES_SCHEMA, GRAPH_EXPORT_SCHEMA, GRAPH_HUBS_SCHEMA, GRAPH_PAGERANK_SCHEMA, GRAPH_PATH_SCHEMA,
    GRAPH_RELATED_SCHEMA,
};
use athanor_app::json_contract;
use athanor_app::json_contract_base::{
    self, validate_contract_registry, JsonContractDescriptor, JsonContractError, GRAPH_CYCLES_SCHEMA_V1,
    GRAPH_EXPORT_SCHEMA_V1, GRAPH_HUBS_SCHEMA_V1, GRAPH_PAGERANK_SCHEMA_V1, GRAPH_PATH_SCHEMA_V1,
    GRAPH_RELATED_SCHEMA_V1, RUSTOK_FBA_AUDIT_SCHEMA_V1, RUSTOK_FBA_DEPENDENCIES_GRAPH_SCHEMA_V1,
    RUSTOK_FBA_MODULE_GRAPH_SCHEMA_V1, RUSTOK_FBA_PORT_GRAPH_SCHEMA_V1, RUSTOK_FBA_VIOLATIONS_GRAPH_SCHEMA_V1,
    RUSTOK_FFA_AUDIT_SCHEMA_V1, RUSTOK_FFA_SURFACE_GRAPH_SCHEMA_V1, RUSTOK_FFA_VIOLATIONS_GRAPH_SCHEMA_V1,
    RUSTOK_PAGE_BUILDER_AUDIT_SCHEMA_V1, RUSTOK_PAGE_BUILDER_CONSUMER_GRAPH_SCHEMA_V1,
    RUSTOK_PAGE_BUILDER_PROVIDER_GRAPH_SCHEMA_V1, RUSTOK_PAGE_BUILDER_VIOLATIONS_GRAPH_SCHEMA_V1,
};
use athanor_app::rustok::{
    RUSTOK_FBA_AUDIT_SCHEMA, RUSTOK_FBA_DEPENDENCIES_GRAPH_SCHEMA, RUSTOK_FBA_MODULE_GRAPH_SCHEMA,
    RUSTOK_FBA_PORT_GRAPH_SCHEMA, RUSTOK_FBA_VIOLATIONS_GRAPH_SCHEMA, RUSTOK_FFA_AUDIT_SCHEMA,
    RUSTOK_FFA_SURFACE_GRAPH_SCHEMA, RUSTOK_FFA_VIOLATIONS_GRAPH_SCHEMA, RUSTOK_PAGE_BUILDER_AUDIT_SCHEMA,
    RUSTOK_PAGE_BUILDER_CONSUMER_GRAPH_SCHEMA, RUSTOK_PAGE_BUILDER_PROVIDER_GRAPH_SCHEMA,
    RUSTOK_PAGE_BUILDER_VIOLATIONS_GRAPH_SCHEMA,
};

#[test]
fn extended_registry_contains_application_daemon_and_adapter_owners() {
    let contracts = json_contract::versioned_json_contracts();
    validate_contract_registry(&contracts).expect("extended JSON contract registry must remain valid");
    assert_eq!(contracts.len(), 60);
    assert_eq!(json_contract::API_SNAPSHOT_SCHEMA_V1, "athanor.api_snapshot.v1");
    assert_eq!(json_contract::DOCS_PROPOSE_FIX_SCHEMA_V1, "athanor.docs_propose_fix.v1");
    assert_eq!(json_contract::ADAPTER_TRUST_REPORT_SCHEMA_V1, "athanor.adapter_trust_report.v1");
    assert_eq!(json_contract::REPAIR_INSPECT_SCHEMA_V2, "athanor.repair_inspect.v2");
    assert_eq!(json_contract::REPAIR_CANONICAL_LATEST_SCHEMA_V1, "athanor.repair_canonical_latest.v1");
    assert_eq!(json_contract::DAEMON_REQUEST_CONTRACT_SCHEMA_V3, "athanor.daemon_request.v3");
    assert_eq!(json_contract::DAEMON_RESPONSE_CONTRACT_SCHEMA_V3, "athanor.daemon_response.v3");
}

#[test]
fn qualified_schema_ids_preserve_the_base_compatibility_major() {
    assert_eq!(json_contract::validate_schema_id("athanor.index_state.v46-js-ts-precision-v1"), Ok(46));
    for schema in [
        "athanor.index_state.v46-js-ts-precision",
        "athanor.index_state.v46--v1",
        "athanor.index_state.v46-js-ts-precision-v0",
        "athanor.index_state.v0-js-ts-precision-v1",
    ] {
        assert!(json_contract::validate_schema_id(schema).is_err(), "accepted `{schema}`");
    }
}

#[test]
fn accepts_stable_positive_major_schema_ids() {
    assert_eq!(json_contract_base::validate_schema_id("athanor.search.v1"), Ok(1));
    assert_eq!(json_contract_base::validate_schema_id("athanor.rustok_architecture.v12"), Ok(12));
    assert_eq!(json_contract_base::validate_schema_id("athanor.api-contract.diff.v2"), Ok(2));
}

#[test]
fn rejects_unversioned_or_noncanonical_schema_ids() {
    for schema in [
        "search.v1",
        "athanor.search",
        "athanor.Search.v1",
        "athanor.search.v0",
        "athanor.search.vx",
        "athanor..v1",
    ] {
        assert!(json_contract_base::validate_schema_id(schema).is_err(), "accepted `{schema}`");
    }
}

#[test]
fn registry_contains_unique_valid_schema_and_type_owners() {
    let contracts = json_contract_base::versioned_json_contracts();
    assert_eq!(validate_contract_registry(&contracts), Ok(()));
    assert_eq!(contracts.len(), 45);
    assert_eq!(GRAPH_EXPORT_SCHEMA, GRAPH_EXPORT_SCHEMA_V1);
    assert_eq!(GRAPH_RELATED_SCHEMA, GRAPH_RELATED_SCHEMA_V1);
    assert_eq!(GRAPH_PATH_SCHEMA, GRAPH_PATH_SCHEMA_V1);
    assert_eq!(GRAPH_HUBS_SCHEMA, GRAPH_HUBS_SCHEMA_V1);
    assert_eq!(GRAPH_PAGERANK_SCHEMA, GRAPH_PAGERANK_SCHEMA_V1);
    assert_eq!(GRAPH_CYCLES_SCHEMA, GRAPH_CYCLES_SCHEMA_V1);
    assert_eq!(RUSTOK_FFA_AUDIT_SCHEMA, RUSTOK_FFA_AUDIT_SCHEMA_V1);
    assert_eq!(RUSTOK_FFA_SURFACE_GRAPH_SCHEMA, RUSTOK_FFA_SURFACE_GRAPH_SCHEMA_V1);
    assert_eq!(RUSTOK_FFA_VIOLATIONS_GRAPH_SCHEMA, RUSTOK_FFA_VIOLATIONS_GRAPH_SCHEMA_V1);
    assert_eq!(RUSTOK_FBA_AUDIT_SCHEMA, RUSTOK_FBA_AUDIT_SCHEMA_V1);
    assert_eq!(RUSTOK_FBA_MODULE_GRAPH_SCHEMA, RUSTOK_FBA_MODULE_GRAPH_SCHEMA_V1);
    assert_eq!(RUSTOK_FBA_PORT_GRAPH_SCHEMA, RUSTOK_FBA_PORT_GRAPH_SCHEMA_V1);
    assert_eq!(RUSTOK_FBA_DEPENDENCIES_GRAPH_SCHEMA, RUSTOK_FBA_DEPENDENCIES_GRAPH_SCHEMA_V1);
    assert_eq!(RUSTOK_FBA_VIOLATIONS_GRAPH_SCHEMA, RUSTOK_FBA_VIOLATIONS_GRAPH_SCHEMA_V1);
    assert_eq!(RUSTOK_PAGE_BUILDER_AUDIT_SCHEMA, RUSTOK_PAGE_BUILDER_AUDIT_SCHEMA_V1);
    assert_eq!(RUSTOK_PAGE_BUILDER_PROVIDER_GRAPH_SCHEMA, RUSTOK_PAGE_BUILDER_PROVIDER_GRAPH_SCHEMA_V1);
    assert_eq!(RUSTOK_PAGE_BUILDER_CONSUMER_GRAPH_SCHEMA, RUSTOK_PAGE_BUILDER_CONSUMER_GRAPH_SCHEMA_V1);
    assert_eq!(RUSTOK_PAGE_BUILDER_VIOLATIONS_GRAPH_SCHEMA, RUSTOK_PAGE_BUILDER_VIOLATIONS_GRAPH_SCHEMA_V1);
}

#[test]
fn registry_rejects_duplicate_schema_and_type_owners() {
    let duplicate_schema = [
        JsonContractDescriptor { schema: "athanor.example.v1", rust_type: "ExampleV1" },
        JsonContractDescriptor { schema: "athanor.example.v1", rust_type: "ExampleAlias" },
    ];
    assert_eq!(
        validate_contract_registry(&duplicate_schema),
        Err(JsonContractError::DuplicateSchemaId { schema: "athanor.example.v1".to_string() })
    );

    let duplicate_type = [
        JsonContractDescriptor { schema: "athanor.example.v1", rust_type: "Example" },
        JsonContractDescriptor { schema: "athanor.example.v2", rust_type: "Example" },
    ];
    assert_eq!(
        validate_contract_registry(&duplicate_type),
        Err(JsonContractError::DuplicateRustTypeOwner { rust_type: "Example".to_string() })
    );
}

#[test]
fn qualified_schema_major_must_be_plain_digits() {
    assert!(json_contract::validate_schema_id("athanor.x.v+46-js-v1").is_err());
    assert_eq!(json_contract::validate_qualified_schema_id("athanor.x.v+46-js-v1"), None);
    assert_eq!(json_contract::validate_qualified_schema_id("athanor.x.v46-js-v1"), Some(46));
}

#[test]
fn validates_serialized_schema_field() {
    let document = json_contract_base::TopLevelSchema::Text("athanor.example_contract.v2".to_string());
    assert_eq!(json_contract_base::validate_contract_document("athanor.example_contract.v2", &document), Ok(()));
}

#[test]
fn rejects_instance_and_serialized_schema_mismatches() {
    let document = json_contract_base::TopLevelSchema::Text("athanor.example_contract.v1".to_string());
    assert_eq!(
        json_contract_base::validate_contract_document("athanor.example_contract.v2", &document),
        Err(JsonContractError::SchemaMismatch {
            expected: "athanor.example_contract.v2".to_string(),
            actual: "athanor.example_contract.v1".to_string(),
        })
    );
    assert_eq!(
        json_contract_base::validate_contract_document("athanor.example_contract.v2", &json_contract_base::TopLevelSchema::Missing),
        Err(JsonContractError::MissingSchemaField)
    );
}
