//! The current JSON contract schema rules: the plain form of the shared rules, extended by
//! feature-qualified versions such as `athanor.index_state.v46-js-ts-precision-v1`.

use vstd::prelude::*;

pub use crate::json_contract_base::{
    validate_contract_document, validate_contract_registry, JsonContractDescriptor,
    JsonContractError, TopLevelSchema,
};
pub use crate::json_contract_base::{
    OVERVIEW_SCHEMA_V1,
    SEARCH_SCHEMA_V1,
    ENTITY_EXPLANATION_SCHEMA_V1,
    IMPACT_ANALYSIS_SCHEMA_V1,
    DIAGNOSTIC_CHECK_SCHEMA_V1,
    AFFECTED_CHECK_SCHEMA_V1,
    OPERATIONS_DOCS_CHECK_SCHEMA_V1,
    COVERAGE_SCHEMA_V1,
    CAPABILITIES_SCHEMA_V1,
    CHANGE_MAP_SCHEMA_V1,
    CONTEXT_PACK_SCHEMA_V1,
    INDEX_REPORT_SCHEMA_V1,
    INDEX_BENCHMARK_SCHEMA_V1,
    CHANGED_VALIDATION_SCHEMA_V1,
    GENERATION_SCHEMA_V1,
    CONFIG_VALIDATE_SCHEMA_V1,
    CONFIG_DOCTOR_SCHEMA_V1,
    DOCS_CHECK_SCHEMA_V1,
    DOCS_DRIFT_SCHEMA_V1,
    DOCS_APPLY_PATCH_SCHEMA_V1,
    API_CONTRACT_DIFF_SCHEMA_V2,
    API_CLEANUP_SCHEMA_V1,
    WIKI_REPORT_SCHEMA_V1,
    HTML_REPORT_SCHEMA_V1,
    GRAPH_EXPORT_SCHEMA_V1,
    GRAPH_RELATED_SCHEMA_V1,
    GRAPH_PATH_SCHEMA_V1,
    GRAPH_HUBS_SCHEMA_V1,
    GRAPH_PAGERANK_SCHEMA_V1,
    GRAPH_CYCLES_SCHEMA_V1,
    RUSTOK_ARCHITECTURE_CONTEXT_SCHEMA_V1,
    RUSTOK_FFA_AUDIT_SCHEMA_V1,
    RUSTOK_FFA_SURFACE_GRAPH_SCHEMA_V1,
    RUSTOK_FFA_VIOLATIONS_GRAPH_SCHEMA_V1,
    RUSTOK_FBA_AUDIT_SCHEMA_V1,
    RUSTOK_FBA_MODULE_GRAPH_SCHEMA_V1,
    RUSTOK_FBA_PORT_GRAPH_SCHEMA_V1,
    RUSTOK_FBA_DEPENDENCIES_GRAPH_SCHEMA_V1,
    RUSTOK_FBA_VIOLATIONS_GRAPH_SCHEMA_V1,
    RUSTOK_PAGE_BUILDER_AUDIT_SCHEMA_V1,
    RUSTOK_PAGE_BUILDER_PROVIDER_GRAPH_SCHEMA_V1,
    RUSTOK_PAGE_BUILDER_CONSUMER_GRAPH_SCHEMA_V1,
    RUSTOK_PAGE_BUILDER_VIOLATIONS_GRAPH_SCHEMA_V1,
    PROJECT_REGISTRY_REPORT_SCHEMA_V1,
    PROJECT_RESOLUTION_SCHEMA_V1,
};
use crate::json_contract_base::{
    base_schema_major, base_schema_defect, defect_reason, drop_first_chars, has_schema_shape,
    is_athanor, is_qualifier, is_qualifier_exec, names_valid, names_valid_exec,
};
use crate::text::{
    all_digits, digits_value, lemma_digits_value_prefix, lemma_split_on_nonempty,
    parse_digits_u32, split_chars, split_on, to_chars,
};

verus! {

/// The compatibility major of a feature-qualified id
/// `athanor.<name>.v<major>-<qualifier>...-v<revision>`.
pub open spec fn qualified_schema_major(s: Seq<char>) -> Option<u32> {
    let segs = split_on(s, '.');
    let last = segs.last();
    let parts = split_on(last.drop_first(), '-');
    let rev = parts.last();
    if has_schema_shape(segs) && names_valid(segs) && last.len() >= 1 && last[0] == 'v'
        && parts.len() >= 3 && parts[0].len() > 0 && all_digits(parts[0])
        && digits_value(parts[0]) <= u32::MAX && digits_value(parts[0]) > 0 && rev.len() >= 1 && rev[0] == 'v'
        && rev.drop_first().len() > 0 && all_digits(rev.drop_first())
        && digits_value(rev.drop_first()) <= u32::MAX && digits_value(rev.drop_first()) > 0
        && (forall|q: int| 1 <= q < parts.len() - 1 ==> is_qualifier(#[trigger] parts[q])) {
        Some(digits_value(parts[0]) as u32)
    } else {
        None
    }
}

/// The compatibility major accepted by the current contract rules: the plain form first,
/// then the feature-qualified form.
pub open spec fn schema_major(s: Seq<char>) -> Option<u32> {
    if base_schema_major(s) is Some {
        base_schema_major(s)
    } else {
        qualified_schema_major(s)
    }
}

/// Checks that the parts between the major and the revision are qualifiers.
fn qualifiers_valid_exec(parts: &Vec<Vec<char>>, view: Ghost<Seq<Seq<char>>>) -> (r: bool)
    requires
        parts@.len() == view@.len(),
        forall|i: int| 0 <= i < parts@.len() ==> (#[trigger] parts@[i])@ == view@[i],
        view@.len() >= 1,
    ensures
        r == (forall|q: int| 1 <= q < view@.len() - 1 ==> is_qualifier(#[trigger] view@[q])),
{
    let n = parts.len();
    let mut i: usize = 1;
    while i < n - 1
        invariant
            n == parts@.len(),
            n == view@.len(),
            n >= 1,
            1 <= i,
            forall|k: int| 0 <= k < parts@.len() ==> (#[trigger] parts@[k])@ == view@[k],
            forall|k: int| 1 <= k < i && k < n - 1 ==> is_qualifier(#[trigger] view@[k]),
        decreases n - i,
    {
        if !is_qualifier_exec(parts[i].as_slice()) {
            assert(!is_qualifier(view@[i as int]));
            return false;
        }
        i = i + 1;
    }
    true
}

/// Validates a feature-qualified schema id `athanor.<name>.v<major>-<qualifier>-v<revision>`
/// and returns its compatibility major.
pub fn validate_qualified_schema_id(schema: &str) -> (r: Option<u32>)
    ensures
        r == qualified_schema_major(schema@),
{
    let chars = to_chars(schema);
    let segs = split_chars(chars.as_slice(), '.');
    let ghost view = split_on(schema@, '.');
    proof {
        lemma_split_on_nonempty(schema@, '.');
    }
    if segs.len() < 3 || !is_athanor(segs[0].as_slice()) {
        return None;
    }
    if !names_valid_exec(&segs, Ghost(view)) {
        return None;
    }
    let last = &segs[segs.len() - 1];
    if last.len() == 0 || last[0] != 'v' {
        return None;
    }
    let version = drop_first_chars(last.as_slice());
    let parts = split_chars(version.as_slice(), '-');
    let ghost pview = split_on(version@, '-');
    proof {
        lemma_split_on_nonempty(version@, '-');
    }
    if parts.len() < 3 {
        return None;
    }
    proof {
        if all_digits(parts@[0]@) {
            lemma_digits_value_prefix(parts@[0]@, 0);
        }
    }
    let major = match parse_digits_u32(parts[0].as_slice()) {
        Some(m) => m,
        None => {
            return None;
        },
    };
    if major == 0 {
        return None;
    }
    let rev_part = &parts[parts.len() - 1];
    if rev_part.len() == 0 || rev_part[0] != 'v' {
        return None;
    }
    let revision = drop_first_chars(rev_part.as_slice());
    proof {
        if all_digits(revision@) {
            lemma_digits_value_prefix(revision@, 0);
        }
    }
    match parse_digits_u32(revision.as_slice()) {
        Some(value) => {
            if value == 0 {
                return None;
            }
        },
        None => {
            return None;
        },
    }
    if !qualifiers_valid_exec(&parts, Ghost(pview)) {
        return None;
    }
    Some(major)
}


/// Validates a current schema id and returns its compatibility major.
///
/// Most contracts use `athanor.<name>.v<major>`. Feature-qualified wire families may use the
/// stricter `athanor.<name>.v<major>-<qualifier>-v<revision>` form, which keeps the base
/// compatibility major while versioning the qualifier itself. Where neither form holds, the
/// error is the one the plain form reports.
pub fn validate_schema_id(schema: &str) -> (r: Result<u32, JsonContractError>)
    ensures
        match r {
            Ok(major) => schema_major(schema@) == Some(major),
            Err(e) => {
                &&& schema_major(schema@) is None
                &&& e matches JsonContractError::InvalidSchemaId { schema: s, reason }
                &&& s@ == schema@
                &&& reason == defect_reason(base_schema_defect(schema@).unwrap())
            },
        },
{
    match crate::json_contract_base::validate_schema_id(schema) {
        Ok(major) => Ok(major),
        Err(base_error) => match validate_qualified_schema_id(schema) {
            Some(major) => Ok(major),
            None => Err(base_error),
        },
    }
}

pub const API_SNAPSHOT_SCHEMA_V1: &'static str = "athanor.api_snapshot.v1";
pub const DOCS_PROPOSE_FIX_SCHEMA_V1: &'static str = "athanor.docs_propose_fix.v1";
pub const ADAPTER_TRUST_REPORT_SCHEMA_V1: &'static str = "athanor.adapter_trust_report.v1";
pub const REPAIR_INSPECT_SCHEMA_V2: &'static str = "athanor.repair_inspect.v2";
pub const REPAIR_CLEANUP_SCHEMA_V2: &'static str = "athanor.repair_cleanup.v2";
pub const REPAIR_REGENERATE_SCHEMA_V1: &'static str = "athanor.repair_regenerate.v1";
pub const REPAIR_RECOVER_CANONICAL_SCHEMA_V1: &'static str = "athanor.repair_recover_canonical.v1";
pub const REPAIR_APPLY_SCHEMA_V2: &'static str = "athanor.repair_apply.v2";
pub const INDEX_GENERATION_CLEANUP_SCHEMA_V1: &'static str = "athanor.index_generation_cleanup.v1";
pub const REPAIR_RECOVER_INDEX_SCHEMA_V1: &'static str = "athanor.repair_recover_index.v1";
pub const REPAIR_RECOVER_INDEX_CLEANUP_SCHEMA_V1: &'static str = "athanor.repair_recover_index_cleanup.v1";
pub const REPAIR_CANONICAL_LATEST_SCHEMA_V1: &'static str = "athanor.repair_canonical_latest.v1";
pub const DAEMON_REQUEST_CONTRACT_SCHEMA_V3: &'static str = "athanor.daemon_request.v3";
pub const DAEMON_RESPONSE_CONTRACT_SCHEMA_V3: &'static str = "athanor.daemon_response.v3";
pub const DAEMON_JOBS_CONTRACT_SCHEMA_V1: &'static str = "athanor.daemon_jobs.v1";

/// The extended registry: the shared contracts with the response wrappers and the repair,
/// daemon and adapter report families.
pub fn versioned_json_contracts() -> (r: Vec<JsonContractDescriptor>)
    ensures
        r@ == seq![
            JsonContractDescriptor { schema: OVERVIEW_SCHEMA_V1, rust_type: "RepositoryOverview" },
            JsonContractDescriptor { schema: SEARCH_SCHEMA_V1, rust_type: "SearchReport" },
            JsonContractDescriptor { schema: ENTITY_EXPLANATION_SCHEMA_V1, rust_type: "EntityExplanation" },
            JsonContractDescriptor { schema: IMPACT_ANALYSIS_SCHEMA_V1, rust_type: "ImpactAnalysis" },
            JsonContractDescriptor { schema: DIAGNOSTIC_CHECK_SCHEMA_V1, rust_type: "DiagnosticCheckReport" },
            JsonContractDescriptor { schema: AFFECTED_CHECK_SCHEMA_V1, rust_type: "AffectedCheckReport" },
            JsonContractDescriptor { schema: OPERATIONS_DOCS_CHECK_SCHEMA_V1, rust_type: "OperationsDocsCheckReport" },
            JsonContractDescriptor { schema: COVERAGE_SCHEMA_V1, rust_type: "CoverageReport" },
            JsonContractDescriptor { schema: CAPABILITIES_SCHEMA_V1, rust_type: "CapabilitiesReport" },
            JsonContractDescriptor { schema: CHANGE_MAP_SCHEMA_V1, rust_type: "ChangeMapReport" },
            JsonContractDescriptor { schema: CONTEXT_PACK_SCHEMA_V1, rust_type: "ContextReport" },
            JsonContractDescriptor { schema: INDEX_REPORT_SCHEMA_V1, rust_type: "IndexReport" },
            JsonContractDescriptor { schema: INDEX_BENCHMARK_SCHEMA_V1, rust_type: "BenchmarkReport" },
            JsonContractDescriptor { schema: CHANGED_VALIDATION_SCHEMA_V1, rust_type: "ChangedValidationReport" },
            JsonContractDescriptor { schema: GENERATION_SCHEMA_V1, rust_type: "GenerationReport" },
            JsonContractDescriptor { schema: CONFIG_VALIDATE_SCHEMA_V1, rust_type: "ConfigValidateReport" },
            JsonContractDescriptor { schema: CONFIG_DOCTOR_SCHEMA_V1, rust_type: "ConfigDoctorReport" },
            JsonContractDescriptor { schema: DOCS_CHECK_SCHEMA_V1, rust_type: "DocsCheckReport" },
            JsonContractDescriptor { schema: DOCS_DRIFT_SCHEMA_V1, rust_type: "DocsDriftReport" },
            JsonContractDescriptor { schema: DOCS_APPLY_PATCH_SCHEMA_V1, rust_type: "DocsApplyPatchReport" },
            JsonContractDescriptor { schema: DOCS_PROPOSE_FIX_SCHEMA_V1, rust_type: "VersionedDocsProposeFixReport" },
            JsonContractDescriptor { schema: API_SNAPSHOT_SCHEMA_V1, rust_type: "VersionedApiSnapshotReport" },
            JsonContractDescriptor { schema: API_CONTRACT_DIFF_SCHEMA_V2, rust_type: "ApiContractDiff" },
            JsonContractDescriptor { schema: API_CLEANUP_SCHEMA_V1, rust_type: "ApiCleanupReport" },
            JsonContractDescriptor { schema: ADAPTER_TRUST_REPORT_SCHEMA_V1, rust_type: "VersionedAdapterTrustReport" },
            JsonContractDescriptor { schema: REPAIR_INSPECT_SCHEMA_V2, rust_type: "RepairInspectReport" },
            JsonContractDescriptor { schema: REPAIR_CLEANUP_SCHEMA_V2, rust_type: "RepairCleanupReport" },
            JsonContractDescriptor { schema: REPAIR_REGENERATE_SCHEMA_V1, rust_type: "RepairRegenerateReport" },
            JsonContractDescriptor { schema: REPAIR_RECOVER_CANONICAL_SCHEMA_V1, rust_type: "RepairRecoverCanonicalReport" },
            JsonContractDescriptor { schema: REPAIR_APPLY_SCHEMA_V2, rust_type: "RepairApplyReport" },
            JsonContractDescriptor { schema: INDEX_GENERATION_CLEANUP_SCHEMA_V1, rust_type: "IndexGenerationCleanupReport" },
            JsonContractDescriptor { schema: REPAIR_RECOVER_INDEX_SCHEMA_V1, rust_type: "RepairRecoverIndexReport" },
            JsonContractDescriptor { schema: REPAIR_RECOVER_INDEX_CLEANUP_SCHEMA_V1, rust_type: "RepairRecoverIndexCleanupReport" },
            JsonContractDescriptor { schema: REPAIR_CANONICAL_LATEST_SCHEMA_V1, rust_type: "RepairCanonicalLatestReport" },
            JsonContractDescriptor { schema: DAEMON_REQUEST_CONTRACT_SCHEMA_V3, rust_type: "DaemonRequest" },
            JsonContractDescriptor { schema: DAEMON_RESPONSE_CONTRACT_SCHEMA_V3, rust_type: "DaemonResponse" },
            JsonContractDescriptor { schema: DAEMON_JOBS_CONTRACT_SCHEMA_V1, rust_type: "DaemonJobsReport" },
            JsonContractDescriptor { schema: WIKI_REPORT_SCHEMA_V1, rust_type: "WikiReport" },
            JsonContractDescriptor { schema: HTML_REPORT_SCHEMA_V1, rust_type: "HtmlReport" },
            JsonContractDescriptor { schema: GRAPH_EXPORT_SCHEMA_V1, rust_type: "GraphExport" },
            JsonContractDescriptor { schema: GRAPH_RELATED_SCHEMA_V1, rust_type: "GraphRelated" },
            JsonContractDescriptor { schema: GRAPH_PATH_SCHEMA_V1, rust_type: "GraphPath" },
            JsonContractDescriptor { schema: GRAPH_HUBS_SCHEMA_V1, rust_type: "GraphHubs" },
            JsonContractDescriptor { schema: GRAPH_PAGERANK_SCHEMA_V1, rust_type: "GraphPageRank" },
            JsonContractDescriptor { schema: GRAPH_CYCLES_SCHEMA_V1, rust_type: "GraphCycles" },
            JsonContractDescriptor { schema: RUSTOK_ARCHITECTURE_CONTEXT_SCHEMA_V1, rust_type: "RustokArchitectureContext" },
            JsonContractDescriptor { schema: RUSTOK_FFA_AUDIT_SCHEMA_V1, rust_type: "RustokFfaAudit" },
            JsonContractDescriptor { schema: RUSTOK_FFA_SURFACE_GRAPH_SCHEMA_V1, rust_type: "RustokFfaSurfaceGraphReport" },
            JsonContractDescriptor { schema: RUSTOK_FFA_VIOLATIONS_GRAPH_SCHEMA_V1, rust_type: "RustokFfaViolationsGraphReport" },
            JsonContractDescriptor { schema: RUSTOK_FBA_AUDIT_SCHEMA_V1, rust_type: "RustokFbaAudit" },
            JsonContractDescriptor { schema: RUSTOK_FBA_MODULE_GRAPH_SCHEMA_V1, rust_type: "RustokFbaModuleGraphReport" },
            JsonContractDescriptor { schema: RUSTOK_FBA_PORT_GRAPH_SCHEMA_V1, rust_type: "RustokFbaPortGraphReport" },
            JsonContractDescriptor { schema: RUSTOK_FBA_DEPENDENCIES_GRAPH_SCHEMA_V1, rust_type: "RustokFbaDependenciesGraphReport" },
            JsonContractDescriptor { schema: RUSTOK_FBA_VIOLATIONS_GRAPH_SCHEMA_V1, rust_type: "RustokFbaViolationsGraphReport" },
            JsonContractDescriptor { schema: RUSTOK_PAGE_BUILDER_AUDIT_SCHEMA_V1, rust_type: "RustokPageBuilderAudit" },
            JsonContractDescriptor { schema: RUSTOK_PAGE_BUILDER_PROVIDER_GRAPH_SCHEMA_V1, rust_type: "RustokPageBuilderProviderGraphReport" },
            JsonContractDescriptor { schema: RUSTOK_PAGE_BUILDER_CONSUMER_GRAPH_SCHEMA_V1, rust_type: "RustokPageBuilderConsumerGraphReport" },
            JsonContractDescriptor { schema: RUSTOK_PAGE_BUILDER_VIOLATIONS_GRAPH_SCHEMA_V1, rust_type: "RustokPageBuilderViolationsGraphReport" },
            JsonContractDescriptor { schema: PROJECT_REGISTRY_REPORT_SCHEMA_V1, rust_type: "ProjectRegistryReport" },
            JsonContractDescriptor { schema: PROJECT_RESOLUTION_SCHEMA_V1, rust_type: "ProjectResolutionReport" },
        ],
{
    vec![
        JsonContractDescriptor { schema: OVERVIEW_SCHEMA_V1, rust_type: "RepositoryOverview" },
        JsonContractDescriptor { schema: SEARCH_SCHEMA_V1, rust_type: "SearchReport" },
        JsonContractDescriptor { schema: ENTITY_EXPLANATION_SCHEMA_V1, rust_type: "EntityExplanation" },
        JsonContractDescriptor { schema: IMPACT_ANALYSIS_SCHEMA_V1, rust_type: "ImpactAnalysis" },
        JsonContractDescriptor { schema: DIAGNOSTIC_CHECK_SCHEMA_V1, rust_type: "DiagnosticCheckReport" },
        JsonContractDescriptor { schema: AFFECTED_CHECK_SCHEMA_V1, rust_type: "AffectedCheckReport" },
        JsonContractDescriptor { schema: OPERATIONS_DOCS_CHECK_SCHEMA_V1, rust_type: "OperationsDocsCheckReport" },
        JsonContractDescriptor { schema: COVERAGE_SCHEMA_V1, rust_type: "CoverageReport" },
        JsonContractDescriptor { schema: CAPABILITIES_SCHEMA_V1, rust_type: "CapabilitiesReport" },
        JsonContractDescriptor { schema: CHANGE_MAP_SCHEMA_V1, rust_type: "ChangeMapReport" },
        JsonContractDescriptor { schema: CONTEXT_PACK_SCHEMA_V1, rust_type: "ContextReport" },
        JsonContractDescriptor { schema: INDEX_REPORT_SCHEMA_V1, rust_type: "IndexReport" },
        JsonContractDescriptor { schema: INDEX_BENCHMARK_SCHEMA_V1, rust_type: "BenchmarkReport" },
        JsonContractDescriptor { schema: CHANGED_VALIDATION_SCHEMA_V1, rust_type: "ChangedValidationReport" },
        JsonContractDescriptor { schema: GENERATION_SCHEMA_V1, rust_type: "GenerationReport" },
        JsonContractDescriptor { schema: CONFIG_VALIDATE_SCHEMA_V1, rust_type: "ConfigValidateReport" },
        JsonContractDescriptor { schema: CONFIG_DOCTOR_SCHEMA_V1, rust_type: "ConfigDoctorReport" },
        JsonContractDescriptor { schema: DOCS_CHECK_SCHEMA_V1, rust_type: "DocsCheckReport" },
        JsonContractDescriptor { schema: DOCS_DRIFT_SCHEMA_V1, rust_type: "DocsDriftReport" },
        JsonContractDescriptor { schema: DOCS_APPLY_PATCH_SCHEMA_V1, rust_type: "DocsApplyPatchReport" },
        JsonContractDescriptor { schema: DOCS_PROPOSE_FIX_SCHEMA_V1, rust_type: "VersionedDocsProposeFixReport" },
        JsonContractDescriptor { schema: API_SNAPSHOT_SCHEMA_V1, rust_type: "VersionedApiSnapshotReport" },
        JsonContractDescriptor { schema: API_CONTRACT_DIFF_SCHEMA_V2, rust_type: "ApiContractDiff" },
        JsonContractDescriptor { schema: API_CLEANUP_SCHEMA_V1, rust_type: "ApiCleanupReport" },
        JsonContractDescriptor { schema: ADAPTER_TRUST_REPORT_SCHEMA_V1, rust_type: "VersionedAdapterTrustReport" },
        JsonContractDescriptor { schema: REPAIR_INSPECT_SCHEMA_V2, rust_type: "RepairInspectReport" },
        JsonContractDescriptor { schema: REPAIR_CLEANUP_SCHEMA_V2, rust_type: "RepairCleanupReport" },
        JsonContractDescriptor { schema: REPAIR_REGENERATE_SCHEMA_V1, rust_type: "RepairRegenerateReport" },
        JsonContractDescriptor { schema: REPAIR_RECOVER_CANONICAL_SCHEMA_V1, rust_type: "RepairRecoverCanonicalReport" },
        JsonContractDescriptor { schema: REPAIR_APPLY_SCHEMA_V2, rust_type: "RepairApplyReport" },
        JsonContractDescriptor { schema: INDEX_GENERATION_CLEANUP_SCHEMA_V1, rust_type: "IndexGenerationCleanupReport" },
        JsonContractDescriptor { schema: REPAIR_RECOVER_INDEX_SCHEMA_V1, rust_type: "RepairRecoverIndexReport" },
        JsonContractDescriptor { schema: REPAIR_RECOVER_INDEX_CLEANUP_SCHEMA_V1, rust_type: "RepairRecoverIndexCleanupReport" },
        JsonContractDescriptor { schema: REPAIR_CANONICAL_LATEST_SCHEMA_V1, rust_type: "RepairCanonicalLatestReport" },
        JsonContractDescriptor { schema: DAEMON_REQUEST_CONTRACT_SCHEMA_V3, rust_type: "DaemonRequest" },
        JsonContractDescriptor { schema: DAEMON_RESPONSE_CONTRACT_SCHEMA_V3, rust_type: "DaemonResponse" },
        JsonContractDescriptor { schema: DAEMON_JOBS_CONTRACT_SCHEMA_V1, rust_type: "DaemonJobsReport" },
        JsonContractDescriptor { schema: WIKI_REPORT_SCHEMA_V1, rust_type: "WikiReport" },
        JsonContractDescriptor { schema: HTML_REPORT_SCHEMA_V1, rust_type: "HtmlReport" },
        JsonContractDescriptor { schema: GRAPH_EXPORT_SCHEMA_V1, rust_type: "GraphExport" },
        JsonContractDescriptor { schema: GRAPH_RELATED_SCHEMA_V1, rust_type: "GraphRelated" },
        JsonContractDescriptor { schema: GRAPH_PATH_SCHEMA_V1, rust_type: "GraphPath" },
        JsonContractDescriptor { schema: GRAPH_HUBS_SCHEMA_V1, rust_type: "GraphHubs" },
        JsonContractDescriptor { schema: GRAPH_PAGERANK_SCHEMA_V1, rust_type: "GraphPageRank" },
        JsonContractDescriptor { schema: GRAPH_CYCLES_SCHEMA_V1, rust_type: "GraphCycles" },
        JsonContractDescriptor { schema: RUSTOK_ARCHITECTURE_CONTEXT_SCHEMA_V1, rust_type: "RustokArchitectureContext" },
        JsonContractDescriptor { schema: RUSTOK_FFA_AUDIT_SCHEMA_V1, rust_type: "RustokFfaAudit" },
        JsonContractDescriptor { schema: RUSTOK_FFA_SURFACE_GRAPH_SCHEMA_V1, rust_type: "RustokFfaSurfaceGraphReport" },
        JsonContractDescriptor { schema: RUSTOK_FFA_VIOLATIONS_GRAPH_SCHEMA_V1, rust_type: "RustokFfaViolationsGraphReport" },
        JsonContractDescriptor { schema: RUSTOK_FBA_AUDIT_SCHEMA_V1, rust_type: "RustokFbaAudit" },
        JsonContractDescriptor { schema: RUSTOK_FBA_MODULE_GRAPH_SCHEMA_V1, rust_type: "RustokFbaModuleGraphReport" },
        JsonContractDescriptor { schema: RUSTOK_FBA_PORT_GRAPH_SCHEMA_V1, rust_type: "RustokFbaPortGraphReport" },
        JsonContractDescriptor { schema: RUSTOK_FBA_DEPENDENCIES_GRAPH_SCHEMA_V1, rust_type: "RustokFbaDependenciesGraphReport" },
        JsonContractDescriptor { schema: RUSTOK_FBA_VIOLATIONS_GRAPH_SCHEMA_V1, rust_type: "RustokFbaViolationsGraphReport" },
        JsonContractDescriptor { schema: RUSTOK_PAGE_BUILDER_AUDIT_SCHEMA_V1, rust_type: "RustokPageBuilderAudit" },
        JsonContractDescriptor { schema: RUSTOK_PAGE_BUILDER_PROVIDER_GRAPH_SCHEMA_V1, rust_type: "RustokPageBuilderProviderGraphReport" },
        JsonContractDescriptor { schema: RUSTOK_PAGE_BUILDER_CONSUMER_GRAPH_SCHEMA_V1, rust_type: "RustokPageBuilderConsumerGraphReport" },
        JsonContractDescriptor { schema: RUSTOK_PAGE_BUILDER_VIOLATIONS_GRAPH_SCHEMA_V1, rust_type: "RustokPageBuilderViolationsGraphReport" },
        JsonContractDescriptor { schema: PROJECT_REGISTRY_REPORT_SCHEMA_V1, rust_type: "ProjectRegistryReport" },
        JsonContractDescriptor { schema: PROJECT_RESOLUTION_SCHEMA_V1, rust_type: "ProjectResolutionReport" },
    ]
}

} // verus!
