//! Shared rules for stable, versioned agent-facing JSON documents: schema ids of the form
//! `athanor.<name>.v<major>`, the registry of contract owners, and the top-level `schema`
//! field of a serialized document.

use vstd::prelude::*;

use crate::text::{
    all_digits, digits_value, is_digit, lemma_digits_value_prefix, lemma_split_on_nonempty,
    parse_digits_u32, split_chars, split_on, str_eq, to_chars,
};

verus! {

/// The required first segment of every schema id.
pub open spec fn athanor_segment() -> Seq<char> {
    seq!['a', 't', 'h', 'a', 'n', 'o', 'r']
}

/// Characters allowed in the name segments of a schema id.
pub open spec fn is_name_char(c: char) -> bool {
    ('a' <= c && c <= 'z') || is_digit(c) || c == '_' || c == '-'
}

/// A non-empty name segment made of allowed characters.
pub open spec fn is_name_segment(s: Seq<char>) -> bool {
    s.len() > 0 && forall|i: int| 0 <= i < s.len() ==> is_name_char(#[trigger] s[i])
}

/// Characters allowed in a qualifier of a feature-qualified schema version.
pub open spec fn is_qualifier_char(c: char) -> bool {
    ('a' <= c && c <= 'z') || is_digit(c)
}

/// A non-empty qualifier made of lowercase ASCII letters and digits.
pub open spec fn is_qualifier(s: Seq<char>) -> bool {
    s.len() > 0 && forall|i: int| 0 <= i < s.len() ==> is_qualifier_char(#[trigger] s[i])
}

/// Whether the segments hold `athanor`, at least one name segment and a version segment.
pub open spec fn has_schema_shape(segs: Seq<Seq<char>>) -> bool {
    segs.len() >= 3 && segs[0] == athanor_segment()
}

/// Whether every segment between the first and the last is a valid name segment.
pub open spec fn names_valid(segs: Seq<Seq<char>>) -> bool {
    forall|i: int| 1 <= i < segs.len() - 1 ==> is_name_segment(#[trigger] segs[i])
}

/// The major of a `v<digits>` version segment: positive and within `u32`.
pub open spec fn plain_version_major(v: Seq<char>) -> Option<u32> {
    if v.len() >= 1 && v[0] == 'v' && v.drop_first().len() > 0 && all_digits(v.drop_first())
        && digits_value(v.drop_first()) <= u32::MAX && digits_value(v.drop_first()) > 0 {
        Some(digits_value(v.drop_first()) as u32)
    } else {
        None
    }
}

/// The first rule of `athanor.<name>.v<major>` that a schema id breaks, if any.
pub enum SchemaIdDefect {
    Shape,
    NameSegment,
    Version,
}

pub open spec fn base_schema_defect(s: Seq<char>) -> Option<SchemaIdDefect> {
    let segs = split_on(s, '.');
    if !has_schema_shape(segs) {
        Some(SchemaIdDefect::Shape)
    } else if !names_valid(segs) {
        Some(SchemaIdDefect::NameSegment)
    } else if plain_version_major(segs.last()) is None {
        Some(SchemaIdDefect::Version)
    } else {
        None
    }
}

/// The compatibility major of a schema id of the form `athanor.<name>.v<major>`.
pub open spec fn base_schema_major(s: Seq<char>) -> Option<u32> {
    if base_schema_defect(s) is None {
        plain_version_major(split_on(s, '.').last())
    } else {
        None
    }
}

/// The message that names a defect.
pub open spec fn defect_reason(d: SchemaIdDefect) -> &'static str {
    match d {
        SchemaIdDefect::Shape => "expected athanor.<name>.v<major>",
        SchemaIdDefect::NameSegment => "name segments must use lowercase ASCII, digits, '_' or '-'",
        SchemaIdDefect::Version => "version must be a positive decimal major prefixed with 'v'",
    }
}

/// A registered versioned JSON contract: its schema id and the Rust type that owns it.
#[derive(Debug, Clone, Copy, PartialEq, Eq)]
pub struct JsonContractDescriptor {
    pub schema: &'static str,
    pub rust_type: &'static str,
}

/// Errors of JSON contract validation.
#[derive(Debug, Clone, PartialEq, Eq)]
pub enum JsonContractError {
    InvalidSchemaId { schema: String, reason: &'static str },
    DuplicateSchemaId { schema: String },
    DuplicateRustTypeOwner { rust_type: String },
    TopLevelDocumentRequired,
    MissingSchemaField,
    NonStringSchemaField,
    SchemaMismatch { expected: String, actual: String },
    Serialization(String),
}

fn is_name_char_exec(c: char) -> (r: bool)
    ensures
        r == is_name_char(c),
{
    ('a' <= c && c <= 'z') || ('0' <= c && c <= '9') || c == '_' || c == '-'
}

fn is_name_segment_exec(s: &[char]) -> (r: bool)
    ensures
        r == is_name_segment(s@),
{
    if s.len() == 0 {
        return false;
    }
    let mut i: usize = 0;
    while i < s.len()
        invariant
            i <= s@.len(),
            forall|j: int| 0 <= j < i ==> is_name_char(#[trigger] s@[j]),
        decreases s.len() - i,
    {
        if !is_name_char_exec(s[i]) {
            return false;
        }
        i = i + 1;
    }
    true
}

pub(crate) fn is_qualifier_exec(s: &[char]) -> (r: bool)
    ensures
        r == is_qualifier(s@),
{
    if s.len() == 0 {
        return false;
    }
    let mut i: usize = 0;
    while i < s.len()
        invariant
            i <= s@.len(),
            forall|j: int| 0 <= j < i ==> is_qualifier_char(#[trigger] s@[j]),
        decreases s.len() - i,
    {
        let c = s[i];
        if !(('a' <= c && c <= 'z') || ('0' <= c && c <= '9')) {
            return false;
        }
        i = i + 1;
    }
    true
}

pub(crate) fn is_athanor(s: &[char]) -> (r: bool)
    ensures
        r == (s@ == athanor_segment()),
{
    let expected = vec!['a', 't', 'h', 'a', 'n', 'o', 'r'];
    assert(expected@ =~= athanor_segment());
    crate::text::chars_eq(s, expected.as_slice())
}

/// Checks that the segments between the first and the last are name segments.
pub(crate) fn names_valid_exec(segs: &Vec<Vec<char>>, view: Ghost<Seq<Seq<char>>>) -> (r: bool)
    requires
        segs@.len() == view@.len(),
        forall|i: int| 0 <= i < segs@.len() ==> (#[trigger] segs@[i])@ == view@[i],
        view@.len() >= 1,
    ensures
        r == names_valid(view@),
{
    let n = segs.len();
    let mut i: usize = 1;
    while i < n - 1
        invariant
            n == segs@.len(),
            n == view@.len(),
            n >= 1,
            1 <= i,
            i <= n || n == 1,
            forall|k: int| 0 <= k < segs@.len() ==> (#[trigger] segs@[k])@ == view@[k],
            forall|k: int| 1 <= k < i && k < n - 1 ==> is_name_segment(#[trigger] view@[k]),
        decreases n - i,
    {
        if !is_name_segment_exec(segs[i].as_slice()) {
            assert(!is_name_segment(view@[i as int]));
            return false;
        }
        i = i + 1;
    }
    true
}

pub(crate) fn drop_first_chars(s: &[char]) -> (r: Vec<char>)
    requires
        s@.len() >= 1,
    ensures
        r@ == s@.drop_first(),
{
    let r = crate::text::slice_chars(s, 1, s.len());
    assert(r@ =~= s@.drop_first());
    r
}

fn plain_version_major_exec(v: &[char]) -> (r: Option<u32>)
    ensures
        r == plain_version_major(v@),
{
    if v.len() == 0 || v[0] != 'v' {
        return None;
    }
    let digits = drop_first_chars(v);
    proof {
        if all_digits(digits@) {
            lemma_digits_value_prefix(digits@, 0);
        }
    }
    match parse_digits_u32(digits.as_slice()) {
        Some(m) => if m > 0 {
            Some(m)
        } else {
            None
        },
        None => None,
    }
}

/// Validates a schema id of the form `athanor.<name>.v<major>` and returns its major.
pub fn validate_schema_id(schema: &str) -> (r: Result<u32, JsonContractError>)
    ensures
        match r {
            Ok(major) => base_schema_major(schema@) == Some(major),
            Err(e) => {
                &&& base_schema_major(schema@) is None
                &&& base_schema_defect(schema@) is Some
                &&& e matches JsonContractError::InvalidSchemaId { schema: s, reason }
                &&& s@ == schema@
                &&& reason == defect_reason(base_schema_defect(schema@).unwrap())
            },
        },
{
    let chars = to_chars(schema);
    let segs = split_chars(chars.as_slice(), '.');
    let ghost view = split_on(schema@, '.');
    proof {
        lemma_split_on_nonempty(schema@, '.');
    }
    if segs.len() < 3 || !is_athanor(segs[0].as_slice()) {
        return Err(
            JsonContractError::InvalidSchemaId {
                schema: String::from_str(schema),
                reason: "expected athanor.<name>.v<major>",
            },
        );
    }
    if !names_valid_exec(&segs, Ghost(view)) {
        return Err(
            JsonContractError::InvalidSchemaId {
                schema: String::from_str(schema),
                reason: "name segments must use lowercase ASCII, digits, '_' or '-'",
            },
        );
    }
    let last = segs.len() - 1;
    match plain_version_major_exec(segs[last].as_slice()) {
        Some(major) => Ok(major),
        None => Err(
            JsonContractError::InvalidSchemaId {
                schema: String::from_str(schema),
                reason: "version must be a positive decimal major prefixed with 'v'",
            },
        ),
    }
}

/// Which rule a registry entry breaks first.
pub enum RegistryDefect {
    InvalidSchema,
    DuplicateSchema,
    DuplicateRustType,
}

/// The defect of the entry at `i`, given that every earlier entry was accepted.
pub open spec fn registry_defect(cs: Seq<JsonContractDescriptor>, i: int) -> Option<RegistryDefect> {
    if base_schema_major(cs[i].schema@) is None {
        Some(RegistryDefect::InvalidSchema)
    } else if exists|j: int| 0 <= j < i && (#[trigger] cs[j]).schema@ == cs[i].schema@ {
        Some(RegistryDefect::DuplicateSchema)
    } else if exists|j: int| 0 <= j < i && (#[trigger] cs[j]).rust_type@ == cs[i].rust_type@ {
        Some(RegistryDefect::DuplicateRustType)
    } else {
        None
    }
}

/// Whether `e` is the error reported for the entry `c` with defect `d`.
pub open spec fn registry_error(e: JsonContractError, c: JsonContractDescriptor, d: RegistryDefect) -> bool {
    match d {
        RegistryDefect::InvalidSchema => {
            &&& e matches JsonContractError::InvalidSchemaId { schema, reason }
            &&& schema@ == c.schema@
            &&& reason == defect_reason(base_schema_defect(c.schema@).unwrap())
        },
        RegistryDefect::DuplicateSchema => {
            &&& e matches JsonContractError::DuplicateSchemaId { schema }
            &&& schema@ == c.schema@
        },
        RegistryDefect::DuplicateRustType => {
            &&& e matches JsonContractError::DuplicateRustTypeOwner { rust_type }
            &&& rust_type@ == c.rust_type@
        },
    }
}

/// A registry is valid when every schema id is valid and neither a schema id nor an owning
/// Rust type occurs twice.
pub open spec fn registry_valid(cs: Seq<JsonContractDescriptor>) -> bool {
    forall|i: int| 0 <= i < cs.len() ==> registry_defect(cs, i) is None
}

/// Validates a contract registry; the error names the first entry that breaks a rule.
pub fn validate_contract_registry(contracts: &[JsonContractDescriptor]) -> (r: Result<(), JsonContractError>)
    ensures
        match r {
            Ok(()) => registry_valid(contracts@),
            Err(e) => exists|i: int|
                #![trigger registry_defect(contracts@, i)]
                0 <= i < contracts@.len()
                && (forall|j: int| 0 <= j < i ==> registry_defect(contracts@, j) is None)
                && registry_defect(contracts@, i) is Some
                && registry_error(e, contracts@[i], registry_defect(contracts@, i).unwrap()),
        },
{
    let mut i: usize = 0;
    while i < contracts.len()
        invariant
            i <= contracts@.len(),
            forall|j: int| 0 <= j < i ==> registry_defect(contracts@, j) is None,
        decreases contracts.len() - i,
    {
        let contract = contracts[i];
        let checked = validate_schema_id(contract.schema);
        if let Err(e) = checked {
            assert(registry_defect(contracts@, i as int) is Some);
            return Err(e);
        }
        let mut j: usize = 0;
        while j < i
            invariant
                j <= i < contracts@.len(),
                contract == contracts@[i as int],
                base_schema_major(contract.schema@) is Some,
                forall|k: int| 0 <= k < i ==> registry_defect(contracts@, k) is None,
                forall|k: int| 0 <= k < j ==> contracts@[k].schema@ != contract.schema@,
            decreases i - j,
        {
            if str_eq(contracts[j].schema, contract.schema) {
                assert(contracts@[j as int].schema@ == contracts@[i as int].schema@);
                assert(registry_defect(contracts@, i as int) == Some(RegistryDefect::DuplicateSchema));
                return Err(JsonContractError::DuplicateSchemaId { schema: String::from_str(contract.schema) });
            }
            j = j + 1;
        }
        let mut j: usize = 0;
        while j < i
            invariant
                j <= i < contracts@.len(),
                contract == contracts@[i as int],
                base_schema_major(contract.schema@) is Some,
                forall|k: int| 0 <= k < i ==> registry_defect(contracts@, k) is None,
                forall|k: int| 0 <= k < i ==> contracts@[k].schema@ != contract.schema@,
                forall|k: int| 0 <= k < j ==> contracts@[k].rust_type@ != contract.rust_type@,
            decreases i - j,
        {
            if str_eq(contracts[j].rust_type, contract.rust_type) {
                assert(contracts@[j as int].rust_type@ == contracts@[i as int].rust_type@);
                assert(registry_defect(contracts@, i as int) == Some(RegistryDefect::DuplicateRustType));
                return Err(
                    JsonContractError::DuplicateRustTypeOwner { rust_type: String::from_str(contract.rust_type) },
                );
            }
            j = j + 1;
        }
        assert(registry_defect(contracts@, i as int) is None);
        i = i + 1;
    }
    Ok(())
}

/// The top-level `schema` field of a serialized document, as far as validation reads it.
#[derive(Debug, Clone, PartialEq, Eq)]
pub enum TopLevelSchema {
    /// The document is not a JSON object.
    NotObject,
    /// The object has no `schema` field.
    Missing,
    /// The `schema` field is not a string.
    NonString,
    /// The `schema` field holds this string.
    Text(String),
}

/// Validates the top-level `schema` field of a serialized contract against the expected id.
pub fn validate_contract_document(expected_schema: &str, document: &TopLevelSchema) -> (r: Result<(), JsonContractError>)
    ensures
        match r {
            Ok(()) => {
                &&& base_schema_major(expected_schema@) is Some
                &&& document matches TopLevelSchema::Text(actual)
                &&& actual@ == expected_schema@
            },
            Err(e) => if base_schema_major(expected_schema@) is None {
                &&& e matches JsonContractError::InvalidSchemaId { schema, reason }
                &&& schema@ == expected_schema@
                &&& reason == defect_reason(base_schema_defect(expected_schema@).unwrap())
            } else {
                match document {
                    TopLevelSchema::NotObject => e is TopLevelDocumentRequired,
                    TopLevelSchema::Missing => e is MissingSchemaField,
                    TopLevelSchema::NonString => e is NonStringSchemaField,
                    TopLevelSchema::Text(actual) => {
                        &&& actual@ != expected_schema@
                        &&& e matches JsonContractError::SchemaMismatch { expected, actual: found }
                        &&& expected@ == expected_schema@
                        &&& found@ == actual@
                    },
                }
            },
        },
{
    match validate_schema_id(expected_schema) {
        Err(e) => {
            return Err(e);
        },
        Ok(_) => {},
    }
    match document {
        TopLevelSchema::NotObject => Err(JsonContractError::TopLevelDocumentRequired),
        TopLevelSchema::Missing => Err(JsonContractError::MissingSchemaField),
        TopLevelSchema::NonString => Err(JsonContractError::NonStringSchemaField),
        TopLevelSchema::Text(actual) => {
            if str_eq(actual.as_str(), expected_schema) {
                Ok(())
            } else {
                Err(
                    JsonContractError::SchemaMismatch {
                        expected: String::from_str(expected_schema),
                        actual: actual.clone(),
                    },
                )
            }
        },
    }
}


pub const OVERVIEW_SCHEMA_V1: &'static str = "athanor.overview.v1";
pub const SEARCH_SCHEMA_V1: &'static str = "athanor.search.v1";
pub const ENTITY_EXPLANATION_SCHEMA_V1: &'static str = "athanor.entity_explanation.v1";
pub const IMPACT_ANALYSIS_SCHEMA_V1: &'static str = "athanor.impact_analysis.v1";
pub const DIAGNOSTIC_CHECK_SCHEMA_V1: &'static str = "athanor.diagnostic_check.v1";
pub const AFFECTED_CHECK_SCHEMA_V1: &'static str = "athanor.affected_check.v1";
pub const OPERATIONS_DOCS_CHECK_SCHEMA_V1: &'static str = "athanor.operations_docs_check.v1";
pub const COVERAGE_SCHEMA_V1: &'static str = "athanor.coverage.v1";
pub const CAPABILITIES_SCHEMA_V1: &'static str = "athanor.capabilities.v1";
pub const CHANGE_MAP_SCHEMA_V1: &'static str = "athanor.change_map.v1";
pub const CONTEXT_PACK_SCHEMA_V1: &'static str = "athanor.context_pack.v1";
pub const INDEX_REPORT_SCHEMA_V1: &'static str = "athanor.index_report.v1";
pub const INDEX_BENCHMARK_SCHEMA_V1: &'static str = "athanor.index_benchmark.v1";
pub const CHANGED_VALIDATION_SCHEMA_V1: &'static str = "athanor.changed_validation.v1";
pub const GENERATION_SCHEMA_V1: &'static str = "athanor.generation.v1";
pub const CONFIG_VALIDATE_SCHEMA_V1: &'static str = "athanor.config_validate.v1";
pub const CONFIG_DOCTOR_SCHEMA_V1: &'static str = "athanor.config_doctor.v1";
pub const DOCS_CHECK_SCHEMA_V1: &'static str = "athanor.docs_check.v1";
pub const DOCS_DRIFT_SCHEMA_V1: &'static str = "athanor.docs_drift.v1";
pub const DOCS_APPLY_PATCH_SCHEMA_V1: &'static str = "athanor.docs_apply_patch.v1";
pub const API_CONTRACT_DIFF_SCHEMA_V2: &'static str = "athanor.api_contract_diff.v2";
pub const API_CLEANUP_SCHEMA_V1: &'static str = "athanor.api_cleanup.v1";
pub const WIKI_REPORT_SCHEMA_V1: &'static str = "athanor.wiki_report.v1";
pub const HTML_REPORT_SCHEMA_V1: &'static str = "athanor.html_report.v1";
pub const GRAPH_EXPORT_SCHEMA_V1: &'static str = "athanor.graph_export.v1";
pub const GRAPH_RELATED_SCHEMA_V1: &'static str = "athanor.graph_related.v1";
pub const GRAPH_PATH_SCHEMA_V1: &'static str = "athanor.graph_path.v1";
pub const GRAPH_HUBS_SCHEMA_V1: &'static str = "athanor.graph_hubs.v1";
pub const GRAPH_PAGERANK_SCHEMA_V1: &'static str = "athanor.graph_pagerank.v1";
pub const GRAPH_CYCLES_SCHEMA_V1: &'static str = "athanor.graph_cycles.v1";
pub const RUSTOK_ARCHITECTURE_CONTEXT_SCHEMA_V1: &'static str = "athanor.rustok_architecture_context.v1";
pub const RUSTOK_FFA_AUDIT_SCHEMA_V1: &'static str = "athanor.rustok_ffa_audit.v1";
pub const RUSTOK_FFA_SURFACE_GRAPH_SCHEMA_V1: &'static str = "athanor.rustok_ffa_surface_graph.v1";
pub const RUSTOK_FFA_VIOLATIONS_GRAPH_SCHEMA_V1: &'static str = "athanor.rustok_ffa_violations_graph.v1";
pub const RUSTOK_FBA_AUDIT_SCHEMA_V1: &'static str = "athanor.rustok_fba_audit.v1";
pub const RUSTOK_FBA_MODULE_GRAPH_SCHEMA_V1: &'static str = "athanor.rustok_fba_module_graph.v1";
pub const RUSTOK_FBA_PORT_GRAPH_SCHEMA_V1: &'static str = "athanor.rustok_fba_port_graph.v1";
pub const RUSTOK_FBA_DEPENDENCIES_GRAPH_SCHEMA_V1: &'static str = "athanor.rustok_fba_dependencies_graph.v1";
pub const RUSTOK_FBA_VIOLATIONS_GRAPH_SCHEMA_V1: &'static str = "athanor.rustok_fba_violations_graph.v1";
pub const RUSTOK_PAGE_BUILDER_AUDIT_SCHEMA_V1: &'static str = "athanor.rustok_page_builder_audit.v1";
pub const RUSTOK_PAGE_BUILDER_PROVIDER_GRAPH_SCHEMA_V1: &'static str = "athanor.rustok_page_builder_provider_graph.v1";
pub const RUSTOK_PAGE_BUILDER_CONSUMER_GRAPH_SCHEMA_V1: &'static str = "athanor.rustok_page_builder_consumer_graph.v1";
pub const RUSTOK_PAGE_BUILDER_VIOLATIONS_GRAPH_SCHEMA_V1: &'static str = "athanor.rustok_page_builder_violations_graph.v1";
pub const PROJECT_REGISTRY_REPORT_SCHEMA_V1: &'static str = "athanor.project_registry_report.v1";
pub const PROJECT_RESOLUTION_SCHEMA_V1: &'static str = "athanor.project_resolution.v1";

/// The registered versioned JSON contracts: each schema id with the Rust type that owns it.
pub fn versioned_json_contracts() -> (r: Vec<JsonContractDescriptor>)
    ensures
        r@ == seq![
            JsonContractDescriptor { schema: OVERVIEW_SCHEMA_V1, rust_type: "RepositoryOverview" },
            JsonContractDescriptor { schema: SEARCH_SCHEMA_V1, rust_type: "SearchReport" },
            JsonContractDescriptor { schema: ENTITY_EXPLANATION_SCHEMA_V1, rust_type: "EntityExplanation" },
            JsonContractDescriptor { schema: IMPACT_ANALYSIS_SCHEMA_V1, rust_type: "ImpactAnalysis" },
            JsonContractDescriptor { schema: DIAGNOSTIC_CHECK_SCHEMA_V1, rust_type: "DiagnosticCheckReport" },
            JsonContractDescriptor { schema: AFFECTED_CHECK_SCHEMA_V1, rust_type: "AffectedCheckReport" },
            JsonContractDescriptor { schema: OPERATIONS_DOCS_CHECK_SCHEMA_V1, rust_type: "OperationsDocsCheckReport" },
            JsonContractDescriptor { schema: COVERAGE_SCHEMA_V1, rust_type: "CoverageReport" },
            JsonContractDescriptor { schema: CAPABILITIES_SCHEMA_V1, rust_type: "CapabilitiesReport" },
            JsonContractDescriptor { schema: CHANGE_MAP_SCHEMA_V1, rust_type: "ChangeMapReport" },
            JsonContractDescriptor { schema: CONTEXT_PACK_SCHEMA_V1, rust_type: "ContextReport" },
            JsonContractDescriptor { schema: INDEX_REPORT_SCHEMA_V1, rust_type: "IndexReport" },
            JsonContractDescriptor { schema: INDEX_BENCHMARK_SCHEMA_V1, rust_type: "BenchmarkReport" },
            JsonContractDescriptor { schema: CHANGED_VALIDATION_SCHEMA_V1, rust_type: "ChangedValidationReport" },
            JsonContractDescriptor { schema: GENERATION_SCHEMA_V1, rust_type: "GenerationReport" },
            JsonContractDescriptor { schema: CONFIG_VALIDATE_SCHEMA_V1, rust_type: "ConfigValidateReport" },
            JsonContractDescriptor { schema: CONFIG_DOCTOR_SCHEMA_V1, rust_type: "ConfigDoctorReport" },
            JsonContractDescriptor { schema: DOCS_CHECK_SCHEMA_V1, rust_type: "DocsCheckReport" },
            JsonContractDescriptor { schema: DOCS_DRIFT_SCHEMA_V1, rust_type: "DocsDriftReport" },
            JsonContractDescriptor { schema: DOCS_APPLY_PATCH_SCHEMA_V1, rust_type: "DocsApplyPatchReport" },
            JsonContractDescriptor { schema: API_CONTRACT_DIFF_SCHEMA_V2, rust_type: "ApiContractDiff" },
            JsonContractDescriptor { schema: API_CLEANUP_SCHEMA_V1, rust_type: "ApiCleanupReport" },
            JsonContractDescriptor { schema: WIKI_REPORT_SCHEMA_V1, rust_type: "WikiReport" },
            JsonContractDescriptor { schema: HTML_REPORT_SCHEMA_V1, rust_type: "HtmlReport" },
            JsonContractDescriptor { schema: GRAPH_EXPORT_SCHEMA_V1, rust_type: "GraphExport" },
            JsonContractDescriptor { schema: GRAPH_RELATED_SCHEMA_V1, rust_type: "GraphRelated" },
            JsonContractDescriptor { schema: GRAPH_PATH_SCHEMA_V1, rust_type: "GraphPath" },
            JsonContractDescriptor { schema: GRAPH_HUBS_SCHEMA_V1, rust_type: "GraphHubs" },
            JsonContractDescriptor { schema: GRAPH_PAGERANK_SCHEMA_V1, rust_type: "GraphPageRank" },
            JsonContractDescriptor { schema: GRAPH_CYCLES_SCHEMA_V1, rust_type: "GraphCycles" },
            JsonContractDescriptor { schema: RUSTOK_ARCHITECTURE_CONTEXT_SCHEMA_V1, rust_type: "RustokArchitectureContext" },
            JsonContractDescriptor { schema: RUSTOK_FFA_AUDIT_SCHEMA_V1, rust_type: "RustokFfaAudit" },
            JsonContractDescriptor { schema: RUSTOK_FFA_SURFACE_GRAPH_SCHEMA_V1, rust_type: "RustokFfaSurfaceGraphReport" },
            JsonContractDescriptor { schema: RUSTOK_FFA_VIOLATIONS_GRAPH_SCHEMA_V1, rust_type: "RustokFfaViolationsGraphReport" },
            JsonContractDescriptor { schema: RUSTOK_FBA_AUDIT_SCHEMA_V1, rust_type: "RustokFbaAudit" },
            JsonContractDescriptor { schema: RUSTOK_FBA_MODULE_GRAPH_SCHEMA_V1, rust_type: "RustokFbaModuleGraphReport" },
            JsonContractDescriptor { schema: RUSTOK_FBA_PORT_GRAPH_SCHEMA_V1, rust_type: "RustokFbaPortGraphReport" },
            JsonContractDescriptor { schema: RUSTOK_FBA_DEPENDENCIES_GRAPH_SCHEMA_V1, rust_type: "RustokFbaDependenciesGraphReport" },
            JsonContractDescriptor { schema: RUSTOK_FBA_VIOLATIONS_GRAPH_SCHEMA_V1, rust_type: "RustokFbaViolationsGraphReport" },
            JsonContractDescriptor { schema: RUSTOK_PAGE_BUILDER_AUDIT_SCHEMA_V1, rust_type: "RustokPageBuilderAudit" },
            JsonContractDescriptor { schema: RUSTOK_PAGE_BUILDER_PROVIDER_GRAPH_SCHEMA_V1, rust_type: "RustokPageBuilderProviderGraphReport" },
            JsonContractDescriptor { schema: RUSTOK_PAGE_BUILDER_CONSUMER_GRAPH_SCHEMA_V1, rust_type: "RustokPageBuilderConsumerGraphReport" },
            JsonContractDescriptor { schema: RUSTOK_PAGE_BUILDER_VIOLATIONS_GRAPH_SCHEMA_V1, rust_type: "RustokPageBuilderViolationsGraphReport" },
            JsonContractDescriptor { schema: PROJECT_REGISTRY_REPORT_SCHEMA_V1, rust_type: "ProjectRegistryReport" },
            JsonContractDescriptor { schema: PROJECT_RESOLUTION_SCHEMA_V1, rust_type: "ProjectResolutionReport" },
        ],
{
    vec![
        JsonContractDescriptor { schema: OVERVIEW_SCHEMA_V1, rust_type: "RepositoryOverview" },
        JsonContractDescriptor { schema: SEARCH_SCHEMA_V1, rust_type: "SearchReport" },
        JsonContractDescriptor { schema: ENTITY_EXPLANATION_SCHEMA_V1, rust_type: "EntityExplanation" },
        JsonContractDescriptor { schema: IMPACT_ANALYSIS_SCHEMA_V1, rust_type: "ImpactAnalysis" },
        JsonContractDescriptor { schema: DIAGNOSTIC_CHECK_SCHEMA_V1, rust_type: "DiagnosticCheckReport" },
        JsonContractDescriptor { schema: AFFECTED_CHECK_SCHEMA_V1, rust_type: "AffectedCheckReport" },
        JsonContractDescriptor { schema: OPERATIONS_DOCS_CHECK_SCHEMA_V1, rust_type: "OperationsDocsCheckReport" },
        JsonContractDescriptor { schema: COVERAGE_SCHEMA_V1, rust_type: "CoverageReport" },
        JsonContractDescriptor { schema: CAPABILITIES_SCHEMA_V1, rust_type: "CapabilitiesReport" },
        JsonContractDescriptor { schema: CHANGE_MAP_SCHEMA_V1, rust_type: "ChangeMapReport" },
        JsonContractDescriptor { schema: CONTEXT_PACK_SCHEMA_V1, rust_type: "ContextReport" },
        JsonContractDescriptor { schema: INDEX_REPORT_SCHEMA_V1, rust_type: "IndexReport" },
        JsonContractDescriptor { schema: INDEX_BENCHMARK_SCHEMA_V1, rust_type: "BenchmarkReport" },
        JsonContractDescriptor { schema: CHANGED_VALIDATION_SCHEMA_V1, rust_type: "ChangedValidationReport" },
        JsonContractDescriptor { schema: GENERATION_SCHEMA_V1, rust_type: "GenerationReport" },
        JsonContractDescriptor { schema: CONFIG_VALIDATE_SCHEMA_V1, rust_type: "ConfigValidateReport" },
        JsonContractDescriptor { schema: CONFIG_DOCTOR_SCHEMA_V1, rust_type: "ConfigDoctorReport" },
        JsonContractDescriptor { schema: DOCS_CHECK_SCHEMA_V1, rust_type: "DocsCheckReport" },
        JsonContractDescriptor { schema: DOCS_DRIFT_SCHEMA_V1, rust_type: "DocsDriftReport" },
        JsonContractDescriptor { schema: DOCS_APPLY_PATCH_SCHEMA_V1, rust_type: "DocsApplyPatchReport" },
        JsonContractDescriptor { schema: API_CONTRACT_DIFF_SCHEMA_V2, rust_type: "ApiContractDiff" },
        JsonContractDescriptor { schema: API_CLEANUP_SCHEMA_V1, rust_type: "ApiCleanupReport" },
        JsonContractDescriptor { schema: WIKI_REPORT_SCHEMA_V1, rust_type: "WikiReport" },
        JsonContractDescriptor { schema: HTML_REPORT_SCHEMA_V1, rust_type: "HtmlReport" },
        JsonContractDescriptor { schema: GRAPH_EXPORT_SCHEMA_V1, rust_type: "GraphExport" },
        JsonContractDescriptor { schema: GRAPH_RELATED_SCHEMA_V1, rust_type: "GraphRelated" },
        JsonContractDescriptor { schema: GRAPH_PATH_SCHEMA_V1, rust_type: "GraphPath" },
        JsonContractDescriptor { schema: GRAPH_HUBS_SCHEMA_V1, rust_type: "GraphHubs" },
        JsonContractDescriptor { schema: GRAPH_PAGERANK_SCHEMA_V1, rust_type: "GraphPageRank" },
        JsonContractDescriptor { schema: GRAPH_CYCLES_SCHEMA_V1, rust_type: "GraphCycles" },
        JsonContractDescriptor { schema: RUSTOK_ARCHITECTURE_CONTEXT_SCHEMA_V1, rust_type: "RustokArchitectureContext" },
        JsonContractDescriptor { schema: RUSTOK_FFA_AUDIT_SCHEMA_V1, rust_type: "RustokFfaAudit" },
        JsonContractDescriptor { schema: RUSTOK_FFA_SURFACE_GRAPH_SCHEMA_V1, rust_type: "RustokFfaSurfaceGraphReport" },
        JsonContractDescriptor { schema: RUSTOK_FFA_VIOLATIONS_GRAPH_SCHEMA_V1, rust_type: "RustokFfaViolationsGraphReport" },
        JsonContractDescriptor { schema: RUSTOK_FBA_AUDIT_SCHEMA_V1, rust_type: "RustokFbaAudit" },
        JsonContractDescriptor { schema: RUSTOK_FBA_MODULE_GRAPH_SCHEMA_V1, rust_type: "RustokFbaModuleGraphReport" },
        JsonContractDescriptor { schema: RUSTOK_FBA_PORT_GRAPH_SCHEMA_V1, rust_type: "RustokFbaPortGraphReport" },
        JsonContractDescriptor { schema: RUSTOK_FBA_DEPENDENCIES_GRAPH_SCHEMA_V1, rust_type: "RustokFbaDependenciesGraphReport" },
        JsonContractDescriptor { schema: RUSTOK_FBA_VIOLATIONS_GRAPH_SCHEMA_V1, rust_type: "RustokFbaViolationsGraphReport" },
        JsonContractDescriptor { schema: RUSTOK_PAGE_BUILDER_AUDIT_SCHEMA_V1, rust_type: "RustokPageBuilderAudit" },
        JsonContractDescriptor { schema: RUSTOK_PAGE_BUILDER_PROVIDER_GRAPH_SCHEMA_V1, rust_type: "RustokPageBuilderProviderGraphReport" },
        JsonContractDescriptor { schema: RUSTOK_PAGE_BUILDER_CONSUMER_GRAPH_SCHEMA_V1, rust_type: "RustokPageBuilderConsumerGraphReport" },
        JsonContractDescriptor { schema: RUSTOK_PAGE_BUILDER_VIOLATIONS_GRAPH_SCHEMA_V1, rust_type: "RustokPageBuilderViolationsGraphReport" },
        JsonContractDescriptor { schema: PROJECT_REGISTRY_REPORT_SCHEMA_V1, rust_type: "ProjectRegistryReport" },
        JsonContractDescriptor { schema: PROJECT_RESOLUTION_SCHEMA_V1, rust_type: "ProjectResolutionReport" },
    ]
}

} // verus!
