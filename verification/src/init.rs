//! Setting up a project: the directories and configuration file that a new project
//! gets, and the configuration it starts with.

use vstd::prelude::*;
use crate::publication::{join_path, join_path_str};

verus! {

/// Where to set up a project.
pub struct InitOptions {
    pub root: String,
}

/// What setting up a project created.
pub struct InitReport {
    pub root: String,
    pub created: Vec<String>,
}

/// The configuration a new project starts with.
pub const DEFAULT_CONFIG: &'static str = "# Athanor project configuration\n\n[docs]\neditable_path = \"docs\"\n\n[docs.completeness]\nrequired_fields = [\"id\", \"kind\", \"language\", \"source_language\", \"status\"]\nallowed_statuses = [\"active\", \"implemented\", \"planned\", \"draft\", \"verified\"]\nminimum_diagnostic_severity = \"medium\"\nrequire_current_snapshot = false\n\n[api]\nenabled = true\nsource_of_truth = \"hybrid\"\nstrict = true\nfail_on_missing_docs = true\nfail_on_openapi_mismatch = true\nfail_on_undocumented_status_code = true\n\n[api.retention]\nauto_cleanup = false\nkeep_snapshots = 2\nkeep_diffs = 2\n\n[storage]\nmode = \"jsonl\"\npath = \".athanor/store/canonical/jsonl\"\n\n[adapters]\nallow_external_process = false\nexternal_process_allowlist = []\nexternal_process_sandbox = \"disabled\"\n\n[pipeline]\nextraction_concurrency = 16\nmax_extraction_bytes_in_flight = 67108864\nmax_snapshot_batch_objects = 1000000\nmax_snapshot_batch_bytes = 536870912\n";

/// The configuration a new project starts with.
pub fn default_config() -> (r: &'static str)
    ensures
        r@ == DEFAULT_CONFIG@,
{
    DEFAULT_CONFIG
}

/// The directories a project needs under `root`, parents first.
pub open spec fn init_directories(root: Seq<char>) -> Seq<Seq<char>> {
    let athanor = join_path(root, ".athanor"@);
    let knowledge = join_path(athanor, "knowledge"@);
    seq![athanor, knowledge, join_path(knowledge, "docs"@), join_path(athanor, "generated"@)]
}

/// The configuration file of a project under `root`.
pub open spec fn init_config_path(root: Seq<char>) -> Seq<char> {
    join_path(root, "athanor.toml"@)
}

/// The directories a project needs, parents first, each created where it is missing,
/// and the configuration file, written with `DEFAULT_CONFIG` where it is missing.
pub fn init_plan(root: &str) -> (r: (Vec<String>, String))
    ensures
        r.0@.len() == 4,
        forall|i: int| 0 <= i < 4 ==> (#[trigger] r.0@[i])@ == init_directories(root@)[i],
        r.1@ == init_config_path(root@),
{
    let athanor = join_path_str(root, ".athanor");
    let knowledge = join_path_str(athanor.as_str(), "knowledge");
    let docs = join_path_str(knowledge.as_str(), "docs");
    let generated = join_path_str(athanor.as_str(), "generated");
    let config = join_path_str(root, "athanor.toml");
    (vec![athanor, knowledge, docs, generated], config)
}

} // verus!
