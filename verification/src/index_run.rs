//! What an index run reports, and the decisions it makes around the pipeline: where
//! validation output goes, and whether a run has anything to publish.

use vstd::prelude::*;
use crate::publication::{join_path, join_path_str};
use crate::text::str_eq;

verus! {

pub const VALIDATION_RESULT_SCHEMA: &'static str = "athanor.validation_result.v1";
pub const INDEX_REPORT_METRICS_SCHEMA: &'static str = "athanor.index_report_metrics.v1";

/// What to index and how.
pub struct IndexOptions {
    pub root: String,
    pub validation_report: Option<String>,
    pub validation_result: Option<String>,
    pub validate_only: bool,
}

/// How long the parts of an index run took, in milliseconds.
pub struct IndexReportMetrics {
    pub schema: String,
    pub total_ms: u64,
    pub read_model_write_ms: u64,
    pub validation_result_write_ms: u64,
    pub index_state_write_ms: u64,
}

/// What an index run did.
pub struct IndexReport {
    pub root: String,
    pub snapshot: String,
    pub files_indexed: usize,
    pub output_dir: String,
    pub changed_files: usize,
    pub unchanged_files: usize,
    pub removed_files: usize,
    pub validation_report: String,
    pub validation_result: Option<String>,
    pub validate_only: bool,
    pub metrics: IndexReportMetrics,
}

/// Where the validation report goes: the configured path, else its place under the
/// current generated output.
pub open spec fn report_path(root: Seq<char>, configured: Option<Seq<char>>) -> Seq<char> {
    match configured {
        Some(p) => p,
        None => join_path(root, ".athanor/generated/current/validation-report.json"@),
    }
}

/// Where the validation result goes: the configured path, else its place under the
/// current generated output.
pub open spec fn result_path(root: Seq<char>, configured: Option<Seq<char>>) -> Seq<char> {
    match configured {
        Some(p) => p,
        None => join_path(root, ".athanor/generated/current/validation-result.json"@),
    }
}

/// The optional path as characters.
pub open spec fn opt_path(o: Option<&str>) -> Option<Seq<char>> {
    match o {
        None => None,
        Some(x) => Some(x@),
    }
}

/// Where the validation report of a run under `root` goes.
pub fn validation_report_path(root: &str, configured: Option<&str>) -> (r: String)
    ensures
        r@ == report_path(root@, opt_path(configured)),
{
    match configured {
        Some(p) => String::from_str(p),
        None => join_path_str(root, ".athanor/generated/current/validation-report.json"),
    }
}

/// Where the validation result of a run under `root` goes.
pub fn validation_result_path(root: &str, configured: Option<&str>) -> (r: String)
    ensures
        r@ == result_path(root@, opt_path(configured)),
{
    match configured {
        Some(p) => String::from_str(p),
        None => join_path_str(root, ".athanor/generated/current/validation-result.json"),
    }
}

/// A run found no change: the pipeline gave back the snapshot that the index state
/// already records, with no changed and no removed file, so there is nothing to publish.
pub open spec fn nothing_to_publish(previous: Option<Seq<char>>, snapshot: Seq<char>, changed: nat, removed: nat) -> bool {
    previous == Some(snapshot) && changed == 0 && removed == 0
}

/// Whether a run reuses the snapshot the index state records and has nothing to publish.
pub fn reuses_previous_snapshot(previous: Option<&str>, snapshot: &str, changed: usize, removed: usize) -> (r: bool)
    ensures
        r == nothing_to_publish(opt_path(previous), snapshot@, changed as nat, removed as nat),
{
    match previous {
        Some(p) => str_eq(p, snapshot) && changed == 0 && removed == 0,
        None => false,
    }
}

/// A duration in whole milliseconds, capped at the largest `u64`.
pub fn elapsed_ms(millis: u128) -> (r: u64)
    ensures
        r == if millis > u64::MAX as u128 { u64::MAX as int } else { millis as int },
{
    if millis > u64::MAX as u128 {
        u64::MAX
    } else {
        millis as u64
    }
}

} // verus!
