//! Verified core of the Athanor application services.

use vstd::prelude::*;

pub mod cancellation;
pub mod generation;
pub mod graph;
pub mod impact;
pub mod impact_target;
pub mod index_run;
pub mod index_state;
pub mod init;
pub mod invalidation;
pub mod json_contract;
pub mod json_contract_base;
pub mod legacy_factory;
pub mod local_source;
pub mod overview;
pub mod pagerank;
pub mod pointer_publication;
pub mod publication;
pub mod recovery;
pub mod rustok;
pub mod rustok_audit;
pub mod rustok_fba_graph;
pub mod rustok_graph;
pub mod rustok_page_builder_graph;
pub mod snapshot;
pub mod state_selection;
pub mod sort;
pub mod strset;
pub mod text;

verus! {

} // verus!
