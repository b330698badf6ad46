//! Change impact: which entities a change to some entities reaches along the relations
//! that carry impact, by which path, and which files and diagnostics it touches.

use vstd::prelude::*;
use crate::json_contract_base::IMPACT_ANALYSIS_SCHEMA_V1;
use crate::snapshot::{
    copy_diagnostic, copy_entity, copy_relation, entity_index, find_entity_by_id, same_diagnostic, same_entity,
    same_relation, snapshot_id, snapshot_name, views, CanonicalSnapshot, Diagnostic, Entity, Relation,
};
use crate::sort::{SortKey, lemma_permutation_facts, lists_exactly, sort_by_key, sorted_by};
use crate::strset::{is_str_set, set_contains, set_insert, set_new, set_of};
use crate::text::{lemma_lex_lt_irreflexive, lemma_lex_lt_transitive, lex_lt, str_eq, str_lt};

verus! {

/// The way an impact step follows its relation.
#[derive(Clone, Copy, PartialEq, Eq, Structural)]
pub enum FlowDirection {
    Forward,
    Backward,
}

/// A relation an impact path follows, and the way it follows it.
pub struct RelationFlow {
    pub relation: Relation,
    pub direction: FlowDirection,
}

/// One end of an impact step.
pub struct ImpactPathEndpoint {
    pub entity_id: String,
    pub stable_key: String,
    pub name: String,
}

/// One step of an impact path, with both its ends.
pub struct ImpactPathStep {
    pub relation_id: String,
    pub relation_kind: String,
    pub direction: FlowDirection,
    pub from: ImpactPathEndpoint,
    pub to: ImpactPathEndpoint,
}

/// An entity a change reaches, how far away, and by which path.
pub struct ImpactedEntity {
    pub entity: Entity,
    pub depth: usize,
    pub path: Vec<RelationFlow>,
    pub path_steps: Vec<ImpactPathStep>,
}

/// The impact of a change.
pub struct ImpactAnalysis {
    pub schema: String,
    pub snapshot: String,
    pub starting_entities: Vec<Entity>,
    pub impacted_entities: Vec<ImpactedEntity>,
    pub impacted_files: Vec<String>,
    pub impacted_diagnostics: Vec<Diagnostic>,
}

/// Options of an impact query.
pub struct ImpactOptions {
    pub root: String,
    pub target: Option<String>,
    pub diff: bool,
    pub max_depth: usize,
}

/// Which ways a relation of a kind carries impact: from its source to its target, and
/// from its target back to its source.
pub open spec fn propagation(kind: Seq<char>) -> (bool, bool) {
    if kind == "calls"@ || kind == "imports"@ || kind == "implemented_by"@ || kind == "documents"@
        || kind == "documents_api"@ || kind == "documents_operation"@ || kind == "schema_for_request"@
        || kind == "schema_for_response"@ || kind == "contains"@ {
        (false, true)
    } else if kind == "tested_by"@ || kind == "covered_by_test"@ || kind == "defines"@ {
        (true, false)
    } else {
        (false, false)
    }
}

fn propagates_impact(kind: &str) -> (r: (bool, bool))
    ensures
        r == propagation(kind@),
{
    if str_eq(kind, "calls") || str_eq(kind, "imports") || str_eq(kind, "implemented_by") || str_eq(kind, "documents")
        || str_eq(kind, "documents_api") || str_eq(kind, "documents_operation") || str_eq(kind, "schema_for_request")
        || str_eq(kind, "schema_for_response") || str_eq(kind, "contains") {
        (false, true)
    } else if str_eq(kind, "tested_by") || str_eq(kind, "covered_by_test") || str_eq(kind, "defines") {
        (true, false)
    } else {
        (false, false)
    }
}

/// Relation `r` carries impact from id `a` to id `b` in direction `dir`.
pub open spec fn flow_step(rels: Seq<Relation>, r: int, dir: FlowDirection, a: Seq<char>, b: Seq<char>) -> bool {
    &&& 0 <= r < rels.len()
    &&& match dir {
        FlowDirection::Forward => propagation(rels[r].kind@).0 && rels[r].from@ == a && rels[r].to@ == b,
        FlowDirection::Backward => propagation(rels[r].kind@).1 && rels[r].to@ == a && rels[r].from@ == b,
    }
}

/// `chain` is the ids an impact path visits, from a starting entity's id, and `path` the
/// relation and way of each step.
pub open spec fn flow_chain(rels: Seq<Relation>, starts: Seq<Entity>, path: Seq<(usize, FlowDirection)>, chain: Seq<Seq<char>>) -> bool {
    &&& chain.len() == path.len() + 1
    &&& exists|i: int| 0 <= i < starts.len() && #[trigger] starts[i].id@ == chain[0]
    &&& forall|k: int| 0 <= k < path.len() ==> #[trigger] flow_step(rels, path[k].0 as int, path[k].1, chain[k], chain[k + 1])
}

/// Some chain of at most `k` impact steps leads from a starting entity to id `x`.
pub open spec fn reaches(s: CanonicalSnapshot, starts: Seq<Entity>, x: Seq<char>, k: int) -> bool {
    exists|path: Seq<(usize, FlowDirection)>, chain: Seq<Seq<char>>|
        #[trigger] flow_chain(s.relations@, starts, path, chain) && chain.last() == x && path.len() <= k
}

/// `x` is `k` impact steps from the starting entities, and no fewer.
pub open spec fn exactly(s: CanonicalSnapshot, starts: Seq<Entity>, x: Seq<char>, k: int) -> bool {
    reaches(s, starts, x, k) && !reaches(s, starts, x, k - 1)
}

proof fn lemma_reaches_zero(s: CanonicalSnapshot, starts: Seq<Entity>, x: Seq<char>)
    ensures
        reaches(s, starts, x, 0) <==> start_ids(starts).contains(x),
        !reaches(s, starts, x, -1),
{
    if start_ids(starts).contains(x) {
        let i = choose|i: int| 0 <= i < starts.len() && #[trigger] starts[i].id@ == x;
        let path = Seq::<(usize, FlowDirection)>::empty();
        let chain = seq![x];
        assert(starts[i].id@ == chain[0]);
        assert(flow_chain(s.relations@, starts, path, chain));
    }
    if reaches(s, starts, x, 0) {
        let (path, chain) = choose|path: Seq<(usize, FlowDirection)>, chain: Seq<Seq<char>>|
            #[trigger] flow_chain(s.relations@, starts, path, chain) && chain.last() == x && path.len() <= 0;
        let i = choose|i: int| 0 <= i < starts.len() && #[trigger] starts[i].id@ == chain[0];
        assert(chain.last() == chain[0]);
        assert(starts[i].id@ == x);
    }
}

proof fn lemma_reaches_step(s: CanonicalSnapshot, starts: Seq<Entity>, y: Seq<char>, x: Seq<char>, d: int, r: usize, dir: FlowDirection)
    requires
        reaches(s, starts, y, d),
        flow_step(s.relations@, r as int, dir, y, x),
    ensures
        reaches(s, starts, x, d + 1),
{
    let (path, chain) = choose|path: Seq<(usize, FlowDirection)>, chain: Seq<Seq<char>>|
        #[trigger] flow_chain(s.relations@, starts, path, chain) && chain.last() == y && path.len() <= d;
    let p2 = path.push((r, dir));
    let c2 = chain.push(x);
    assert forall|k: int| 0 <= k < p2.len() implies #[trigger] flow_step(s.relations@, p2[k].0 as int, p2[k].1, c2[k], c2[k + 1]) by {
        if k < path.len() {
            assert(p2[k] == path[k] && c2[k] == chain[k] && c2[k + 1] == chain[k + 1]);
        }
    }
    let i = choose|i: int| 0 <= i < starts.len() && #[trigger] starts[i].id@ == chain[0];
    assert(starts[i].id@ == c2[0]);
    assert(flow_chain(s.relations@, starts, p2, c2));
}

proof fn lemma_reaches_split(s: CanonicalSnapshot, starts: Seq<Entity>, x: Seq<char>, k: int)
    requires
        k >= 0,
        reaches(s, starts, x, k + 1),
    ensures
        reaches(s, starts, x, k) || exists|y: Seq<char>, r: usize, dir: FlowDirection|
            reaches(s, starts, y, k) && #[trigger] flow_step(s.relations@, r as int, dir, y, x),
{
    let (path, chain) = choose|path: Seq<(usize, FlowDirection)>, chain: Seq<Seq<char>>|
        #[trigger] flow_chain(s.relations@, starts, path, chain) && chain.last() == x && path.len() <= k + 1;
    if path.len() == k + 1 {
        let p1 = path.take(k);
        let c1 = chain.take(k + 1);
        assert forall|j: int| 0 <= j < p1.len() implies #[trigger] flow_step(s.relations@, p1[j].0 as int, p1[j].1, c1[j], c1[j + 1]) by {
            assert(p1[j] == path[j] && c1[j] == chain[j] && c1[j + 1] == chain[j + 1]);
            assert(flow_step(s.relations@, path[j].0 as int, path[j].1, chain[j], chain[j + 1]));
        }
        let i = choose|i: int| 0 <= i < starts.len() && #[trigger] starts[i].id@ == chain[0];
        assert(starts[i].id@ == c1[0]);
        assert(flow_chain(s.relations@, starts, p1, c1));
        let y = chain[k];
        assert(c1.last() == y);
        assert(reaches(s, starts, y, k));
        assert(flow_step(s.relations@, path[k].0 as int, path[k].1, chain[k], chain[k + 1]));
        assert(chain[k + 1] == x);
    }
}

/// Once no id is exactly `k` steps away, nothing lies farther than `k - 1` steps.
proof fn lemma_reaches_stable(s: CanonicalSnapshot, starts: Seq<Entity>, k: int, j: int, x: Seq<char>)
    requires
        k >= 1,
        j >= k,
        forall|y: Seq<char>| !#[trigger] exactly(s, starts, y, k),
        reaches(s, starts, x, j),
    ensures
        reaches(s, starts, x, k - 1),
    decreases j - k,
{
    if j == k {
        assert(!exactly(s, starts, x, k));
    } else {
        lemma_reaches_split(s, starts, x, j - 1);
        if reaches(s, starts, x, j - 1) {
            lemma_reaches_stable(s, starts, k, j - 1, x);
        } else {
            let (y, r, dir) = choose|y: Seq<char>, r: usize, dir: FlowDirection|
                reaches(s, starts, y, j - 1) && #[trigger] flow_step(s.relations@, r as int, dir, y, x);
            lemma_reaches_stable(s, starts, k, j - 1, y);
            lemma_reaches_step(s, starts, y, x, k - 1, r, dir);
            assert(!exactly(s, starts, x, k));
        }
    }
}

/// The first entity with the given id.
pub open spec fn first_with_id(ents: Seq<Entity>, id: Seq<char>) -> Option<int> {
    if exists|i: int| 0 <= i < ents.len() && ents[i].id@ == id {
        Some(choose|i: int| 0 <= i < ents.len() && ents[i].id@ == id && forall|j: int| 0 <= j < i ==> ents[j].id@ != id)
    } else {
        None
    }
}

pub proof fn lemma_first_with_id(ents: Seq<Entity>, id: Seq<char>)
    ensures
        match first_with_id(ents, id) {
            Some(k) => 0 <= k < ents.len() && ents[k].id@ == id && forall|j: int| 0 <= j < k ==> ents[j].id@ != id,
            None => forall|j: int| 0 <= j < ents.len() ==> ents[j].id@ != id,
        },
{
    if exists|i: int| 0 <= i < ents.len() && ents[i].id@ == id {
        let w = choose|i: int| 0 <= i < ents.len() && ents[i].id@ == id;
        let mut k = w;
        assert(exists|i: int| 0 <= i < ents.len() && ents[i].id@ == id && forall|j: int| 0 <= j < i ==> ents[j].id@ != id) by {
            lemma_first_index_exists(ents, id, w);
        }
    }
}

proof fn lemma_first_index_exists(ents: Seq<Entity>, id: Seq<char>, w: int)
    requires
        0 <= w < ents.len(),
        ents[w].id@ == id,
    ensures
        exists|i: int| 0 <= i < ents.len() && ents[i].id@ == id && forall|j: int| 0 <= j < i ==> ents[j].id@ != id,
    decreases w,
{
    if exists|j: int| 0 <= j < w && ents[j].id@ == id {
        let j = choose|j: int| 0 <= j < w && ents[j].id@ == id;
        lemma_first_index_exists(ents, id, j);
    } else {
        assert(forall|j: int| 0 <= j < w ==> ents[j].id@ != id);
    }
}

/// `ep` names entity id `id`: by the entity it names, or by the bare id where none does.
pub open spec fn endpoint_of(ep: ImpactPathEndpoint, s: CanonicalSnapshot, id: Seq<char>) -> bool {
    match entity_index(s.entities@, id) {
        Some(k) => ep.entity_id@ == s.entities@[k].id@ && ep.stable_key@ == s.entities@[k].stable_key@
            && ep.name@ == s.entities@[k].name@,
        None => ep.entity_id@ == id && ep.stable_key@ == id && ep.name@ == id,
    }
}

/// `st` reports relation `r` followed in direction `dir`.
pub open spec fn step_of(st: ImpactPathStep, s: CanonicalSnapshot, r: Relation, dir: FlowDirection) -> bool {
    &&& st.relation_id@ == r.id@
    &&& st.relation_kind@ == r.kind_label@
    &&& st.direction == dir
    &&& match dir {
        FlowDirection::Forward => endpoint_of(st.from, s, r.from@) && endpoint_of(st.to, s, r.to@),
        FlowDirection::Backward => endpoint_of(st.from, s, r.to@) && endpoint_of(st.to, s, r.from@),
    }
}

/// `x` reports an entity reached from `starts` by a path of at most `max_depth` steps.
pub open spec fn impact_of(x: ImpactedEntity, s: CanonicalSnapshot, starts: Seq<Entity>, max_depth: int) -> bool {
    exists|path: Seq<(usize, FlowDirection)>, chain: Seq<Seq<char>>| {
        &&& #[trigger] flow_chain(s.relations@, starts, path, chain)
        &&& chain.last() == x.entity.id@
        &&& x.depth == path.len()
        &&& 1 <= x.depth <= max_depth
        &&& first_with_id(s.entities@, chain.last()) matches Some(e) && same_entity(x.entity, s.entities@[e])
        &&& x.path@.len() == path.len()
        &&& forall|k: int| 0 <= k < path.len() ==> same_relation((#[trigger] x.path@[k]).relation, s.relations@[path[k].0 as int])
            && x.path@[k].direction == path[k].1
        &&& x.path_steps@.len() == path.len()
        &&& forall|k: int| 0 <= k < path.len() ==> step_of(#[trigger] x.path_steps@[k], s, s.relations@[path[k].0 as int], path[k].1)
    }
}

/// The ids of the starting entities.
pub open spec fn start_ids(starts: Seq<Entity>) -> Set<Seq<char>> {
    Set::new(|x: Seq<char>| exists|i: int| 0 <= i < starts.len() && #[trigger] starts[i].id@ == x)
}

proof fn lemma_kind_names_distinct()
    ensures
        "calls"@ != "imports"@,
        "calls"@ != "implemented_by"@,
        "calls"@ != "documents"@,
        "calls"@ != "documents_api"@,
        "calls"@ != "documents_operation"@,
        "calls"@ != "schema_for_request"@,
        "calls"@ != "schema_for_response"@,
        "calls"@ != "contains"@,
        "calls"@ != "tested_by"@,
        "calls"@ != "covered_by_test"@,
        "calls"@ != "defines"@,
        "imports"@ != "implemented_by"@,
        "imports"@ != "documents"@,
        "imports"@ != "documents_api"@,
        "imports"@ != "documents_operation"@,
        "imports"@ != "schema_for_request"@,
        "imports"@ != "schema_for_response"@,
        "imports"@ != "contains"@,
        "imports"@ != "tested_by"@,
        "imports"@ != "covered_by_test"@,
        "imports"@ != "defines"@,
        "implemented_by"@ != "documents"@,
        "implemented_by"@ != "documents_api"@,
        "implemented_by"@ != "documents_operation"@,
        "implemented_by"@ != "schema_for_request"@,
        "implemented_by"@ != "schema_for_response"@,
        "implemented_by"@ != "contains"@,
        "implemented_by"@ != "tested_by"@,
        "implemented_by"@ != "covered_by_test"@,
        "implemented_by"@ != "defines"@,
        "documents"@ != "documents_api"@,
        "documents"@ != "documents_operation"@,
        "documents"@ != "schema_for_request"@,
        "documents"@ != "schema_for_response"@,
        "documents"@ != "contains"@,
        "documents"@ != "tested_by"@,
        "documents"@ != "covered_by_test"@,
        "documents"@ != "defines"@,
        "documents_api"@ != "documents_operation"@,
        "documents_api"@ != "schema_for_request"@,
        "documents_api"@ != "schema_for_response"@,
        "documents_api"@ != "contains"@,
        "documents_api"@ != "tested_by"@,
        "documents_api"@ != "covered_by_test"@,
        "documents_api"@ != "defines"@,
        "documents_operation"@ != "schema_for_request"@,
        "documents_operation"@ != "schema_for_response"@,
        "documents_operation"@ != "contains"@,
        "documents_operation"@ != "tested_by"@,
        "documents_operation"@ != "covered_by_test"@,
        "documents_operation"@ != "defines"@,
        "schema_for_request"@ != "schema_for_response"@,
        "schema_for_request"@ != "contains"@,
        "schema_for_request"@ != "tested_by"@,
        "schema_for_request"@ != "covered_by_test"@,
        "schema_for_request"@ != "defines"@,
        "schema_for_response"@ != "contains"@,
        "schema_for_response"@ != "tested_by"@,
        "schema_for_response"@ != "covered_by_test"@,
        "schema_for_response"@ != "defines"@,
        "contains"@ != "tested_by"@,
        "contains"@ != "covered_by_test"@,
        "contains"@ != "defines"@,
        "tested_by"@ != "covered_by_test"@,
        "tested_by"@ != "defines"@,
        "covered_by_test"@ != "defines"@,
{
    reveal_strlit("calls");
    reveal_strlit("imports");
    reveal_strlit("implemented_by");
    reveal_strlit("documents");
    reveal_strlit("documents_api");
    reveal_strlit("documents_operation");
    reveal_strlit("schema_for_request");
    reveal_strlit("schema_for_response");
    reveal_strlit("contains");
    reveal_strlit("tested_by");
    reveal_strlit("covered_by_test");
    reveal_strlit("defines");
    assert("calls"@.len() != "imports"@.len());
    assert("calls"@.len() != "implemented_by"@.len());
    assert("calls"@.len() != "documents"@.len());
    assert("calls"@.len() != "documents_api"@.len());
    assert("calls"@.len() != "documents_operation"@.len());
    assert("calls"@.len() != "schema_for_request"@.len());
    assert("calls"@.len() != "schema_for_response"@.len());
    assert("calls"@.len() != "contains"@.len());
    assert("calls"@.len() != "tested_by"@.len());
    assert("calls"@.len() != "covered_by_test"@.len());
    assert("calls"@.len() != "defines"@.len());
    assert("imports"@.len() != "implemented_by"@.len());
    assert("imports"@.len() != "documents"@.len());
    assert("imports"@.len() != "documents_api"@.len());
    assert("imports"@.len() != "documents_operation"@.len());
    assert("imports"@.len() != "schema_for_request"@.len());
    assert("imports"@.len() != "schema_for_response"@.len());
    assert("imports"@.len() != "contains"@.len());
    assert("imports"@.len() != "tested_by"@.len());
    assert("imports"@.len() != "covered_by_test"@.len());
    assert("imports"@[0] != "defines"@[0]);
    assert("implemented_by"@.len() != "documents"@.len());
    assert("implemented_by"@.len() != "documents_api"@.len());
    assert("implemented_by"@.len() != "documents_operation"@.len());
    assert("implemented_by"@.len() != "schema_for_request"@.len());
    assert("implemented_by"@.len() != "schema_for_response"@.len());
    assert("implemented_by"@.len() != "contains"@.len());
    assert("implemented_by"@.len() != "tested_by"@.len());
    assert("implemented_by"@.len() != "covered_by_test"@.len());
    assert("implemented_by"@.len() != "defines"@.len());
    assert("documents"@.len() != "documents_api"@.len());
    assert("documents"@.len() != "documents_operation"@.len());
    assert("documents"@.len() != "schema_for_request"@.len());
    assert("documents"@.len() != "schema_for_response"@.len());
    assert("documents"@.len() != "contains"@.len());
    assert("documents"@[0] != "tested_by"@[0]);
    assert("documents"@.len() != "covered_by_test"@.len());
    assert("documents"@.len() != "defines"@.len());
    assert("documents_api"@.len() != "documents_operation"@.len());
    assert("documents_api"@.len() != "schema_for_request"@.len());
    assert("documents_api"@.len() != "schema_for_response"@.len());
    assert("documents_api"@.len() != "contains"@.len());
    assert("documents_api"@.len() != "tested_by"@.len());
    assert("documents_api"@.len() != "covered_by_test"@.len());
    assert("documents_api"@.len() != "defines"@.len());
    assert("documents_operation"@.len() != "schema_for_request"@.len());
    assert("documents_operation"@[0] != "schema_for_response"@[0]);
    assert("documents_operation"@.len() != "contains"@.len());
    assert("documents_operation"@.len() != "tested_by"@.len());
    assert("documents_operation"@.len() != "covered_by_test"@.len());
    assert("documents_operation"@.len() != "defines"@.len());
    assert("schema_for_request"@.len() != "schema_for_response"@.len());
    assert("schema_for_request"@.len() != "contains"@.len());
    assert("schema_for_request"@.len() != "tested_by"@.len());
    assert("schema_for_request"@.len() != "covered_by_test"@.len());
    assert("schema_for_request"@.len() != "defines"@.len());
    assert("schema_for_response"@.len() != "contains"@.len());
    assert("schema_for_response"@.len() != "tested_by"@.len());
    assert("schema_for_response"@.len() != "covered_by_test"@.len());
    assert("schema_for_response"@.len() != "defines"@.len());
    assert("contains"@.len() != "tested_by"@.len());
    assert("contains"@.len() != "covered_by_test"@.len());
    assert("contains"@.len() != "defines"@.len());
    assert("tested_by"@.len() != "covered_by_test"@.len());
    assert("tested_by"@.len() != "defines"@.len());
    assert("covered_by_test"@.len() != "defines"@.len());
}

proof fn lemma_reaches_monotone(s: CanonicalSnapshot, starts: Seq<Entity>, x: Seq<char>, a: int, b: int)
    requires
        reaches(s, starts, x, a),
        a <= b,
    ensures
        reaches(s, starts, x, b),
{
    let (path, chain) = choose|path: Seq<(usize, FlowDirection)>, chain: Seq<Seq<char>>|
        #[trigger] flow_chain(s.relations@, starts, path, chain) && chain.last() == x && path.len() <= a;
    assert(flow_chain(s.relations@, starts, path, chain) && chain.last() == x && path.len() <= b);
}

/// An entity that a relation of an upstream kind leads from, onto a starting entity, is
/// reached in one step: callers, importers, implementations, documentation, schema users
/// and containers of a changed entity are impacted by it.
pub proof fn lemma_impact_reaches_dependents(s: CanonicalSnapshot, starts: Seq<Entity>, r: int)
    requires
        0 <= r < s.relations@.len(),
        (s.relations@[r].kind@ == "calls"@ || s.relations@[r].kind@ == "imports"@ || s.relations@[r].kind@ == "implemented_by"@ || s.relations@[r].kind@ == "documents"@ || s.relations@[r].kind@ == "documents_api"@
            || s.relations@[r].kind@ == "documents_operation"@ || s.relations@[r].kind@ == "schema_for_request"@ || s.relations@[r].kind@ == "schema_for_response"@ || s.relations@[r].kind@ == "contains"@),
        start_ids(starts).contains(s.relations@[r].to@),
    ensures
        reaches(s, starts, s.relations@[r].from@, 1),
{
    lemma_kind_names_distinct();
    assert(s.relations@.len() == s.relations.len());
    assert((r as usize) as int == r);
    lemma_reaches_zero(s, starts, s.relations@[r].to@);
    assert(flow_step(s.relations@, r, FlowDirection::Backward, s.relations@[r].to@, s.relations@[r].from@));
    lemma_reaches_step(s, starts, s.relations@[r].to@, s.relations@[r].from@, 0, r as usize, FlowDirection::Backward);
}

/// An entity that a relation of a downstream kind leads to, from a starting entity, is
/// reached in one step: tests, coverage and definitions of a changed entity are impacted.
pub proof fn lemma_impact_reaches_dependencies(s: CanonicalSnapshot, starts: Seq<Entity>, r: int)
    requires
        0 <= r < s.relations@.len(),
        (s.relations@[r].kind@ == "tested_by"@ || s.relations@[r].kind@ == "covered_by_test"@ || s.relations@[r].kind@ == "defines"@),
        start_ids(starts).contains(s.relations@[r].from@),
    ensures
        reaches(s, starts, s.relations@[r].to@, 1),
{
    lemma_kind_names_distinct();
    assert(s.relations@.len() == s.relations.len());
    assert((r as usize) as int == r);
    lemma_reaches_zero(s, starts, s.relations@[r].from@);
    assert(flow_step(s.relations@, r, FlowDirection::Forward, s.relations@[r].from@, s.relations@[r].to@));
    lemma_reaches_step(s, starts, s.relations@[r].from@, s.relations@[r].to@, 0, r as usize, FlowDirection::Forward);
}

/// Impact flows against an upstream relation only, along a downstream relation only, and
/// over a relation of any other kind not at all.
pub proof fn lemma_impact_flow_directions(rels: Seq<Relation>, r: int, a: Seq<char>, b: Seq<char>)
    requires
        0 <= r < rels.len(),
    ensures
        (rels[r].kind@ == "calls"@ || rels[r].kind@ == "imports"@ || rels[r].kind@ == "implemented_by"@ || rels[r].kind@ == "documents"@ || rels[r].kind@ == "documents_api"@
            || rels[r].kind@ == "documents_operation"@ || rels[r].kind@ == "schema_for_request"@ || rels[r].kind@ == "schema_for_response"@ || rels[r].kind@ == "contains"@) ==> !flow_step(rels, r, FlowDirection::Forward, a, b),
        (rels[r].kind@ == "tested_by"@ || rels[r].kind@ == "covered_by_test"@ || rels[r].kind@ == "defines"@) ==> !flow_step(rels, r, FlowDirection::Backward, a, b),
        !(rels[r].kind@ == "calls"@ || rels[r].kind@ == "imports"@ || rels[r].kind@ == "implemented_by"@ || rels[r].kind@ == "documents"@ || rels[r].kind@ == "documents_api"@
            || rels[r].kind@ == "documents_operation"@ || rels[r].kind@ == "schema_for_request"@ || rels[r].kind@ == "schema_for_response"@ || rels[r].kind@ == "contains"@) && !(rels[r].kind@ == "tested_by"@ || rels[r].kind@ == "covered_by_test"@ || rels[r].kind@ == "defines"@) ==>
            !flow_step(rels, r, FlowDirection::Forward, a, b) && !flow_step(rels, r, FlowDirection::Backward, a, b),
{
    lemma_kind_names_distinct();
}

/// In an impact result that lists every reachable entity at its least depth, an entity that
/// an upstream relation leads from, onto a starting entity, is impacted at depth 1.
pub proof fn lemma_dependent_impacted_at_depth_one(
    s: CanonicalSnapshot,
    starts: Seq<Entity>,
    res: ImpactAnalysis,
    max_depth: int,
    r: int,
)
    requires
        max_depth >= 1,
        0 <= r < s.relations@.len(),
        (s.relations@[r].kind@ == "calls"@ || s.relations@[r].kind@ == "imports"@ || s.relations@[r].kind@ == "implemented_by"@ || s.relations@[r].kind@ == "documents"@ || s.relations@[r].kind@ == "documents_api"@
            || s.relations@[r].kind@ == "documents_operation"@ || s.relations@[r].kind@ == "schema_for_request"@ || s.relations@[r].kind@ == "schema_for_response"@ || s.relations@[r].kind@ == "contains"@),
        start_ids(starts).contains(s.relations@[r].to@),
        !start_ids(starts).contains(s.relations@[r].from@),
        first_with_id(s.entities@, s.relations@[r].from@) is Some,
        forall|i: int| 0 <= i < res.impacted_entities@.len() ==> impact_of(#[trigger] res.impacted_entities@[i], s, starts, max_depth),
        forall|i: int| 0 <= i < res.impacted_entities@.len() ==>
            !reaches(s, starts, (#[trigger] res.impacted_entities@[i]).entity.id@, res.impacted_entities@[i].depth - 1),
        forall|x: Seq<char>| reaches(s, starts, x, max_depth) && !start_ids(starts).contains(x)
            && #[trigger] first_with_id(s.entities@, x) is Some
            ==> exists|i: int| 0 <= i < res.impacted_entities@.len() && (#[trigger] res.impacted_entities@[i]).entity.id@ == x,
    ensures
        exists|i: int| 0 <= i < res.impacted_entities@.len() && (#[trigger] res.impacted_entities@[i]).entity.id@ == s.relations@[r].from@
            && res.impacted_entities@[i].depth == 1,
{
    let x = s.relations@[r].from@;
    lemma_impact_reaches_dependents(s, starts, r);
    lemma_reaches_monotone(s, starts, x, 1, max_depth);
    let i = choose|i: int| 0 <= i < res.impacted_entities@.len() && (#[trigger] res.impacted_entities@[i]).entity.id@ == x;
    assert(impact_of(res.impacted_entities@[i], s, starts, max_depth));
    if res.impacted_entities@[i].depth >= 2 {
        lemma_reaches_monotone(s, starts, x, 1, res.impacted_entities@[i].depth - 1);
    }
}

/// Impact order: nearer first, then by kind label, then by stable key.
pub open spec fn impact_before(a: ImpactedEntity, b: ImpactedEntity) -> bool {
    a.depth < b.depth || (a.depth == b.depth && (lex_lt(a.entity.kind_label@, b.entity.kind_label@)
        || (a.entity.kind_label@ == b.entity.kind_label@ && lex_lt(a.entity.stable_key@, b.entity.stable_key@))))
}

/// The files an entity touches: those of its ownership records and its source.
pub open spec fn touches_file(e: Entity, f: Seq<char>) -> bool {
    views(e.ownership@).contains(f) || (e.source matches Some(src) && src.path@ == f)
}

/// A diagnostic on some entity with an id in `ids`.
pub open spec fn diagnostic_hits(d: Diagnostic, ids: Set<Seq<char>>) -> bool {
    exists|k: int| 0 <= k < d.entities@.len() && ids.contains(#[trigger] d.entities@[k]@)
}

/// Ordering of diagnostics: by id, then position.
pub open spec fn diagnostic_before(ds: Seq<Diagnostic>, i: int, j: int) -> bool {
    lex_lt(ds[i].id@, ds[j].id@) || (ds[i].id@ == ds[j].id@ && i < j)
}

/// The endpoint that names `id`.
fn impact_path_endpoint(snapshot: &CanonicalSnapshot, id: &String) -> (r: ImpactPathEndpoint)
    ensures
        endpoint_of(r, *snapshot, id@),
{
    proof {
        crate::snapshot::lemma_entity_index(snapshot.entities@, id@);
    }
    match find_entity_by_id(&snapshot.entities, id) {
        Some(k) => {
            let e = &snapshot.entities[k];
            ImpactPathEndpoint { entity_id: e.id.clone(), stable_key: e.stable_key.clone(), name: e.name.clone() }
        },
        None => ImpactPathEndpoint { entity_id: id.clone(), stable_key: id.clone(), name: id.clone() },
    }
}

/// Reports the steps of a path.
fn impact_path(snapshot: &CanonicalSnapshot, path: &Vec<(usize, FlowDirection)>) -> (r: (Vec<RelationFlow>, Vec<ImpactPathStep>))
    requires
        forall|k: int| 0 <= k < path@.len() ==> (#[trigger] path@[k]).0 < snapshot.relations@.len(),
    ensures
        r.0@.len() == path@.len(),
        r.1@.len() == path@.len(),
        forall|k: int| 0 <= k < path@.len() ==> same_relation((#[trigger] r.0@[k]).relation, snapshot.relations@[path@[k].0 as int])
            && r.0@[k].direction == path@[k].1,
        forall|k: int| 0 <= k < path@.len() ==> step_of(#[trigger] r.1@[k], *snapshot, snapshot.relations@[path@[k].0 as int], path@[k].1),
{
    let mut flows: Vec<RelationFlow> = Vec::new();
    let mut steps: Vec<ImpactPathStep> = Vec::new();
    let mut i: usize = 0;
    while i < path.len()
        invariant
            i <= path@.len(),
            forall|k: int| 0 <= k < path@.len() ==> (#[trigger] path@[k]).0 < snapshot.relations@.len(),
            flows@.len() == i,
            steps@.len() == i,
            forall|k: int| 0 <= k < i ==> same_relation((#[trigger] flows@[k]).relation, snapshot.relations@[path@[k].0 as int])
                && flows@[k].direction == path@[k].1,
            forall|k: int| 0 <= k < i ==> step_of(#[trigger] steps@[k], *snapshot, snapshot.relations@[path@[k].0 as int], path@[k].1),
        decreases path.len() - i,
    {
        let (r, dir) = path[i];
        let rel = &snapshot.relations[r];
        let (a, b) = match dir {
            FlowDirection::Forward => (&rel.from, &rel.to),
            FlowDirection::Backward => (&rel.to, &rel.from),
        };
        let step = ImpactPathStep {
            relation_id: rel.id.clone(),
            relation_kind: rel.kind_label.clone(),
            direction: dir,
            from: impact_path_endpoint(snapshot, a),
            to: impact_path_endpoint(snapshot, b),
        };
        flows.push(RelationFlow { relation: copy_relation(rel), direction: dir });
        steps.push(step);
        i = i + 1;
    }
    (flows, steps)
}

fn copy_path(path: &Vec<(usize, FlowDirection)>) -> (r: Vec<(usize, FlowDirection)>)
    ensures
        r@ == path@,
{
    let mut r: Vec<(usize, FlowDirection)> = Vec::new();
    let mut i: usize = 0;
    while i < path.len()
        invariant
            i <= path@.len(),
            r@ == path@.subrange(0, i as int),
        decreases path.len() - i,
    {
        r.push(path[i]);
        i = i + 1;
        assert(r@ =~= path@.subrange(0, i as int));
    }
    assert(path@.subrange(0, i as int) =~= path@);
    r
}

/// Finds the first entity with the given id.
fn find_first_by_id(entities: &Vec<Entity>, id: &String) -> (r: Option<usize>)
    ensures
        match r {
            None => first_with_id(entities@, id@) is None,
            Some(k) => first_with_id(entities@, id@) == Some(k as int) && k < entities@.len(),
        },
{
    let mut i: usize = 0;
    while i < entities.len()
        invariant
            i <= entities@.len(),
            forall|j: int| 0 <= j < i ==> entities@[j].id@ != id@,
        decreases entities.len() - i,
    {
        if str_eq(entities[i].id.as_str(), id.as_str()) {
            let ghost k = choose|k: int| 0 <= k < entities@.len() && entities@[k].id@ == id@
                && forall|j: int| 0 <= j < k ==> entities@[j].id@ != id@;
            assert(k == i) by {
                if k > i {
                    assert(entities@[i as int].id@ == id@);
                }
            }
            return Some(i);
        }
        i = i + 1;
    }
    None
}

/// An entity reached during the search, with the key it is reported in.
struct RawImpact {
    depth: usize,
    kind_label: String,
    stable_key: String,
    index: usize,
    entity: usize,
    path: Vec<(usize, FlowDirection)>,
}

impl SortKey for RawImpact {
    closed spec fn key_lt(&self, other: &Self) -> bool {
        self.depth < other.depth || (self.depth == other.depth && (lex_lt(self.kind_label@, other.kind_label@)
            || (self.kind_label@ == other.kind_label@ && (lex_lt(self.stable_key@, other.stable_key@)
            || (self.stable_key@ == other.stable_key@ && self.index < other.index)))))
    }

    proof fn lemma_key_lt_transitive(a: &Self, b: &Self, c: &Self) {
        if lex_lt(a.kind_label@, b.kind_label@) && lex_lt(b.kind_label@, c.kind_label@) {
            lemma_lex_lt_transitive(a.kind_label@, b.kind_label@, c.kind_label@);
        }
        if lex_lt(a.stable_key@, b.stable_key@) && lex_lt(b.stable_key@, c.stable_key@) {
            lemma_lex_lt_transitive(a.stable_key@, b.stable_key@, c.stable_key@);
        }
    }

    proof fn lemma_key_lt_irreflexive(a: &Self) {
        lemma_lex_lt_irreflexive(a.kind_label@);
        lemma_lex_lt_irreflexive(a.stable_key@);
    }

    fn lt(&self, other: &Self) -> (r: bool) {
        if self.depth != other.depth {
            self.depth < other.depth
        } else if str_lt(self.kind_label.as_str(), other.kind_label.as_str()) {
            true
        } else if !str_eq(self.kind_label.as_str(), other.kind_label.as_str()) {
            false
        } else if str_lt(self.stable_key.as_str(), other.stable_key.as_str()) {
            true
        } else if str_eq(self.stable_key.as_str(), other.stable_key.as_str()) {
            self.index < other.index
        } else {
            false
        }
    }
}

/// A reached entity: a path of at most `max_depth` steps leads to it from `starts`, and it
/// is the first entity with that id.
spec fn raw_ok(x: RawImpact, s: CanonicalSnapshot, starts: Seq<Entity>, max_depth: int) -> bool {
    &&& x.entity < s.entities@.len()
    &&& first_with_id(s.entities@, s.entities@[x.entity as int].id@) == Some(x.entity as int)
    &&& x.kind_label@ == s.entities@[x.entity as int].kind_label@
    &&& x.stable_key@ == s.entities@[x.entity as int].stable_key@
    &&& x.depth == x.path@.len()
    &&& 1 <= x.depth <= max_depth
    &&& forall|k: int| 0 <= k < x.path@.len() ==> (#[trigger] x.path@[k]).0 < s.relations@.len()
    &&& exists|chain: Seq<Seq<char>>| #[trigger] flow_chain(s.relations@, starts, x.path@, chain)
        && chain.last() == s.entities@[x.entity as int].id@
}

/// The id of the entity a search result names.
spec fn raw_id(s: CanonicalSnapshot, x: RawImpact) -> Seq<char> {
    s.entities@[x.entity as int].id@
}

/// `path` leads from a starting entity to id `y` in `k` steps.
spec fn leads_to(s: CanonicalSnapshot, starts: Seq<Entity>, y: Seq<char>, path: Seq<(usize, FlowDirection)>, k: int) -> bool {
    &&& path.len() == k
    &&& forall|j: int| 0 <= j < path.len() ==> (#[trigger] path[j]).0 < s.relations@.len()
    &&& exists|chain: Seq<Seq<char>>| #[trigger] flow_chain(s.relations@, starts, path, chain) && chain.last() == y
}

/// The search results so far, each at most `k` steps away: reached by a path, at their
/// least number of steps, visited, with no id twice and no starting entity among them.
spec fn results_ok(s: CanonicalSnapshot, starts: Seq<Entity>, max_depth: int, raw: Seq<RawImpact>, vis: Set<Seq<char>>, k: int) -> bool {
    &&& forall|t: int| 0 <= t < raw.len() ==> raw_ok(#[trigger] raw[t], s, starts, max_depth) && raw[t].index == t
        && raw[t].depth <= k && !reaches(s, starts, raw_id(s, raw[t]), raw[t].depth - 1) && vis.contains(raw_id(s, raw[t]))
    &&& forall|t: int, u: int| 0 <= t < u < raw.len() ==> raw_id(s, #[trigger] raw[t]) != raw_id(s, #[trigger] raw[u])
    &&& forall|t: int| 0 <= t < raw.len() ==> !start_ids(starts).contains(raw_id(s, #[trigger] raw[t]))
}

/// Every entity within `k` steps, other than a starting one, is among the results.
spec fn results_complete(s: CanonicalSnapshot, starts: Seq<Entity>, raw: Seq<RawImpact>, k: int) -> bool {
    forall|x: Seq<char>| reaches(s, starts, x, k) && !start_ids(starts).contains(x) && #[trigger] first_with_id(s.entities@, x) is Some
        ==> exists|t: int| 0 <= t < raw.len() && raw_id(s, #[trigger] raw[t]) == x
}

/// The state of the search while it expands the ids `k` steps away: the visited ids are
/// those within `k` steps and those of the next layer, each exactly `k + 1` steps away
/// and, where it names an entity, among the results.
spec fn level_state(
    s: CanonicalSnapshot,
    starts: Seq<Entity>,
    max_depth: int,
    k: int,
    vis: Set<Seq<char>>,
    next: Seq<(String, Vec<(usize, FlowDirection)>)>,
    raw: Seq<RawImpact>,
) -> bool {
    &&& forall|x: Seq<char>| #[trigger] vis.contains(x) <==> (reaches(s, starts, x, k) || exists|q: int| 0 <= q < next.len() && (#[trigger] next[q]).0@ == x)
    &&& forall|q: int| 0 <= q < next.len() ==> leads_to(s, starts, (#[trigger] next[q]).0@, next[q].1@, k + 1) && exactly(s, starts, next[q].0@, k + 1)
    &&& forall|q: int| 0 <= q < next.len() ==> (first_with_id(s.entities@, (#[trigger] next[q]).0@) is Some
        ==> exists|t: int| 0 <= t < raw.len() && raw_id(s, #[trigger] raw[t]) == next[q].0@)
    &&& results_ok(s, starts, max_depth, raw, vis, k + 1)
    &&& results_complete(s, starts, raw, k)
}

/// Visits every id that one impact step leads to from `y` (`k` steps away): each new one
/// joins the next layer with its path, and the results where it names an entity.
#[verifier::rlimit(50)]
fn expand(
    snapshot: &CanonicalSnapshot,
    starts: &Vec<Entity>,
    y: &String,
    path: &Vec<(usize, FlowDirection)>,
    k: usize,
    max_depth: usize,
    visited: &mut Vec<String>,
    next: &mut Vec<(String, Vec<(usize, FlowDirection)>)>,
    raw: &mut Vec<RawImpact>,
)
    requires
        k < max_depth,
        leads_to(*snapshot, starts@, y@, path@, k as int),
        is_str_set(old(visited)@),
        level_state(*snapshot, starts@, max_depth as int, k as int, set_of(old(visited)@), old(next)@, old(raw)@),
    ensures
        is_str_set(final(visited)@),
        level_state(*snapshot, starts@, max_depth as int, k as int, set_of(final(visited)@), final(next)@, final(raw)@),
        set_of(old(visited)@).subset_of(set_of(final(visited)@)),
        forall|r: usize, dir: FlowDirection, x: Seq<char>| #[trigger] flow_step(snapshot.relations@, r as int, dir, y@, x)
            ==> set_of(final(visited)@).contains(x),
{
    let ghost s = *snapshot;
    let ghost st = starts@;
    let ghost rels = snapshot.relations@;
    let ghost v0 = set_of(visited@);
    let ghost ychain = choose|chain: Seq<Seq<char>>| #[trigger] flow_chain(rels, st, path@, chain) && chain.last() == y@;
    proof {
        assert(reaches(s, st, y@, k as int));
    }
    let m = snapshot.relations.len();
    let mut r: usize = 0;
    while r < m
        invariant
            s == *snapshot,
            st == starts@,
            rels == s.relations@,
            m == rels.len(),
            r <= m,
            k < max_depth,
            leads_to(s, st, y@, path@, k as int),
            flow_chain(rels, st, path@, ychain) && ychain.last() == y@,
            reaches(s, st, y@, k as int),
            is_str_set(visited@),
            level_state(s, st, max_depth as int, k as int, set_of(visited@), next@, raw@),
            v0.subset_of(set_of(visited@)),
            forall|r2: usize, dir: FlowDirection, x: Seq<char>| r2 < r && #[trigger] flow_step(rels, r2 as int, dir, y@, x)
                ==> set_of(visited@).contains(x),
        decreases m - r,
    {
        let rel = &snapshot.relations[r];
        let (from_to, to_from) = propagates_impact(rel.kind.as_str());
        let mut d: usize = 0;
        while d < 2
            invariant
                s == *snapshot,
                st == starts@,
                rels == s.relations@,
                m == rels.len(),
                r < m,
                *rel == rels[r as int],
                (from_to, to_from) == propagation(rel.kind@),
                d <= 2,
                k < max_depth,
                leads_to(s, st, y@, path@, k as int),
                flow_chain(rels, st, path@, ychain) && ychain.last() == y@,
                reaches(s, st, y@, k as int),
                is_str_set(visited@),
                level_state(s, st, max_depth as int, k as int, set_of(visited@), next@, raw@),
                v0.subset_of(set_of(visited@)),
                forall|r2: usize, dir: FlowDirection, x: Seq<char>| r2 < r && #[trigger] flow_step(rels, r2 as int, dir, y@, x)
                    ==> set_of(visited@).contains(x),
                forall|x: Seq<char>| d >= 1 && #[trigger] flow_step(rels, r as int, FlowDirection::Forward, y@, x) ==> set_of(visited@).contains(x),
                forall|x: Seq<char>| d >= 2 && #[trigger] flow_step(rels, r as int, FlowDirection::Backward, y@, x) ==> set_of(visited@).contains(x),
            decreases 2 - d,
        {
            let dir = if d == 0 { FlowDirection::Forward } else { FlowDirection::Backward };
            let (carries, here, there) = if d == 0 { (from_to, &rel.from, &rel.to) } else { (to_from, &rel.to, &rel.from) };
            if carries && str_eq(here.as_str(), y.as_str()) && !set_contains(visited, there) {
                let ghost x = there@;
                let ghost vb = set_of(visited@);
                let ghost nb = next@;
                let ghost rb = raw@;
                proof {
                    assert(flow_step(rels, r as int, dir, y@, x));
                    lemma_reaches_step(s, st, y@, x, k as int, r, dir);
                    assert(!reaches(s, st, x, k as int));
                }
                set_insert(visited, there.clone());
                let mut next_path = copy_path(path);
                next_path.push((r, dir));
                let ghost next_chain = ychain.push(x);
                proof {
                    assert forall|j: int| 0 <= j < next_path@.len() implies #[trigger] flow_step(rels, next_path@[j].0 as int, next_path@[j].1, next_chain[j], next_chain[j + 1]) by {
                        if j < path@.len() {
                            assert(next_path@[j] == path@[j]);
                            assert(next_chain[j] == ychain[j]);
                            assert(next_chain[j + 1] == ychain[j + 1]);
                        }
                    }
                    let w = choose|w: int| 0 <= w < st.len() && #[trigger] st[w].id@ == ychain[0];
                    assert(st[w].id@ == next_chain[0]);
                    assert(flow_chain(rels, st, next_path@, next_chain));
                    assert forall|j: int| 0 <= j < next_path@.len() implies (#[trigger] next_path@[j]).0 < rels.len() by {
                        if j < path@.len() {
                            assert(next_path@[j] == path@[j]);
                        }
                    }
                    assert(leads_to(s, st, x, next_path@, k + 1));
                }
                let found = find_first_by_id(&snapshot.entities, there);
                proof {
                    lemma_first_with_id(s.entities@, x);
                }
                next.push((there.clone(), copy_path(&next_path)));
                match found {
                    None => {},
                    Some(e) => {
                        let ent = &snapshot.entities[e];
                        raw.push(RawImpact {
                            depth: k + 1,
                            kind_label: ent.kind_label.clone(),
                            stable_key: ent.stable_key.clone(),
                            index: raw.len(),
                            entity: e,
                            path: next_path,
                        });
                        proof {
                            let t_new = raw@.len() - 1;
                            assert(raw_id(s, raw@[t_new]) == x);
                            assert(flow_chain(rels, st, raw@[t_new].path@, next_chain));
                            assert(raw_ok(raw@[t_new], s, st, max_depth as int));
                        }
                    },
                }
                proof {
                    let vis = set_of(visited@);
                    assert(vis == vb.insert(x));
                    assert(next@.len() == nb.len() + 1 && next@[next@.len() - 1].0@ == x && next@[next@.len() - 1].1@ == next_path@);
                    assert forall|z: Seq<char>| #[trigger] vis.contains(z) <==> (reaches(s, st, z, k as int)
                        || exists|q: int| 0 <= q < next@.len() && (#[trigger] next@[q]).0@ == z) by {
                        if z == x {
                            assert(next@[next@.len() - 1].0@ == x);
                        } else if vb.contains(z) && !reaches(s, st, z, k as int) {
                            let q = choose|q: int| 0 <= q < nb.len() && (#[trigger] nb[q]).0@ == z;
                            assert(next@[q] == nb[q]);
                        } else if exists|q: int| 0 <= q < next@.len() && (#[trigger] next@[q]).0@ == z {
                            let q = choose|q: int| 0 <= q < next@.len() && (#[trigger] next@[q]).0@ == z;
                            if q < nb.len() {
                                assert(next@[q] == nb[q]);
                            }
                        }
                    }
                    assert forall|q: int| 0 <= q < next@.len() implies leads_to(s, st, (#[trigger] next@[q]).0@, next@[q].1@, k + 1)
                        && exactly(s, st, next@[q].0@, k + 1) by {
                        if q < nb.len() {
                            assert(next@[q] == nb[q]);
                        }
                    }
                    assert forall|q: int| 0 <= q < next@.len() implies (first_with_id(s.entities@, (#[trigger] next@[q]).0@) is Some
                        ==> exists|t: int| 0 <= t < raw@.len() && raw_id(s, #[trigger] raw@[t]) == next@[q].0@) by {
                        if q < nb.len() {
                            assert(next@[q] == nb[q]);
                            if first_with_id(s.entities@, nb[q].0@) is Some {
                                let t = choose|t: int| 0 <= t < rb.len() && raw_id(s, #[trigger] rb[t]) == nb[q].0@;
                                assert(raw@[t] == rb[t]);
                            }
                        } else if first_with_id(s.entities@, x) is Some {
                            assert(raw_id(s, raw@[raw@.len() - 1]) == x);
                        }
                    }
                    assert forall|t: int| 0 <= t < raw@.len() implies raw_ok(#[trigger] raw@[t], s, st, max_depth as int) && raw@[t].index == t
                        && raw@[t].depth <= k + 1 && !reaches(s, st, raw_id(s, raw@[t]), raw@[t].depth - 1) && vis.contains(raw_id(s, raw@[t])) by {
                        if t < rb.len() {
                            assert(raw@[t] == rb[t]);
                        }
                    }
                    assert forall|t: int, u: int| 0 <= t < u < raw@.len() implies raw_id(s, #[trigger] raw@[t]) != raw_id(s, #[trigger] raw@[u]) by {
                        assert(raw@[t] == rb[t]);
                        if u < rb.len() {
                            assert(raw@[u] == rb[u]);
                        }
                    }
                    assert forall|t: int| 0 <= t < raw@.len() implies !start_ids(st).contains(raw_id(s, #[trigger] raw@[t])) by {
                        if t < rb.len() {
                            assert(raw@[t] == rb[t]);
                        } else {
                            lemma_reaches_zero(s, st, x);
                        }
                    }
                    assert forall|z: Seq<char>| reaches(s, st, z, k as int) && !start_ids(st).contains(z) && #[trigger] first_with_id(s.entities@, z) is Some
                        implies exists|t: int| 0 <= t < raw@.len() && raw_id(s, #[trigger] raw@[t]) == z by {
                        let t = choose|t: int| 0 <= t < rb.len() && raw_id(s, #[trigger] rb[t]) == z;
                        assert(raw@[t] == rb[t]);
                    }
                }
            }
            d = d + 1;
        }
        r = r + 1;
    }
}

/// Breadth-first search, layer by layer, for the entities a change to `starts` reaches
/// within `max_depth` impact steps: each at its least number of steps, by the path that
/// first reached it, every one of them found.
#[verifier::rlimit(50)]
fn impact_layers(snapshot: &CanonicalSnapshot, starts: &Vec<Entity>, max_depth: usize) -> (raw: Vec<RawImpact>)
    ensures
        results_ok(*snapshot, starts@, max_depth as int, raw@, Set::new(|x: Seq<char>| reaches(*snapshot, starts@, x, max_depth as int)), max_depth as int),
        results_complete(*snapshot, starts@, raw@, max_depth as int),
{
    let ghost s = *snapshot;
    let ghost st = starts@;
    let mut visited = set_new();
    let mut frontier: Vec<(String, Vec<(usize, FlowDirection)>)> = Vec::new();
    let mut i: usize = 0;
    while i < starts.len()
        invariant
            st == starts@,
            s == *snapshot,
            i <= starts@.len(),
            is_str_set(visited@),
            frontier@.len() == i,
            forall|q: int| 0 <= q < i ==> (#[trigger] frontier@[q]).0@ == st[q].id@ && frontier@[q].1@.len() == 0,
            forall|x: Seq<char>| #[trigger] set_of(visited@).contains(x) <==> exists|j: int| 0 <= j < i && #[trigger] st[j].id@ == x,
        decreases starts.len() - i,
    {
        let ghost v0 = set_of(visited@);
        set_insert(&mut visited, starts[i].id.clone());
        frontier.push((starts[i].id.clone(), Vec::new()));
        proof {
            assert forall|x: Seq<char>| #[trigger] set_of(visited@).contains(x) <==> exists|j: int| 0 <= j < i + 1 && #[trigger] st[j].id@ == x by {
                if exists|j: int| 0 <= j < i + 1 && #[trigger] st[j].id@ == x {
                    let j = choose|j: int| 0 <= j < i + 1 && #[trigger] st[j].id@ == x;
                    if j < i {
                        assert(v0.contains(x));
                    }
                }
            }
        }
        i = i + 1;
    }
    proof {
        assert forall|q: int| 0 <= q < frontier@.len() implies leads_to(s, st, (#[trigger] frontier@[q]).0@, frontier@[q].1@, 0)
            && exactly(s, st, frontier@[q].0@, 0) by {
            let chain = seq![frontier@[q].0@];
            assert(st[q].id@ == chain[0]);
            assert(flow_chain(s.relations@, st, frontier@[q].1@, chain));
            lemma_reaches_zero(s, st, frontier@[q].0@);
            assert(start_ids(st).contains(frontier@[q].0@));
        }
        assert forall|x: Seq<char>| #[trigger] set_of(visited@).contains(x) <==> reaches(s, st, x, 0) by {
            lemma_reaches_zero(s, st, x);
        }
        assert forall|x: Seq<char>| #[trigger] exactly(s, st, x, 0) implies exists|q: int| 0 <= q < frontier@.len() && (#[trigger] frontier@[q]).0@ == x by {
            lemma_reaches_zero(s, st, x);
            let j = choose|j: int| 0 <= j < st.len() && #[trigger] st[j].id@ == x;
            assert(frontier@[j].0@ == x);
        }
        assert forall|x: Seq<char>| reaches(s, st, x, 0) && !start_ids(st).contains(x) && #[trigger] first_with_id(s.entities@, x) is Some
            implies false by {
            lemma_reaches_zero(s, st, x);
        }
    }
    let mut raw: Vec<RawImpact> = Vec::new();
    let mut k: usize = 0;
    while k < max_depth && frontier.len() > 0
        invariant
            st == starts@,
            s == *snapshot,
            k <= max_depth,
            is_str_set(visited@),
            forall|x: Seq<char>| #[trigger] set_of(visited@).contains(x) <==> reaches(s, st, x, k as int),
            forall|q: int| 0 <= q < frontier@.len() ==> leads_to(s, st, (#[trigger] frontier@[q]).0@, frontier@[q].1@, k as int)
                && exactly(s, st, frontier@[q].0@, k as int),
            forall|x: Seq<char>| #[trigger] exactly(s, st, x, k as int) ==> exists|q: int| 0 <= q < frontier@.len() && (#[trigger] frontier@[q]).0@ == x,
            k == 0 ==> frontier@.len() == st.len(),
            results_ok(s, st, max_depth as int, raw@, set_of(visited@), k as int),
            results_complete(s, st, raw@, k as int),
        decreases max_depth - k,
    {
        let mut next: Vec<(String, Vec<(usize, FlowDirection)>)> = Vec::new();
        let ghost reach_k = set_of(visited@);
        proof {
            assert forall|x: Seq<char>| #[trigger] set_of(visited@).contains(x) <==> (reaches(s, st, x, k as int)
                || exists|q: int| 0 <= q < next@.len() && (#[trigger] next@[q]).0@ == x) by {}
            assert forall|t: int| 0 <= t < raw@.len() implies (#[trigger] raw@[t]).depth <= k + 1 by {}
        }
        let mut j: usize = 0;
        while j < frontier.len()
            invariant
                st == starts@,
                s == *snapshot,
                k < max_depth,
                j <= frontier@.len(),
                is_str_set(visited@),
                forall|x: Seq<char>| reach_k.contains(x) <==> reaches(s, st, x, k as int),
                reach_k.subset_of(set_of(visited@)),
                forall|q: int| 0 <= q < frontier@.len() ==> leads_to(s, st, (#[trigger] frontier@[q]).0@, frontier@[q].1@, k as int)
                    && exactly(s, st, frontier@[q].0@, k as int),
                forall|x: Seq<char>| #[trigger] exactly(s, st, x, k as int) ==> exists|q: int| 0 <= q < frontier@.len() && (#[trigger] frontier@[q]).0@ == x,
                level_state(s, st, max_depth as int, k as int, set_of(visited@), next@, raw@),
                forall|q: int, r: usize, dir: FlowDirection, x: Seq<char>| 0 <= q < j && #[trigger] flow_step(s.relations@, r as int, dir, (#[trigger] frontier@[q]).0@, x)
                    ==> set_of(visited@).contains(x),
            decreases frontier.len() - j,
        {
            let ghost vb = set_of(visited@);
            expand(snapshot, starts, &frontier[j].0, &frontier[j].1, k, max_depth, &mut visited, &mut next, &mut raw);
            j = j + 1;
        }
        proof {
            let vis = set_of(visited@);
            assert forall|x: Seq<char>| #[trigger] vis.contains(x) <==> reaches(s, st, x, k + 1) by {
                if vis.contains(x) {
                    if reaches(s, st, x, k as int) {
                    } else {
                        let q = choose|q: int| 0 <= q < next@.len() && (#[trigger] next@[q]).0@ == x;
                        assert(exactly(s, st, next@[q].0@, k + 1));
                    }
                }
                if reaches(s, st, x, k + 1) && !reaches(s, st, x, k as int) {
                    lemma_reaches_split(s, st, x, k as int);
                    let (y, r, dir) = choose|y: Seq<char>, r: usize, dir: FlowDirection|
                        reaches(s, st, y, k as int) && #[trigger] flow_step(s.relations@, r as int, dir, y, x);
                    if k >= 1 && reaches(s, st, y, k - 1) {
                        lemma_reaches_step(s, st, y, x, k - 1, r, dir);
                    } else {
                        if k == 0 {
                            lemma_reaches_zero(s, st, y);
                        }
                        assert(exactly(s, st, y, k as int));
                        let q = choose|q: int| 0 <= q < frontier@.len() && (#[trigger] frontier@[q]).0@ == y;
                        assert(flow_step(s.relations@, r as int, dir, frontier@[q].0@, x));
                    }
                }
            }
            assert forall|x: Seq<char>| #[trigger] exactly(s, st, x, k + 1) implies exists|q: int| 0 <= q < next@.len() && (#[trigger] next@[q]).0@ == x by {
                assert(vis.contains(x));
            }
            assert forall|x: Seq<char>| reaches(s, st, x, k + 1) && !start_ids(st).contains(x) && #[trigger] first_with_id(s.entities@, x) is Some
                implies exists|t: int| 0 <= t < raw@.len() && raw_id(s, #[trigger] raw@[t]) == x by {
                if !reaches(s, st, x, k as int) {
                    assert(vis.contains(x));
                    let q = choose|q: int| 0 <= q < next@.len() && (#[trigger] next@[q]).0@ == x;
                    assert(first_with_id(s.entities@, next@[q].0@) is Some);
                }
            }
        }
        frontier = next;
        k = k + 1;
    }
    proof {
        let target = Set::new(|x: Seq<char>| reaches(s, st, x, max_depth as int));
        if k < max_depth {
            assert(frontier@.len() == 0);
            assert forall|x: Seq<char>| reaches(s, st, x, max_depth as int) implies reaches(s, st, x, k as int) by {
                if k == 0 {
                    let (path, chain) = choose|path: Seq<(usize, FlowDirection)>, chain: Seq<Seq<char>>|
                        #[trigger] flow_chain(s.relations@, st, path, chain) && chain.last() == x && path.len() <= max_depth;
                    assert(st.len() == 0);
                } else {
                    assert forall|y: Seq<char>| !#[trigger] exactly(s, st, y, k as int) by {
                        if exactly(s, st, y, k as int) {
                            let q = choose|q: int| 0 <= q < frontier@.len() && (#[trigger] frontier@[q]).0@ == y;
                        }
                    }
                    lemma_reaches_stable(s, st, k as int, max_depth as int, x);
                }
            }
        }
        assert forall|x: Seq<char>| #[trigger] set_of(visited@).contains(x) ==> target.contains(x) by {}
        assert forall|t: int| 0 <= t < raw@.len() implies target.contains(raw_id(s, #[trigger] raw@[t])) by {
            assert(set_of(visited@).contains(raw_id(s, raw@[t])));
        }
        assert forall|t: int| 0 <= t < raw@.len() implies (#[trigger] raw@[t]).depth <= max_depth by {
            assert(raw_ok(raw@[t], s, st, max_depth as int));
        }
        assert forall|x: Seq<char>| reaches(s, st, x, max_depth as int) && !start_ids(st).contains(x) && #[trigger] first_with_id(s.entities@, x) is Some
            implies exists|t: int| 0 <= t < raw@.len() && raw_id(s, #[trigger] raw@[t]) == x by {
            if k < max_depth {
                assert(reaches(s, st, x, k as int));
            }
        }
    }
    raw
}

/// The key a diagnostic is reported in: its id, then its position.
struct DiagnosticKey {
    id: String,
    index: usize,
}

impl SortKey for DiagnosticKey {
    closed spec fn key_lt(&self, other: &Self) -> bool {
        lex_lt(self.id@, other.id@) || (self.id@ == other.id@ && self.index < other.index)
    }

    proof fn lemma_key_lt_transitive(a: &Self, b: &Self, c: &Self) {
        if lex_lt(a.id@, b.id@) && lex_lt(b.id@, c.id@) {
            lemma_lex_lt_transitive(a.id@, b.id@, c.id@);
        }
    }

    proof fn lemma_key_lt_irreflexive(a: &Self) {
        lemma_lex_lt_irreflexive(a.id@);
    }

    fn lt(&self, other: &Self) -> (r: bool) {
        if str_lt(self.id.as_str(), other.id.as_str()) {
            true
        } else if str_eq(self.id.as_str(), other.id.as_str()) {
            self.index < other.index
        } else {
            false
        }
    }
}

/// The ids of the starting entities and of the entities reached.
pub open spec fn affected_ids(starts: Seq<Entity>, impacted: Seq<ImpactedEntity>) -> Set<Seq<char>> {
    Set::new(|x: Seq<char>| start_ids(starts).contains(x) || exists|i: int| 0 <= i < impacted.len() && #[trigger] impacted[i].entity.id@ == x)
}

/// The diagnostics on some entity with an id in `ids`.
pub open spec fn hit_diagnostics(ds: Seq<Diagnostic>, ids: Set<Seq<char>>) -> spec_fn(int) -> bool {
    |j: int| diagnostic_hits(ds[j], ids)
}

/// The files that the starting entities and the entities reached touch.
pub open spec fn affected_files(starts: Seq<Entity>, impacted: Seq<ImpactedEntity>) -> Set<Seq<char>> {
    Set::new(|f: Seq<char>| (exists|i: int| 0 <= i < starts.len() && touches_file(#[trigger] starts[i], f))
        || exists|i: int| 0 <= i < impacted.len() && touches_file(#[trigger] impacted[i].entity, f))
}

/// Adds the files `e` touches to the ordered set `files`.
fn add_files(files: &mut Vec<String>, e: &Entity)
    requires
        is_str_set(old(files)@),
    ensures
        is_str_set(final(files)@),
        set_of(final(files)@) == set_of(old(files)@).union(Set::new(|f: Seq<char>| touches_file(*e, f))),
{
    let ghost start = set_of(files@);
    let mut i: usize = 0;
    while i < e.ownership.len()
        invariant
            i <= e.ownership@.len(),
            is_str_set(files@),
            set_of(files@) == start.union(Set::new(|f: Seq<char>| exists|j: int| 0 <= j < i && #[trigger] e.ownership@[j]@ == f)),
        decreases e.ownership.len() - i,
    {
        let ghost s0 = set_of(files@);
        set_insert(files, e.ownership[i].clone());
        proof {
            let ii = (i + 1) as int;
            assert(set_of(files@) =~= start.union(Set::new(|f: Seq<char>| exists|j: int| 0 <= j < ii && #[trigger] e.ownership@[j]@ == f))) by {
                assert forall|f: Seq<char>| set_of(files@).contains(f) == start.union(Set::new(|f: Seq<char>| exists|j: int| 0 <= j < ii && #[trigger] e.ownership@[j]@ == f)).contains(f) by {
                    if exists|j: int| 0 <= j < ii && #[trigger] e.ownership@[j]@ == f {
                        let j = choose|j: int| 0 <= j < ii && #[trigger] e.ownership@[j]@ == f;
                        if j < i {
                            assert(s0.contains(f));
                        }
                    }
                }
            }
        }
        i = i + 1;
    }
    let ghost s1 = set_of(files@);
    match &e.source {
        None => {},
        Some(src) => {
            set_insert(files, src.path.clone());
        },
    }
    proof {
        assert(set_of(files@) =~= start.union(Set::new(|f: Seq<char>| touches_file(*e, f)))) by {
            assert forall|f: Seq<char>| set_of(files@).contains(f) == start.union(Set::new(|f: Seq<char>| touches_file(*e, f))).contains(f) by {
                if views(e.ownership@).contains(f) {
                    let j = choose|j: int| 0 <= j < views(e.ownership@).len() && views(e.ownership@)[j] == f;
                    assert(e.ownership@[j]@ == f);
                    assert(s1.contains(f));
                }
                if exists|j: int| 0 <= j < e.ownership@.len() && #[trigger] e.ownership@[j]@ == f {
                    let j = choose|j: int| 0 <= j < e.ownership@.len() && #[trigger] e.ownership@[j]@ == f;
                    assert(views(e.ownership@)[j] == f);
                }
            }
        }
    }
}

/// Whether any entity id of `d` is in the ordered set `ids`.
fn hits(d: &Diagnostic, ids: &Vec<String>) -> (r: bool)
    ensures
        r == diagnostic_hits(*d, set_of(ids@)),
{
    let mut i: usize = 0;
    while i < d.entities.len()
        invariant
            i <= d.entities@.len(),
            forall|k: int| 0 <= k < i ==> !set_of(ids@).contains(#[trigger] d.entities@[k]@),
        decreases d.entities.len() - i,
    {
        if set_contains(ids, &d.entities[i]) {
            return true;
        }
        i = i + 1;
    }
    false
}

/// The entities a change to `starts` reaches, in impact order: each with a path of at
/// most `max_depth` steps and at its least number of steps, each once, none of the starting
/// entities, and every reachable entity among them.
fn impacted_entities(snapshot: &CanonicalSnapshot, starting_entities: &Vec<Entity>, max_depth: usize) -> (impacted: Vec<ImpactedEntity>)
    ensures
        forall|i: int| 0 <= i < impacted@.len() ==> impact_of(#[trigger] impacted@[i], *snapshot, starting_entities@, max_depth as int),
        forall|i: int, j: int| 0 <= i < j < impacted@.len() ==>
            (#[trigger] impacted@[i]).entity.id@ != (#[trigger] impacted@[j]).entity.id@
            && !impact_before(impacted@[j], impacted@[i]),
        forall|i: int| 0 <= i < impacted@.len() ==> !start_ids(starting_entities@).contains((#[trigger] impacted@[i]).entity.id@),
        forall|i: int| 0 <= i < impacted@.len() ==>
            !reaches(*snapshot, starting_entities@, (#[trigger] impacted@[i]).entity.id@, impacted@[i].depth - 1),
        forall|x: Seq<char>| reaches(*snapshot, starting_entities@, x, max_depth as int) && !start_ids(starting_entities@).contains(x)
            && #[trigger] first_with_id(snapshot.entities@, x) is Some
            ==> exists|i: int| 0 <= i < impacted@.len() && (#[trigger] impacted@[i]).entity.id@ == x,
{
    let ghost s = *snapshot;
    let raw = impact_layers(snapshot, starting_entities, max_depth);
    let ghost orig = raw@;
    let sorted = sort_by_key(raw);
    proof {
        assert(orig.no_duplicates()) by {
            assert forall|a: int, b: int| 0 <= a < orig.len() && 0 <= b < orig.len() && a != b implies orig[a] != orig[b] by {
                assert(orig[a].index == a);
                assert(orig[b].index == b);
            }
        }
        lemma_permutation_facts(orig, sorted@);
    }
    let mut impacted: Vec<ImpactedEntity> = Vec::new();
    let mut t: usize = 0;
    while t < sorted.len()
        invariant
            s == *snapshot,
            t <= sorted@.len(),
            impacted@.len() == t,
            forall|a: int| 0 <= a < sorted@.len() ==> orig.contains(#[trigger] sorted@[a]),
            forall|a: int| 0 <= a < orig.len() ==> raw_ok(#[trigger] orig[a], s, starting_entities@, max_depth as int) && orig[a].index == a
                && !reaches(s, starting_entities@, raw_id(s, orig[a]), orig[a].depth - 1),
            forall|a: int| 0 <= a < t ==> impact_of(#[trigger] impacted@[a], s, starting_entities@, max_depth as int)
                && impacted@[a].entity.id@ == s.entities@[sorted@[a].entity as int].id@
                && impacted@[a].depth == sorted@[a].depth
                && impacted@[a].entity.kind_label@ == sorted@[a].kind_label@
                && impacted@[a].entity.stable_key@ == sorted@[a].stable_key@,
        decreases sorted.len() - t,
    {
        let item = &sorted[t];
        proof {
            assert(orig.contains(sorted@[t as int]));
        }
        let e = &snapshot.entities[item.entity];
        let (flows, steps) = impact_path(snapshot, &item.path);
        let x = ImpactedEntity { entity: copy_entity(e), depth: item.depth, path: flows, path_steps: steps };
        proof {
            let chain = choose|chain: Seq<Seq<char>>| #[trigger] flow_chain(s.relations@, starting_entities@, item.path@, chain)
                && chain.last() == s.entities@[item.entity as int].id@;
            assert(impact_of(x, s, starting_entities@, max_depth as int)) by {
                let path = item.path@;
                assert(flow_chain(s.relations@, starting_entities@, path, chain));
            }
        }
        impacted.push(x);
        t = t + 1;
    }
    proof {
        broadcast use vstd::seq_lib::group_to_multiset_ensures;

        assert forall|i: int, j: int| 0 <= i < j < impacted@.len() implies
            (#[trigger] impacted@[i]).entity.id@ != (#[trigger] impacted@[j]).entity.id@
            && !impact_before(impacted@[j], impacted@[i]) by {
            assert(!sorted@[j].key_lt(&sorted@[i]));
            assert(orig.contains(sorted@[i]));
            assert(orig.contains(sorted@[j]));
            let wi = choose|x: int| 0 <= x < orig.len() && orig[x] == sorted@[i];
            let wj = choose|x: int| 0 <= x < orig.len() && orig[x] == sorted@[j];
            assert(sorted@[i] != sorted@[j]);
            assert(wi != wj);
            if wi < wj {
                assert(s.entities@[orig[wi].entity as int].id@ != s.entities@[orig[wj].entity as int].id@);
            } else {
                assert(s.entities@[orig[wj].entity as int].id@ != s.entities@[orig[wi].entity as int].id@);
            }
        }
        assert forall|i: int| 0 <= i < impacted@.len() implies !start_ids(starting_entities@).contains((#[trigger] impacted@[i]).entity.id@) by {
            assert(orig.contains(sorted@[i]));
            let wi = choose|x: int| 0 <= x < orig.len() && orig[x] == sorted@[i];
            assert(!start_ids(starting_entities@).contains(s.entities@[orig[wi].entity as int].id@));
        }
        assert forall|i: int| 0 <= i < impacted@.len() implies
            !reaches(s, starting_entities@, (#[trigger] impacted@[i]).entity.id@, impacted@[i].depth - 1) by {
            assert(orig.contains(sorted@[i]));
            let wi = choose|x: int| 0 <= x < orig.len() && orig[x] == sorted@[i];
            assert(!reaches(s, starting_entities@, raw_id(s, orig[wi]), orig[wi].depth - 1));
        }
        assert forall|x: Seq<char>| reaches(s, starting_entities@, x, max_depth as int) && !start_ids(starting_entities@).contains(x)
            && #[trigger] first_with_id(s.entities@, x) is Some
            implies exists|i: int| 0 <= i < impacted@.len() && (#[trigger] impacted@[i]).entity.id@ == x by {
            let t = choose|t: int| 0 <= t < orig.len() && raw_id(s, #[trigger] orig[t]) == x;
            assert(orig.to_multiset().count(orig[t]) > 0);
            assert(sorted@.contains(orig[t]));
            let a = choose|a: int| 0 <= a < sorted@.len() && sorted@[a] == orig[t];
            assert(impacted@[a].entity.id@ == x);
        }
    }
    impacted
}

/// The impact of a change to `starting_entities`: breadth first along the relations that
/// carry impact (a test, coverage or definition relation from its source to its target;
/// calls, imports, implementations, documentation, schemas and containment from target to
/// source), at most `max_depth` steps, each entity once; with the files and diagnostics
/// of everything reached.
pub fn impact_snapshot(snapshot: &CanonicalSnapshot, starting_entities: Vec<Entity>, max_depth: usize) -> (r: ImpactAnalysis)
    ensures
        r.schema@ == IMPACT_ANALYSIS_SCHEMA_V1@,
        r.snapshot@ == snapshot_name(snapshot.snapshot),
        r.starting_entities@ == starting_entities@,
        forall|i: int| 0 <= i < r.impacted_entities@.len() ==> impact_of(#[trigger] r.impacted_entities@[i], *snapshot, starting_entities@, max_depth as int),
        forall|i: int, j: int| 0 <= i < j < r.impacted_entities@.len() ==>
            (#[trigger] r.impacted_entities@[i]).entity.id@ != (#[trigger] r.impacted_entities@[j]).entity.id@
            && !impact_before(r.impacted_entities@[j], r.impacted_entities@[i]),
        forall|i: int| 0 <= i < r.impacted_entities@.len() ==> !start_ids(starting_entities@).contains((#[trigger] r.impacted_entities@[i]).entity.id@),
        forall|i: int| 0 <= i < r.impacted_entities@.len() ==>
            !reaches(*snapshot, starting_entities@, (#[trigger] r.impacted_entities@[i]).entity.id@, r.impacted_entities@[i].depth - 1),
        forall|x: Seq<char>| reaches(*snapshot, starting_entities@, x, max_depth as int) && !start_ids(starting_entities@).contains(x)
            && #[trigger] first_with_id(snapshot.entities@, x) is Some
            ==> exists|i: int| 0 <= i < r.impacted_entities@.len() && (#[trigger] r.impacted_entities@[i]).entity.id@ == x,
        is_str_set(r.impacted_files@),
        set_of(r.impacted_files@) == affected_files(starting_entities@, r.impacted_entities@),
        exists|order: Seq<int>| {
            &&& #[trigger] lists_exactly(order, snapshot.diagnostics@.len() as int,
                hit_diagnostics(snapshot.diagnostics@, affected_ids(starting_entities@, r.impacted_entities@)))
            &&& sorted_by(order, |a: int, b: int| diagnostic_before(snapshot.diagnostics@, a, b))
            &&& r.impacted_diagnostics@.len() == order.len()
            &&& forall|i: int| 0 <= i < order.len() ==> same_diagnostic(#[trigger] r.impacted_diagnostics@[i], snapshot.diagnostics@[order[i]])
        },
{
    let ghost s = *snapshot;
    let impacted = impacted_entities(snapshot, &starting_entities, max_depth);
    let mut ids = set_new();
    let mut files = set_new();
    let mut k: usize = 0;
    while k < starting_entities.len()
        invariant
            k <= starting_entities@.len(),
            is_str_set(ids@),
            is_str_set(files@),
            set_of(ids@) == Set::new(|x: Seq<char>| exists|i: int| 0 <= i < k && #[trigger] starting_entities@[i].id@ == x),
            set_of(files@) == Set::new(|f: Seq<char>| exists|i: int| 0 <= i < k && touches_file(#[trigger] starting_entities@[i], f)),
        decreases starting_entities.len() - k,
    {
        let ghost i0 = set_of(ids@);
        let ghost f0 = set_of(files@);
        set_insert(&mut ids, starting_entities[k].id.clone());
        add_files(&mut files, &starting_entities[k]);
        proof {
            let kk = (k + 1) as int;
            assert(set_of(ids@) =~= Set::new(|x: Seq<char>| exists|i: int| 0 <= i < kk && #[trigger] starting_entities@[i].id@ == x)) by {
                assert forall|x: Seq<char>| set_of(ids@).contains(x) == (exists|i: int| 0 <= i < kk && #[trigger] starting_entities@[i].id@ == x) by {
                    if exists|i: int| 0 <= i < kk && #[trigger] starting_entities@[i].id@ == x {
                        let i = choose|i: int| 0 <= i < kk && #[trigger] starting_entities@[i].id@ == x;
                        if i < k {
                            assert(i0.contains(x));
                        }
                    }
                }
            }
            assert(set_of(files@) =~= Set::new(|f: Seq<char>| exists|i: int| 0 <= i < kk && touches_file(#[trigger] starting_entities@[i], f))) by {
                assert forall|f: Seq<char>| set_of(files@).contains(f) == (exists|i: int| 0 <= i < kk && touches_file(#[trigger] starting_entities@[i], f)) by {
                    if exists|i: int| 0 <= i < kk && touches_file(#[trigger] starting_entities@[i], f) {
                        let i = choose|i: int| 0 <= i < kk && touches_file(#[trigger] starting_entities@[i], f);
                        if i < k {
                            assert(f0.contains(f));
                        }
                    }
                }
            }
        }
        k = k + 1;
    }
    let mut q: usize = 0;
    while q < impacted.len()
        invariant
            q <= impacted@.len(),
            is_str_set(ids@),
            is_str_set(files@),
            set_of(ids@) == Set::new(|x: Seq<char>| start_ids(starting_entities@).contains(x)
                || exists|i: int| 0 <= i < q && #[trigger] impacted@[i].entity.id@ == x),
            set_of(files@) == Set::new(|f: Seq<char>| (exists|i: int| 0 <= i < starting_entities@.len() && touches_file(#[trigger] starting_entities@[i], f))
                || exists|i: int| 0 <= i < q && touches_file(#[trigger] impacted@[i].entity, f)),
        decreases impacted.len() - q,
    {
        let ghost i0 = set_of(ids@);
        let ghost f0 = set_of(files@);
        set_insert(&mut ids, impacted[q].entity.id.clone());
        add_files(&mut files, &impacted[q].entity);
        proof {
            let qq = (q + 1) as int;
            assert(set_of(ids@) =~= Set::new(|x: Seq<char>| start_ids(starting_entities@).contains(x)
                || exists|i: int| 0 <= i < qq && #[trigger] impacted@[i].entity.id@ == x)) by {
                assert forall|x: Seq<char>| set_of(ids@).contains(x) == (start_ids(starting_entities@).contains(x)
                    || exists|i: int| 0 <= i < qq && #[trigger] impacted@[i].entity.id@ == x) by {
                    if exists|i: int| 0 <= i < qq && #[trigger] impacted@[i].entity.id@ == x {
                        let i = choose|i: int| 0 <= i < qq && #[trigger] impacted@[i].entity.id@ == x;
                        if i < q {
                            assert(i0.contains(x));
                        }
                    }
                }
            }
            assert(set_of(files@) =~= Set::new(|f: Seq<char>| (exists|i: int| 0 <= i < starting_entities@.len() && touches_file(#[trigger] starting_entities@[i], f))
                || exists|i: int| 0 <= i < qq && touches_file(#[trigger] impacted@[i].entity, f))) by {
                assert forall|f: Seq<char>| set_of(files@).contains(f) == ((exists|i: int| 0 <= i < starting_entities@.len() && touches_file(#[trigger] starting_entities@[i], f))
                    || exists|i: int| 0 <= i < qq && touches_file(#[trigger] impacted@[i].entity, f)) by {
                    if exists|i: int| 0 <= i < qq && touches_file(#[trigger] impacted@[i].entity, f) {
                        let i = choose|i: int| 0 <= i < qq && touches_file(#[trigger] impacted@[i].entity, f);
                        if i < q {
                            assert(f0.contains(f));
                        }
                    }
                }
            }
        }
        q = q + 1;
    }
    proof {
        assert(set_of(ids@) =~= affected_ids(starting_entities@, impacted@));
        assert(set_of(files@) =~= affected_files(starting_entities@, impacted@));
    }
    let mut keys: Vec<DiagnosticKey> = Vec::new();
    let mut d: usize = 0;
    let nd = snapshot.diagnostics.len();
    let ghost member = |j: int| diagnostic_hits(snapshot.diagnostics@[j], affected_ids(starting_entities@, impacted@));
    while d < nd
        invariant
            s == *snapshot,
            nd == s.diagnostics@.len(),
            d <= nd,
            set_of(ids@) == affected_ids(starting_entities@, impacted@),
            member == (|j: int| diagnostic_hits(snapshot.diagnostics@[j], affected_ids(starting_entities@, impacted@))),
            forall|a: int| 0 <= a < keys@.len() ==> (#[trigger] keys@[a]).index < d && member(keys@[a].index as int)
                && keys@[a].id@ == s.diagnostics@[keys@[a].index as int].id@,
            forall|a: int, b: int| 0 <= a < b < keys@.len() ==> (#[trigger] keys@[a]).index < (#[trigger] keys@[b]).index,
            forall|j: int| 0 <= j < d && #[trigger] member(j) ==> exists|a: int| 0 <= a < keys@.len() && (#[trigger] keys@[a]).index == j,
        decreases nd - d,
    {
        let hit = hits(&snapshot.diagnostics[d], &ids);
        let ghost before = keys@;
        if hit {
            keys.push(DiagnosticKey { id: snapshot.diagnostics[d].id.clone(), index: d });
        }
        proof {
            assert forall|j: int| 0 <= j < d + 1 && #[trigger] member(j) implies exists|a: int| 0 <= a < keys@.len() && (#[trigger] keys@[a]).index == j by {
                if j < d {
                    let a = choose|a: int| 0 <= a < before.len() && (#[trigger] before[a]).index == j;
                    assert(keys@[a] == before[a]);
                } else {
                    assert(keys@[keys@.len() - 1].index == j);
                }
            }
        }
        d = d + 1;
    }
    let ghost korig = keys@;
    let ksorted = sort_by_key(keys);
    proof {
        assert(korig.no_duplicates()) by {
            assert forall|a: int, b: int| 0 <= a < korig.len() && 0 <= b < korig.len() && a != b implies korig[a] != korig[b] by {
                if a < b { assert(korig[a].index < korig[b].index); } else { assert(korig[b].index < korig[a].index); }
            }
        }
        lemma_permutation_facts(korig, ksorted@);
    }
    let mut diagnostics: Vec<Diagnostic> = Vec::new();
    let mut w: usize = 0;
    while w < ksorted.len()
        invariant
            s == *snapshot,
            w <= ksorted@.len(),
            diagnostics@.len() == w,
            forall|a: int| 0 <= a < ksorted@.len() ==> korig.contains(#[trigger] ksorted@[a]),
            forall|a: int| 0 <= a < korig.len() ==> (#[trigger] korig[a]).index < nd,
            nd == s.diagnostics@.len(),
            forall|a: int| 0 <= a < w ==> same_diagnostic(#[trigger] diagnostics@[a], s.diagnostics@[ksorted@[a].index as int]),
        decreases ksorted.len() - w,
    {
        proof {
            assert(korig.contains(ksorted@[w as int]));
        }
        diagnostics.push(copy_diagnostic(&snapshot.diagnostics[ksorted[w].index]));
        w = w + 1;
    }
    let ghost order = Seq::new(ksorted@.len(), |a: int| ksorted@[a].index as int);
    proof {
        broadcast use vstd::seq_lib::group_to_multiset_ensures;

        assert forall|a: int| 0 <= a < order.len() implies 0 <= #[trigger] order[a] < nd && member(order[a]) by {
            assert(korig.contains(ksorted@[a]));
        }
        assert(order.no_duplicates()) by {
            assert forall|a: int, b: int| 0 <= a < order.len() && 0 <= b < order.len() && a != b implies order[a] != order[b] by {
                assert(ksorted@[a] != ksorted@[b]);
                let wa = choose|x: int| 0 <= x < korig.len() && korig[x] == ksorted@[a];
                let wb = choose|x: int| 0 <= x < korig.len() && korig[x] == ksorted@[b];
                if wa < wb { assert(korig[wa].index < korig[wb].index); } else if wb < wa { assert(korig[wb].index < korig[wa].index); }
            }
        }
        assert forall|j: int| 0 <= j < nd && #[trigger] member(j) implies order.contains(j) by {
            let a = choose|a: int| 0 <= a < korig.len() && (#[trigger] korig[a]).index == j;
            assert(korig.contains(korig[a]));
            assert(korig.to_multiset().count(korig[a]) > 0);
            assert(ksorted@.contains(korig[a]));
            let x = choose|x: int| 0 <= x < ksorted@.len() && ksorted@[x] == korig[a];
            assert(order[x] == j);
        }
        assert forall|a: int, b: int| 0 <= a < b < order.len() implies !diagnostic_before(s.diagnostics@, #[trigger] order[b], #[trigger] order[a]) by {
            assert(!ksorted@[b].key_lt(&ksorted@[a]));
            assert(korig.contains(ksorted@[a]));
            assert(korig.contains(ksorted@[b]));
        }
        assert(lists_exactly(order, nd as int, hit_diagnostics(snapshot.diagnostics@, affected_ids(starting_entities@, impacted@))));
    }
    ImpactAnalysis {
        schema: String::from_str(IMPACT_ANALYSIS_SCHEMA_V1),
        snapshot: snapshot_id(snapshot),
        starting_entities,
        impacted_entities: impacted,
        impacted_files: files,
        impacted_diagnostics: diagnostics,
    }
}

} // verus!
