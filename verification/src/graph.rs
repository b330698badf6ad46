//! Bounded views of the canonical code graph: export, GraphML, related entities,
//! shortest paths, hubs and cycles.

use vstd::prelude::*;
use crate::cancellation::{CancellationProbe, COOPERATIVE_POLL_INTERVAL};
use crate::snapshot::{
    CanonicalSnapshot, Entity, Relation, degree, degree_of, entity_index, evidence_texts,
    find_by_stable_key, find_entity_by_id, first_with_stable_key, lemma_entity_index, opt_view,
    render_evidence, render_source, snapshot_id, snapshot_name, source_text, views,
};
use crate::sort::{SortKey, as_ints, count_below, lemma_lists_exactly_len, lemma_distinct_indices_bounded, lemma_distinct_members_counted, lemma_count_below_set, members_below, sorted_by_key, lemma_lists_exactly_congruent, lemma_permutation_facts, lists_exactly, sort_by_key, sorted_by};
use crate::text::{
    contains_str, distinct_count, lemma_distinct_count_bounded, lemma_lex_lt_irreflexive,
    lemma_lex_lt_transitive, lemma_lex_total, lex_lt, str_eq, str_lt,
};

verus! {

pub const GRAPH_EXPORT_SCHEMA: &'static str = "athanor.graph_export.v1";
pub const GRAPH_CYCLES_SCHEMA: &'static str = "athanor.graph_cycles.v1";
pub const GRAPH_HUBS_SCHEMA: &'static str = "athanor.graph_hubs.v1";
pub const GRAPH_PAGERANK_SCHEMA: &'static str = "athanor.graph_pagerank.v1";
pub const GRAPH_PATH_SCHEMA: &'static str = "athanor.graph_path.v1";
pub const GRAPH_RELATED_SCHEMA: &'static str = "athanor.graph_related.v1";

/// Options of a bounded graph export.
pub struct GraphExportOptions {
    pub root: String,
    pub max_entities: usize,
    pub max_relations: usize,
}

/// Options of a related-entities query.
pub struct GraphRelatedOptions {
    pub root: String,
    pub stable_key: String,
    pub depth: usize,
    pub max_entities: usize,
    pub max_relations: usize,
}

/// Options of a shortest-path query.
pub struct GraphPathOptions {
    pub root: String,
    pub from_stable_key: String,
    pub to_stable_key: String,
    pub max_depth: usize,
    pub max_visited: usize,
}

/// Options of a hubs query.
pub struct GraphHubsOptions {
    pub root: String,
    pub limit: usize,
    pub kind: Option<String>,
    pub max_relation_ids: usize,
}

/// Options of a cycles query.
pub struct GraphCyclesOptions {
    pub root: String,
    pub limit: usize,
    pub max_depth: usize,
    pub max_starts: usize,
}

/// An entity as graph queries report it.
pub struct GraphNode {
    pub id: String,
    pub stable_key: String,
    pub kind: String,
    pub name: String,
    pub source: Option<String>,
    pub degree: usize,
}

/// A relation as graph queries report it; `confidence` is its decimal text.
pub struct GraphEdge {
    pub id: String,
    pub kind: String,
    pub from: String,
    pub to: String,
    pub status: String,
    pub confidence: String,
    pub evidence: Vec<String>,
}

/// What a bounded export left out.
pub struct GraphOmitted {
    pub nodes: usize,
    pub edges: usize,
    pub reason: String,
}

/// A bounded export of the graph.
pub struct GraphExport {
    pub schema: String,
    pub snapshot: String,
    pub nodes: Vec<GraphNode>,
    pub edges: Vec<GraphEdge>,
    pub omitted: GraphOmitted,
}

/// `n` reports entity `e` with the given degree.
pub open spec fn node_of(n: GraphNode, e: Entity, degree: nat) -> bool {
    &&& n.id@ == e.id@
    &&& n.stable_key@ == e.stable_key@
    &&& n.kind@ == e.kind@
    &&& n.name@ == e.name@
    &&& opt_view(n.source) == source_text(e.source)
    &&& n.degree == degree
}

/// `g` reports relation `r`.
pub open spec fn edge_of(g: GraphEdge, r: Relation) -> bool {
    &&& g.id@ == r.id@
    &&& g.kind@ == r.kind@
    &&& g.from@ == r.from@
    &&& g.to@ == r.to@
    &&& g.status@ == r.status@
    &&& g.confidence@ == r.confidence@
    &&& views(g.evidence@) == evidence_texts(r.evidence@)
}

/// Reports an entity with the given degree.
pub fn graph_node(entity: &Entity, degree: usize) -> (r: GraphNode)
    ensures
        node_of(r, *entity, degree as nat),
{
    GraphNode {
        id: entity.id.clone(),
        stable_key: entity.stable_key.clone(),
        kind: entity.kind.clone(),
        name: entity.name.clone(),
        source: render_source(&entity.source),
        degree,
    }
}

/// Reports a relation.
pub fn graph_edge(relation: &Relation) -> (r: GraphEdge)
    ensures
        edge_of(r, *relation),
{
    GraphEdge {
        id: relation.id.clone(),
        kind: relation.kind.clone(),
        from: relation.from.clone(),
        to: relation.to.clone(),
        status: relation.status.clone(),
        confidence: relation.confidence.clone(),
        evidence: render_evidence(&relation.evidence),
    }
}

/// The degree of the `i`-th entity.
pub open spec fn entity_degree(s: CanonicalSnapshot, i: int) -> nat {
    degree(s.relations@, s.entities@[i].id@)
}

/// Ordering of entities in an export: higher degree first, then stable key, then position.
pub open spec fn export_before(s: CanonicalSnapshot, i: int, j: int) -> bool {
    let di = entity_degree(s, i);
    let dj = entity_degree(s, j);
    let ki = s.entities@[i].stable_key@;
    let kj = s.entities@[j].stable_key@;
    di > dj || (di == dj && (lex_lt(ki, kj) || (ki == kj && i < j)))
}

/// Ordering of relations: by id, then position.
pub open spec fn relation_before(s: CanonicalSnapshot, i: int, j: int) -> bool {
    let ki = s.relations@[i].id@;
    let kj = s.relations@[j].id@;
    lex_lt(ki, kj) || (ki == kj && i < j)
}

/// The key an entity is exported by.
struct DegreeKey {
    degree: usize,
    stable_key: String,
    index: usize,
}

impl SortKey for DegreeKey {
    closed spec fn key_lt(&self, other: &Self) -> bool {
        self.degree > other.degree || (self.degree == other.degree && (lex_lt(
            self.stable_key@,
            other.stable_key@,
        ) || (self.stable_key@ == other.stable_key@ && self.index < other.index)))
    }

    proof fn lemma_key_lt_transitive(a: &Self, b: &Self, c: &Self) {
        if lex_lt(a.stable_key@, b.stable_key@) && lex_lt(b.stable_key@, c.stable_key@) {
            lemma_lex_lt_transitive(a.stable_key@, b.stable_key@, c.stable_key@);
        }
    }

    proof fn lemma_key_lt_irreflexive(a: &Self) {
        lemma_lex_lt_irreflexive(a.stable_key@);
    }

    fn lt(&self, other: &Self) -> (r: bool) {
        if self.degree != other.degree {
            self.degree > other.degree
        } else if str_lt(self.stable_key.as_str(), other.stable_key.as_str()) {
            true
        } else if str_eq(self.stable_key.as_str(), other.stable_key.as_str()) {
            self.index < other.index
        } else {
            false
        }
    }
}

/// The key a relation is ordered by.
struct IdKey {
    id: String,
    index: usize,
}

impl SortKey for IdKey {
    closed spec fn key_lt(&self, other: &Self) -> bool {
        lex_lt(self.id@, other.id@) || (self.id@ == other.id@ && self.index < other.index)
    }

    proof fn lemma_key_lt_transitive(a: &Self, b: &Self, c: &Self) {
        if lex_lt(a.id@, b.id@) && lex_lt(b.id@, c.id@) {
            lemma_lex_lt_transitive(a.id@, b.id@, c.id@);
        }
    }

    proof fn lemma_key_lt_irreflexive(a: &Self) {
        lemma_lex_lt_irreflexive(a.id@);
    }

    fn lt(&self, other: &Self) -> (r: bool) {
        if str_lt(self.id.as_str(), other.id.as_str()) {
            true
        } else if str_eq(self.id.as_str(), other.id.as_str()) {
            self.index < other.index
        } else {
            false
        }
    }
}

/// The entities of the snapshot, in export order.
fn export_order(snapshot: &CanonicalSnapshot) -> (order: Vec<usize>)
    requires
        snapshot.relations@.len() <= usize::MAX / 2,
    ensures
        order@.len() == snapshot.entities@.len(),
        lists_exactly(as_ints(order@), snapshot.entities@.len() as int, |j: int| true),
        sorted_by(as_ints(order@), |a: int, b: int| export_before(*snapshot, a, b)),
{
    let n = snapshot.entities.len();
    let mut keys: Vec<DegreeKey> = Vec::new();
    let mut i: usize = 0;
    while i < n
        invariant
            n == snapshot.entities@.len(),
            i <= n,
            snapshot.relations@.len() <= usize::MAX / 2,
            keys@.len() == i,
            forall|j: int| 0 <= j < i ==> (#[trigger] keys@[j]).index == j
                && keys@[j].degree == entity_degree(*snapshot, j)
                && keys@[j].stable_key@ == snapshot.entities@[j].stable_key@,
        decreases n - i,
    {
        let d = degree_of(&snapshot.relations, &snapshot.entities[i].id);
        keys.push(DegreeKey { degree: d, stable_key: snapshot.entities[i].stable_key.clone(), index: i });
        i = i + 1;
    }
    let ghost orig = keys@;
    let sorted = sort_by_key(keys);
    proof {
        assert(orig.no_duplicates()) by {
            assert forall|a: int, b: int| 0 <= a < orig.len() && 0 <= b < orig.len() && a != b
                implies orig[a] != orig[b] by {
                assert(orig[a].index == a);
                assert(orig[b].index == b);
            }
        }
        lemma_permutation_facts(orig, sorted@);
    }
    let mut order: Vec<usize> = Vec::new();
    let mut t: usize = 0;
    while t < sorted.len()
        invariant
            t <= sorted@.len(),
            sorted@.len() == n,
            order@.len() == t,
            forall|j: int| 0 <= j < t ==> order@[j] == (#[trigger] sorted@[j]).index,
        decreases sorted.len() - t,
    {
        order.push(sorted[t].index);
        t = t + 1;
    }
    proof {
        let o = as_ints(order@);
        assert forall|j: int| 0 <= j < n implies #[trigger] sorted@[j].index < n
            && sorted@[j] == orig[sorted@[j].index as int] by {
            assert(orig.contains(sorted@[j]));
        }
        assert(o.no_duplicates()) by {
            assert forall|a: int, b: int| 0 <= a < o.len() && 0 <= b < o.len() && a != b
                implies o[a] != o[b] by {
                assert(sorted@[a] != sorted@[b]);
                assert(sorted@[a].index < n);
                assert(sorted@[b].index < n);
            }
        }
        assert forall|j: int| 0 <= j < n && true implies o.contains(j) by {
            assert(orig[j].index == j);
            assert(sorted@.to_multiset() == orig.to_multiset());
            assert(orig.contains(orig[j]));
            broadcast use vstd::seq_lib::group_to_multiset_ensures;
            assert(orig.to_multiset().count(orig[j]) > 0);
            assert(sorted@.contains(orig[j]));
            let w = choose|w: int| 0 <= w < sorted@.len() && sorted@[w] == orig[j];
            assert(o[w] == j);
        }
        assert forall|i: int| 0 <= i < o.len() implies 0 <= #[trigger] o[i] < n by {
            assert(o[i] == sorted@[i].index);
        }
        assert forall|a: int, b: int| 0 <= a < b < o.len() implies
            !export_before(*snapshot, #[trigger] o[b], #[trigger] o[a]) by {
            assert(!sorted@[b].key_lt(&sorted@[a]));
            assert(sorted@[a] == orig[o[a]]);
            assert(sorted@[b] == orig[o[b]]);
        }
    }
    order
}

/// A relation whose two endpoint ids are both among `ids`.
pub open spec fn joins(ids: Seq<Seq<char>>, r: Relation) -> bool {
    ids.contains(r.from@) && ids.contains(r.to@)
}

/// `views(v)` holds `x` when some string of `v` has its characters.
pub proof fn lemma_views_contains(v: Seq<String>, x: Seq<char>)
    ensures
        views(v).contains(x) == exists|a: int| 0 <= a < v.len() && #[trigger] v[a]@ == x,
{
    if views(v).contains(x) {
        let w = choose|w: int| 0 <= w < views(v).len() && views(v)[w] == x;
        assert(v[w]@ == x);
    }
    if exists|a: int| 0 <= a < v.len() && #[trigger] v[a]@ == x {
        let w = choose|a: int| 0 <= a < v.len() && #[trigger] v[a]@ == x;
        assert(views(v)[w] == x);
    }
}

/// The positions that `mask` marks.
pub open spec fn marked(mask: Seq<bool>) -> spec_fn(int) -> bool {
    |j: int| mask[j]
}

/// The relations that `mask` marks, in relation order.
pub(crate) fn order_marked_relations(snapshot: &CanonicalSnapshot, mask: &Vec<bool>) -> (order: Vec<usize>)
    requires
        mask@.len() == snapshot.relations@.len(),
    ensures
        lists_exactly(as_ints(order@), snapshot.relations@.len() as int, marked(mask@)),
        sorted_by(as_ints(order@), |a: int, b: int| relation_before(*snapshot, a, b)),
{
    let m = snapshot.relations.len();
    let ghost member = marked(mask@);
    let mut keys: Vec<IdKey> = Vec::new();
    let mut i: usize = 0;
    while i < m
        invariant
            m == snapshot.relations@.len(),
            i <= m,
            member == marked(mask@),
            mask@.len() == m,
            forall|a: int| 0 <= a < keys@.len() ==> (#[trigger] keys@[a]).index < i
                && member(keys@[a].index as int)
                && keys@[a].id@ == snapshot.relations@[keys@[a].index as int].id@,
            forall|a: int, b: int| 0 <= a < b < keys@.len() ==> (#[trigger] keys@[a]).index < (#[trigger] keys@[b]).index,
            forall|j: int| 0 <= j < i && #[trigger] member(j) ==> exists|a: int| 0 <= a < keys@.len() && (#[trigger] keys@[a]).index == j,
        decreases m - i,
    {
        let r = &snapshot.relations[i];
        let hit = mask[i];
        let ghost before = keys@;
        assert(hit == member(i as int));
        if hit {
            keys.push(IdKey { id: r.id.clone(), index: i });
            assert(keys@[keys@.len() - 1].index == i);
        }
        proof {
            assert forall|j: int| 0 <= j < i + 1 && #[trigger] member(j) implies exists|a: int|
                0 <= a < keys@.len() && (#[trigger] keys@[a]).index == j by {
                if j < i {
                    let a = choose|a: int| 0 <= a < before.len() && (#[trigger] before[a]).index == j;
                    assert(keys@[a] == before[a]);
                } else {
                    assert(keys@[keys@.len() - 1].index == j);
                }
            }
        }
        i = i + 1;
    }
    let ghost orig = keys@;
    let sorted = sort_by_key(keys);
    proof {
        assert(orig.no_duplicates()) by {
            assert forall|a: int, b: int| 0 <= a < orig.len() && 0 <= b < orig.len() && a != b
                implies orig[a] != orig[b] by {
                if a < b {
                    assert(orig[a].index < orig[b].index);
                } else {
                    assert(orig[b].index < orig[a].index);
                }
            }
        }
        lemma_permutation_facts(orig, sorted@);
    }
    let mut order: Vec<usize> = Vec::new();
    let mut t: usize = 0;
    while t < sorted.len()
        invariant
            t <= sorted@.len(),
            order@.len() == t,
            forall|j: int| 0 <= j < t ==> order@[j] == (#[trigger] sorted@[j]).index,
        decreases sorted.len() - t,
    {
        order.push(sorted[t].index);
        t = t + 1;
    }
    proof {
        broadcast use vstd::seq_lib::group_to_multiset_ensures;

        let o = as_ints(order@);
        assert forall|j: int| 0 <= j < sorted@.len() implies orig.contains(#[trigger] sorted@[j]) by {}
        assert forall|i: int| 0 <= i < o.len() implies 0 <= #[trigger] o[i] < m && member(o[i]) by {
            assert(o[i] == sorted@[i].index);
            assert(orig.contains(sorted@[i]));
        }
        assert(o.no_duplicates()) by {
            assert forall|a: int, b: int| 0 <= a < o.len() && 0 <= b < o.len() && a != b
                implies o[a] != o[b] by {
                assert(sorted@[a] != sorted@[b]);
                assert(orig.contains(sorted@[a]));
                assert(orig.contains(sorted@[b]));
                let wa = choose|w: int| 0 <= w < orig.len() && orig[w] == sorted@[a];
                let wb = choose|w: int| 0 <= w < orig.len() && orig[w] == sorted@[b];
                if wa < wb {
                    assert(orig[wa].index < orig[wb].index);
                } else if wb < wa {
                    assert(orig[wb].index < orig[wa].index);
                }
            }
        }
        assert forall|j: int| 0 <= j < m && #[trigger] member(j) implies o.contains(j) by {
            let a = choose|a: int| 0 <= a < orig.len() && (#[trigger] orig[a]).index == j;
            assert(orig.contains(orig[a]));
            assert(orig.to_multiset().count(orig[a]) > 0);
            assert(sorted@.contains(orig[a]));
            let w = choose|w: int| 0 <= w < sorted@.len() && sorted@[w] == orig[a];
            assert(o[w] == j);
        }
        assert forall|a: int, b: int| 0 <= a < b < o.len() implies
            !relation_before(*snapshot, #[trigger] o[b], #[trigger] o[a]) by {
            assert(!sorted@[b].key_lt(&sorted@[a]));
            assert(orig.contains(sorted@[a]));
            assert(orig.contains(sorted@[b]));
        }
    }
    order
}

/// The ids of the first `max` relations, in relation order, that `mask` marks (which
/// are those that `member` admits), and how many it marks in all.
pub(crate) fn marked_relation_ids(
    snapshot: &CanonicalSnapshot,
    mask: &Vec<bool>,
    max: usize,
    Ghost(member): Ghost<spec_fn(int) -> bool>,
) -> (r: (Vec<String>, usize))
    requires
        mask@.len() == snapshot.relations@.len(),
        forall|j: int| 0 <= j < mask@.len() ==> #[trigger] mask@[j] == member(j),
    ensures
        lists_relation_ids(r.0@, *snapshot, member, max as int),
        r.1 == count_below(snapshot.relations@.len() as int, member),
        r.0@.len() == min_int(r.1 as int, max as int),
{
    let m = snapshot.relations.len();
    let order = order_marked_relations(snapshot, mask);
    let ghost o = as_ints(order@);
    proof {
        lemma_lists_exactly_congruent(o, m as int, marked(mask@), member);
        lemma_lists_exactly_len(o, m as int, member);
    }
    let total = order.len();
    let keep = if total < max { total } else { max };
    let mut ids: Vec<String> = Vec::new();
    let mut t: usize = 0;
    while t < keep
        invariant
            keep <= order@.len(),
            o == as_ints(order@),
            lists_exactly(o, m as int, member),
            m == snapshot.relations@.len(),
            t <= keep,
            views(ids@) == relation_ids_at(*snapshot, o.take(t as int)),
            ids@.len() == t,
        decreases keep - t,
    {
        assert(0 <= o[t as int] < m);
        let idc = snapshot.relations[order[t]].id.clone();
        let ghost old_ids = ids@;
        ids.push(idc);
        assert forall|a: int| 0 <= a < t implies ids@[a]@ == snapshot.relations@[o[a]].id@ by {
            assert(ids@[a] == old_ids[a]);
            assert(views(old_ids)[a] == relation_ids_at(*snapshot, o.take(t as int))[a]);
        }
        t = t + 1;
        assert(views(ids@) =~= relation_ids_at(*snapshot, o.take(t as int)));
    }
    proof {
        assert(views(ids@) == relation_ids_at(*snapshot, o.take(min_int(o.len() as int, max as int))));
    }
    (ids, total)
}

/// The relations that join entities named in `ids`, in relation order.
fn relations_joining(snapshot: &CanonicalSnapshot, ids: &Vec<String>) -> (order: Vec<usize>)
    ensures
        lists_exactly(
            as_ints(order@),
            snapshot.relations@.len() as int,
            |j: int| joins(views(ids@), snapshot.relations@[j]),
        ),
        sorted_by(as_ints(order@), |a: int, b: int| relation_before(*snapshot, a, b)),
{
    let m = snapshot.relations.len();
    let mut mask: Vec<bool> = Vec::new();
    let mut i: usize = 0;
    while i < m
        invariant
            m == snapshot.relations@.len(),
            i <= m,
            mask@.len() == i,
            forall|j: int| 0 <= j < i ==> #[trigger] mask@[j] == joins(views(ids@), snapshot.relations@[j]),
        decreases m - i,
    {
        let r = &snapshot.relations[i];
        let hit = contains_str(ids, &r.from) && contains_str(ids, &r.to);
        proof {
            lemma_views_contains(ids@, r.from@);
            lemma_views_contains(ids@, r.to@);
        }
        mask.push(hit);
        i = i + 1;
    }
    let order = order_marked_relations(snapshot, &mask);
    proof {
        lemma_lists_exactly_congruent(
            as_ints(order@),
            m as int,
            marked(mask@),
            |j: int| joins(views(ids@), snapshot.relations@[j]),
        );
    }
    order
}

/// The ids of the entities at the given positions.
pub open spec fn ids_at(s: CanonicalSnapshot, sel: Seq<int>) -> Seq<Seq<char>> {
    Seq::new(sel.len(), |i: int| s.entities@[sel[i]].id@)
}

/// The smaller of two integers.
pub open spec fn min_int(a: int, b: int) -> int {
    if a < b { a } else { b }
}

/// What `build_graph_export` returns, given the entity order `order` and the order
/// `rorder` of the relations that it keeps.
pub open spec fn export_layout(
    s: CanonicalSnapshot,
    max_entities: int,
    max_relations: int,
    order: Seq<int>,
    rorder: Seq<int>,
    r: GraphExport,
) -> bool {
    let n = s.entities@.len() as int;
    let m = s.relations@.len() as int;
    let k = min_int(n, max_entities);
    let ids = ids_at(s, order.take(k));
    &&& order.len() == n
    &&& lists_exactly(order, n, |j: int| true)
    &&& sorted_by(order, |a: int, b: int| export_before(s, a, b))
    &&& r.nodes@.len() == k
    &&& forall|i: int| 0 <= i < k ==> node_of(#[trigger] r.nodes@[i], s.entities@[order[i]], entity_degree(s, order[i]))
    &&& lists_exactly(rorder, m, |j: int| joins(ids, s.relations@[j]))
    &&& sorted_by(rorder, |a: int, b: int| relation_before(s, a, b))
    &&& r.edges@.len() == min_int(rorder.len() as int, max_relations)
    &&& forall|i: int| 0 <= i < r.edges@.len() ==> edge_of(#[trigger] r.edges@[i], s.relations@[rorder[i]])
    &&& r.omitted.nodes == n - distinct_count(ids)
    &&& r.omitted.edges == m - r.edges@.len()
    &&& r.omitted.reason@ == "graph_export_limits"@
}

/// Counts the distinct strings in `v`.
fn count_distinct(v: &Vec<String>) -> (r: usize)
    ensures
        r == distinct_count(views(v@)),
{
    let mut seen: Vec<String> = Vec::new();
    let mut count: usize = 0;
    let mut i: usize = 0;
    while i < v.len()
        invariant
            i <= v@.len(),
            views(seen@) == views(v@).take(i as int),
            count == distinct_count(views(v@).take(i as int)),
            count <= i,
        decreases v.len() - i,
    {
        let fresh = !contains_str(&seen, &v[i]);
        let ghost p = views(v@).take(i + 1);
        assert(p.drop_last() =~= views(v@).take(i as int));
        assert(p.last() == v@[i as int]@);
        proof {
            if p.drop_last().contains(p.last()) {
                let w = choose|w: int| 0 <= w < p.drop_last().len() && p.drop_last()[w] == p.last();
                assert(views(seen@)[w] == seen@[w]@);
            }
            if !fresh {
                let w = choose|w: int| 0 <= w < seen@.len() && seen@[w]@ == v@[i as int]@;
                assert(views(seen@)[w] == seen@[w]@);
            }
        }
        if fresh {
            count = count + 1;
        }
        seen.push(v[i].clone());
        i = i + 1;
        assert(views(seen@) =~= views(v@).take(i as int));
    }
    assert(views(v@).take(i as int) =~= views(v@));
    count
}

/// Exports the `max_entities` entities of highest degree (ties by stable key) and the
/// first `max_relations` relations, by id, among those that join them.
pub fn build_graph_export(snapshot: &CanonicalSnapshot, max_entities: usize, max_relations: usize) -> (r: GraphExport)
    requires
        snapshot.relations@.len() <= usize::MAX / 2,
    ensures
        r.schema@ == GRAPH_EXPORT_SCHEMA@,
        r.snapshot@ == snapshot_name(snapshot.snapshot),
        exists|order: Seq<int>, rorder: Seq<int>|
            export_layout(*snapshot, max_entities as int, max_relations as int, order, rorder, r),
{
    let order = export_order(snapshot);
    let n = snapshot.entities.len();
    let k = if n < max_entities { n } else { max_entities };
    let ghost o = as_ints(order@);
    let mut nodes: Vec<GraphNode> = Vec::new();
    let mut ids: Vec<String> = Vec::new();
    let mut i: usize = 0;
    while i < k
        invariant
            k <= n,
            n == snapshot.entities@.len(),
            o == as_ints(order@),
            order@.len() == n,
            snapshot.relations@.len() <= usize::MAX / 2,
            lists_exactly(o, n as int, |j: int| true),
            i <= k,
            nodes@.len() == i,
            ids@.len() == i,
            forall|a: int| 0 <= a < i ==> node_of(#[trigger] nodes@[a], snapshot.entities@[o[a]], entity_degree(*snapshot, o[a])),
            views(ids@) == ids_at(*snapshot, o.take(i as int)),
        decreases k - i,
    {
        assert(0 <= o[i as int] < n);
        assert(o[i as int] == order@[i as int] as int);
        let e = &snapshot.entities[order[i]];
        assert(*e == snapshot.entities@[o[i as int]]);
        let d = degree_of(&snapshot.relations, &e.id);
        nodes.push(graph_node(e, d));
        let idc = e.id.clone();
        assert(idc@ == e.id@);
        let ghost old_ids = ids@;
        ids.push(idc);
        assert forall|a: int| 0 <= a < i implies ids@[a]@ == snapshot.entities@[o[a]].id@ by {
            assert(ids@[a] == old_ids[a]);
            assert(views(old_ids)[a] == ids_at(*snapshot, o.take(i as int))[a]);
        }
        assert(ids@[i as int]@ == snapshot.entities@[o[i as int]].id@);
        i = i + 1;
        assert(views(ids@) =~= ids_at(*snapshot, o.take(i as int)));
    }
    let rorder = relations_joining(snapshot, &ids);
    let mut edges: Vec<GraphEdge> = Vec::new();
    let limit = if rorder.len() < max_relations { rorder.len() } else { max_relations };
    let mut t: usize = 0;
    while t < limit
        invariant
            limit <= rorder@.len(),
            lists_exactly(as_ints(rorder@), snapshot.relations@.len() as int, |j: int| joins(views(ids@), snapshot.relations@[j])),
            t <= limit,
            edges@.len() == t,
            forall|a: int| 0 <= a < t ==> edge_of(#[trigger] edges@[a], snapshot.relations@[rorder@[a] as int]),
        decreases limit - t,
    {
        assert(0 <= as_ints(rorder@)[t as int] < snapshot.relations@.len());
        edges.push(graph_edge(&snapshot.relations[rorder[t]]));
        t = t + 1;
    }
    let distinct = count_distinct(&ids);
    proof {
        lemma_distinct_count_bounded(views(ids@));
        lemma_distinct_indices_bounded(as_ints(rorder@), snapshot.relations@.len() as int);
    }
    let r = GraphExport {
        schema: String::from_str(GRAPH_EXPORT_SCHEMA),
        snapshot: snapshot_id(snapshot),
        nodes,
        edges,
        omitted: GraphOmitted {
            nodes: n - distinct,
            edges: snapshot.relations.len() - limit,
            reason: String::from_str("graph_export_limits"),
        },
    };
    proof {
        let ro = as_ints(rorder@);
        assert(export_layout(*snapshot, max_entities as int, max_relations as int, o, ro, r));
    }
    r
}

/// How XML text renders one character.
pub open spec fn xml_escape_char(c: char) -> Seq<char> {
    if c == '&' {
        "&amp;"@
    } else if c == '<' {
        "&lt;"@
    } else if c == '>' {
        "&gt;"@
    } else if c == '"' {
        "&quot;"@
    } else if c == '\'' {
        "&apos;"@
    } else {
        seq![c]
    }
}

/// `s` with the five XML special characters replaced by their entities.
pub open spec fn xml_escaped(s: Seq<char>) -> Seq<char>
    decreases s.len(),
{
    if s.len() == 0 {
        Seq::empty()
    } else {
        xml_escaped(s.drop_last()) + xml_escape_char(s.last())
    }
}

/// A character that XML markup gives meaning to inside an attribute or text.
pub open spec fn markup_char(c: char) -> bool {
    c == '<' || c == '>' || c == '"' || c == '\''
}

/// Escaped text holds no markup character: whatever it came from, it reads as plain text
/// inside a GraphML element or attribute.
pub proof fn lemma_xml_escaped_has_no_markup(s: Seq<char>)
    ensures
        forall|i: int| 0 <= i < xml_escaped(s).len() ==> !markup_char(#[trigger] xml_escaped(s)[i]),
    decreases s.len(),
{
    reveal_strlit("&amp;");
    reveal_strlit("&lt;");
    reveal_strlit("&gt;");
    reveal_strlit("&quot;");
    reveal_strlit("&apos;");
    if s.len() > 0 {
        let prev = xml_escaped(s.drop_last());
        let piece = xml_escape_char(s.last());
        lemma_xml_escaped_has_no_markup(s.drop_last());
        assert(xml_escaped(s) == prev + piece);
        assert forall|i: int| 0 <= i < xml_escaped(s).len() implies !markup_char(#[trigger] xml_escaped(s)[i]) by {
            if i < prev.len() {
                assert(xml_escaped(s)[i] == prev[i]);
            } else {
                assert(xml_escaped(s)[i] == piece[i - prev.len()]);
            }
        }
    }
}

proof fn lemma_xml_escaped_front(s: Seq<char>)
    requires
        s.len() > 0,
    ensures
        xml_escaped(s) == xml_escape_char(s[0]) + xml_escaped(s.drop_first()),
    decreases s.len(),
{
    if s.len() == 1 {
        assert(s.drop_last() =~= Seq::<char>::empty());
        assert(s.drop_first() =~= Seq::<char>::empty());
        assert(xml_escaped(s) =~= xml_escape_char(s[0]) + xml_escaped(s.drop_first()));
    } else {
        lemma_xml_escaped_front(s.drop_last());
        assert(s.drop_last().drop_first() =~= s.drop_first().drop_last());
        assert(s.drop_first().last() == s.last());
        assert(s.drop_last()[0] == s[0]);
        assert(xml_escaped(s) =~= xml_escape_char(s[0]) + xml_escaped(s.drop_first()));
    }
}

proof fn lemma_xml_escape_char_nonempty(c: char)
    ensures
        xml_escape_char(c).len() >= 1,
        xml_escape_char(c)[0] == '&' <==> (c == '&' || markup_char(c)),
{
    reveal_strlit("&amp;");
    reveal_strlit("&lt;");
    reveal_strlit("&gt;");
    reveal_strlit("&quot;");
    reveal_strlit("&apos;");
}

/// The escapes of two characters that begin the same text are the same escape.
proof fn lemma_xml_escape_char_prefix(a: char, b: char, ra: Seq<char>, rb: Seq<char>)
    requires
        xml_escape_char(a) + ra == xml_escape_char(b) + rb,
    ensures
        a == b,
        ra == rb,
{
    reveal_strlit("&amp;");
    reveal_strlit("&lt;");
    reveal_strlit("&gt;");
    reveal_strlit("&quot;");
    reveal_strlit("&apos;");
    let t = xml_escape_char(a) + ra;
    let ea = xml_escape_char(a);
    let eb = xml_escape_char(b);
    assert(t[0] == ea[0] && t[0] == eb[0]);
    if ea.len() >= 4 && eb.len() >= 4 {
        assert(t[1] == ea[1] && t[1] == eb[1]);
        assert(t[2] == ea[2] && t[2] == eb[2]);
    }
    assert(a == b);
    assert(ra =~= t.subrange(ea.len() as int, t.len() as int));
    assert(rb =~= t.subrange(eb.len() as int, t.len() as int));
}

/// Escaping loses nothing: two texts with the same escaped form are the same text.
pub proof fn lemma_xml_escaped_injective(a: Seq<char>, b: Seq<char>)
    requires
        xml_escaped(a) == xml_escaped(b),
    ensures
        a == b,
    decreases a.len(),
{
    if a.len() == 0 {
        if b.len() > 0 {
            lemma_xml_escaped_front(b);
            lemma_xml_escape_char_nonempty(b[0]);
        }
        assert(b =~= a);
    } else {
        lemma_xml_escaped_front(a);
        lemma_xml_escape_char_nonempty(a[0]);
        if b.len() == 0 {
            assert(xml_escaped(b).len() == 0);
        } else {
            lemma_xml_escaped_front(b);
            lemma_xml_escape_char_prefix(a[0], b[0], xml_escaped(a.drop_first()), xml_escaped(b.drop_first()));
            lemma_xml_escaped_injective(a.drop_first(), b.drop_first());
            assert(a =~= seq![a[0]] + a.drop_first());
            assert(b =~= seq![b[0]] + b.drop_first());
        }
    }
}

/// `t` begins with the five characters `a`..`e`.
pub open spec fn begins5(t: Seq<char>, a: char, b: char, c: char, d: char, e: char) -> bool {
    t.len() >= 5 && t[0] == a && t[1] == b && t[2] == c && t[3] == d && t[4] == e
}

/// `t` begins with the four characters `a`..`d`.
pub open spec fn begins4(t: Seq<char>, a: char, b: char, c: char, d: char) -> bool {
    t.len() >= 4 && t[0] == a && t[1] == b && t[2] == c && t[3] == d
}

/// `t` begins with the six characters `a`..`f`.
pub open spec fn begins6(t: Seq<char>, a: char, b: char, c: char, d: char, e: char, f: char) -> bool {
    t.len() >= 6 && t[0] == a && t[1] == b && t[2] == c && t[3] == d && t[4] == e && t[5] == f
}

/// Reads escaped text back: each of `&amp;`, `&lt;`, `&gt;`, `&quot;` and `&apos;` stands
/// for its character, every other character for itself.
pub open spec fn xml_unescaped(t: Seq<char>) -> Seq<char>
    decreases t.len(),
{
    if t.len() == 0 {
        Seq::empty()
    } else if begins5(t, '&', 'a', 'm', 'p', ';') {
        seq!['&'] + xml_unescaped(t.subrange(5, t.len() as int))
    } else if begins4(t, '&', 'l', 't', ';') {
        seq!['<'] + xml_unescaped(t.subrange(4, t.len() as int))
    } else if begins4(t, '&', 'g', 't', ';') {
        seq!['>'] + xml_unescaped(t.subrange(4, t.len() as int))
    } else if begins6(t, '&', 'q', 'u', 'o', 't', ';') {
        seq!['"'] + xml_unescaped(t.subrange(6, t.len() as int))
    } else if begins6(t, '&', 'a', 'p', 'o', 's', ';') {
        seq!['\''] + xml_unescaped(t.subrange(6, t.len() as int))
    } else {
        seq![t[0]] + xml_unescaped(t.drop_first())
    }
}

/// Reading escaped text back gives the text that was escaped.
pub proof fn lemma_xml_escape_round_trip(s: Seq<char>)
    ensures
        xml_unescaped(xml_escaped(s)) == s,
    decreases s.len(),
{
    reveal_strlit("&amp;");
    reveal_strlit("&lt;");
    reveal_strlit("&gt;");
    reveal_strlit("&quot;");
    reveal_strlit("&apos;");
    if s.len() == 0 {
        assert(xml_escaped(s) =~= Seq::<char>::empty());
    } else {
        lemma_xml_escaped_front(s);
        lemma_xml_escape_round_trip(s.drop_first());
        let piece = xml_escape_char(s[0]);
        let rest = xml_escaped(s.drop_first());
        let t = piece + rest;
        assert(t.subrange(piece.len() as int, t.len() as int) =~= rest);
        if piece.len() == 1 {
            assert(t.drop_first() =~= rest);
        }
        assert(xml_unescaped(t) =~= seq![s[0]] + s.drop_first());
        assert(s =~= seq![s[0]] + s.drop_first());
    }
}

fn escape_piece(c: char) -> (r: Option<&'static str>)
    ensures
        match r {
            None => xml_escape_char(c) == seq![c],
            Some(p) => p@ == xml_escape_char(c),
        },
{
    if c == '&' {
        Some("&amp;")
    } else if c == '<' {
        Some("&lt;")
    } else if c == '>' {
        Some("&gt;")
    } else if c == '"' {
        Some("&quot;")
    } else if c == '\'' {
        Some("&apos;")
    } else {
        None
    }
}

/// Escapes the XML special characters of `value`.
pub fn xml_escape(value: &str) -> (r: String)
    ensures
        r@ == xml_escaped(value@),
{
    let chars = crate::text::to_chars(value);
    let mut r = String::new();
    let mut i: usize = 0;
    while i < chars.len()
        invariant
            chars@ == value@,
            i <= chars@.len(),
            r@ == xml_escaped(chars@.take(i as int)),
        decreases chars.len() - i,
    {
        let c = chars[i];
        match escape_piece(c) {
            None => {
                let one = crate::text::char_string(c);
                r.append(one.as_str());
            },
            Some(piece) => {
                r.append(piece);
            },
        }
        assert(chars@.take(i + 1).drop_last() =~= chars@.take(i as int));
        i = i + 1;
    }
    assert(chars@.take(i as int) =~= value@);
    r
}

/// One `<data>` element of a GraphML node or edge.
pub open spec fn graphml_datum(key: Seq<char>, value: Seq<char>) -> Seq<char> {
    "      <data key=\""@ + xml_escaped(key) + "\">"@ + xml_escaped(value) + "</data>\n"@
}

/// Appends one `<data>` element to `output`.
pub fn graphml_data(output: &mut String, key: &str, value: &str)
    ensures
        final(output)@ == old(output)@ + graphml_datum(key@, value@),
{
    let k = xml_escape(key);
    let v = xml_escape(value);
    output.append("      <data key=\"");
    output.append(k.as_str());
    output.append("\">");
    output.append(v.as_str());
    output.append("</data>\n");
    assert(output@ =~= old(output)@ + graphml_datum(key@, value@));
}

/// `parts` joined by `sep`.
pub open spec fn join(parts: Seq<Seq<char>>, sep: Seq<char>) -> Seq<char>
    decreases parts.len(),
{
    if parts.len() == 0 {
        Seq::empty()
    } else if parts.len() == 1 {
        parts[0]
    } else {
        join(parts.drop_last(), sep) + sep + parts.last()
    }
}

/// Joins `parts` with `sep`.
pub fn join_strings(parts: &Vec<String>, sep: &str) -> (r: String)
    ensures
        r@ == join(views(parts@), sep@),
{
    let mut r = String::new();
    let mut i: usize = 0;
    while i < parts.len()
        invariant
            i <= parts@.len(),
            r@ == join(views(parts@).take(i as int), sep@),
        decreases parts.len() - i,
    {
        let ghost t = views(parts@).take(i + 1);
        assert(t.drop_last() =~= views(parts@).take(i as int));
        if i > 0 {
            r.append(sep);
        }
        r.append(parts[i].as_str());
        i = i + 1;
        if i == 1 {
            assert(r@ =~= join(views(parts@).take(i as int), sep@));
        }
    }
    assert(views(parts@).take(i as int) =~= views(parts@));
    r
}

/// The GraphML preamble: the XML declaration, the root element and the attribute keys.
pub const GRAPHML_PREAMBLE: &'static str = "<?xml version=\"1.0\" encoding=\"UTF-8\"?>\n<graphml xmlns=\"http://graphml.graphdrawing.org/xmlns\">\n  <key id=\"stable_key\" for=\"node\" attr.name=\"stable_key\" attr.type=\"string\"/>\n  <key id=\"kind\" for=\"all\" attr.name=\"kind\" attr.type=\"string\"/>\n  <key id=\"name\" for=\"node\" attr.name=\"name\" attr.type=\"string\"/>\n  <key id=\"source\" for=\"node\" attr.name=\"source\" attr.type=\"string\"/>\n  <key id=\"degree\" for=\"node\" attr.name=\"degree\" attr.type=\"int\"/>\n  <key id=\"status\" for=\"edge\" attr.name=\"status\" attr.type=\"string\"/>\n  <key id=\"confidence\" for=\"edge\" attr.name=\"confidence\" attr.type=\"double\"/>\n  <key id=\"evidence\" for=\"edge\" attr.name=\"evidence\" attr.type=\"string\"/>\n";

/// The GraphML element of one node.
pub open spec fn node_xml(n: GraphNode) -> Seq<char> {
    "    <node id=\""@ + xml_escaped(n.id@) + "\">\n"@
        + graphml_datum("stable_key"@, n.stable_key@)
        + graphml_datum("kind"@, n.kind@)
        + graphml_datum("name"@, n.name@)
        + match n.source {
            None => Seq::empty(),
            Some(s) => graphml_datum("source"@, s@),
        }
        + graphml_datum("degree"@, crate::snapshot::decimal(n.degree as nat))
        + "    </node>\n"@
}

/// The GraphML element of one edge.
pub open spec fn edge_xml(e: GraphEdge) -> Seq<char> {
    "    <edge id=\""@ + xml_escaped(e.id@) + "\" source=\""@ + xml_escaped(e.from@)
        + "\" target=\""@ + xml_escaped(e.to@) + "\">\n"@
        + graphml_datum("kind"@, e.kind@)
        + graphml_datum("status"@, e.status@)
        + graphml_datum("confidence"@, e.confidence@)
        + if e.evidence@.len() == 0 {
            Seq::empty()
        } else {
            graphml_datum("evidence"@, join(views(e.evidence@), ";"@))
        }
        + "    </edge>\n"@
}

/// The GraphML elements of a run of nodes.
pub open spec fn nodes_xml(ns: Seq<GraphNode>) -> Seq<char>
    decreases ns.len(),
{
    if ns.len() == 0 {
        Seq::empty()
    } else {
        nodes_xml(ns.drop_last()) + node_xml(ns.last())
    }
}

/// The GraphML elements of a run of edges.
pub open spec fn edges_xml(es: Seq<GraphEdge>) -> Seq<char>
    decreases es.len(),
{
    if es.len() == 0 {
        Seq::empty()
    } else {
        edges_xml(es.drop_last()) + edge_xml(es.last())
    }
}

/// The GraphML document of an export.
pub open spec fn graphml_text(export: GraphExport) -> Seq<char> {
    GRAPHML_PREAMBLE@ + "  <graph id=\""@ + xml_escaped(export.snapshot@)
        + "\" edgedefault=\"directed\">\n"@ + nodes_xml(export.nodes@) + edges_xml(export.edges@)
        + "  </graph>\n"@ + "</graphml>\n"@
}

#[verifier::spinoff_prover]
#[verifier::rlimit(40)]
fn push_node_xml(output: &mut String, n: &GraphNode)
    ensures
        final(output)@ == old(output)@ + node_xml(*n),
{
    let id = xml_escape(n.id.as_str());
    output.append("    <node id=\"");
    output.append(id.as_str());
    output.append("\">\n");
    graphml_data(output, "stable_key", n.stable_key.as_str());
    graphml_data(output, "kind", n.kind.as_str());
    graphml_data(output, "name", n.name.as_str());
    let ghost mid = output@;
    match &n.source {
        None => {},
        Some(s) => {
            graphml_data(output, "source", s.as_str());
        },
    }
    let degree = crate::snapshot::decimal_string(n.degree as u64);
    graphml_data(output, "degree", degree.as_str());
    output.append("    </node>\n");
    assert(output@ =~= old(output)@ + node_xml(*n));
}

fn push_edge_xml(output: &mut String, e: &GraphEdge)
    ensures
        final(output)@ == old(output)@ + edge_xml(*e),
{
    let id = xml_escape(e.id.as_str());
    let from = xml_escape(e.from.as_str());
    let to = xml_escape(e.to.as_str());
    output.append("    <edge id=\"");
    output.append(id.as_str());
    output.append("\" source=\"");
    output.append(from.as_str());
    output.append("\" target=\"");
    output.append(to.as_str());
    output.append("\">\n");
    graphml_data(output, "kind", e.kind.as_str());
    graphml_data(output, "status", e.status.as_str());
    graphml_data(output, "confidence", e.confidence.as_str());
    if e.evidence.len() > 0 {
        let joined = join_strings(&e.evidence, ";");
        graphml_data(output, "evidence", joined.as_str());
    }
    output.append("    </edge>\n");
    assert(output@ =~= old(output)@ + edge_xml(*e));
}

/// Renders an export as a GraphML document.
pub fn graph_export_to_graphml(export: &GraphExport) -> (r: String)
    ensures
        r@ == graphml_text(*export),
{
    let mut output = String::new();
    output.append(GRAPHML_PREAMBLE);
    let snap = xml_escape(export.snapshot.as_str());
    output.append("  <graph id=\"");
    output.append(snap.as_str());
    output.append("\" edgedefault=\"directed\">\n");
    let ghost head = output@;
    let mut i: usize = 0;
    while i < export.nodes.len()
        invariant
            i <= export.nodes@.len(),
            output@ == head + nodes_xml(export.nodes@.take(i as int)),
        decreases export.nodes.len() - i,
    {
        push_node_xml(&mut output, &export.nodes[i]);
        assert(export.nodes@.take(i + 1).drop_last() =~= export.nodes@.take(i as int));
        i = i + 1;
        assert(output@ =~= head + nodes_xml(export.nodes@.take(i as int)));
    }
    assert(export.nodes@.take(i as int) =~= export.nodes@);
    let ghost body = output@;
    let mut j: usize = 0;
    while j < export.edges.len()
        invariant
            j <= export.edges@.len(),
            output@ == body + edges_xml(export.edges@.take(j as int)),
        decreases export.edges.len() - j,
    {
        push_edge_xml(&mut output, &export.edges[j]);
        assert(export.edges@.take(j + 1).drop_last() =~= export.edges@.take(j as int));
        j = j + 1;
        assert(output@ =~= body + edges_xml(export.edges@.take(j as int)));
    }
    assert(export.edges@.take(j as int) =~= export.edges@);
    output.append("  </graph>\n");
    output.append("</graphml>\n");
    assert(output@ =~= graphml_text(*export));
    output
}

/// Whose entity a missing stable key was asked for.
#[derive(Debug)]
pub enum EndpointRole {
    Source,
    Target,
}

/// Why a graph query was refused.
#[derive(Debug)]
pub enum GraphError {
    RelatedLimits,
    PathVisitedLimit,
    HubsLimits,
    CyclesLimits,
    MissingEntity { stable_key: String },
    MissingEndpoint { role: EndpointRole, stable_key: String },
}

/// The message of a graph error.
pub open spec fn graph_error_message(e: GraphError) -> Seq<char> {
    match e {
        GraphError::RelatedLimits => "graph related entity and relation limits must be greater than zero"@,
        GraphError::PathVisitedLimit => "graph path max visited limit must be greater than zero"@,
        GraphError::HubsLimits => "graph hubs limits must be greater than zero"@,
        GraphError::CyclesLimits => "graph cycle limits must be greater than zero"@,
        GraphError::MissingEntity { stable_key } =>
            "canonical entity not found for stable key `"@ + stable_key@ + "`"@,
        GraphError::MissingEndpoint { role, stable_key } =>
            "canonical "@ + match role {
                EndpointRole::Source => "source"@,
                EndpointRole::Target => "target"@,
            } + " entity not found for stable key `"@ + stable_key@ + "`"@,
    }
}

impl GraphError {
    /// The error's message.
    pub fn to_string(&self) -> (r: String)
        ensures
            r@ == graph_error_message(*self),
    {
        match self {
            GraphError::RelatedLimits => String::from_str("graph related entity and relation limits must be greater than zero"),
            GraphError::PathVisitedLimit => String::from_str("graph path max visited limit must be greater than zero"),
            GraphError::HubsLimits => String::from_str("graph hubs limits must be greater than zero"),
            GraphError::CyclesLimits => String::from_str("graph cycle limits must be greater than zero"),
            GraphError::MissingEntity { stable_key } => {
                let mut r = String::from_str("canonical entity not found for stable key `");
                r.append(stable_key.as_str());
                r.append("`");
                r
            },
            GraphError::MissingEndpoint { role, stable_key } => {
                let mut r = String::from_str("canonical ");
                match role {
                    EndpointRole::Source => r.append("source"),
                    EndpointRole::Target => r.append("target"),
                }
                r.append(" entity not found for stable key `");
                r.append(stable_key.as_str());
                r.append("`");
                proof {
                    assert(r@ =~= graph_error_message(*self));
                }
                r
            },
        }
    }
}

/// The most connected entities.
pub struct GraphHubs {
    pub schema: String,
    pub snapshot: String,
    pub kind: Option<String>,
    pub hubs: Vec<GraphHub>,
    pub omitted: usize,
}

/// One hub with the ids of its relations.
pub struct GraphHub {
    pub entity: GraphNode,
    pub incoming_degree: usize,
    pub outgoing_degree: usize,
    pub incoming_relation_ids: Vec<String>,
    pub outgoing_relation_ids: Vec<String>,
    pub omitted_incoming_relation_ids: usize,
    pub omitted_outgoing_relation_ids: usize,
}

/// The optional kind filter as characters.
pub open spec fn kind_view(kind: Option<&str>) -> Option<Seq<char>> {
    match kind {
        None => None,
        Some(k) => Some(k@),
    }
}

/// Whether an entity passes the kind filter.
pub open spec fn kind_matches(e: Entity, kind: Option<Seq<char>>) -> bool {
    match kind {
        None => true,
        Some(k) => e.kind@ == k,
    }
}

/// An entity that gets a hub entry: it passes the filter, no earlier entity that passes
/// it carries the same id (that one took the id's relations), and it has relations.
pub open spec fn hub_candidate(s: CanonicalSnapshot, kind: Option<Seq<char>>, i: int) -> bool {
    &&& kind_matches(s.entities@[i], kind)
    &&& forall|j: int| 0 <= j < i && #[trigger] kind_matches(s.entities@[j], kind) ==> s.entities@[j].id@ != s.entities@[i].id@
    &&& entity_degree(s, i) > 0
}

/// Hub order: degree, incoming degree and outgoing degree, each descending; then stable
/// key; then position.
pub open spec fn hub_before(s: CanonicalSnapshot, i: int, j: int) -> bool {
    let rels = s.relations@;
    let ii = crate::snapshot::in_count(rels, s.entities@[i].id@);
    let ij = crate::snapshot::in_count(rels, s.entities@[j].id@);
    let oi = crate::snapshot::out_count(rels, s.entities@[i].id@);
    let oj = crate::snapshot::out_count(rels, s.entities@[j].id@);
    let ki = s.entities@[i].stable_key@;
    let kj = s.entities@[j].stable_key@;
    ii + oi > ij + oj || (ii + oi == ij + oj && (ii > ij || (ii == ij && (oi > oj || (oi == oj
        && (lex_lt(ki, kj) || (ki == kj && i < j)))))))
}

/// The ids of the relations at the given positions.
pub open spec fn relation_ids_at(s: CanonicalSnapshot, o: Seq<int>) -> Seq<Seq<char>> {
    Seq::new(o.len(), |i: int| s.relations@[o[i]].id@)
}

/// `v` holds, in relation order, the ids of the first `max` relations that `member` admits.
pub open spec fn lists_relation_ids(v: Seq<String>, s: CanonicalSnapshot, member: spec_fn(int) -> bool, max: int) -> bool {
    exists|o: Seq<int>|
        lists_exactly(o, s.relations@.len() as int, member)
        && sorted_by(o, |a: int, b: int| relation_before(s, a, b))
        && #[trigger] views(v) == relation_ids_at(s, o.take(min_int(o.len() as int, max)))
}

/// `h` is the hub entry of the `i`-th entity.
pub open spec fn hub_of(h: GraphHub, s: CanonicalSnapshot, i: int, max_ids: int) -> bool {
    let rels = s.relations@;
    let id = s.entities@[i].id@;
    let inn = crate::snapshot::in_count(rels, id);
    let out = crate::snapshot::out_count(rels, id);
    &&& node_of(h.entity, s.entities@[i], inn + out)
    &&& h.incoming_degree == inn
    &&& h.outgoing_degree == out
    &&& lists_relation_ids(h.incoming_relation_ids@, s, crate::snapshot::ends_at(rels, id), max_ids)
    &&& lists_relation_ids(h.outgoing_relation_ids@, s, crate::snapshot::starts_at(rels, id), max_ids)
    &&& h.omitted_incoming_relation_ids == inn - h.incoming_relation_ids@.len()
    &&& h.omitted_outgoing_relation_ids == out - h.outgoing_relation_ids@.len()
}

/// The key a hub is ordered by.
struct HubKey {
    incoming: usize,
    outgoing: usize,
    stable_key: String,
    index: usize,
}

impl SortKey for HubKey {
    closed spec fn key_lt(&self, other: &Self) -> bool {
        let ii = self.incoming as int;
        let ij = other.incoming as int;
        let oi = self.outgoing as int;
        let oj = other.outgoing as int;
        ii + oi > ij + oj || (ii + oi == ij + oj && (ii > ij || (ii == ij && (oi > oj || (oi == oj
            && (lex_lt(self.stable_key@, other.stable_key@) || (self.stable_key@ == other.stable_key@
            && self.index < other.index)))))))
    }

    proof fn lemma_key_lt_transitive(a: &Self, b: &Self, c: &Self) {
        if lex_lt(a.stable_key@, b.stable_key@) && lex_lt(b.stable_key@, c.stable_key@) {
            lemma_lex_lt_transitive(a.stable_key@, b.stable_key@, c.stable_key@);
        }
    }

    proof fn lemma_key_lt_irreflexive(a: &Self) {
        lemma_lex_lt_irreflexive(a.stable_key@);
    }

    fn lt(&self, other: &Self) -> (r: bool) {
        let di = self.incoming as u128 + self.outgoing as u128;
        let dj = other.incoming as u128 + other.outgoing as u128;
        if di != dj {
            di > dj
        } else if self.incoming != other.incoming {
            self.incoming > other.incoming
        } else if self.outgoing != other.outgoing {
            self.outgoing > other.outgoing
        } else if str_lt(self.stable_key.as_str(), other.stable_key.as_str()) {
            true
        } else if str_eq(self.stable_key.as_str(), other.stable_key.as_str()) {
            self.index < other.index
        } else {
            false
        }
    }
}

/// The ids of the first `max` relations, in relation order, that end at (`incoming`) or
/// start at `id`, and how many there are in all.
fn relation_id_list(snapshot: &CanonicalSnapshot, id: &String, incoming: bool, max: usize) -> (r: (Vec<String>, usize))
    ensures
        ({
            let member = if incoming {
                crate::snapshot::ends_at(snapshot.relations@, id@)
            } else {
                crate::snapshot::starts_at(snapshot.relations@, id@)
            };
            &&& lists_relation_ids(r.0@, *snapshot, member, max as int)
            &&& r.1 == count_below(snapshot.relations@.len() as int, member)
            &&& r.0@.len() == min_int(r.1 as int, max as int)
        }),
{
    let ghost member = if incoming {
        crate::snapshot::ends_at(snapshot.relations@, id@)
    } else {
        crate::snapshot::starts_at(snapshot.relations@, id@)
    };
    let m = snapshot.relations.len();
    let mut mask: Vec<bool> = Vec::new();
    let mut i: usize = 0;
    while i < m
        invariant
            m == snapshot.relations@.len(),
            i <= m,
            mask@.len() == i,
            member == (if incoming {
                crate::snapshot::ends_at(snapshot.relations@, id@)
            } else {
                crate::snapshot::starts_at(snapshot.relations@, id@)
            }),
            forall|j: int| 0 <= j < i ==> #[trigger] mask@[j] == member(j),
        decreases m - i,
    {
        let r = &snapshot.relations[i];
        let hit = if incoming { str_eq(r.to.as_str(), id.as_str()) } else { str_eq(r.from.as_str(), id.as_str()) };
        mask.push(hit);
        i = i + 1;
    }
    let order = order_marked_relations(snapshot, &mask);
    let ghost o = as_ints(order@);
    proof {
        lemma_lists_exactly_congruent(o, m as int, marked(mask@), member);
        lemma_lists_exactly_len(o, m as int, member);
    }
    let total = order.len();
    let keep = if total < max { total } else { max };
    let mut ids: Vec<String> = Vec::new();
    let mut t: usize = 0;
    while t < keep
        invariant
            keep <= order@.len(),
            o == as_ints(order@),
            lists_exactly(o, m as int, member),
            m == snapshot.relations@.len(),
            t <= keep,
            views(ids@) == relation_ids_at(*snapshot, o.take(t as int)),
            ids@.len() == t,
        decreases keep - t,
    {
        assert(0 <= o[t as int] < m);
        let idc = snapshot.relations[order[t]].id.clone();
        let ghost old_ids = ids@;
        ids.push(idc);
        assert forall|a: int| 0 <= a < t implies ids@[a]@ == snapshot.relations@[o[a]].id@ by {
            assert(ids@[a] == old_ids[a]);
            assert(views(old_ids)[a] == relation_ids_at(*snapshot, o.take(t as int))[a]);
        }
        t = t + 1;
        assert(views(ids@) =~= relation_ids_at(*snapshot, o.take(t as int)));
    }
    proof {
        assert(views(ids@) == relation_ids_at(*snapshot, o.take(min_int(o.len() as int, max as int))));
    }
    (ids, total)
}

/// The hub entry of the `i`-th entity.
fn hub_entry(snapshot: &CanonicalSnapshot, i: usize, max_ids: usize) -> (h: GraphHub)
    requires
        i < snapshot.entities@.len(),
        snapshot.relations@.len() <= usize::MAX / 2,
    ensures
        hub_of(h, *snapshot, i as int, max_ids as int),
{
    let e = &snapshot.entities[i];
    let (incoming_ids, incoming) = relation_id_list(snapshot, &e.id, true, max_ids);
    let (outgoing_ids, outgoing) = relation_id_list(snapshot, &e.id, false, max_ids);
    proof {
        crate::snapshot::lemma_counts_bounded(snapshot.relations@, e.id@);
    }
    let omitted_in = incoming - incoming_ids.len();
    let omitted_out = outgoing - outgoing_ids.len();
    GraphHub {
        entity: graph_node(e, incoming + outgoing),
        incoming_degree: incoming,
        outgoing_degree: outgoing,
        incoming_relation_ids: incoming_ids,
        outgoing_relation_ids: outgoing_ids,
        omitted_incoming_relation_ids: omitted_in,
        omitted_outgoing_relation_ids: omitted_out,
    }
}

fn kind_matches_exec(e: &Entity, kind: Option<&str>) -> (r: bool)
    ensures
        r == kind_matches(*e, kind_view(kind)),
{
    match kind {
        None => true,
        Some(k) => str_eq(e.kind.as_str(), k),
    }
}

/// Ranks the entities by their relations, highest degree first, and reports the first
/// `limit` of them with at most `max_relation_ids` relation ids each way.
pub fn build_graph_hubs(
    snapshot: &CanonicalSnapshot,
    limit: usize,
    kind: Option<&str>,
    max_relation_ids: usize,
) -> (r: Result<GraphHubs, GraphError>)
    requires
        snapshot.relations@.len() <= usize::MAX / 2,
    ensures
        r is Err <==> (limit == 0 || max_relation_ids == 0),
        match r {
            Err(e) => e is HubsLimits,
            Ok(h) => {
                &&& h.schema@ == GRAPH_HUBS_SCHEMA@
                &&& h.snapshot@ == snapshot_name(snapshot.snapshot)
                &&& opt_view(h.kind) == kind_view(kind)
                &&& exists|order: Seq<int>| {
                    &&& lists_exactly(order, snapshot.entities@.len() as int, |i: int| hub_candidate(*snapshot, kind_view(kind), i))
                    &&& sorted_by(order, |a: int, b: int| hub_before(*snapshot, a, b))
                    &&& h.hubs@.len() == min_int(order.len() as int, limit as int)
                    &&& h.omitted == order.len() - h.hubs@.len()
                    &&& forall|i: int| 0 <= i < h.hubs@.len() ==> hub_of(#[trigger] h.hubs@[i], *snapshot, order[i], max_relation_ids as int)
                }
            },
        },
{
    if limit == 0 || max_relation_ids == 0 {
        return Err(GraphError::HubsLimits);
    }
    let ghost kv = kind_view(kind);
    let ghost member = |i: int| hub_candidate(*snapshot, kv, i);
    let n = snapshot.entities.len();
    let mut keys: Vec<HubKey> = Vec::new();
    let mut i: usize = 0;
    while i < n
        invariant
            n == snapshot.entities@.len(),
            i <= n,
            kv == kind_view(kind),
            member == (|i: int| hub_candidate(*snapshot, kv, i)),
            snapshot.relations@.len() <= usize::MAX / 2,
            forall|a: int| 0 <= a < keys@.len() ==> (#[trigger] keys@[a]).index < i
                && member(keys@[a].index as int)
                && keys@[a].stable_key@ == snapshot.entities@[keys@[a].index as int].stable_key@
                && keys@[a].incoming == crate::snapshot::in_count(snapshot.relations@, snapshot.entities@[keys@[a].index as int].id@)
                && keys@[a].outgoing == crate::snapshot::out_count(snapshot.relations@, snapshot.entities@[keys@[a].index as int].id@),
            forall|a: int, b: int| 0 <= a < b < keys@.len() ==> (#[trigger] keys@[a]).index < (#[trigger] keys@[b]).index,
            forall|j: int| 0 <= j < i && #[trigger] member(j) ==> exists|a: int| 0 <= a < keys@.len() && (#[trigger] keys@[a]).index == j,
        decreases n - i,
    {
        let e = &snapshot.entities[i];
        let mut fresh = kind_matches_exec(e, kind);
        if fresh {
            let mut j: usize = 0;
            while j < i
                invariant
                    i < n,
                    n == snapshot.entities@.len(),
                    j <= i,
                    *e == snapshot.entities@[i as int],
                    fresh == forall|q: int| 0 <= q < j && #[trigger] kind_matches(snapshot.entities@[q], kv) ==> snapshot.entities@[q].id@ != e.id@,
                    kv == kind_view(kind),
                decreases i - j,
            {
                if kind_matches_exec(&snapshot.entities[j], kind) && str_eq(snapshot.entities[j].id.as_str(), e.id.as_str()) {
                    fresh = false;
                }
                j = j + 1;
            }
        }
        let (out_n, in_n) = crate::snapshot::count_endpoints(&snapshot.relations, &e.id);
        proof {
            crate::snapshot::lemma_counts_bounded(snapshot.relations@, e.id@);
        }
        let ghost before = keys@;
        assert(fresh && out_n + in_n > 0 <==> member(i as int));
        if fresh && out_n + in_n > 0 {
            keys.push(HubKey { incoming: in_n, outgoing: out_n, stable_key: e.stable_key.clone(), index: i });
            assert(keys@[keys@.len() - 1].index == i);
        }
        proof {
            assert forall|j: int| 0 <= j < i + 1 && #[trigger] member(j) implies exists|a: int|
                0 <= a < keys@.len() && (#[trigger] keys@[a]).index == j by {
                if j < i {
                    let a = choose|a: int| 0 <= a < before.len() && (#[trigger] before[a]).index == j;
                    assert(keys@[a] == before[a]);
                } else {
                    assert(keys@[keys@.len() - 1].index == j);
                }
            }
        }
        i = i + 1;
    }
    let ghost orig = keys@;
    let sorted = sort_by_key(keys);
    proof {
        assert(orig.no_duplicates()) by {
            assert forall|a: int, b: int| 0 <= a < orig.len() && 0 <= b < orig.len() && a != b
                implies orig[a] != orig[b] by {
                if a < b {
                    assert(orig[a].index < orig[b].index);
                } else {
                    assert(orig[b].index < orig[a].index);
                }
            }
        }
        lemma_permutation_facts(orig, sorted@);
    }
    let mut order: Vec<usize> = Vec::new();
    let mut t: usize = 0;
    while t < sorted.len()
        invariant
            t <= sorted@.len(),
            order@.len() == t,
            forall|j: int| 0 <= j < t ==> order@[j] == (#[trigger] sorted@[j]).index,
        decreases sorted.len() - t,
    {
        order.push(sorted[t].index);
        t = t + 1;
    }
    let ghost o = as_ints(order@);
    proof {
        broadcast use vstd::seq_lib::group_to_multiset_ensures;

        assert forall|j: int| 0 <= j < sorted@.len() implies orig.contains(#[trigger] sorted@[j]) by {}
        assert forall|q: int| 0 <= q < o.len() implies 0 <= #[trigger] o[q] < n && member(o[q]) by {
            assert(o[q] == sorted@[q].index);
            assert(orig.contains(sorted@[q]));
        }
        assert(o.no_duplicates()) by {
            assert forall|a: int, b: int| 0 <= a < o.len() && 0 <= b < o.len() && a != b
                implies o[a] != o[b] by {
                assert(sorted@[a] != sorted@[b]);
                assert(orig.contains(sorted@[a]));
                assert(orig.contains(sorted@[b]));
                let wa = choose|w: int| 0 <= w < orig.len() && orig[w] == sorted@[a];
                let wb = choose|w: int| 0 <= w < orig.len() && orig[w] == sorted@[b];
                if wa < wb {
                    assert(orig[wa].index < orig[wb].index);
                } else if wb < wa {
                    assert(orig[wb].index < orig[wa].index);
                }
            }
        }
        assert forall|j: int| 0 <= j < n && #[trigger] member(j) implies o.contains(j) by {
            let a = choose|a: int| 0 <= a < orig.len() && (#[trigger] orig[a]).index == j;
            assert(orig.contains(orig[a]));
            assert(orig.to_multiset().count(orig[a]) > 0);
            assert(sorted@.contains(orig[a]));
            let w = choose|w: int| 0 <= w < sorted@.len() && sorted@[w] == orig[a];
            assert(o[w] == j);
        }
        assert forall|a: int, b: int| 0 <= a < b < o.len() implies
            !hub_before(*snapshot, #[trigger] o[b], #[trigger] o[a]) by {
            assert(!sorted@[b].key_lt(&sorted@[a]));
            assert(orig.contains(sorted@[a]));
            assert(orig.contains(sorted@[b]));
        }
    }
    let keep = if order.len() < limit { order.len() } else { limit };
    let mut hubs: Vec<GraphHub> = Vec::new();
    let mut q: usize = 0;
    while q < keep
        invariant
            keep <= order@.len(),
            o == as_ints(order@),
            lists_exactly(o, n as int, member),
            n == snapshot.entities@.len(),
            snapshot.relations@.len() <= usize::MAX / 2,
            q <= keep,
            hubs@.len() == q,
            forall|a: int| 0 <= a < q ==> hub_of(#[trigger] hubs@[a], *snapshot, o[a], max_relation_ids as int),
        decreases keep - q,
    {
        assert(0 <= o[q as int] < n);
        hubs.push(hub_entry(snapshot, order[q], max_relation_ids));
        q = q + 1;
    }
    let kind_out = match kind {
        None => None,
        Some(k) => Some(String::from_str(k)),
    };
    let r = GraphHubs {
        schema: String::from_str(GRAPH_HUBS_SCHEMA),
        snapshot: snapshot_id(snapshot),
        kind: kind_out,
        omitted: order.len() - keep,
        hubs,
    };
    proof {
        assert(lists_exactly(o, snapshot.entities@.len() as int, |i: int| hub_candidate(*snapshot, kind_view(kind), i)));
        assert(sorted_by(o, |a: int, b: int| hub_before(*snapshot, a, b)));
        assert(r.hubs@.len() == min_int(o.len() as int, limit as int));
        assert(r.omitted == o.len() - r.hubs@.len());
        assert(forall|i: int| 0 <= i < r.hubs@.len() ==> hub_of(#[trigger] r.hubs@[i], *snapshot, o[i], max_relation_ids as int));
        assert(opt_view(r.kind) == kind_view(kind));
    }
    Ok(r)
}

/// An optional position as an integer.
pub open spec fn opt_int(o: Option<usize>) -> Option<int> {
    match o {
        None => None,
        Some(x) => Some(x as int),
    }
}

/// The entity at each end of relation `r`, as its ids name them.
pub open spec fn from_entity(s: CanonicalSnapshot, r: int) -> Option<int> {
    entity_index(s.entities@, s.relations@[r].from@)
}

pub open spec fn to_entity(s: CanonicalSnapshot, r: int) -> Option<int> {
    entity_index(s.entities@, s.relations@[r].to@)
}

/// Relation `r` links entity `u` to entity `v`, read in either direction.
pub open spec fn link_via(s: CanonicalSnapshot, r: int, u: int, v: int) -> bool {
    (from_entity(s, r) == Some(u) && to_entity(s, r) == Some(v))
        || (to_entity(s, r) == Some(u) && from_entity(s, r) == Some(v))
}

/// Some relation links `u` and `v`.
pub open spec fn linked(s: CanonicalSnapshot, u: int, v: int) -> bool {
    exists|r: int| 0 <= r < s.relations@.len() && #[trigger] link_via(s, r, u, v)
}

/// `path` walks from `path[0]` to its last entity, each step along a relation.
pub open spec fn walk(s: CanonicalSnapshot, path: Seq<int>) -> bool {
    &&& path.len() >= 1
    &&& forall|i: int| 0 <= i < path.len() - 1 ==> #[trigger] linked(s, path[i], path[i + 1])
}

/// `path` is a walk from `root` to `v` of at most `k` steps.
pub open spec fn walk_within(s: CanonicalSnapshot, root: int, v: int, k: nat, path: Seq<int>) -> bool {
    walk(s, path) && path[0] == root && path.last() == v && path.len() <= k + 1
}

/// Entity `v` is at most `k` links away from `root`.
pub open spec fn within(s: CanonicalSnapshot, root: int, v: int, k: nat) -> bool {
    exists|path: Seq<int>| #[trigger] walk_within(s, root, v, k, path)
}

pub proof fn lemma_within_zero(s: CanonicalSnapshot, root: int, v: int)
    ensures
        within(s, root, root, 0),
        within(s, root, v, 0) ==> v == root,
{
    assert(walk_within(s, root, root, 0, seq![root]));
    if within(s, root, v, 0) {
        let p = choose|p: Seq<int>| #[trigger] walk_within(s, root, v, 0, p);
        assert(p.len() == 1);
    }
}

pub proof fn lemma_within_monotone(s: CanonicalSnapshot, root: int, v: int, a: nat, b: nat)
    requires
        within(s, root, v, a),
        a <= b,
    ensures
        within(s, root, v, b),
{
    let p = choose|p: Seq<int>| #[trigger] walk_within(s, root, v, a, p);
    assert(walk_within(s, root, v, b, p));
}

pub proof fn lemma_within_step(s: CanonicalSnapshot, root: int, u: int, v: int, d: nat)
    requires
        within(s, root, u, d),
        linked(s, u, v),
    ensures
        within(s, root, v, d + 1),
{
    let p = choose|p: Seq<int>| #[trigger] walk_within(s, root, u, d, p);
    let q = p.push(v);
    assert forall|i: int| 0 <= i < q.len() - 1 implies #[trigger] linked(s, q[i], q[i + 1]) by {
        if i < p.len() - 1 {
            assert(q[i] == p[i]);
            assert(q[i + 1] == p[i + 1]);
            assert(linked(s, p[i], p[i + 1]));
        }
    }
    assert(walk_within(s, root, v, d + 1, q));
}

/// A walk of `k + 1` steps that is not shorter ends one step past a walk of `k` steps.
pub proof fn lemma_within_split(s: CanonicalSnapshot, root: int, v: int, k: nat)
    requires
        within(s, root, v, k + 1),
        !within(s, root, v, k),
    ensures
        exists|u: int| #[trigger] within(s, root, u, k) && linked(s, u, v),
{
    let p = choose|p: Seq<int>| #[trigger] walk_within(s, root, v, k + 1, p);
    if p.len() <= k + 1 {
        assert(walk_within(s, root, v, k, p));
    }
    let q = p.drop_last();
    let u = q.last();
    assert(linked(s, p[p.len() - 2], p[p.len() - 1]));
    assert forall|i: int| 0 <= i < q.len() - 1 implies #[trigger] linked(s, q[i], q[i + 1]) by {
        assert(linked(s, p[i], p[i + 1]));
    }
    assert(walk_within(s, root, u, k, q));
    assert(within(s, root, u, k) && linked(s, u, v));
}

/// Once a bound adds no entity, no larger bound does.
pub proof fn lemma_within_stable(s: CanonicalSnapshot, root: int, k: nat, j: nat)
    requires
        forall|u: int| #[trigger] within(s, root, u, k + 1) ==> within(s, root, u, k),
        k <= j,
    ensures
        forall|u: int| #[trigger] within(s, root, u, j) ==> within(s, root, u, k),
    decreases j,
{
    if j > k {
        lemma_within_stable(s, root, k, (j - 1) as nat);
        assert forall|u: int| #[trigger] within(s, root, u, j) implies within(s, root, u, k) by {
            let jm = (j - 1) as nat;
            assert(jm + 1 == j);
            if !within(s, root, u, jm) {
                lemma_within_split(s, root, u, jm);
                let w = choose|w: int| #[trigger] within(s, root, w, jm) && linked(s, w, u);
                lemma_within_step(s, root, w, u, k);
            }
        }
    }
}

/// Resolves both ends of every relation to entity positions.
pub(crate) fn resolve_endpoints(snapshot: &CanonicalSnapshot) -> (ends: Vec<(Option<usize>, Option<usize>)>)
    ensures
        ends@.len() == snapshot.relations@.len(),
        forall|r: int| 0 <= r < ends@.len() ==> opt_int((#[trigger] ends@[r]).0) == from_entity(*snapshot, r)
            && opt_int(ends@[r].1) == to_entity(*snapshot, r),
{
    let mut ends: Vec<(Option<usize>, Option<usize>)> = Vec::new();
    let mut r: usize = 0;
    while r < snapshot.relations.len()
        invariant
            r <= snapshot.relations@.len(),
            ends@.len() == r,
            forall|q: int| 0 <= q < r ==> opt_int((#[trigger] ends@[q]).0) == from_entity(*snapshot, q)
                && opt_int(ends@[q].1) == to_entity(*snapshot, q),
        decreases snapshot.relations.len() - r,
    {
        let f = find_entity_by_id(&snapshot.entities, &snapshot.relations[r].from);
        let t = find_entity_by_id(&snapshot.entities, &snapshot.relations[r].to);
        ends.push((f, t));
        r = r + 1;
    }
    ends
}

/// The key a neighbor is visited in: its stable key, then the relation's id.
struct NeighborKey {
    stable_key: String,
    relation_id: String,
    relation: usize,
    entity: usize,
}

impl SortKey for NeighborKey {
    closed spec fn key_lt(&self, other: &Self) -> bool {
        lex_lt(self.stable_key@, other.stable_key@) || (self.stable_key@ == other.stable_key@ && (
        lex_lt(self.relation_id@, other.relation_id@) || (self.relation_id@ == other.relation_id@
            && self.relation < other.relation)))
    }

    proof fn lemma_key_lt_transitive(a: &Self, b: &Self, c: &Self) {
        if lex_lt(a.stable_key@, b.stable_key@) && lex_lt(b.stable_key@, c.stable_key@) {
            lemma_lex_lt_transitive(a.stable_key@, b.stable_key@, c.stable_key@);
        }
        if lex_lt(a.relation_id@, b.relation_id@) && lex_lt(b.relation_id@, c.relation_id@) {
            lemma_lex_lt_transitive(a.relation_id@, b.relation_id@, c.relation_id@);
        }
    }

    proof fn lemma_key_lt_irreflexive(a: &Self) {
        lemma_lex_lt_irreflexive(a.stable_key@);
        lemma_lex_lt_irreflexive(a.relation_id@);
    }

    fn lt(&self, other: &Self) -> (r: bool) {
        if str_lt(self.stable_key.as_str(), other.stable_key.as_str()) {
            true
        } else if !str_eq(self.stable_key.as_str(), other.stable_key.as_str()) {
            false
        } else if str_lt(self.relation_id.as_str(), other.relation_id.as_str()) {
            true
        } else if str_eq(self.relation_id.as_str(), other.relation_id.as_str()) {
            self.relation < other.relation
        } else {
            false
        }
    }
}

/// Whether `ends` resolves the relations of `s` as `from_entity` and `to_entity` say.
pub open spec fn resolved(s: CanonicalSnapshot, ends: Seq<(Option<usize>, Option<usize>)>) -> bool {
    &&& ends.len() == s.relations@.len()
    &&& forall|r: int| 0 <= r < ends.len() ==> opt_int((#[trigger] ends[r]).0) == from_entity(s, r)
        && opt_int(ends[r].1) == to_entity(s, r)
}

/// The relations at `u`, each with the entity at its other end, ordered by that
/// entity's stable key and then the relation's id.
fn neighbors(snapshot: &CanonicalSnapshot, ends: &Vec<(Option<usize>, Option<usize>)>, u: usize) -> (r: Vec<(usize, usize)>)
    requires
        resolved(*snapshot, ends@),
    ensures
        forall|j: int| 0 <= j < r@.len() ==> (#[trigger] r@[j]).0 < snapshot.relations@.len()
            && link_via(*snapshot, r@[j].0 as int, u as int, r@[j].1 as int)
            && r@[j].1 < snapshot.entities@.len(),
        forall|q: int, v: int| 0 <= q < snapshot.relations@.len() && #[trigger] link_via(*snapshot, q, u as int, v)
            ==> exists|j: int| 0 <= j < r@.len() && #[trigger] r@[j] == (q as usize, v as usize),
        forall|a: int, b: int| 0 <= a < b < r@.len() && (#[trigger] r@[a]).1 == (#[trigger] r@[b]).1
            ==> !lex_lt(snapshot.relations@[r@[b].0 as int].id@, snapshot.relations@[r@[a].0 as int].id@),
{
    let m = snapshot.relations.len();
    let mut keys: Vec<NeighborKey> = Vec::new();
    let mut q: usize = 0;
    while q < m
        invariant
            m == snapshot.relations@.len(),
            resolved(*snapshot, ends@),
            q <= m,
            forall|j: int| 0 <= j < keys@.len() ==> (#[trigger] keys@[j]).relation < m
                && link_via(*snapshot, keys@[j].relation as int, u as int, keys@[j].entity as int)
                && keys@[j].entity < snapshot.entities@.len()
                && keys@[j].stable_key@ == snapshot.entities@[keys@[j].entity as int].stable_key@
                && keys@[j].relation_id@ == snapshot.relations@[keys@[j].relation as int].id@,
            forall|p: int, v: int| 0 <= p < q && #[trigger] link_via(*snapshot, p, u as int, v)
                ==> exists|j: int| 0 <= j < keys@.len() && (#[trigger] keys@[j]).relation == p && keys@[j].entity == v,
        decreases m - q,
    {
        let (f, t) = ends[q];
        let ghost before = keys@;
        proof {
            if let Some(x) = from_entity(*snapshot, q as int) {
                lemma_entity_index(snapshot.entities@, snapshot.relations@[q as int].from@);
            }
            if let Some(x) = to_entity(*snapshot, q as int) {
                lemma_entity_index(snapshot.entities@, snapshot.relations@[q as int].to@);
            }
        }
        if f == Some(u) {
            if let Some(v) = t {
                keys.push(NeighborKey {
                    stable_key: snapshot.entities[v].stable_key.clone(),
                    relation_id: snapshot.relations[q].id.clone(),
                    relation: q,
                    entity: v,
                });
            }
        }
        let ghost mid = keys@;
        if t == Some(u) {
            if let Some(w) = f {
                keys.push(NeighborKey {
                    stable_key: snapshot.entities[w].stable_key.clone(),
                    relation_id: snapshot.relations[q].id.clone(),
                    relation: q,
                    entity: w,
                });
            }
        }
        proof {
            assert forall|p: int, v: int| 0 <= p < q + 1 && #[trigger] link_via(*snapshot, p, u as int, v)
                implies exists|j: int| 0 <= j < keys@.len() && (#[trigger] keys@[j]).relation == p && keys@[j].entity == v by {
                if p < q {
                    let j = choose|j: int| 0 <= j < before.len() && (#[trigger] before[j]).relation == p && before[j].entity == v;
                    assert(keys@[j] == before[j]);
                } else if from_entity(*snapshot, p) == Some(u as int) && to_entity(*snapshot, p) == Some(v) {
                    assert(mid[before.len() as int].relation == p);
                    assert(keys@[before.len() as int] == mid[before.len() as int]);
                } else {
                    assert(keys@[mid.len() as int].relation == p);
                }
            }
        }
        q = q + 1;
    }
    let ghost orig = keys@;
    let sorted = sort_by_key(keys);
    proof {
        lemma_permutation_facts(orig, sorted@);
    }
    let mut r: Vec<(usize, usize)> = Vec::new();
    let mut j: usize = 0;
    while j < sorted.len()
        invariant
            j <= sorted@.len(),
            r@.len() == j,
            forall|a: int| 0 <= a < j ==> (#[trigger] r@[a]) == (sorted@[a].relation, sorted@[a].entity),
        decreases sorted.len() - j,
    {
        r.push((sorted[j].relation, sorted[j].entity));
        j = j + 1;
    }
    proof {
        broadcast use vstd::seq_lib::group_to_multiset_ensures;

        assert forall|a: int| 0 <= a < r@.len() implies (#[trigger] r@[a]).0 < m
            && link_via(*snapshot, r@[a].0 as int, u as int, r@[a].1 as int)
            && r@[a].1 < snapshot.entities@.len() by {
            assert(orig.contains(sorted@[a]));
        }
        assert forall|p: int, v: int| 0 <= p < m && #[trigger] link_via(*snapshot, p, u as int, v)
            implies exists|a: int| 0 <= a < r@.len() && #[trigger] r@[a] == (p as usize, v as usize) by {
            let k = choose|k: int| 0 <= k < orig.len() && (#[trigger] orig[k]).relation == p && orig[k].entity == v;
            assert(orig.contains(orig[k]));
            assert(orig.to_multiset().count(orig[k]) > 0);
            assert(sorted@.contains(orig[k]));
            let w = choose|w: int| 0 <= w < sorted@.len() && sorted@[w] == orig[k];
            assert(r@[w] == (p as usize, v as usize));
        }
        assert forall|a: int, b: int| 0 <= a < b < r@.len() && (#[trigger] r@[a]).1 == (#[trigger] r@[b]).1
            implies !lex_lt(snapshot.relations@[r@[b].0 as int].id@, snapshot.relations@[r@[a].0 as int].id@) by {
            assert(orig.contains(sorted@[a]));
            assert(orig.contains(sorted@[b]));
            assert(!sorted@[b].key_lt(&sorted@[a]));
        }
    }
    r
}

/// Linked entities are entities of the snapshot.
pub proof fn lemma_linked_in_range(s: CanonicalSnapshot, u: int, v: int)
    requires
        linked(s, u, v),
    ensures
        0 <= u < s.entities@.len(),
        0 <= v < s.entities@.len(),
{
    let q = choose|q: int| 0 <= q < s.relations@.len() && #[trigger] link_via(s, q, u, v);
    lemma_entity_index(s.entities@, s.relations@[q].from@);
    lemma_entity_index(s.entities@, s.relations@[q].to@);
}

/// What a walk from an entity reaches is an entity.
pub proof fn lemma_within_in_range(s: CanonicalSnapshot, root: int, v: int, k: nat)
    requires
        within(s, root, v, k),
        0 <= root < s.entities@.len(),
    ensures
        0 <= v < s.entities@.len(),
{
    let p = choose|p: Seq<int>| #[trigger] walk_within(s, root, v, k, p);
    if p.len() > 1 {
        let i = p.len() - 2;
        assert(walk(s, p));
        assert(linked(s, p[i], p[i + 1]));
        lemma_linked_in_range(s, p[i], p[i + 1]);
    }
}

/// `d` is the fewest links from `root` to `v`.
pub open spec fn shortest(s: CanonicalSnapshot, root: int, v: int, d: nat) -> bool {
    within(s, root, v, d) && (d > 0 ==> !within(s, root, v, (d - 1) as nat))
}

/// Every entity found at a distance `d > 0` was found only after every entity within
/// `d - 1` links: the search keeps the nearest entities.
pub open spec fn nearest_first(s: CanonicalSnapshot, root: int, dist: Seq<Option<usize>>) -> bool {
    forall|v: int, w: int| 0 <= v < dist.len() && (#[trigger] dist[v]) is Some && dist[v]->0 > 0 && 0 <= w < dist.len()
        && #[trigger] within(s, root, w, (dist[v]->0 - 1) as nat) ==> dist[w] is Some
}

/// Breadth-first search from `root` along relations read in both directions, to at most
/// `depth` links and at most `max_entities` entities. Returns the entities in the order
/// found, the distance of each entity found, and whether an entity was left out for the
/// entity limit.
fn related_bfs<F: Fn() -> bool>(
    snapshot: &CanonicalSnapshot,
    ends: &Vec<(Option<usize>, Option<usize>)>,
    root: usize,
    depth: usize,
    max_entities: usize,
    probe: &mut CancellationProbe<F>,
) -> (r: Option<(Vec<usize>, Vec<Option<usize>>, bool)>)
    requires
        resolved(*snapshot, ends@),
        root < snapshot.entities@.len(),
        max_entities >= 1,
        old(probe).callable(),
    ensures
        final(probe).callable(),
        final(probe).active() == old(probe).active(),
        final(probe).asks() == old(probe).asks(),
        r is None ==> old(probe).active(),
        r is None ==> old(probe).asks().ensures((), true),
        r matches Some(res) ==> ({
            let (order, dist, truncated) = res;
            let n = snapshot.entities@.len() as int;
            &&& order@.len() >= 1 && order@[0] == root
            &&& as_ints(order@).no_duplicates()
            &&& order@.len() <= max_entities
            &&& forall|i: int| 0 <= i < order@.len() ==> (#[trigger] order@[i]) < n
            &&& dist@.len() == n
            &&& forall|i: int| 0 <= i < order@.len() ==> (#[trigger] dist@[order@[i] as int]) is Some
            &&& forall|v: int| 0 <= v < n && (#[trigger] dist@[v]) is Some ==> exists|i: int| 0 <= i < order@.len() && order@[i] == v
            &&& forall|v: int| 0 <= v < n && (#[trigger] dist@[v]) is Some ==> dist@[v]->0 <= depth
                && shortest(*snapshot, root as int, v, dist@[v]->0 as nat)
            &&& !truncated ==> forall|v: int| 0 <= v < n && #[trigger] within(*snapshot, root as int, v, depth as nat) ==> dist@[v] is Some
            &&& truncated ==> order@.len() == max_entities
            &&& nearest_first(*snapshot, root as int, dist@)
        }),
{
    let n = snapshot.entities.len();
    let ghost s = *snapshot;
    let ghost rt = root as int;
    let mut dist: Vec<Option<usize>> = Vec::new();
    let mut z: usize = 0;
    while z < n
        invariant
            z <= n,
            dist@.len() == z,
            forall|v: int| 0 <= v < z ==> (#[trigger] dist@[v]) is None,
        decreases n - z,
    {
        dist.push(None);
        z = z + 1;
    }
    dist.set(root, Some(0));
    let mut order: Vec<usize> = Vec::new();
    order.push(root);
    proof {
        lemma_within_zero(s, rt, rt);
        assert forall|v: int| 0 <= v < n && #[trigger] within(s, rt, v, 0) implies dist@[v] is Some by {
            lemma_within_zero(s, rt, v);
        }
        assert forall|v: int| 0 <= v < n && (#[trigger] dist@[v]) is Some implies exists|i: int| 0 <= i < order@.len() && order@[i] == v by {
            assert(v == root);
            assert(order@[0] == root);
        }
    }
    let mut lo: usize = 0;
    let mut k: usize = 0;
    let mut truncated = false;
    while k < depth && lo < order.len()
        invariant
            probe.callable(),
            probe.active() == old(probe).active(),
            probe.asks() == old(probe).asks(),
            resolved(s, ends@),
            s == *snapshot,
            rt == root as int,
            n == s.entities@.len(),
            root < n,
            max_entities >= 1,
            k <= depth,
            dist@.len() == n,
            nearest_first(s, rt, dist@),
            order@.len() >= 1 && order@[0] == root,
            as_ints(order@).no_duplicates(),
            order@.len() <= max_entities,
            forall|i: int| 0 <= i < order@.len() ==> (#[trigger] order@[i]) < n,
            forall|i: int| 0 <= i < order@.len() ==> (#[trigger] dist@[order@[i] as int]) is Some,
            forall|v: int| 0 <= v < n && (#[trigger] dist@[v]) is Some ==> exists|i: int| 0 <= i < order@.len() && order@[i] == v,
            forall|v: int| 0 <= v < n && (#[trigger] dist@[v]) is Some ==> dist@[v]->0 <= k
                && shortest(s, rt, v, dist@[v]->0 as nat),
            lo <= order@.len(),
            forall|i: int| 0 <= i < order@.len() ==> (i >= lo ==> (#[trigger] dist@[order@[i] as int]) == Some(k))
                && (i < lo ==> dist@[order@[i] as int]->0 < k),
            !truncated ==> forall|v: int| 0 <= v < n && #[trigger] within(s, rt, v, k as nat) ==> dist@[v] is Some,
            truncated ==> order@.len() >= max_entities,
        decreases depth - k,
    {
        let hi = order.len();
        let ghost t0 = truncated;
        let mut i: usize = lo;
        while i < hi
            invariant
                probe.callable(),
                probe.active() == old(probe).active(),
                probe.asks() == old(probe).asks(),
                resolved(s, ends@),
                s == *snapshot,
                rt == root as int,
                n == s.entities@.len(),
                root < n,
                max_entities >= 1,
                k < depth,
                lo <= i <= hi,
                hi <= order@.len(),
                lo < hi,
                dist@.len() == n,
                nearest_first(s, rt, dist@),
                order@.len() >= 1 && order@[0] == root,
                as_ints(order@).no_duplicates(),
                order@.len() <= max_entities,
                forall|x: int| 0 <= x < order@.len() ==> (#[trigger] order@[x]) < n,
                forall|x: int| 0 <= x < order@.len() ==> (#[trigger] dist@[order@[x] as int]) is Some,
                forall|v: int| 0 <= v < n && (#[trigger] dist@[v]) is Some ==> exists|x: int| 0 <= x < order@.len() && order@[x] == v,
                forall|v: int| 0 <= v < n && (#[trigger] dist@[v]) is Some ==> dist@[v]->0 <= k + 1
                    && shortest(s, rt, v, dist@[v]->0 as nat),
                forall|x: int| 0 <= x < order@.len() ==> (x < lo ==> (#[trigger] dist@[order@[x] as int])->0 < k)
                    && (lo <= x < hi ==> dist@[order@[x] as int] == Some(k))
                    && (x >= hi ==> dist@[order@[x] as int] == Some((k + 1) as usize)),
                !t0 ==> forall|v: int| 0 <= v < n && #[trigger] within(s, rt, v, k as nat) ==> dist@[v] is Some,
                truncated ==> order@.len() >= max_entities,
                t0 ==> truncated,
                forall|x: int, q: int, v: int| lo <= x < i && 0 <= q < s.relations@.len() && 0 <= v < n
                    && #[trigger] link_via(s, q, order@[x] as int, v) ==> (#[trigger] dist@[v]) is Some || truncated,
            decreases hi - i,
        {
            if probe.step() {
                return None;
            }
            let u = order[i];
            let nbrs = neighbors(snapshot, ends, u);
            proof {
                assert(dist@[u as int] == Some(k));
            }
            let mut j: usize = 0;
            while j < nbrs.len()
                invariant
                    probe.callable(),
                    probe.active() == old(probe).active(),
                    probe.asks() == old(probe).asks(),
                    resolved(s, ends@),
                    s == *snapshot,
                    rt == root as int,
                    n == s.entities@.len(),
                    root < n,
                    max_entities >= 1,
                    k < depth,
                    lo <= i < hi,
                    hi <= order@.len(),
                    u == order@[i as int],
                    dist@[u as int] == Some(k),
                    dist@.len() == n,
                    nearest_first(s, rt, dist@),
                    j <= nbrs@.len(),
                    forall|a: int| 0 <= a < nbrs@.len() ==> (#[trigger] nbrs@[a]).0 < s.relations@.len()
                        && link_via(s, nbrs@[a].0 as int, u as int, nbrs@[a].1 as int)
                        && nbrs@[a].1 < n,
                    order@.len() >= 1 && order@[0] == root,
                    as_ints(order@).no_duplicates(),
                    order@.len() <= max_entities,
                    forall|x: int| 0 <= x < order@.len() ==> (#[trigger] order@[x]) < n,
                    forall|x: int| 0 <= x < order@.len() ==> (#[trigger] dist@[order@[x] as int]) is Some,
                    forall|v: int| 0 <= v < n && (#[trigger] dist@[v]) is Some ==> exists|x: int| 0 <= x < order@.len() && order@[x] == v,
                    forall|v: int| 0 <= v < n && (#[trigger] dist@[v]) is Some ==> dist@[v]->0 <= k + 1
                        && shortest(s, rt, v, dist@[v]->0 as nat),
                    forall|x: int| 0 <= x < order@.len() ==> (x < lo ==> (#[trigger] dist@[order@[x] as int])->0 < k)
                        && (lo <= x < hi ==> dist@[order@[x] as int] == Some(k))
                        && (x >= hi ==> dist@[order@[x] as int] == Some((k + 1) as usize)),
                    !t0 ==> forall|v: int| 0 <= v < n && #[trigger] within(s, rt, v, k as nat) ==> dist@[v] is Some,
                    truncated ==> order@.len() >= max_entities,
                    t0 ==> truncated,
                    forall|x: int, q: int, v: int| lo <= x < i && 0 <= q < s.relations@.len() && 0 <= v < n
                        && #[trigger] link_via(s, q, order@[x] as int, v) ==> (#[trigger] dist@[v]) is Some || truncated,
                    forall|a: int| 0 <= a < j ==> (#[trigger] dist@[nbrs@[a].1 as int]) is Some || truncated,
                decreases nbrs.len() - j,
            {
                if probe.step() {
                    return None;
                }
                let v = nbrs[j].1;
                if dist[v].is_none() {
                    if order.len() >= max_entities {
                        truncated = true;
                    } else {
                        proof {
                            assert(!t0);
                            assert(linked(s, u as int, v as int)) by {
                                assert(link_via(s, nbrs@[j as int].0 as int, u as int, v as int));
                            }
                            assert(within(s, rt, u as int, k as nat));
                            lemma_within_step(s, rt, u as int, v as int, k as nat);
                            assert(!within(s, rt, v as int, k as nat));
                            assert(((k + 1) as nat - 1) as nat == k as nat);
                            assert forall|x: int| 0 <= x < order@.len() implies order@[x] != v by {
                                assert(dist@[order@[x] as int] is Some);
                            }
                        }
                        let ghost old_order = order@;
                        let ghost old_dist = dist@;
                        dist.set(v, Some(k + 1));
                        order.push(v);
                        proof {
                            assert(as_ints(order@).no_duplicates()) by {
                                assert forall|a: int, b: int| 0 <= a < order@.len() && 0 <= b < order@.len() && a != b
                                    implies as_ints(order@)[a] != as_ints(order@)[b] by {
                                    if a < old_order.len() && b < old_order.len() {
                                        assert(as_ints(old_order)[a] != as_ints(old_order)[b]);
                                    }
                                }
                            }
                            assert forall|w: int| 0 <= w < n && (#[trigger] dist@[w]) is Some implies exists|x: int| 0 <= x < order@.len() && order@[x] == w by {
                                if w == v {
                                    assert(order@[order@.len() - 1] == v);
                                } else {
                                    assert(old_dist[w] is Some);
                                    let x = choose|x: int| 0 <= x < old_order.len() && old_order[x] == w;
                                    assert(order@[x] == w);
                                }
                            }
                            assert forall|x: int| 0 <= x < order@.len() implies (x < lo ==> (#[trigger] dist@[order@[x] as int])->0 < k)
                                && (lo <= x < hi ==> dist@[order@[x] as int] == Some(k))
                                && (x >= hi ==> dist@[order@[x] as int] == Some((k + 1) as usize)) by {
                                if x < old_order.len() {
                                    assert(order@[x] == old_order[x]);
                                    assert(old_order[x] != v);
                                }
                            }
                            assert forall|y: int, w: int| 0 <= y < dist@.len() && (#[trigger] dist@[y]) is Some && dist@[y]->0 > 0 && 0 <= w < dist@.len()
                                && #[trigger] within(s, rt, w, (dist@[y]->0 - 1) as nat) implies dist@[w] is Some by {
                                if y == v {
                                    assert((dist@[y]->0 - 1) as nat == k as nat);
                                    assert(old_dist[w] is Some);
                                } else {
                                    assert(old_dist[y] == dist@[y]);
                                    assert(old_dist[w] is Some);
                                }
                            }
                        }
                    }
                }
                j = j + 1;
            }
            proof {
                assert forall|x: int, q: int, v: int| lo <= x < i + 1 && 0 <= q < s.relations@.len() && 0 <= v < n
                    && #[trigger] link_via(s, q, order@[x] as int, v) implies (#[trigger] dist@[v]) is Some || truncated by {
                    if x == i {
                        let a = choose|a: int| 0 <= a < nbrs@.len() && #[trigger] nbrs@[a] == (q as usize, v as usize);
                        assert(dist@[nbrs@[a].1 as int] is Some || truncated);
                    }
                }
            }
            i = i + 1;
        }
        let ghost lo_prev = lo;
        lo = hi;
        k = k + 1;
        proof {
            let kp = (k - 1) as nat;
            if !truncated {
                assert forall|v: int| 0 <= v < n && #[trigger] within(s, rt, v, k as nat) implies dist@[v] is Some by {
                    assert(kp + 1 == k as nat);
                    if !within(s, rt, v, kp) {
                        lemma_within_split(s, rt, v, kp);
                        let w = choose|w: int| #[trigger] within(s, rt, w, kp) && linked(s, w, v);
                        lemma_linked_in_range(s, w, v);
                        assert(dist@[w] is Some);
                        let dw = dist@[w]->0;
                        if dw < kp {
                            assert(within(s, rt, w, dw as nat));
                            lemma_within_step(s, rt, w, v, dw as nat);
                            lemma_within_monotone(s, rt, v, (dw + 1) as nat, kp);
                        }
                        assert(dw == kp);
                        let x = choose|x: int| 0 <= x < order@.len() && order@[x] == w;
                        assert(lo_prev <= x < lo);
                        let q = choose|q: int| 0 <= q < s.relations@.len() && #[trigger] link_via(s, q, w, v);
                        assert(link_via(s, q, order@[x] as int, v));
                    }
                }
            }
        }
    }
    proof {
        if !truncated && k < depth {
            assert(lo == order@.len());
            assert(k >= 1);
            let km = (k - 1) as nat;
            assert forall|u: int| #[trigger] within(s, rt, u, km + 1) implies within(s, rt, u, km) by {
                lemma_within_in_range(s, rt, u, km + 1);
                assert(dist@[u] is Some);
                let x = choose|x: int| 0 <= x < order@.len() && order@[x] == u;
                assert(dist@[u]->0 < k);
                lemma_within_monotone(s, rt, u, dist@[u]->0 as nat, km);
            }
            lemma_within_stable(s, rt, km, depth as nat);
            assert forall|v: int| 0 <= v < n && #[trigger] within(s, rt, v, depth as nat) implies dist@[v] is Some by {
                lemma_within_monotone(s, rt, v, km, k as nat);
            }
        }
    }
    Some((order, dist, truncated))
}

/// Related entities around a root entity.
pub struct GraphRelated {
    pub schema: String,
    pub snapshot: String,
    pub root: GraphRelatedNode,
    pub nodes: Vec<GraphRelatedNode>,
    pub edges: Vec<GraphEdge>,
    pub truncated: bool,
}

/// An entity with its distance from the root.
pub struct GraphRelatedNode {
    pub entity: GraphNode,
    pub distance: usize,
}

/// The entity a stable key roots a query at: the entity that the id of the first entity
/// with that key names.
pub open spec fn rooted_at(s: CanonicalSnapshot, key: Seq<char>) -> int {
    entity_index(s.entities@, s.entities@[first_with_stable_key(s.entities@, key)->0].id@)->0
}

/// Order of related entities: distance, then stable key, then id, then position.
pub open spec fn related_before(s: CanonicalSnapshot, a: int, da: int, b: int, db: int) -> bool {
    let ka = s.entities@[a].stable_key@;
    let kb = s.entities@[b].stable_key@;
    let ia = s.entities@[a].id@;
    let ib = s.entities@[b].id@;
    da < db || (da == db && (lex_lt(ka, kb) || (ka == kb && (lex_lt(ia, ib) || (ia == ib && a < b)))))
}

/// What `build_related_graph` returns for a root, given the entities `sel` it reports and
/// the order `rorder` of the relations among them.
pub open spec fn related_layout(
    s: CanonicalSnapshot,
    root: int,
    depth: int,
    max_entities: int,
    max_relations: int,
    sel: Seq<int>,
    rorder: Seq<int>,
    g: GraphRelated,
) -> bool {
    let n = s.entities@.len() as int;
    let m = s.relations@.len() as int;
    &&& sel.no_duplicates()
    &&& forall|i: int| 0 <= i < sel.len() ==> 0 <= #[trigger] sel[i] < n
    &&& sel.contains(root)
    &&& g.nodes@.len() == sel.len()
    &&& sel.len() <= max_entities
    &&& forall|i: int| 0 <= i < sel.len() ==> node_of((#[trigger] g.nodes@[i]).entity, s.entities@[sel[i]], entity_degree(s, sel[i]))
        && g.nodes@[i].distance <= depth
        && shortest(s, root, sel[i], g.nodes@[i].distance as nat)
    &&& forall|i: int, j: int| 0 <= i < j < sel.len() ==> !related_before(s, #[trigger] sel[j], g.nodes@[j].distance as int, #[trigger] sel[i], g.nodes@[i].distance as int)
    &&& !g.truncated ==> forall|v: int| 0 <= v < n && #[trigger] within(s, root, v, depth as nat) ==> sel.contains(v)
    &&& sel.len() < max_entities ==> forall|v: int| 0 <= v < n && #[trigger] within(s, root, v, depth as nat) ==> sel.contains(v)
    &&& lists_exactly(rorder, m, |j: int| joins(ids_at(s, sel), s.relations@[j]))
    &&& sorted_by(rorder, |a: int, b: int| relation_before(s, a, b))
    &&& g.edges@.len() == min_int(rorder.len() as int, max_relations)
    &&& forall|i: int| 0 <= i < g.edges@.len() ==> edge_of(#[trigger] g.edges@[i], s.relations@[rorder[i]])
    &&& rorder.len() > max_relations ==> g.truncated
    &&& g.truncated ==> rorder.len() > max_relations || sel.len() == max_entities
    &&& forall|i: int, v: int| #![trigger g.nodes@[i], within(s, root, v, (g.nodes@[i].distance - 1) as nat)]
        0 <= i < sel.len() && g.nodes@[i].distance > 0 && 0 <= v < n && within(s, root, v, (g.nodes@[i].distance - 1) as nat)
            ==> sel.contains(v)
}

/// The key related entities are reported in.
struct RelatedKey {
    distance: usize,
    stable_key: String,
    id: String,
    index: usize,
}

impl SortKey for RelatedKey {
    closed spec fn key_lt(&self, other: &Self) -> bool {
        self.distance < other.distance || (self.distance == other.distance && (lex_lt(self.stable_key@, other.stable_key@)
            || (self.stable_key@ == other.stable_key@ && (lex_lt(self.id@, other.id@) || (self.id@ == other.id@
            && self.index < other.index)))))
    }

    proof fn lemma_key_lt_transitive(a: &Self, b: &Self, c: &Self) {
        if lex_lt(a.stable_key@, b.stable_key@) && lex_lt(b.stable_key@, c.stable_key@) {
            lemma_lex_lt_transitive(a.stable_key@, b.stable_key@, c.stable_key@);
        }
        if lex_lt(a.id@, b.id@) && lex_lt(b.id@, c.id@) {
            lemma_lex_lt_transitive(a.id@, b.id@, c.id@);
        }
    }

    proof fn lemma_key_lt_irreflexive(a: &Self) {
        lemma_lex_lt_irreflexive(a.stable_key@);
        lemma_lex_lt_irreflexive(a.id@);
    }

    fn lt(&self, other: &Self) -> (r: bool) {
        if self.distance != other.distance {
            self.distance < other.distance
        } else if str_lt(self.stable_key.as_str(), other.stable_key.as_str()) {
            true
        } else if !str_eq(self.stable_key.as_str(), other.stable_key.as_str()) {
            false
        } else if str_lt(self.id.as_str(), other.id.as_str()) {
            true
        } else if str_eq(self.id.as_str(), other.id.as_str()) {
            self.index < other.index
        } else {
            false
        }
    }
}

/// What the related-graph query gives: an error on a zero limit or a missing root, else
/// the entities within `depth` links of the root, laid out as `related_layout` says.
pub open spec fn related_outcome(
    s: CanonicalSnapshot,
    stable_key: Seq<char>,
    depth: int,
    max_entities: int,
    max_relations: int,
    r: Result<GraphRelated, GraphError>,
) -> bool {
    &&& r is Err <==> (max_entities == 0 || max_relations == 0 || first_with_stable_key(s.entities@, stable_key) is None)
    &&& match r {
        Err(e) => if max_entities == 0 || max_relations == 0 {
            e is RelatedLimits
        } else {
            e matches GraphError::MissingEntity { stable_key: k } && k@ == stable_key
        },
        Ok(g) => {
            let root = rooted_at(s, stable_key);
            &&& g.schema@ == GRAPH_RELATED_SCHEMA@
            &&& g.snapshot@ == snapshot_name(s.snapshot)
            &&& node_of(g.root.entity, s.entities@[root], entity_degree(s, root))
            &&& g.root.distance == 0
            &&& exists|sel: Seq<int>, rorder: Seq<int>| related_layout(s, root, depth, max_entities, max_relations, sel, rorder, g)
        },
    }
}

/// The entities within `depth` links of the entity with `stable_key` (relations read in
/// both directions), at most `max_entities` of them, with at most `max_relations` of the
/// relations among them.
pub fn build_related_graph(
    snapshot: &CanonicalSnapshot,
    stable_key: &str,
    depth: usize,
    max_entities: usize,
    max_relations: usize,
) -> (r: Result<GraphRelated, GraphError>)
    requires
        snapshot.relations@.len() <= usize::MAX / 2,
    ensures
        related_outcome(*snapshot, stable_key@, depth as int, max_entities as int, max_relations as int, r),
{
    let mut probe = CancellationProbe::inactive(|| false);
    related_graph_polled(snapshot, stable_key, depth, max_entities, max_relations, &mut probe).unwrap()
}

/// The related-graph query that stops, giving `None`, where its operation is cancelled:
/// it checks before it starts and after it succeeds, and every
/// `COOPERATIVE_POLL_INTERVAL` steps of its search.
pub fn build_related_graph_with_operation_context<F: Fn() -> bool>(
    snapshot: &CanonicalSnapshot,
    stable_key: &str,
    depth: usize,
    max_entities: usize,
    max_relations: usize,
    cancelled: F,
) -> (r: Option<Result<GraphRelated, GraphError>>)
    requires
        snapshot.relations@.len() <= usize::MAX / 2,
        cancelled.requires(()),
    ensures
        r matches Some(x) ==> related_outcome(*snapshot, stable_key@, depth as int, max_entities as int, max_relations as int, x),
        r is None ==> cancelled.ensures((), true),
        (forall|b: bool| cancelled.ensures((), b) ==> b) ==> r is None,
{
    let mut probe = CancellationProbe::every(COOPERATIVE_POLL_INTERVAL, cancelled);
    if probe.check() {
        return None;
    }
    let r = related_graph_polled(snapshot, stable_key, depth, max_entities, max_relations, &mut probe);
    match r {
        Some(Ok(g)) => if probe.check() { None } else { Some(Ok(g)) },
        other => other,
    }
}

fn related_graph_polled<F: Fn() -> bool>(
    snapshot: &CanonicalSnapshot,
    stable_key: &str,
    depth: usize,
    max_entities: usize,
    max_relations: usize,
    probe: &mut CancellationProbe<F>,
) -> (r: Option<Result<GraphRelated, GraphError>>)
    requires
        snapshot.relations@.len() <= usize::MAX / 2,
        old(probe).callable(),
    ensures
        final(probe).callable(),
        final(probe).active() == old(probe).active(),
        final(probe).asks() == old(probe).asks(),
        r is None ==> old(probe).active(),
        r is None ==> old(probe).asks().ensures((), true),
        r matches Some(x) ==> related_outcome(*snapshot, stable_key@, depth as int, max_entities as int, max_relations as int, x),
{
    if max_entities == 0 || max_relations == 0 {
        return Some(Err(GraphError::RelatedLimits));
    }
    let first = match find_by_stable_key(&snapshot.entities, stable_key) {
        None => {
            return Some(Err(GraphError::MissingEntity { stable_key: String::from_str(stable_key) }));
        },
        Some(i) => i,
    };
    proof {
        lemma_entity_index(snapshot.entities@, snapshot.entities@[first as int].id@);
    }
    let root = match find_entity_by_id(&snapshot.entities, &snapshot.entities[first].id) {
        Some(x) => x,
        None => first,
    };
    let ghost rt = root as int;
    let ghost s = *snapshot;
    assert(rt == rooted_at(s, stable_key@));
    let ends = resolve_endpoints(snapshot);
    let (order, dist, cut) = match related_bfs(snapshot, &ends, root, depth, max_entities, probe) {
        Some(found) => found,
        None => {
            return None;
        },
    };
    let n = snapshot.entities.len();
    let mut keys: Vec<RelatedKey> = Vec::new();
    let mut i: usize = 0;
    while i < order.len()
        invariant
            i <= order@.len(),
            keys@.len() == i,
            dist@.len() == n,
            n == s.entities@.len(),
            s == *snapshot,
            forall|x: int| 0 <= x < order@.len() ==> (#[trigger] order@[x]) < n,
            forall|x: int| 0 <= x < order@.len() ==> (#[trigger] dist@[order@[x] as int]) is Some,
            forall|a: int| 0 <= a < i ==> (#[trigger] keys@[a]).index == order@[a]
                && Some(keys@[a].distance) == dist@[order@[a] as int]
                && keys@[a].stable_key@ == s.entities@[order@[a] as int].stable_key@
                && keys@[a].id@ == s.entities@[order@[a] as int].id@,
        decreases order.len() - i,
    {
        let v = order[i];
        let d = match dist[v] {
            Some(d) => d,
            None => 0,
        };
        keys.push(RelatedKey {
            distance: d,
            stable_key: snapshot.entities[v].stable_key.clone(),
            id: snapshot.entities[v].id.clone(),
            index: v,
        });
        i = i + 1;
    }
    let ghost orig = keys@;
    let sorted = sort_by_key(keys);
    proof {
        assert(orig.no_duplicates()) by {
            assert forall|a: int, b: int| 0 <= a < orig.len() && 0 <= b < orig.len() && a != b
                implies orig[a] != orig[b] by {
                assert(as_ints(order@)[a] != as_ints(order@)[b]);
            }
        }
        lemma_permutation_facts(orig, sorted@);
    }
    let mut nodes: Vec<GraphRelatedNode> = Vec::new();
    let mut ids: Vec<String> = Vec::new();
    let mut t: usize = 0;
    while t < sorted.len()
        invariant
            t <= sorted@.len(),
            nodes@.len() == t,
            ids@.len() == t,
            n == s.entities@.len(),
            s == *snapshot,
            snapshot.relations@.len() <= usize::MAX / 2,
            forall|a: int| 0 <= a < sorted@.len() ==> orig.contains(#[trigger] sorted@[a]),
            forall|a: int| 0 <= a < orig.len() ==> (#[trigger] orig[a]).index == order@[a],
            forall|x: int| 0 <= x < order@.len() ==> (#[trigger] order@[x]) < n,
            orig.len() == order@.len(),
            forall|a: int| 0 <= a < t ==> node_of((#[trigger] nodes@[a]).entity, s.entities@[sorted@[a].index as int], entity_degree(s, sorted@[a].index as int))
                && nodes@[a].distance == sorted@[a].distance,
            forall|a: int| 0 <= a < t ==> (#[trigger] ids@[a])@ == s.entities@[sorted@[a].index as int].id@,
        decreases sorted.len() - t,
    {
        let v = sorted[t].index;
        proof {
            let w = choose|w: int| 0 <= w < orig.len() && orig[w] == sorted@[t as int];
            assert(v == order@[w]);
        }
        let e = &snapshot.entities[v];
        let deg = degree_of(&snapshot.relations, &e.id);
        nodes.push(GraphRelatedNode { entity: graph_node(e, deg), distance: sorted[t].distance });
        ids.push(e.id.clone());
        t = t + 1;
    }
    let ghost sel = Seq::new(sorted@.len(), |a: int| sorted@[a].index as int);
    proof {
        assert(ids_at(s, sel) =~= views(ids@));
    }
    let rorder = relations_joining(snapshot, &ids);
    let ghost ro = as_ints(rorder@);
    proof {
        assert(lists_exactly(ro, s.relations@.len() as int, |j: int| joins(ids_at(s, sel), s.relations@[j])));
        lemma_distinct_indices_bounded(ro, s.relations@.len() as int);
    }
    let limit = if rorder.len() < max_relations { rorder.len() } else { max_relations };
    let mut edges: Vec<GraphEdge> = Vec::new();
    let mut q: usize = 0;
    while q < limit
        invariant
            limit <= rorder@.len(),
            ro == as_ints(rorder@),
            lists_exactly(ro, s.relations@.len() as int, |j: int| joins(ids_at(s, sel), s.relations@[j])),
            s == *snapshot,
            q <= limit,
            edges@.len() == q,
            forall|a: int| 0 <= a < q ==> edge_of(#[trigger] edges@[a], s.relations@[ro[a]]),
        decreases limit - q,
    {
        assert(0 <= ro[q as int] < s.relations@.len());
        edges.push(graph_edge(&snapshot.relations[rorder[q]]));
        q = q + 1;
    }
    let root_degree = degree_of(&snapshot.relations, &snapshot.entities[root].id);
    let g = GraphRelated {
        schema: String::from_str(GRAPH_RELATED_SCHEMA),
        snapshot: snapshot_id(snapshot),
        root: GraphRelatedNode { entity: graph_node(&snapshot.entities[root], root_degree), distance: 0 },
        nodes,
        edges,
        truncated: cut || rorder.len() > max_relations,
    };
    proof {
        broadcast use vstd::seq_lib::group_to_multiset_ensures;

        let nn = n as int;
        assert forall|a: int| 0 <= a < sel.len() implies 0 <= #[trigger] sel[a] < nn
            && Some(sorted@[a].distance) == dist@[sel[a]] by {
            let w = choose|w: int| 0 <= w < orig.len() && orig[w] == sorted@[a];
            assert(sel[a] == order@[w]);
        }
        assert(sel.no_duplicates()) by {
            assert forall|a: int, b: int| 0 <= a < sel.len() && 0 <= b < sel.len() && a != b
                implies sel[a] != sel[b] by {
                let wa = choose|w: int| 0 <= w < orig.len() && orig[w] == sorted@[a];
                let wb = choose|w: int| 0 <= w < orig.len() && orig[w] == sorted@[b];
                assert(sorted@[a] != sorted@[b]);
                assert(wa != wb);
                assert(as_ints(order@)[wa] != as_ints(order@)[wb]);
            }
        }
        assert forall|v: int| 0 <= v < nn && dist@[v] is Some implies #[trigger] sel.contains(v) by {
            let x = choose|x: int| 0 <= x < order@.len() && order@[x] == v;
            assert(orig[x].index == v);
            assert(orig.contains(orig[x]));
            assert(orig.to_multiset().count(orig[x]) > 0);
            assert(sorted@.contains(orig[x]));
            let w = choose|w: int| 0 <= w < sorted@.len() && sorted@[w] == orig[x];
            assert(sel[w] == v);
        }
        assert(dist@[rt] is Some);
        assert(sel.contains(rt));
        assert forall|i: int| 0 <= i < sel.len() implies node_of((#[trigger] g.nodes@[i]).entity, s.entities@[sel[i]], entity_degree(s, sel[i]))
            && g.nodes@[i].distance <= depth
            && shortest(s, rt, sel[i], g.nodes@[i].distance as nat) by {
            assert(Some(sorted@[i].distance) == dist@[sel[i]]);
        }
        assert forall|i: int, j: int| 0 <= i < j < sel.len() implies !related_before(s, #[trigger] sel[j], g.nodes@[j].distance as int, #[trigger] sel[i], g.nodes@[i].distance as int) by {
            assert(!sorted@[j].key_lt(&sorted@[i]));
            let wa = choose|w: int| 0 <= w < orig.len() && orig[w] == sorted@[i];
            let wb = choose|w: int| 0 <= w < orig.len() && orig[w] == sorted@[j];
        }
        assert(sel.len() == order@.len());
        assert forall|i: int, v: int| #![trigger g.nodes@[i], within(s, rt, v, (g.nodes@[i].distance - 1) as nat)]
            0 <= i < sel.len() && g.nodes@[i].distance > 0 && 0 <= v < nn && within(s, rt, v, (g.nodes@[i].distance - 1) as nat)
            implies sel.contains(v) by {
            assert(Some(sorted@[i].distance) == dist@[sel[i]]);
            assert(dist@[v] is Some);
        }
        assert(related_layout(s, rt, depth as int, max_entities as int, max_relations as int, sel, ro, g));
    }
    Some(Ok(g))
}

/// The entity that a search reached an entity from.
pub open spec fn pred_entity(p: Option<(usize, usize)>) -> int {
    match p {
        Some((u, _)) => u as int,
        None => -1,
    }
}

/// The relation that a search reached an entity by.
pub open spec fn pred_relation(p: Option<(usize, usize)>) -> int {
    match p {
        Some((_, r)) => r as int,
        None => -1,
    }
}

/// Every entity found, but the start, records the entity and relation it was reached by,
/// one link nearer the start.
#[verifier::opaque]
pub open spec fn parents_ok(s: CanonicalSnapshot, src: int, dist: Seq<Option<usize>>, parent: Seq<Option<(usize, usize)>>) -> bool {
    let n = s.entities@.len() as int;
    forall|v: int| 0 <= v < n && (#[trigger] dist[v]) is Some && v != src ==> parent[v] is Some
        && pred_entity(parent[v]) < n && pred_relation(parent[v]) < s.relations@.len()
        && dist[pred_entity(parent[v])] is Some
        && dist[pred_entity(parent[v])]->0 + 1 == dist[v]->0
        && link_via(s, pred_relation(parent[v]), pred_entity(parent[v]), v)
}

/// Some entity within `max_depth` links of `src` has a link to an entity farther away:
/// the depth limit cuts the search there.
pub open spec fn depth_cut(s: CanonicalSnapshot, src: int, max_depth: int) -> bool {
    exists|u: int, q: int, v: int| #![trigger within(s, src, u, max_depth as nat), link_via(s, q, u, v)]
        within(s, src, u, max_depth as nat) && 0 <= q < s.relations@.len() && link_via(s, q, u, v)
            && !within(s, src, v, max_depth as nat)
}

proof fn lemma_depth_cut(s: CanonicalSnapshot, src: int, max_depth: int, u: int, q: int, v: int)
    requires
        within(s, src, u, max_depth as nat),
        0 <= q < s.relations@.len(),
        link_via(s, q, u, v),
        !within(s, src, v, max_depth as nat),
    ensures
        depth_cut(s, src, max_depth),
{
}

/// Each entity's recorded predecessor link is, among the relations that join the same two
/// entities, one with the least id.
pub open spec fn parents_least(s: CanonicalSnapshot, parent: Seq<Option<(usize, usize)>>) -> bool {
    forall|v: int, q: int| 0 <= v < parent.len() && (#[trigger] parent[v]) is Some && 0 <= q < s.relations@.len()
        && #[trigger] link_via(s, q, pred_entity(parent[v]), v)
        ==> !lex_lt(s.relations@[q].id@, s.relations@[pred_relation(parent[v])].id@)
}

/// The entities within `d` links of `src`.
pub open spec fn within_set(s: CanonicalSnapshot, src: int, d: nat) -> spec_fn(int) -> bool {
    |w: int| within(s, src, w, d)
}

/// The search state that `path_bfs` leaves: entities in the order found, distances,
/// the relation each was reached by, whether the target was found, and whether a limit
/// stopped the search short.
pub open spec fn path_search_done(
    s: CanonicalSnapshot,
    src: int,
    dst: int,
    max_depth: int,
    max_visited: int,
    order: Seq<usize>,
    dist: Seq<Option<usize>>,
    parent: Seq<Option<(usize, usize)>>,
    found: bool,
    truncated: bool,
) -> bool {
    let n = s.entities@.len() as int;
    &&& order.len() >= 1 && order[0] == src
    &&& as_ints(order).no_duplicates()
    &&& order.len() <= max_visited
    &&& forall|i: int| 0 <= i < order.len() ==> (#[trigger] order[i]) < n
    &&& dist.len() == n
    &&& parent.len() == n
    &&& forall|i: int| 0 <= i < order.len() ==> (#[trigger] dist[order[i] as int]) is Some
    &&& forall|v: int| 0 <= v < n && (#[trigger] dist[v]) is Some ==> exists|i: int| 0 <= i < order.len() && order[i] == v
    &&& forall|v: int| 0 <= v < n && (#[trigger] dist[v]) is Some ==> dist[v]->0 <= max_depth
        && shortest(s, src, v, dist[v]->0 as nat)
    &&& forall|v: int| 0 <= v < n && (#[trigger] dist[v]) is Some && v != src ==> parent[v] is Some
        && pred_entity(parent[v]) < n && pred_relation(parent[v]) < s.relations@.len()
        && dist[pred_entity(parent[v])] is Some
        && dist[pred_entity(parent[v])]->0 + 1 == dist[v]->0
        && link_via(s, pred_relation(parent[v]), pred_entity(parent[v]), v)
    &&& found == dist[dst] is Some
    &&& !found && !truncated ==> forall|j: nat| !#[trigger] within(s, src, dst, j)
    &&& found ==> !truncated
    &&& truncated ==> order.len() == max_visited || depth_cut(s, src, max_depth)
    &&& parents_least(s, parent)
    &&& forall|d: nat| #[trigger] shortest(s, src, dst, d) && d <= max_depth
        && count_below(n, within_set(s, src, d)) <= max_visited ==> found
}

/// Breadth-first search from `src` towards `dst` along relations read in both
/// directions, expanding entities at most `max_depth` links away and visiting at most
/// `max_visited` entities.
#[verifier::rlimit(60)]
fn path_bfs<F: Fn() -> bool>(
    snapshot: &CanonicalSnapshot,
    ends: &Vec<(Option<usize>, Option<usize>)>,
    src: usize,
    dst: usize,
    max_depth: usize,
    max_visited: usize,
    probe: &mut CancellationProbe<F>,
) -> (r: Option<(Vec<usize>, Vec<Option<usize>>, Vec<Option<(usize, usize)>>, bool, bool)>)
    requires
        resolved(*snapshot, ends@),
        src < snapshot.entities@.len(),
        dst < snapshot.entities@.len(),
        max_visited >= 1,
        old(probe).callable(),
    ensures
        final(probe).callable(),
        final(probe).active() == old(probe).active(),
        final(probe).asks() == old(probe).asks(),
        r is None ==> old(probe).active(),
        r is None ==> old(probe).asks().ensures((), true),
        r matches Some(res) ==> path_search_done(*snapshot, src as int, dst as int, max_depth as int, max_visited as int,
            res.0@, res.1@, res.2@, res.3, res.4),
{
    let n = snapshot.entities.len();
    let ghost s = *snapshot;
    let ghost rt = src as int;
    let mut dist: Vec<Option<usize>> = Vec::new();
    let mut parent: Vec<Option<(usize, usize)>> = Vec::new();
    let mut z: usize = 0;
    while z < n
        invariant
            z <= n,
            dist@.len() == z,
            parent@.len() == z,
            forall|v: int| 0 <= v < z ==> (#[trigger] dist@[v]) is None,
            forall|v: int| 0 <= v < z ==> (#[trigger] parent@[v]) is None,
        decreases n - z,
    {
        dist.push(None);
        parent.push(None);
        z = z + 1;
    }
    dist.set(src, Some(0));
    let mut order: Vec<usize> = Vec::new();
    order.push(src);
    let mut found = src == dst;
    proof {
        lemma_within_zero(s, rt, rt);
        assert forall|v: int| 0 <= v < n && #[trigger] within(s, rt, v, 0) implies dist@[v] is Some by {
            lemma_within_zero(s, rt, v);
        }
        assert forall|v: int| 0 <= v < n && (#[trigger] dist@[v]) is Some implies exists|i: int| 0 <= i < order@.len() && order@[i] == v by {
            assert(v == src);
            assert(order@[0] == src);
        }
        reveal(parents_ok);
        assert(parents_ok(s, rt, dist@, parent@));
        assert(parents_least(s, parent@));
    }
    let mut lo: usize = 0;
    let mut k: usize = 0;
    let mut truncated = false;
    let mut halt = false;
    while !found && !halt && lo < order.len()
        invariant
            probe.callable(),
            probe.active() == old(probe).active(),
            probe.asks() == old(probe).asks(),
            resolved(s, ends@),
            s == *snapshot,
            rt == src as int,
            n == s.entities@.len(),
            src < n,
            dst < n,
            max_visited >= 1,
            dist@.len() == n,
            parent@.len() == n,
            order@.len() >= 1 && order@[0] == src,
            as_ints(order@).no_duplicates(),
            order@.len() <= max_visited,
            forall|i: int| 0 <= i < order@.len() ==> (#[trigger] order@[i]) < n,
            forall|i: int| 0 <= i < order@.len() ==> (#[trigger] dist@[order@[i] as int]) is Some,
            forall|v: int| 0 <= v < n && (#[trigger] dist@[v]) is Some ==> exists|i: int| 0 <= i < order@.len() && order@[i] == v,
            forall|v: int| 0 <= v < n && (#[trigger] dist@[v]) is Some ==> dist@[v]->0 <= k && dist@[v]->0 <= max_depth
                && shortest(s, rt, v, dist@[v]->0 as nat),
            parents_ok(s, rt, dist@, parent@),
            parents_least(s, parent@),
            found == dist@[dst as int] is Some,
            lo <= order@.len(),
            forall|i: int| 0 <= i < order@.len() ==> (i >= lo ==> (#[trigger] dist@[order@[i] as int]) == Some(k))
                && (i < lo ==> dist@[order@[i] as int]->0 < k),
            !truncated && !found ==> forall|v: int| 0 <= v < n && #[trigger] within(s, rt, v, k as nat) ==> dist@[v] is Some,
            halt ==> truncated,
            found ==> !truncated,
            halt ==> forall|d: nat| #[trigger] shortest(s, rt, dst as int, d) && d <= max_depth ==> count_below(n as int, within_set(s, rt, d)) > max_visited,
            truncated && !halt ==> forall|w: int| 0 <= w < n && #[trigger] within(s, rt, w, max_depth as nat) ==> dist@[w] is Some,
            truncated ==> order@.len() == max_visited || depth_cut(s, rt, max_depth as int),
            truncated ==> halt || k > max_depth,
            k <= lo,
        decreases max_visited - lo,
    {
        let hi = order.len();
        let ghost t0 = truncated;
        let mut i: usize = lo;
        while i < hi && !found && !halt
            invariant
                probe.callable(),
                probe.active() == old(probe).active(),
                probe.asks() == old(probe).asks(),
                resolved(s, ends@),
                s == *snapshot,
                rt == src as int,
                n == s.entities@.len(),
                src < n,
                dst < n,
                max_visited >= 1,
                lo <= i <= hi,
                hi <= order@.len(),
                lo < hi,
                dist@.len() == n,
                parent@.len() == n,
                order@.len() >= 1 && order@[0] == src,
                as_ints(order@).no_duplicates(),
                order@.len() <= max_visited,
                forall|x: int| 0 <= x < order@.len() ==> (#[trigger] order@[x]) < n,
                forall|x: int| 0 <= x < order@.len() ==> (#[trigger] dist@[order@[x] as int]) is Some,
                forall|v: int| 0 <= v < n && (#[trigger] dist@[v]) is Some ==> exists|x: int| 0 <= x < order@.len() && order@[x] == v,
                forall|v: int| 0 <= v < n && (#[trigger] dist@[v]) is Some ==> dist@[v]->0 <= k + 1 && dist@[v]->0 <= max_depth
                    && shortest(s, rt, v, dist@[v]->0 as nat),
                parents_ok(s, rt, dist@, parent@),
                parents_least(s, parent@),
                found == dist@[dst as int] is Some,
                forall|x: int| 0 <= x < order@.len() ==> (x < lo ==> (#[trigger] dist@[order@[x] as int])->0 < k)
                    && (lo <= x < hi ==> dist@[order@[x] as int] == Some(k))
                    && (x >= hi ==> dist@[order@[x] as int] == Some((k + 1) as usize)),
                hi < order@.len() ==> k < max_depth,
                !t0 ==> forall|v: int| 0 <= v < n && #[trigger] within(s, rt, v, k as nat) ==> dist@[v] is Some,
                t0 ==> truncated,
                t0 ==> k > max_depth,
                truncated ==> halt || k >= max_depth || t0,
                halt ==> truncated,
                found ==> !truncated,
                halt ==> forall|d: nat| #[trigger] shortest(s, rt, dst as int, d) && d <= max_depth ==> count_below(n as int, within_set(s, rt, d)) > max_visited,
                truncated && !halt ==> forall|w: int| 0 <= w < n && #[trigger] within(s, rt, w, max_depth as nat) ==> dist@[w] is Some,
                truncated ==> order@.len() == max_visited || depth_cut(s, rt, max_depth as int),
                k <= lo,
                !found && !halt ==> forall|x: int, q: int, v: int| lo <= x < i && 0 <= q < s.relations@.len() && 0 <= v < n
                    && #[trigger] link_via(s, q, order@[x] as int, v) ==> (#[trigger] dist@[v]) is Some || truncated,
            decreases hi - i,
        {
            if probe.step() {
                return None;
            }
            let u = order[i];
            let nbrs = neighbors(snapshot, ends, u);
            proof {
                assert(dist@[u as int] == Some(k));
            }
            let mut j: usize = 0;
            while j < nbrs.len() && !found && !halt
                invariant
                    probe.callable(),
                    probe.active() == old(probe).active(),
                    probe.asks() == old(probe).asks(),
                    resolved(s, ends@),
                    s == *snapshot,
                    rt == src as int,
                    n == s.entities@.len(),
                    src < n,
                    dst < n,
                    max_visited >= 1,
                    lo <= i < hi,
                    hi <= order@.len(),
                    u == order@[i as int],
                    dist@[u as int] == Some(k),
                    dist@.len() == n,
                    parent@.len() == n,
                    j <= nbrs@.len(),
                    forall|a: int| 0 <= a < nbrs@.len() ==> (#[trigger] nbrs@[a]).0 < s.relations@.len()
                        && link_via(s, nbrs@[a].0 as int, u as int, nbrs@[a].1 as int)
                        && nbrs@[a].1 < n,
                    forall|q: int, w: int| 0 <= q < s.relations@.len() && #[trigger] link_via(s, q, u as int, w)
                        ==> exists|a: int| 0 <= a < nbrs@.len() && #[trigger] nbrs@[a] == (q as usize, w as usize),
                    forall|a: int, b: int| 0 <= a < b < nbrs@.len() && (#[trigger] nbrs@[a]).1 == (#[trigger] nbrs@[b]).1
                        ==> !lex_lt(s.relations@[nbrs@[b].0 as int].id@, s.relations@[nbrs@[a].0 as int].id@),
                    order@.len() >= 1 && order@[0] == src,
                    as_ints(order@).no_duplicates(),
                    order@.len() <= max_visited,
                    forall|x: int| 0 <= x < order@.len() ==> (#[trigger] order@[x]) < n,
                    forall|x: int| 0 <= x < order@.len() ==> (#[trigger] dist@[order@[x] as int]) is Some,
                    forall|v: int| 0 <= v < n && (#[trigger] dist@[v]) is Some ==> exists|x: int| 0 <= x < order@.len() && order@[x] == v,
                    forall|v: int| 0 <= v < n && (#[trigger] dist@[v]) is Some ==> dist@[v]->0 <= k + 1 && dist@[v]->0 <= max_depth
                        && shortest(s, rt, v, dist@[v]->0 as nat),
                    parents_ok(s, rt, dist@, parent@),
                    parents_least(s, parent@),
                    found == dist@[dst as int] is Some,
                    forall|x: int| 0 <= x < order@.len() ==> (x < lo ==> (#[trigger] dist@[order@[x] as int])->0 < k)
                        && (lo <= x < hi ==> dist@[order@[x] as int] == Some(k))
                        && (x >= hi ==> dist@[order@[x] as int] == Some((k + 1) as usize)),
                    hi < order@.len() ==> k < max_depth,
                    !t0 ==> forall|v: int| 0 <= v < n && #[trigger] within(s, rt, v, k as nat) ==> dist@[v] is Some,
                    t0 ==> truncated,
                    t0 ==> k > max_depth,
                    truncated ==> halt || k >= max_depth || t0,
                    halt ==> truncated,
                    found ==> !truncated,
                    halt ==> forall|d: nat| #[trigger] shortest(s, rt, dst as int, d) && d <= max_depth ==> count_below(n as int, within_set(s, rt, d)) > max_visited,
                    truncated && !halt ==> forall|w: int| 0 <= w < n && #[trigger] within(s, rt, w, max_depth as nat) ==> dist@[w] is Some,
                    truncated ==> order@.len() == max_visited || depth_cut(s, rt, max_depth as int),
                    !found && !halt ==> forall|x: int, q: int, v: int| lo <= x < i && 0 <= q < s.relations@.len() && 0 <= v < n
                        && #[trigger] link_via(s, q, order@[x] as int, v) ==> (#[trigger] dist@[v]) is Some || truncated,
                    forall|a: int| 0 <= a < j ==> (#[trigger] dist@[nbrs@[a].1 as int]) is Some || truncated,
                decreases nbrs.len() - j,
            {
                let (q, v) = nbrs[j];
                if dist[v].is_none() {
                    if k >= max_depth {
                        proof {
                            if !t0 {
                                assert(shortest(s, rt, u as int, k as nat));
                                assert(k == max_depth);
                                let md = (max_depth as int) as nat;
                                if within(s, rt, v as int, md) {
                                    assert(dist@[v as int] is Some);
                                }
                                assert(within(s, rt, u as int, md) && link_via(s, q as int, u as int, v as int));
                                assert(0 <= q < s.relations@.len() && !within(s, rt, v as int, md));
                                lemma_depth_cut(s, rt, max_depth as int, u as int, q as int, v as int);
                                assert forall|w: int| 0 <= w < n && #[trigger] within(s, rt, w, max_depth as nat) implies dist@[w] is Some by {
                                    lemma_within_monotone(s, rt, w, max_depth as nat, k as nat);
                                }
                            }
                        }
                        truncated = true;
                    } else if order.len() >= max_visited {
                        proof {
                            assert(!t0);
                            assert(dist@[dst as int] is None);
                            assert(within(s, rt, u as int, k as nat));
                            assert(linked(s, u as int, v as int)) by {
                                assert(link_via(s, q as int, u as int, v as int));
                            }
                            lemma_within_step(s, rt, u as int, v as int, k as nat);
                            assert forall|d: nat| #[trigger] shortest(s, rt, dst as int, d) && d <= max_depth
                                implies count_below(n as int, within_set(s, rt, d)) > max_visited by {
                                if d <= k {
                                    lemma_within_monotone(s, rt, dst as int, d, k as nat);
                                    assert(dist@[dst as int] is Some);
                                }
                                let xs = as_ints(order@).push(v as int);
                                assert(xs.no_duplicates()) by {
                                    assert forall|a: int, b: int| 0 <= a < xs.len() && 0 <= b < xs.len() && a != b implies xs[a] != xs[b] by {
                                        if a < order@.len() && b < order@.len() {
                                            assert(as_ints(order@)[a] != as_ints(order@)[b]);
                                        } else if a < order@.len() {
                                            assert(dist@[order@[a] as int] is Some);
                                        } else {
                                            assert(dist@[order@[b] as int] is Some);
                                        }
                                    }
                                }
                                assert forall|i: int| 0 <= i < xs.len() implies 0 <= #[trigger] xs[i] < n && within_set(s, rt, d)(xs[i]) by {
                                    if i < order@.len() {
                                        let w = order@[i] as int;
                                        assert(dist@[w] is Some);
                                        assert(shortest(s, rt, w, dist@[w]->0 as nat));
                                        lemma_within_monotone(s, rt, w, dist@[w]->0 as nat, d);
                                    } else {
                                        lemma_within_monotone(s, rt, v as int, (k + 1) as nat, d);
                                    }
                                }
                                lemma_distinct_members_counted(xs, n as int, within_set(s, rt, d));
                            }
                        }
                        truncated = true;
                        halt = true;
                    } else {
                        proof {
                            assert(linked(s, u as int, v as int)) by {
                                assert(link_via(s, q as int, u as int, v as int));
                            }
                            assert(within(s, rt, u as int, k as nat));
                            lemma_within_step(s, rt, u as int, v as int, k as nat);
                            assert(!t0);
                            assert(!within(s, rt, v as int, k as nat));
                            assert(((k + 1) as nat - 1) as nat == k as nat);
                            assert forall|x: int| 0 <= x < order@.len() implies order@[x] != v by {
                                assert(dist@[order@[x] as int] is Some);
                            }
                        }
                        let ghost old_order = order@;
                        let ghost old_dist = dist@;
                        let ghost old_parent = parent@;
                        dist.set(v, Some(k + 1));
                        parent.set(v, Some((u, q)));
                        order.push(v);
                        if v == dst {
                            found = true;
                        }
                        proof {
                            assert(as_ints(order@).no_duplicates()) by {
                                assert forall|a: int, b: int| 0 <= a < order@.len() && 0 <= b < order@.len() && a != b
                                    implies as_ints(order@)[a] != as_ints(order@)[b] by {
                                    if a < old_order.len() && b < old_order.len() {
                                        assert(as_ints(old_order)[a] != as_ints(old_order)[b]);
                                    }
                                }
                            }
                            assert forall|w: int| 0 <= w < n && (#[trigger] dist@[w]) is Some implies exists|x: int| 0 <= x < order@.len() && order@[x] == w by {
                                if w == v {
                                    assert(order@[order@.len() - 1] == v);
                                } else {
                                    assert(old_dist[w] is Some);
                                    let x = choose|x: int| 0 <= x < old_order.len() && old_order[x] == w;
                                    assert(order@[x] == w);
                                }
                            }
                            assert forall|x: int| 0 <= x < order@.len() implies (x < lo ==> (#[trigger] dist@[order@[x] as int])->0 < k)
                                && (lo <= x < hi ==> dist@[order@[x] as int] == Some(k))
                                && (x >= hi ==> dist@[order@[x] as int] == Some((k + 1) as usize)) by {
                                if x < old_order.len() {
                                    assert(order@[x] == old_order[x]);
                                    assert(old_order[x] != v);
                                }
                            }
                            reveal(parents_ok);
                            assert forall|w: int| 0 <= w < n && (#[trigger] dist@[w]) is Some && w != src implies parent@[w] is Some
                                && pred_entity(parent@[w]) < n && pred_relation(parent@[w]) < s.relations@.len()
                                && dist@[pred_entity(parent@[w])] is Some
                                && dist@[pred_entity(parent@[w])]->0 + 1 == dist@[w]->0
                                && link_via(s, pred_relation(parent@[w]), pred_entity(parent@[w]), w) by {
                                if w != v {
                                    assert(old_dist[w] is Some);
                                    assert(old_parent[w] == parent@[w]);
                                    assert(pred_entity(old_parent[w]) != v);
                                }
                            }
                            assert(parents_ok(s, rt, dist@, parent@));
                            assert forall|w: int, q2: int| 0 <= w < parent@.len() && (#[trigger] parent@[w]) is Some && 0 <= q2 < s.relations@.len()
                                && #[trigger] link_via(s, q2, pred_entity(parent@[w]), w)
                                implies !lex_lt(s.relations@[q2].id@, s.relations@[pred_relation(parent@[w])].id@) by {
                                if w != v {
                                    assert(old_parent[w] == parent@[w]);
                                    assert(parents_least(s, old_parent));
                                    assert(link_via(s, q2, pred_entity(old_parent[w]), w));
                                    assert(!lex_lt(s.relations@[q2].id@, s.relations@[pred_relation(old_parent[w])].id@));
                                } else {
                                    assert(pred_entity(parent@[w]) == u as int);
                                    assert(pred_relation(parent@[w]) == q as int);
                                    assert(link_via(s, q2, u as int, v as int));
                                    assert(s.relations@.len() == snapshot.relations.len());
                                    assert((q2 as usize) as int == q2);
                                    assert(!truncated);
                                    assert(old_dist[v as int] is None);
                                    let a2 = choose|a2: int| 0 <= a2 < nbrs@.len() && #[trigger] nbrs@[a2] == (q2 as usize, v as usize);
                                    if a2 < j {
                                        assert(old_dist[nbrs@[a2].1 as int] is Some || truncated);
                                        assert(false);
                                    } else if a2 == j {
                                        assert(q2 == q as int);
                                        lemma_lex_lt_irreflexive(s.relations@[q2].id@);
                                    } else {
                                        assert(nbrs@[j as int] == (q, v));
                                        assert(nbrs@[j as int].1 == nbrs@[a2].1);
                                        assert(!lex_lt(s.relations@[nbrs@[a2].0 as int].id@, s.relations@[nbrs@[j as int].0 as int].id@));
                                        assert(nbrs@[a2].0 as int == q2);
                                    }
                                }
                            }
                        }
                    }
                }
                j = j + 1;
            }
            proof {
                if !found && !halt {
                    assert forall|x: int, q: int, v: int| lo <= x < i + 1 && 0 <= q < s.relations@.len() && 0 <= v < n
                        && #[trigger] link_via(s, q, order@[x] as int, v) implies (#[trigger] dist@[v]) is Some || truncated by {
                        if x == i {
                            let a = choose|a: int| 0 <= a < nbrs@.len() && #[trigger] nbrs@[a] == (q as usize, v as usize);
                            assert(dist@[nbrs@[a].1 as int] is Some || truncated);
                        }
                    }
                }
            }
            i = i + 1;
        }
        let ghost lo_prev = lo;
        let ghost i_end = i;
        lo = hi;
        k = k + 1;
        proof {
            let kp = (k - 1) as nat;
            if !truncated && !found && !halt {
                assert(i_end == hi);
                assert forall|v: int| 0 <= v < n && #[trigger] within(s, rt, v, k as nat) implies dist@[v] is Some by {
                    assert(kp + 1 == k as nat);
                    if !within(s, rt, v, kp) {
                        lemma_within_split(s, rt, v, kp);
                        let w = choose|w: int| #[trigger] within(s, rt, w, kp) && linked(s, w, v);
                        lemma_linked_in_range(s, w, v);
                        assert(dist@[w] is Some);
                        let dw = dist@[w]->0;
                        if dw < kp {
                            assert(within(s, rt, w, dw as nat));
                            lemma_within_step(s, rt, w, v, dw as nat);
                            lemma_within_monotone(s, rt, v, (dw + 1) as nat, kp);
                        }
                        assert(dw == kp);
                        let x = choose|x: int| 0 <= x < order@.len() && order@[x] == w;
                        assert(lo_prev <= x < lo);
                        let q = choose|q: int| 0 <= q < s.relations@.len() && #[trigger] link_via(s, q, w, v);
                        assert(link_via(s, q, order@[x] as int, v));
                    }
                }
            }
        }
    }
    proof {
        reveal(parents_ok);
        if !found && !truncated {
            assert(lo == order@.len());
            assert(k >= 1);
            let km = (k - 1) as nat;
            assert forall|u: int| #[trigger] within(s, rt, u, km + 1) implies within(s, rt, u, km) by {
                lemma_within_in_range(s, rt, u, km + 1);
                assert(km + 1 == k as nat);
                assert(dist@[u] is Some);
                let x = choose|x: int| 0 <= x < order@.len() && order@[x] == u;
                assert(dist@[u]->0 < k);
                lemma_within_monotone(s, rt, u, dist@[u]->0 as nat, km);
            }
            assert forall|j: nat| !#[trigger] within(s, rt, dst as int, j) by {
                if within(s, rt, dst as int, j) {
                    if j >= km {
                        lemma_within_stable(s, rt, km, j);
                    } else {
                        lemma_within_monotone(s, rt, dst as int, j, km);
                    }
                    lemma_within_monotone(s, rt, dst as int, km, k as nat);
                    assert(dist@[dst as int] is Some);
                }
            }
        }
    }
    proof {
        assert forall|d: nat| #[trigger] shortest(s, rt, dst as int, d) && d <= max_depth
            && count_below(n as int, within_set(s, rt, d)) <= max_visited implies found by {
            if !found {
                if !truncated {
                    assert(!within(s, rt, dst as int, d));
                } else if !halt {
                    lemma_within_monotone(s, rt, dst as int, d, max_depth as nat);
                    assert(dist@[dst as int] is Some);
                }
            }
        }
    }
    Some((order, dist, parent, found, truncated))
}

/// A shortest path between two entities.
pub struct GraphPath {
    pub schema: String,
    pub snapshot: String,
    pub from: GraphNode,
    pub to: GraphNode,
    pub found: bool,
    pub hops: Option<usize>,
    pub nodes: Vec<GraphNode>,
    pub edges: Vec<GraphEdge>,
    pub visited: usize,
    pub truncated: bool,
}

/// `g` reports a shortest walk from `src` to `dst` along relations read in either
/// direction, of at most `max_depth` links.
pub open spec fn path_layout(s: CanonicalSnapshot, src: int, dst: int, max_depth: int, g: GraphPath) -> bool {
    exists|pn: Seq<int>, pe: Seq<int>| {
        &&& pn.len() == pe.len() + 1
        &&& pn[0] == src
        &&& pn.last() == dst
        &&& forall|i: int| 0 <= i < pn.len() ==> 0 <= #[trigger] pn[i] < s.entities@.len()
        &&& forall|i: int| 0 <= i < pe.len() ==> 0 <= #[trigger] pe[i] < s.relations@.len() && link_via(s, pe[i], pn[i], pn[i + 1])
        &&& g.nodes@.len() == pn.len()
        &&& forall|i: int| 0 <= i < pn.len() ==> node_of(#[trigger] g.nodes@[i], s.entities@[pn[i]], entity_degree(s, pn[i]))
        &&& g.edges@.len() == pe.len()
        &&& forall|i: int| 0 <= i < pe.len() ==> edge_of(#[trigger] g.edges@[i], s.relations@[pe[i]])
        &&& shortest(s, src, dst, pe.len())
        &&& pe.len() <= max_depth
        &&& g.hops == Some(pe.len() as usize)
        &&& forall|i: int, q: int| 0 <= i < pe.len() && 0 <= q < s.relations@.len() && #[trigger] link_via(s, q, pn[i], pn[i + 1])
            ==> !lex_lt(s.relations@[q].id@, s.relations@[pe[i]].id@)
    }
}

/// What the shortest-path query gives: an error on a zero visit limit or a missing
/// endpoint, else the endpoints and, where one was found, a shortest path between them.
pub open spec fn path_outcome(
    s: CanonicalSnapshot,
    from_key: Seq<char>,
    to_key: Seq<char>,
    max_depth: int,
    max_visited: int,
    r: Result<GraphPath, GraphError>,
) -> bool {
    &&& r is Err <==> (max_visited == 0 || first_with_stable_key(s.entities@, from_key) is None
        || first_with_stable_key(s.entities@, to_key) is None)
    &&& match r {
        Err(e) => if max_visited == 0 {
            e is PathVisitedLimit
        } else if first_with_stable_key(s.entities@, from_key) is None {
            e matches GraphError::MissingEndpoint { role: EndpointRole::Source, stable_key: k } && k@ == from_key
        } else {
            e matches GraphError::MissingEndpoint { role: EndpointRole::Target, stable_key: k } && k@ == to_key
        },
        Ok(g) => {
            let f = first_with_stable_key(s.entities@, from_key)->0;
            let t = first_with_stable_key(s.entities@, to_key)->0;
            let src = rooted_at(s, from_key);
            let dst = rooted_at(s, to_key);
            &&& g.schema@ == GRAPH_PATH_SCHEMA@
            &&& g.snapshot@ == snapshot_name(s.snapshot)
            &&& node_of(g.from, s.entities@[f], entity_degree(s, f))
            &&& node_of(g.to, s.entities@[t], entity_degree(s, t))
            &&& g.found ==> path_layout(s, src, dst, max_depth, g)
            &&& !g.found ==> g.hops is None && g.nodes@.len() == 0 && g.edges@.len() == 0
            &&& src == dst ==> g.found
            &&& !g.found && !g.truncated ==> forall|j: nat| !#[trigger] within(s, src, dst, j)
            &&& 1 <= g.visited <= max_visited
            &&& g.found ==> !g.truncated
            &&& g.truncated ==> g.visited == max_visited || depth_cut(s, src, max_depth)
            &&& forall|d: nat| #[trigger] shortest(s, src, dst, d) && d <= max_depth
                && count_below(s.entities@.len() as int, within_set(s, src, d)) <= max_visited ==> g.found
        },
    }
}

/// Finds a shortest path, along relations read in either direction, between the
/// entities with the two stable keys; the search expands entities at most `max_depth`
/// links away and visits at most `max_visited` entities.
pub fn build_shortest_graph_path(
    snapshot: &CanonicalSnapshot,
    from_stable_key: &str,
    to_stable_key: &str,
    max_depth: usize,
    max_visited: usize,
) -> (r: Result<GraphPath, GraphError>)
    requires
        snapshot.relations@.len() <= usize::MAX / 2,
    ensures
        path_outcome(*snapshot, from_stable_key@, to_stable_key@, max_depth as int, max_visited as int, r),
{
    let mut probe = CancellationProbe::inactive(|| false);
    path_polled(snapshot, from_stable_key, to_stable_key, max_depth, max_visited, &mut probe).unwrap()
}

/// The shortest-path query that stops, giving `None`, where its operation is cancelled:
/// it checks before it starts and after it succeeds, and every
/// `COOPERATIVE_POLL_INTERVAL` steps of its search.
pub fn build_shortest_graph_path_with_operation_context<F: Fn() -> bool>(
    snapshot: &CanonicalSnapshot,
    from_stable_key: &str,
    to_stable_key: &str,
    max_depth: usize,
    max_visited: usize,
    cancelled: F,
) -> (r: Option<Result<GraphPath, GraphError>>)
    requires
        snapshot.relations@.len() <= usize::MAX / 2,
        cancelled.requires(()),
    ensures
        r matches Some(x) ==> path_outcome(*snapshot, from_stable_key@, to_stable_key@, max_depth as int, max_visited as int, x),
        r is None ==> cancelled.ensures((), true),
        (forall|b: bool| cancelled.ensures((), b) ==> b) ==> r is None,
{
    let mut probe = CancellationProbe::every(COOPERATIVE_POLL_INTERVAL, cancelled);
    if probe.check() {
        return None;
    }
    let r = path_polled(snapshot, from_stable_key, to_stable_key, max_depth, max_visited, &mut probe);
    match r {
        Some(Ok(g)) => if probe.check() { None } else { Some(Ok(g)) },
        other => other,
    }
}

#[verifier::spinoff_prover]
#[verifier::rlimit(60)]
fn path_polled<F: Fn() -> bool>(
    snapshot: &CanonicalSnapshot,
    from_stable_key: &str,
    to_stable_key: &str,
    max_depth: usize,
    max_visited: usize,
    probe: &mut CancellationProbe<F>,
) -> (r: Option<Result<GraphPath, GraphError>>)
    requires
        snapshot.relations@.len() <= usize::MAX / 2,
        old(probe).callable(),
    ensures
        final(probe).callable(),
        final(probe).active() == old(probe).active(),
        final(probe).asks() == old(probe).asks(),
        r is None ==> old(probe).active(),
        r is None ==> old(probe).asks().ensures((), true),
        r matches Some(x) ==> path_outcome(*snapshot, from_stable_key@, to_stable_key@, max_depth as int, max_visited as int, x),
{
    if max_visited == 0 {
        return Some(Err(GraphError::PathVisitedLimit));
    }
    let f = match find_by_stable_key(&snapshot.entities, from_stable_key) {
        None => {
            return Some(Err(GraphError::MissingEndpoint { role: EndpointRole::Source, stable_key: String::from_str(from_stable_key) }));
        },
        Some(i) => i,
    };
    let t = match find_by_stable_key(&snapshot.entities, to_stable_key) {
        None => {
            return Some(Err(GraphError::MissingEndpoint { role: EndpointRole::Target, stable_key: String::from_str(to_stable_key) }));
        },
        Some(i) => i,
    };
    proof {
        lemma_entity_index(snapshot.entities@, snapshot.entities@[f as int].id@);
        lemma_entity_index(snapshot.entities@, snapshot.entities@[t as int].id@);
    }
    let src = match find_entity_by_id(&snapshot.entities, &snapshot.entities[f].id) {
        Some(x) => x,
        None => f,
    };
    let dst = match find_entity_by_id(&snapshot.entities, &snapshot.entities[t].id) {
        Some(x) => x,
        None => t,
    };
    let ghost s = *snapshot;
    let ends = resolve_endpoints(snapshot);
    let (order, dist, parent, found, truncated) = match path_bfs(snapshot, &ends, src, dst, max_depth, max_visited, probe) {
        Some(found) => found,
        None => {
            return None;
        },
    };
    proof {
        reveal(parents_ok);
    }
    let n = snapshot.entities.len();
    let mut nodes: Vec<GraphNode> = Vec::new();
    let mut edges: Vec<GraphEdge> = Vec::new();
    let mut hops: Option<usize> = None;
    let mut rev_nodes: Vec<usize> = Vec::new();
    let mut rev_rels: Vec<usize> = Vec::new();
    if found {
        rev_nodes.push(dst);
        let mut cur = dst;
        let ghost total = dist@[dst as int]->0;
        while cur != src
            invariant
                path_search_done(s, src as int, dst as int, max_depth as int, max_visited as int, order@, dist@, parent@, found, truncated),
                s == *snapshot,
                n == s.entities@.len(),
                found,
                total == dist@[dst as int]->0,
                cur < n,
                dist@[cur as int] is Some,
                rev_nodes@.len() == rev_rels@.len() + 1,
                rev_nodes@[0] == dst,
                rev_nodes@.last() == cur,
                forall|i: int| 0 <= i < rev_nodes@.len() ==> (#[trigger] rev_nodes@[i]) < n,
                forall|i: int| 0 <= i < rev_rels@.len() ==> (#[trigger] rev_rels@[i]) < s.relations@.len()
                    && link_via(s, rev_rels@[i] as int, rev_nodes@[i + 1] as int, rev_nodes@[i] as int),
                dist@[cur as int]->0 + rev_rels@.len() == total,
                forall|i: int| 0 <= i < rev_rels@.len() ==> parent@[#[trigger] rev_nodes@[i] as int] == Some((rev_nodes@[i + 1], rev_rels@[i])),
            decreases dist@[cur as int]->0,
        {
            let (p, q) = match parent[cur] {
                Some(pq) => pq,
                None => (src, 0),
            };
            let ghost nodes0 = rev_nodes@;
            let ghost rels0 = rev_rels@;
            proof {
                reveal(parents_ok);
                assert(parent@[cur as int] == Some((p, q)));
            }
            rev_rels.push(q);
            rev_nodes.push(p);
            proof {
                assert forall|i: int| 0 <= i < rev_rels@.len() implies parent@[#[trigger] rev_nodes@[i] as int] == Some((rev_nodes@[i + 1], rev_rels@[i])) by {
                    if i < rels0.len() {
                        assert(rev_nodes@[i] == nodes0[i]);
                        assert(rev_nodes@[i + 1] == nodes0[i + 1]);
                        assert(rev_rels@[i] == rels0[i]);
                    } else {
                        assert(rev_nodes@[i] == cur);
                    }
                }
            }
            cur = p;
        }
        proof {
            assert(dist@[src as int] is Some);
            if dist@[src as int]->0 > 0 {
                assert(shortest(s, src as int, src as int, dist@[src as int]->0 as nat));
                lemma_within_zero(s, src as int, src as int);
                lemma_within_monotone(s, src as int, src as int, 0, (dist@[src as int]->0 - 1) as nat);
            }
        }
        let len = rev_rels.len();
        let count = rev_nodes.len();
        let mut i: usize = 0;
        while i < count
            invariant
                count == len + 1,
                i <= len + 1,
                len == rev_rels@.len(),
                rev_nodes@.len() == len + 1,
                s == *snapshot,
                snapshot.relations@.len() <= usize::MAX / 2,
                n == s.entities@.len(),
                forall|x: int| 0 <= x < rev_nodes@.len() ==> (#[trigger] rev_nodes@[x]) < n,
                nodes@.len() == i,
                forall|a: int| 0 <= a < i ==> node_of(#[trigger] nodes@[a], s.entities@[rev_nodes@[len - a] as int], entity_degree(s, rev_nodes@[len - a] as int)),
            decreases len + 1 - i,
        {
            let v = rev_nodes[len - i];
            let e = &snapshot.entities[v];
            let deg = degree_of(&snapshot.relations, &e.id);
            nodes.push(graph_node(e, deg));
            i = i + 1;
        }
        let mut j: usize = 0;
        while j < len
            invariant
                j <= len,
                len == rev_rels@.len(),
                s == *snapshot,
                forall|x: int| 0 <= x < rev_rels@.len() ==> (#[trigger] rev_rels@[x]) < s.relations@.len(),
                edges@.len() == j,
                forall|a: int| 0 <= a < j ==> edge_of(#[trigger] edges@[a], s.relations@[rev_rels@[len - 1 - a] as int]),
            decreases len - j,
        {
            let q = rev_rels[len - 1 - j];
            edges.push(graph_edge(&snapshot.relations[q]));
            j = j + 1;
        }
        hops = Some(len);
    }
    let from_degree = degree_of(&snapshot.relations, &snapshot.entities[f].id);
    let to_degree = degree_of(&snapshot.relations, &snapshot.entities[t].id);
    let g = GraphPath {
        schema: String::from_str(GRAPH_PATH_SCHEMA),
        snapshot: snapshot_id(snapshot),
        from: graph_node(&snapshot.entities[f], from_degree),
        to: graph_node(&snapshot.entities[t], to_degree),
        found,
        hops,
        nodes,
        edges,
        visited: order.len(),
        truncated,
    };
    proof {
        if src == dst {
            assert(dist@[src as int] is Some);
        }
        if found {
            let len = rev_rels@.len() as int;
            let pn = Seq::new((len + 1) as nat, |a: int| rev_nodes@[len - a] as int);
            let pe = Seq::new(len as nat, |a: int| rev_rels@[len - 1 - a] as int);
            assert forall|a: int| 0 <= a < pe.len() implies 0 <= #[trigger] pe[a] < s.relations@.len() && link_via(s, pe[a], pn[a], pn[a + 1]) by {
                let b = len - 1 - a;
                assert(link_via(s, rev_rels@[b] as int, rev_nodes@[b + 1] as int, rev_nodes@[b] as int));
            }
            assert(pn.last() == dst as int);
            assert(forall|i: int| 0 <= i < pn.len() ==> 0 <= #[trigger] pn[i] < s.entities@.len());
            assert(forall|i: int| 0 <= i < pn.len() ==> node_of(#[trigger] g.nodes@[i], s.entities@[pn[i]], entity_degree(s, pn[i])));
            assert(forall|i: int| 0 <= i < pe.len() ==> edge_of(#[trigger] g.edges@[i], s.relations@[pe[i]]));
            assert(shortest(s, src as int, dst as int, pe.len()));
            assert forall|a: int, q: int| 0 <= a < pe.len() && 0 <= q < s.relations@.len() && #[trigger] link_via(s, q, pn[a], pn[a + 1])
                implies !lex_lt(s.relations@[q].id@, s.relations@[pe[a]].id@) by {
                let b = len - 1 - a;
                let v = rev_nodes@[b] as int;
                assert(parent@[v] == Some((rev_nodes@[b + 1], rev_rels@[b])));
                assert(pn[a] == rev_nodes@[b + 1] as int);
                assert(pn[a + 1] == v);
                assert(link_via(s, q, pred_entity(parent@[v]), v));
            }
            assert(path_layout(s, src as int, dst as int, max_depth as int, g));
        }
    }
    Some(Ok(g))
}

/// `ids` turned left by `k` places.
pub open spec fn rotate(ids: Seq<Seq<char>>, k: int) -> Seq<Seq<char>> {
    ids.subrange(k, ids.len() as int) + ids.subrange(0, k)
}

/// The smallest of the first `k` rotations of `ids`, each joined by the unit separator;
/// the first of equal ones.
pub open spec fn min_rotation_upto(ids: Seq<Seq<char>>, k: nat) -> Seq<char>
    decreases k,
{
    if k <= 1 {
        join(rotate(ids, 0), "\u{1f}"@)
    } else {
        let prev = min_rotation_upto(ids, (k - 1) as nat);
        let cand = join(rotate(ids, k - 1), "\u{1f}"@);
        if lex_lt(cand, prev) { cand } else { prev }
    }
}

/// The rotation of `ids` that joins smallest, which names a cycle whatever entity it is
/// entered at; empty for no ids.
pub open spec fn min_rotation(ids: Seq<Seq<char>>) -> Seq<char> {
    if ids.len() == 0 { Seq::empty() } else { min_rotation_upto(ids, ids.len()) }
}

/// The rotation of `ids` by `k` places, joined by the unit separator.
pub open spec fn rotation_text(ids: Seq<Seq<char>>, k: int) -> Seq<char> {
    join(rotate(ids, k), "\u{1f}"@)
}

/// The position that `rotate(_, k)` reads at place `i`.
pub open spec fn turned(len: int, k: int, i: int) -> int {
    if k + i < len { k + i } else { k + i - len }
}

proof fn lemma_rotate_index(ids: Seq<Seq<char>>, k: int, i: int)
    requires
        0 <= k < ids.len(),
        0 <= i < ids.len(),
    ensures
        rotate(ids, k).len() == ids.len(),
        rotate(ids, k)[i] == ids[turned(ids.len() as int, k, i)],
{
}

proof fn lemma_rotate_twice(ids: Seq<Seq<char>>, j: int, k: int)
    requires
        0 <= j < ids.len(),
        0 <= k < ids.len(),
    ensures
        rotate(rotate(ids, j), k) == rotate(ids, turned(ids.len() as int, j, k)),
{
    let len = ids.len() as int;
    let r = rotate(ids, j);
    assert(r.len() == len);
    let jk = turned(len, j, k);
    assert forall|i: int| 0 <= i < len implies #[trigger] rotate(r, k)[i] == rotate(ids, jk)[i] by {
        lemma_rotate_index(r, k, i);
        lemma_rotate_index(ids, j, turned(len, k, i));
        lemma_rotate_index(ids, jk, i);
    }
    assert(rotate(r, k) =~= rotate(ids, jk));
}

/// The smallest of the first `k` rotations is one of them, and none of them is smaller.
proof fn lemma_min_rotation_upto_least(ids: Seq<Seq<char>>, k: nat)
    requires
        1 <= k <= ids.len(),
    ensures
        exists|i: int| 0 <= i < k && min_rotation_upto(ids, k) == rotation_text(ids, i),
        forall|i: int| 0 <= i < k ==> !lex_lt(#[trigger] rotation_text(ids, i), min_rotation_upto(ids, k)),
    decreases k,
{
    if k == 1 {
        assert(min_rotation_upto(ids, k) == rotation_text(ids, 0));
        lemma_lex_lt_irreflexive(rotation_text(ids, 0));
    } else {
        lemma_min_rotation_upto_least(ids, (k - 1) as nat);
        let prev = min_rotation_upto(ids, (k - 1) as nat);
        let cand = rotation_text(ids, k - 1);
        if lex_lt(cand, prev) {
            assert forall|i: int| 0 <= i < k implies !lex_lt(#[trigger] rotation_text(ids, i), min_rotation_upto(ids, k)) by {
                if i < k - 1 {
                    if lex_lt(rotation_text(ids, i), cand) {
                        lemma_lex_lt_transitive(rotation_text(ids, i), cand, prev);
                    }
                } else {
                    lemma_lex_lt_irreflexive(cand);
                }
            }
        } else {
            let i0 = choose|i: int| 0 <= i < k - 1 && prev == rotation_text(ids, i);
            assert(min_rotation_upto(ids, k) == rotation_text(ids, i0));
        }
    }
}

/// A cycle's key does not depend on where the cycle is entered.
pub proof fn lemma_min_rotation_rotate(ids: Seq<Seq<char>>, j: int)
    requires
        0 <= j < ids.len(),
    ensures
        min_rotation(rotate(ids, j)) == min_rotation(ids),
{
    let len = ids.len() as int;
    let rids = rotate(ids, j);
    assert(rids.len() == len);
    lemma_min_rotation_upto_least(ids, len as nat);
    lemma_min_rotation_upto_least(rids, len as nat);
    let a_txt = min_rotation(ids);
    let b_txt = min_rotation(rids);
    let a = choose|i: int| 0 <= i < len && min_rotation_upto(ids, len as nat) == rotation_text(ids, i);
    let b = choose|i: int| 0 <= i < len && min_rotation_upto(rids, len as nat) == rotation_text(rids, i);
    lemma_rotate_twice(ids, j, b);
    assert(b_txt == rotation_text(ids, turned(len, j, b)));
    assert(!lex_lt(b_txt, a_txt));
    let a2 = if a >= j { a - j } else { a + len - j };
    lemma_rotate_twice(ids, j, a2);
    assert(turned(len, j, a2) == a);
    assert(rotation_text(rids, a2) == a_txt);
    assert(!lex_lt(a_txt, b_txt));
    lemma_lex_total(a_txt, b_txt);
}

/// `v` turned left by `j` places.
pub open spec fn rotate_at(v: Seq<int>, j: int) -> Seq<int> {
    v.subrange(j, v.len() as int) + v.subrange(0, j)
}

/// The same cycle entered at its `j`-th entity is a cycle with the same key.
pub proof fn lemma_rotated_cycle(s: CanonicalSnapshot, pn: Seq<int>, pe: Seq<int>, j: int)
    requires
        is_cycle(s, pn, pe),
        0 <= j < pn.len(),
    ensures
        is_cycle(s, rotate_at(pn, j), rotate_at(pe, j)),
        rotate_at(pn, j)[0] == pn[j],
        rotate_at(pe, j).len() == pe.len(),
        cycle_key(s, rotate_at(pe, j)) == cycle_key(s, pe),
        forall|i: int| 0 <= i < pn.len() ==> #[trigger] rotate_at(pn, j)[i] == pn[turned(pn.len() as int, j, i)],
{
    let len = pn.len() as int;
    let rn = rotate_at(pn, j);
    let re = rotate_at(pe, j);
    assert forall|i: int| 0 <= i < len implies #[trigger] rn[i] == pn[turned(len, j, i)] && re[i] == pe[turned(len, j, i)] by {}
    assert(rn.no_duplicates()) by {
        assert forall|a: int, b: int| 0 <= a < len && 0 <= b < len && a != b implies rn[a] != rn[b] by {
            assert(rn[a] == pn[turned(len, j, a)]);
            assert(rn[b] == pn[turned(len, j, b)]);
        }
    }
    assert forall|i: int| 0 <= i < len implies 0 <= #[trigger] rn[i] < s.entities@.len() by {
        assert(rn[i] == pn[turned(len, j, i)]);
    }
    assert forall|i: int| 0 <= i < len implies 0 <= #[trigger] re[i] < s.relations@.len() by {
        assert(re[i] == pe[turned(len, j, i)]);
    }
    assert forall|i: int| 0 <= i < len - 1 implies directed(s, #[trigger] re[i], rn[i], rn[i + 1]) by {
        let t = turned(len, j, i);
        assert(re[i] == pe[t]);
        assert(rn[i] == pn[t]);
        assert(rn[i + 1] == pn[turned(len, j, i + 1)]);
        if t < len - 1 {
            assert(directed(s, pe[t], pn[t], pn[t + 1]));
        } else {
            assert(directed(s, pe[len - 1], pn[len - 1], pn[0]));
        }
    }
    let t = turned(len, j, len - 1);
    assert(re[len - 1] == pe[t]);
    assert(rn[len - 1] == pn[t]);
    assert(rn[0] == pn[j]);
    if t < len - 1 {
        assert(directed(s, pe[t], pn[t], pn[t + 1]));
    } else {
        assert(directed(s, pe[len - 1], pn[len - 1], pn[0]));
    }
    assert(is_cycle(s, rn, re));
    let ids = relation_ids_at(s, pe);
    assert(relation_ids_at(s, re) =~= rotate(ids, j)) by {
        assert forall|i: int| 0 <= i < len implies #[trigger] relation_ids_at(s, re)[i] == rotate(ids, j)[i] by {
            lemma_rotate_index(ids, j, i);
        }
    }
    lemma_min_rotation_rotate(ids, j);
}

/// Returns the smallest rotation of `ids`, joined by the unit separator.
pub fn minimum_rotation(ids: &Vec<String>) -> (r: String)
    ensures
        r@ == min_rotation(views(ids@)),
{
    let len = ids.len();
    if len == 0 {
        return String::new();
    }
    let ghost v = views(ids@);
    let mut best = String::new();
    let mut offset: usize = 0;
    while offset < len
        invariant
            len == ids@.len(),
            len >= 1,
            v == views(ids@),
            offset <= len,
            offset >= 1 ==> best@ == min_rotation_upto(v, offset as nat),
        decreases len - offset,
    {
        let mut rot: Vec<String> = Vec::new();
        let mut a: usize = offset;
        while a < len
            invariant
                offset <= a <= len,
                len == ids@.len(),
                v == views(ids@),
                views(rot@) == v.subrange(offset as int, a as int),
                rot@.len() == a - offset,
            decreases len - a,
        {
            let ghost old_rot = rot@;
            rot.push(ids[a].clone());
            assert forall|x: int| 0 <= x < old_rot.len() implies rot@[x]@ == views(old_rot)[x] by {
                assert(rot@[x] == old_rot[x]);
            }
            a = a + 1;
            assert(views(rot@) =~= v.subrange(offset as int, a as int));
        }
        let mut b: usize = 0;
        while b < offset
            invariant
                b <= offset,
                offset < len,
                len == ids@.len(),
                v == views(ids@),
                views(rot@) == v.subrange(offset as int, len as int) + v.subrange(0, b as int),
                rot@.len() == len - offset + b,
            decreases offset - b,
        {
            let ghost old_rot = rot@;
            rot.push(ids[b].clone());
            assert forall|x: int| 0 <= x < old_rot.len() implies rot@[x]@ == views(old_rot)[x] by {
                assert(rot@[x] == old_rot[x]);
            }
            b = b + 1;
            let ghost want = v.subrange(offset as int, len as int) + v.subrange(0, b as int);
            let ghost had = v.subrange(offset as int, len as int) + v.subrange(0, b - 1);
            assert forall|x: int| 0 <= x < want.len() implies views(rot@)[x] == want[x] by {
                if x < old_rot.len() {
                    assert(views(old_rot)[x] == had[x]);
                    if x < len - offset {
                        assert(had[x] == v[offset + x]);
                        assert(want[x] == v[offset + x]);
                    } else {
                        assert(had[x] == v[x - (len - offset)]);
                        assert(want[x] == v[x - (len - offset)]);
                    }
                } else {
                    assert(want[x] == v[b - 1]);
                    assert(rot@[x] == ids@[b - 1]);
                }
            }
            assert(views(rot@) =~= want);
        }
        let cand = join_strings(&rot, "\u{1f}");
        assert(cand@ == join(rotate(v, offset as int), "\u{1f}"@));
        if offset == 0 || str_lt(cand.as_str(), best.as_str()) {
            best = cand;
        }
        offset = offset + 1;
    }
    best
}

/// A cycle of the graph.
pub struct GraphCycle {
    pub length: usize,
    pub nodes: Vec<GraphNode>,
    pub edges: Vec<GraphEdge>,
}

/// Cycles found in the graph.
pub struct GraphCycles {
    pub schema: String,
    pub snapshot: String,
    pub cycles: Vec<GraphCycle>,
    pub start_entities: usize,
    pub omitted_start_entities: usize,
    pub truncated: bool,
}

/// Relation `r` leads from entity `u` to entity `v`.
pub open spec fn directed(s: CanonicalSnapshot, r: int, u: int, v: int) -> bool {
    from_entity(s, r) == Some(u) && to_entity(s, r) == Some(v)
}

/// `pn` and `pe` are a simple directed cycle: entity `pn[i]` leads to the next one by
/// relation `pe[i]`, and the last back to the first.
pub open spec fn is_cycle(s: CanonicalSnapshot, pn: Seq<int>, pe: Seq<int>) -> bool {
    &&& pn.len() == pe.len()
    &&& pe.len() >= 1
    &&& pn.no_duplicates()
    &&& forall|i: int| 0 <= i < pn.len() ==> 0 <= #[trigger] pn[i] < s.entities@.len()
    &&& forall|i: int| 0 <= i < pe.len() ==> 0 <= #[trigger] pe[i] < s.relations@.len()
    &&& forall|i: int| 0 <= i < pe.len() - 1 ==> directed(s, #[trigger] pe[i], pn[i], pn[i + 1])
    &&& directed(s, pe[pe.len() - 1], pn[pn.len() - 1], pn[0])
}

/// The ids of the edges of a reported cycle.
pub open spec fn edge_ids(edges: Seq<GraphEdge>) -> Seq<Seq<char>> {
    Seq::new(edges.len(), |i: int| edges[i].id@)
}

/// `c` reports the cycle `pn`, `pe`.
pub open spec fn cycle_of(c: GraphCycle, s: CanonicalSnapshot, pn: Seq<int>, pe: Seq<int>) -> bool {
    &&& c.length == pe.len()
    &&& c.nodes@.len() == pn.len()
    &&& c.edges@.len() == pe.len()
    &&& forall|i: int| 0 <= i < pn.len() ==> node_of(#[trigger] c.nodes@[i], s.entities@[pn[i]], entity_degree(s, pn[i]))
    &&& forall|i: int| 0 <= i < pe.len() ==> edge_of(#[trigger] c.edges@[i], s.relations@[pe[i]])
}

/// `c` reports a simple directed cycle of at most `max_depth` relations.
pub open spec fn reports_cycle(c: GraphCycle, s: CanonicalSnapshot, max_depth: int) -> bool {
    exists|pn: Seq<int>, pe: Seq<int>| is_cycle(s, pn, pe) && pe.len() <= max_depth && cycle_of(c, s, pn, pe)
}

/// The cycle `pn` is entered at the entity of the first start that the search takes among
/// the starts that resolve to its entities.
pub open spec fn entered_first(s: CanonicalSnapshot, pn: Seq<int>) -> bool {
    exists|y: int| 0 <= y < s.entities@.len() && cycle_start(s, y) && canonical(s, y) == pn[0]
        && forall|x: int| 0 <= x < s.entities@.len() && cycle_start(s, x) && #[trigger] pn.contains(canonical(s, x))
            ==> start_rank(s, y) <= start_rank(s, x)
}

/// `c` reports a simple directed cycle of at most `max_depth` relations, listed from the
/// entity it is entered at.
pub open spec fn reports_entered_cycle(c: GraphCycle, s: CanonicalSnapshot, max_depth: int) -> bool {
    exists|pn: Seq<int>, pe: Seq<int>| is_cycle(s, pn, pe) && pe.len() <= max_depth && cycle_of(c, s, pn, pe)
        && entered_first(s, pn)
}

/// Cycle order: shorter first, then by smallest rotation of the relation ids.
pub open spec fn cycle_before(a: GraphCycle, b: GraphCycle) -> bool {
    a.length < b.length || (a.length == b.length && lex_lt(min_rotation(edge_ids(a.edges@)), min_rotation(edge_ids(b.edges@))))
}

/// An entity that a cycle search starts at: a relation leads from its id to an entity.
pub open spec fn cycle_start(s: CanonicalSnapshot, i: int) -> bool {
    exists|r: int| 0 <= r < s.relations@.len() && #[trigger] from_entity(s, r) == entity_index(s.entities@, s.entities@[i].id@)
        && to_entity(s, r) is Some
}

/// The relations that lead out of `u`, each with its target, ordered by the target's
/// stable key and then the relation's id.
fn out_neighbors(snapshot: &CanonicalSnapshot, ends: &Vec<(Option<usize>, Option<usize>)>, u: usize) -> (r: Vec<(usize, usize)>)
    requires
        resolved(*snapshot, ends@),
    ensures
        forall|j: int| 0 <= j < r@.len() ==> (#[trigger] r@[j]).0 < snapshot.relations@.len()
            && directed(*snapshot, r@[j].0 as int, u as int, r@[j].1 as int)
            && r@[j].1 < snapshot.entities@.len(),
        forall|rr: int, v: int| 0 <= rr < snapshot.relations@.len() && #[trigger] directed(*snapshot, rr, u as int, v)
            ==> exists|j: int| 0 <= j < r@.len() && r@[j].0 == rr && r@[j].1 == v,
{
    let m = snapshot.relations.len();
    let mut keys: Vec<NeighborKey> = Vec::new();
    let mut q: usize = 0;
    while q < m
        invariant
            m == snapshot.relations@.len(),
            resolved(*snapshot, ends@),
            q <= m,
            forall|j: int| 0 <= j < keys@.len() ==> (#[trigger] keys@[j]).relation < m
                && directed(*snapshot, keys@[j].relation as int, u as int, keys@[j].entity as int)
                && keys@[j].entity < snapshot.entities@.len(),
            forall|rr: int, v: int| 0 <= rr < q && #[trigger] directed(*snapshot, rr, u as int, v)
                ==> exists|j: int| 0 <= j < keys@.len() && keys@[j].relation == rr && keys@[j].entity == v,
        decreases m - q,
    {
        let ghost kb = keys@;
        let (f, t) = ends[q];
        proof {
            if let Some(x) = to_entity(*snapshot, q as int) {
                lemma_entity_index(snapshot.entities@, snapshot.relations@[q as int].to@);
            }
        }
        if f == Some(u) {
            if let Some(v) = t {
                keys.push(NeighborKey {
                    stable_key: snapshot.entities[v].stable_key.clone(),
                    relation_id: snapshot.relations[q].id.clone(),
                    relation: q,
                    entity: v,
                });
            }
        }
        proof {
            assert forall|rr: int, v: int| 0 <= rr < q + 1 && #[trigger] directed(*snapshot, rr, u as int, v)
                implies exists|j: int| 0 <= j < keys@.len() && keys@[j].relation == rr && keys@[j].entity == v by {
                if rr < q {
                    let j = choose|j: int| 0 <= j < kb.len() && kb[j].relation == rr && kb[j].entity == v;
                    assert(keys@[j] == kb[j]);
                } else {
                    assert(keys@[keys@.len() - 1].relation == rr);
                }
            }
        }
        q = q + 1;
    }
    let ghost orig = keys@;
    let sorted = sort_by_key(keys);
    proof {
        broadcast use vstd::seq_lib::group_to_multiset_ensures;
        lemma_permutation_facts(orig, sorted@);
    }
    let mut r: Vec<(usize, usize)> = Vec::new();
    let mut j: usize = 0;
    while j < sorted.len()
        invariant
            j <= sorted@.len(),
            r@.len() == j,
            forall|a: int| 0 <= a < sorted@.len() ==> orig.contains(#[trigger] sorted@[a]),
            forall|a: int| 0 <= a < orig.len() ==> (#[trigger] orig[a]).relation < m
                && directed(*snapshot, orig[a].relation as int, u as int, orig[a].entity as int)
                && orig[a].entity < snapshot.entities@.len(),
            m == snapshot.relations@.len(),
            forall|a: int| 0 <= a < j ==> (#[trigger] r@[a]).0 < m
                && directed(*snapshot, r@[a].0 as int, u as int, r@[a].1 as int)
                && r@[a].1 < snapshot.entities@.len(),
            forall|a: int| 0 <= a < j ==> (#[trigger] r@[a]).0 == sorted@[a].relation && r@[a].1 == sorted@[a].entity,
        decreases sorted.len() - j,
    {
        proof {
            assert(orig.contains(sorted@[j as int]));
        }
        r.push((sorted[j].relation, sorted[j].entity));
        j = j + 1;
    }
    proof {
        broadcast use vstd::seq_lib::group_to_multiset_ensures;
        assert forall|rr: int, v: int| 0 <= rr < m && #[trigger] directed(*snapshot, rr, u as int, v)
            implies exists|j: int| 0 <= j < r@.len() && r@[j].0 == rr && r@[j].1 == v by {
            let a = choose|a: int| 0 <= a < orig.len() && orig[a].relation == rr && orig[a].entity == v;
            assert(orig.to_multiset().count(orig[a]) > 0);
            assert(sorted@.contains(orig[a]));
            let b = choose|b: int| 0 <= b < sorted@.len() && sorted@[b] == orig[a];
            assert(r@[b].0 == rr && r@[b].1 == v);
        }
    }
    r
}

/// The outgoing relations of every entity, as `out_neighbors` lists them.
pub open spec fn adjacency_ok(s: CanonicalSnapshot, adj: Seq<Vec<(usize, usize)>>) -> bool {
    &&& adj.len() == s.entities@.len()
    &&& forall|u: int, j: int| 0 <= u < adj.len() && 0 <= j < adj[u]@.len() ==> (#[trigger] adj[u]@[j]).0 < s.relations@.len()
        && directed(s, adj[u]@[j].0 as int, u, adj[u]@[j].1 as int)
        && adj[u]@[j].1 < s.entities@.len()
    &&& forall|u: int, rr: int, v: int| 0 <= u < adj.len() && 0 <= rr < s.relations@.len() && #[trigger] directed(s, rr, u, v)
        ==> exists|j: int| 0 <= j < adj[u]@.len() && adj[u]@[j].0 == rr && adj[u]@[j].1 == v
}

/// The current walk of the cycle search: a simple directed path from `start`.
pub open spec fn dfs_path_ok(s: CanonicalSnapshot, start: int, path: Seq<usize>, edges: Seq<usize>, on_path: Seq<bool>) -> bool {
    let n = s.entities@.len() as int;
    &&& path.len() >= 1
    &&& path[0] == start
    &&& edges.len() + 1 == path.len()
    &&& as_ints(path).no_duplicates()
    &&& forall|i: int| 0 <= i < path.len() ==> (#[trigger] path[i]) < n
    &&& on_path.len() == n
    &&& forall|v: int| 0 <= v < n ==> (#[trigger] on_path[v]) == as_ints(path).contains(v)
    &&& forall|i: int| 0 <= i < edges.len() ==> (#[trigger] edges[i]) < s.relations@.len()
        && directed(s, edges[i] as int, path[i] as int, path[i + 1] as int)
}

/// A simple directed walk from `start` of at least `max_depth` relations goes on by a
/// relation to the start or to an entity not on it: the depth limit cuts the search there.
pub open spec fn cut_walk(s: CanonicalSnapshot, start: int, max_depth: int) -> bool {
    exists|path: Seq<usize>, edges: Seq<usize>, on: Seq<bool>, r: int, v: int|
        #![trigger dfs_path_ok(s, start, path, edges, on), directed(s, r, path.last() as int, v)]
        dfs_path_ok(s, start, path, edges, on) && edges.len() >= max_depth && 0 <= r < s.relations@.len()
            && directed(s, r, path.last() as int, v) && (v == start || !as_ints(path).contains(v))
}

/// The cycles found so far: simple cycles of at most `max_depth` relations, at most
/// `limit` of them, no two the same cycle entered elsewhere, with their keys.
pub open spec fn found_cycles_ok(
    s: CanonicalSnapshot,
    cycles: Seq<(Vec<usize>, Vec<usize>)>,
    discovered: Seq<String>,
    max_depth: int,
    limit: int,
) -> bool {
    &&& cycles.len() <= limit
    &&& discovered.len() == cycles.len()
    &&& forall|c: int| 0 <= c < cycles.len() ==> is_cycle(s, as_ints((#[trigger] cycles[c]).0@), as_ints(cycles[c].1@))
        && cycles[c].1@.len() <= max_depth
    &&& forall|c: int| 0 <= c < cycles.len() ==> (#[trigger] discovered[c])@ == min_rotation(relation_ids_at(s, as_ints(cycles[c].1@)))
    &&& views(discovered).no_duplicates()
}

/// The entity a cycle visits after its `k`-th one.
pub open spec fn cycle_next(pn: Seq<int>, k: int) -> int {
    if k + 1 < pn.len() { pn[k + 1] } else { pn[0] }
}

/// The cycle `pn`, `pe` begins with the walk `path`, `edges`.
pub open spec fn extends_walk(path: Seq<usize>, edges: Seq<usize>, pn: Seq<int>, pe: Seq<int>) -> bool {
    &&& path.len() <= pn.len()
    &&& edges.len() <= pe.len()
    &&& forall|i: int| 0 <= i < path.len() ==> pn[i] == #[trigger] path[i] as int
    &&& forall|i: int| 0 <= i < edges.len() ==> pe[i] == #[trigger] edges[i] as int
}

/// The key a cycle with relations `pe` is recorded under.
pub open spec fn cycle_key(s: CanonicalSnapshot, pe: Seq<int>) -> Seq<char> {
    min_rotation(relation_ids_at(s, pe))
}

/// Every simple cycle of at most `max_depth` relations that begins with the walk `path`,
/// `edges` has its key in `keys`.
pub open spec fn walk_covered(s: CanonicalSnapshot, path: Seq<usize>, edges: Seq<usize>, max_depth: int, keys: Seq<Seq<char>>) -> bool {
    forall|pn: Seq<int>, pe: Seq<int>| #[trigger] extends_walk(path, edges, pn, pe) && is_cycle(s, pn, pe) && pe.len() <= max_depth
        ==> keys.contains(cycle_key(s, pe))
}

/// Every such cycle that leaves the walk by `step` (a relation and its target) has its key
/// in `keys`.
pub open spec fn step_covered(
    s: CanonicalSnapshot,
    path: Seq<usize>,
    edges: Seq<usize>,
    max_depth: int,
    keys: Seq<Seq<char>>,
    step: (usize, usize),
) -> bool {
    forall|pn: Seq<int>, pe: Seq<int>| #[trigger] extends_walk(path, edges, pn, pe) && is_cycle(s, pn, pe) && pe.len() <= max_depth
        && pe[edges.len() as int] == step.0 as int && cycle_next(pn, edges.len() as int) == step.1 as int
        ==> keys.contains(cycle_key(s, pe))
}

/// Every simple cycle of at most `max_depth` relations through entity `i`, entered at `i`,
/// has its key in `keys`.
pub open spec fn start_covered(s: CanonicalSnapshot, i: int, max_depth: int, keys: Seq<Seq<char>>) -> bool {
    forall|pn: Seq<int>, pe: Seq<int>| #[trigger] is_cycle(s, pn, pe) && pe.len() <= max_depth && pn[0] == i
        ==> keys.contains(cycle_key(s, pe))
}

/// The entity that a start entity's id resolves to.
pub open spec fn canonical(s: CanonicalSnapshot, i: int) -> int {
    match entity_index(s.entities@, s.entities@[i].id@) {
        Some(c) => c,
        None => i,
    }
}

proof fn lemma_start_covered_grows(s: CanonicalSnapshot, i: int, max_depth: int, k1: Seq<Seq<char>>, k2: Seq<Seq<char>>)
    requires
        start_covered(s, i, max_depth, k1),
        forall|x: Seq<char>| #[trigger] k1.contains(x) ==> k2.contains(x),
    ensures
        start_covered(s, i, max_depth, k2),
{
    assert forall|pn: Seq<int>, pe: Seq<int>| #[trigger] is_cycle(s, pn, pe) && pe.len() <= max_depth && pn[0] == i
        implies k2.contains(cycle_key(s, pe)) by {
        assert(k1.contains(cycle_key(s, pe)));
    }
}

proof fn lemma_walk_from_start(s: CanonicalSnapshot, path: Seq<usize>, edges: Seq<usize>, max_depth: int, keys: Seq<Seq<char>>)
    requires
        walk_covered(s, path, edges, max_depth, keys),
        path.len() == 1,
        edges.len() == 0,
    ensures
        start_covered(s, path[0] as int, max_depth, keys),
{
    assert forall|pn: Seq<int>, pe: Seq<int>| #[trigger] is_cycle(s, pn, pe) && pe.len() <= max_depth && pn[0] == path[0] as int
        implies keys.contains(cycle_key(s, pe)) by {
        assert(extends_walk(path, edges, pn, pe));
    }
}

/// Every entity on a cycle is a start entity and its own canonical entity.
proof fn lemma_cycle_entity_is_start(s: CanonicalSnapshot, pn: Seq<int>, pe: Seq<int>)
    requires
        is_cycle(s, pn, pe),
    ensures
        cycle_start(s, pn[0]),
        canonical(s, pn[0]) == pn[0],
{
    if pe.len() > 1 {
        assert(directed(s, pe[0], pn[0], pn[1]));
    } else {
        assert(directed(s, pe[0], pn[0], pn[0]));
    }
    let from = s.relations@[pe[0]].from@;
    lemma_entity_index(s.entities@, from);
    let id = s.entities@[pn[0]].id@;
    lemma_entity_index(s.entities@, id);
    assert(entity_index(s.entities@, id) == Some(pn[0]));
    assert(from_entity(s, pe[0]) == entity_index(s.entities@, id));
}

proof fn lemma_views_prefix(a: Seq<String>, b: Seq<String>)
    requires
        a.len() <= b.len(),
        forall|i: int| 0 <= i < a.len() ==> #[trigger] b[i] == a[i],
    ensures
        forall|x: Seq<char>| #[trigger] views(a).contains(x) ==> views(b).contains(x),
{
    assert forall|x: Seq<char>| #[trigger] views(a).contains(x) implies views(b).contains(x) by {
        let i = choose|i: int| 0 <= i < views(a).len() && views(a)[i] == x;
        assert(views(b)[i] == x);
    }
}

proof fn lemma_step_covered_grows(
    s: CanonicalSnapshot,
    path: Seq<usize>,
    edges: Seq<usize>,
    max_depth: int,
    k1: Seq<Seq<char>>,
    k2: Seq<Seq<char>>,
    step: (usize, usize),
)
    requires
        step_covered(s, path, edges, max_depth, k1, step),
        forall|x: Seq<char>| #[trigger] k1.contains(x) ==> k2.contains(x),
    ensures
        step_covered(s, path, edges, max_depth, k2, step),
{
    assert forall|pn: Seq<int>, pe: Seq<int>| #[trigger] extends_walk(path, edges, pn, pe) && is_cycle(s, pn, pe) && pe.len() <= max_depth
        && pe[edges.len() as int] == step.0 as int && cycle_next(pn, edges.len() as int) == step.1 as int
        implies k2.contains(cycle_key(s, pe)) by {
        assert(k1.contains(cycle_key(s, pe)));
    }
}

/// A walk is covered once every relation that leaves its last entity is.
proof fn lemma_steps_cover_walk(
    s: CanonicalSnapshot,
    adj: Seq<Vec<(usize, usize)>>,
    start: int,
    path: Seq<usize>,
    edges: Seq<usize>,
    on_path: Seq<bool>,
    max_depth: int,
    keys: Seq<Seq<char>>,
)
    requires
        adjacency_ok(s, adj),
        dfs_path_ok(s, start, path, edges, on_path),
        forall|j: int| 0 <= j < adj[path.last() as int]@.len() ==> step_covered(s, path, edges, max_depth, keys, #[trigger] adj[path.last() as int]@[j]),
    ensures
        walk_covered(s, path, edges, max_depth, keys),
{
    let k = edges.len() as int;
    let u = path.last() as int;
    assert forall|pn: Seq<int>, pe: Seq<int>| #[trigger] extends_walk(path, edges, pn, pe) && is_cycle(s, pn, pe) && pe.len() <= max_depth
        implies keys.contains(cycle_key(s, pe)) by {
        assert(pn[k] == path[k] as int);
        let nx = cycle_next(pn, k);
        if k + 1 < pn.len() {
            assert(directed(s, pe[k], pn[k], pn[k + 1]));
        }
        assert(directed(s, pe[k], u, nx));
        assert(0 <= pe[k] < s.relations@.len());
        let j = choose|j: int| 0 <= j < adj[u]@.len() && adj[u]@[j].0 == pe[k] && adj[u]@[j].1 == nx;
        assert(step_covered(s, path, edges, max_depth, keys, adj[u]@[j]));
    }
}

/// A relation back to the start closes exactly one cycle of those that begin with the walk.
proof fn lemma_closing_step_covered(
    s: CanonicalSnapshot,
    start: int,
    path: Seq<usize>,
    edges: Seq<usize>,
    on_path: Seq<bool>,
    max_depth: int,
    keys: Seq<Seq<char>>,
    r: usize,
)
    requires
        dfs_path_ok(s, start, path, edges, on_path),
        keys.contains(cycle_key(s, as_ints(edges.push(r)))),
    ensures
        step_covered(s, path, edges, max_depth, keys, (r, start as usize)),
{
    let k = edges.len() as int;
    assert forall|pn: Seq<int>, pe: Seq<int>| #[trigger] extends_walk(path, edges, pn, pe) && is_cycle(s, pn, pe) && pe.len() <= max_depth
        && pe[k] == r as int && cycle_next(pn, k) == (start as usize) as int
        implies keys.contains(cycle_key(s, pe)) by {
        assert(pn[0] == path[0] as int);
        if k + 1 < pn.len() {
            assert(pn[k + 1] == pn[0]);
        }
        assert(pe =~= as_ints(edges.push(r)));
    }
}

/// A relation to an entity already on the walk closes no cycle that begins with it.
proof fn lemma_revisit_step_covered(
    s: CanonicalSnapshot,
    start: int,
    path: Seq<usize>,
    edges: Seq<usize>,
    on_path: Seq<bool>,
    max_depth: int,
    keys: Seq<Seq<char>>,
    r: usize,
    target: usize,
)
    requires
        dfs_path_ok(s, start, path, edges, on_path),
        target < on_path.len(),
        on_path[target as int],
        target as int != start,
    ensures
        step_covered(s, path, edges, max_depth, keys, (r, target)),
{
    let k = edges.len() as int;
    assert forall|pn: Seq<int>, pe: Seq<int>| #[trigger] extends_walk(path, edges, pn, pe) && is_cycle(s, pn, pe) && pe.len() <= max_depth
        && pe[k] == r as int && cycle_next(pn, k) == target as int
        implies keys.contains(cycle_key(s, pe)) by {
        assert(pn[0] == path[0] as int);
        assert(as_ints(path).contains(target as int));
        let w = choose|w: int| 0 <= w < as_ints(path).len() && as_ints(path)[w] == target as int;
        assert(pn[w] == path[w] as int);
        assert(pn[k + 1] == target as int);
        assert(false);
    }
}

/// A relation to a new entity leads to the walk one step longer.
proof fn lemma_forward_step_covered(
    s: CanonicalSnapshot,
    start: int,
    path: Seq<usize>,
    edges: Seq<usize>,
    on_path: Seq<bool>,
    max_depth: int,
    keys: Seq<Seq<char>>,
    r: usize,
    target: usize,
)
    requires
        dfs_path_ok(s, start, path, edges, on_path),
        target as int != start,
        walk_covered(s, path.push(target), edges.push(r), max_depth, keys),
    ensures
        step_covered(s, path, edges, max_depth, keys, (r, target)),
{
    let k = edges.len() as int;
    assert forall|pn: Seq<int>, pe: Seq<int>| #[trigger] extends_walk(path, edges, pn, pe) && is_cycle(s, pn, pe) && pe.len() <= max_depth
        && pe[k] == r as int && cycle_next(pn, k) == target as int
        implies keys.contains(cycle_key(s, pe)) by {
        assert(pn[0] == path[0] as int);
        assert(k + 1 < pn.len());
        assert(extends_walk(path.push(target), edges.push(r), pn, pe));
    }
}

/// The cycles recorded after `before` were entered at `start`, keep the ones before, and
/// have keys that `before_keys` did not hold.
pub open spec fn fresh_from(
    start: int,
    before: Seq<(Vec<usize>, Vec<usize>)>,
    before_keys: Seq<String>,
    after: Seq<(Vec<usize>, Vec<usize>)>,
    after_keys: Seq<String>,
) -> bool {
    &&& before.len() <= after.len()
    &&& forall|c: int| 0 <= c < before.len() ==> #[trigger] after[c] == before[c]
    &&& forall|c: int| before.len() <= c < after.len() ==> (#[trigger] after[c]).0@.len() >= 1
        && after[c].0@[0] == start && !views(before_keys).contains(after_keys[c]@)
}

proof fn lemma_fresh_trans(
    start: int,
    a: Seq<(Vec<usize>, Vec<usize>)>,
    ka: Seq<String>,
    b: Seq<(Vec<usize>, Vec<usize>)>,
    kb: Seq<String>,
    c: Seq<(Vec<usize>, Vec<usize>)>,
    kc: Seq<String>,
)
    requires
        fresh_from(start, a, ka, b, kb),
        fresh_from(start, b, kb, c, kc),
        forall|x: Seq<char>| #[trigger] views(ka).contains(x) ==> views(kb).contains(x),
        b.len() <= kb.len(),
        kb.len() <= kc.len(),
        forall|i: int| 0 <= i < kb.len() ==> #[trigger] kc[i] == kb[i],
    ensures
        fresh_from(start, a, ka, c, kc),
{
    assert forall|i: int| a.len() <= i < c.len() implies (#[trigger] c[i]).0@.len() >= 1
        && c[i].0@[0] == start && !views(ka).contains(kc[i]@) by {
        if i < b.len() {
            assert(c[i] == b[i]);
            assert(kc[i] == kb[i]);
        } else {
            if views(ka).contains(kc[i]@) {
                assert(views(kb).contains(kc[i]@));
            }
        }
    }
}

fn copy_indices(v: &Vec<usize>) -> (r: Vec<usize>)
    ensures
        r@ == v@,
{
    let mut r: Vec<usize> = Vec::new();
    let mut i: usize = 0;
    while i < v.len()
        invariant
            i <= v@.len(),
            r@ == v@.subrange(0, i as int),
        decreases v.len() - i,
    {
        r.push(v[i]);
        i = i + 1;
        assert(r@ =~= v@.subrange(0, i as int));
    }
    assert(v@.subrange(0, i as int) =~= v@);
    r
}

/// The ids of the relations at the given positions.
fn relation_ids(snapshot: &CanonicalSnapshot, rels: &Vec<usize>) -> (r: Vec<String>)
    requires
        forall|i: int| 0 <= i < rels@.len() ==> (#[trigger] rels@[i]) < snapshot.relations@.len(),
    ensures
        views(r@) == relation_ids_at(*snapshot, as_ints(rels@)),
{
    let mut r: Vec<String> = Vec::new();
    let mut i: usize = 0;
    while i < rels.len()
        invariant
            i <= rels@.len(),
            forall|x: int| 0 <= x < rels@.len() ==> (#[trigger] rels@[x]) < snapshot.relations@.len(),
            r@.len() == i,
            forall|a: int| 0 <= a < i ==> (#[trigger] r@[a])@ == snapshot.relations@[rels@[a] as int].id@,
        decreases rels.len() - i,
    {
        r.push(snapshot.relations[rels[i]].id.clone());
        i = i + 1;
    }
    assert(views(r@) =~= relation_ids_at(*snapshot, as_ints(rels@)));
    r
}

/// Walks every simple directed path from `start` through `current`, of at most
/// `max_depth` relations, and records each cycle back to `start` not yet recorded under
/// another rotation, until `limit` cycles are recorded.
fn search_cycles<F: Fn() -> bool>(
    snapshot: &CanonicalSnapshot,
    adj: &Vec<Vec<(usize, usize)>>,
    start: usize,
    current: usize,
    path: &mut Vec<usize>,
    edges: &mut Vec<usize>,
    on_path: &mut Vec<bool>,
    max_depth: usize,
    limit: usize,
    discovered: &mut Vec<String>,
    cycles: &mut Vec<(Vec<usize>, Vec<usize>)>,
    truncated: &mut bool,
    probe: &mut CancellationProbe<F>,
) -> (stopped: bool)
    requires
        old(probe).callable(),
        adjacency_ok(*snapshot, adj@),
        dfs_path_ok(*snapshot, start as int, old(path)@, old(edges)@, old(on_path)@),
        old(path)@.last() == current,
        old(edges)@.len() <= max_depth,
        found_cycles_ok(*snapshot, old(cycles)@, old(discovered)@, max_depth as int, limit as int),
    ensures
        final(path)@ == old(path)@,
        final(edges)@ == old(edges)@,
        final(on_path)@ == old(on_path)@,
        found_cycles_ok(*snapshot, final(cycles)@, final(discovered)@, max_depth as int, limit as int),
        *old(truncated) ==> *final(truncated),
        final(probe).callable(),
        final(probe).active() == old(probe).active(),
        final(probe).asks() == old(probe).asks(),
        stopped ==> old(probe).active(),
        stopped ==> old(probe).asks().ensures((), true),
        old(discovered)@.len() <= final(discovered)@.len(),
        forall|i: int| 0 <= i < old(discovered)@.len() ==> #[trigger] final(discovered)@[i] == old(discovered)@[i],
        !stopped && (!*final(truncated) || final(cycles)@.len() < limit) ==> walk_covered(*snapshot, old(path)@, old(edges)@, max_depth as int, views(final(discovered)@)),
        old(cycles)@.len() <= final(cycles)@.len(),
        fresh_from(start as int, old(cycles)@, old(discovered)@, final(cycles)@, final(discovered)@),
        *final(truncated) ==> *old(truncated) || final(cycles)@.len() >= limit || cut_walk(*snapshot, start as int, max_depth as int),
    decreases max_depth - old(edges)@.len(),
{
    if probe.step() {
        return true;
    }
    if cycles.len() >= limit {
        *truncated = true;
        return false;
    }
    let outgoing = &adj[current];
    if outgoing.len() == 0 {
        proof {
            lemma_steps_cover_walk(*snapshot, adj@, start as int, path@, edges@, on_path@, max_depth as int, views(discovered@));
        }
        return false;
    }
    if edges.len() >= max_depth {
        let mut j: usize = 0;
        while j < outgoing.len()
            invariant
                j <= outgoing@.len(),
                *old(truncated) ==> *truncated,
                on_path@.len() == snapshot.entities@.len(),
                forall|a: int| 0 <= a < outgoing@.len() ==> (#[trigger] outgoing@[a]).1 < snapshot.entities@.len(),
                adjacency_ok(*snapshot, adj@),
                outgoing == adj@[current as int],
                current < snapshot.entities@.len(),
                dfs_path_ok(*snapshot, start as int, path@, edges@, on_path@),
                path@.last() == current,
                edges@.len() >= max_depth,
                *truncated ==> *old(truncated) || cut_walk(*snapshot, start as int, max_depth as int),
            decreases outgoing.len() - j,
        {
            let target = outgoing[j].1;
            if target == start || !on_path[target] {
                proof {
                    let r = outgoing@[j as int].0 as int;
                    assert(directed(*snapshot, r, path@.last() as int, target as int));
                    assert(dfs_path_ok(*snapshot, start as int, path@, edges@, on_path@));
                }
                *truncated = true;
            }
            j = j + 1;
        }
        proof {
            let ghost ed = edges@;
            let ghost pa = path@;
            assert forall|pn: Seq<int>, pe: Seq<int>| #[trigger] extends_walk(pa, ed, pn, pe) && is_cycle(*snapshot, pn, pe) && pe.len() <= max_depth
                implies views(discovered@).contains(cycle_key(*snapshot, pe)) by {
                assert(pe.len() > max_depth);
            }
        }
        return false;
    }
    let ghost s = *snapshot;
    let ghost path0 = path@;
    let ghost edges0 = edges@;
    let ghost on0 = on_path@;
    let ghost disc0 = discovered@;
    let ghost cyc0 = cycles@;
    let mut idx: usize = 0;
    while idx < outgoing.len()
        invariant
            adjacency_ok(s, adj@),
            s == *snapshot,
            current < s.entities@.len(),
            outgoing == adj@[current as int],
            idx <= outgoing@.len(),
            path@ == path0,
            edges@ == edges0,
            on_path@ == on0,
            path0 == old(path)@,
            edges0 == old(edges)@,
            on0 == old(on_path)@,
            dfs_path_ok(s, start as int, path0, edges0, on0),
            path0.last() == current,
            edges0.len() < max_depth,
            found_cycles_ok(s, cycles@, discovered@, max_depth as int, limit as int),
            *old(truncated) ==> *truncated,
            probe.callable(),
            probe.active() == old(probe).active(),
            probe.asks() == old(probe).asks(),
            disc0 == old(discovered)@,
            cyc0 == old(cycles)@,
            fresh_from(start as int, cyc0, disc0, cycles@, discovered@),
            old(cycles)@.len() <= cycles@.len(),
            *truncated ==> *old(truncated) || cycles@.len() >= limit || cut_walk(s, start as int, max_depth as int),
            disc0.len() <= discovered@.len(),
            forall|i: int| 0 <= i < disc0.len() ==> #[trigger] discovered@[i] == disc0[i],
            (!*truncated || cycles@.len() < limit) ==> forall|j: int| 0 <= j < idx ==> step_covered(s, path0, edges0, max_depth as int, views(discovered@), #[trigger] outgoing@[j]),
        decreases outgoing.len() - idx,
    {
        let ghost disc1 = discovered@;
        let ghost trunc1 = *truncated;
        let ghost clen1 = cycles@.len();
        if cycles.len() >= limit {
            *truncated = true;
            return false;
        }
        let (r, target) = outgoing[idx];
        proof {
            assert(directed(s, r as int, current as int, target as int));
        }
        if target == start {
            let mut cycle_edges = copy_indices(edges);
            cycle_edges.push(r);
            let ids = relation_ids(snapshot, &cycle_edges);
            let key = minimum_rotation(&ids);
            if !contains_str(discovered, &key) {
                let ghost old_disc = discovered@;
                let ghost old_cycles = cycles@;
                discovered.push(key);
                let cycle_path = copy_indices(path);
                cycles.push((cycle_path, cycle_edges));
                proof {
                    let pn = as_ints(path0);
                    let pe = as_ints(cycle_edges@);
                    assert(pe.len() == pn.len());
                    assert forall|i: int| 0 <= i < pe.len() - 1 implies directed(s, #[trigger] pe[i], pn[i], pn[i + 1]) by {
                        assert(pe[i] == edges0[i] as int);
                    }
                    assert(pn[pn.len() - 1] == current as int);
                    assert(is_cycle(s, pn, pe));
                    assert(views(discovered@).no_duplicates()) by {
                        assert forall|a: int, b: int| 0 <= a < discovered@.len() && 0 <= b < discovered@.len() && a != b
                            implies views(discovered@)[a] != views(discovered@)[b] by {
                            if a < old_disc.len() && b < old_disc.len() {
                                assert(views(old_disc)[a] != views(old_disc)[b]);
                            } else if a < old_disc.len() {
                                assert(discovered@[a] == old_disc[a]);
                            } else {
                                assert(discovered@[b] == old_disc[b]);
                            }
                        }
                    }
                    assert forall|c: int| 0 <= c < cycles@.len() implies is_cycle(s, as_ints((#[trigger] cycles@[c]).0@), as_ints(cycles@[c].1@))
                        && cycles@[c].1@.len() <= max_depth by {
                        if c < old_cycles.len() {
                            assert(cycles@[c] == old_cycles[c]);
                        }
                    }
                    assert forall|c: int| 0 <= c < cycles@.len() implies (#[trigger] discovered@[c])@ == min_rotation(relation_ids_at(s, as_ints(cycles@[c].1@))) by {
                        if c < old_cycles.len() {
                            assert(cycles@[c] == old_cycles[c]);
                            assert(discovered@[c] == old_disc[c]);
                        }
                    }
                    assert(views(discovered@)[discovered@.len() - 1] == key@);
                    assert(!views(disc0).contains(key@)) by {
                        if views(disc0).contains(key@) {
                            let i = choose|i: int| 0 <= i < views(disc0).len() && views(disc0)[i] == key@;
                            assert(old_disc[i] == disc0[i]);
                        }
                    }
                    assert(cycle_path@ == path0);
                    assert(fresh_from(start as int, cyc0, disc0, cycles@, discovered@)) by {
                        assert forall|c: int| 0 <= c < cyc0.len() implies #[trigger] cycles@[c] == cyc0[c] by {
                            assert(cycles@[c] == old_cycles[c]);
                        }
                        assert forall|c: int| cyc0.len() <= c < cycles@.len() implies (#[trigger] cycles@[c]).0@.len() >= 1
                            && cycles@[c].0@[0] == start && !views(disc0).contains(discovered@[c]@) by {
                            if c < old_cycles.len() {
                                assert(cycles@[c] == old_cycles[c]);
                                assert(discovered@[c] == old_disc[c]);
                            }
                        }
                    }
                }
            } else {
                proof {
                    let i = choose|i: int| 0 <= i < discovered@.len() && #[trigger] discovered@[i]@ == key@;
                    assert(views(discovered@)[i] == key@);
                }
            }
            proof {
                assert(cycle_edges@ =~= edges0.push(r));
                assert(key@ == cycle_key(s, as_ints(edges0.push(r))));
                assert(views(discovered@).contains(key@));
                lemma_closing_step_covered(s, start as int, path0, edges0, on0, max_depth as int, views(discovered@), r);
                assert(outgoing@[idx as int] == (r, target));
            }
        } else if !on_path[target] {
            let ghost pre_path = path@;
            on_path.set(target, true);
            path.push(target);
            edges.push(r);
            proof {
                assert(!as_ints(path0).contains(target as int));
                assert(as_ints(path@) =~= as_ints(path0).push(target as int));
                assert(as_ints(path@).no_duplicates()) by {
                    assert forall|a: int, b: int| 0 <= a < path@.len() && 0 <= b < path@.len() && a != b
                        implies as_ints(path@)[a] != as_ints(path@)[b] by {
                        if a < path0.len() && b < path0.len() {
                            assert(as_ints(path0)[a] != as_ints(path0)[b]);
                        } else if a < path0.len() {
                            assert(as_ints(path0)[a] == as_ints(path@)[a]);
                        } else {
                            assert(as_ints(path0)[b] == as_ints(path@)[b]);
                        }
                    }
                }
                assert forall|v: int| 0 <= v < s.entities@.len() implies (#[trigger] on_path@[v]) == as_ints(path@).contains(v) by {
                    if v != target {
                        assert(on_path@[v] == on0[v]);
                        if as_ints(path@).contains(v) {
                            let w = choose|w: int| 0 <= w < as_ints(path@).len() && as_ints(path@)[w] == v;
                            assert(w < path0.len());
                            assert(as_ints(path0)[w] == v);
                        }
                        if as_ints(path0).contains(v) {
                            let w = choose|w: int| 0 <= w < as_ints(path0).len() && as_ints(path0)[w] == v;
                            assert(as_ints(path@)[w] == v);
                        }
                    } else {
                        assert(as_ints(path@)[path0.len() as int] == v);
                    }
                }
                assert forall|i: int| 0 <= i < edges@.len() implies (#[trigger] edges@[i]) < s.relations@.len()
                    && directed(s, edges@[i] as int, path@[i] as int, path@[i + 1] as int) by {
                    if i < edges0.len() {
                        assert(edges@[i] == edges0[i]);
                        assert(path@[i] == path0[i]);
                        assert(path@[i + 1] == path0[i + 1]);
                    } else {
                        assert(path@[i] == current);
                    }
                }
            }
            let ghost path1 = path@;
            let ghost edges1 = edges@;
            let ghost cyc_mid = cycles@;
            let ghost disc_mid = discovered@;
            let stopped = search_cycles(snapshot, adj, start, target, path, edges, on_path, max_depth, limit, discovered, cycles, truncated, probe);
            edges.pop();
            path.pop();
            on_path.set(target, false);
            proof {
                assert(path@ =~= path0);
                assert(edges@ =~= edges0);
                assert(on_path@ =~= on0);
            }
            proof {
                lemma_views_prefix(disc0, disc_mid);
                lemma_fresh_trans(start as int, cyc0, disc0, cyc_mid, disc_mid, cycles@, discovered@);
            }
            if stopped {
                return true;
            }
            proof {
                if !*truncated || cycles@.len() < limit {
                    assert(path1 =~= path0.push(target));
                    assert(edges1 =~= edges0.push(r));
                    lemma_forward_step_covered(s, start as int, path0, edges0, on0, max_depth as int, views(discovered@), r, target);
                }
            }
        } else {
            proof {
                lemma_revisit_step_covered(s, start as int, path0, edges0, on0, max_depth as int, views(discovered@), r, target);
            }
        }
        proof {
            lemma_views_prefix(disc1, discovered@);
            if !*truncated || cycles@.len() < limit {
                assert(trunc1 ==> *truncated);
                assert(clen1 <= cycles@.len());
                assert forall|j: int| 0 <= j < idx + 1 implies step_covered(s, path0, edges0, max_depth as int, views(discovered@), #[trigger] outgoing@[j]) by {
                    if j < idx {
                        lemma_step_covered_grows(s, path0, edges0, max_depth as int, views(disc1), views(discovered@), outgoing@[j]);
                    }
                }
            }
        }
        idx = idx + 1;
    }
    proof {
        if !*truncated || cycles@.len() < limit {
            assert(adj@[path0.last() as int] == outgoing);
            lemma_steps_cover_walk(s, adj@, start as int, path0, edges0, on0, max_depth as int, views(discovered@));
        }
    }
    false
}

/// The entities a cycle search starts at.
pub open spec fn cycle_starts(s: CanonicalSnapshot) -> spec_fn(int) -> bool {
    |i: int| cycle_start(s, i)
}

/// Start entity `y` comes before start entity `x` in the order the cycle search takes
/// them: by stable key, then by position.
pub open spec fn start_before(s: CanonicalSnapshot, y: int, x: int) -> bool {
    lex_lt(s.entities@[y].stable_key@, s.entities@[x].stable_key@)
        || (s.entities@[y].stable_key@ == s.entities@[x].stable_key@ && y < x)
}

/// How many start entities the cycle search takes before `x`.
pub open spec fn start_rank(s: CanonicalSnapshot, x: int) -> nat {
    count_below(s.entities@.len() as int, |y: int| cycle_start(s, y) && start_before(s, y, x))
}

/// The start entity at position `p` of the sorted starts has rank `p`.
proof fn lemma_start_rank(s: CanonicalSnapshot, orig: Seq<IdKey>, sorted: Seq<IdKey>, p: int)
    requires
        forall|a: int| 0 <= a < orig.len() ==> (#[trigger] orig[a]).index < s.entities@.len()
            && cycle_start(s, orig[a].index as int)
            && orig[a].id@ == s.entities@[orig[a].index as int].stable_key@,
        forall|a: int, b: int| 0 <= a < b < orig.len() ==> (#[trigger] orig[a]).index < (#[trigger] orig[b]).index,
        forall|x: int| 0 <= x < s.entities@.len() && #[trigger] cycle_start(s, x) ==> exists|a: int| 0 <= a < orig.len() && orig[a].index == x,
        sorted.to_multiset() == orig.to_multiset(),
        sorted_by_key(sorted),
        0 <= p < sorted.len(),
    ensures
        start_rank(s, sorted[p].index as int) == p,
{
    let n = s.entities@.len() as int;
    let x = sorted[p].index as int;
    let member = |y: int| cycle_start(s, y) && start_before(s, y, x);
    lemma_permutation_facts(orig, sorted);
    assert(orig.no_duplicates()) by {
        assert forall|a: int, b: int| 0 <= a < orig.len() && 0 <= b < orig.len() && a != b implies orig[a] != orig[b] by {
            if a < b {
                assert(orig[a].index < orig[b].index);
            } else {
                assert(orig[b].index < orig[a].index);
            }
        }
    }
    assert(sorted.no_duplicates());
    assert forall|q1: int, q2: int| 0 <= q1 < sorted.len() && 0 <= q2 < sorted.len() && sorted[q1].index == sorted[q2].index
        implies q1 == q2 by {
        let a1 = choose|a: int| 0 <= a < orig.len() && orig[a] == sorted[q1];
        let a2 = choose|a: int| 0 <= a < orig.len() && orig[a] == sorted[q2];
        if a1 < a2 {
            assert(orig[a1].index < orig[a2].index);
        } else if a2 < a1 {
            assert(orig[a2].index < orig[a1].index);
        }
    }
    let xs = Seq::new(p as nat, |q: int| sorted[q].index as int);
    assert(xs.no_duplicates());
    assert forall|q: int| 0 <= q < xs.len() implies 0 <= #[trigger] xs[q] < n && member(xs[q]) by {
        let a = choose|a: int| 0 <= a < orig.len() && orig[a] == sorted[q];
        let ap = choose|a: int| 0 <= a < orig.len() && orig[a] == sorted[p];
        assert(orig.contains(sorted[q]));
        assert(!sorted[p].key_lt(&sorted[q]));
        lemma_lex_total(sorted[q].id@, sorted[p].id@);
        assert(sorted[q].index != sorted[p].index);
    }
    lemma_count_below_set(n, member);
    xs.unique_seq_to_set();
    assert(members_below(n, member) =~= xs.to_set()) by {
        assert forall|y: int| members_below(n, member).contains(y) implies xs.to_set().contains(y) by {
            let a = choose|a: int| 0 <= a < orig.len() && orig[a].index == y;
            assert(sorted.contains(orig[a]));
            let r = choose|r: int| 0 <= r < sorted.len() && sorted[r] == orig[a];
            let ap = choose|a: int| 0 <= a < orig.len() && orig[a] == sorted[p];
            assert(orig.contains(sorted[p]));
            if r == p {
                lemma_lex_lt_irreflexive(s.entities@[x].stable_key@);
            } else if r > p {
                assert(!sorted[r].key_lt(&sorted[p]));
            } else {
                assert(xs[r] == y);
            }
        }
        assert forall|y: int| xs.to_set().contains(y) implies members_below(n, member).contains(y) by {
            let q = choose|q: int| 0 <= q < xs.len() && xs[q] == y;
            assert(0 <= xs[q] < n && member(xs[q]));
        }
    }
}

/// The key a found cycle is reported in.
struct CycleKey {
    length: usize,
    key: String,
    index: usize,
}

impl SortKey for CycleKey {
    closed spec fn key_lt(&self, other: &Self) -> bool {
        self.length < other.length || (self.length == other.length && (lex_lt(self.key@, other.key@)
            || (self.key@ == other.key@ && self.index < other.index)))
    }

    proof fn lemma_key_lt_transitive(a: &Self, b: &Self, c: &Self) {
        if lex_lt(a.key@, b.key@) && lex_lt(b.key@, c.key@) {
            lemma_lex_lt_transitive(a.key@, b.key@, c.key@);
        }
    }

    proof fn lemma_key_lt_irreflexive(a: &Self) {
        lemma_lex_lt_irreflexive(a.key@);
    }

    fn lt(&self, other: &Self) -> (r: bool) {
        if self.length != other.length {
            self.length < other.length
        } else if str_lt(self.key.as_str(), other.key.as_str()) {
            true
        } else if str_eq(self.key.as_str(), other.key.as_str()) {
            self.index < other.index
        } else {
            false
        }
    }
}

/// Whether some relation leads from entity `c` to an entity.
fn has_outgoing(snapshot: &CanonicalSnapshot, ends: &Vec<(Option<usize>, Option<usize>)>, c: usize) -> (r: bool)
    requires
        resolved(*snapshot, ends@),
    ensures
        r == exists|q: int| 0 <= q < snapshot.relations@.len() && #[trigger] from_entity(*snapshot, q) == Some(c as int)
            && to_entity(*snapshot, q) is Some,
{
    let mut q: usize = 0;
    while q < ends.len()
        invariant
            resolved(*snapshot, ends@),
            q <= ends@.len(),
            forall|p: int| 0 <= p < q ==> !(#[trigger] from_entity(*snapshot, p) == Some(c as int) && to_entity(*snapshot, p) is Some),
        decreases ends.len() - q,
    {
        let (f, t) = ends[q];
        if f == Some(c) && t.is_some() {
            return true;
        }
        q = q + 1;
    }
    false
}

/// What the cycle query gives: an error on a zero limit, else at most `limit` distinct
/// directed cycles of at most `max_depth` relations, ordered as `cycle_before` says, found
/// from at most `max_starts` start entities.
pub open spec fn cycles_outcome(s: CanonicalSnapshot, limit: int, max_depth: int, max_starts: int, r: Result<GraphCycles, GraphError>) -> bool {
    &&& r is Err <==> (limit == 0 || max_depth == 0 || max_starts == 0)
    &&& match r {
        Err(e) => e is CyclesLimits,
        Ok(g) => {
            let total = count_below(s.entities@.len() as int, cycle_starts(s));
            &&& g.schema@ == GRAPH_CYCLES_SCHEMA@
            &&& g.snapshot@ == snapshot_name(s.snapshot)
            &&& g.cycles@.len() <= limit
            &&& forall|i: int| 0 <= i < g.cycles@.len() ==> reports_cycle(#[trigger] g.cycles@[i], s, max_depth)
            &&& forall|i: int| 0 <= i < g.cycles@.len() ==> reports_entered_cycle(#[trigger] g.cycles@[i], s, max_depth)
            &&& forall|i: int, j: int| 0 <= i < j < g.cycles@.len() ==> !cycle_before(#[trigger] g.cycles@[j], #[trigger] g.cycles@[i])
                && min_rotation(edge_ids(g.cycles@[i].edges@)) != min_rotation(edge_ids(g.cycles@[j].edges@))
            &&& g.start_entities == min_int(total as int, max_starts)
            &&& g.omitted_start_entities == total - g.start_entities
            &&& total > max_starts ==> g.truncated
            &&& g.truncated ==> total > max_starts || g.cycles@.len() == limit || exists|c: int| #[trigger] cut_walk(s, c, max_depth)
            &&& !g.truncated ==> forall|pn: Seq<int>, pe: Seq<int>| #[trigger] is_cycle(s, pn, pe) && pe.len() <= max_depth
                ==> exists|i: int| 0 <= i < g.cycles@.len() && min_rotation(edge_ids(g.cycles@[i].edges@)) == cycle_key(s, pe)
            &&& g.cycles@.len() < limit ==> forall|pn: Seq<int>, pe: Seq<int>| #[trigger] is_cycle(s, pn, pe) && pe.len() <= max_depth
                && start_rank(s, pn[0]) < max_starts
                ==> exists|i: int| 0 <= i < g.cycles@.len() && min_rotation(edge_ids(g.cycles@[i].edges@)) == cycle_key(s, pe)
        },
    }
}

/// Searches for directed cycles of at most `max_depth` relations from the first
/// `max_starts` start entities by stable key, and reports up to `limit` distinct cycles,
/// shortest first.
pub fn build_graph_cycles(
    snapshot: &CanonicalSnapshot,
    limit: usize,
    max_depth: usize,
    max_starts: usize,
) -> (r: Result<GraphCycles, GraphError>)
    requires
        snapshot.relations@.len() <= usize::MAX / 2,
    ensures
        cycles_outcome(*snapshot, limit as int, max_depth as int, max_starts as int, r),
{
    let mut probe = CancellationProbe::inactive(|| false);
    cycles_polled(snapshot, limit, max_depth, max_starts, &mut probe).unwrap()
}

/// The cycle query that stops, giving `None`, where its operation is cancelled: it
/// checks before it starts and after it succeeds, and every `COOPERATIVE_POLL_INTERVAL`
/// steps of its search.
pub fn build_graph_cycles_with_operation_context<F: Fn() -> bool>(
    snapshot: &CanonicalSnapshot,
    limit: usize,
    max_depth: usize,
    max_starts: usize,
    cancelled: F,
) -> (r: Option<Result<GraphCycles, GraphError>>)
    requires
        snapshot.relations@.len() <= usize::MAX / 2,
        cancelled.requires(()),
    ensures
        r matches Some(x) ==> cycles_outcome(*snapshot, limit as int, max_depth as int, max_starts as int, x),
        r is None ==> cancelled.ensures((), true),
        (forall|b: bool| cancelled.ensures((), b) ==> b) ==> r is None,
{
    let mut probe = CancellationProbe::every(COOPERATIVE_POLL_INTERVAL, cancelled);
    if probe.check() {
        return None;
    }
    let r = cycles_polled(snapshot, limit, max_depth, max_starts, &mut probe);
    match r {
        Some(Ok(g)) => if probe.check() { None } else { Some(Ok(g)) },
        other => other,
    }
}

fn cycles_polled<F: Fn() -> bool>(
    snapshot: &CanonicalSnapshot,
    limit: usize,
    max_depth: usize,
    max_starts: usize,
    probe: &mut CancellationProbe<F>,
) -> (r: Option<Result<GraphCycles, GraphError>>)
    requires
        snapshot.relations@.len() <= usize::MAX / 2,
        old(probe).callable(),
    ensures
        final(probe).callable(),
        final(probe).active() == old(probe).active(),
        final(probe).asks() == old(probe).asks(),
        r is None ==> old(probe).active(),
        r is None ==> old(probe).asks().ensures((), true),
        r matches Some(x) ==> cycles_outcome(*snapshot, limit as int, max_depth as int, max_starts as int, x),
{
    if limit == 0 || max_depth == 0 || max_starts == 0 {
        return Some(Err(GraphError::CyclesLimits));
    }
    let ghost s = *snapshot;
    let n = snapshot.entities.len();
    let ends = resolve_endpoints(snapshot);
    let mut adj: Vec<Vec<(usize, usize)>> = Vec::new();
    let mut u: usize = 0;
    while u < n
        invariant
            n == s.entities@.len(),
            s == *snapshot,
            resolved(s, ends@),
            u <= n,
            adj@.len() == u,
            forall|x: int, j: int| 0 <= x < adj@.len() && 0 <= j < adj@[x]@.len() ==> (#[trigger] adj@[x]@[j]).0 < s.relations@.len()
                && directed(s, adj@[x]@[j].0 as int, x, adj@[x]@[j].1 as int)
                && adj@[x]@[j].1 < s.entities@.len(),
            forall|x: int, rr: int, v: int| 0 <= x < adj@.len() && 0 <= rr < s.relations@.len() && #[trigger] directed(s, rr, x, v)
                ==> exists|j: int| 0 <= j < adj@[x]@.len() && adj@[x]@[j].0 == rr && adj@[x]@[j].1 == v,
        decreases n - u,
    {
        let list = out_neighbors(snapshot, &ends, u);
        let ghost before = adj@;
        adj.push(list);
        proof {
            assert forall|x: int, rr: int, v: int| 0 <= x < adj@.len() && 0 <= rr < s.relations@.len() && #[trigger] directed(s, rr, x, v)
                implies exists|j: int| 0 <= j < adj@[x]@.len() && adj@[x]@[j].0 == rr && adj@[x]@[j].1 == v by {
                if x < before.len() {
                    assert(adj@[x] == before[x]);
                } else {
                    assert(adj@[x] == list);
                }
            }
            assert forall|x: int, j: int| 0 <= x < adj@.len() && 0 <= j < adj@[x]@.len() implies (#[trigger] adj@[x]@[j]).0 < s.relations@.len()
                && directed(s, adj@[x]@[j].0 as int, x, adj@[x]@[j].1 as int)
                && adj@[x]@[j].1 < s.entities@.len() by {
                if x < before.len() {
                    assert(adj@[x] == before[x]);
                }
            }
        }
        u = u + 1;
    }
    let mut start_keys: Vec<IdKey> = Vec::new();
    let mut i: usize = 0;
    while i < n
        invariant
            n == s.entities@.len(),
            s == *snapshot,
            resolved(s, ends@),
            i <= n,
            start_keys@.len() == count_below(i as int, cycle_starts(s)),
            forall|a: int| 0 <= a < start_keys@.len() ==> (#[trigger] start_keys@[a]).index < i
                && cycle_start(s, start_keys@[a].index as int)
                && start_keys@[a].id@ == s.entities@[start_keys@[a].index as int].stable_key@,
            forall|a: int, b: int| 0 <= a < b < start_keys@.len() ==> (#[trigger] start_keys@[a]).index < (#[trigger] start_keys@[b]).index,
            forall|x: int| 0 <= x < i && #[trigger] cycle_start(s, x) ==> exists|a: int| 0 <= a < start_keys@.len() && start_keys@[a].index == x,
        decreases n - i,
    {
        proof {
            lemma_entity_index(s.entities@, s.entities@[i as int].id@);
        }
        let c = match find_entity_by_id(&snapshot.entities, &snapshot.entities[i].id) {
            Some(c) => c,
            None => i,
        };
        let hit = has_outgoing(snapshot, &ends, c);
        assert(hit == cycle_start(s, i as int));
        let ghost keys_before = start_keys@;
        if hit {
            start_keys.push(IdKey { id: snapshot.entities[i].stable_key.clone(), index: i });
        }
        proof {
            assert forall|x: int| 0 <= x < i + 1 && #[trigger] cycle_start(s, x)
                implies exists|a: int| 0 <= a < start_keys@.len() && start_keys@[a].index == x by {
                if x < i {
                    let a = choose|a: int| 0 <= a < keys_before.len() && keys_before[a].index == x;
                    assert(start_keys@[a] == keys_before[a]);
                } else {
                    assert(start_keys@[start_keys@.len() - 1].index == x);
                }
            }
        }
        i = i + 1;
    }
    let total = start_keys.len();
    let ghost orig = start_keys@;
    let sorted_starts = sort_by_key(start_keys);
    proof {
        lemma_permutation_facts(orig, sorted_starts@);
    }
    let selected = if total < max_starts { total } else { max_starts };
    let mut discovered: Vec<String> = Vec::new();
    let mut raw: Vec<(Vec<usize>, Vec<usize>)> = Vec::new();
    let mut truncated = total > max_starts;
    let mut t: usize = 0;
    let ghost mut origin: Seq<int> = Seq::empty();
    while t < selected
        invariant
            origin.len() == raw@.len(),
            forall|c: int| 0 <= c < raw@.len() ==> 0 <= #[trigger] origin[c] < t && raw@[c].0@.len() >= 1
                && raw@[c].0@[0] as int == canonical(s, sorted_starts@[origin[c]].index as int),
            forall|c: int, j: int, a: int| #![trigger raw@[c].0@[j], sorted_starts@[a]]
                0 <= c < raw@.len() && 0 <= j < raw@[c].0@.len() && 0 <= a < origin[c]
                ==> raw@[c].0@[j] as int != canonical(s, sorted_starts@[a].index as int),
            n == s.entities@.len(),
            s == *snapshot,
            adjacency_ok(s, adj@),
            selected <= sorted_starts@.len(),
            forall|a: int| 0 <= a < sorted_starts@.len() ==> orig.contains(#[trigger] sorted_starts@[a]),
            forall|a: int| 0 <= a < orig.len() ==> (#[trigger] orig[a]).index < n,
            t <= selected,
            found_cycles_ok(s, raw@, discovered@, max_depth as int, limit as int),
            total > max_starts ==> truncated,
            probe.callable(),
            probe.active() == old(probe).active(),
            probe.asks() == old(probe).asks(),
            (!truncated || raw@.len() < limit) ==> forall|a: int| 0 <= a < t ==> start_covered(s, canonical(s, (#[trigger] sorted_starts@[a]).index as int), max_depth as int, views(discovered@)),
            truncated ==> total > max_starts || raw@.len() >= limit || exists|c: int| #[trigger] cut_walk(s, c, max_depth as int),
        ensures
            t == selected || (truncated && raw@.len() >= limit),
        decreases selected - t,
    {
        let ghost disc1 = discovered@;
        let ghost trunc1 = truncated;
        let ghost rlen1 = raw@.len();
        if raw.len() >= limit {
            truncated = true;
            break;
        }
        proof {
            assert(orig.contains(sorted_starts@[t as int]));
        }
        let e = &snapshot.entities[sorted_starts[t].index];
        proof {
            lemma_entity_index(s.entities@, e.id@);
        }
        let c = match find_entity_by_id(&snapshot.entities, &e.id) {
            Some(c) => c,
            None => 0,
        };
        assert(c as int == canonical(s, sorted_starts@[t as int].index as int));
        let mut path: Vec<usize> = Vec::new();
        path.push(c);
        let mut edges: Vec<usize> = Vec::new();
        let mut on_path: Vec<bool> = Vec::new();
        let mut z: usize = 0;
        while z < n
            invariant
                z <= n,
                on_path@.len() == z,
                c < n,
                forall|v: int| 0 <= v < z ==> (#[trigger] on_path@[v]) == (v == c),
            decreases n - z,
        {
            on_path.push(z == c);
            z = z + 1;
        }
        proof {
            assert(as_ints(path@) =~= seq![c as int]);
            assert forall|v: int| 0 <= v < n implies (#[trigger] on_path@[v]) == as_ints(path@).contains(v) by {
                if v == c {
                    assert(as_ints(path@)[0] == v);
                }
            }
        }
        let ghost path1 = path@;
        let ghost edges1 = edges@;
        let ghost raw1 = raw@;
        if search_cycles(snapshot, &adj, c, c, &mut path, &mut edges, &mut on_path, max_depth, limit, &mut discovered, &mut raw, &mut truncated, probe) {
            return None;
        }
        proof {
            let ghost origin1 = origin;
            origin = origin + Seq::new((raw@.len() - raw1.len()) as nat, |i: int| t as int);
            assert forall|x: int| 0 <= x < raw@.len() implies 0 <= #[trigger] origin[x] < t + 1 && raw@[x].0@.len() >= 1
                && raw@[x].0@[0] as int == canonical(s, sorted_starts@[origin[x]].index as int) by {
                if x < raw1.len() {
                    assert(raw@[x] == raw1[x]);
                    assert(origin[x] == origin1[x]);
                } else {
                    assert(origin[x] == t);
                }
            }
            assert forall|x: int, j: int, a: int| #![trigger raw@[x].0@[j], sorted_starts@[a]]
                0 <= x < raw@.len() && 0 <= j < raw@[x].0@.len() && 0 <= a < origin[x]
                implies raw@[x].0@[j] as int != canonical(s, sorted_starts@[a].index as int) by {
                if x < raw1.len() {
                    assert(raw@[x] == raw1[x]);
                    assert(origin[x] == origin1[x]);
                } else {
                    assert(origin[x] == t);
                    if raw@[x].0@[j] as int == canonical(s, sorted_starts@[a].index as int) {
                        let pn = as_ints(raw@[x].0@);
                        let pe = as_ints(raw@[x].1@);
                        assert(is_cycle(s, pn, pe) && pe.len() <= max_depth);
                        assert(rlen1 < limit);
                        assert(start_covered(s, canonical(s, sorted_starts@[a].index as int), max_depth as int, views(disc1)));
                        lemma_rotated_cycle(s, pn, pe, j);
                        assert(rotate_at(pn, j)[0] == pn[j]);
                        assert(views(disc1).contains(cycle_key(s, rotate_at(pe, j))));
                        assert(discovered@[x]@ == cycle_key(s, pe));
                        assert(false);
                    }
                }
            }
        }
        proof {
            lemma_views_prefix(disc1, discovered@);
            if !truncated || raw@.len() < limit {
                assert(trunc1 ==> truncated);
                assert(rlen1 <= raw@.len());
                lemma_walk_from_start(s, path1, edges1, max_depth as int, views(discovered@));
                assert forall|a: int| 0 <= a < t + 1 implies start_covered(s, canonical(s, (#[trigger] sorted_starts@[a]).index as int), max_depth as int, views(discovered@)) by {
                    if a < t {
                        lemma_start_covered_grows(s, canonical(s, sorted_starts@[a].index as int), max_depth as int, views(disc1), views(discovered@));
                    }
                }
            }
        }
        t = t + 1;
    }
    proof {
        if !truncated {
            assert forall|pn: Seq<int>, pe: Seq<int>| #[trigger] is_cycle(s, pn, pe) && pe.len() <= max_depth
                implies views(discovered@).contains(cycle_key(s, pe)) by {
                lemma_cycle_entity_is_start(s, pn, pe);
                let p = pn[0];
                let a = choose|a: int| 0 <= a < orig.len() && orig[a].index == p;
                assert(sorted_starts@.contains(orig[a]));
                let b = choose|b: int| 0 <= b < sorted_starts@.len() && sorted_starts@[b] == orig[a];
                assert(start_covered(s, canonical(s, sorted_starts@[b].index as int), max_depth as int, views(discovered@)));
            }
        }
        if raw@.len() < limit {
            assert forall|pn: Seq<int>, pe: Seq<int>| #[trigger] is_cycle(s, pn, pe) && pe.len() <= max_depth
                && start_rank(s, pn[0]) < max_starts implies views(discovered@).contains(cycle_key(s, pe)) by {
                lemma_cycle_entity_is_start(s, pn, pe);
                let p = pn[0];
                let a = choose|a: int| 0 <= a < orig.len() && orig[a].index == p;
                assert(sorted_starts@.contains(orig[a]));
                let b = choose|b: int| 0 <= b < sorted_starts@.len() && sorted_starts@[b] == orig[a];
                lemma_start_rank(s, orig, sorted_starts@, b);
                assert(b < selected);
                assert(start_covered(s, canonical(s, sorted_starts@[b].index as int), max_depth as int, views(discovered@)));
            }
        }
    }
    let mut keys: Vec<CycleKey> = Vec::new();
    let mut k: usize = 0;
    while k < raw.len()
        invariant
            k <= raw@.len(),
            keys@.len() == k,
            found_cycles_ok(s, raw@, discovered@, max_depth as int, limit as int),
            forall|a: int| 0 <= a < k ==> (#[trigger] keys@[a]).index == a
                && keys@[a].length == raw@[a].1@.len()
                && keys@[a].key@ == discovered@[a]@,
        decreases raw.len() - k,
    {
        keys.push(CycleKey { length: raw[k].1.len(), key: discovered[k].clone(), index: k });
        k = k + 1;
    }
    let ghost korig = keys@;
    let sorted = sort_by_key(keys);
    proof {
        assert(korig.no_duplicates()) by {
            assert forall|a: int, b: int| 0 <= a < korig.len() && 0 <= b < korig.len() && a != b
                implies korig[a] != korig[b] by {
                assert(korig[a].index == a);
                assert(korig[b].index == b);
            }
        }
        lemma_permutation_facts(korig, sorted@);
    }
    let mut cycles: Vec<GraphCycle> = Vec::new();
    let mut q: usize = 0;
    while q < sorted.len()
        invariant
            q <= sorted@.len(),
            s == *snapshot,
            snapshot.relations@.len() <= usize::MAX / 2,
            found_cycles_ok(s, raw@, discovered@, max_depth as int, limit as int),
            forall|a: int| 0 <= a < sorted@.len() ==> korig.contains(#[trigger] sorted@[a]),
            korig.len() == raw@.len(),
            forall|a: int| 0 <= a < korig.len() ==> (#[trigger] korig[a]).index == a
                && korig[a].length == raw@[a].1@.len()
                && korig[a].key@ == discovered@[a]@,
            cycles@.len() == q,
            forall|a: int| 0 <= a < q ==> cycle_of(#[trigger] cycles@[a], s, as_ints(raw@[sorted@[a].index as int].0@), as_ints(raw@[sorted@[a].index as int].1@)),
        decreases sorted.len() - q,
    {
        proof {
            assert(korig.contains(sorted@[q as int]));
        }
        let x = sorted[q].index;
        let cyc_path = &raw[x].0;
        let cyc_edges = &raw[x].1;
        proof {
            assert(is_cycle(s, as_ints(cyc_path@), as_ints(cyc_edges@)));
        }
        let mut nodes: Vec<GraphNode> = Vec::new();
        let mut a: usize = 0;
        while a < cyc_path.len()
            invariant
                a <= cyc_path@.len(),
                s == *snapshot,
                snapshot.relations@.len() <= usize::MAX / 2,
                forall|i: int| 0 <= i < as_ints(cyc_path@).len() ==> 0 <= #[trigger] as_ints(cyc_path@)[i] < s.entities@.len(),
                nodes@.len() == a,
                forall|b: int| 0 <= b < a ==> node_of(#[trigger] nodes@[b], s.entities@[cyc_path@[b] as int], entity_degree(s, cyc_path@[b] as int)),
            decreases cyc_path.len() - a,
        {
            assert(0 <= as_ints(cyc_path@)[a as int] < s.entities@.len());
            let ent = &snapshot.entities[cyc_path[a]];
            let deg = degree_of(&snapshot.relations, &ent.id);
            nodes.push(graph_node(ent, deg));
            a = a + 1;
        }
        let mut gedges: Vec<GraphEdge> = Vec::new();
        let mut b: usize = 0;
        while b < cyc_edges.len()
            invariant
                b <= cyc_edges@.len(),
                s == *snapshot,
                forall|i: int| 0 <= i < as_ints(cyc_edges@).len() ==> 0 <= #[trigger] as_ints(cyc_edges@)[i] < s.relations@.len(),
                gedges@.len() == b,
                forall|c: int| 0 <= c < b ==> edge_of(#[trigger] gedges@[c], s.relations@[cyc_edges@[c] as int]),
            decreases cyc_edges.len() - b,
        {
            assert(0 <= as_ints(cyc_edges@)[b as int] < s.relations@.len());
            gedges.push(graph_edge(&snapshot.relations[cyc_edges[b]]));
            b = b + 1;
        }
        cycles.push(GraphCycle { length: cyc_edges.len(), nodes, edges: gedges });
        q = q + 1;
    }
    let g = GraphCycles {
        schema: String::from_str(GRAPH_CYCLES_SCHEMA),
        snapshot: snapshot_id(snapshot),
        cycles,
        start_entities: selected,
        omitted_start_entities: total - selected,
        truncated,
    };
    proof {
        assert forall|i: int| 0 <= i < g.cycles@.len() implies reports_cycle(#[trigger] g.cycles@[i], s, max_depth as int) by {
            let x = sorted@[i].index as int;
            let w = choose|w: int| 0 <= w < korig.len() && korig[w] == sorted@[i];
            assert(0 <= x < raw@.len());
            let pn = as_ints(raw@[x].0@);
            let pe = as_ints(raw@[x].1@);
            assert(is_cycle(s, pn, pe) && pe.len() <= max_depth && cycle_of(g.cycles@[i], s, pn, pe));
        }
        assert forall|i: int| 0 <= i < g.cycles@.len() implies reports_entered_cycle(#[trigger] g.cycles@[i], s, max_depth as int) by {
            let x = sorted@[i].index as int;
            let w = choose|w: int| 0 <= w < korig.len() && korig[w] == sorted@[i];
            assert(0 <= x < raw@.len());
            let pn = as_ints(raw@[x].0@);
            let pe = as_ints(raw@[x].1@);
            let o = origin[x];
            let y = sorted_starts@[o].index as int;
            assert(orig.contains(sorted_starts@[o]));
            let ay = choose|a: int| 0 <= a < orig.len() && orig[a] == sorted_starts@[o];
            lemma_start_rank(s, orig, sorted_starts@, o);
            assert forall|z: int| 0 <= z < s.entities@.len() && cycle_start(s, z) && #[trigger] pn.contains(canonical(s, z))
                implies start_rank(s, y) <= start_rank(s, z) by {
                let a = choose|a: int| 0 <= a < orig.len() && orig[a].index == z;
                assert(sorted_starts@.contains(orig[a]));
                let b = choose|b: int| 0 <= b < sorted_starts@.len() && sorted_starts@[b] == orig[a];
                lemma_start_rank(s, orig, sorted_starts@, b);
                if b < o {
                    let j = choose|j: int| 0 <= j < pn.len() && pn[j] == canonical(s, z);
                    assert(raw@[x].0@[j] as int != canonical(s, sorted_starts@[b].index as int));
                }
            }
            assert(entered_first(s, pn));
            assert(is_cycle(s, pn, pe) && pe.len() <= max_depth && cycle_of(g.cycles@[i], s, pn, pe));
        }
        assert forall|i: int| 0 <= i < g.cycles@.len() implies min_rotation(edge_ids((#[trigger] g.cycles@[i]).edges@)) == sorted@[i].key@
            && g.cycles@[i].length == sorted@[i].length by {
            let x = sorted@[i].index as int;
            let w = choose|w: int| 0 <= w < korig.len() && korig[w] == sorted@[i];
            assert(edge_ids(g.cycles@[i].edges@) =~= relation_ids_at(s, as_ints(raw@[x].1@)));
        }
        assert forall|i: int, j: int| 0 <= i < j < g.cycles@.len() implies !cycle_before(#[trigger] g.cycles@[j], #[trigger] g.cycles@[i])
            && min_rotation(edge_ids(g.cycles@[i].edges@)) != min_rotation(edge_ids(g.cycles@[j].edges@)) by {
            assert(!sorted@[j].key_lt(&sorted@[i]));
            let wi = choose|w: int| 0 <= w < korig.len() && korig[w] == sorted@[i];
            let wj = choose|w: int| 0 <= w < korig.len() && korig[w] == sorted@[j];
            assert(sorted@[i] != sorted@[j]);
            assert(wi != wj);
            assert(views(discovered@)[wi] != views(discovered@)[wj]);
        }
        let total_spec = count_below(snapshot.entities@.len() as int, cycle_starts(*snapshot));
        assert(total == total_spec);
        assert(g.start_entities == min_int(total_spec as int, max_starts as int));
        assert(g.omitted_start_entities == total_spec - g.start_entities);
        assert(total_spec > max_starts ==> g.truncated);
        assert(g.cycles@.len() <= limit);
        assert(g.schema@ == GRAPH_CYCLES_SCHEMA@);
        assert(g.snapshot@ == snapshot_name(snapshot.snapshot));
        assert(forall|i: int, j: int| 0 <= i < j < g.cycles@.len() ==> !cycle_before(#[trigger] g.cycles@[j], #[trigger] g.cycles@[i])
                    && min_rotation(edge_ids(g.cycles@[i].edges@)) != min_rotation(edge_ids(g.cycles@[j].edges@)));
        if g.cycles@.len() < limit {
            assert forall|pn: Seq<int>, pe: Seq<int>| #[trigger] is_cycle(s, pn, pe) && pe.len() <= max_depth && start_rank(s, pn[0]) < max_starts
                implies exists|i: int| 0 <= i < g.cycles@.len() && min_rotation(edge_ids(g.cycles@[i].edges@)) == cycle_key(s, pe) by {
                assert(views(discovered@).contains(cycle_key(s, pe)));
                let w = choose|w: int| 0 <= w < views(discovered@).len() && views(discovered@)[w] == cycle_key(s, pe);
                assert(sorted@.contains(korig[w]));
                let i = choose|i: int| 0 <= i < sorted@.len() && sorted@[i] == korig[w];
                assert(min_rotation(edge_ids(g.cycles@[i].edges@)) == sorted@[i].key@);
            }
        }
        if !g.truncated {
            assert forall|pn: Seq<int>, pe: Seq<int>| #[trigger] is_cycle(s, pn, pe) && pe.len() <= max_depth
                implies exists|i: int| 0 <= i < g.cycles@.len() && min_rotation(edge_ids(g.cycles@[i].edges@)) == cycle_key(s, pe) by {
                assert(views(discovered@).contains(cycle_key(s, pe)));
                let w = choose|w: int| 0 <= w < views(discovered@).len() && views(discovered@)[w] == cycle_key(s, pe);
                assert(sorted@.contains(korig[w]));
                let i = choose|i: int| 0 <= i < sorted@.len() && sorted@[i] == korig[w];
                assert(min_rotation(edge_ids(g.cycles@[i].edges@)) == sorted@[i].key@);
            }
        }
    }
    Some(Ok(g))
}

} // verus!
