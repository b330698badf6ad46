//! Graphs of the RusTok architecture entities: one frontend surface with its layers and
//! files, and the violations that FFA diagnostics report.

use vstd::prelude::*;
use crate::graph::{from_entity, opt_int, resolve_endpoints, to_entity, min_int, GraphOmitted};
use crate::rustok::{RUSTOK_FFA_SURFACE_GRAPH_SCHEMA, RUSTOK_FFA_VIOLATIONS_GRAPH_SCHEMA};
use crate::rustok_audit::{filter_view, select_diagnostics, selected_in_id_order};
use crate::snapshot::{
    CanonicalSnapshot, Diagnostic, Entity, copy_diagnostic, evidence_texts, find_entity_by_id, opt_view, render_evidence,
    render_source, same_diagnostic, snapshot_id, snapshot_name, source_text, views, entity_index,
};
use crate::sort::{all_positions, Ranked, SortKey, as_ints, lists_exactly, rank_positions, sorted_by};
use crate::strset::{is_str_set, set_contains, set_insert, set_new, set_of};
use crate::text::{contains_str, has_prefix, lemma_lex_lt_irreflexive, lemma_lex_lt_transitive, lex_lt, starts_with_chars, str_eq, str_lt, to_chars};

verus! {

/// An architecture entity in a RusTok graph, named by its stable key.
pub struct RustokFfaGraphNode {
    pub id: String,
    pub kind: String,
    pub name: String,
    pub source: Option<String>,
}

/// An edge of a RusTok graph between two stable keys.
pub struct RustokFfaGraphEdge {
    pub from: String,
    pub to: String,
    pub kind: String,
    pub evidence: Vec<String>,
}

/// A graph of frontend surfaces, their layers and files, with the diagnostics about them.
pub struct RustokFfaGraph {
    pub schema: String,
    pub snapshot: String,
    pub surface: Option<String>,
    pub nodes: Vec<RustokFfaGraphNode>,
    pub edges: Vec<RustokFfaGraphEdge>,
    pub diagnostics: Vec<Diagnostic>,
    pub omitted: GraphOmitted,
}

/// Why a RusTok graph could not be built: a zero limit on an FFA or an FBA graph, or a
/// root entity that the snapshot lacks.
#[derive(Debug)]
pub enum RustokGraphError {
    Limits,
    SurfaceNotFound { key: String },
    FbaLimits,
    FbaModuleNotFound { key: String },
    FbaPortNotFound { key: String },
    PageBuilderProviderNotFound { key: String },
    PageBuilderConsumerNotFound { key: String },
}

/// The message of a graph error.
pub open spec fn rustok_graph_error_message(e: RustokGraphError) -> Seq<char> {
    match e {
        RustokGraphError::Limits => "FFA graph limits must be greater than zero"@,
        RustokGraphError::SurfaceNotFound { key } => "FFA surface not found for `"@ + key@ + "`"@,
        RustokGraphError::FbaLimits => "FBA graph limits must be greater than zero"@,
        RustokGraphError::FbaModuleNotFound { key } => "FBA module not found for `"@ + key@ + "`"@,
        RustokGraphError::FbaPortNotFound { key } => "FBA port not found for `"@ + key@ + "`"@,
        RustokGraphError::PageBuilderProviderNotFound { key } => "Page Builder provider not found for `"@ + key@ + "`"@,
        RustokGraphError::PageBuilderConsumerNotFound { key } => "Page Builder consumer not found for `"@ + key@ + "`"@,
    }
}

/// `head`, the key and a closing backquote.
fn quoted(head: &str, key: &String) -> (r: String)
    ensures
        r@ == head@ + key@ + "`"@,
{
    let mut r = String::from_str(head);
    r.append(key.as_str());
    r.append("`");
    r
}

impl RustokGraphError {
    /// The error's message.
    pub fn to_string(&self) -> (r: String)
        ensures
            r@ == rustok_graph_error_message(*self),
    {
        match self {
            RustokGraphError::Limits => String::from_str("FFA graph limits must be greater than zero"),
            RustokGraphError::SurfaceNotFound { key } => quoted("FFA surface not found for `", key),
            RustokGraphError::FbaLimits => String::from_str("FBA graph limits must be greater than zero"),
            RustokGraphError::FbaModuleNotFound { key } => quoted("FBA module not found for `", key),
            RustokGraphError::FbaPortNotFound { key } => quoted("FBA port not found for `", key),
            RustokGraphError::PageBuilderProviderNotFound { key } => quoted("Page Builder provider not found for `", key),
            RustokGraphError::PageBuilderConsumerNotFound { key } => quoted("Page Builder consumer not found for `", key),
        }
    }
}

/// `n` shows entity `e`.
pub open spec fn node_shows(n: RustokFfaGraphNode, e: Entity) -> bool {
    &&& n.id@ == e.stable_key@
    &&& n.kind@ == e.kind@
    &&& n.name@ == e.name@
    &&& opt_view(n.source) == source_text(e.source)
}

/// The node that shows an entity.
pub(crate) fn graph_node(entity: &Entity) -> (n: RustokFfaGraphNode)
    ensures
        node_shows(n, *entity),
{
    RustokFfaGraphNode {
        id: entity.stable_key.clone(),
        kind: entity.kind.clone(),
        name: entity.name.clone(),
        source: render_source(&entity.source),
    }
}

/// What an edge says: its ends, kind and evidence.
pub type EdgeView = (Seq<char>, Seq<char>, Seq<char>, Seq<Seq<char>>);

/// What an edge says.
pub open spec fn edge_view(g: RustokFfaGraphEdge) -> EdgeView {
    (g.from@, g.to@, g.kind@, views(g.evidence@))
}

/// What each edge of a list says.
pub open spec fn edge_views(es: Seq<RustokFfaGraphEdge>) -> Seq<EdgeView> {
    Seq::new(es.len(), |i: int| edge_view(es[i]))
}

/// Edge order: by source key, target key and kind.
pub open spec fn edge_key_lt(a: EdgeView, b: EdgeView) -> bool {
    lex_lt(a.0, b.0) || (a.0 == b.0 && (lex_lt(a.1, b.1) || (a.1 == b.1 && lex_lt(a.2, b.2))))
}

/// Edge order, ties by position.
pub open spec fn edge_first(es: Seq<EdgeView>, a: int, b: int) -> bool {
    edge_key_lt(es[a], es[b]) || ((es[a].0, es[a].1, es[a].2) == (es[b].0, es[b].1, es[b].2) && a < b)
}

/// The edges of `es` whose two ends are among `keys`, in order.
pub open spec fn joined_edges(es: Seq<EdgeView>, keys: Seq<Seq<char>>) -> Seq<EdgeView>
    decreases es.len(),
{
    if es.len() == 0 {
        Seq::empty()
    } else {
        let prev = joined_edges(es.drop_last(), keys);
        let e = es.last();
        if keys.contains(e.0) && keys.contains(e.1) { prev.push(e) } else { prev }
    }
}

/// The edges of `es` at the given positions.
pub open spec fn edges_at(es: Seq<EdgeView>, p: Seq<int>) -> Seq<EdgeView> {
    Seq::new(p.len(), |i: int| es[p[i]])
}

/// `kept` holds, in edge order, the first `max` edges of `es` whose ends are both
/// among `keys`.
pub open spec fn kept_edges(kept: Seq<EdgeView>, es: Seq<EdgeView>, keys: Seq<Seq<char>>, max: int) -> bool {
    exists|p: Seq<int>| {
        &&& #[trigger] lists_exactly(p, es.len() as int, all_positions())
        &&& sorted_by(p, |a: int, b: int| edge_first(es, a, b))
        &&& kept == joined_edges(edges_at(es, p), keys).take(min_int(max, joined_edges(edges_at(es, p), keys).len() as int))
    }
}

proof fn lemma_joined_edges_join(es: Seq<EdgeView>, keys: Seq<Seq<char>>)
    ensures
        forall|i: int| 0 <= i < joined_edges(es, keys).len() ==> keys.contains((#[trigger] joined_edges(es, keys)[i]).0)
            && keys.contains(joined_edges(es, keys)[i].1),
    decreases es.len(),
{
    if es.len() > 0 {
        let prev = joined_edges(es.drop_last(), keys);
        lemma_joined_edges_join(es.drop_last(), keys);
        assert forall|i: int| 0 <= i < joined_edges(es, keys).len() implies keys.contains((#[trigger] joined_edges(es, keys)[i]).0)
            && keys.contains(joined_edges(es, keys)[i].1) by {
            if i < prev.len() {
                assert(joined_edges(es, keys)[i] == prev[i]);
            }
        }
    }
}

/// Every edge a RusTok graph keeps joins two of the nodes it shows, and it keeps at most
/// `max` edges.
pub proof fn lemma_kept_edges_join_shown_nodes(kept: Seq<EdgeView>, es: Seq<EdgeView>, keys: Seq<Seq<char>>, max: int)
    requires
        kept_edges(kept, es, keys, max),
        max >= 0,
    ensures
        forall|i: int| 0 <= i < kept.len() ==> keys.contains((#[trigger] kept[i]).0) && keys.contains(kept[i].1),
        kept.len() <= max,
{
    let p = choose|p: Seq<int>| {
        &&& #[trigger] lists_exactly(p, es.len() as int, all_positions())
        &&& sorted_by(p, |a: int, b: int| edge_first(es, a, b))
        &&& kept == joined_edges(edges_at(es, p), keys).take(min_int(max, joined_edges(edges_at(es, p), keys).len() as int))
    };
    let j = joined_edges(edges_at(es, p), keys);
    lemma_joined_edges_join(edges_at(es, p), keys);
    assert forall|i: int| 0 <= i < kept.len() implies keys.contains((#[trigger] kept[i]).0) && keys.contains(kept[i].1) by {
        assert(kept[i] == j[i]);
    }
}

/// The key an edge is ordered by.
struct EdgeRank {
    from: String,
    to: String,
    kind: String,
    index: usize,
}

impl SortKey for EdgeRank {
    closed spec fn key_lt(&self, other: &Self) -> bool {
        edge_key_lt((self.from@, self.to@, self.kind@, Seq::empty()), (other.from@, other.to@, other.kind@, Seq::empty()))
            || (self.from@ == other.from@ && self.to@ == other.to@ && self.kind@ == other.kind@ && self.index < other.index)
    }

    proof fn lemma_key_lt_transitive(a: &Self, b: &Self, c: &Self) {
        if lex_lt(a.from@, b.from@) && lex_lt(b.from@, c.from@) {
            lemma_lex_lt_transitive(a.from@, b.from@, c.from@);
        }
        if lex_lt(a.to@, b.to@) && lex_lt(b.to@, c.to@) {
            lemma_lex_lt_transitive(a.to@, b.to@, c.to@);
        }
        if lex_lt(a.kind@, b.kind@) && lex_lt(b.kind@, c.kind@) {
            lemma_lex_lt_transitive(a.kind@, b.kind@, c.kind@);
        }
    }

    proof fn lemma_key_lt_irreflexive(a: &Self) {
        lemma_lex_lt_irreflexive(a.from@);
        lemma_lex_lt_irreflexive(a.to@);
        lemma_lex_lt_irreflexive(a.kind@);
    }

    fn lt(&self, other: &Self) -> (r: bool) {
        if str_lt(self.from.as_str(), other.from.as_str()) {
            true
        } else if !str_eq(self.from.as_str(), other.from.as_str()) {
            false
        } else if str_lt(self.to.as_str(), other.to.as_str()) {
            true
        } else if !str_eq(self.to.as_str(), other.to.as_str()) {
            false
        } else if str_lt(self.kind.as_str(), other.kind.as_str()) {
            true
        } else if !str_eq(self.kind.as_str(), other.kind.as_str()) {
            false
        } else {
            self.index < other.index
        }
    }
}

impl Ranked for EdgeRank {
    closed spec fn position(&self) -> int {
        self.index as int
    }

    fn pos(&self) -> (r: usize) {
        self.index
    }
}

pub(crate) fn copy_strings(v: &Vec<String>) -> (r: Vec<String>)
    ensures
        views(r@) == views(v@),
{
    let mut r: Vec<String> = Vec::new();
    let mut i: usize = 0;
    while i < v.len()
        invariant
            i <= v@.len(),
            r@.len() == i,
            forall|j: int| 0 <= j < i ==> (#[trigger] r@[j])@ == v@[j]@,
        decreases v.len() - i,
    {
        r.push(v[i].clone());
        i = i + 1;
    }
    assert(views(r@) =~= views(v@));
    r
}

pub(crate) fn copy_edge(e: &RustokFfaGraphEdge) -> (r: RustokFfaGraphEdge)
    ensures
        edge_view(r) == edge_view(*e),
{
    RustokFfaGraphEdge { from: e.from.clone(), to: e.to.clone(), kind: e.kind.clone(), evidence: copy_strings(&e.evidence) }
}

/// Orders the edges and keeps the first `max` of those whose ends are both among `keys`.
pub(crate) fn keep_edges(edges: &Vec<RustokFfaGraphEdge>, keys: &Vec<String>, max: usize) -> (kept: Vec<RustokFfaGraphEdge>)
    ensures
        kept_edges(edge_views(kept@), edge_views(edges@), views(keys@), max as int),
{
    let ghost es = edge_views(edges@);
    let n = edges.len();
    let mut ranks: Vec<EdgeRank> = Vec::new();
    let mut i: usize = 0;
    while i < n
        invariant
            n == edges@.len(),
            i <= n,
            ranks@.len() == i,
            forall|a: int| 0 <= a < i ==> (#[trigger] ranks@[a]).index == a && ranks@[a].from@ == edges@[a].from@
                && ranks@[a].to@ == edges@[a].to@ && ranks@[a].kind@ == edges@[a].kind@,
        decreases n - i,
    {
        let e = &edges[i];
        ranks.push(EdgeRank { from: e.from.clone(), to: e.to.clone(), kind: e.kind.clone(), index: i });
        i = i + 1;
    }
    let ghost every = all_positions();
    let ghost before = |a: int, b: int| edge_first(es, a, b);
    proof {
        assert forall|j: int| 0 <= j < n && #[trigger] every(j) implies exists|a: int| 0 <= a < ranks@.len() && (#[trigger] ranks@[a]).position() == j by {
            assert(ranks@[j].position() == j);
        }
    }
    let order = rank_positions(ranks, Ghost(n as int), Ghost(every), Ghost(before));
    let ghost p = as_ints(order@);
    let mut kept: Vec<RustokFfaGraphEdge> = Vec::new();
    let mut q: usize = 0;
    while q < order.len()
        invariant
            n == edges@.len(),
            es == edge_views(edges@),
            p == as_ints(order@),
            lists_exactly(p, n as int, every),
            q <= order@.len(),
            edge_views(kept@) == joined_edges(edges_at(es, p.take(q as int)), views(keys@)).take(
                min_int(max as int, joined_edges(edges_at(es, p.take(q as int)), views(keys@)).len() as int)),
        decreases order.len() - q,
    {
        let x = order[q];
        assert(0 <= p[q as int] < n);
        let e = &edges[x];
        let ghost prefix = edges_at(es, p.take(q as int));
        let ghost next = edges_at(es, p.take(q + 1));
        assert(next.drop_last() =~= prefix);
        assert(next.last() == es[p[q as int]]);
        let ghost kj = joined_edges(prefix, views(keys@));
        let joined = contains_str(keys, &e.from) && contains_str(keys, &e.to);
        proof {
            crate::graph::lemma_views_contains(keys@, e.from@);
            crate::graph::lemma_views_contains(keys@, e.to@);
        }
        let ghost old_kept = kept@;
        if joined && kept.len() < max {
            kept.push(copy_edge(e));
            assert(edge_views(kept@) =~= edge_views(old_kept).push(es[p[q as int]]));
        }
        proof {
            let kj2 = joined_edges(next, views(keys@));
            if joined {
                assert(kj2 == kj.push(es[p[q as int]]));
                if old_kept.len() < max {
                    assert(kj.len() < max);
                    assert(edge_views(kept@) =~= kj2.take(min_int(max as int, kj2.len() as int)));
                } else {
                    assert(kj2.take(min_int(max as int, kj2.len() as int)) =~= kj.take(min_int(max as int, kj.len() as int)));
                }
            } else {
                assert(kj2 == kj);
            }
        }
        q = q + 1;
    }
    proof {
        assert(p.take(p.len() as int) =~= p);
        assert(es.len() == n);
        assert(lists_exactly(p, es.len() as int, all_positions()));
        assert forall|i: int, j: int| 0 <= i < j < p.len() implies !edge_first(es, #[trigger] p[j], #[trigger] p[i]) by {
            assert(!before(p[j], p[i]));
        }
        assert(sorted_by(p, |a: int, b: int| edge_first(es, a, b)));
    }
    kept
}

/// The key of the surface entity of `module` and `surface`.
pub open spec fn surface_key(module: Seq<char>, surface: Seq<char>) -> Seq<char> {
    "ffa_surface://"@ + module + "/"@ + surface
}

/// Both ends of relation `j` name entities.
pub open spec fn resolves(s: CanonicalSnapshot, j: int) -> bool {
    from_entity(s, j) is Some && to_entity(s, j) is Some
}

/// The edge that a relation whose ends both resolve gives: its ends' stable keys, its
/// kind and its evidence.
pub open spec fn relation_edge(s: CanonicalSnapshot, j: int) -> EdgeView {
    (s.entities@[from_entity(s, j)->0].stable_key@, s.entities@[to_entity(s, j)->0].stable_key@,
        s.relations@[j].kind@, evidence_texts(s.relations@[j].evidence@))
}

/// Relation `j` contains a layer of the surface entity with id `sid`: a `contains`
/// relation from `sid` to an entity whose key starts with `ffa_layer://`.
pub open spec fn layer_relation(s: CanonicalSnapshot, sid: Seq<char>, j: int) -> bool {
    &&& s.relations@[j].from@ == sid
    &&& s.relations@[j].kind@ == "contains"@
    &&& to_entity(s, j) is Some
    &&& has_prefix(s.entities@[to_entity(s, j)->0].stable_key@, "ffa_layer://"@)
}

/// The id of the layer entity that relation `j` contains.
pub open spec fn layer_id(s: CanonicalSnapshot, j: int) -> Seq<char> {
    s.entities@[to_entity(s, j)->0].id@
}

/// Relation `k` implements the layer with id `lid`.
pub open spec fn file_relation(s: CanonicalSnapshot, lid: Seq<char>, k: int) -> bool {
    s.relations@[k].from@ == lid && s.relations@[k].kind@ == "implemented_by"@
}

/// The edges of the first `k` relations that implement the layer `lid`.
pub open spec fn file_edges(s: CanonicalSnapshot, lid: Seq<char>, k: int) -> Seq<EdgeView>
    decreases k,
{
    if k <= 0 {
        Seq::empty()
    } else {
        let prev = file_edges(s, lid, k - 1);
        if file_relation(s, lid, k - 1) && resolves(s, k - 1) { prev.push(relation_edge(s, k - 1)) } else { prev }
    }
}

/// The targets of the first `k` relations that implement the layer `lid`.
pub open spec fn file_targets(s: CanonicalSnapshot, lid: Seq<char>, k: int) -> Set<Seq<char>>
    decreases k,
{
    if k <= 0 {
        Set::empty()
    } else {
        let prev = file_targets(s, lid, k - 1);
        if file_relation(s, lid, k - 1) { prev.insert(s.relations@[k - 1].to@) } else { prev }
    }
}

/// The edges the first `k` relations give the surface: each layer relation's own edge,
/// then the edges of the relations that implement that layer.
pub open spec fn surface_edges(s: CanonicalSnapshot, sid: Seq<char>, k: int) -> Seq<EdgeView>
    decreases k,
{
    if k <= 0 {
        Seq::empty()
    } else {
        let prev = surface_edges(s, sid, k - 1);
        if layer_relation(s, sid, k - 1) {
            let own = if resolves(s, k - 1) { seq![relation_edge(s, k - 1)] } else { Seq::empty() };
            prev + own + file_edges(s, layer_id(s, k - 1), s.relations@.len() as int)
        } else {
            prev
        }
    }
}

/// The ids the first `k` relations select: the surface's, its layers', and the targets of
/// the relations that implement those layers.
pub open spec fn surface_ids(s: CanonicalSnapshot, sid: Seq<char>, k: int) -> Set<Seq<char>>
    decreases k,
{
    if k <= 0 {
        set![sid]
    } else {
        let prev = surface_ids(s, sid, k - 1);
        if layer_relation(s, sid, k - 1) {
            prev.insert(layer_id(s, k - 1)).union(file_targets(s, layer_id(s, k - 1), s.relations@.len() as int))
        } else {
            prev
        }
    }
}

/// The entities shown for the selected ids: for each id, the entity it names.
pub open spec fn shown_entity(s: CanonicalSnapshot, ids: Set<Seq<char>>) -> spec_fn(int) -> bool {
    |e: int| ids.contains(s.entities@[e].id@) && entity_index(s.entities@, s.entities@[e].id@) == Some(e)
}

/// A key that the FBA graphs show: an FBA entity's or a file's.
pub open spec fn fba_or_file(key: Seq<char>) -> bool {
    has_prefix(key, "fba_"@) || has_prefix(key, "file://"@)
}

/// The entities shown for the selected ids, only FBA entities and files where `fba_only`.
pub open spec fn admitted(s: CanonicalSnapshot, ids: Set<Seq<char>>, fba_only: bool) -> spec_fn(int) -> bool {
    |e: int| shown_entity(s, ids)(e) && (fba_only ==> fba_or_file(s.entities@[e].stable_key@))
}

/// Whether the key is an FBA entity's or a file's.
pub(crate) fn is_fba_or_file(key: &String) -> (r: bool)
    ensures
        r == fba_or_file(key@),
{
    let k = to_chars(key.as_str());
    let fba = to_chars("fba_");
    let file = to_chars("file://");
    starts_with_chars(k.as_slice(), fba.as_slice()) || starts_with_chars(k.as_slice(), file.as_slice())
}

/// Node order: by stable key, then id, then position.
pub open spec fn node_first(s: CanonicalSnapshot, a: int, b: int) -> bool {
    let (ka, kb) = (s.entities@[a].stable_key@, s.entities@[b].stable_key@);
    let (ia, ib) = (s.entities@[a].id@, s.entities@[b].id@);
    lex_lt(ka, kb) || (ka == kb && (lex_lt(ia, ib) || (ia == ib && a < b)))
}

/// The stable keys of the nodes.
pub open spec fn node_keys(nodes: Seq<RustokFfaGraphNode>) -> Seq<Seq<char>> {
    Seq::new(nodes.len(), |i: int| nodes[i].id@)
}

/// `g` shows, of the entities that `shown` admits, the first `max_nodes` in node order,
/// and counts the others as omitted.
pub open spec fn shows_nodes(g: RustokFfaGraph, s: CanonicalSnapshot, shown: spec_fn(int) -> bool, max_nodes: int) -> bool {
    exists|ns: Seq<int>| {
        &&& #[trigger] lists_exactly(ns, s.entities@.len() as int, shown)
        &&& sorted_by(ns, |a: int, b: int| node_first(s, a, b))
        &&& g.nodes@.len() == min_int(ns.len() as int, max_nodes)
        &&& forall|i: int| 0 <= i < g.nodes@.len() ==> node_shows(#[trigger] g.nodes@[i], s.entities@[ns[i]])
        &&& g.omitted.nodes == ns.len() - g.nodes@.len()
    }
}

/// `g` carries, in id order, copies of the FFA diagnostics about the given module and
/// surface, where those are given.
pub open spec fn carries_diagnostics(g: RustokFfaGraph, s: CanonicalSnapshot, module: Option<Seq<char>>, surface: Option<Seq<char>>) -> bool {
    exists|o: Seq<int>| {
        &&& #[trigger] selected_in_id_order(o, s, "rustok_ffa_"@, module, surface)
        &&& g.diagnostics@.len() == o.len()
        &&& forall|i: int| 0 <= i < o.len() ==> same_diagnostic(#[trigger] g.diagnostics@[i], s.diagnostics@[o[i]])
    }
}

/// `g` is the graph of the surface of `module` and `surface`, whose entity is the first
/// with that surface's key.
pub open spec fn surface_graph_of(
    g: RustokFfaGraph,
    s: CanonicalSnapshot,
    module: Seq<char>,
    surface: Seq<char>,
    max_nodes: int,
    max_edges: int,
) -> bool {
    let key = surface_key(module, surface);
    let sid = s.entities@[crate::snapshot::first_with_stable_key(s.entities@, key)->0].id@;
    let m = s.relations@.len() as int;
    let es = surface_edges(s, sid, m);
    &&& g.schema@ == RUSTOK_FFA_SURFACE_GRAPH_SCHEMA@
    &&& g.snapshot@ == snapshot_name(s.snapshot)
    &&& opt_view(g.surface) == Some(key)
    &&& shows_nodes(g, s, shown_entity(s, surface_ids(s, sid, m)), max_nodes)
    &&& kept_edges(edge_views(g.edges@), es, node_keys(g.nodes@), max_edges)
    &&& g.omitted.edges == es.len() - min_int(max_edges, es.len() as int)
    &&& g.omitted.reason@ == "rustok_ffa_graph_limits"@
    &&& carries_diagnostics(g, s, Some(module), Some(surface))
}

/// The edge a relation whose ends resolve gives.
pub(crate) fn relation_edge_of(snapshot: &CanonicalSnapshot, j: usize, f: usize, t: usize) -> (e: RustokFfaGraphEdge)
    requires
        j < snapshot.relations@.len(),
        from_entity(*snapshot, j as int) == Some(f as int),
        to_entity(*snapshot, j as int) == Some(t as int),
    ensures
        edge_view(e) == relation_edge(*snapshot, j as int),
{
    proof {
        crate::snapshot::lemma_entity_index(snapshot.entities@, snapshot.relations@[j as int].from@);
        crate::snapshot::lemma_entity_index(snapshot.entities@, snapshot.relations@[j as int].to@);
    }
    let r = &snapshot.relations[j];
    RustokFfaGraphEdge {
        from: snapshot.entities[f].stable_key.clone(),
        to: snapshot.entities[t].stable_key.clone(),
        kind: r.kind.clone(),
        evidence: render_evidence(&r.evidence),
    }
}

/// The key a node is ordered by.
struct NodeRank {
    stable_key: String,
    id: String,
    index: usize,
}

impl SortKey for NodeRank {
    closed spec fn key_lt(&self, other: &Self) -> bool {
        lex_lt(self.stable_key@, other.stable_key@) || (self.stable_key@ == other.stable_key@ && (lex_lt(self.id@, other.id@)
            || (self.id@ == other.id@ && self.index < other.index)))
    }

    proof fn lemma_key_lt_transitive(a: &Self, b: &Self, c: &Self) {
        if lex_lt(a.stable_key@, b.stable_key@) && lex_lt(b.stable_key@, c.stable_key@) {
            lemma_lex_lt_transitive(a.stable_key@, b.stable_key@, c.stable_key@);
        }
        if lex_lt(a.id@, b.id@) && lex_lt(b.id@, c.id@) {
            lemma_lex_lt_transitive(a.id@, b.id@, c.id@);
        }
    }

    proof fn lemma_key_lt_irreflexive(a: &Self) {
        lemma_lex_lt_irreflexive(a.stable_key@);
        lemma_lex_lt_irreflexive(a.id@);
    }

    fn lt(&self, other: &Self) -> (r: bool) {
        if str_lt(self.stable_key.as_str(), other.stable_key.as_str()) {
            true
        } else if !str_eq(self.stable_key.as_str(), other.stable_key.as_str()) {
            false
        } else if str_lt(self.id.as_str(), other.id.as_str()) {
            true
        } else if str_eq(self.id.as_str(), other.id.as_str()) {
            self.index < other.index
        } else {
            false
        }
    }
}

impl Ranked for NodeRank {
    closed spec fn position(&self) -> int {
        self.index as int
    }

    fn pos(&self) -> (r: usize) {
        self.index
    }
}

/// The nodes of the entities that the selected ids name, in node order, at most
/// `max_nodes` of them, with how many there are in all.
pub(crate) fn nodes_for_ids(snapshot: &CanonicalSnapshot, ids: &Vec<String>, max_nodes: usize, fba_only: bool) -> (r: (Vec<RustokFfaGraphNode>, usize))
    requires
        is_str_set(ids@),
    ensures
        exists|ns: Seq<int>| {
            &&& #[trigger] lists_exactly(ns, snapshot.entities@.len() as int, admitted(*snapshot, set_of(ids@), fba_only))
            &&& sorted_by(ns, |a: int, b: int| node_first(*snapshot, a, b))
            &&& r.0@.len() == min_int(ns.len() as int, max_nodes as int)
            &&& forall|i: int| 0 <= i < r.0@.len() ==> node_shows(#[trigger] r.0@[i], snapshot.entities@[ns[i]])
            &&& r.1 == ns.len()
        },
{
    let n = snapshot.entities.len();
    let ghost member = admitted(*snapshot, set_of(ids@), fba_only);
    let mut keys: Vec<NodeRank> = Vec::new();
    let mut i: usize = 0;
    while i < n
        invariant
            n == snapshot.entities@.len(),
            i <= n,
            member == admitted(*snapshot, set_of(ids@), fba_only),
            forall|a: int| 0 <= a < keys@.len() ==> (#[trigger] keys@[a]).index < i
                && member(keys@[a].index as int)
                && keys@[a].stable_key@ == snapshot.entities@[keys@[a].index as int].stable_key@
                && keys@[a].id@ == snapshot.entities@[keys@[a].index as int].id@,
            forall|a: int, b: int| 0 <= a < b < keys@.len() ==> (#[trigger] keys@[a]).index < (#[trigger] keys@[b]).index,
            forall|j: int| 0 <= j < i && #[trigger] member(j) ==> exists|a: int| 0 <= a < keys@.len() && (#[trigger] keys@[a]).index == j,
        decreases n - i,
    {
        let e = &snapshot.entities[i];
        let ghost before = keys@;
        let hit = set_contains(ids, &e.id) && match find_entity_by_id(&snapshot.entities, &e.id) {
            Some(k) => k == i,
            None => false,
        } && (!fba_only || is_fba_or_file(&e.stable_key));
        if hit {
            keys.push(NodeRank { stable_key: e.stable_key.clone(), id: e.id.clone(), index: i });
            assert(keys@[keys@.len() - 1].index == i);
        }
        proof {
            assert forall|j: int| 0 <= j < i + 1 && #[trigger] member(j) implies exists|a: int|
                0 <= a < keys@.len() && (#[trigger] keys@[a]).index == j by {
                if j < i {
                    let a = choose|a: int| 0 <= a < before.len() && (#[trigger] before[a]).index == j;
                    assert(keys@[a] == before[a]);
                } else {
                    assert(keys@[keys@.len() - 1].index == j);
                }
            }
        }
        i = i + 1;
    }
    let ghost by_node = |a: int, b: int| node_first(*snapshot, a, b);
    let order = rank_positions(keys, Ghost(n as int), Ghost(member), Ghost(by_node));
    let ghost ns = as_ints(order@);
    let keep = if order.len() < max_nodes { order.len() } else { max_nodes };
    let mut nodes: Vec<RustokFfaGraphNode> = Vec::new();
    let mut q: usize = 0;
    while q < keep
        invariant
            keep <= order@.len(),
            ns == as_ints(order@),
            lists_exactly(ns, n as int, member),
            n == snapshot.entities@.len(),
            q <= keep,
            nodes@.len() == q,
            forall|a: int| 0 <= a < q ==> node_shows(#[trigger] nodes@[a], snapshot.entities@[ns[a]]),
        decreases keep - q,
    {
        assert(0 <= ns[q as int] < n);
        nodes.push(graph_node(&snapshot.entities[order[q]]));
        q = q + 1;
    }
    proof {
        assert(sorted_by(ns, by_node));
    }
    (nodes, order.len())
}

/// The stable keys the nodes show.
pub(crate) fn keys_of(nodes: &Vec<RustokFfaGraphNode>) -> (k: Vec<String>)
    ensures
        views(k@) == node_keys(nodes@),
{
    let mut k: Vec<String> = Vec::new();
    let mut i: usize = 0;
    while i < nodes.len()
        invariant
            i <= nodes@.len(),
            k@.len() == i,
            forall|j: int| 0 <= j < i ==> (#[trigger] k@[j])@ == nodes@[j].id@,
        decreases nodes.len() - i,
    {
        k.push(nodes[i].id.clone());
        i = i + 1;
    }
    assert(views(k@) =~= node_keys(nodes@));
    k
}

/// Copies of the diagnostics at the listed positions.
pub(crate) fn copies_at(snapshot: &CanonicalSnapshot, o: &Vec<usize>) -> (d: Vec<Diagnostic>)
    requires
        forall|q: int| 0 <= q < o@.len() ==> (#[trigger] o@[q]) < snapshot.diagnostics@.len(),
    ensures
        d@.len() == o@.len(),
        forall|i: int| 0 <= i < o@.len() ==> same_diagnostic(#[trigger] d@[i], snapshot.diagnostics@[o@[i] as int]),
{
    let mut d: Vec<Diagnostic> = Vec::new();
    let mut q: usize = 0;
    while q < o.len()
        invariant
            forall|x: int| 0 <= x < o@.len() ==> (#[trigger] o@[x]) < snapshot.diagnostics@.len(),
            q <= o@.len(),
            d@.len() == q,
            forall|i: int| 0 <= i < q ==> same_diagnostic(#[trigger] d@[i], snapshot.diagnostics@[o@[i] as int]),
        decreases o.len() - q,
    {
        d.push(copy_diagnostic(&snapshot.diagnostics[o[q]]));
        q = q + 1;
    }
    d
}

/// `"ffa_surface://"` followed by the module, `/` and the surface.
fn surface_key_of(module: &str, surface: &str) -> (r: String)
    ensures
        r@ == surface_key(module@, surface@),
{
    proof {
        reveal_strlit("/");
    }
    let mut r = String::from_str("ffa_surface://");
    r.append(module);
    r.append("/");
    r.append(surface);
    r
}

/// The graph of one frontend surface: the surface entity (the first with the surface's
/// key), the layers it contains and the files that implement them, at most `max_nodes`
/// nodes and `max_edges` edges, with the FFA diagnostics about the surface.
pub fn build_rustok_ffa_surface_graph(
    snapshot: &CanonicalSnapshot,
    module: &str,
    surface: &str,
    max_nodes: usize,
    max_edges: usize,
) -> (r: Result<RustokFfaGraph, RustokGraphError>)
    ensures
        (max_nodes == 0 || max_edges == 0) <==> r matches Err(RustokGraphError::Limits),
        r matches Err(RustokGraphError::SurfaceNotFound { key }) <==> (max_nodes > 0 && max_edges > 0
            && crate::snapshot::first_with_stable_key(snapshot.entities@, surface_key(module@, surface@)) is None),
        r matches Err(RustokGraphError::SurfaceNotFound { key }) ==> key@ == surface_key(module@, surface@),
        match r {
            Ok(g) => surface_graph_of(g, *snapshot, module@, surface@, max_nodes as int, max_edges as int),
            Err(_) => true,
        },
{
    if max_nodes == 0 || max_edges == 0 {
        return Err(RustokGraphError::Limits);
    }
    let key = surface_key_of(module, surface);
    let si = match crate::snapshot::find_by_stable_key(&snapshot.entities, key.as_str()) {
        None => {
            return Err(RustokGraphError::SurfaceNotFound { key });
        },
        Some(si) => si,
    };
    let sid = snapshot.entities[si].id.clone();
    let ghost sv = sid@;
    let m = snapshot.relations.len();
    let ends = resolve_endpoints(snapshot);
    let layer_prefix = to_chars("ffa_layer://");
    let mut edges: Vec<RustokFfaGraphEdge> = Vec::new();
    let mut ids = set_new();
    set_insert(&mut ids, sid.clone());
    assert(set_of(ids@) =~= surface_ids(*snapshot, sv, 0));
    let mut j: usize = 0;
    while j < m
        invariant
            m == snapshot.relations@.len(),
            ends@.len() == m,
            forall|r: int| 0 <= r < ends@.len() ==> opt_int((#[trigger] ends@[r]).0) == from_entity(*snapshot, r)
                && opt_int(ends@[r].1) == to_entity(*snapshot, r),
            layer_prefix@ == "ffa_layer://"@,
            sv == sid@,
            j <= m,
            is_str_set(ids@),
            set_of(ids@) == surface_ids(*snapshot, sv, j as int),
            edge_views(edges@) == surface_edges(*snapshot, sv, j as int),
        decreases m - j,
    {
        let r = &snapshot.relations[j];
        let (fo, to) = ends[j];
        proof {
            crate::snapshot::lemma_entity_index(snapshot.entities@, r.to@);
        }
        let mut lid: Option<String> = None;
        if str_eq(r.from.as_str(), sid.as_str()) && str_eq(r.kind.as_str(), "contains") {
            match to {
                Some(t) => {
                    let tc = to_chars(snapshot.entities[t].stable_key.as_str());
                    if starts_with_chars(tc.as_slice(), layer_prefix.as_slice()) {
                        lid = Some(snapshot.entities[t].id.clone());
                    }
                },
                None => {},
            }
        }
        assert(lid is Some <==> layer_relation(*snapshot, sv, j as int));
        match lid {
            None => {},
            Some(l) => {
                assert(l@ == layer_id(*snapshot, j as int));
                let ghost before_edges = edge_views(edges@);
                let ghost before_ids = set_of(ids@);
                match (fo, to) {
                    (Some(f), Some(t)) => {
                        edges.push(relation_edge_of(snapshot, j, f, t));
                    },
                    _ => {},
                }
                let ghost own = if resolves(*snapshot, j as int) { seq![relation_edge(*snapshot, j as int)] } else { Seq::empty() };
                assert(edge_views(edges@) =~= before_edges + own);
                set_insert(&mut ids, l.clone());
                let mut k: usize = 0;
                assert(set_of(ids@) =~= before_ids.insert(l@).union(file_targets(*snapshot, l@, 0)));
                assert(edge_views(edges@) =~= before_edges + own + file_edges(*snapshot, l@, 0));
                while k < m
                    invariant
                        m == snapshot.relations@.len(),
                        ends@.len() == m,
                        forall|r: int| 0 <= r < ends@.len() ==> opt_int((#[trigger] ends@[r]).0) == from_entity(*snapshot, r)
                            && opt_int(ends@[r].1) == to_entity(*snapshot, r),
                        k <= m,
                        is_str_set(ids@),
                        set_of(ids@) == before_ids.insert(l@).union(file_targets(*snapshot, l@, k as int)),
                        edge_views(edges@) == before_edges + own + file_edges(*snapshot, l@, k as int),
                    decreases m - k,
                {
                    let rk = &snapshot.relations[k];
                    if str_eq(rk.from.as_str(), l.as_str()) && str_eq(rk.kind.as_str(), "implemented_by") {
                        let ghost ids_before = set_of(ids@);
                        set_insert(&mut ids, rk.to.clone());
                        assert(set_of(ids@) =~= before_ids.insert(l@).union(file_targets(*snapshot, l@, k + 1)));
                        let ghost edges_before = edge_views(edges@);
                        match ends[k] {
                            (Some(f), Some(t)) => {
                                edges.push(relation_edge_of(snapshot, k, f, t));
                                assert(edge_views(edges@) =~= edges_before.push(relation_edge(*snapshot, k as int)));
                            },
                            _ => {},
                        }
                        assert(edge_views(edges@) =~= before_edges + own + file_edges(*snapshot, l@, k + 1));
                    } else {
                        assert(file_targets(*snapshot, l@, k + 1) == file_targets(*snapshot, l@, k as int));
                        assert(file_edges(*snapshot, l@, k + 1) == file_edges(*snapshot, l@, k as int));
                    }
                    k = k + 1;
                }
            },
        }
        j = j + 1;
    }
    let (nodes, total_nodes) = nodes_for_ids(snapshot, &ids, max_nodes, false);
    assert(admitted(*snapshot, set_of(ids@), false) =~= shown_entity(*snapshot, set_of(ids@)));
    let node_key_list = keys_of(&nodes);
    let total_edges = edges.len();
    let kept = keep_edges(&edges, &node_key_list, max_edges);
    let o = select_diagnostics(snapshot, "rustok_ffa_", Some(module), Some(surface));
    let ghost os = as_ints(o@);
    proof {
        assert forall|q: int| 0 <= q < o@.len() implies (#[trigger] o@[q]) < snapshot.diagnostics@.len() by {
            assert(0 <= os[q] < snapshot.diagnostics@.len());
        }
    }
    let diagnostics = copies_at(snapshot, &o);
    let shown_nodes = nodes.len();
    let edge_cap = if max_edges < total_edges { max_edges } else { total_edges };
    let g = RustokFfaGraph {
        schema: String::from_str(RUSTOK_FFA_SURFACE_GRAPH_SCHEMA),
        snapshot: snapshot_id(snapshot),
        surface: Some(key),
        nodes,
        edges: kept,
        diagnostics,
        omitted: GraphOmitted {
            nodes: total_nodes - shown_nodes,
            edges: total_edges - edge_cap,
            reason: String::from_str("rustok_ffa_graph_limits"),
        },
    };
    proof {
        assert(shows_nodes(g, *snapshot, shown_entity(*snapshot, surface_ids(*snapshot, sv, m as int)), max_nodes as int));
        assert(carries_diagnostics(g, *snapshot, Some(module@), Some(surface@))) by {
            assert(filter_view(Some(module)) == Some(module@));
            assert(filter_view(Some(surface)) == Some(surface@));
            assert forall|i: int| 0 <= i < os.len() implies same_diagnostic(#[trigger] g.diagnostics@[i], snapshot.diagnostics@[os[i]]) by {
                assert(os[i] == o@[i] as int);
            }
        }
    }
    Ok(g)
}

/// The last entity with the given stable key, as a map keyed by stable key keeps the
/// last insertion.
pub open spec fn entity_with_key(ents: Seq<Entity>, key: Seq<char>) -> Option<int>
    decreases ents.len(),
{
    if ents.len() == 0 {
        None
    } else if ents.last().stable_key@ == key {
        Some(ents.len() - 1)
    } else {
        entity_with_key(ents.drop_last(), key)
    }
}

/// The layer key of a module, surface and role.
pub open spec fn layer_key(module: Seq<char>, surface: Seq<char>, role: Seq<char>) -> Seq<char> {
    "ffa_layer://"@ + module + "/"@ + surface + "/"@ + role
}

/// The file key of a path.
pub open spec fn file_key(path: Seq<char>) -> Seq<char> {
    "file://"@ + path
}

/// The keys a diagnostic names: its surface, its layer where it names a role, and its file
/// where it also names a path.
pub open spec fn violation_keys_of(d: Diagnostic) -> Set<Seq<char>> {
    match (d.module, d.surface) {
        (Some(m), Some(sf)) => {
            let sk = surface_key(m@, sf@);
            match d.role {
                None => set![sk],
                Some(role) => {
                    let lk = layer_key(m@, sf@, role@);
                    match d.path {
                        None => set![sk, lk],
                        Some(p) => set![sk, lk, file_key(p@)],
                    }
                },
            }
        },
        _ => Set::empty(),
    }
}

/// The edges a diagnostic gives: its surface violates its layer, and its layer is
/// evidenced by its file.
pub open spec fn violation_edges_of(d: Diagnostic) -> Seq<EdgeView> {
    match (d.module, d.surface, d.role) {
        (Some(m), Some(sf), Some(role)) => {
            let sk = surface_key(m@, sf@);
            let lk = layer_key(m@, sf@, role@);
            let ev = evidence_texts(d.evidence@);
            let first = seq![(sk, lk, "violates"@, ev)];
            match d.path {
                None => first,
                Some(p) => first.push((lk, file_key(p@), "evidenced_by"@, ev)),
            }
        },
        _ => Seq::empty(),
    }
}

/// The keys the first `k` listed diagnostics name.
pub open spec fn violation_keys(s: CanonicalSnapshot, o: Seq<int>, k: int) -> Set<Seq<char>>
    decreases k,
{
    if k <= 0 {
        Set::empty()
    } else {
        violation_keys(s, o, k - 1).union(violation_keys_of(s.diagnostics@[o[k - 1]]))
    }
}

/// The edges the first `k` listed diagnostics give.
pub open spec fn violation_edges(s: CanonicalSnapshot, o: Seq<int>, k: int) -> Seq<EdgeView>
    decreases k,
{
    if k <= 0 {
        Seq::empty()
    } else {
        violation_edges(s, o, k - 1) + violation_edges_of(s.diagnostics@[o[k - 1]])
    }
}

/// The entities that the keys name, for the keys that name one.
pub open spec fn keyed_entities(ents: Seq<Entity>, keys: Seq<Seq<char>>) -> Seq<int>
    decreases keys.len(),
{
    if keys.len() == 0 {
        Seq::empty()
    } else {
        let prev = keyed_entities(ents, keys.drop_last());
        match entity_with_key(ents, keys.last()) {
            Some(e) => prev.push(e),
            None => prev,
        }
    }
}

/// `g` is the violations graph of the FFA diagnostics about the given module and surface.
pub open spec fn violations_graph_of(
    g: RustokFfaGraph,
    s: CanonicalSnapshot,
    module: Option<Seq<char>>,
    surface: Option<Seq<char>>,
    max_nodes: int,
    max_edges: int,
) -> bool {
    &&& g.schema@ == RUSTOK_FFA_VIOLATIONS_GRAPH_SCHEMA@
    &&& g.snapshot@ == snapshot_name(s.snapshot)
    &&& opt_view(g.surface) == (match (module, surface) {
        (Some(m), Some(sf)) => Some(surface_key(m, sf)),
        _ => None,
    })
    &&& g.omitted.reason@ == "rustok_ffa_graph_limits"@
    &&& carries_diagnostics(g, s, module, surface)
    &&& exists|o: Seq<int>, keys: Seq<Seq<char>>| {
        let es = violation_edges(s, o, o.len() as int);
        let shown = keyed_entities(s.entities@, keys);
        &&& #[trigger] selected_in_id_order(o, s, "rustok_ffa_"@, module, surface)
        &&& #[trigger] crate::strset::strictly_sorted(keys)
        &&& keys.to_set() == violation_keys(s, o, o.len() as int)
        &&& g.nodes@.len() == min_int(max_nodes, shown.len() as int)
        &&& forall|i: int| 0 <= i < g.nodes@.len() ==> node_shows(#[trigger] g.nodes@[i], s.entities@[shown[i]])
        &&& g.omitted.nodes == keys.len() - min_int(max_nodes, keys.len() as int)
        &&& kept_edges(edge_views(g.edges@), es, node_keys(g.nodes@), max_edges)
        &&& g.omitted.edges == es.len() - min_int(max_edges, es.len() as int)
    }
}

/// Finds the last entity with the given stable key, as `entity_with_key` says.
pub(crate) fn find_entity_with_key(entities: &Vec<Entity>, key: &String) -> (r: Option<usize>)
    ensures
        opt_int(r) == entity_with_key(entities@, key@),
        match r {
            Some(k) => k < entities@.len(),
            None => true,
        },
{
    let mut i: usize = entities.len();
    assert(entities@.subrange(0, i as int) =~= entities@);
    while i > 0
        invariant
            i <= entities@.len(),
            entity_with_key(entities@, key@) == entity_with_key(entities@.subrange(0, i as int), key@),
        decreases i,
    {
        let ghost s = entities@.subrange(0, i as int);
        assert(s.last() == entities@[i - 1]);
        assert(s.drop_last() =~= entities@.subrange(0, i - 1));
        if str_eq(entities[i - 1].stable_key.as_str(), key.as_str()) {
            return Some(i - 1);
        }
        i = i - 1;
    }
    None
}

/// `"ffa_layer://"` followed by the module, surface and role, separated by `/`.
fn layer_key_of(module: &String, surface: &String, role: &String) -> (r: String)
    ensures
        r@ == layer_key(module@, surface@, role@),
{
    proof {
        reveal_strlit("/");
    }
    let mut r = String::from_str("ffa_layer://");
    r.append(module.as_str());
    r.append("/");
    r.append(surface.as_str());
    r.append("/");
    r.append(role.as_str());
    r
}

/// `"file://"` followed by the path.
pub(crate) fn file_key_of(path: &String) -> (r: String)
    ensures
        r@ == file_key(path@),
{
    let mut r = String::from_str("file://");
    r.append(path.as_str());
    r
}

/// The graph of the violations that the FFA diagnostics about the given module and
/// surface report: each diagnostic's surface, layer and file, linked by `violates` and
/// `evidenced_by` edges, at most `max_nodes` nodes and `max_edges` edges.
pub fn build_rustok_ffa_violations_graph(
    snapshot: &CanonicalSnapshot,
    module: Option<&str>,
    surface: Option<&str>,
    max_nodes: usize,
    max_edges: usize,
) -> (g: RustokFfaGraph)
    ensures
        violations_graph_of(g, *snapshot, filter_view(module), filter_view(surface), max_nodes as int, max_edges as int),
{
    let o = select_diagnostics(snapshot, "rustok_ffa_", module, surface);
    let ghost os = as_ints(o@);
    proof {
        assert forall|q: int| 0 <= q < o@.len() implies (#[trigger] o@[q]) < snapshot.diagnostics@.len() by {
            assert(0 <= os[q] < snapshot.diagnostics@.len());
        }
    }
    let mut keys = set_new();
    let mut edges: Vec<RustokFfaGraphEdge> = Vec::new();
    let mut q: usize = 0;
    assert(set_of(keys@) =~= violation_keys(*snapshot, os, 0));
    while q < o.len()
        invariant
            forall|x: int| 0 <= x < o@.len() ==> (#[trigger] o@[x]) < snapshot.diagnostics@.len(),
            os == as_ints(o@),
            q <= o@.len(),
            is_str_set(keys@),
            set_of(keys@) == violation_keys(*snapshot, os, q as int),
            edge_views(edges@) == violation_edges(*snapshot, os, q as int),
        decreases o.len() - q,
    {
        let d = &snapshot.diagnostics[o[q]];
        let ghost before_keys = set_of(keys@);
        let ghost before_edges = edge_views(edges@);
        proof {
            reveal_strlit("violates");
            reveal_strlit("evidenced_by");
        }
        match (&d.module, &d.surface) {
            (Some(m), Some(sf)) => {
                let sk = surface_key_of(m.as_str(), sf.as_str());
                set_insert(&mut keys, sk.clone());
                match &d.role {
                    None => {
                        assert(set_of(keys@) =~= before_keys.union(violation_keys_of(*d)));
                        assert(edge_views(edges@) =~= before_edges + violation_edges_of(*d));
                    },
                    Some(role) => {
                        let lk = layer_key_of(m, sf, role);
                        set_insert(&mut keys, lk.clone());
                        let ev = render_evidence(&d.evidence);
                        let ev2 = copy_strings(&ev);
                        edges.push(RustokFfaGraphEdge { from: sk, to: lk.clone(), kind: String::from_str("violates"), evidence: ev });
                        match &d.path {
                            None => {
                                assert(set_of(keys@) =~= before_keys.union(violation_keys_of(*d)));
                                assert(edge_views(edges@) =~= before_edges + violation_edges_of(*d));
                            },
                            Some(p) => {
                                let fk = file_key_of(p);
                                set_insert(&mut keys, fk.clone());
                                edges.push(RustokFfaGraphEdge { from: lk, to: fk, kind: String::from_str("evidenced_by"), evidence: ev2 });
                                assert(set_of(keys@) =~= before_keys.union(violation_keys_of(*d)));
                                assert(edge_views(edges@) =~= before_edges + violation_edges_of(*d));
                            },
                        }
                    },
                }
            },
            _ => {
                assert(set_of(keys@) =~= before_keys.union(violation_keys_of(*d)));
                assert(edge_views(edges@) =~= before_edges + violation_edges_of(*d));
            },
        }
        q = q + 1;
    }
    let ghost kv = views(keys@);
    let mut nodes: Vec<RustokFfaGraphNode> = Vec::new();
    let mut t: usize = 0;
    while t < keys.len()
        invariant
            kv == views(keys@),
            t <= keys@.len(),
            nodes@.len() == min_int(max_nodes as int, keyed_entities(snapshot.entities@, kv.take(t as int)).len() as int),
            forall|i: int| 0 <= i < nodes@.len() ==> node_shows(#[trigger] nodes@[i],
                snapshot.entities@[keyed_entities(snapshot.entities@, kv.take(t as int))[i]]),
        decreases keys.len() - t,
    {
        let ghost before = keyed_entities(snapshot.entities@, kv.take(t as int));
        assert(kv.take(t + 1).drop_last() =~= kv.take(t as int));
        assert(kv.take(t + 1).last() == keys@[t as int]@);
        match find_entity_with_key(&snapshot.entities, &keys[t]) {
            Some(e) => {
                if nodes.len() < max_nodes {
                    nodes.push(graph_node(&snapshot.entities[e]));
                }
            },
            None => {},
        }
        proof {
            let after = keyed_entities(snapshot.entities@, kv.take(t + 1));
            assert forall|i: int| 0 <= i < nodes@.len() implies node_shows(#[trigger] nodes@[i], snapshot.entities@[after[i]]) by {
                if i < before.len() {
                    assert(after[i] == before[i]);
                }
            }
        }
        t = t + 1;
    }
    assert(kv.take(t as int) =~= kv);
    let node_key_list = keys_of(&nodes);
    let total_edges = edges.len();
    let kept = keep_edges(&edges, &node_key_list, max_edges);
    let diagnostics = copies_at(snapshot, &o);
    let total_nodes = keys.len();
    let node_cap = if max_nodes < total_nodes { max_nodes } else { total_nodes };
    let edge_cap = if max_edges < total_edges { max_edges } else { total_edges };
    let named = match (module, surface) {
        (Some(m), Some(sf)) => Some(surface_key_of(m, sf)),
        _ => None,
    };
    let g = RustokFfaGraph {
        schema: String::from_str(RUSTOK_FFA_VIOLATIONS_GRAPH_SCHEMA),
        snapshot: snapshot_id(snapshot),
        surface: named,
        nodes,
        edges: kept,
        diagnostics,
        omitted: GraphOmitted {
            nodes: total_nodes - node_cap,
            edges: total_edges - edge_cap,
            reason: String::from_str("rustok_ffa_graph_limits"),
        },
    };
    proof {
        assert(carries_diagnostics(g, *snapshot, filter_view(module), filter_view(surface))) by {
            assert forall|i: int| 0 <= i < os.len() implies same_diagnostic(#[trigger] g.diagnostics@[i], snapshot.diagnostics@[os[i]]) by {
                assert(os[i] == o@[i] as int);
            }
        }
        crate::strset::lemma_sorted_unique(kv);
        assert(kv.to_set() == set_of(keys@));
        assert(selected_in_id_order(os, *snapshot, "rustok_ffa_"@, filter_view(module), filter_view(surface)));
        assert(crate::strset::strictly_sorted(kv));
    }
    g
}

} // verus!
