//! Graphs of the RusTok Page Builder: its provider, one consumer module, and the
//! violations that Page Builder diagnostics report.

use vstd::prelude::*;
use crate::graph::{from_entity, marked, opt_int, resolve_endpoints, to_entity};
use crate::rustok::{
    RUSTOK_PAGE_BUILDER_CONSUMER_GRAPH_SCHEMA, RUSTOK_PAGE_BUILDER_PROVIDER_GRAPH_SCHEMA,
    RUSTOK_PAGE_BUILDER_VIOLATIONS_GRAPH_SCHEMA,
};
use crate::rustok_audit::{filter_view, select_diagnostics, selected_in_id_order};
use crate::rustok_fba_graph::{
    diagnostics_for, graph_from_selection, ids_of_keys, key_at, key_of, keyed_ids, listed_copies, module_segment,
    select_touched, shows_selection, touched_edges, touched_ids, RustokFbaGraph,
};
use crate::rustok_graph::{
    copies_at, edge_views, entity_with_key, file_key, file_key_of, find_entity_with_key, EdgeView, RustokFfaGraphEdge,
    RustokFfaGraphNode, RustokGraphError,
};
use crate::snapshot::{
    evidence_texts, first_with_stable_key, find_by_stable_key, opt_view, render_evidence, same_diagnostic,
    snapshot_name, views, CanonicalSnapshot, Diagnostic,
};
use crate::sort::as_ints;
use crate::strset::{is_str_set, set_insert, set_new, set_of, strictly_sorted};
use crate::text::{has_infix, has_prefix, starts_with_chars, str_contains, str_eq, to_chars};

verus! {

/// A graph around the Page Builder provider or one of its consumers.
pub type RustokPageBuilderGraph = RustokFbaGraph;

/// A node of a Page Builder graph.
pub type RustokPageBuilderGraphNode = RustokFfaGraphNode;

/// An edge of a Page Builder graph.
pub type RustokPageBuilderGraphEdge = RustokFfaGraphEdge;

/// The key of the Page Builder provider entity.
pub open spec fn provider_key() -> Seq<char> {
    "page_builder_provider://page_builder"@
}

/// The key of the consumer entity of a module.
pub open spec fn consumer_key(module: Seq<char>) -> Seq<char> {
    "page_builder_consumer://"@ + module
}

/// There is an entity at the position, and it is a Page Builder entity.
pub open spec fn page_builder_at(s: CanonicalSnapshot, e: Option<int>) -> bool {
    e is Some && has_prefix(s.entities@[e->0].kind@, "rustok_page_builder_"@)
}

/// Whether there is an entity at the position and it is a Page Builder entity.
fn is_page_builder_at(snapshot: &CanonicalSnapshot, e: Option<usize>) -> (r: bool)
    requires
        e is Some ==> e->0 < snapshot.entities@.len(),
    ensures
        r == page_builder_at(*snapshot, opt_int(e)),
{
    match e {
        Some(i) => {
            let k = to_chars(snapshot.entities[i].kind.as_str());
            let p = to_chars("rustok_page_builder_");
            starts_with_chars(k.as_slice(), p.as_slice())
        },
        None => false,
    }
}

/// Relation `j` starts or ends at the provider (whose entity has id `pid`), or joins two
/// Page Builder entities and carries the Page Builder relation schema.
pub open spec fn provider_touch(s: CanonicalSnapshot, pid: Seq<char>) -> spec_fn(int) -> bool {
    |j: int| {
        let r = s.relations@[j];
        &&& 0 <= j < s.relations@.len()
        &&& r.from@ == pid || r.to@ == pid || (page_builder_at(s, from_entity(s, j)) && page_builder_at(s, to_entity(s, j))
            && opt_view(r.schema) == Some("rustok.page_builder.relation.v1"@))
    }
}

/// `g` is the graph of the Page Builder provider, whose entity is the last with the
/// provider's key, with all Page Builder diagnostics.
pub open spec fn page_builder_provider_graph_of(g: RustokPageBuilderGraph, s: CanonicalSnapshot, max_nodes: int, max_edges: int) -> bool {
    let pid = s.entities@[entity_with_key(s.entities@, provider_key())->0].id@;
    let n = s.relations@.len() as int;
    let touch = provider_touch(s, pid);
    &&& g.schema@ == RUSTOK_PAGE_BUILDER_PROVIDER_GRAPH_SCHEMA@
    &&& g.snapshot@ == snapshot_name(s.snapshot)
    &&& opt_view(g.root) == Some(provider_key())
    &&& shows_selection(g, s, set![pid].union(touched_ids(s, touch, n)), touched_edges(s, touch, n), false, max_nodes, max_edges)
    &&& g.omitted.reason@ == "rustok_page_builder_graph_limits"@
    &&& listed_copies(g.diagnostics@, s, "rustok_page_builder_"@, None)
}

/// Whether the optional string is the Page Builder relation schema.
fn is_relation_schema(schema: &Option<String>) -> (r: bool)
    ensures
        r == (opt_view(*schema) == Some("rustok.page_builder.relation.v1"@)),
{
    match schema {
        Some(x) => str_eq(x.as_str(), "rustok.page_builder.relation.v1"),
        None => false,
    }
}

/// The ordered set holding one id.
fn single_id(id: &String) -> (r: Vec<String>)
    ensures
        is_str_set(r@),
        set_of(r@) == set![id@],
{
    let mut r = set_new();
    set_insert(&mut r, id.clone());
    assert(set_of(r@) =~= set![id@]);
    r
}

/// The graph of the Page Builder provider: the provider entity (the last with the key
/// `page_builder_provider://page_builder`), the ends of each relation at it or between two
/// Page Builder entities under the Page Builder relation schema, and those relations'
/// edges, at most `max_nodes` nodes and `max_edges` edges, with all Page Builder
/// diagnostics.
pub fn build_rustok_page_builder_provider_graph(
    snapshot: &CanonicalSnapshot,
    max_nodes: usize,
    max_edges: usize,
) -> (r: Result<RustokPageBuilderGraph, RustokGraphError>)
    ensures
        r is Err <==> entity_with_key(snapshot.entities@, provider_key()) is None,
        match r {
            Ok(g) => page_builder_provider_graph_of(g, *snapshot, max_nodes as int, max_edges as int),
            Err(RustokGraphError::PageBuilderProviderNotFound { key }) => key@ == provider_key(),
            Err(_) => false,
        },
{
    let key = String::from_str("page_builder_provider://page_builder");
    let pi = match find_entity_with_key(&snapshot.entities, &key) {
        None => {
            return Err(RustokGraphError::PageBuilderProviderNotFound { key });
        },
        Some(pi) => pi,
    };
    let pid = snapshot.entities[pi].id.clone();
    let ghost touch = provider_touch(*snapshot, pid@);
    let n = snapshot.relations.len();
    let ends = resolve_endpoints(snapshot);
    let mut mask: Vec<bool> = Vec::new();
    let mut j: usize = 0;
    while j < n
        invariant
            n == snapshot.relations@.len(),
            ends@.len() == n,
            forall|r: int| 0 <= r < ends@.len() ==> opt_int((#[trigger] ends@[r]).0) == from_entity(*snapshot, r)
                && opt_int(ends@[r].1) == to_entity(*snapshot, r),
            touch == provider_touch(*snapshot, pid@),
            j <= n,
            mask@.len() == j,
            forall|q: int| 0 <= q < j ==> mask@[q] == touch(q),
        decreases n - j,
    {
        let r = &snapshot.relations[j];
        let (f, t) = ends[j];
        proof {
            crate::snapshot::lemma_entity_index(snapshot.entities@, r.from@);
            crate::snapshot::lemma_entity_index(snapshot.entities@, r.to@);
        }
        let picked = str_eq(r.from.as_str(), pid.as_str()) || str_eq(r.to.as_str(), pid.as_str())
            || (is_page_builder_at(snapshot, f) && is_page_builder_at(snapshot, t) && is_relation_schema(&r.schema));
        mask.push(picked);
        j = j + 1;
    }
    let mut ids = single_id(&pid);
    let edges = select_touched(snapshot, &mask, &mut ids);
    proof {
        crate::rustok_fba_graph::lemma_touched_congruent(*snapshot, marked(mask@), touch, n as int);
    }
    let diagnostics = diagnostics_for(snapshot, "rustok_page_builder_", None);
    let g = graph_from_selection(
        snapshot,
        RUSTOK_PAGE_BUILDER_PROVIDER_GRAPH_SCHEMA,
        Some(key),
        &ids,
        &edges,
        diagnostics,
        max_nodes,
        max_edges,
        false,
        "rustok_page_builder_graph_limits",
    );
    Ok(g)
}

/// Relation `j` starts or ends at the consumer (whose entity has id `cid`) or at a key
/// that names the module, and one of its ends is a Page Builder entity.
pub open spec fn consumer_touch(s: CanonicalSnapshot, module: Seq<char>, cid: Seq<char>) -> spec_fn(int) -> bool {
    |j: int| {
        let r = s.relations@[j];
        &&& 0 <= j < s.relations@.len()
        &&& r.from@ == cid || r.to@ == cid || has_infix(key_at(s, from_entity(s, j)), module_segment(module))
            || has_infix(key_at(s, to_entity(s, j)), module_segment(module))
        &&& page_builder_at(s, from_entity(s, j)) || page_builder_at(s, to_entity(s, j))
    }
}

/// `g` is the graph of the Page Builder consumer of `module`, whose entity is the first
/// with the consumer's key, with the Page Builder diagnostics about the module.
pub open spec fn page_builder_consumer_graph_of(g: RustokPageBuilderGraph, s: CanonicalSnapshot, module: Seq<char>, max_nodes: int, max_edges: int) -> bool {
    let key = consumer_key(module);
    let cid = s.entities@[first_with_stable_key(s.entities@, key)->0].id@;
    let n = s.relations@.len() as int;
    let touch = consumer_touch(s, module, cid);
    &&& g.schema@ == RUSTOK_PAGE_BUILDER_CONSUMER_GRAPH_SCHEMA@
    &&& g.snapshot@ == snapshot_name(s.snapshot)
    &&& opt_view(g.root) == Some(key)
    &&& shows_selection(g, s, set![cid].union(touched_ids(s, touch, n)), touched_edges(s, touch, n), false, max_nodes, max_edges)
    &&& g.omitted.reason@ == "rustok_page_builder_graph_limits"@
    &&& listed_copies(g.diagnostics@, s, "rustok_page_builder_"@, Some(module))
}

/// `"://"`, the module and `/`.
fn module_segment_of(module: &str) -> (r: String)
    ensures
        r@ == module_segment(module@),
{
    let mut r = String::from_str("://");
    r.append(module);
    r.append("/");
    r
}

/// The graph of a Page Builder consumer module: the consumer entity (the first with the
/// key `page_builder_consumer://{module}`), the ends of each relation at it or at a key
/// naming the module that has a Page Builder end, and those relations' edges, at most
/// `max_nodes` nodes and `max_edges` edges, with the Page Builder diagnostics about the
/// module.
pub fn build_rustok_page_builder_consumer_graph(
    snapshot: &CanonicalSnapshot,
    module: &str,
    max_nodes: usize,
    max_edges: usize,
) -> (r: Result<RustokPageBuilderGraph, RustokGraphError>)
    ensures
        r is Err <==> first_with_stable_key(snapshot.entities@, consumer_key(module@)) is None,
        match r {
            Ok(g) => page_builder_consumer_graph_of(g, *snapshot, module@, max_nodes as int, max_edges as int),
            Err(RustokGraphError::PageBuilderConsumerNotFound { key }) => key@ == consumer_key(module@),
            Err(_) => false,
        },
{
    let mut key = String::from_str("page_builder_consumer://");
    key.append(module);
    let ci = match find_by_stable_key(&snapshot.entities, key.as_str()) {
        None => {
            return Err(RustokGraphError::PageBuilderConsumerNotFound { key });
        },
        Some(ci) => ci,
    };
    let cid = snapshot.entities[ci].id.clone();
    let seg = module_segment_of(module);
    let ghost touch = consumer_touch(*snapshot, module@, cid@);
    let n = snapshot.relations.len();
    let ends = resolve_endpoints(snapshot);
    let mut mask: Vec<bool> = Vec::new();
    let mut j: usize = 0;
    while j < n
        invariant
            n == snapshot.relations@.len(),
            ends@.len() == n,
            forall|r: int| 0 <= r < ends@.len() ==> opt_int((#[trigger] ends@[r]).0) == from_entity(*snapshot, r)
                && opt_int(ends@[r].1) == to_entity(*snapshot, r),
            touch == consumer_touch(*snapshot, module@, cid@),
            seg@ == module_segment(module@),
            j <= n,
            mask@.len() == j,
            forall|q: int| 0 <= q < j ==> mask@[q] == touch(q),
        decreases n - j,
    {
        let r = &snapshot.relations[j];
        let (f, t) = ends[j];
        proof {
            crate::snapshot::lemma_entity_index(snapshot.entities@, r.from@);
            crate::snapshot::lemma_entity_index(snapshot.entities@, r.to@);
        }
        let fk = key_of(snapshot, f);
        let tk = key_of(snapshot, t);
        let near = str_eq(r.from.as_str(), cid.as_str()) || str_eq(r.to.as_str(), cid.as_str())
            || str_contains(fk.as_str(), seg.as_str()) || str_contains(tk.as_str(), seg.as_str());
        let page_builder = is_page_builder_at(snapshot, f) || is_page_builder_at(snapshot, t);
        mask.push(near && page_builder);
        j = j + 1;
    }
    let mut ids = single_id(&cid);
    let edges = select_touched(snapshot, &mask, &mut ids);
    proof {
        crate::rustok_fba_graph::lemma_touched_congruent(*snapshot, marked(mask@), touch, n as int);
    }
    let diagnostics = diagnostics_for(snapshot, "rustok_page_builder_", Some(module));
    let g = graph_from_selection(
        snapshot,
        RUSTOK_PAGE_BUILDER_CONSUMER_GRAPH_SCHEMA,
        Some(key),
        &ids,
        &edges,
        diagnostics,
        max_nodes,
        max_edges,
        false,
        "rustok_page_builder_graph_limits",
    );
    Ok(g)
}

/// The module a Page Builder diagnostic names, `page_builder` where it names none.
pub open spec fn diagnostic_module(d: Diagnostic) -> Seq<char> {
    match d.module {
        Some(m) => m@,
        None => "page_builder"@,
    }
}

/// Where a diagnostic's violation is drawn from: its module's consumer where the
/// snapshot has that entity, else the provider.
pub open spec fn violation_root(s: CanonicalSnapshot, d: Diagnostic) -> Seq<char> {
    if entity_with_key(s.entities@, consumer_key(diagnostic_module(d))) is Some {
        consumer_key(diagnostic_module(d))
    } else {
        provider_key()
    }
}

/// The keys a diagnostic points at: its root, and its file where it names a path.
pub open spec fn page_builder_violation_keys_of(s: CanonicalSnapshot, d: Diagnostic) -> Set<Seq<char>> {
    match d.path {
        Some(f) => set![violation_root(s, d), file_key(f@)],
        None => set![violation_root(s, d)],
    }
}

/// The edge a diagnostic gives where it names a path: its root is evidenced by the file.
pub open spec fn page_builder_violation_edges_of(s: CanonicalSnapshot, d: Diagnostic) -> Seq<EdgeView> {
    match d.path {
        Some(f) => seq![(violation_root(s, d), file_key(f@), "evidenced_by"@, evidence_texts(d.evidence@))],
        None => Seq::empty(),
    }
}

/// The keys the first `k` listed diagnostics point at.
pub open spec fn page_builder_violation_keys(s: CanonicalSnapshot, o: Seq<int>, k: int) -> Set<Seq<char>>
    decreases k,
{
    if k <= 0 {
        Set::empty()
    } else {
        page_builder_violation_keys(s, o, k - 1).union(page_builder_violation_keys_of(s, s.diagnostics@[o[k - 1]]))
    }
}

/// The edges the first `k` listed diagnostics give.
pub open spec fn page_builder_violation_edges(s: CanonicalSnapshot, o: Seq<int>, k: int) -> Seq<EdgeView>
    decreases k,
{
    if k <= 0 {
        Seq::empty()
    } else {
        page_builder_violation_edges(s, o, k - 1) + page_builder_violation_edges_of(s, s.diagnostics@[o[k - 1]])
    }
}

/// `g` is the violations graph of the Page Builder diagnostics about the given module
/// (all of them where none is given).
pub open spec fn page_builder_violations_graph_of(
    g: RustokPageBuilderGraph,
    s: CanonicalSnapshot,
    module: Option<Seq<char>>,
    max_nodes: int,
    max_edges: int,
) -> bool {
    &&& g.schema@ == RUSTOK_PAGE_BUILDER_VIOLATIONS_GRAPH_SCHEMA@
    &&& g.snapshot@ == snapshot_name(s.snapshot)
    &&& opt_view(g.root) == (match module {
        Some(m) => Some(consumer_key(m)),
        None => None,
    })
    &&& g.omitted.reason@ == "rustok_page_builder_graph_limits"@
    &&& exists|o: Seq<int>, keys: Seq<Seq<char>>| {
        &&& #[trigger] selected_in_id_order(o, s, "rustok_page_builder_"@, module, None)
        &&& #[trigger] strictly_sorted(keys)
        &&& keys.to_set() == page_builder_violation_keys(s, o, o.len() as int)
        &&& g.diagnostics@.len() == o.len()
        &&& forall|i: int| 0 <= i < o.len() ==> same_diagnostic(#[trigger] g.diagnostics@[i], s.diagnostics@[o[i]])
        &&& shows_selection(g, s, keyed_ids(s.entities@, keys), page_builder_violation_edges(s, o, o.len() as int), false, max_nodes, max_edges)
    }
}

/// The graph of the violations that the Page Builder diagnostics about the given module
/// (all of them where none is given) report: for each diagnostic, its root (its module's
/// consumer where the snapshot has it, else the provider) and its file, linked by an
/// `evidenced_by` edge; the nodes are the entities (the last with each key) that those
/// keys name, at most `max_nodes` of them and `max_edges` edges.
pub fn build_rustok_page_builder_violations_graph(
    snapshot: &CanonicalSnapshot,
    module: Option<&str>,
    max_nodes: usize,
    max_edges: usize,
) -> (g: RustokPageBuilderGraph)
    ensures
        page_builder_violations_graph_of(g, *snapshot, filter_view(module), max_nodes as int, max_edges as int),
{
    let o = select_diagnostics(snapshot, "rustok_page_builder_", module, None);
    let ghost os = as_ints(o@);
    proof {
        assert forall|q: int| 0 <= q < o@.len() implies (#[trigger] o@[q]) < snapshot.diagnostics@.len() by {
            assert(0 <= os[q] < snapshot.diagnostics@.len());
        }
        reveal_strlit("evidenced_by");
    }
    let mut keys = set_new();
    let mut edges: Vec<RustokPageBuilderGraphEdge> = Vec::new();
    let mut q: usize = 0;
    assert(set_of(keys@) =~= page_builder_violation_keys(*snapshot, os, 0));
    while q < o.len()
        invariant
            forall|x: int| 0 <= x < o@.len() ==> (#[trigger] o@[x]) < snapshot.diagnostics@.len(),
            os == as_ints(o@),
            q <= o@.len(),
            is_str_set(keys@),
            set_of(keys@) == page_builder_violation_keys(*snapshot, os, q as int),
            edge_views(edges@) == page_builder_violation_edges(*snapshot, os, q as int),
        decreases o.len() - q,
    {
        let d = &snapshot.diagnostics[o[q]];
        let ghost before_keys = set_of(keys@);
        let ghost before_edges = edge_views(edges@);
        let mut consumer = String::from_str("page_builder_consumer://");
        match &d.module {
            Some(m) => consumer.append(m.as_str()),
            None => consumer.append("page_builder"),
        }
        let root = match find_entity_with_key(&snapshot.entities, &consumer) {
            Some(_) => consumer,
            None => String::from_str("page_builder_provider://page_builder"),
        };
        assert(root@ == violation_root(*snapshot, *d));
        set_insert(&mut keys, root.clone());
        match &d.path {
            Some(f) => {
                let fk = file_key_of(f);
                set_insert(&mut keys, fk.clone());
                edges.push(RustokPageBuilderGraphEdge {
                    from: root,
                    to: fk,
                    kind: String::from_str("evidenced_by"),
                    evidence: render_evidence(&d.evidence),
                });
            },
            None => {},
        }
        assert(set_of(keys@) =~= before_keys.union(page_builder_violation_keys_of(*snapshot, *d)));
        assert(edge_views(edges@) =~= before_edges + page_builder_violation_edges_of(*snapshot, *d));
        q = q + 1;
    }
    let ghost kv = views(keys@);
    let ids = ids_of_keys(snapshot, &keys);
    let diagnostics = copies_at(snapshot, &o);
    let root = match module {
        Some(m) => {
            let mut r = String::from_str("page_builder_consumer://");
            r.append(m);
            Some(r)
        },
        None => None,
    };
    let g = graph_from_selection(
        snapshot,
        RUSTOK_PAGE_BUILDER_VIOLATIONS_GRAPH_SCHEMA,
        root,
        &ids,
        &edges,
        diagnostics,
        max_nodes,
        max_edges,
        false,
        "rustok_page_builder_graph_limits",
    );
    proof {
        crate::strset::lemma_sorted_unique(kv);
        assert(kv.to_set() == set_of(keys@));
        assert(selected_in_id_order(os, *snapshot, "rustok_page_builder_"@, filter_view(module), None));
        assert(strictly_sorted(kv));
        assert forall|i: int| 0 <= i < os.len() implies same_diagnostic(#[trigger] g.diagnostics@[i], snapshot.diagnostics@[os[i]]) by {
            assert(os[i] == o@[i] as int);
        }
    }
    g
}

} // verus!
