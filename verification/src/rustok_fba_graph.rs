//! Graphs of the RusTok FBA architecture: a module with what touches it, one port, the
//! dependencies around a module, and the violations that FBA diagnostics report. The
//! Page Builder graphs share their shape and the way nodes and edges are selected.

use vstd::prelude::*;
use crate::graph::{from_entity, marked, min_int, opt_int, resolve_endpoints, to_entity, GraphOmitted};
use crate::rustok::{
    RUSTOK_FBA_DEPENDENCIES_GRAPH_SCHEMA, RUSTOK_FBA_MODULE_GRAPH_SCHEMA, RUSTOK_FBA_PORT_GRAPH_SCHEMA,
    RUSTOK_FBA_VIOLATIONS_GRAPH_SCHEMA,
};
use crate::rustok_audit::{filter_view, select_diagnostics, selected_in_id_order};
use crate::rustok_graph::{
    admitted, copies_at, copy_strings, edge_views, entity_with_key, file_key, file_key_of, find_entity_with_key, keep_edges, kept_edges, keys_of, node_first, node_keys, node_shows,
    nodes_for_ids, relation_edge, relation_edge_of, resolves, EdgeView, RustokFfaGraphEdge, RustokFfaGraphNode,
    RustokGraphError,
};
use crate::snapshot::{
    evidence_texts, first_with_stable_key, find_by_stable_key, opt_view, render_evidence, same_diagnostic, snapshot_id,
    snapshot_name, views, CanonicalSnapshot, Diagnostic, Entity,
};
use crate::sort::{as_ints, lists_exactly, sorted_by};
use crate::strset::{is_str_set, set_insert, set_new, set_of, strictly_sorted};
use crate::text::{has_infix, has_prefix, starts_with_chars, str_contains, str_eq, to_chars};

verus! {

/// A node of an FBA graph.
pub type RustokFbaGraphNode = RustokFfaGraphNode;

/// An edge of an FBA graph.
pub type RustokFbaGraphEdge = RustokFfaGraphEdge;

/// A graph around one FBA entity, named by the root's stable key where it has one, with
/// the diagnostics about it.
pub struct RustokFbaGraph {
    pub schema: String,
    pub snapshot: String,
    pub root: Option<String>,
    pub nodes: Vec<RustokFbaGraphNode>,
    pub edges: Vec<RustokFbaGraphEdge>,
    pub diagnostics: Vec<Diagnostic>,
    pub omitted: GraphOmitted,
}

/// `g` shows, of the entities that the selected ids name (only FBA entities and files
/// where `fba_only`), the first `max_nodes` in node order; counts every selected id it
/// does not show as omitted; and keeps, in edge order, the first `max_edges` of the
/// edges `es` whose two ends it shows, counting the rest as omitted.
pub open spec fn shows_selection(
    g: RustokFbaGraph,
    s: CanonicalSnapshot,
    ids: Set<Seq<char>>,
    es: Seq<EdgeView>,
    fba_only: bool,
    max_nodes: int,
    max_edges: int,
) -> bool {
    &&& exists|ns: Seq<int>| {
        &&& #[trigger] lists_exactly(ns, s.entities@.len() as int, admitted(s, ids, fba_only))
        &&& sorted_by(ns, |a: int, b: int| node_first(s, a, b))
        &&& g.nodes@.len() == min_int(ns.len() as int, max_nodes)
        &&& forall|i: int| 0 <= i < g.nodes@.len() ==> node_shows(#[trigger] g.nodes@[i], s.entities@[ns[i]])
    }
    &&& g.omitted.nodes == ids.len() - min_int(max_nodes, ids.len() as int)
    &&& kept_edges(edge_views(g.edges@), es, node_keys(g.nodes@), max_edges)
    &&& g.omitted.edges == es.len() - min_int(max_edges, es.len() as int)
}

/// Builds the graph of the selected ids and edges, with the given schema, root,
/// diagnostics and reason for what it omits.
pub(crate) fn graph_from_selection(
    snapshot: &CanonicalSnapshot,
    schema: &str,
    root: Option<String>,
    ids: &Vec<String>,
    edges: &Vec<RustokFbaGraphEdge>,
    diagnostics: Vec<Diagnostic>,
    max_nodes: usize,
    max_edges: usize,
    fba_only: bool,
    reason: &str,
) -> (g: RustokFbaGraph)
    requires
        is_str_set(ids@),
    ensures
        g.schema@ == schema@,
        g.snapshot@ == snapshot_name(snapshot.snapshot),
        opt_view(g.root) == opt_view(root),
        g.diagnostics == diagnostics,
        g.omitted.reason@ == reason@,
        shows_selection(g, *snapshot, set_of(ids@), edge_views(edges@), fba_only, max_nodes as int, max_edges as int),
{
    let (nodes, _shown) = nodes_for_ids(snapshot, ids, max_nodes, fba_only);
    let node_key_list = keys_of(&nodes);
    let kept = keep_edges(edges, &node_key_list, max_edges);
    let total_nodes = ids.len();
    let total_edges = edges.len();
    let node_cap = if max_nodes < total_nodes { max_nodes } else { total_nodes };
    let edge_cap = if max_edges < total_edges { max_edges } else { total_edges };
    let g = RustokFbaGraph {
        schema: String::from_str(schema),
        snapshot: snapshot_id(snapshot),
        root,
        nodes,
        edges: kept,
        diagnostics,
        omitted: GraphOmitted {
            nodes: total_nodes - node_cap,
            edges: total_edges - edge_cap,
            reason: String::from_str(reason),
        },
    };
    proof {
        crate::strset::lemma_sorted_unique(crate::snapshot::views(ids@));
        crate::snapshot::views(ids@).unique_seq_to_set();
    }
    g
}

/// The ids at both ends of the first `k` relations that `touch` picks.
pub open spec fn touched_ids(s: CanonicalSnapshot, touch: spec_fn(int) -> bool, k: int) -> Set<Seq<char>>
    decreases k,
{
    if k <= 0 {
        Set::empty()
    } else {
        let prev = touched_ids(s, touch, k - 1);
        if touch(k - 1) {
            prev.insert(s.relations@[k - 1].from@).insert(s.relations@[k - 1].to@)
        } else {
            prev
        }
    }
}

/// The edges of the first `k` relations that `touch` picks and whose two ends resolve.
pub open spec fn touched_edges(s: CanonicalSnapshot, touch: spec_fn(int) -> bool, k: int) -> Seq<EdgeView>
    decreases k,
{
    if k <= 0 {
        Seq::empty()
    } else {
        let prev = touched_edges(s, touch, k - 1);
        if touch(k - 1) && resolves(s, k - 1) { prev.push(relation_edge(s, k - 1)) } else { prev }
    }
}

pub(crate) proof fn lemma_touched_congruent(s: CanonicalSnapshot, a: spec_fn(int) -> bool, b: spec_fn(int) -> bool, k: int)
    requires
        forall|j: int| 0 <= j < k ==> #[trigger] a(j) == b(j),
    ensures
        touched_ids(s, a, k) == touched_ids(s, b, k),
        touched_edges(s, a, k) == touched_edges(s, b, k),
    decreases k,
{
    if k > 0 {
        lemma_touched_congruent(s, a, b, k - 1);
    }
}

/// Adds to `ids` both ends of each relation that `mask` marks, and gives the edges of
/// those whose ends resolve, in relation order.
pub(crate) fn select_touched(snapshot: &CanonicalSnapshot, mask: &Vec<bool>, ids: &mut Vec<String>) -> (edges: Vec<RustokFbaGraphEdge>)
    requires
        mask@.len() == snapshot.relations@.len(),
        is_str_set(old(ids)@),
    ensures
        is_str_set(final(ids)@),
        set_of(final(ids)@) == set_of(old(ids)@).union(touched_ids(*snapshot, marked(mask@), mask@.len() as int)),
        edge_views(edges@) == touched_edges(*snapshot, marked(mask@), mask@.len() as int),
{
    let ends = resolve_endpoints(snapshot);
    let ghost start = set_of(ids@);
    let ghost touch = marked(mask@);
    let mut edges: Vec<RustokFbaGraphEdge> = Vec::new();
    let mut j: usize = 0;
    assert(set_of(ids@) =~= start.union(touched_ids(*snapshot, touch, 0)));
    while j < mask.len()
        invariant
            mask@.len() == snapshot.relations@.len(),
            ends@.len() == mask@.len(),
            forall|r: int| 0 <= r < ends@.len() ==> opt_int((#[trigger] ends@[r]).0) == from_entity(*snapshot, r)
                && opt_int(ends@[r].1) == to_entity(*snapshot, r),
            touch == marked(mask@),
            j <= mask@.len(),
            is_str_set(ids@),
            set_of(ids@) == start.union(touched_ids(*snapshot, touch, j as int)),
            edge_views(edges@) == touched_edges(*snapshot, touch, j as int),
        decreases mask.len() - j,
    {
        if mask[j] {
            let r = &snapshot.relations[j];
            let ghost before = set_of(ids@);
            set_insert(ids, r.from.clone());
            set_insert(ids, r.to.clone());
            assert(set_of(ids@) =~= start.union(touched_ids(*snapshot, touch, j + 1)));
            let ghost before_edges = edge_views(edges@);
            match ends[j] {
                (Some(f), Some(t)) => {
                    edges.push(relation_edge_of(snapshot, j, f, t));
                    assert(edge_views(edges@) =~= before_edges.push(relation_edge(*snapshot, j as int)));
                },
                _ => {},
            }
        }
        j = j + 1;
    }
    edges
}

/// `d` holds, in id order, copies of the diagnostics whose kind starts with `prefix` and
/// that name the given module, where one is given.
pub open spec fn listed_copies(d: Seq<Diagnostic>, s: CanonicalSnapshot, prefix: Seq<char>, module: Option<Seq<char>>) -> bool {
    exists|o: Seq<int>| {
        &&& #[trigger] selected_in_id_order(o, s, prefix, module, None)
        &&& d.len() == o.len()
        &&& forall|i: int| 0 <= i < o.len() ==> same_diagnostic(#[trigger] d[i], s.diagnostics@[o[i]])
    }
}

/// Copies, in id order, of the diagnostics whose kind starts with `prefix` and that name
/// the given module, where one is given.
pub(crate) fn diagnostics_for(snapshot: &CanonicalSnapshot, prefix: &str, module: Option<&str>) -> (d: Vec<Diagnostic>)
    ensures
        listed_copies(d@, *snapshot, prefix@, filter_view(module)),
{
    let o = select_diagnostics(snapshot, prefix, module, None);
    let ghost os = as_ints(o@);
    proof {
        assert forall|q: int| 0 <= q < o@.len() implies (#[trigger] o@[q]) < snapshot.diagnostics@.len() by {
            assert(0 <= os[q] < snapshot.diagnostics@.len());
        }
    }
    let d = copies_at(snapshot, &o);
    proof {
        assert(filter_view(None) == None::<Seq<char>>);
        assert forall|i: int| 0 <= i < os.len() implies same_diagnostic(#[trigger] d@[i], snapshot.diagnostics@[os[i]]) by {
            assert(os[i] == o@[i] as int);
        }
    }
    d
}

/// The stable key of the entity at an optional position, empty where there is none.
pub open spec fn key_at(s: CanonicalSnapshot, e: Option<int>) -> Seq<char> {
    match e {
        Some(i) => s.entities@[i].stable_key@,
        None => Seq::empty(),
    }
}

/// There is an entity at the position, and it is an FBA entity.
pub open spec fn fba_at(s: CanonicalSnapshot, e: Option<int>) -> bool {
    e is Some && has_prefix(key_at(s, e), "fba_"@)
}

/// The stable key of the entity at an optional position, empty where there is none.
pub(crate) fn key_of(snapshot: &CanonicalSnapshot, e: Option<usize>) -> (r: String)
    requires
        e is Some ==> e->0 < snapshot.entities@.len(),
    ensures
        r@ == key_at(*snapshot, opt_int(e)),
{
    match e {
        Some(i) => snapshot.entities[i].stable_key.clone(),
        None => String::new(),
    }
}

/// Whether there is an entity at the position and it is an FBA entity.
fn is_fba_at(snapshot: &CanonicalSnapshot, e: Option<usize>) -> (r: bool)
    requires
        e is Some ==> e->0 < snapshot.entities@.len(),
    ensures
        r == fba_at(*snapshot, opt_int(e)),
{
    match e {
        Some(i) => {
            let k = to_chars(snapshot.entities[i].stable_key.as_str());
            let p = to_chars("fba_");
            starts_with_chars(k.as_slice(), p.as_slice())
        },
        None => false,
    }
}

/// The key of the module entity.
pub open spec fn fba_module_key(module: Seq<char>) -> Seq<char> {
    "fba_module://"@ + module
}

/// `"://"`, the module and `/`: what the keys of the module's parts hold.
pub open spec fn module_segment(module: Seq<char>) -> Seq<char> {
    "://"@ + module + "/"@
}

/// Relation `j` touches the module whose entity has id `mid`: it starts or ends at that
/// entity, at the module's key or at a key that names the module, and one of its ends is
/// an FBA entity.
pub open spec fn module_touch(s: CanonicalSnapshot, module: Seq<char>, mid: Seq<char>) -> spec_fn(int) -> bool {
    |j: int| {
        let r = s.relations@[j];
        let fk = key_at(s, from_entity(s, j));
        let tk = key_at(s, to_entity(s, j));
        &&& 0 <= j < s.relations@.len()
        &&& r.from@ == mid || r.to@ == mid || has_infix(fk, module_segment(module)) || has_infix(tk, module_segment(module))
            || fk == fba_module_key(module) || tk == fba_module_key(module)
        &&& fba_at(s, from_entity(s, j)) || fba_at(s, to_entity(s, j))
    }
}

/// `g` is the graph of the FBA module `module`, whose entity is the first with the
/// module's key: that entity, the ends of the relations that touch the module and the
/// edges of those relations, with the FBA diagnostics about the module.
pub open spec fn fba_module_graph_of(g: RustokFbaGraph, s: CanonicalSnapshot, module: Seq<char>, max_nodes: int, max_edges: int) -> bool {
    let key = fba_module_key(module);
    let mid = s.entities@[first_with_stable_key(s.entities@, key)->0].id@;
    let n = s.relations@.len() as int;
    let touch = module_touch(s, module, mid);
    &&& g.schema@ == RUSTOK_FBA_MODULE_GRAPH_SCHEMA@
    &&& g.snapshot@ == snapshot_name(s.snapshot)
    &&& opt_view(g.root) == Some(key)
    &&& shows_selection(g, s, set![mid].union(touched_ids(s, touch, n)), touched_edges(s, touch, n), true, max_nodes, max_edges)
    &&& g.omitted.reason@ == "rustok_fba_graph_limits"@
    &&& listed_copies(g.diagnostics@, s, "rustok_fba_"@, Some(module))
}

/// `head` followed by `tail`.
fn joined(head: &str, tail: &str) -> (r: String)
    ensures
        r@ == head@ + tail@,
{
    let mut r = String::from_str(head);
    r.append(tail);
    r
}

/// `"://"`, the module and `/`.
fn module_segment_of(module: &str) -> (r: String)
    ensures
        r@ == module_segment(module@),
{
    let mut r = String::from_str("://");
    r.append(module);
    r.append("/");
    r
}

/// The ordered set holding one id.
fn single_id(id: &String) -> (r: Vec<String>)
    ensures
        is_str_set(r@),
        set_of(r@) == set![id@],
{
    let mut r = set_new();
    set_insert(&mut r, id.clone());
    assert(set_of(r@) =~= set![id@]);
    r
}

/// The graph of an FBA module: the module entity (the first with the key
/// `fba_module://{module}`), the entities at both ends of each relation that touches the
/// module and has an FBA end, and those relations' edges, at most `max_nodes` FBA and
/// file nodes and `max_edges` edges, with the FBA diagnostics about the module.
pub fn build_rustok_fba_module_graph(
    snapshot: &CanonicalSnapshot,
    module: &str,
    max_nodes: usize,
    max_edges: usize,
) -> (r: Result<RustokFbaGraph, RustokGraphError>)
    ensures
        (max_nodes == 0 || max_edges == 0) <==> r matches Err(RustokGraphError::FbaLimits),
        r matches Err(RustokGraphError::FbaModuleNotFound { key }) <==> (max_nodes > 0 && max_edges > 0
            && first_with_stable_key(snapshot.entities@, fba_module_key(module@)) is None),
        r matches Err(RustokGraphError::FbaModuleNotFound { key }) ==> key@ == fba_module_key(module@),
        r is Err ==> (r matches Err(RustokGraphError::FbaLimits) || r matches Err(RustokGraphError::FbaModuleNotFound { .. })),
        match r {
            Ok(g) => fba_module_graph_of(g, *snapshot, module@, max_nodes as int, max_edges as int),
            Err(_) => true,
        },
{
    if max_nodes == 0 || max_edges == 0 {
        return Err(RustokGraphError::FbaLimits);
    }
    let key = joined("fba_module://", module);
    let mi = match find_by_stable_key(&snapshot.entities, key.as_str()) {
        None => {
            return Err(RustokGraphError::FbaModuleNotFound { key });
        },
        Some(mi) => mi,
    };
    let mid = snapshot.entities[mi].id.clone();
    let seg = module_segment_of(module);
    let ghost touch = module_touch(*snapshot, module@, mid@);
    let n = snapshot.relations.len();
    let ends = resolve_endpoints(snapshot);
    let mut mask: Vec<bool> = Vec::new();
    let mut j: usize = 0;
    while j < n
        invariant
            n == snapshot.relations@.len(),
            ends@.len() == n,
            forall|r: int| 0 <= r < ends@.len() ==> opt_int((#[trigger] ends@[r]).0) == from_entity(*snapshot, r)
                && opt_int(ends@[r].1) == to_entity(*snapshot, r),
            touch == module_touch(*snapshot, module@, mid@),
            seg@ == module_segment(module@),
            key@ == fba_module_key(module@),
            j <= n,
            mask@.len() == j,
            forall|q: int| 0 <= q < j ==> mask@[q] == touch(q),
        decreases n - j,
    {
        let r = &snapshot.relations[j];
        let (f, t) = ends[j];
        proof {
            crate::snapshot::lemma_entity_index(snapshot.entities@, r.from@);
            crate::snapshot::lemma_entity_index(snapshot.entities@, r.to@);
        }
        let fk = key_of(snapshot, f);
        let tk = key_of(snapshot, t);
        let near = str_eq(r.from.as_str(), mid.as_str()) || str_eq(r.to.as_str(), mid.as_str())
            || str_contains(fk.as_str(), seg.as_str()) || str_contains(tk.as_str(), seg.as_str())
            || str_eq(fk.as_str(), key.as_str()) || str_eq(tk.as_str(), key.as_str());
        let fba = is_fba_at(snapshot, f) || is_fba_at(snapshot, t);
        mask.push(near && fba);
        j = j + 1;
    }
    let mut ids = single_id(&mid);
    let edges = select_touched(snapshot, &mask, &mut ids);
    proof {
        lemma_touched_congruent(*snapshot, marked(mask@), touch, n as int);
    }
    let diagnostics = diagnostics_for(snapshot, "rustok_fba_", Some(module));
    let g = graph_from_selection(
        snapshot,
        RUSTOK_FBA_MODULE_GRAPH_SCHEMA,
        Some(key),
        &ids,
        &edges,
        diagnostics,
        max_nodes,
        max_edges,
        true,
        "rustok_fba_graph_limits",
    );
    Ok(g)
}

/// The key of the port entity.
pub open spec fn fba_port_key(module: Seq<char>, port: Seq<char>) -> Seq<char> {
    "fba_port://"@ + module + "/"@ + port
}

/// Relation `j` starts or ends at the entity with id `pid`.
pub open spec fn port_touch(s: CanonicalSnapshot, pid: Seq<char>) -> spec_fn(int) -> bool {
    |j: int| 0 <= j < s.relations@.len() && (s.relations@[j].from@ == pid || s.relations@[j].to@ == pid)
}

/// `g` is the graph of the port `port` of FBA module `module`, whose entity is the first
/// with the port's key: that entity, the ends of the relations at it and their edges,
/// with the FBA diagnostics about the module.
pub open spec fn fba_port_graph_of(
    g: RustokFbaGraph,
    s: CanonicalSnapshot,
    module: Seq<char>,
    port: Seq<char>,
    max_nodes: int,
    max_edges: int,
) -> bool {
    let key = fba_port_key(module, port);
    let pid = s.entities@[first_with_stable_key(s.entities@, key)->0].id@;
    let n = s.relations@.len() as int;
    let touch = port_touch(s, pid);
    &&& g.schema@ == RUSTOK_FBA_PORT_GRAPH_SCHEMA@
    &&& g.snapshot@ == snapshot_name(s.snapshot)
    &&& opt_view(g.root) == Some(key)
    &&& shows_selection(g, s, set![pid].union(touched_ids(s, touch, n)), touched_edges(s, touch, n), true, max_nodes, max_edges)
    &&& g.omitted.reason@ == "rustok_fba_graph_limits"@
    &&& listed_copies(g.diagnostics@, s, "rustok_fba_"@, Some(module))
}

/// The graph of one port of an FBA module: the port entity (the first with the key
/// `fba_port://{module}/{port}`), the entities at both ends of each relation at the port
/// (its operations among them) and those relations' edges, at most `max_nodes` FBA and
/// file nodes and `max_edges` edges, with the FBA diagnostics about the module.
pub fn build_rustok_fba_port_graph(
    snapshot: &CanonicalSnapshot,
    module: &str,
    port: &str,
    max_nodes: usize,
    max_edges: usize,
) -> (r: Result<RustokFbaGraph, RustokGraphError>)
    ensures
        (max_nodes == 0 || max_edges == 0) <==> r matches Err(RustokGraphError::FbaLimits),
        r matches Err(RustokGraphError::FbaPortNotFound { key }) <==> (max_nodes > 0 && max_edges > 0
            && first_with_stable_key(snapshot.entities@, fba_port_key(module@, port@)) is None),
        r matches Err(RustokGraphError::FbaPortNotFound { key }) ==> key@ == fba_port_key(module@, port@),
        r is Err ==> (r matches Err(RustokGraphError::FbaLimits) || r matches Err(RustokGraphError::FbaPortNotFound { .. })),
        match r {
            Ok(g) => fba_port_graph_of(g, *snapshot, module@, port@, max_nodes as int, max_edges as int),
            Err(_) => true,
        },
{
    if max_nodes == 0 || max_edges == 0 {
        return Err(RustokGraphError::FbaLimits);
    }
    proof {
        reveal_strlit("/");
    }
    let mut key = joined("fba_port://", module);
    key.append("/");
    key.append(port);
    let pi = match find_by_stable_key(&snapshot.entities, key.as_str()) {
        None => {
            return Err(RustokGraphError::FbaPortNotFound { key });
        },
        Some(pi) => pi,
    };
    let pid = snapshot.entities[pi].id.clone();
    let ghost touch = port_touch(*snapshot, pid@);
    let n = snapshot.relations.len();
    let mut mask: Vec<bool> = Vec::new();
    let mut j: usize = 0;
    while j < n
        invariant
            n == snapshot.relations@.len(),
            touch == port_touch(*snapshot, pid@),
            j <= n,
            mask@.len() == j,
            forall|q: int| 0 <= q < j ==> mask@[q] == touch(q),
        decreases n - j,
    {
        let r = &snapshot.relations[j];
        mask.push(str_eq(r.from.as_str(), pid.as_str()) || str_eq(r.to.as_str(), pid.as_str()));
        j = j + 1;
    }
    let mut ids = single_id(&pid);
    let edges = select_touched(snapshot, &mask, &mut ids);
    proof {
        lemma_touched_congruent(*snapshot, marked(mask@), touch, n as int);
    }
    let diagnostics = diagnostics_for(snapshot, "rustok_fba_", Some(module));
    let g = graph_from_selection(
        snapshot,
        RUSTOK_FBA_PORT_GRAPH_SCHEMA,
        Some(key),
        &ids,
        &edges,
        diagnostics,
        max_nodes,
        max_edges,
        true,
        "rustok_fba_graph_limits",
    );
    Ok(g)
}

/// The prefix of the keys of a module's dependencies.
pub open spec fn dependency_prefix(module: Seq<char>) -> Seq<char> {
    "fba_dependency://"@ + module + "/"@
}

/// `/`, the module and `/`: what the keys of the providers a module uses hold.
pub open spec fn provider_segment(module: Seq<char>) -> Seq<char> {
    "/"@ + module + "/"@
}

/// Relation `j` joins two FBA entities and starts at one of the module's dependencies or
/// at a key that names the module between slashes, or ends at the module.
pub open spec fn dependency_touch(s: CanonicalSnapshot, module: Seq<char>) -> spec_fn(int) -> bool {
    |j: int| {
        let fk = key_at(s, from_entity(s, j));
        let tk = key_at(s, to_entity(s, j));
        &&& 0 <= j < s.relations@.len()
        &&& fba_at(s, from_entity(s, j))
        &&& fba_at(s, to_entity(s, j))
        &&& has_prefix(fk, dependency_prefix(module)) || has_infix(fk, provider_segment(module)) || tk == fba_module_key(module)
    }
}

/// The id of the last entity with the module's key, where there is one.
pub open spec fn last_module_id(s: CanonicalSnapshot, module: Seq<char>) -> Set<Seq<char>> {
    match crate::rustok_graph::entity_with_key(s.entities@, fba_module_key(module)) {
        Some(e) => set![s.entities@[e].id@],
        None => Set::empty(),
    }
}

/// `g` is the dependency graph of FBA module `module`: the module's entity where there
/// is one, the ends of the relations that `dependency_touch` picks and their edges, with
/// the FBA diagnostics about the module.
pub open spec fn fba_dependencies_graph_of(g: RustokFbaGraph, s: CanonicalSnapshot, module: Seq<char>, max_nodes: int, max_edges: int) -> bool {
    let n = s.relations@.len() as int;
    let touch = dependency_touch(s, module);
    &&& g.schema@ == RUSTOK_FBA_DEPENDENCIES_GRAPH_SCHEMA@
    &&& g.snapshot@ == snapshot_name(s.snapshot)
    &&& opt_view(g.root) == Some(fba_module_key(module))
    &&& shows_selection(g, s, last_module_id(s, module).union(touched_ids(s, touch, n)), touched_edges(s, touch, n), true, max_nodes, max_edges)
    &&& g.omitted.reason@ == "rustok_fba_graph_limits"@
    &&& listed_copies(g.diagnostics@, s, "rustok_fba_"@, Some(module))
}

/// The dependency graph of an FBA module: the module's entity (the last with its key)
/// where there is one, and every relation between two FBA entities that starts at one of
/// the module's dependencies (`fba_dependency://{module}/...`) or at a key holding
/// `/{module}/`, or that ends at the module, with both its ends; at most `max_nodes` FBA
/// and file nodes and `max_edges` edges, with the FBA diagnostics about the module.
pub fn build_rustok_fba_dependencies_graph(
    snapshot: &CanonicalSnapshot,
    module: &str,
    max_nodes: usize,
    max_edges: usize,
) -> (r: Result<RustokFbaGraph, RustokGraphError>)
    ensures
        (max_nodes == 0 || max_edges == 0) <==> r is Err,
        r is Err ==> r matches Err(RustokGraphError::FbaLimits),
        match r {
            Ok(g) => fba_dependencies_graph_of(g, *snapshot, module@, max_nodes as int, max_edges as int),
            Err(_) => true,
        },
{
    if max_nodes == 0 || max_edges == 0 {
        return Err(RustokGraphError::FbaLimits);
    }
    proof {
        reveal_strlit("/");
    }
    let key = joined("fba_module://", module);
    let mut dep = joined("fba_dependency://", module);
    dep.append("/");
    let mut provider = joined("/", module);
    provider.append("/");
    let ghost touch = dependency_touch(*snapshot, module@);
    let n = snapshot.relations.len();
    let ends = resolve_endpoints(snapshot);
    let dc = to_chars(dep.as_str());
    let mut mask: Vec<bool> = Vec::new();
    let mut j: usize = 0;
    while j < n
        invariant
            n == snapshot.relations@.len(),
            ends@.len() == n,
            forall|r: int| 0 <= r < ends@.len() ==> opt_int((#[trigger] ends@[r]).0) == from_entity(*snapshot, r)
                && opt_int(ends@[r].1) == to_entity(*snapshot, r),
            touch == dependency_touch(*snapshot, module@),
            dc@ == dependency_prefix(module@),
            provider@ == provider_segment(module@),
            key@ == fba_module_key(module@),
            j <= n,
            mask@.len() == j,
            forall|q: int| 0 <= q < j ==> mask@[q] == touch(q),
        decreases n - j,
    {
        let r = &snapshot.relations[j];
        let (f, t) = ends[j];
        proof {
            crate::snapshot::lemma_entity_index(snapshot.entities@, r.from@);
            crate::snapshot::lemma_entity_index(snapshot.entities@, r.to@);
        }
        let fk = key_of(snapshot, f);
        let tk = key_of(snapshot, t);
        let fkc = to_chars(fk.as_str());
        let picked = is_fba_at(snapshot, f) && is_fba_at(snapshot, t) && (starts_with_chars(fkc.as_slice(), dc.as_slice())
            || str_contains(fk.as_str(), provider.as_str()) || str_eq(tk.as_str(), key.as_str()));
        mask.push(picked);
        j = j + 1;
    }
    let mut ids = set_new();
    match crate::rustok_graph::find_entity_with_key(&snapshot.entities, &key) {
        Some(e) => {
            set_insert(&mut ids, snapshot.entities[e].id.clone());
        },
        None => {},
    }
    assert(set_of(ids@) =~= last_module_id(*snapshot, module@));
    let edges = select_touched(snapshot, &mask, &mut ids);
    proof {
        lemma_touched_congruent(*snapshot, marked(mask@), touch, n as int);
    }
    let diagnostics = diagnostics_for(snapshot, "rustok_fba_", Some(module));
    let g = graph_from_selection(
        snapshot,
        RUSTOK_FBA_DEPENDENCIES_GRAPH_SCHEMA,
        Some(key),
        &ids,
        &edges,
        diagnostics,
        max_nodes,
        max_edges,
        true,
        "rustok_fba_graph_limits",
    );
    Ok(g)
}

/// The keys a diagnostic that names a module points at: its module, its port where it
/// names one, and its file where it names a path.
pub open spec fn fba_violation_keys_of(d: Diagnostic) -> Set<Seq<char>> {
    match d.module {
        None => Set::empty(),
        Some(m) => {
            let mk = fba_module_key(m@);
            match (d.port, d.path) {
                (Some(p), Some(f)) => set![mk, fba_port_key(m@, p@), file_key(f@)],
                (Some(p), None) => set![mk, fba_port_key(m@, p@)],
                (None, Some(f)) => set![mk, file_key(f@)],
                (None, None) => set![mk],
            }
        },
    }
}

/// The edges a diagnostic that names a module gives: the module violates the port, and
/// the port (or, without a port, the module) is evidenced by the file.
pub open spec fn fba_violation_edges_of(d: Diagnostic) -> Seq<EdgeView> {
    match d.module {
        None => Seq::empty(),
        Some(m) => {
            let mk = fba_module_key(m@);
            let ev = evidence_texts(d.evidence@);
            match (d.port, d.path) {
                (Some(p), Some(f)) => seq![
                    (mk, fba_port_key(m@, p@), "violates"@, ev),
                    (fba_port_key(m@, p@), file_key(f@), "evidenced_by"@, ev),
                ],
                (Some(p), None) => seq![(mk, fba_port_key(m@, p@), "violates"@, ev)],
                (None, Some(f)) => seq![(mk, file_key(f@), "evidenced_by"@, ev)],
                (None, None) => Seq::empty(),
            }
        },
    }
}

/// The keys the first `k` listed diagnostics point at.
pub open spec fn fba_violation_keys(s: CanonicalSnapshot, o: Seq<int>, k: int) -> Set<Seq<char>>
    decreases k,
{
    if k <= 0 {
        Set::empty()
    } else {
        fba_violation_keys(s, o, k - 1).union(fba_violation_keys_of(s.diagnostics@[o[k - 1]]))
    }
}

/// The edges the first `k` listed diagnostics give.
pub open spec fn fba_violation_edges(s: CanonicalSnapshot, o: Seq<int>, k: int) -> Seq<EdgeView>
    decreases k,
{
    if k <= 0 {
        Seq::empty()
    } else {
        fba_violation_edges(s, o, k - 1) + fba_violation_edges_of(s.diagnostics@[o[k - 1]])
    }
}

/// The ids of the entities the keys name: for each key, the last entity with it.
pub open spec fn keyed_ids(ents: Seq<Entity>, keys: Seq<Seq<char>>) -> Set<Seq<char>>
    decreases keys.len(),
{
    if keys.len() == 0 {
        Set::empty()
    } else {
        let prev = keyed_ids(ents, keys.drop_last());
        match entity_with_key(ents, keys.last()) {
            Some(e) => prev.insert(ents[e].id@),
            None => prev,
        }
    }
}

/// `g` is the violations graph of the FBA diagnostics about the given module (all of them
/// where none is given).
pub open spec fn fba_violations_graph_of(g: RustokFbaGraph, s: CanonicalSnapshot, module: Option<Seq<char>>, max_nodes: int, max_edges: int) -> bool {
    &&& g.schema@ == RUSTOK_FBA_VIOLATIONS_GRAPH_SCHEMA@
    &&& g.snapshot@ == snapshot_name(s.snapshot)
    &&& opt_view(g.root) == (match module {
        Some(m) => Some(fba_module_key(m)),
        None => None,
    })
    &&& g.omitted.reason@ == "rustok_fba_graph_limits"@
    &&& exists|o: Seq<int>, keys: Seq<Seq<char>>| {
        &&& #[trigger] selected_in_id_order(o, s, "rustok_fba_"@, module, None)
        &&& #[trigger] strictly_sorted(keys)
        &&& keys.to_set() == fba_violation_keys(s, o, o.len() as int)
        &&& g.diagnostics@.len() == o.len()
        &&& forall|i: int| 0 <= i < o.len() ==> same_diagnostic(#[trigger] g.diagnostics@[i], s.diagnostics@[o[i]])
        &&& shows_selection(g, s, keyed_ids(s.entities@, keys), fba_violation_edges(s, o, o.len() as int), true, max_nodes, max_edges)
    }
}

/// The ids of the entities the keys name, as `keyed_ids` says.
pub(crate) fn ids_of_keys(snapshot: &CanonicalSnapshot, keys: &Vec<String>) -> (ids: Vec<String>)
    ensures
        is_str_set(ids@),
        set_of(ids@) == keyed_ids(snapshot.entities@, views(keys@)),
{
    let ghost kv = views(keys@);
    let mut ids = set_new();
    let mut t: usize = 0;
    assert(set_of(ids@) =~= keyed_ids(snapshot.entities@, kv.take(0)));
    while t < keys.len()
        invariant
            kv == views(keys@),
            t <= keys@.len(),
            is_str_set(ids@),
            set_of(ids@) == keyed_ids(snapshot.entities@, kv.take(t as int)),
        decreases keys.len() - t,
    {
        assert(kv.take(t + 1).drop_last() =~= kv.take(t as int));
        assert(kv.take(t + 1).last() == keys@[t as int]@);
        match find_entity_with_key(&snapshot.entities, &keys[t]) {
            Some(e) => {
                set_insert(&mut ids, snapshot.entities[e].id.clone());
            },
            None => {},
        }
        t = t + 1;
    }
    assert(kv.take(t as int) =~= kv);
    ids
}

/// The graph of the violations that the FBA diagnostics about the given module (all of
/// them where none is given) report: for each diagnostic that names a module, the
/// module, its port and its file, linked by `violates` and `evidenced_by` edges; the nodes
/// are the FBA and file entities (the last with each key) that those keys name, at most
/// `max_nodes` of them and `max_edges` edges.
pub fn build_rustok_fba_violations_graph(
    snapshot: &CanonicalSnapshot,
    module: Option<&str>,
    max_nodes: usize,
    max_edges: usize,
) -> (g: RustokFbaGraph)
    ensures
        fba_violations_graph_of(g, *snapshot, filter_view(module), max_nodes as int, max_edges as int),
{
    let o = select_diagnostics(snapshot, "rustok_fba_", module, None);
    let ghost os = as_ints(o@);
    proof {
        assert forall|q: int| 0 <= q < o@.len() implies (#[trigger] o@[q]) < snapshot.diagnostics@.len() by {
            assert(0 <= os[q] < snapshot.diagnostics@.len());
        }
        reveal_strlit("/");
        reveal_strlit("violates");
        reveal_strlit("evidenced_by");
    }
    let mut keys = set_new();
    let mut edges: Vec<RustokFbaGraphEdge> = Vec::new();
    let mut q: usize = 0;
    assert(set_of(keys@) =~= fba_violation_keys(*snapshot, os, 0));
    while q < o.len()
        invariant
            forall|x: int| 0 <= x < o@.len() ==> (#[trigger] o@[x]) < snapshot.diagnostics@.len(),
            os == as_ints(o@),
            q <= o@.len(),
            is_str_set(keys@),
            set_of(keys@) == fba_violation_keys(*snapshot, os, q as int),
            edge_views(edges@) == fba_violation_edges(*snapshot, os, q as int),
        decreases o.len() - q,
    {
        let d = &snapshot.diagnostics[o[q]];
        let ghost before_keys = set_of(keys@);
        let ghost before_edges = edge_views(edges@);
        match &d.module {
            None => {},
            Some(m) => {
                let mk = joined("fba_module://", m.as_str());
                set_insert(&mut keys, mk.clone());
                let ev = render_evidence(&d.evidence);
                match &d.port {
                    Some(p) => {
                        let mut pk = joined("fba_port://", m.as_str());
                        pk.append("/");
                        pk.append(p.as_str());
                        set_insert(&mut keys, pk.clone());
                        let ev2 = copy_strings(&ev);
                        edges.push(RustokFbaGraphEdge { from: mk, to: pk.clone(), kind: String::from_str("violates"), evidence: ev });
                        match &d.path {
                            Some(f) => {
                                let fk = file_key_of(f);
                                set_insert(&mut keys, fk.clone());
                                edges.push(RustokFbaGraphEdge { from: pk, to: fk, kind: String::from_str("evidenced_by"), evidence: ev2 });
                            },
                            None => {},
                        }
                    },
                    None => {
                        match &d.path {
                            Some(f) => {
                                let fk = file_key_of(f);
                                set_insert(&mut keys, fk.clone());
                                edges.push(RustokFbaGraphEdge { from: mk, to: fk, kind: String::from_str("evidenced_by"), evidence: ev });
                            },
                            None => {},
                        }
                    },
                }
            },
        }
        assert(set_of(keys@) =~= before_keys.union(fba_violation_keys_of(*d)));
        assert(edge_views(edges@) =~= before_edges + fba_violation_edges_of(*d));
        q = q + 1;
    }
    let ghost kv = views(keys@);
    let ids = ids_of_keys(snapshot, &keys);
    let diagnostics = copies_at(snapshot, &o);
    let root = match module {
        Some(m) => Some(joined("fba_module://", m)),
        None => None,
    };
    let g = graph_from_selection(
        snapshot,
        RUSTOK_FBA_VIOLATIONS_GRAPH_SCHEMA,
        root,
        &ids,
        &edges,
        diagnostics,
        max_nodes,
        max_edges,
        true,
        "rustok_fba_graph_limits",
    );
    proof {
        crate::strset::lemma_sorted_unique(kv);
        assert(kv.to_set() == set_of(keys@));
        assert(selected_in_id_order(os, *snapshot, "rustok_fba_"@, filter_view(module), None));
        assert(strictly_sorted(kv));
        assert forall|i: int| 0 <= i < os.len() implies same_diagnostic(#[trigger] g.diagnostics@[i], snapshot.diagnostics@[os[i]]) by {
            assert(os[i] == o@[i] as int);
        }
    }
    g
}

} // verus!
