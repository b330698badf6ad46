//! Audits of the RusTok architecture entities of a snapshot: frontend surfaces and
//! their layers (FFA), backend modules and their ports (FBA), and the page builder.

use vstd::prelude::*;
use crate::graph::{from_entity, opt_int, resolve_endpoints, to_entity};
use crate::rustok::{
    ffa_layer_parts, ffa_shape, ffa_shape_of, ffa_surface_parts, parse_ffa_layer_key, parse_ffa_surface_key,
    strip_prefix, strip_prefix_chars, RUSTOK_FFA_AUDIT_SCHEMA, RUSTOK_PAGE_BUILDER_AUDIT_SCHEMA,
    RUSTOK_FBA_AUDIT_SCHEMA, fba_module_part, fba_contract_parts, fba_port_parts, fba_operation_parts,
    fba_dependency_parts, parse_fba_module_key, parse_fba_contract_key, parse_fba_port_key, parse_fba_operation_key,
    parse_fba_dependency_key,
};
use crate::snapshot::{CanonicalSnapshot, Diagnostic, Entity, Fact, opt_view, snapshot_id, snapshot_name, views};
use crate::sort::{Ranked, SortKey, as_ints, count_below, lemma_count_below_bounded, lemma_count_below_member, lemma_count_below_none, lists_exactly, rank_positions, sorted_by};
use crate::strset::{
    distinct_pairs, is_str_set, offered, opt_pair_view, pair_lt, pair_view, pair_views, set_insert, set_new, set_of,
};
use crate::text::{string_of_chars, has_prefix, lemma_lex_lt_irreflexive, lemma_lex_lt_transitive, lemma_lex_total, lex_lt, starts_with_chars, str_eq, str_lt, to_chars};

verus! {

/// The FFA audit of a snapshot.
pub struct RustokFfaAudit {
    pub schema: String,
    pub snapshot: String,
    pub summary: RustokFfaAuditSummary,
    pub surfaces: Vec<RustokFfaAuditSurface>,
}

/// How many surfaces are actionable, complete and incomplete, and how many open
/// diagnostics they carry.
pub struct RustokFfaAuditSummary {
    pub surfaces_total: usize,
    pub core_transport_ui: usize,
    pub incomplete: usize,
    pub diagnostics_open: usize,
}

/// One frontend surface with its layers, files and diagnostic kinds.
pub struct RustokFfaAuditSurface {
    pub id: String,
    pub module: String,
    pub surface: String,
    pub shape: String,
    pub layers: Vec<String>,
    pub files: Vec<String>,
    pub diagnostics: Vec<String>,
}

/// A diagnostic whose kind starts with `prefix` and whose payload names the given
/// module and surface, where those are given.
pub open spec fn diagnostic_selected(d: Diagnostic, prefix: Seq<char>, module: Option<Seq<char>>, surface: Option<Seq<char>>) -> bool {
    &&& has_prefix(d.kind@, prefix)
    &&& (module is None || opt_view(d.module) == module)
    &&& (surface is None || opt_view(d.surface) == surface)
}

/// The positions of the selected diagnostics.
pub open spec fn selected(s: CanonicalSnapshot, prefix: Seq<char>, module: Option<Seq<char>>, surface: Option<Seq<char>>) -> spec_fn(int) -> bool {
    |i: int| diagnostic_selected(s.diagnostics@[i], prefix, module, surface)
}

/// Diagnostic order by id, ties by position.
pub open spec fn diagnostic_id_first(s: CanonicalSnapshot, a: int, b: int) -> bool {
    lex_lt(s.diagnostics@[a].id@, s.diagnostics@[b].id@) || (s.diagnostics@[a].id@ == s.diagnostics@[b].id@ && a < b)
}

/// `o` lists the selected diagnostics once each, ordered by id.
pub open spec fn selected_in_id_order(
    o: Seq<int>,
    s: CanonicalSnapshot,
    prefix: Seq<char>,
    module: Option<Seq<char>>,
    surface: Option<Seq<char>>,
) -> bool {
    &&& lists_exactly(o, s.diagnostics@.len() as int, selected(s, prefix, module, surface))
    &&& sorted_by(o, |a: int, b: int| diagnostic_id_first(s, a, b))
}

/// The key a diagnostic is ordered by.
struct DiagnosticIdKey {
    id: String,
    index: usize,
}

impl SortKey for DiagnosticIdKey {
    closed spec fn key_lt(&self, other: &Self) -> bool {
        lex_lt(self.id@, other.id@) || (self.id@ == other.id@ && self.index < other.index)
    }

    proof fn lemma_key_lt_transitive(a: &Self, b: &Self, c: &Self) {
        if lex_lt(a.id@, b.id@) && lex_lt(b.id@, c.id@) {
            lemma_lex_lt_transitive(a.id@, b.id@, c.id@);
        }
    }

    proof fn lemma_key_lt_irreflexive(a: &Self) {
        lemma_lex_lt_irreflexive(a.id@);
    }

    fn lt(&self, other: &Self) -> (r: bool) {
        if str_lt(self.id.as_str(), other.id.as_str()) {
            true
        } else if str_eq(self.id.as_str(), other.id.as_str()) {
            self.index < other.index
        } else {
            false
        }
    }
}

impl Ranked for DiagnosticIdKey {
    closed spec fn position(&self) -> int {
        self.index as int
    }

    fn pos(&self) -> (r: usize) {
        self.index
    }
}

fn opt_str_eq(a: &Option<String>, b: Option<&str>) -> (r: bool)
    ensures
        r == (b is None || opt_view(*a) == (match b { None => None, Some(x) => Some(x@) })),
{
    match b {
        None => true,
        Some(x) => match a {
            None => false,
            Some(y) => str_eq(y.as_str(), x),
        },
    }
}

/// The optional filter as characters.
pub open spec fn filter_view(o: Option<&str>) -> Option<Seq<char>> {
    match o {
        None => None,
        Some(x) => Some(x@),
    }
}

/// The positions of the diagnostics whose kind starts with `prefix` and whose payload
/// names the given module and surface, ordered by id.
pub(crate) fn select_diagnostics(
    snapshot: &CanonicalSnapshot,
    prefix: &str,
    module: Option<&str>,
    surface: Option<&str>,
) -> (o: Vec<usize>)
    ensures
        selected_in_id_order(as_ints(o@), *snapshot, prefix@, filter_view(module), filter_view(surface)),
{
    let n = snapshot.diagnostics.len();
    let ghost member = selected(*snapshot, prefix@, filter_view(module), filter_view(surface));
    let pc = to_chars(prefix);
    let mut keys: Vec<DiagnosticIdKey> = Vec::new();
    let mut i: usize = 0;
    while i < n
        invariant
            n == snapshot.diagnostics@.len(),
            i <= n,
            pc@ == prefix@,
            member == selected(*snapshot, prefix@, filter_view(module), filter_view(surface)),
            forall|a: int| 0 <= a < keys@.len() ==> (#[trigger] keys@[a]).index < i
                && member(keys@[a].index as int)
                && keys@[a].id@ == snapshot.diagnostics@[keys@[a].index as int].id@,
            forall|a: int, b: int| 0 <= a < b < keys@.len() ==> (#[trigger] keys@[a]).index < (#[trigger] keys@[b]).index,
            forall|j: int| 0 <= j < i && #[trigger] member(j) ==> exists|a: int| 0 <= a < keys@.len() && (#[trigger] keys@[a]).index == j,
        decreases n - i,
    {
        let d = &snapshot.diagnostics[i];
        let kc = to_chars(d.kind.as_str());
        let hit = starts_with_chars(kc.as_slice(), pc.as_slice()) && opt_str_eq(&d.module, module) && opt_str_eq(&d.surface, surface);
        let ghost before = keys@;
        if hit {
            keys.push(DiagnosticIdKey { id: d.id.clone(), index: i });
            assert(keys@[keys@.len() - 1].index == i);
        }
        proof {
            assert forall|j: int| 0 <= j < i + 1 && #[trigger] member(j) implies exists|a: int|
                0 <= a < keys@.len() && (#[trigger] keys@[a]).index == j by {
                if j < i {
                    let a = choose|a: int| 0 <= a < before.len() && (#[trigger] before[a]).index == j;
                    assert(keys@[a] == before[a]);
                } else {
                    assert(keys@[keys@.len() - 1].index == j);
                }
            }
        }
        i = i + 1;
    }
    let ghost by_id = |a: int, b: int| diagnostic_id_first(*snapshot, a, b);
    let o = rank_positions(keys, Ghost(n as int), Ghost(member), Ghost(by_id));
    o
}

/// The module and surface of an `ffa_surface://` key.
pub open spec fn surface_pair(key: Seq<char>) -> Option<(Seq<char>, Seq<char>)> {
    match ffa_surface_parts(key) {
        Some(p) => Some((p[0], p[1])),
        None => None,
    }
}

/// What the `j`-th relation records about a surface: a `contains` relation from a surface
/// to a layer gives the surface and the layer's role; an `implemented_by` relation from a
/// layer to a `file://` entity gives the layer's surface and role, and the file.
pub open spec fn ffa_record(s: CanonicalSnapshot, j: int) -> Option<((Seq<char>, Seq<char>), Seq<char>, Option<Seq<char>>)> {
    let r = s.relations@[j];
    match (from_entity(s, j), to_entity(s, j)) {
        (Some(f), Some(t)) => {
            let fk = s.entities@[f].stable_key@;
            let tk = s.entities@[t].stable_key@;
            if r.kind@ == "contains"@ && surface_pair(fk) is Some && ffa_layer_parts(tk) is Some {
                Some((surface_pair(fk)->0, ffa_layer_parts(tk)->0[2], None))
            } else if r.kind@ == "implemented_by"@ && ffa_layer_parts(fk) is Some && has_prefix(tk, "file://"@) {
                let l = ffa_layer_parts(fk)->0;
                Some(((l[0], l[1]), l[2], Some(tk)))
            } else {
                None
            }
        },
        _ => None,
    }
}

/// The surface a record is about.
pub open spec fn record_pair(rec: Option<((Seq<char>, Seq<char>), Seq<char>, Option<Seq<char>>)>) -> Option<(Seq<char>, Seq<char>)> {
    match rec {
        Some((p, _, _)) => Some(p),
        None => None,
    }
}

/// The surfaces of the audit: those named by a surface entity's key, and those that a
/// relation records a layer or file for.
pub open spec fn ffa_surface_key(s: CanonicalSnapshot, p: (Seq<char>, Seq<char>)) -> bool {
    ||| exists|i: int| 0 <= i < s.entities@.len() && #[trigger] surface_pair(s.entities@[i].stable_key@) == Some(p)
    ||| exists|j: int| 0 <= j < s.relations@.len() && #[trigger] record_pair(ffa_record(s, j)) == Some(p)
}

/// The layer role a record gives surface `p`.
pub open spec fn record_layer(rec: Option<((Seq<char>, Seq<char>), Seq<char>, Option<Seq<char>>)>, p: (Seq<char>, Seq<char>)) -> Option<Seq<char>> {
    match rec {
        Some((q, role, _)) => if q == p { Some(role) } else { None },
        None => None,
    }
}

/// The file a record gives surface `p`.
pub open spec fn record_file(rec: Option<((Seq<char>, Seq<char>), Seq<char>, Option<Seq<char>>)>, p: (Seq<char>, Seq<char>)) -> Option<Seq<char>> {
    match rec {
        Some((q, _, f)) => if q == p { f } else { None },
        None => None,
    }
}

/// The layer roles recorded for surface `p` by the first `k` relations.
pub open spec fn ffa_layers_upto(s: CanonicalSnapshot, p: (Seq<char>, Seq<char>), k: int) -> Set<Seq<char>> {
    Set::new(|role: Seq<char>| exists|j: int| 0 <= j < k && #[trigger] record_layer(ffa_record(s, j), p) == Some(role))
}

/// The files recorded for surface `p` by the first `k` relations.
pub open spec fn ffa_files_upto(s: CanonicalSnapshot, p: (Seq<char>, Seq<char>), k: int) -> Set<Seq<char>> {
    Set::new(|file: Seq<char>| exists|j: int| 0 <= j < k && #[trigger] record_file(ffa_record(s, j), p) == Some(file))
}

/// The layer roles recorded for surface `p`.
pub open spec fn ffa_layers(s: CanonicalSnapshot, p: (Seq<char>, Seq<char>)) -> Set<Seq<char>> {
    ffa_layers_upto(s, p, s.relations@.len() as int)
}

/// The files recorded for surface `p`.
pub open spec fn ffa_files(s: CanonicalSnapshot, p: (Seq<char>, Seq<char>)) -> Set<Seq<char>> {
    ffa_files_upto(s, p, s.relations@.len() as int)
}

/// The module and surface a diagnostic's payload names, where it names both.
pub open spec fn diagnostic_pair(d: Diagnostic) -> Option<(Seq<char>, Seq<char>)> {
    match (d.module, d.surface) {
        (Some(m), Some(sf)) => Some((m@, sf@)),
        _ => None,
    }
}

/// The kinds of the first `k` diagnostics listed in `o` whose payload names surface `p`.
pub open spec fn surface_diagnostic_kinds(s: CanonicalSnapshot, o: Seq<int>, p: (Seq<char>, Seq<char>), k: int) -> Seq<Seq<char>>
    decreases k,
{
    if k <= 0 {
        Seq::empty()
    } else {
        let prev = surface_diagnostic_kinds(s, o, p, k - 1);
        let d = s.diagnostics@[o[k - 1]];
        if diagnostic_pair(d) == Some(p) { prev.push(d.kind@) } else { prev }
    }
}

/// The id of a surface entity.
pub open spec fn surface_id(p: (Seq<char>, Seq<char>)) -> Seq<char> {
    "ffa_surface://"@ + p.0 + "/"@ + p.1
}

/// `a` is the audit entry of surface `p`, with the diagnostics listed in `o`.
pub open spec fn ffa_surface_of(a: RustokFfaAuditSurface, s: CanonicalSnapshot, p: (Seq<char>, Seq<char>), o: Seq<int>) -> bool {
    &&& a.id@ == surface_id(p)
    &&& a.module@ == p.0
    &&& a.surface@ == p.1
    &&& is_str_set(a.layers@) && set_of(a.layers@) == ffa_layers(s, p)
    &&& is_str_set(a.files@) && set_of(a.files@) == ffa_files(s, p)
    &&& a.shape@ == ffa_shape_of(views(a.layers@))
    &&& views(a.diagnostics@) == surface_diagnostic_kinds(s, o, p, o.len() as int)
}

/// `pairs` lists the audited surfaces once each, in (module, surface) order.
pub open spec fn surfaces_listed(pairs: Seq<(Seq<char>, Seq<char>)>, s: CanonicalSnapshot) -> bool {
    &&& forall|i: int, j: int| 0 <= i < j < pairs.len() ==> pair_lt(#[trigger] pairs[i], #[trigger] pairs[j])
    &&& forall|p: (Seq<char>, Seq<char>)| pairs.contains(p) <==> ffa_surface_key(s, p)
}

/// A shape that asks for work: neither host wiring nor a scaffold.
pub open spec fn actionable(shape: Seq<char>) -> bool {
    shape != "host_wiring"@ && shape != "scaffold"@
}

/// Host-wired and scaffold surfaces ask for no work; every other shape does.
pub proof fn lemma_actionable_shapes()
    ensures
        !actionable("host_wiring"@),
        !actionable("scaffold"@),
        actionable("core_transport_ui"@),
        actionable("core_transport"@),
        actionable("core_ui"@),
        actionable("transport_ui"@),
        actionable("core_only"@),
        actionable("transport_only"@),
        actionable("ui_only"@),
        actionable("none"@),
{
    reveal_strlit("host_wiring");
    reveal_strlit("scaffold");
    reveal_strlit("core_transport_ui");
    reveal_strlit("core_transport");
    reveal_strlit("core_ui");
    reveal_strlit("transport_ui");
    reveal_strlit("core_only");
    reveal_strlit("transport_only");
    reveal_strlit("ui_only");
    reveal_strlit("none");
    assert("core_transport_ui"@.len() != "host_wiring"@.len());
    assert("core_transport_ui"@.len() != "scaffold"@.len());
    assert("core_transport"@.len() != "host_wiring"@.len());
    assert("core_transport"@.len() != "scaffold"@.len());
    assert("core_ui"@.len() != "host_wiring"@.len());
    assert("core_ui"@.len() != "scaffold"@.len());
    assert("transport_ui"@.len() != "host_wiring"@.len());
    assert("transport_ui"@.len() != "scaffold"@.len());
    assert("core_only"@.len() != "host_wiring"@.len());
    assert("core_only"@.len() != "scaffold"@.len());
    assert("transport_only"@.len() != "host_wiring"@.len());
    assert("transport_only"@.len() != "scaffold"@.len());
    assert("ui_only"@.len() != "host_wiring"@.len());
    assert("ui_only"@.len() != "scaffold"@.len());
    assert("none"@.len() != "host_wiring"@.len());
    assert("none"@.len() != "scaffold"@.len());
}

/// The listed diagnostics whose payload names one of the audited surfaces.
pub open spec fn on_audited_surface(s: CanonicalSnapshot, o: Seq<int>, pairs: Seq<(Seq<char>, Seq<char>)>) -> spec_fn(int) -> bool {
    |q: int| diagnostic_pair(s.diagnostics@[o[q]]) is Some && pairs.contains(diagnostic_pair(s.diagnostics@[o[q]])->0)
}

/// `a` is the FFA audit of the snapshot.
pub open spec fn ffa_audit_of(a: RustokFfaAudit, s: CanonicalSnapshot) -> bool {
    &&& a.schema@ == RUSTOK_FFA_AUDIT_SCHEMA@
    &&& a.snapshot@ == snapshot_name(s.snapshot)
    &&& exists|o: Seq<int>, pairs: Seq<(Seq<char>, Seq<char>)>| {
        &&& #[trigger] selected_in_id_order(o, s, "rustok_ffa_"@, None, None)
        &&& #[trigger] surfaces_listed(pairs, s)
        &&& a.surfaces@.len() == pairs.len()
        &&& forall|i: int| 0 <= i < pairs.len() ==> ffa_surface_of(#[trigger] a.surfaces@[i], s, pairs[i], o)
        &&& a.summary.diagnostics_open == count_below(o.len() as int, on_audited_surface(s, o, pairs))
    }
    &&& a.summary.surfaces_total == count_below(a.surfaces@.len() as int, |i: int| actionable(a.surfaces@[i].shape@))
    &&& a.summary.core_transport_ui == count_below(a.surfaces@.len() as int, |i: int| a.surfaces@[i].shape@ == "core_transport_ui"@)
    &&& a.summary.incomplete == a.summary.surfaces_total - a.summary.core_transport_ui
}

/// An exec form of a record.
struct FfaRecord {
    module: String,
    surface: String,
    role: String,
    file: Option<String>,
}

/// The view of an exec record.
spec fn record_view(r: Option<FfaRecord>) -> Option<((Seq<char>, Seq<char>), Seq<char>, Option<Seq<char>>)> {
    match r {
        None => None,
        Some(x) => Some(((x.module@, x.surface@), x.role@, opt_view(x.file))),
    }
}

/// What each relation records about a surface.
fn ffa_records(snapshot: &CanonicalSnapshot) -> (recs: Vec<Option<FfaRecord>>)
    ensures
        recs@.len() == snapshot.relations@.len(),
        forall|j: int| 0 <= j < recs@.len() ==> record_view(#[trigger] recs@[j]) == ffa_record(*snapshot, j),
{
    let ends = resolve_endpoints(snapshot);
    let file_prefix = to_chars("file://");
    let mut recs: Vec<Option<FfaRecord>> = Vec::new();
    let mut j: usize = 0;
    while j < snapshot.relations.len()
        invariant
            j <= snapshot.relations@.len(),
            ends@.len() == snapshot.relations@.len(),
            forall|r: int| 0 <= r < ends@.len() ==> opt_int((#[trigger] ends@[r]).0) == from_entity(*snapshot, r)
                && opt_int(ends@[r].1) == to_entity(*snapshot, r),
            file_prefix@ == "file://"@,
            recs@.len() == j,
            forall|q: int| 0 <= q < j ==> record_view(#[trigger] recs@[q]) == ffa_record(*snapshot, q),
        decreases snapshot.relations.len() - j,
    {
        let r = &snapshot.relations[j];
        let (fo, to) = ends[j];
        let mut rec: Option<FfaRecord> = None;
        match (fo, to) {
            (Some(f), Some(t)) => {
                proof {
                    crate::snapshot::lemma_entity_index(snapshot.entities@, r.from@);
                    crate::snapshot::lemma_entity_index(snapshot.entities@, r.to@);
                }
                let fk = &snapshot.entities[f].stable_key;
                let tk = &snapshot.entities[t].stable_key;
                assert(Some(f as int) == from_entity(*snapshot, j as int));
                assert(Some(t as int) == to_entity(*snapshot, j as int));
                if str_eq(r.kind.as_str(), "contains") {
                    let sp = parse_ffa_surface_key(fk.as_str());
                    let lp = parse_ffa_layer_key(tk.as_str());
                    match (sp, lp) {
                        (Some((m, sf)), Some((lm, ls, role))) => {
                            assert(ffa_surface_parts(fk@)->0 == seq![m@, sf@]);
                            assert(ffa_layer_parts(tk@)->0 == seq![lm@, ls@, role@]);
                            rec = Some(FfaRecord { module: m, surface: sf, role, file: None });
                        },
                        _ => {},
                    }
                } else if str_eq(r.kind.as_str(), "implemented_by") {
                    let tc = to_chars(tk.as_str());
                    match parse_ffa_layer_key(fk.as_str()) {
                        Some((m, sf, role)) => {
                            assert(ffa_layer_parts(fk@)->0 == seq![m@, sf@, role@]);
                            if starts_with_chars(tc.as_slice(), file_prefix.as_slice()) {
                                rec = Some(FfaRecord { module: m, surface: sf, role, file: Some(tk.clone()) });
                            }
                        },
                        None => {},
                    }
                }
            },
            _ => {},
        }
        proof {
            reveal_strlit("contains");
            reveal_strlit("implemented_by");
            assert("contains"@.len() != "implemented_by"@.len());
        }
        recs.push(rec);
        j = j + 1;
    }
    recs
}

/// The key a surface is ordered by.
struct SurfaceKey {
    module: String,
    surface: String,
    index: usize,
}

impl SortKey for SurfaceKey {
    closed spec fn key_lt(&self, other: &Self) -> bool {
        pair_lt((self.module@, self.surface@), (other.module@, other.surface@))
    }

    proof fn lemma_key_lt_transitive(a: &Self, b: &Self, c: &Self) {
        if lex_lt(a.module@, b.module@) && lex_lt(b.module@, c.module@) {
            lemma_lex_lt_transitive(a.module@, b.module@, c.module@);
        }
        if lex_lt(a.surface@, b.surface@) && lex_lt(b.surface@, c.surface@) {
            lemma_lex_lt_transitive(a.surface@, b.surface@, c.surface@);
        }
    }

    proof fn lemma_key_lt_irreflexive(a: &Self) {
        lemma_lex_lt_irreflexive(a.module@);
        lemma_lex_lt_irreflexive(a.surface@);
    }

    fn lt(&self, other: &Self) -> (r: bool) {
        if str_lt(self.module.as_str(), other.module.as_str()) {
            true
        } else if str_eq(self.module.as_str(), other.module.as_str()) {
            str_lt(self.surface.as_str(), other.surface.as_str())
        } else {
            false
        }
    }
}

impl Ranked for SurfaceKey {
    closed spec fn position(&self) -> int {
        self.index as int
    }

    fn pos(&self) -> (r: usize) {
        self.index
    }
}

/// The audited surfaces, in (module, surface) order.
fn ffa_surface_pairs(snapshot: &CanonicalSnapshot, recs: &Vec<Option<FfaRecord>>) -> (sorted: Vec<(String, String)>)
    requires
        recs@.len() == snapshot.relations@.len(),
        forall|j: int| 0 <= j < recs@.len() ==> record_view(#[trigger] recs@[j]) == ffa_record(*snapshot, j),
    ensures
        surfaces_listed(pair_views(sorted@), *snapshot),
{
    let n = snapshot.entities.len();
    let mut offers: Vec<Option<(String, String)>> = Vec::new();
    let mut i: usize = 0;
    while i < n
        invariant
            n == snapshot.entities@.len(),
            i <= n,
            offers@.len() == i,
            forall|k: int| 0 <= k < i ==> opt_pair_view(#[trigger] offers@[k]) == surface_pair(snapshot.entities@[k].stable_key@),
        decreases n - i,
    {
        let x = parse_ffa_surface_key(snapshot.entities[i].stable_key.as_str());
        proof {
            if x is Some {
                let pr = x->0;
                let m = pr.0;
                let sf = pr.1;
                assert(ffa_surface_parts(snapshot.entities@[i as int].stable_key@)->0 == seq![m@, sf@]);
            }
        }
        offers.push(x);
        i = i + 1;
    }
    let mut j: usize = 0;
    while j < recs.len()
        invariant
            n == snapshot.entities@.len(),
            recs@.len() == snapshot.relations@.len(),
            forall|q: int| 0 <= q < recs@.len() ==> record_view(#[trigger] recs@[q]) == ffa_record(*snapshot, q),
            j <= recs@.len(),
            offers@.len() == n + j,
            forall|k: int| 0 <= k < n ==> opt_pair_view(#[trigger] offers@[k]) == surface_pair(snapshot.entities@[k].stable_key@),
            forall|k: int| n <= k < n + j ==> opt_pair_view(#[trigger] offers@[k]) == record_pair(ffa_record(*snapshot, k - n)),
        decreases recs.len() - j,
    {
        let x = match &recs[j] {
            None => None,
            Some(r) => Some((r.module.clone(), r.surface.clone())),
        };
        offers.push(x);
        j = j + 1;
    }
    let pairs = distinct_pairs(&offers);
    let ghost pv = pair_views(pairs@);
    proof {
        assert forall|p: (Seq<char>, Seq<char>)| pv.contains(p) <==> ffa_surface_key(*snapshot, p) by {
            assert(pv.contains(p) == offered(offers@, p));
            if offered(offers@, p) {
                let k = choose|k: int| 0 <= k < offers@.len() && #[trigger] opt_pair_view(offers@[k]) == Some(p);
                if k < n {
                    assert(surface_pair(snapshot.entities@[k].stable_key@) == Some(p));
                } else {
                    assert(record_pair(ffa_record(*snapshot, k - n)) == Some(p));
                }
            }
            if exists|i: int| 0 <= i < snapshot.entities@.len() && #[trigger] surface_pair(snapshot.entities@[i].stable_key@) == Some(p) {
                let i = choose|i: int| 0 <= i < snapshot.entities@.len() && #[trigger] surface_pair(snapshot.entities@[i].stable_key@) == Some(p);
                assert(opt_pair_view(offers@[i]) == Some(p));
            }
            if exists|j: int| 0 <= j < snapshot.relations@.len() && #[trigger] record_pair(ffa_record(*snapshot, j)) == Some(p) {
                let j = choose|j: int| 0 <= j < snapshot.relations@.len() && #[trigger] record_pair(ffa_record(*snapshot, j)) == Some(p);
                assert(opt_pair_view(offers@[n + j]) == Some(p));
            }
        }
    }
    let mut keys: Vec<SurfaceKey> = Vec::new();
    let mut t: usize = 0;
    while t < pairs.len()
        invariant
            t <= pairs@.len(),
            pv == pair_views(pairs@),
            keys@.len() == t,
            forall|a: int| 0 <= a < t ==> (#[trigger] keys@[a]).index == a && keys@[a].module@ == pv[a].0 && keys@[a].surface@ == pv[a].1,
        decreases pairs.len() - t,
    {
        keys.push(SurfaceKey { module: pairs[t].0.clone(), surface: pairs[t].1.clone(), index: t });
        t = t + 1;
    }
    let ghost nn = pairs@.len() as int;
    let ghost before = |a: int, b: int| pair_lt(pv[a], pv[b]);
    let ghost every = |a: int| true;
    proof {
        assert forall|j: int| 0 <= j < nn && #[trigger] every(j) implies exists|a: int| 0 <= a < keys@.len() && (#[trigger] keys@[a]).position() == j by {
            assert(keys@[j].position() == j);
        }
    }
    let order = rank_positions(keys, Ghost(nn), Ghost(every), Ghost(before));
    let ghost o = as_ints(order@);
    let mut sorted: Vec<(String, String)> = Vec::new();
    let mut q: usize = 0;
    while q < order.len()
        invariant
            o == as_ints(order@),
            lists_exactly(o, nn, every),
            every == (|a: int| true),
            nn == pairs@.len(),
            pv == pair_views(pairs@),
            q <= order@.len(),
            sorted@.len() == q,
            forall|a: int| 0 <= a < q ==> pair_view(#[trigger] sorted@[a]) == pv[o[a]],
        decreases order.len() - q,
    {
        let x = order[q];
        assert(0 <= o[q as int] < nn);
        sorted.push((pairs[x].0.clone(), pairs[x].1.clone()));
        q = q + 1;
    }
    proof {
        let sv = pair_views(sorted@);
        assert forall|a: int, b: int| 0 <= a < b < sv.len() implies pair_lt(#[trigger] sv[a], #[trigger] sv[b]) by {
            assert(sv[a] == pv[o[a]]);
            assert(sv[b] == pv[o[b]]);
            assert(!before(o[b], o[a]));
            assert(o[a] != o[b]);
            assert(pv[o[a]] != pv[o[b]]);
            lemma_lex_total(sv[a].0, sv[b].0);
            lemma_lex_total(sv[a].1, sv[b].1);
        }
        assert forall|p: (Seq<char>, Seq<char>)| sv.contains(p) <==> ffa_surface_key(*snapshot, p) by {
            if sv.contains(p) {
                let a = choose|a: int| 0 <= a < sv.len() && #[trigger] sv[a] == p;
                assert(sv[a] == pv[o[a]]);
                assert(pv.contains(p));
            }
            if ffa_surface_key(*snapshot, p) {
                assert(pv.contains(p));
                let x = choose|x: int| 0 <= x < pv.len() && #[trigger] pv[x] == p;
                assert(every(x));
                assert(o.contains(x));
                let a = choose|a: int| 0 <= a < o.len() && #[trigger] o[a] == x;
                assert(sv[a] == p);
            }
        }
    }
    sorted
}

/// The layers or the files recorded for surface `p`.
fn surface_set(snapshot: &CanonicalSnapshot, recs: &Vec<Option<FfaRecord>>, p: &(String, String), files: bool) -> (v: Vec<String>)
    requires
        recs@.len() == snapshot.relations@.len(),
        forall|j: int| 0 <= j < recs@.len() ==> record_view(#[trigger] recs@[j]) == ffa_record(*snapshot, j),
    ensures
        is_str_set(v@),
        set_of(v@) == if files { ffa_files(*snapshot, pair_view(*p)) } else { ffa_layers(*snapshot, pair_view(*p)) },
{
    let ghost pv = pair_view(*p);
    let mut v = set_new();
    let mut j: usize = 0;
    proof {
        assert(set_of(v@) =~= if files { ffa_files_upto(*snapshot, pv, 0) } else { ffa_layers_upto(*snapshot, pv, 0) });
    }
    while j < recs.len()
        invariant
            recs@.len() == snapshot.relations@.len(),
            forall|q: int| 0 <= q < recs@.len() ==> record_view(#[trigger] recs@[q]) == ffa_record(*snapshot, q),
            pv == pair_view(*p),
            j <= recs@.len(),
            is_str_set(v@),
            set_of(v@) == if files { ffa_files_upto(*snapshot, pv, j as int) } else { ffa_layers_upto(*snapshot, pv, j as int) },
        decreases recs.len() - j,
    {
        let ghost before = set_of(v@);
        let ghost rec = ffa_record(*snapshot, j as int);
        let mut added: Option<Seq<char>> = None;
        match &recs[j] {
            None => {},
            Some(r) => {
                if str_eq(r.module.as_str(), p.0.as_str()) && str_eq(r.surface.as_str(), p.1.as_str()) {
                    if files {
                        match &r.file {
                            None => {},
                            Some(f) => {
                                set_insert(&mut v, f.clone());
                            },
                        }
                    } else {
                        set_insert(&mut v, r.role.clone());
                    }
                }
            },
        }
        proof {
            let x = if files { record_file(rec, pv) } else { record_layer(rec, pv) };
            assert(set_of(v@) == match x { None => before, Some(y) => before.insert(y) });
            if files {
                assert(set_of(v@) =~= ffa_files_upto(*snapshot, pv, j + 1)) by {
                    assert forall|y: Seq<char>| ffa_files_upto(*snapshot, pv, j + 1).contains(y) implies set_of(v@).contains(y) by {
                        let w = choose|w: int| 0 <= w < j + 1 && #[trigger] record_file(ffa_record(*snapshot, w), pv) == Some(y);
                        if w < j {
                            assert(ffa_files_upto(*snapshot, pv, j as int).contains(y));
                        }
                    }
                    assert forall|y: Seq<char>| set_of(v@).contains(y) implies ffa_files_upto(*snapshot, pv, j + 1).contains(y) by {
                        if before.contains(y) {
                            let w = choose|w: int| 0 <= w < j && #[trigger] record_file(ffa_record(*snapshot, w), pv) == Some(y);
                            assert(record_file(ffa_record(*snapshot, w), pv) == Some(y));
                        } else {
                            assert(record_file(ffa_record(*snapshot, j as int), pv) == Some(y));
                        }
                    }
                }
            } else {
                assert(set_of(v@) =~= ffa_layers_upto(*snapshot, pv, j + 1)) by {
                    assert forall|y: Seq<char>| ffa_layers_upto(*snapshot, pv, j + 1).contains(y) implies set_of(v@).contains(y) by {
                        let w = choose|w: int| 0 <= w < j + 1 && #[trigger] record_layer(ffa_record(*snapshot, w), pv) == Some(y);
                        if w < j {
                            assert(ffa_layers_upto(*snapshot, pv, j as int).contains(y));
                        }
                    }
                    assert forall|y: Seq<char>| set_of(v@).contains(y) implies ffa_layers_upto(*snapshot, pv, j + 1).contains(y) by {
                        if before.contains(y) {
                            let w = choose|w: int| 0 <= w < j && #[trigger] record_layer(ffa_record(*snapshot, w), pv) == Some(y);
                            assert(record_layer(ffa_record(*snapshot, w), pv) == Some(y));
                        } else {
                            assert(record_layer(ffa_record(*snapshot, j as int), pv) == Some(y));
                        }
                    }
                }
            }
        }
        j = j + 1;
    }
    v
}

/// `"ffa_surface://"` followed by the module, `/` and the surface.
fn surface_key_string(p: &(String, String)) -> (r: String)
    ensures
        r@ == surface_id(pair_view(*p)),
{
    proof {
        reveal_strlit("/");
    }
    let mut r = String::from_str("ffa_surface://");
    r.append(p.0.as_str());
    r.append("/");
    r.append(p.1.as_str());
    r
}

/// The audit entry of surface `p`.
fn surface_entry(
    snapshot: &CanonicalSnapshot,
    recs: &Vec<Option<FfaRecord>>,
    o: &Vec<usize>,
    p: &(String, String),
) -> (a: RustokFfaAuditSurface)
    requires
        recs@.len() == snapshot.relations@.len(),
        forall|j: int| 0 <= j < recs@.len() ==> record_view(#[trigger] recs@[j]) == ffa_record(*snapshot, j),
        forall|q: int| 0 <= q < o@.len() ==> (#[trigger] o@[q]) < snapshot.diagnostics@.len(),
    ensures
        ffa_surface_of(a, *snapshot, pair_view(*p), as_ints(o@)),
{
    let ghost pv = pair_view(*p);
    let ghost os = as_ints(o@);
    let layers = surface_set(snapshot, recs, p, false);
    let files = surface_set(snapshot, recs, p, true);
    let shape = ffa_shape(layers.as_slice());
    let mut kinds: Vec<String> = Vec::new();
    let mut q: usize = 0;
    while q < o.len()
        invariant
            forall|x: int| 0 <= x < o@.len() ==> (#[trigger] o@[x]) < snapshot.diagnostics@.len(),
            os == as_ints(o@),
            pv == pair_view(*p),
            q <= o@.len(),
            views(kinds@) == surface_diagnostic_kinds(*snapshot, os, pv, q as int),
        decreases o.len() - q,
    {
        let d = &snapshot.diagnostics[o[q]];
        let hit = match (&d.module, &d.surface) {
            (Some(m), Some(sf)) => str_eq(m.as_str(), p.0.as_str()) && str_eq(sf.as_str(), p.1.as_str()),
            _ => false,
        };
        if hit {
            kinds.push(d.kind.clone());
        }
        q = q + 1;
        assert(views(kinds@) =~= surface_diagnostic_kinds(*snapshot, os, pv, q as int));
    }
    RustokFfaAuditSurface {
        id: surface_key_string(p),
        module: p.0.clone(),
        surface: p.1.clone(),
        shape,
        layers,
        files,
        diagnostics: kinds,
    }
}

/// Audits the snapshot's frontend surfaces: each surface with its layers, files, shape
/// and FFA diagnostic kinds, in (module, surface) order, and the summary counts.
pub fn build_rustok_ffa_audit(snapshot: &CanonicalSnapshot) -> (r: RustokFfaAudit)
    ensures
        ffa_audit_of(r, *snapshot),
{
    let o = select_diagnostics(snapshot, "rustok_ffa_", None, None);
    let ghost os = as_ints(o@);
    let recs = ffa_records(snapshot);
    let pairs = ffa_surface_pairs(snapshot, &recs);
    let ghost pv = pair_views(pairs@);
    proof {
        assert forall|q: int| 0 <= q < o@.len() implies (#[trigger] o@[q]) < snapshot.diagnostics@.len() by {
            assert(0 <= os[q] < snapshot.diagnostics@.len());
        }
    }
    let mut surfaces: Vec<RustokFfaAuditSurface> = Vec::new();
    let mut t: usize = 0;
    while t < pairs.len()
        invariant
            recs@.len() == snapshot.relations@.len(),
            forall|j: int| 0 <= j < recs@.len() ==> record_view(#[trigger] recs@[j]) == ffa_record(*snapshot, j),
            forall|q: int| 0 <= q < o@.len() ==> (#[trigger] o@[q]) < snapshot.diagnostics@.len(),
            os == as_ints(o@),
            pv == pair_views(pairs@),
            t <= pairs@.len(),
            surfaces@.len() == t,
            forall|i: int| 0 <= i < t ==> ffa_surface_of(#[trigger] surfaces@[i], *snapshot, pv[i], os),
        decreases pairs.len() - t,
    {
        surfaces.push(surface_entry(snapshot, &recs, &o, &pairs[t]));
        t = t + 1;
    }
    let ghost sv = surfaces@;
    let mut total: usize = 0;
    let mut complete: usize = 0;
    let mut i: usize = 0;
    while i < surfaces.len()
        invariant
            sv == surfaces@,
            i <= sv.len(),
            total == count_below(i as int, |k: int| actionable(sv[k].shape@)),
            complete == count_below(i as int, |k: int| sv[k].shape@ == "core_transport_ui"@),
            complete <= total,
        decreases surfaces.len() - i,
    {
        proof {
            lemma_count_below_bounded(i as int, |k: int| actionable(sv[k].shape@));
            lemma_count_below_bounded(i as int, |k: int| sv[k].shape@ == "core_transport_ui"@);
            reveal_strlit("core_transport_ui");
            reveal_strlit("host_wiring");
            reveal_strlit("scaffold");
            assert("core_transport_ui"@.len() != "host_wiring"@.len());
            assert("core_transport_ui"@.len() != "scaffold"@.len());
        }
        let shape = surfaces[i].shape.as_str();
        if !str_eq(shape, "host_wiring") && !str_eq(shape, "scaffold") {
            total = total + 1;
        }
        if str_eq(shape, "core_transport_ui") {
            complete = complete + 1;
        }
        i = i + 1;
    }
    let mut open: usize = 0;
    let mut q: usize = 0;
    while q < o.len()
        invariant
            forall|x: int| 0 <= x < o@.len() ==> (#[trigger] o@[x]) < snapshot.diagnostics@.len(),
            os == as_ints(o@),
            pv == pair_views(pairs@),
            q <= o@.len(),
            open == count_below(q as int, on_audited_surface(*snapshot, os, pv)),
        decreases o.len() - q,
    {
        proof {
            lemma_count_below_bounded(q as int, on_audited_surface(*snapshot, os, pv));
        }
        let d = &snapshot.diagnostics[o[q]];
        match (&d.module, &d.surface) {
            (Some(m), Some(sf)) => {
                let mut k: usize = 0;
                while k < pairs.len() && !(str_eq(pairs[k].0.as_str(), m.as_str()) && str_eq(pairs[k].1.as_str(), sf.as_str()))
                    invariant
                        k <= pairs@.len(),
                        pv == pair_views(pairs@),
                        forall|w: int| 0 <= w < k ==> pv[w] != (m@, sf@),
                    decreases pairs.len() - k,
                {
                    k = k + 1;
                }
                proof {
                    if k < pairs.len() {
                        assert(pv[k as int] == (m@, sf@));
                    } else {
                        assert(!pv.contains((m@, sf@)));
                    }
                }
                if k < pairs.len() {
                    open = open + 1;
                }
            },
            _ => {},
        }
        q = q + 1;
    }
    let summary = RustokFfaAuditSummary {
        surfaces_total: total,
        core_transport_ui: complete,
        incomplete: total - complete,
        diagnostics_open: open,
    };
    let r = RustokFfaAudit {
        schema: String::from_str(RUSTOK_FFA_AUDIT_SCHEMA),
        snapshot: snapshot_id(snapshot),
        summary,
        surfaces,
    };
    proof {
        assert(selected_in_id_order(os, *snapshot, "rustok_ffa_"@, None, None));
        assert(surfaces_listed(pv, *snapshot));
    }
    r
}

/// The page builder audit of a snapshot.
pub struct RustokPageBuilderAudit {
    pub schema: String,
    pub snapshot: String,
    pub summary: RustokPageBuilderAuditSummary,
    pub providers: Vec<String>,
    pub consumers: Vec<RustokPageBuilderAuditConsumer>,
    pub contracts: Vec<String>,
    pub capabilities: Vec<String>,
    pub fallback_profiles: Vec<String>,
    pub wave_evidence: Vec<String>,
    pub diagnostics: Vec<String>,
}

/// How many page builder entities of each kind there are, and how many diagnostics.
pub struct RustokPageBuilderAuditSummary {
    pub providers_total: usize,
    pub consumers_total: usize,
    pub contracts_total: usize,
    pub capabilities_total: usize,
    pub fallback_profiles_total: usize,
    pub wave_evidence_total: usize,
    pub diagnostics_open: usize,
}

/// A page builder consumer with the kinds of the diagnostics about its module.
pub struct RustokPageBuilderAuditConsumer {
    pub id: String,
    pub module: String,
    pub diagnostics: Vec<String>,
}

/// The entities of a kind.
pub open spec fn entity_of_kind(s: CanonicalSnapshot, kind: Seq<char>) -> spec_fn(int) -> bool {
    |i: int| s.entities@[i].kind@ == kind
}

/// Entity order by stable key, ties by position.
pub open spec fn stable_key_first(s: CanonicalSnapshot, a: int, b: int) -> bool {
    lex_lt(s.entities@[a].stable_key@, s.entities@[b].stable_key@)
        || (s.entities@[a].stable_key@ == s.entities@[b].stable_key@ && a < b)
}

/// The stable keys of the entities at the given positions.
pub open spec fn stable_keys_at(s: CanonicalSnapshot, o: Seq<int>) -> Seq<Seq<char>> {
    Seq::new(o.len(), |i: int| s.entities@[o[i]].stable_key@)
}

/// `v` holds the stable keys of the entities of a kind, in sorted order.
pub open spec fn keys_listed(v: Seq<String>, s: CanonicalSnapshot, kind: Seq<char>) -> bool {
    exists|o: Seq<int>| {
        &&& #[trigger] lists_exactly(o, s.entities@.len() as int, entity_of_kind(s, kind))
        &&& sorted_by(o, |a: int, b: int| stable_key_first(s, a, b))
        &&& views(v) == stable_keys_at(s, o)
    }
}

/// The key an entity is ordered by: a text, ties by position.
struct TextKey {
    text: String,
    index: usize,
}

impl SortKey for TextKey {
    closed spec fn key_lt(&self, other: &Self) -> bool {
        lex_lt(self.text@, other.text@) || (self.text@ == other.text@ && self.index < other.index)
    }

    proof fn lemma_key_lt_transitive(a: &Self, b: &Self, c: &Self) {
        if lex_lt(a.text@, b.text@) && lex_lt(b.text@, c.text@) {
            lemma_lex_lt_transitive(a.text@, b.text@, c.text@);
        }
    }

    proof fn lemma_key_lt_irreflexive(a: &Self) {
        lemma_lex_lt_irreflexive(a.text@);
    }

    fn lt(&self, other: &Self) -> (r: bool) {
        if str_lt(self.text.as_str(), other.text.as_str()) {
            true
        } else if str_eq(self.text.as_str(), other.text.as_str()) {
            self.index < other.index
        } else {
            false
        }
    }
}

impl Ranked for TextKey {
    closed spec fn position(&self) -> int {
        self.index as int
    }

    fn pos(&self) -> (r: usize) {
        self.index
    }
}

/// The stable keys of the entities of a kind, sorted.
fn keys_of_kind(snapshot: &CanonicalSnapshot, kind: &str) -> (v: Vec<String>)
    ensures
        keys_listed(v@, *snapshot, kind@),
        v@.len() == count_below(snapshot.entities@.len() as int, entity_of_kind(*snapshot, kind@)),
{
    let n = snapshot.entities.len();
    let ghost member = entity_of_kind(*snapshot, kind@);
    let mut keys: Vec<TextKey> = Vec::new();
    let mut i: usize = 0;
    while i < n
        invariant
            n == snapshot.entities@.len(),
            i <= n,
            member == entity_of_kind(*snapshot, kind@),
            forall|a: int| 0 <= a < keys@.len() ==> (#[trigger] keys@[a]).index < i
                && member(keys@[a].index as int)
                && keys@[a].text@ == snapshot.entities@[keys@[a].index as int].stable_key@,
            forall|a: int, b: int| 0 <= a < b < keys@.len() ==> (#[trigger] keys@[a]).index < (#[trigger] keys@[b]).index,
            forall|j: int| 0 <= j < i && #[trigger] member(j) ==> exists|a: int| 0 <= a < keys@.len() && (#[trigger] keys@[a]).index == j,
        decreases n - i,
    {
        let e = &snapshot.entities[i];
        let ghost before = keys@;
        if str_eq(e.kind.as_str(), kind) {
            keys.push(TextKey { text: e.stable_key.clone(), index: i });
            assert(keys@[keys@.len() - 1].index == i);
        }
        proof {
            assert forall|j: int| 0 <= j < i + 1 && #[trigger] member(j) implies exists|a: int|
                0 <= a < keys@.len() && (#[trigger] keys@[a]).index == j by {
                if j < i {
                    let a = choose|a: int| 0 <= a < before.len() && (#[trigger] before[a]).index == j;
                    assert(keys@[a] == before[a]);
                } else {
                    assert(keys@[keys@.len() - 1].index == j);
                }
            }
        }
        i = i + 1;
    }
    let ghost by_key = |a: int, b: int| stable_key_first(*snapshot, a, b);
    let order = rank_positions(keys, Ghost(n as int), Ghost(member), Ghost(by_key));
    let ghost o = as_ints(order@);
    let mut v: Vec<String> = Vec::new();
    let mut q: usize = 0;
    while q < order.len()
        invariant
            o == as_ints(order@),
            lists_exactly(o, n as int, member),
            n == snapshot.entities@.len(),
            q <= order@.len(),
            v@.len() == q,
            forall|a: int| 0 <= a < q ==> (#[trigger] v@[a])@ == snapshot.entities@[o[a]].stable_key@,
        decreases order.len() - q,
    {
        assert(0 <= o[q as int] < n);
        v.push(snapshot.entities[order[q]].stable_key.clone());
        q = q + 1;
    }
    proof {
        assert(views(v@) =~= stable_keys_at(*snapshot, o));
        assert(sorted_by(o, by_key));
        crate::sort::lemma_lists_exactly_len(o, n as int, member);
    }
    v
}

/// The module of a page builder consumer: its key after `page_builder_consumer://`,
/// else its name.
pub open spec fn consumer_module(e: Entity) -> Seq<char> {
    match strip_prefix(e.stable_key@, "page_builder_consumer://"@) {
        Some(rest) => rest,
        None => e.name@,
    }
}

/// The kinds of the first `k` diagnostics listed in `o` whose payload names `module`.
pub open spec fn module_diagnostic_kinds(s: CanonicalSnapshot, o: Seq<int>, module: Seq<char>, k: int) -> Seq<Seq<char>>
    decreases k,
{
    if k <= 0 {
        Seq::empty()
    } else {
        let prev = module_diagnostic_kinds(s, o, module, k - 1);
        let d = s.diagnostics@[o[k - 1]];
        if opt_view(d.module) == Some(module) { prev.push(d.kind@) } else { prev }
    }
}

/// The ids of the diagnostics listed in `o`.
pub open spec fn diagnostic_ids(s: CanonicalSnapshot, o: Seq<int>) -> Seq<Seq<char>> {
    Seq::new(o.len(), |i: int| s.diagnostics@[o[i]].id@)
}

/// `c` is the audit entry of the consumer at position `i`, with the diagnostics listed in `o`.
pub open spec fn consumer_of(c: RustokPageBuilderAuditConsumer, s: CanonicalSnapshot, i: int, o: Seq<int>) -> bool {
    let e = s.entities@[i];
    &&& c.id@ == e.stable_key@
    &&& c.module@ == consumer_module(e)
    &&& views(c.diagnostics@) == module_diagnostic_kinds(s, o, consumer_module(e), o.len() as int)
}

/// Consumer order by module, ties by position.
pub open spec fn consumer_first(s: CanonicalSnapshot, a: int, b: int) -> bool {
    lex_lt(consumer_module(s.entities@[a]), consumer_module(s.entities@[b]))
        || (consumer_module(s.entities@[a]) == consumer_module(s.entities@[b]) && a < b)
}

/// `a` is the page builder audit of the snapshot.
pub open spec fn page_builder_audit_of(a: RustokPageBuilderAudit, s: CanonicalSnapshot) -> bool {
    &&& a.schema@ == RUSTOK_PAGE_BUILDER_AUDIT_SCHEMA@
    &&& a.snapshot@ == snapshot_name(s.snapshot)
    &&& keys_listed(a.providers@, s, "rustok_page_builder_provider"@)
    &&& keys_listed(a.contracts@, s, "rustok_page_builder_contract"@)
    &&& keys_listed(a.capabilities@, s, "rustok_page_builder_capability"@)
    &&& keys_listed(a.fallback_profiles@, s, "rustok_page_builder_fallback_profile"@)
    &&& keys_listed(a.wave_evidence@, s, "rustok_page_builder_wave_evidence"@)
    &&& exists|o: Seq<int>, co: Seq<int>| {
        &&& #[trigger] selected_in_id_order(o, s, "rustok_page_builder_"@, None, None)
        &&& views(a.diagnostics@) == diagnostic_ids(s, o)
        &&& #[trigger] lists_exactly(co, s.entities@.len() as int, entity_of_kind(s, "rustok_page_builder_consumer"@))
        &&& sorted_by(co, |x: int, y: int| consumer_first(s, x, y))
        &&& a.consumers@.len() == co.len()
        &&& forall|i: int| 0 <= i < co.len() ==> consumer_of(#[trigger] a.consumers@[i], s, co[i], o)
    }
    &&& a.summary.providers_total == a.providers@.len()
    &&& a.summary.consumers_total == a.consumers@.len()
    &&& a.summary.contracts_total == a.contracts@.len()
    &&& a.summary.capabilities_total == a.capabilities@.len()
    &&& a.summary.fallback_profiles_total == a.fallback_profiles@.len()
    &&& a.summary.wave_evidence_total == a.wave_evidence@.len()
    &&& a.summary.diagnostics_open == a.diagnostics@.len()
}

/// The module of a page builder consumer, as `consumer_module` says.
fn consumer_module_of(e: &Entity) -> (r: String)
    ensures
        r@ == consumer_module(*e),
{
    match strip_prefix_chars(e.stable_key.as_str(), "page_builder_consumer://") {
        Some(rest) => string_of_chars(rest.as_slice()),
        None => e.name.clone(),
    }
}

/// The audit entry of the consumer at position `i`.
fn consumer_entry(snapshot: &CanonicalSnapshot, i: usize, o: &Vec<usize>) -> (c: RustokPageBuilderAuditConsumer)
    requires
        i < snapshot.entities@.len(),
        forall|q: int| 0 <= q < o@.len() ==> (#[trigger] o@[q]) < snapshot.diagnostics@.len(),
    ensures
        consumer_of(c, *snapshot, i as int, as_ints(o@)),
{
    let e = &snapshot.entities[i];
    let module = consumer_module_of(e);
    let ghost os = as_ints(o@);
    let mut kinds: Vec<String> = Vec::new();
    let mut q: usize = 0;
    while q < o.len()
        invariant
            forall|x: int| 0 <= x < o@.len() ==> (#[trigger] o@[x]) < snapshot.diagnostics@.len(),
            os == as_ints(o@),
            q <= o@.len(),
            views(kinds@) == module_diagnostic_kinds(*snapshot, os, module@, q as int),
        decreases o.len() - q,
    {
        let d = &snapshot.diagnostics[o[q]];
        let hit = match &d.module {
            Some(m) => str_eq(m.as_str(), module.as_str()),
            None => false,
        };
        if hit {
            kinds.push(d.kind.clone());
        }
        q = q + 1;
        assert(views(kinds@) =~= module_diagnostic_kinds(*snapshot, os, module@, q as int));
    }
    RustokPageBuilderAuditConsumer { id: e.stable_key.clone(), module, diagnostics: kinds }
}

/// Audits the page builder: the stable keys of its providers, contracts, capabilities,
/// fallback profiles and wave evidence, each sorted; its consumers by module with the
/// kinds of their diagnostics; and the ids of all page builder diagnostics.
pub fn build_rustok_page_builder_audit(snapshot: &CanonicalSnapshot) -> (r: RustokPageBuilderAudit)
    ensures
        page_builder_audit_of(r, *snapshot),
{
    let o = select_diagnostics(snapshot, "rustok_page_builder_", None, None);
    let ghost os = as_ints(o@);
    proof {
        assert forall|q: int| 0 <= q < o@.len() implies (#[trigger] o@[q]) < snapshot.diagnostics@.len() by {
            assert(0 <= os[q] < snapshot.diagnostics@.len());
        }
    }
    let n = snapshot.entities.len();
    let ghost member = entity_of_kind(*snapshot, "rustok_page_builder_consumer"@);
    let mut keys: Vec<TextKey> = Vec::new();
    let mut i: usize = 0;
    while i < n
        invariant
            n == snapshot.entities@.len(),
            i <= n,
            member == entity_of_kind(*snapshot, "rustok_page_builder_consumer"@),
            forall|a: int| 0 <= a < keys@.len() ==> (#[trigger] keys@[a]).index < i
                && member(keys@[a].index as int)
                && keys@[a].text@ == consumer_module(snapshot.entities@[keys@[a].index as int]),
            forall|a: int, b: int| 0 <= a < b < keys@.len() ==> (#[trigger] keys@[a]).index < (#[trigger] keys@[b]).index,
            forall|j: int| 0 <= j < i && #[trigger] member(j) ==> exists|a: int| 0 <= a < keys@.len() && (#[trigger] keys@[a]).index == j,
        decreases n - i,
    {
        let e = &snapshot.entities[i];
        let ghost before = keys@;
        if str_eq(e.kind.as_str(), "rustok_page_builder_consumer") {
            keys.push(TextKey { text: consumer_module_of(e), index: i });
            assert(keys@[keys@.len() - 1].index == i);
        }
        proof {
            assert forall|j: int| 0 <= j < i + 1 && #[trigger] member(j) implies exists|a: int|
                0 <= a < keys@.len() && (#[trigger] keys@[a]).index == j by {
                if j < i {
                    let a = choose|a: int| 0 <= a < before.len() && (#[trigger] before[a]).index == j;
                    assert(keys@[a] == before[a]);
                } else {
                    assert(keys@[keys@.len() - 1].index == j);
                }
            }
        }
        i = i + 1;
    }
    let ghost by_module = |a: int, b: int| consumer_first(*snapshot, a, b);
    let order = rank_positions(keys, Ghost(n as int), Ghost(member), Ghost(by_module));
    let ghost co = as_ints(order@);
    let mut consumers: Vec<RustokPageBuilderAuditConsumer> = Vec::new();
    let mut q: usize = 0;
    while q < order.len()
        invariant
            co == as_ints(order@),
            lists_exactly(co, n as int, member),
            n == snapshot.entities@.len(),
            forall|x: int| 0 <= x < o@.len() ==> (#[trigger] o@[x]) < snapshot.diagnostics@.len(),
            os == as_ints(o@),
            q <= order@.len(),
            consumers@.len() == q,
            forall|a: int| 0 <= a < q ==> consumer_of(#[trigger] consumers@[a], *snapshot, co[a], os),
        decreases order.len() - q,
    {
        assert(0 <= co[q as int] < n);
        consumers.push(consumer_entry(snapshot, order[q], &o));
        q = q + 1;
    }
    let mut ids: Vec<String> = Vec::new();
    let mut k: usize = 0;
    while k < o.len()
        invariant
            forall|x: int| 0 <= x < o@.len() ==> (#[trigger] o@[x]) < snapshot.diagnostics@.len(),
            os == as_ints(o@),
            k <= o@.len(),
            ids@.len() == k,
            forall|a: int| 0 <= a < k ==> (#[trigger] ids@[a])@ == snapshot.diagnostics@[os[a]].id@,
        decreases o.len() - k,
    {
        ids.push(snapshot.diagnostics[o[k]].id.clone());
        k = k + 1;
    }
    assert(views(ids@) =~= diagnostic_ids(*snapshot, os));
    let providers = keys_of_kind(snapshot, "rustok_page_builder_provider");
    let contracts = keys_of_kind(snapshot, "rustok_page_builder_contract");
    let capabilities = keys_of_kind(snapshot, "rustok_page_builder_capability");
    let fallback_profiles = keys_of_kind(snapshot, "rustok_page_builder_fallback_profile");
    let wave_evidence = keys_of_kind(snapshot, "rustok_page_builder_wave_evidence");
    let summary = RustokPageBuilderAuditSummary {
        providers_total: providers.len(),
        consumers_total: consumers.len(),
        contracts_total: contracts.len(),
        capabilities_total: capabilities.len(),
        fallback_profiles_total: fallback_profiles.len(),
        wave_evidence_total: wave_evidence.len(),
        diagnostics_open: ids.len(),
    };
    proof {
        assert(sorted_by(co, by_module));
        assert(selected_in_id_order(os, *snapshot, "rustok_page_builder_"@, None, None));
    }
    RustokPageBuilderAudit {
        schema: String::from_str(RUSTOK_PAGE_BUILDER_AUDIT_SCHEMA),
        snapshot: snapshot_id(snapshot),
        summary,
        providers,
        consumers,
        contracts,
        capabilities,
        fallback_profiles,
        wave_evidence,
        diagnostics: ids,
    }
}

/// The FBA audit of a snapshot.
pub struct RustokFbaAudit {
    pub schema: String,
    pub snapshot: String,
    pub summary: RustokFbaAuditSummary,
    pub modules: Vec<RustokFbaAuditModule>,
}

/// How many modules, providers, consumers, ports, operations and open diagnostics the
/// audit found.
pub struct RustokFbaAuditSummary {
    pub modules_total: usize,
    pub provider_modules: usize,
    pub consumer_modules: usize,
    pub ports_total: usize,
    pub operations_total: usize,
    pub diagnostics_open: usize,
}

/// One backend module with its registry data, ports, operations, dependencies and
/// diagnostic kinds.
pub struct RustokFbaAuditModule {
    pub id: String,
    pub module: String,
    pub role: Option<String>,
    pub status: Option<String>,
    pub contract_version: Option<String>,
    pub ports: Vec<String>,
    pub operations: Vec<String>,
    pub dependencies: Vec<String>,
    pub diagnostics: Vec<String>,
}

/// What an entity key lists under a module: its port (`Port`), its `port.operation`
/// (`Operation`), or the `provider:profile` it depends on (`Dependency`).
pub enum FbaListing {
    Port,
    Operation,
    Dependency,
}

/// The module and the listed value an entity key gives.
pub open spec fn listing_entry(which: FbaListing, key: Seq<char>) -> Option<(Seq<char>, Seq<char>)> {
    match which {
        FbaListing::Port => match fba_port_parts(key) {
            Some(p) => Some((p[0], p[1])),
            None => None,
        },
        FbaListing::Operation => match fba_operation_parts(key) {
            Some(p) => Some((p[0], p[1] + "."@ + p[2])),
            None => None,
        },
        FbaListing::Dependency => match fba_dependency_parts(key) {
            Some(p) => Some((p[0], p[1] + ":"@ + p[2])),
            None => None,
        },
    }
}

/// The values listed under `module` by the first `k` entities.
pub open spec fn listed_upto(s: CanonicalSnapshot, which: FbaListing, module: Seq<char>, k: int) -> Set<Seq<char>> {
    Set::new(|x: Seq<char>| exists|i: int| 0 <= i < k && #[trigger] listing_entry(which, s.entities@[i].stable_key@) == Some((module, x)))
}

/// The values listed under `module`.
pub open spec fn listed(s: CanonicalSnapshot, which: FbaListing, module: Seq<char>) -> Set<Seq<char>> {
    listed_upto(s, which, module, s.entities@.len() as int)
}

/// The module of a contract key's parts.
pub open spec fn contract_module(parts: (Seq<char>, Seq<char>)) -> Seq<char> {
    parts.0
}

/// The module an entity key names, whatever the FBA kind.
pub open spec fn fba_key_module(key: Seq<char>) -> Option<Seq<char>> {
    if fba_module_part(key) is Some {
        fba_module_part(key)
    } else if fba_contract_parts(key) is Some {
        Some(contract_module(fba_contract_parts(key)->0))
    } else if fba_port_parts(key) is Some {
        Some(fba_port_parts(key)->0[0])
    } else if fba_operation_parts(key) is Some {
        Some(fba_operation_parts(key)->0[0])
    } else if fba_dependency_parts(key) is Some {
        Some(fba_dependency_parts(key)->0[0])
    } else {
        None
    }
}

/// A registry fact about a module.
pub open spec fn registry_fact(f: Fact) -> bool {
    f.kind@ == "rustok_fba_registry"@ && f.module is Some
}

/// The modules of the audit: those an entity key names, those an FBA diagnostic names,
/// and those a registry fact names.
pub open spec fn fba_module_name(s: CanonicalSnapshot, m: Seq<char>) -> bool {
    ||| exists|i: int| 0 <= i < s.entities@.len() && #[trigger] fba_key_module(s.entities@[i].stable_key@) == Some(m)
    ||| exists|i: int| 0 <= i < s.diagnostics@.len() && diagnostic_selected(#[trigger] s.diagnostics@[i], "rustok_fba_"@, None, None)
        && opt_view(s.diagnostics@[i].module) == Some(m)
    ||| exists|i: int| 0 <= i < s.facts@.len() && registry_fact(#[trigger] s.facts@[i]) && opt_view(s.facts@[i].module) == Some(m)
}

/// The role the module entities give `module`: the first one that has a role.
pub open spec fn entity_role(ents: Seq<Entity>, module: Seq<char>) -> Option<Seq<char>>
    decreases ents.len(),
{
    if ents.len() == 0 {
        None
    } else {
        let prev = entity_role(ents.drop_last(), module);
        if prev is Some {
            prev
        } else if fba_module_part(ents.last().stable_key@) == Some(module) {
            opt_view(ents.last().role)
        } else {
            None
        }
    }
}

/// The contract version the contract entities give `module`: that of the last one, if
/// there is one.
pub open spec fn entity_contract_version(ents: Seq<Entity>, module: Seq<char>) -> Option<Option<Seq<char>>>
    decreases ents.len(),
{
    if ents.len() == 0 {
        None
    } else if fba_contract_parts(ents.last().stable_key@) matches Some((m, _)) && m == module {
        Some(opt_view(ents.last().contract_version))
    } else {
        entity_contract_version(ents.drop_last(), module)
    }
}

/// Which field of a registry fact.
pub enum RegistryField {
    Role,
    Status,
    ContractVersion,
}

/// A field of a fact.
pub open spec fn fact_field(f: Fact, field: RegistryField) -> Option<Seq<char>> {
    match field {
        RegistryField::Role => opt_view(f.role),
        RegistryField::Status => opt_view(f.status),
        RegistryField::ContractVersion => opt_view(f.contract_version),
    }
}

/// The field as the last registry fact about `module` that has it gives it.
pub open spec fn registry_value(facts: Seq<Fact>, module: Seq<char>, field: RegistryField) -> Option<Seq<char>>
    decreases facts.len(),
{
    if facts.len() == 0 {
        None
    } else if registry_fact(facts.last()) && opt_view(facts.last().module) == Some(module) && fact_field(facts.last(), field) is Some {
        fact_field(facts.last(), field)
    } else {
        registry_value(facts.drop_last(), module, field)
    }
}

/// The role of `module`: the registry's, else the module entities'.
pub open spec fn module_role(s: CanonicalSnapshot, module: Seq<char>) -> Option<Seq<char>> {
    match registry_value(s.facts@, module, RegistryField::Role) {
        Some(r) => Some(r),
        None => entity_role(s.entities@, module),
    }
}

/// The contract version of `module`: the registry's, else the contract entities'.
pub open spec fn module_contract_version(s: CanonicalSnapshot, module: Seq<char>) -> Option<Seq<char>> {
    match registry_value(s.facts@, module, RegistryField::ContractVersion) {
        Some(v) => Some(v),
        None => match entity_contract_version(s.entities@, module) {
            Some(v) => v,
            None => None,
        },
    }
}

/// `a` is the audit entry of `module`, with the diagnostics listed in `o`.
pub open spec fn fba_module_of(a: RustokFbaAuditModule, s: CanonicalSnapshot, module: Seq<char>, o: Seq<int>) -> bool {
    &&& a.id@ == "fba_module://"@ + module
    &&& a.module@ == module
    &&& opt_view(a.role) == module_role(s, module)
    &&& opt_view(a.status) == registry_value(s.facts@, module, RegistryField::Status)
    &&& opt_view(a.contract_version) == module_contract_version(s, module)
    &&& is_str_set(a.ports@) && set_of(a.ports@) == listed(s, FbaListing::Port, module)
    &&& is_str_set(a.operations@) && set_of(a.operations@) == listed(s, FbaListing::Operation, module)
    &&& is_str_set(a.dependencies@) && set_of(a.dependencies@) == listed(s, FbaListing::Dependency, module)
    &&& views(a.diagnostics@) == module_diagnostic_kinds(s, o, module, o.len() as int)
}

/// A role of a consuming module.
pub open spec fn consumer_role(role: Option<Seq<char>>) -> bool {
    role == Some("consumer"@) || role == Some("orchestrator_consumer"@) || role == Some("consumer_support_adapter"@)
}

/// The FBA audit counts as consumer modules those in the roles `consumer`,
/// `orchestrator_consumer` and `consumer_support_adapter`: a module in any of them makes the
/// count positive.
pub proof fn lemma_fba_consumer_role_counted(a: RustokFbaAudit, s: CanonicalSnapshot, i: int)
    requires
        fba_audit_of(a, s),
        0 <= i < a.modules@.len(),
        opt_view(a.modules@[i].role) == Some("consumer"@)
            || opt_view(a.modules@[i].role) == Some("orchestrator_consumer"@)
            || opt_view(a.modules@[i].role) == Some("consumer_support_adapter"@),
    ensures
        a.summary.consumer_modules >= 1,
{
    lemma_count_below_member(a.modules@.len() as int, |k: int| consumer_role(opt_view(a.modules@[k].role)), i);
}

/// Modules without a role, or in the provider role, are not consumer modules.
pub proof fn lemma_fba_providers_not_consumers(a: RustokFbaAudit, s: CanonicalSnapshot)
    requires
        fba_audit_of(a, s),
        forall|i: int| 0 <= i < a.modules@.len() ==> #[trigger] opt_view(a.modules@[i].role) is None
            || opt_view(a.modules@[i].role) == Some("provider"@),
    ensures
        a.summary.consumer_modules == 0,
{
    reveal_strlit("provider");
    reveal_strlit("consumer");
    reveal_strlit("orchestrator_consumer");
    reveal_strlit("consumer_support_adapter");
    assert("provider"@[0] != "consumer"@[0]);
    assert("provider"@[0] != "orchestrator_consumer"@[0]);
    assert("provider"@[0] != "consumer_support_adapter"@[0]);
    let member = |k: int| consumer_role(opt_view(a.modules@[k].role));
    assert forall|k: int| 0 <= k < a.modules@.len() implies !#[trigger] member(k) by {
        assert(opt_view(a.modules@[k].role) is None || opt_view(a.modules@[k].role) == Some("provider"@));
    }
    lemma_count_below_none(a.modules@.len() as int, member);
}

/// Some entity lists the pair `p` of a module and a value.
pub open spec fn listed_pair(s: CanonicalSnapshot, which: FbaListing, p: (Seq<char>, Seq<char>)) -> bool {
    exists|i: int| 0 <= i < s.entities@.len() && #[trigger] listing_entry(which, s.entities@[i].stable_key@) == Some(p)
}

/// How many distinct module and value pairs the entities list.
pub open spec fn listed_pair_count(s: CanonicalSnapshot, which: FbaListing, count: nat) -> bool {
    exists|pairs: Seq<(Seq<char>, Seq<char>)>| {
        &&& pairs.no_duplicates()
        &&& forall|p: (Seq<char>, Seq<char>)| #[trigger] pairs.contains(p) <==> listed_pair(s, which, p)
        &&& pairs.len() == count
    }
}

/// `a` is the FBA audit of the snapshot.
pub open spec fn fba_audit_of(a: RustokFbaAudit, s: CanonicalSnapshot) -> bool {
    &&& a.schema@ == RUSTOK_FBA_AUDIT_SCHEMA@
    &&& a.snapshot@ == snapshot_name(s.snapshot)
    &&& exists|o: Seq<int>, names: Seq<Seq<char>>| {
        &&& #[trigger] selected_in_id_order(o, s, "rustok_fba_"@, None, None)
        &&& #[trigger] crate::strset::strictly_sorted(names)
        &&& forall|m: Seq<char>| #[trigger] names.contains(m) <==> fba_module_name(s, m)
        &&& a.modules@.len() == names.len()
        &&& forall|i: int| 0 <= i < names.len() ==> fba_module_of(#[trigger] a.modules@[i], s, names[i], o)
        &&& a.summary.diagnostics_open == count_below(o.len() as int, |q: int| s.diagnostics@[o[q]].module is Some)
    }
    &&& a.summary.modules_total == a.modules@.len()
    &&& a.summary.provider_modules == count_below(a.modules@.len() as int, |i: int| opt_view(a.modules@[i].role) == Some("provider"@))
    &&& a.summary.consumer_modules == count_below(a.modules@.len() as int, |i: int| consumer_role(opt_view(a.modules@[i].role)))
    &&& listed_pair_count(s, FbaListing::Port, a.summary.ports_total as nat)
    &&& listed_pair_count(s, FbaListing::Operation, a.summary.operations_total as nat)
}

/// The module and listed value of an entity key, as `listing_entry` says.
fn listing_of(key: &str, which: &FbaListing) -> (r: Option<(String, String)>)
    ensures
        opt_pair_view(r) == listing_entry(*which, key@),
{
    match which {
        FbaListing::Port => match parse_fba_port_key(key) {
            Some((m, p)) => Some((m, p)),
            None => None,
        },
        FbaListing::Operation => match parse_fba_operation_key(key) {
            Some((m, p, op)) => {
                let mut v = p;
                proof {
                    reveal_strlit(".");
                }
                v.append(".");
                v.append(op.as_str());
                Some((m, v))
            },
            None => None,
        },
        FbaListing::Dependency => match parse_fba_dependency_key(key) {
            Some((c, p, f)) => {
                let mut v = p;
                proof {
                    reveal_strlit(":");
                }
                v.append(":");
                v.append(f.as_str());
                Some((c, v))
            },
            None => None,
        },
    }
}

/// The values the entities list under `module`, as an ordered set.
fn listed_values(snapshot: &CanonicalSnapshot, which: &FbaListing, module: &String) -> (v: Vec<String>)
    ensures
        is_str_set(v@),
        set_of(v@) == listed(*snapshot, *which, module@),
{
    let mut v = set_new();
    let mut i: usize = 0;
    assert(set_of(v@) =~= listed_upto(*snapshot, *which, module@, 0));
    while i < snapshot.entities.len()
        invariant
            i <= snapshot.entities@.len(),
            is_str_set(v@),
            set_of(v@) == listed_upto(*snapshot, *which, module@, i as int),
        decreases snapshot.entities.len() - i,
    {
        let ghost before = set_of(v@);
        let entry = listing_of(snapshot.entities[i].stable_key.as_str(), which);
        let ghost e = listing_entry(*which, snapshot.entities@[i as int].stable_key@);
        match entry {
            Some((m, x)) => {
                if str_eq(m.as_str(), module.as_str()) {
                    set_insert(&mut v, x);
                }
            },
            None => {},
        }
        proof {
            assert(set_of(v@) =~= listed_upto(*snapshot, *which, module@, i + 1)) by {
                assert forall|y: Seq<char>| listed_upto(*snapshot, *which, module@, i + 1).contains(y) implies set_of(v@).contains(y) by {
                    let w = choose|w: int| 0 <= w < i + 1 && #[trigger] listing_entry(*which, snapshot.entities@[w].stable_key@) == Some((module@, y));
                    if w < i {
                        assert(listed_upto(*snapshot, *which, module@, i as int).contains(y));
                    }
                }
                assert forall|y: Seq<char>| set_of(v@).contains(y) implies listed_upto(*snapshot, *which, module@, i + 1).contains(y) by {
                    if before.contains(y) {
                        let w = choose|w: int| 0 <= w < i && #[trigger] listing_entry(*which, snapshot.entities@[w].stable_key@) == Some((module@, y));
                        assert(listing_entry(*which, snapshot.entities@[w].stable_key@) == Some((module@, y)));
                    } else {
                        assert(listing_entry(*which, snapshot.entities@[i as int].stable_key@) == Some((module@, y)));
                    }
                }
            }
        }
        i = i + 1;
    }
    v
}

/// How many distinct module and value pairs the entities list.
fn listed_pair_total(snapshot: &CanonicalSnapshot, which: &FbaListing) -> (r: usize)
    ensures
        listed_pair_count(*snapshot, *which, r as nat),
{
    let mut offers: Vec<Option<(String, String)>> = Vec::new();
    let mut i: usize = 0;
    while i < snapshot.entities.len()
        invariant
            i <= snapshot.entities@.len(),
            offers@.len() == i,
            forall|k: int| 0 <= k < i ==> opt_pair_view(#[trigger] offers@[k]) == listing_entry(*which, snapshot.entities@[k].stable_key@),
        decreases snapshot.entities.len() - i,
    {
        offers.push(listing_of(snapshot.entities[i].stable_key.as_str(), which));
        i = i + 1;
    }
    let pairs = distinct_pairs(&offers);
    proof {
        let pv = pair_views(pairs@);
        assert forall|p: (Seq<char>, Seq<char>)| #[trigger] pv.contains(p) <==> listed_pair(*snapshot, *which, p) by {
            assert(pv.contains(p) == offered(offers@, p));
            if offered(offers@, p) {
                let k = choose|k: int| 0 <= k < offers@.len() && #[trigger] opt_pair_view(offers@[k]) == Some(p);
                assert(listing_entry(*which, snapshot.entities@[k].stable_key@) == Some(p));
            }
            if listed_pair(*snapshot, *which, p) {
                let k = choose|k: int| 0 <= k < snapshot.entities@.len() && #[trigger] listing_entry(*which, snapshot.entities@[k].stable_key@) == Some(p);
                assert(opt_pair_view(offers@[k]) == Some(p));
            }
        }
    }
    pairs.len()
}

/// The module an entity key names, as `fba_key_module` says.
fn key_module(key: &str) -> (r: Option<String>)
    ensures
        opt_view(r) == fba_key_module(key@),
{
    match parse_fba_module_key(key) {
        Some(m) => {
            return Some(m);
        },
        None => {},
    }
    match parse_fba_contract_key(key) {
        Some((m, _c)) => {
            return Some(m);
        },
        None => {},
    }
    match parse_fba_port_key(key) {
        Some((m, _p)) => {
            return Some(m);
        },
        None => {},
    }
    match parse_fba_operation_key(key) {
        Some((m, _p, _o)) => {
            return Some(m);
        },
        None => {},
    }
    match parse_fba_dependency_key(key) {
        Some((c, _p, _f)) => Some(c),
        None => None,
    }
}

/// The names of the audited modules, as an ordered set.
fn fba_module_names(snapshot: &CanonicalSnapshot) -> (names: Vec<String>)
    ensures
        is_str_set(names@),
        forall|m: Seq<char>| #[trigger] set_of(names@).contains(m) <==> fba_module_name(*snapshot, m),
{
    let mut names = set_new();
    let mut i: usize = 0;
    while i < snapshot.entities.len()
        invariant
            i <= snapshot.entities@.len(),
            is_str_set(names@),
            forall|m: Seq<char>| #[trigger] set_of(names@).contains(m) <==>
                exists|k: int| 0 <= k < i && #[trigger] fba_key_module(snapshot.entities@[k].stable_key@) == Some(m),
        decreases snapshot.entities.len() - i,
    {
        let ghost before = set_of(names@);
        match key_module(snapshot.entities[i].stable_key.as_str()) {
            Some(m) => {
                set_insert(&mut names, m);
            },
            None => {},
        }
        proof {
            assert forall|m: Seq<char>| #[trigger] set_of(names@).contains(m) <==>
                exists|k: int| 0 <= k < i + 1 && #[trigger] fba_key_module(snapshot.entities@[k].stable_key@) == Some(m) by {
                if set_of(names@).contains(m) && before.contains(m) {
                    let k = choose|k: int| 0 <= k < i && #[trigger] fba_key_module(snapshot.entities@[k].stable_key@) == Some(m);
                    assert(fba_key_module(snapshot.entities@[k].stable_key@) == Some(m));
                }
                if exists|k: int| 0 <= k < i + 1 && #[trigger] fba_key_module(snapshot.entities@[k].stable_key@) == Some(m) {
                    let k = choose|k: int| 0 <= k < i + 1 && #[trigger] fba_key_module(snapshot.entities@[k].stable_key@) == Some(m);
                    if k < i {
                        assert(before.contains(m));
                    }
                }
            }
        }
        i = i + 1;
    }
    let mut d: usize = 0;
    let pc = to_chars("rustok_fba_");
    while d < snapshot.diagnostics.len()
        invariant
            d <= snapshot.diagnostics@.len(),
            pc@ == "rustok_fba_"@,
            is_str_set(names@),
            forall|m: Seq<char>| #[trigger] set_of(names@).contains(m) <==>
                (exists|k: int| 0 <= k < snapshot.entities@.len() && #[trigger] fba_key_module(snapshot.entities@[k].stable_key@) == Some(m))
                || (exists|k: int| 0 <= k < d && diagnostic_selected(#[trigger] snapshot.diagnostics@[k], "rustok_fba_"@, None, None)
                    && opt_view(snapshot.diagnostics@[k].module) == Some(m)),
        decreases snapshot.diagnostics.len() - d,
    {
        let ghost before = set_of(names@);
        let dg = &snapshot.diagnostics[d];
        let kc = to_chars(dg.kind.as_str());
        if starts_with_chars(kc.as_slice(), pc.as_slice()) {
            match &dg.module {
                Some(m) => {
                    set_insert(&mut names, m.clone());
                },
                None => {},
            }
        }
        proof {
            assert forall|m: Seq<char>| #[trigger] set_of(names@).contains(m) <==>
                (exists|k: int| 0 <= k < snapshot.entities@.len() && #[trigger] fba_key_module(snapshot.entities@[k].stable_key@) == Some(m))
                || (exists|k: int| 0 <= k < d + 1 && diagnostic_selected(#[trigger] snapshot.diagnostics@[k], "rustok_fba_"@, None, None)
                    && opt_view(snapshot.diagnostics@[k].module) == Some(m)) by {
                if exists|k: int| 0 <= k < d + 1 && diagnostic_selected(#[trigger] snapshot.diagnostics@[k], "rustok_fba_"@, None, None)
                    && opt_view(snapshot.diagnostics@[k].module) == Some(m) {
                    let k = choose|k: int| 0 <= k < d + 1 && diagnostic_selected(#[trigger] snapshot.diagnostics@[k], "rustok_fba_"@, None, None)
                        && opt_view(snapshot.diagnostics@[k].module) == Some(m);
                    if k < d {
                        assert(before.contains(m));
                    }
                }
                if set_of(names@).contains(m) && !before.contains(m) {
                    assert(diagnostic_selected(snapshot.diagnostics@[d as int], "rustok_fba_"@, None, None));
                }
            }
        }
        d = d + 1;
    }
    let mut f: usize = 0;
    while f < snapshot.facts.len()
        invariant
            f <= snapshot.facts@.len(),
            is_str_set(names@),
            forall|m: Seq<char>| #[trigger] set_of(names@).contains(m) <==>
                (exists|k: int| 0 <= k < snapshot.entities@.len() && #[trigger] fba_key_module(snapshot.entities@[k].stable_key@) == Some(m))
                || (exists|k: int| 0 <= k < snapshot.diagnostics@.len() && diagnostic_selected(#[trigger] snapshot.diagnostics@[k], "rustok_fba_"@, None, None)
                    && opt_view(snapshot.diagnostics@[k].module) == Some(m))
                || (exists|k: int| 0 <= k < f && registry_fact(#[trigger] snapshot.facts@[k]) && opt_view(snapshot.facts@[k].module) == Some(m)),
        decreases snapshot.facts.len() - f,
    {
        let ghost before = set_of(names@);
        let fact = &snapshot.facts[f];
        if str_eq(fact.kind.as_str(), "rustok_fba_registry") {
            match &fact.module {
                Some(m) => {
                    set_insert(&mut names, m.clone());
                },
                None => {},
            }
        }
        proof {
            assert forall|m: Seq<char>| #[trigger] set_of(names@).contains(m) <==>
                (exists|k: int| 0 <= k < snapshot.entities@.len() && #[trigger] fba_key_module(snapshot.entities@[k].stable_key@) == Some(m))
                || (exists|k: int| 0 <= k < snapshot.diagnostics@.len() && diagnostic_selected(#[trigger] snapshot.diagnostics@[k], "rustok_fba_"@, None, None)
                    && opt_view(snapshot.diagnostics@[k].module) == Some(m))
                || (exists|k: int| 0 <= k < f + 1 && registry_fact(#[trigger] snapshot.facts@[k]) && opt_view(snapshot.facts@[k].module) == Some(m)) by {
                if exists|k: int| 0 <= k < f + 1 && registry_fact(#[trigger] snapshot.facts@[k]) && opt_view(snapshot.facts@[k].module) == Some(m) {
                    let k = choose|k: int| 0 <= k < f + 1 && registry_fact(#[trigger] snapshot.facts@[k]) && opt_view(snapshot.facts@[k].module) == Some(m);
                    if k < f {
                        assert(before.contains(m));
                    }
                }
                if set_of(names@).contains(m) && !before.contains(m) {
                    assert(registry_fact(snapshot.facts@[f as int]));
                }
            }
        }
        f = f + 1;
    }
    names
}

/// The role the module entities give `module`, as `entity_role` says.
fn entity_role_of(snapshot: &CanonicalSnapshot, module: &String) -> (r: Option<String>)
    ensures
        opt_view(r) == entity_role(snapshot.entities@, module@),
{
    let mut r: Option<String> = None;
    let mut i: usize = 0;
    while i < snapshot.entities.len()
        invariant
            i <= snapshot.entities@.len(),
            opt_view(r) == entity_role(snapshot.entities@.take(i as int), module@),
        decreases snapshot.entities.len() - i,
    {
        let e = &snapshot.entities[i];
        assert(snapshot.entities@.take(i + 1).drop_last() =~= snapshot.entities@.take(i as int));
        if r.is_none() {
            match parse_fba_module_key(e.stable_key.as_str()) {
                Some(m) => {
                    if str_eq(m.as_str(), module.as_str()) {
                        r = match &e.role {
                            None => None,
                            Some(x) => Some(x.clone()),
                        };
                    }
                },
                None => {},
            }
        }
        i = i + 1;
    }
    assert(snapshot.entities@.take(i as int) =~= snapshot.entities@);
    r
}

/// The contract version the contract entities give `module`, as
/// `entity_contract_version` says.
fn entity_contract_version_of(snapshot: &CanonicalSnapshot, module: &String) -> (r: Option<Option<String>>)
    ensures
        match r {
            None => entity_contract_version(snapshot.entities@, module@) is None,
            Some(v) => entity_contract_version(snapshot.entities@, module@) == Some(opt_view(v)),
        },
{
    let mut i: usize = snapshot.entities.len();
    assert(snapshot.entities@.take(i as int) =~= snapshot.entities@);
    while i > 0
        invariant
            i <= snapshot.entities@.len(),
            entity_contract_version(snapshot.entities@, module@) == entity_contract_version(snapshot.entities@.take(i as int), module@),
        decreases i,
    {
        let e = &snapshot.entities[i - 1];
        assert(snapshot.entities@.take(i as int).last() == snapshot.entities@[i - 1]);
        assert(snapshot.entities@.take(i as int).drop_last() =~= snapshot.entities@.take(i - 1));
        match parse_fba_contract_key(e.stable_key.as_str()) {
            Some((m, _c)) => {
                if str_eq(m.as_str(), module.as_str()) {
                    return Some(match &e.contract_version {
                        None => None,
                        Some(x) => Some(x.clone()),
                    });
                }
            },
            None => {},
        }
        i = i - 1;
    }
    None
}

/// A field of a fact.
fn fact_field_of<'a>(f: &'a Fact, field: &RegistryField) -> (r: &'a Option<String>)
    ensures
        opt_view(*r) == fact_field(*f, *field),
{
    match field {
        RegistryField::Role => &f.role,
        RegistryField::Status => &f.status,
        RegistryField::ContractVersion => &f.contract_version,
    }
}

/// The field as the last registry fact about `module` that has it gives it, as
/// `registry_value` says.
fn registry_value_of(snapshot: &CanonicalSnapshot, module: &String, field: &RegistryField) -> (r: Option<String>)
    ensures
        opt_view(r) == registry_value(snapshot.facts@, module@, *field),
{
    let mut i: usize = snapshot.facts.len();
    assert(snapshot.facts@.take(i as int) =~= snapshot.facts@);
    while i > 0
        invariant
            i <= snapshot.facts@.len(),
            registry_value(snapshot.facts@, module@, *field) == registry_value(snapshot.facts@.take(i as int), module@, *field),
        decreases i,
    {
        let f = &snapshot.facts[i - 1];
        assert(snapshot.facts@.take(i as int).last() == snapshot.facts@[i - 1]);
        assert(snapshot.facts@.take(i as int).drop_last() =~= snapshot.facts@.take(i - 1));
        if str_eq(f.kind.as_str(), "rustok_fba_registry") {
            match &f.module {
                Some(m) => {
                    if str_eq(m.as_str(), module.as_str()) {
                        match fact_field_of(f, field) {
                            Some(x) => {
                                return Some(x.clone());
                            },
                            None => {},
                        }
                    }
                },
                None => {},
            }
        }
        i = i - 1;
    }
    None
}

/// `"fba_module://"` followed by the module.
fn module_id(module: &String) -> (r: String)
    ensures
        r@ == "fba_module://"@ + module@,
{
    let mut r = String::from_str("fba_module://");
    r.append(module.as_str());
    r
}

/// The audit entry of `module`.
fn fba_module_entry(snapshot: &CanonicalSnapshot, o: &Vec<usize>, module: &String) -> (a: RustokFbaAuditModule)
    requires
        forall|q: int| 0 <= q < o@.len() ==> (#[trigger] o@[q]) < snapshot.diagnostics@.len(),
    ensures
        fba_module_of(a, *snapshot, module@, as_ints(o@)),
{
    let ghost os = as_ints(o@);
    let role = match registry_value_of(snapshot, module, &RegistryField::Role) {
        Some(r) => Some(r),
        None => entity_role_of(snapshot, module),
    };
    let contract_version = match registry_value_of(snapshot, module, &RegistryField::ContractVersion) {
        Some(v) => Some(v),
        None => match entity_contract_version_of(snapshot, module) {
            Some(v) => v,
            None => None,
        },
    };
    let status = registry_value_of(snapshot, module, &RegistryField::Status);
    let mut kinds: Vec<String> = Vec::new();
    let mut q: usize = 0;
    while q < o.len()
        invariant
            forall|x: int| 0 <= x < o@.len() ==> (#[trigger] o@[x]) < snapshot.diagnostics@.len(),
            os == as_ints(o@),
            q <= o@.len(),
            views(kinds@) == module_diagnostic_kinds(*snapshot, os, module@, q as int),
        decreases o.len() - q,
    {
        let d = &snapshot.diagnostics[o[q]];
        let hit = match &d.module {
            Some(m) => str_eq(m.as_str(), module.as_str()),
            None => false,
        };
        if hit {
            kinds.push(d.kind.clone());
        }
        q = q + 1;
        assert(views(kinds@) =~= module_diagnostic_kinds(*snapshot, os, module@, q as int));
    }
    RustokFbaAuditModule {
        id: module_id(module),
        module: module.clone(),
        role,
        status,
        contract_version,
        ports: listed_values(snapshot, &FbaListing::Port, module),
        operations: listed_values(snapshot, &FbaListing::Operation, module),
        dependencies: listed_values(snapshot, &FbaListing::Dependency, module),
        diagnostics: kinds,
    }
}

/// Whether a role is one of the consuming roles.
fn is_consumer_role(role: &Option<String>) -> (r: bool)
    ensures
        r == consumer_role(opt_view(*role)),
{
    match role {
        None => false,
        Some(x) => str_eq(x.as_str(), "consumer") || str_eq(x.as_str(), "orchestrator_consumer")
            || str_eq(x.as_str(), "consumer_support_adapter"),
    }
}

/// Audits the snapshot's backend modules: each module named by an FBA entity, an FBA
/// diagnostic or a registry fact, in name order, with its registry data, ports,
/// operations, dependencies and FBA diagnostic kinds, and the summary counts.
pub fn build_rustok_fba_audit(snapshot: &CanonicalSnapshot) -> (r: RustokFbaAudit)
    ensures
        fba_audit_of(r, *snapshot),
{
    let o = select_diagnostics(snapshot, "rustok_fba_", None, None);
    let ghost os = as_ints(o@);
    proof {
        assert forall|q: int| 0 <= q < o@.len() implies (#[trigger] o@[q]) < snapshot.diagnostics@.len() by {
            assert(0 <= os[q] < snapshot.diagnostics@.len());
        }
    }
    let names = fba_module_names(snapshot);
    let mut modules: Vec<RustokFbaAuditModule> = Vec::new();
    let mut t: usize = 0;
    while t < names.len()
        invariant
            forall|q: int| 0 <= q < o@.len() ==> (#[trigger] o@[q]) < snapshot.diagnostics@.len(),
            os == as_ints(o@),
            t <= names@.len(),
            modules@.len() == t,
            forall|i: int| 0 <= i < t ==> fba_module_of(#[trigger] modules@[i], *snapshot, views(names@)[i], os),
        decreases names.len() - t,
    {
        modules.push(fba_module_entry(snapshot, &o, &names[t]));
        t = t + 1;
    }
    let ghost mv = modules@;
    let mut providers: usize = 0;
    let mut consumers: usize = 0;
    let mut i: usize = 0;
    while i < modules.len()
        invariant
            mv == modules@,
            i <= mv.len(),
            providers == count_below(i as int, |k: int| opt_view(mv[k].role) == Some("provider"@)),
            consumers == count_below(i as int, |k: int| consumer_role(opt_view(mv[k].role))),
        decreases modules.len() - i,
    {
        proof {
            lemma_count_below_bounded(i as int, |k: int| opt_view(mv[k].role) == Some("provider"@));
            lemma_count_below_bounded(i as int, |k: int| consumer_role(opt_view(mv[k].role)));
        }
        let is_provider = match &modules[i].role {
            None => false,
            Some(x) => str_eq(x.as_str(), "provider"),
        };
        if is_provider {
            providers = providers + 1;
        }
        if is_consumer_role(&modules[i].role) {
            consumers = consumers + 1;
        }
        i = i + 1;
    }
    let mut open: usize = 0;
    let mut q: usize = 0;
    while q < o.len()
        invariant
            forall|x: int| 0 <= x < o@.len() ==> (#[trigger] o@[x]) < snapshot.diagnostics@.len(),
            os == as_ints(o@),
            q <= o@.len(),
            open == count_below(q as int, |x: int| snapshot.diagnostics@[os[x]].module is Some),
        decreases o.len() - q,
    {
        proof {
            lemma_count_below_bounded(q as int, |x: int| snapshot.diagnostics@[os[x]].module is Some);
        }
        if snapshot.diagnostics[o[q]].module.is_some() {
            open = open + 1;
        }
        q = q + 1;
    }
    let summary = RustokFbaAuditSummary {
        modules_total: modules.len(),
        provider_modules: providers,
        consumer_modules: consumers,
        ports_total: listed_pair_total(snapshot, &FbaListing::Port),
        operations_total: listed_pair_total(snapshot, &FbaListing::Operation),
        diagnostics_open: open,
    };
    let r = RustokFbaAudit {
        schema: String::from_str(RUSTOK_FBA_AUDIT_SCHEMA),
        snapshot: snapshot_id(snapshot),
        summary,
        modules,
    };
    proof {
        let nv = views(names@);
        assert(selected_in_id_order(os, *snapshot, "rustok_fba_"@, None, None));
        assert(crate::strset::strictly_sorted(nv));
        assert forall|m: Seq<char>| #[trigger] nv.contains(m) <==> fba_module_name(*snapshot, m) by {
            assert(set_of(names@).contains(m) == nv.contains(m));
        }
    }
    r
}

} // verus!
