//! The repository overview: totals, the most frequent kinds and source roots, API,
//! documentation and operations counts, module structure, integration boundaries,
//! graph hubs and open diagnostics of a snapshot.

use vstd::prelude::*;
use crate::graph::{lists_relation_ids, min_int};
use crate::json_contract_base::OVERVIEW_SCHEMA_V1;
use crate::snapshot::{
    CanonicalSnapshot, Entity, degree, snapshot_id, snapshot_name, source_text, opt_view, views,
    render_source, evidence_texts, render_evidence,
};
use crate::strset::{distinct_pairs, offered, opt_pair_view, pair_view, pair_views};
use crate::sort::{Ranked, SortKey, as_ints, count_below, lemma_count_below_bounded, lemma_count_below_member, lemma_count_below_none, lists_exactly, rank_positions, sorted_by};
use crate::text::{has_prefix, lemma_lex_lt_irreflexive, lemma_lex_lt_transitive, lemma_lex_total, lex_lt, split_chars, split_on, starts_with_chars, str_eq, str_lt, string_of_chars, to_chars};

verus! {

/// The schema of a repository overview.
pub const OVERVIEW_SCHEMA: &'static str = OVERVIEW_SCHEMA_V1;

/// What the overview command is asked for.
pub struct OverviewOptions {
    pub root: String,
    pub top: usize,
}

/// A repository overview.
pub struct RepositoryOverview {
    pub schema: String,
    pub snapshot: String,
    pub totals: OverviewTotals,
    pub entity_kinds: Vec<NamedCount>,
    pub relation_kinds: Vec<NamedCount>,
    pub source_roots: Vec<NamedCount>,
    pub api: ApiOverview,
    pub docs: DocsOverview,
    pub operations: OperationsOverview,
    pub module_structure: Vec<ModuleOverview>,
    pub integration_boundaries: Vec<IntegrationBoundaryOverview>,
    pub graph_hubs: Vec<EntityOverview>,
    pub open_diagnostics: Vec<DiagnosticOverview>,
}

/// A module with the ids of the relations that define or contain its members.
pub struct ModuleOverview {
    pub stable_key: String,
    pub name: String,
    pub source: Option<String>,
    pub direct_members: usize,
    pub relation_ids: Vec<String>,
    pub omitted_relation_ids: usize,
}

/// The relations that cross from one source root to another.
pub struct IntegrationBoundaryOverview {
    pub from_root: String,
    pub to_root: String,
    pub relations: usize,
    pub relation_kinds: Vec<NamedCount>,
    pub relation_ids: Vec<String>,
    pub omitted_relation_ids: usize,
}

/// How much the snapshot holds.
pub struct OverviewTotals {
    pub entities: usize,
    pub facts: usize,
    pub relations: usize,
    pub diagnostics: usize,
    pub open_diagnostics: usize,
    pub source_files: usize,
}

/// A name with the number of times it occurs.
pub struct NamedCount {
    pub name: String,
    pub count: usize,
}

/// API endpoints, schemas and examples, and how many endpoints are documented and
/// implemented.
pub struct ApiOverview {
    pub endpoints: usize,
    pub schemas: usize,
    pub examples: usize,
    pub documented_endpoints: usize,
    pub implemented_endpoints: usize,
}

/// Documentation pages, sections, runbooks and operation steps.
pub struct DocsOverview {
    pub pages: usize,
    pub sections: usize,
    pub runbooks: usize,
    pub operation_steps: usize,
    pub operations_pages: usize,
}

/// Operational entities.
pub struct OperationsOverview {
    pub environment_variables: usize,
    pub script_commands: usize,
    pub deployment_resources: usize,
    pub database_migrations: usize,
    pub packages: usize,
    pub dependencies: usize,
}

/// An entity with its degree.
pub struct EntityOverview {
    pub stable_key: String,
    pub kind: String,
    pub name: String,
    pub source: Option<String>,
    pub degree: usize,
}

/// An open diagnostic.
pub struct DiagnosticOverview {
    pub id: String,
    pub kind: String,
    pub severity: String,
    pub title: String,
    pub source: Option<String>,
}

/// The positions of the entities of a kind.
pub open spec fn of_kind(s: CanonicalSnapshot, kind: Seq<char>) -> spec_fn(int) -> bool {
    |i: int| s.entities@[i].kind@ == kind
}

/// How many entities have the given kind.
pub open spec fn kind_count(s: CanonicalSnapshot, kind: Seq<char>) -> nat {
    count_below(s.entities@.len() as int, of_kind(s, kind))
}

/// Counts the entities of a kind.
fn count_kind(snapshot: &CanonicalSnapshot, kind: &str) -> (r: usize)
    ensures
        r == kind_count(*snapshot, kind@),
{
    let mut n: usize = 0;
    let mut i: usize = 0;
    while i < snapshot.entities.len()
        invariant
            i <= snapshot.entities@.len(),
            n == count_below(i as int, of_kind(*snapshot, kind@)),
        decreases snapshot.entities.len() - i,
    {
        proof {
            lemma_count_below_bounded(i as int, of_kind(*snapshot, kind@));
        }
        if str_eq(snapshot.entities[i].kind.as_str(), kind) {
            n = n + 1;
        }
        i = i + 1;
    }
    n
}

/// Relation kinds that document their target.
pub open spec fn documents_kind(k: Seq<char>) -> bool {
    k == "documents"@ || k == "documents_api"@ || k == "documents_operation"@
}

/// Some relation documents the entity with this id.
pub open spec fn documented(s: CanonicalSnapshot, id: Seq<char>) -> bool {
    exists|r: int| 0 <= r < s.relations@.len() && documents_kind(s.relations@[r].kind@) && #[trigger] s.relations@[r].to@ == id
}

/// Some `implemented_by` relation starts at the entity with this id.
pub open spec fn implemented(s: CanonicalSnapshot, id: Seq<char>) -> bool {
    exists|r: int| 0 <= r < s.relations@.len() && s.relations@[r].kind@ == "implemented_by"@ && #[trigger] s.relations@[r].from@ == id
}

/// Whether some relation documents (`true`) or implements (`false`) the entity `id`.
fn has_relation(snapshot: &CanonicalSnapshot, id: &String, documenting: bool) -> (r: bool)
    ensures
        r == if documenting { documented(*snapshot, id@) } else { implemented(*snapshot, id@) },
{
    let mut i: usize = 0;
    while i < snapshot.relations.len()
        invariant
            i <= snapshot.relations@.len(),
            documenting ==> forall|r: int| 0 <= r < i ==> !(documents_kind(snapshot.relations@[r].kind@) && #[trigger] snapshot.relations@[r].to@ == id@),
            !documenting ==> forall|r: int| 0 <= r < i ==> !(snapshot.relations@[r].kind@ == "implemented_by"@ && #[trigger] snapshot.relations@[r].from@ == id@),
        decreases snapshot.relations.len() - i,
    {
        let rel = &snapshot.relations[i];
        if documenting {
            let k = rel.kind.as_str();
            if (str_eq(k, "documents") || str_eq(k, "documents_api") || str_eq(k, "documents_operation"))
                && str_eq(rel.to.as_str(), id.as_str()) {
                return true;
            }
        } else {
            if str_eq(rel.kind.as_str(), "implemented_by") && str_eq(rel.from.as_str(), id.as_str()) {
                return true;
            }
        }
        i = i + 1;
    }
    false
}

/// The API endpoints that some relation documents.
pub open spec fn documented_endpoint(s: CanonicalSnapshot) -> spec_fn(int) -> bool {
    |i: int| s.entities@[i].kind@ == "api_endpoint"@ && documented(s, s.entities@[i].id@)
}

/// The API endpoints that are implemented by something.
pub open spec fn implemented_endpoint(s: CanonicalSnapshot) -> spec_fn(int) -> bool {
    |i: int| s.entities@[i].kind@ == "api_endpoint"@ && implemented(s, s.entities@[i].id@)
}

/// Counts the endpoints that are documented (`true`) or implemented (`false`).
fn count_endpoints_with(snapshot: &CanonicalSnapshot, documenting: bool) -> (r: usize)
    ensures
        r == count_below(snapshot.entities@.len() as int,
            if documenting { documented_endpoint(*snapshot) } else { implemented_endpoint(*snapshot) }),
{
    let ghost member = if documenting { documented_endpoint(*snapshot) } else { implemented_endpoint(*snapshot) };
    let mut n: usize = 0;
    let mut i: usize = 0;
    while i < snapshot.entities.len()
        invariant
            i <= snapshot.entities@.len(),
            member == (if documenting { documented_endpoint(*snapshot) } else { implemented_endpoint(*snapshot) }),
            n == count_below(i as int, member),
        decreases snapshot.entities.len() - i,
    {
        proof {
            lemma_count_below_bounded(i as int, member);
        }
        let e = &snapshot.entities[i];
        if str_eq(e.kind.as_str(), "api_endpoint") && has_relation(snapshot, &e.id, documenting) {
            n = n + 1;
        }
        i = i + 1;
    }
    n
}

/// The API part of the overview, counted over the snapshot.
pub open spec fn api_overview_of(a: ApiOverview, s: CanonicalSnapshot) -> bool {
    &&& a.endpoints == kind_count(s, "api_endpoint"@)
    &&& a.schemas == kind_count(s, "api_schema"@)
    &&& a.examples == kind_count(s, "api_example"@)
    &&& a.documented_endpoints == count_below(s.entities@.len() as int, documented_endpoint(s))
    &&& a.implemented_endpoints == count_below(s.entities@.len() as int, implemented_endpoint(s))
}

/// An API endpoint that a `documents`, `documents_api` or `documents_operation` relation
/// points at is counted as documented.
pub proof fn lemma_documenting_relation_counts(a: ApiOverview, s: CanonicalSnapshot, e: int, r: int)
    requires
        api_overview_of(a, s),
        0 <= e < s.entities@.len(),
        s.entities@[e].kind@ == "api_endpoint"@,
        0 <= r < s.relations@.len(),
        s.relations@[r].to@ == s.entities@[e].id@,
        s.relations@[r].kind@ == "documents"@ || s.relations@[r].kind@ == "documents_api"@
            || s.relations@[r].kind@ == "documents_operation"@,
    ensures
        a.documented_endpoints >= 1,
{
    assert(documented(s, s.entities@[e].id@));
    lemma_count_below_member(s.entities@.len() as int, documented_endpoint(s), e);
}

/// Where no `documents`, `documents_api` or `documents_operation` relation exists, no
/// endpoint counts as documented.
pub proof fn lemma_no_documenting_relation(a: ApiOverview, s: CanonicalSnapshot)
    requires
        api_overview_of(a, s),
        forall|r: int| 0 <= r < s.relations@.len() ==> #[trigger] s.relations@[r].kind@ != "documents"@
            && s.relations@[r].kind@ != "documents_api"@ && s.relations@[r].kind@ != "documents_operation"@,
    ensures
        a.documented_endpoints == 0,
{
    assert forall|i: int| 0 <= i < s.entities@.len() implies !#[trigger] documented_endpoint(s)(i) by {
        if documented(s, s.entities@[i].id@) {
            let r = choose|r: int| 0 <= r < s.relations@.len() && documents_kind(s.relations@[r].kind@)
                && #[trigger] s.relations@[r].to@ == s.entities@[i].id@;
            assert(s.relations@[r].kind@ != "documents"@);
        }
    }
    lemma_count_below_none(s.entities@.len() as int, documented_endpoint(s));
}

/// An API endpoint that an `implemented_by` relation leads from is counted as implemented.
pub proof fn lemma_implementing_relation_counts(a: ApiOverview, s: CanonicalSnapshot, e: int, r: int)
    requires
        api_overview_of(a, s),
        0 <= e < s.entities@.len(),
        s.entities@[e].kind@ == "api_endpoint"@,
        0 <= r < s.relations@.len(),
        s.relations@[r].from@ == s.entities@[e].id@,
        s.relations@[r].kind@ == "implemented_by"@,
    ensures
        a.implemented_endpoints >= 1,
{
    assert(implemented(s, s.entities@[e].id@));
    lemma_count_below_member(s.entities@.len() as int, implemented_endpoint(s), e);
}

/// Where no `implemented_by` relation exists, no endpoint counts as implemented.
pub proof fn lemma_no_implementing_relation(a: ApiOverview, s: CanonicalSnapshot)
    requires
        api_overview_of(a, s),
        forall|r: int| 0 <= r < s.relations@.len() ==> #[trigger] s.relations@[r].kind@ != "implemented_by"@,
    ensures
        a.implemented_endpoints == 0,
{
    assert forall|i: int| 0 <= i < s.entities@.len() implies !#[trigger] implemented_endpoint(s)(i) by {
        if implemented(s, s.entities@[i].id@) {
            let r = choose|r: int| 0 <= r < s.relations@.len() && s.relations@[r].kind@ == "implemented_by"@
                && #[trigger] s.relations@[r].from@ == s.entities@[i].id@;
            assert(s.relations@[r].kind@ != "implemented_by"@);
        }
    }
    lemma_count_below_none(s.entities@.len() as int, implemented_endpoint(s));
}

/// Counts API endpoints, schemas and examples, and the endpoints that are documented or
/// implemented.
pub fn api_overview(snapshot: &CanonicalSnapshot) -> (r: ApiOverview)
    ensures
        api_overview_of(r, *snapshot),
{
    ApiOverview {
        endpoints: count_kind(snapshot, "api_endpoint"),
        schemas: count_kind(snapshot, "api_schema"),
        examples: count_kind(snapshot, "api_example"),
        documented_endpoints: count_endpoints_with(snapshot, true),
        implemented_endpoints: count_endpoints_with(snapshot, false),
    }
}

/// Documentation pages whose source lies under `docs/operations/`.
pub open spec fn operations_page(s: CanonicalSnapshot) -> spec_fn(int) -> bool {
    |i: int| s.entities@[i].kind@ == "documentation_page"@ && match s.entities@[i].source {
        None => false,
        Some(src) => has_prefix(src.path@, "docs/operations/"@),
    }
}

/// The documentation part of the overview, counted over the snapshot.
pub open spec fn docs_overview_of(d: DocsOverview, s: CanonicalSnapshot) -> bool {
    &&& d.pages == kind_count(s, "documentation_page"@)
    &&& d.sections == kind_count(s, "documentation_section"@)
    &&& d.runbooks == kind_count(s, "runbook"@)
    &&& d.operation_steps == kind_count(s, "operation_step"@)
    &&& d.operations_pages == count_below(s.entities@.len() as int, operations_page(s))
}

/// Counts documentation pages, sections, runbooks, operation steps and the pages under
/// `docs/operations/`.
pub fn docs_overview(snapshot: &CanonicalSnapshot) -> (r: DocsOverview)
    ensures
        docs_overview_of(r, *snapshot),
{
    let prefix = to_chars("docs/operations/");
    let mut n: usize = 0;
    let mut i: usize = 0;
    while i < snapshot.entities.len()
        invariant
            i <= snapshot.entities@.len(),
            prefix@ == "docs/operations/"@,
            n == count_below(i as int, operations_page(*snapshot)),
        decreases snapshot.entities.len() - i,
    {
        proof {
            lemma_count_below_bounded(i as int, operations_page(*snapshot));
        }
        let e = &snapshot.entities[i];
        if str_eq(e.kind.as_str(), "documentation_page") {
            match &e.source {
                None => {},
                Some(src) => {
                    let path = to_chars(src.path.as_str());
                    if starts_with_chars(path.as_slice(), prefix.as_slice()) {
                        n = n + 1;
                    }
                },
            }
        }
        i = i + 1;
    }
    DocsOverview {
        pages: count_kind(snapshot, "documentation_page"),
        sections: count_kind(snapshot, "documentation_section"),
        runbooks: count_kind(snapshot, "runbook"),
        operation_steps: count_kind(snapshot, "operation_step"),
        operations_pages: n,
    }
}

/// The operations part of the overview, counted over the snapshot.
pub open spec fn operations_overview_of(o: OperationsOverview, s: CanonicalSnapshot) -> bool {
    &&& o.environment_variables == kind_count(s, "env_var"@)
    &&& o.script_commands == kind_count(s, "script_command"@)
    &&& o.deployment_resources == kind_count(s, "docker_service"@)
    &&& o.database_migrations == kind_count(s, "db_migration"@)
    &&& o.packages == kind_count(s, "package"@)
    &&& o.dependencies == kind_count(s, "dependency"@)
}

/// Counts the operational entities.
pub fn operations_overview(snapshot: &CanonicalSnapshot) -> (r: OperationsOverview)
    ensures
        operations_overview_of(r, *snapshot),
{
    OperationsOverview {
        environment_variables: count_kind(snapshot, "env_var"),
        script_commands: count_kind(snapshot, "script_command"),
        deployment_resources: count_kind(snapshot, "docker_service"),
        database_migrations: count_kind(snapshot, "db_migration"),
        packages: count_kind(snapshot, "package"),
        dependencies: count_kind(snapshot, "dependency"),
    }
}

/// The positions at which `values` holds `v`.
pub open spec fn holds_at(values: Seq<Seq<char>>, v: Seq<char>) -> spec_fn(int) -> bool {
    |i: int| values[i] == v
}

/// How many times `v` occurs in `values`.
pub open spec fn occurrences(values: Seq<Seq<char>>, v: Seq<char>) -> nat {
    count_below(values.len() as int, holds_at(values, v))
}

/// `a` is listed before `b`: it occurs more often, or as often and sorts first.
pub open spec fn count_first(values: Seq<Seq<char>>, a: Seq<char>, b: Seq<char>) -> bool {
    occurrences(values, a) > occurrences(values, b)
        || (occurrences(values, a) == occurrences(values, b) && lex_lt(a, b))
}

/// `names` lists each distinct value once, most frequent first, ties by name.
pub open spec fn ranked_names(names: Seq<Seq<char>>, values: Seq<Seq<char>>) -> bool {
    &&& names.no_duplicates()
    &&& forall|v: Seq<char>| values.contains(v) <==> names.contains(v)
    &&& forall|i: int, j: int| 0 <= i < j < names.len() ==> count_first(values, #[trigger] names[i], #[trigger] names[j])
}

/// `r` holds the first `top` distinct values of `values` with their counts, most
/// frequent first, ties by name.
pub open spec fn top_counts_of(r: Seq<NamedCount>, values: Seq<Seq<char>>, top: int) -> bool {
    exists|names: Seq<Seq<char>>| {
        &&& #[trigger] ranked_names(names, values)
        &&& r.len() == min_int(names.len() as int, top)
        &&& forall|i: int| 0 <= i < r.len() ==> (#[trigger] r[i]).name@ == names[i] && r[i].count == occurrences(values, names[i])
    }
}

/// The key a counted name is ranked by.
struct CountKey {
    count: usize,
    name: String,
    index: usize,
}

impl SortKey for CountKey {
    closed spec fn key_lt(&self, other: &Self) -> bool {
        self.count > other.count || (self.count == other.count && lex_lt(self.name@, other.name@))
    }

    proof fn lemma_key_lt_transitive(a: &Self, b: &Self, c: &Self) {
        if lex_lt(a.name@, b.name@) && lex_lt(b.name@, c.name@) {
            lemma_lex_lt_transitive(a.name@, b.name@, c.name@);
        }
    }

    proof fn lemma_key_lt_irreflexive(a: &Self) {
        lemma_lex_lt_irreflexive(a.name@);
    }

    fn lt(&self, other: &Self) -> (r: bool) {
        if self.count != other.count {
            self.count > other.count
        } else {
            str_lt(self.name.as_str(), other.name.as_str())
        }
    }
}

impl Ranked for CountKey {
    closed spec fn position(&self) -> int {
        self.index as int
    }

    fn pos(&self) -> (r: usize) {
        self.index
    }
}

/// Counts how often each value occurs and keeps the `top` most frequent, ties by name.
pub fn top_counts(values: &Vec<String>, top: usize) -> (r: Vec<NamedCount>)
    ensures
        top_counts_of(r@, views(values@), top as int),
{
    let ghost vals = views(values@);
    let mut names: Vec<String> = Vec::new();
    let mut counts: Vec<usize> = Vec::new();
    let mut i: usize = 0;
    while i < values.len()
        invariant
            vals == views(values@),
            i <= values@.len(),
            names@.len() == counts@.len(),
            views(names@).no_duplicates(),
            forall|v: Seq<char>| vals.take(i as int).contains(v) <==> views(names@).contains(v),
            forall|k: int| 0 <= k < names@.len() ==> #[trigger] counts@[k] == count_below(i as int, holds_at(vals, names@[k]@)),
            forall|k: int| 0 <= k < names@.len() ==> #[trigger] counts@[k] <= i,
        decreases values.len() - i,
    {
        let v = &values[i];
        let mut k: usize = 0;
        while k < names.len() && !str_eq(names[k].as_str(), v.as_str())
            invariant
                k <= names@.len(),
                forall|q: int| 0 <= q < k ==> names@[q]@ != v@,
            decreases names.len() - k,
        {
            k = k + 1;
        }
        let found = k < names.len();
        proof {
            if !found {
                assert forall|x: int| 0 <= x < names@.len() implies #[trigger] views(names@)[x] != v@ by {
                    assert(views(names@)[x] == names@[x]@);
                }
                assert(!vals.take(i as int).contains(v@)) by {
                    if vals.take(i as int).contains(v@) {
                        assert(views(names@).contains(v@));
                        let x = choose|x: int| 0 <= x < names@.len() && #[trigger] views(names@)[x] == v@;
                        assert(views(names@)[x] != v@);
                    }
                }
            }
        }
        let ghost old_names = names@;
        let ghost old_counts = counts@;
        assert(vals.take(i + 1) =~= vals.take(i as int).push(vals[i as int]));
        if found {
            let c = counts[k] + 1;
            counts.set(k, c);
        } else {
            names.push(v.clone());
            counts.push(1);
            assert(views(names@) =~= views(old_names).push(v@));
        }
        proof {
            assert forall|q: int| 0 <= q < names@.len() implies #[trigger] counts@[q] == count_below(i + 1, holds_at(vals, names@[q]@)) by {
                assert(vals[i as int] == v@);
                if q < old_names.len() {
                    assert(names@[q] == old_names[q]);
                    if found && q != k {
                        assert(views(old_names)[q] != views(old_names)[k as int]);
                        assert(counts@[q] == old_counts[q]);
                    } else if found {
                        assert(old_names[q]@ == v@);
                        assert(counts@[q] == old_counts[q] + 1);
                    } else {
                        assert(counts@[q] == old_counts[q]);
                    }
                    assert(count_below(i + 1, holds_at(vals, names@[q]@))
                        == count_below(i as int, holds_at(vals, names@[q]@)) + if vals[i as int] == names@[q]@ { 1nat } else { 0nat });
                } else {
                    assert(count_below(i + 1, holds_at(vals, names@[q]@))
                        == count_below(i as int, holds_at(vals, names@[q]@)) + 1);
                    assert(count_below(i as int, holds_at(vals, names@[q]@)) == 0) by {
                        assert(names@[q]@ == v@);
                        lemma_no_earlier(vals, names@[q]@, i as int, i as int);
                    }
                }
            }
            assert(views(names@).no_duplicates()) by {
                if !found {
                    assert forall|a: int, b: int| 0 <= a < views(names@).len() && 0 <= b < views(names@).len() && a != b
                        implies views(names@)[a] != views(names@)[b] by {
                        if a < old_names.len() && b < old_names.len() {
                            assert(views(names@)[a] == views(old_names)[a]);
                            assert(views(names@)[b] == views(old_names)[b]);
                        } else if a == old_names.len() {
                            assert(views(names@)[b] == old_names[b]@);
                        } else {
                            assert(views(names@)[a] == old_names[a]@);
                        }
                    }
                }
            }
            assert forall|v2: Seq<char>| vals.take(i + 1).contains(v2) <==> views(names@).contains(v2) by {
                if vals.take(i + 1).contains(v2) && v2 != v@ {
                    let w = choose|w: int| 0 <= w < i + 1 && #[trigger] vals.take(i + 1)[w] == v2;
                    assert(vals.take(i as int)[w] == v2);
                    assert(views(old_names).contains(v2));
                    let x = choose|x: int| 0 <= x < old_names.len() && #[trigger] views(old_names)[x] == v2;
                    assert(views(names@)[x] == v2);
                }
                if views(names@).contains(v2) && v2 != v@ {
                    let x = choose|x: int| 0 <= x < names@.len() && #[trigger] views(names@)[x] == v2;
                    if !found {
                        assert(x < old_names.len());
                    }
                    assert(views(old_names)[x] == v2);
                    assert(views(old_names).contains(v2));
                    assert(vals.take(i as int).contains(v2));
                    let w = choose|w: int| 0 <= w < i && #[trigger] vals.take(i as int)[w] == v2;
                    assert(vals.take(i + 1)[w] == v2);
                }
                if v2 == v@ {
                    assert(vals.take(i + 1)[i as int] == v2);
                    if found {
                        assert(views(names@)[k as int] == v2);
                    } else {
                        assert(views(names@)[old_names.len() as int] == v2);
                    }
                }
            }
        }
        i = i + 1;
    }
    assert(vals.take(i as int) =~= vals);
    let mut keys: Vec<CountKey> = Vec::new();
    let mut t: usize = 0;
    while t < names.len()
        invariant
            t <= names@.len(),
            names@.len() == counts@.len(),
            keys@.len() == t,
            forall|a: int| 0 <= a < t ==> (#[trigger] keys@[a]).index == a && keys@[a].count == counts@[a] && keys@[a].name@ == names@[a]@,
        decreases names.len() - t,
    {
        keys.push(CountKey { count: counts[t], name: names[t].clone(), index: t });
        t = t + 1;
    }
    let ghost nn = names@.len() as int;
    let ghost before = |a: int, b: int| count_first(vals, names@[a]@, names@[b]@);
    let ghost every = |a: int| true;
    proof {
        assert forall|a: int| 0 <= a < nn implies #[trigger] counts@[a] == occurrences(vals, names@[a]@) by {
            assert(count_below(vals.len() as int, holds_at(vals, names@[a]@)) == occurrences(vals, names@[a]@));
        }
        assert forall|a: int, b: int| #![trigger keys@[a], keys@[b]] 0 <= a < keys@.len() && 0 <= b < keys@.len() implies
            keys@[a].key_lt(&keys@[b]) == before(keys@[a].position(), keys@[b].position()) by {
            assert(counts@[a] == occurrences(vals, names@[a]@));
            assert(counts@[b] == occurrences(vals, names@[b]@));
        }
        assert forall|j: int| 0 <= j < nn && #[trigger] every(j) implies exists|a: int| 0 <= a < keys@.len() && (#[trigger] keys@[a]).position() == j by {
            assert(keys@[j].position() == j);
        }
    }
    let order = rank_positions(keys, Ghost(nn), Ghost(every), Ghost(before));
    let ghost o = as_ints(order@);
    let ghost ranked = Seq::new(o.len(), |q: int| names@[o[q]]@);
    proof {
        crate::sort::lemma_lists_exactly_len(o, nn, every);
        assert(count_below(nn, every) == nn) by {
            lemma_count_all(nn);
        }
        assert(ranked.no_duplicates()) by {
            assert forall|a: int, b: int| 0 <= a < ranked.len() && 0 <= b < ranked.len() && a != b
                implies ranked[a] != ranked[b] by {
                assert(o[a] != o[b]);
                assert(views(names@)[o[a]] != views(names@)[o[b]]);
            }
        }
        assert forall|v: Seq<char>| vals.contains(v) <==> ranked.contains(v) by {
            if vals.contains(v) {
                assert(views(names@).contains(v));
                let x = choose|x: int| 0 <= x < names@.len() && #[trigger] views(names@)[x] == v;
                assert(every(x));
                assert(o.contains(x));
                let q = choose|q: int| 0 <= q < o.len() && #[trigger] o[q] == x;
                assert(ranked[q] == v);
            }
            if ranked.contains(v) {
                let q = choose|q: int| 0 <= q < ranked.len() && #[trigger] ranked[q] == v;
                assert(views(names@)[o[q]] == v);
                assert(views(names@).contains(v));
            }
        }
        assert forall|a: int, b: int| 0 <= a < b < ranked.len() implies count_first(vals, #[trigger] ranked[a], #[trigger] ranked[b]) by {
            assert(!before(o[b], o[a]));
            assert(o[a] != o[b]);
            assert(views(names@)[o[a]] != views(names@)[o[b]]);
            lemma_lex_total(ranked[a], ranked[b]);
        }
        assert(ranked_names(ranked, vals));
    }
    let keep = if order.len() < top { order.len() } else { top };
    let mut r: Vec<NamedCount> = Vec::new();
    let mut q: usize = 0;
    while q < keep
        invariant
            keep <= order@.len(),
            o == as_ints(order@),
            lists_exactly(o, nn, every),
            every == (|a: int| true),
            nn == names@.len(),
            names@.len() == counts@.len(),
            forall|a: int| 0 <= a < nn ==> #[trigger] counts@[a] == occurrences(vals, names@[a]@),
            ranked == Seq::new(o.len(), |x: int| names@[o[x]]@),
            q <= keep,
            r@.len() == q,
            forall|a: int| 0 <= a < q ==> (#[trigger] r@[a]).name@ == ranked[a] && r@[a].count == occurrences(vals, ranked[a]),
        decreases keep - q,
    {
        let x = order[q];
        assert(0 <= o[q as int] < nn);
        r.push(NamedCount { name: names[x].clone(), count: counts[x] });
        q = q + 1;
    }
    assert(r@.len() == min_int(ranked.len() as int, top as int));
    r
}

/// The path an entity's source root is taken from: its source, else the file of its
/// first ownership record.
pub open spec fn root_path(e: Entity) -> Option<Seq<char>> {
    match e.source {
        Some(src) => Some(src.path@),
        None => if e.ownership@.len() > 0 { Some(e.ownership@[0]@) } else { None },
    }
}

/// The source root of a path: `crates/x`, `apps/x` or `docs/x` for paths under those
/// directories, else the first segment, or the whole path where it has no `/`.
pub open spec fn root_of_path(path: Seq<char>) -> Seq<char> {
    let parts = split_on(path, '/');
    if parts.len() >= 2 {
        if parts[0] == "crates"@ || parts[0] == "apps"@ || parts[0] == "docs"@ {
            parts[0] + "/"@ + parts[1]
        } else {
            parts[0]
        }
    } else {
        path
    }
}

/// The source root of an entity, where it has a path.
pub open spec fn source_root(e: Entity) -> Option<Seq<char>> {
    match root_path(e) {
        None => None,
        Some(p) => Some(root_of_path(p)),
    }
}

/// The source root of an entity, as `source_root` says.
pub fn entity_source_root(entity: &Entity) -> (r: Option<String>)
    ensures
        opt_view(r) == source_root(*entity),
{
    let path: &String = match &entity.source {
        Some(src) => &src.path,
        None => {
            if entity.ownership.len() == 0 {
                return None;
            }
            &entity.ownership[0]
        },
    };
    let chars = to_chars(path.as_str());
    let parts = split_chars(chars.as_slice(), '/');
    if parts.len() >= 2 {
        let first = string_of_chars(parts[0].as_slice());
        if str_eq(first.as_str(), "crates") || str_eq(first.as_str(), "apps") || str_eq(first.as_str(), "docs") {
            let mut out = first;
            proof {
                reveal_strlit("/");
            }
            out.append("/");
            let second = string_of_chars(parts[1].as_slice());
            out.append(second.as_str());
            Some(out)
        } else {
            Some(first)
        }
    } else {
        Some(path.clone())
    }
}

/// An entity's overview entry.
pub open spec fn entity_overview_of(o: EntityOverview, e: Entity, degree: nat) -> bool {
    &&& o.stable_key@ == e.stable_key@
    &&& o.kind@ == e.kind@
    &&& o.name@ == e.name@
    &&& opt_view(o.source) == source_text(e.source)
    &&& o.degree == degree
}

/// The degree of the `i`-th entity.
pub open spec fn degree_at(s: CanonicalSnapshot, i: int) -> nat {
    degree(s.relations@, s.entities@[i].id@)
}

/// The entities that have relations.
pub open spec fn connected_entity(s: CanonicalSnapshot) -> spec_fn(int) -> bool {
    |i: int| degree_at(s, i) > 0
}

/// Hub order: degree descending, then stable key, then position.
pub open spec fn hub_first(s: CanonicalSnapshot, i: int, j: int) -> bool {
    let ki = s.entities@[i].stable_key@;
    let kj = s.entities@[j].stable_key@;
    degree_at(s, i) > degree_at(s, j) || (degree_at(s, i) == degree_at(s, j) && (lex_lt(ki, kj) || (ki == kj && i < j)))
}

/// The key an overview hub is ranked by.
struct HubRank {
    degree: usize,
    stable_key: String,
    index: usize,
}

impl SortKey for HubRank {
    closed spec fn key_lt(&self, other: &Self) -> bool {
        self.degree > other.degree || (self.degree == other.degree && (lex_lt(self.stable_key@, other.stable_key@)
            || (self.stable_key@ == other.stable_key@ && self.index < other.index)))
    }

    proof fn lemma_key_lt_transitive(a: &Self, b: &Self, c: &Self) {
        if lex_lt(a.stable_key@, b.stable_key@) && lex_lt(b.stable_key@, c.stable_key@) {
            lemma_lex_lt_transitive(a.stable_key@, b.stable_key@, c.stable_key@);
        }
    }

    proof fn lemma_key_lt_irreflexive(a: &Self) {
        lemma_lex_lt_irreflexive(a.stable_key@);
    }

    fn lt(&self, other: &Self) -> (r: bool) {
        if self.degree != other.degree {
            self.degree > other.degree
        } else if str_lt(self.stable_key.as_str(), other.stable_key.as_str()) {
            true
        } else if str_eq(self.stable_key.as_str(), other.stable_key.as_str()) {
            self.index < other.index
        } else {
            false
        }
    }
}

impl Ranked for HubRank {
    closed spec fn position(&self) -> int {
        self.index as int
    }

    fn pos(&self) -> (r: usize) {
        self.index
    }
}

/// The overview entry of an entity with its degree.
fn entity_overview(entity: &Entity, degree: usize) -> (r: EntityOverview)
    ensures
        entity_overview_of(r, *entity, degree as nat),
{
    EntityOverview {
        stable_key: entity.stable_key.clone(),
        kind: entity.kind.clone(),
        name: entity.name.clone(),
        source: render_source(&entity.source),
        degree,
    }
}

/// `r` lists the `top` most connected entities, highest degree first.
pub open spec fn hubs_of(r: Seq<EntityOverview>, snapshot: CanonicalSnapshot, top: int) -> bool {
    exists|order: Seq<int>| {
        &&& #[trigger] lists_exactly(order, snapshot.entities@.len() as int, connected_entity(snapshot))
        &&& sorted_by(order, |a: int, b: int| hub_first(snapshot, a, b))
        &&& r.len() == min_int(order.len() as int, top)
        &&& forall|i: int| 0 <= i < r.len() ==> entity_overview_of(#[trigger] r[i], snapshot.entities@[order[i]], degree_at(snapshot, order[i]))
    }
}

/// The `top` most connected entities, highest degree first, ties by stable key.
pub fn graph_hubs(snapshot: &CanonicalSnapshot, top: usize) -> (r: Vec<EntityOverview>)
    requires
        snapshot.relations@.len() <= usize::MAX / 2,
    ensures
        hubs_of(r@, *snapshot, top as int),
{
    let n = snapshot.entities.len();
    let ghost member = connected_entity(*snapshot);
    let mut keys: Vec<HubRank> = Vec::new();
    let mut i: usize = 0;
    while i < n
        invariant
            n == snapshot.entities@.len(),
            i <= n,
            member == connected_entity(*snapshot),
            snapshot.relations@.len() <= usize::MAX / 2,
            forall|a: int| 0 <= a < keys@.len() ==> (#[trigger] keys@[a]).index < i
                && member(keys@[a].index as int)
                && keys@[a].stable_key@ == snapshot.entities@[keys@[a].index as int].stable_key@
                && keys@[a].degree == degree_at(*snapshot, keys@[a].index as int),
            forall|a: int, b: int| 0 <= a < b < keys@.len() ==> (#[trigger] keys@[a]).index < (#[trigger] keys@[b]).index,
            forall|j: int| 0 <= j < i && #[trigger] member(j) ==> exists|a: int| 0 <= a < keys@.len() && (#[trigger] keys@[a]).index == j,
        decreases n - i,
    {
        let e = &snapshot.entities[i];
        let d = crate::snapshot::degree_of(&snapshot.relations, &e.id);
        let ghost before = keys@;
        if d > 0 {
            keys.push(HubRank { degree: d, stable_key: e.stable_key.clone(), index: i });
            assert(keys@[keys@.len() - 1].index == i);
        }
        proof {
            assert forall|j: int| 0 <= j < i + 1 && #[trigger] member(j) implies exists|a: int|
                0 <= a < keys@.len() && (#[trigger] keys@[a]).index == j by {
                if j < i {
                    let a = choose|a: int| 0 <= a < before.len() && (#[trigger] before[a]).index == j;
                    assert(keys@[a] == before[a]);
                } else {
                    assert(keys@[keys@.len() - 1].index == j);
                }
            }
        }
        i = i + 1;
    }
    let ghost hub_order = |a: int, b: int| hub_first(*snapshot, a, b);
    let order = rank_positions(keys, Ghost(n as int), Ghost(member), Ghost(hub_order));
    let ghost o = as_ints(order@);
    let keep = if order.len() < top { order.len() } else { top };
    let mut r: Vec<EntityOverview> = Vec::new();
    let mut q: usize = 0;
    while q < keep
        invariant
            keep <= order@.len(),
            o == as_ints(order@),
            lists_exactly(o, n as int, member),
            n == snapshot.entities@.len(),
            snapshot.relations@.len() <= usize::MAX / 2,
            q <= keep,
            r@.len() == q,
            forall|a: int| 0 <= a < q ==> entity_overview_of(#[trigger] r@[a], snapshot.entities@[o[a]], degree_at(*snapshot, o[a])),
        decreases keep - q,
    {
        assert(0 <= o[q as int] < n);
        let e = &snapshot.entities[order[q]];
        let d = crate::snapshot::degree_of(&snapshot.relations, &e.id);
        r.push(entity_overview(e, d));
        q = q + 1;
    }
    assert(sorted_by(o, hub_order));
    r
}

/// The rank of a severity name: critical 4, high 3, medium 2, low 1, else 0.
pub open spec fn severity_weight(severity: Seq<char>) -> nat {
    if severity == "critical"@ { 4 } else if severity == "high"@ { 3 } else if severity == "medium"@ { 2 }
    else if severity == "low"@ { 1 } else { 0 }
}

/// Severities rank critical above high above medium above low above any other name, and
/// every other name ranks the same.
pub proof fn lemma_severity_ranks(other: Seq<char>)
    requires
        other != "critical"@ && other != "high"@ && other != "medium"@ && other != "low"@,
    ensures
        severity_weight("critical"@) > severity_weight("high"@),
        severity_weight("high"@) > severity_weight("medium"@),
        severity_weight("medium"@) > severity_weight("low"@),
        severity_weight("low"@) > severity_weight(other),
        severity_weight(other) == severity_weight(""@),
{
    reveal_strlit("critical");
    reveal_strlit("high");
    reveal_strlit("medium");
    reveal_strlit("low");
    reveal_strlit("");
    assert("critical"@.len() != "high"@.len());
    assert("critical"@.len() != "medium"@.len());
    assert("critical"@.len() != "low"@.len());
    assert("high"@.len() != "medium"@.len());
    assert("high"@.len() != "low"@.len());
    assert("medium"@.len() != "low"@.len());
}

/// Ranks a severity name as `severity_weight` says.
pub fn severity_rank(severity: &str) -> (r: usize)
    ensures
        r == severity_weight(severity@),
{
    if str_eq(severity, "critical") { 4 } else if str_eq(severity, "high") { 3 } else if str_eq(severity, "medium") { 2 }
    else if str_eq(severity, "low") { 1 } else { 0 }
}

/// The open diagnostics.
pub open spec fn open_diagnostic(s: CanonicalSnapshot) -> spec_fn(int) -> bool {
    |i: int| s.diagnostics@[i].status@ == "open"@
}

/// Diagnostic order: severity descending, then kind, then id, then position.
pub open spec fn diagnostic_first(s: CanonicalSnapshot, i: int, j: int) -> bool {
    let a = s.diagnostics@[i];
    let b = s.diagnostics@[j];
    severity_weight(a.severity@) > severity_weight(b.severity@) || (severity_weight(a.severity@) == severity_weight(b.severity@)
        && (lex_lt(a.kind@, b.kind@) || (a.kind@ == b.kind@ && (lex_lt(a.id@, b.id@) || (a.id@ == b.id@ && i < j)))))
}

/// The first rendered evidence anchor, if any.
pub open spec fn first_evidence(texts: Seq<Seq<char>>) -> Option<Seq<char>> {
    if texts.len() > 0 { Some(texts[0]) } else { None }
}

/// A diagnostic's overview entry.
pub open spec fn diagnostic_overview_of(o: DiagnosticOverview, d: crate::snapshot::Diagnostic) -> bool {
    &&& o.id@ == d.id@
    &&& o.kind@ == d.kind@
    &&& o.severity@ == d.severity@
    &&& o.title@ == d.title@
    &&& opt_view(o.source) == first_evidence(evidence_texts(d.evidence@))
}

/// The key a diagnostic is ranked by.
struct DiagnosticRank {
    weight: usize,
    kind: String,
    id: String,
    index: usize,
}

impl SortKey for DiagnosticRank {
    closed spec fn key_lt(&self, other: &Self) -> bool {
        self.weight > other.weight || (self.weight == other.weight && (lex_lt(self.kind@, other.kind@)
            || (self.kind@ == other.kind@ && (lex_lt(self.id@, other.id@) || (self.id@ == other.id@ && self.index < other.index)))))
    }

    proof fn lemma_key_lt_transitive(a: &Self, b: &Self, c: &Self) {
        if lex_lt(a.kind@, b.kind@) && lex_lt(b.kind@, c.kind@) {
            lemma_lex_lt_transitive(a.kind@, b.kind@, c.kind@);
        }
        if lex_lt(a.id@, b.id@) && lex_lt(b.id@, c.id@) {
            lemma_lex_lt_transitive(a.id@, b.id@, c.id@);
        }
    }

    proof fn lemma_key_lt_irreflexive(a: &Self) {
        lemma_lex_lt_irreflexive(a.kind@);
        lemma_lex_lt_irreflexive(a.id@);
    }

    fn lt(&self, other: &Self) -> (r: bool) {
        if self.weight != other.weight {
            self.weight > other.weight
        } else if str_lt(self.kind.as_str(), other.kind.as_str()) {
            true
        } else if !str_eq(self.kind.as_str(), other.kind.as_str()) {
            false
        } else if str_lt(self.id.as_str(), other.id.as_str()) {
            true
        } else if str_eq(self.id.as_str(), other.id.as_str()) {
            self.index < other.index
        } else {
            false
        }
    }
}

impl Ranked for DiagnosticRank {
    closed spec fn position(&self) -> int {
        self.index as int
    }

    fn pos(&self) -> (r: usize) {
        self.index
    }
}

/// The overview entry of a diagnostic.
fn diagnostic_overview(d: &crate::snapshot::Diagnostic) -> (r: DiagnosticOverview)
    ensures
        diagnostic_overview_of(r, *d),
{
    let texts = render_evidence(&d.evidence);
    let source = if texts.len() > 0 { Some(texts[0].clone()) } else { None };
    proof {
        if texts@.len() > 0 {
            assert(views(texts@)[0] == texts@[0]@);
        }
    }
    DiagnosticOverview {
        id: d.id.clone(),
        kind: d.kind.clone(),
        severity: d.severity.clone(),
        title: d.title.clone(),
        source,
    }
}

/// `r` lists the `top` open diagnostics, most severe first.
pub open spec fn open_diagnostics_of(r: Seq<DiagnosticOverview>, snapshot: CanonicalSnapshot, top: int) -> bool {
    exists|order: Seq<int>| {
        &&& #[trigger] lists_exactly(order, snapshot.diagnostics@.len() as int, open_diagnostic(snapshot))
        &&& sorted_by(order, |a: int, b: int| diagnostic_first(snapshot, a, b))
        &&& r.len() == min_int(order.len() as int, top)
        &&& forall|i: int| 0 <= i < r.len() ==> diagnostic_overview_of(#[trigger] r[i], snapshot.diagnostics@[order[i]])
    }
}

/// The `top` open diagnostics, most severe first, ties by kind and id.
pub fn diagnostic_overviews(snapshot: &CanonicalSnapshot, top: usize) -> (r: Vec<DiagnosticOverview>)
    ensures
        open_diagnostics_of(r@, *snapshot, top as int),
{
    let n = snapshot.diagnostics.len();
    let ghost member = open_diagnostic(*snapshot);
    let mut keys: Vec<DiagnosticRank> = Vec::new();
    let mut i: usize = 0;
    while i < n
        invariant
            n == snapshot.diagnostics@.len(),
            i <= n,
            member == open_diagnostic(*snapshot),
            forall|a: int| 0 <= a < keys@.len() ==> (#[trigger] keys@[a]).index < i
                && member(keys@[a].index as int)
                && keys@[a].weight == severity_weight(snapshot.diagnostics@[keys@[a].index as int].severity@)
                && keys@[a].kind@ == snapshot.diagnostics@[keys@[a].index as int].kind@
                && keys@[a].id@ == snapshot.diagnostics@[keys@[a].index as int].id@,
            forall|a: int, b: int| 0 <= a < b < keys@.len() ==> (#[trigger] keys@[a]).index < (#[trigger] keys@[b]).index,
            forall|j: int| 0 <= j < i && #[trigger] member(j) ==> exists|a: int| 0 <= a < keys@.len() && (#[trigger] keys@[a]).index == j,
        decreases n - i,
    {
        let d = &snapshot.diagnostics[i];
        let ghost before = keys@;
        if str_eq(d.status.as_str(), "open") {
            keys.push(DiagnosticRank { weight: severity_rank(d.severity.as_str()), kind: d.kind.clone(), id: d.id.clone(), index: i });
            assert(keys@[keys@.len() - 1].index == i);
        }
        proof {
            assert forall|j: int| 0 <= j < i + 1 && #[trigger] member(j) implies exists|a: int|
                0 <= a < keys@.len() && (#[trigger] keys@[a]).index == j by {
                if j < i {
                    let a = choose|a: int| 0 <= a < before.len() && (#[trigger] before[a]).index == j;
                    assert(keys@[a] == before[a]);
                } else {
                    assert(keys@[keys@.len() - 1].index == j);
                }
            }
        }
        i = i + 1;
    }
    let ghost diag_order = |a: int, b: int| diagnostic_first(*snapshot, a, b);
    let order = rank_positions(keys, Ghost(n as int), Ghost(member), Ghost(diag_order));
    let ghost o = as_ints(order@);
    let keep = if order.len() < top { order.len() } else { top };
    let mut r: Vec<DiagnosticOverview> = Vec::new();
    let mut q: usize = 0;
    while q < keep
        invariant
            keep <= order@.len(),
            o == as_ints(order@),
            lists_exactly(o, n as int, member),
            n == snapshot.diagnostics@.len(),
            q <= keep,
            r@.len() == q,
            forall|a: int| 0 <= a < q ==> diagnostic_overview_of(#[trigger] r@[a], snapshot.diagnostics@[o[a]]),
        decreases keep - q,
    {
        assert(0 <= o[q as int] < n);
        r.push(diagnostic_overview(&snapshot.diagnostics[order[q]]));
        q = q + 1;
    }
    assert(sorted_by(o, diag_order));
    r
}

/// The module entities.
pub open spec fn is_module(s: CanonicalSnapshot) -> spec_fn(int) -> bool {
    |i: int| s.entities@[i].kind@ == "module"@
}

/// No earlier module entity carries the id of the `i`-th entity: the members recorded
/// under an id go to the first module that carries it.
pub open spec fn first_module_with_id(s: CanonicalSnapshot, i: int) -> bool {
    forall|j: int| 0 <= j < i && #[trigger] s.entities@[j].kind@ == "module"@ ==> s.entities@[j].id@ != s.entities@[i].id@
}

/// The relations that define or contain a member of the `i`-th entity, as a module.
pub open spec fn member_relation(s: CanonicalSnapshot, i: int) -> spec_fn(int) -> bool {
    |r: int| first_module_with_id(s, i)
        && (s.relations@[r].kind@ == "defines"@ || s.relations@[r].kind@ == "contains"@)
        && s.relations@[r].from@ == s.entities@[i].id@
}

/// How many direct members the `i`-th entity has, as a module.
pub open spec fn members_of(s: CanonicalSnapshot, i: int) -> nat {
    count_below(s.relations@.len() as int, member_relation(s, i))
}

/// Module order: direct members descending, then stable key, then position.
pub open spec fn module_first(s: CanonicalSnapshot, i: int, j: int) -> bool {
    let ki = s.entities@[i].stable_key@;
    let kj = s.entities@[j].stable_key@;
    members_of(s, i) > members_of(s, j) || (members_of(s, i) == members_of(s, j) && (lex_lt(ki, kj) || (ki == kj && i < j)))
}

/// The overview entry of the `i`-th entity, as a module.
pub open spec fn module_overview_of(o: ModuleOverview, s: CanonicalSnapshot, i: int, top: int) -> bool {
    let e = s.entities@[i];
    &&& o.stable_key@ == e.stable_key@
    &&& o.name@ == e.name@
    &&& opt_view(o.source) == source_text(e.source)
    &&& o.direct_members == members_of(s, i)
    &&& lists_relation_ids(o.relation_ids@, s, member_relation(s, i), top)
    &&& o.omitted_relation_ids == members_of(s, i) - o.relation_ids@.len()
}

/// Marks the member relations of the `i`-th entity, as a module.
fn module_mask(snapshot: &CanonicalSnapshot, i: usize) -> (mask: Vec<bool>)
    requires
        i < snapshot.entities@.len(),
    ensures
        mask@.len() == snapshot.relations@.len(),
        forall|j: int| 0 <= j < mask@.len() ==> #[trigger] mask@[j] == member_relation(*snapshot, i as int)(j),
{
    let e = &snapshot.entities[i];
    let mut fresh = true;
    let mut j: usize = 0;
    while j < i
        invariant
            i < snapshot.entities@.len(),
            j <= i,
            *e == snapshot.entities@[i as int],
            fresh == forall|q: int| 0 <= q < j && #[trigger] snapshot.entities@[q].kind@ == "module"@ ==> snapshot.entities@[q].id@ != e.id@,
        decreases i - j,
    {
        if str_eq(snapshot.entities[j].kind.as_str(), "module") && str_eq(snapshot.entities[j].id.as_str(), e.id.as_str()) {
            fresh = false;
        }
        j = j + 1;
    }
    let mut mask: Vec<bool> = Vec::new();
    let mut k: usize = 0;
    while k < snapshot.relations.len()
        invariant
            i < snapshot.entities@.len(),
            *e == snapshot.entities@[i as int],
            fresh == first_module_with_id(*snapshot, i as int),
            k <= snapshot.relations@.len(),
            mask@.len() == k,
            forall|q: int| 0 <= q < k ==> #[trigger] mask@[q] == member_relation(*snapshot, i as int)(q),
        decreases snapshot.relations.len() - k,
    {
        let r = &snapshot.relations[k];
        let hit = fresh && (str_eq(r.kind.as_str(), "defines") || str_eq(r.kind.as_str(), "contains"))
            && str_eq(r.from.as_str(), e.id.as_str());
        mask.push(hit);
        k = k + 1;
    }
    mask
}

/// The overview entry of the `i`-th entity, as a module.
fn module_overview(snapshot: &CanonicalSnapshot, i: usize, top: usize) -> (r: ModuleOverview)
    requires
        i < snapshot.entities@.len(),
    ensures
        module_overview_of(r, *snapshot, i as int, top as int),
{
    let mask = module_mask(snapshot, i);
    let (ids, total) = crate::graph::marked_relation_ids(snapshot, &mask, top, Ghost(member_relation(*snapshot, i as int)));
    let e = &snapshot.entities[i];
    let omitted = total - ids.len();
    ModuleOverview {
        stable_key: e.stable_key.clone(),
        name: e.name.clone(),
        source: render_source(&e.source),
        direct_members: total,
        relation_ids: ids,
        omitted_relation_ids: omitted,
    }
}

/// The key a module is ranked by.
struct ModuleRank {
    members: usize,
    stable_key: String,
    index: usize,
}

impl SortKey for ModuleRank {
    closed spec fn key_lt(&self, other: &Self) -> bool {
        self.members > other.members || (self.members == other.members && (lex_lt(self.stable_key@, other.stable_key@)
            || (self.stable_key@ == other.stable_key@ && self.index < other.index)))
    }

    proof fn lemma_key_lt_transitive(a: &Self, b: &Self, c: &Self) {
        if lex_lt(a.stable_key@, b.stable_key@) && lex_lt(b.stable_key@, c.stable_key@) {
            lemma_lex_lt_transitive(a.stable_key@, b.stable_key@, c.stable_key@);
        }
    }

    proof fn lemma_key_lt_irreflexive(a: &Self) {
        lemma_lex_lt_irreflexive(a.stable_key@);
    }

    fn lt(&self, other: &Self) -> (r: bool) {
        if self.members != other.members {
            self.members > other.members
        } else if str_lt(self.stable_key.as_str(), other.stable_key.as_str()) {
            true
        } else if str_eq(self.stable_key.as_str(), other.stable_key.as_str()) {
            self.index < other.index
        } else {
            false
        }
    }
}

impl Ranked for ModuleRank {
    closed spec fn position(&self) -> int {
        self.index as int
    }

    fn pos(&self) -> (r: usize) {
        self.index
    }
}

/// `r` lists the `top` modules with the most direct members.
pub open spec fn modules_of(r: Seq<ModuleOverview>, snapshot: CanonicalSnapshot, top: int) -> bool {
    exists|order: Seq<int>| {
        &&& #[trigger] lists_exactly(order, snapshot.entities@.len() as int, is_module(snapshot))
        &&& sorted_by(order, |a: int, b: int| module_first(snapshot, a, b))
        &&& r.len() == min_int(order.len() as int, top)
        &&& forall|i: int| 0 <= i < r.len() ==> module_overview_of(#[trigger] r[i], snapshot, order[i], top)
    }
}

/// The `top` modules with the most direct members, ties by stable key, each with the
/// first `top` ids of its member relations.
pub fn module_structure(snapshot: &CanonicalSnapshot, top: usize) -> (r: Vec<ModuleOverview>)
    ensures
        modules_of(r@, *snapshot, top as int),
{
    let n = snapshot.entities.len();
    let ghost member = is_module(*snapshot);
    let mut keys: Vec<ModuleRank> = Vec::new();
    let mut i: usize = 0;
    while i < n
        invariant
            n == snapshot.entities@.len(),
            i <= n,
            member == is_module(*snapshot),
            forall|a: int| 0 <= a < keys@.len() ==> (#[trigger] keys@[a]).index < i
                && member(keys@[a].index as int)
                && keys@[a].stable_key@ == snapshot.entities@[keys@[a].index as int].stable_key@
                && keys@[a].members == members_of(*snapshot, keys@[a].index as int),
            forall|a: int, b: int| 0 <= a < b < keys@.len() ==> (#[trigger] keys@[a]).index < (#[trigger] keys@[b]).index,
            forall|j: int| 0 <= j < i && #[trigger] member(j) ==> exists|a: int| 0 <= a < keys@.len() && (#[trigger] keys@[a]).index == j,
        decreases n - i,
    {
        let e = &snapshot.entities[i];
        let ghost before = keys@;
        if str_eq(e.kind.as_str(), "module") {
            let mask = module_mask(snapshot, i);
            let (_ids, total) = crate::graph::marked_relation_ids(snapshot, &mask, 0, Ghost(member_relation(*snapshot, i as int)));
            keys.push(ModuleRank { members: total, stable_key: e.stable_key.clone(), index: i });
            assert(keys@[keys@.len() - 1].index == i);
        }
        proof {
            assert forall|j: int| 0 <= j < i + 1 && #[trigger] member(j) implies exists|a: int|
                0 <= a < keys@.len() && (#[trigger] keys@[a]).index == j by {
                if j < i {
                    let a = choose|a: int| 0 <= a < before.len() && (#[trigger] before[a]).index == j;
                    assert(keys@[a] == before[a]);
                } else {
                    assert(keys@[keys@.len() - 1].index == j);
                }
            }
        }
        i = i + 1;
    }
    let ghost module_order = |a: int, b: int| module_first(*snapshot, a, b);
    let order = rank_positions(keys, Ghost(n as int), Ghost(member), Ghost(module_order));
    let ghost o = as_ints(order@);
    let keep = if order.len() < top { order.len() } else { top };
    let mut r: Vec<ModuleOverview> = Vec::new();
    let mut q: usize = 0;
    while q < keep
        invariant
            keep <= order@.len(),
            o == as_ints(order@),
            lists_exactly(o, n as int, member),
            n == snapshot.entities@.len(),
            q <= keep,
            r@.len() == q,
            forall|a: int| 0 <= a < q ==> module_overview_of(#[trigger] r@[a], *snapshot, o[a], top as int),
        decreases keep - q,
    {
        assert(0 <= o[q as int] < n);
        r.push(module_overview(snapshot, order[q], top));
        q = q + 1;
    }
    assert(sorted_by(o, module_order));
    r
}

/// The source root recorded for an entity id: that of the last entity that carries the
/// id and has a root, as a map filled in entity order keeps the last insertion.
pub open spec fn id_root(ents: Seq<Entity>, id: Seq<char>) -> Option<Seq<char>>
    decreases ents.len(),
{
    if ents.len() == 0 {
        None
    } else if ents.last().id@ == id && source_root(ents.last()) is Some {
        source_root(ents.last())
    } else {
        id_root(ents.drop_last(), id)
    }
}

/// Finds the source root recorded for an entity id, as `id_root` says.
fn id_root_of(snapshot: &CanonicalSnapshot, id: &String) -> (r: Option<String>)
    ensures
        opt_view(r) == id_root(snapshot.entities@, id@),
{
    let mut i: usize = snapshot.entities.len();
    assert(snapshot.entities@.subrange(0, i as int) =~= snapshot.entities@);
    while i > 0
        invariant
            i <= snapshot.entities@.len(),
            id_root(snapshot.entities@, id@) == id_root(snapshot.entities@.subrange(0, i as int), id@),
        decreases i,
    {
        let ghost s = snapshot.entities@.subrange(0, i as int);
        assert(s.last() == snapshot.entities@[i - 1]);
        assert(s.drop_last() =~= snapshot.entities@.subrange(0, i - 1));
        let e = &snapshot.entities[i - 1];
        if str_eq(e.id.as_str(), id.as_str()) {
            let root = entity_source_root(e);
            if root.is_some() {
                return root;
            }
        }
        i = i - 1;
    }
    None
}

/// The pair of source roots that the `j`-th relation crosses, if its endpoints have
/// different roots.
pub open spec fn crossing(s: CanonicalSnapshot, j: int) -> Option<(Seq<char>, Seq<char>)> {
    let r = s.relations@[j];
    match (id_root(s.entities@, r.from@), id_root(s.entities@, r.to@)) {
        (Some(a), Some(b)) => if a != b { Some((a, b)) } else { None },
        _ => None,
    }
}

/// The relations that cross from one root to another of the pair `p`.
pub open spec fn in_boundary(s: CanonicalSnapshot, p: (Seq<char>, Seq<char>)) -> spec_fn(int) -> bool {
    |j: int| crossing(s, j) == Some(p)
}

/// How many relations cross the boundary `p`.
pub open spec fn boundary_size(s: CanonicalSnapshot, p: (Seq<char>, Seq<char>)) -> nat {
    count_below(s.relations@.len() as int, in_boundary(s, p))
}

/// The kinds of the first `n` relations that `member` admits, in relation order.
pub open spec fn kinds_where(s: CanonicalSnapshot, member: spec_fn(int) -> bool, n: int) -> Seq<Seq<char>>
    decreases n,
{
    if n <= 0 {
        Seq::empty()
    } else if member(n - 1) {
        kinds_where(s, member, n - 1).push(s.relations@[n - 1].kind@)
    } else {
        kinds_where(s, member, n - 1)
    }
}

/// Boundary order: more relations first, then by the from root, then the to root.
pub open spec fn boundary_first(s: CanonicalSnapshot, p: (Seq<char>, Seq<char>), q: (Seq<char>, Seq<char>)) -> bool {
    boundary_size(s, p) > boundary_size(s, q) || (boundary_size(s, p) == boundary_size(s, q)
        && (lex_lt(p.0, q.0) || (p.0 == q.0 && lex_lt(p.1, q.1))))
}

/// `pairs` lists each crossed pair of roots once, in boundary order.
pub open spec fn ranked_boundaries(pairs: Seq<(Seq<char>, Seq<char>)>, s: CanonicalSnapshot) -> bool {
    &&& pairs.no_duplicates()
    &&& forall|p: (Seq<char>, Seq<char>)| pairs.contains(p) <==> exists|j: int| 0 <= j < s.relations@.len() && #[trigger] crossing(s, j) == Some(p)
    &&& forall|i: int, j: int| 0 <= i < j < pairs.len() ==> boundary_first(s, #[trigger] pairs[i], #[trigger] pairs[j])
}

/// The overview entry of the boundary `p`.
pub open spec fn boundary_of(b: IntegrationBoundaryOverview, s: CanonicalSnapshot, p: (Seq<char>, Seq<char>), top: int) -> bool {
    &&& b.from_root@ == p.0
    &&& b.to_root@ == p.1
    &&& b.relations == boundary_size(s, p)
    &&& top_counts_of(b.relation_kinds@, kinds_where(s, in_boundary(s, p), s.relations@.len() as int), top)
    &&& lists_relation_ids(b.relation_ids@, s, in_boundary(s, p), top)
    &&& b.omitted_relation_ids == boundary_size(s, p) - b.relation_ids@.len()
}

/// The crossing of each relation.
fn crossings(snapshot: &CanonicalSnapshot) -> (c: Vec<Option<(String, String)>>)
    ensures
        c@.len() == snapshot.relations@.len(),
        forall|j: int| 0 <= j < c@.len() ==> (match #[trigger] c@[j] {
            None => crossing(*snapshot, j) is None,
            Some(p) => crossing(*snapshot, j) == Some(pair_view(p)),
        }),
{
    let mut c: Vec<Option<(String, String)>> = Vec::new();
    let mut j: usize = 0;
    while j < snapshot.relations.len()
        invariant
            j <= snapshot.relations@.len(),
            c@.len() == j,
            forall|q: int| 0 <= q < j ==> (match #[trigger] c@[q] {
                None => crossing(*snapshot, q) is None,
                Some(p) => crossing(*snapshot, q) == Some(pair_view(p)),
            }),
        decreases snapshot.relations.len() - j,
    {
        let r = &snapshot.relations[j];
        let from = id_root_of(snapshot, &r.from);
        let to = id_root_of(snapshot, &r.to);
        let x = match (from, to) {
            (Some(a), Some(b)) => if !str_eq(a.as_str(), b.as_str()) { Some((a, b)) } else { None },
            _ => None,
        };
        c.push(x);
        j = j + 1;
    }
    c
}

/// Marks the relations that cross the boundary `p`.
fn boundary_mask(snapshot: &CanonicalSnapshot, c: &Vec<Option<(String, String)>>, p: &(String, String)) -> (mask: Vec<bool>)
    requires
        c@.len() == snapshot.relations@.len(),
        forall|j: int| 0 <= j < c@.len() ==> (match #[trigger] c@[j] {
            None => crossing(*snapshot, j) is None,
            Some(q) => crossing(*snapshot, j) == Some(pair_view(q)),
        }),
    ensures
        mask@.len() == snapshot.relations@.len(),
        forall|j: int| 0 <= j < mask@.len() ==> #[trigger] mask@[j] == in_boundary(*snapshot, pair_view(*p))(j),
{
    let mut mask: Vec<bool> = Vec::new();
    let mut j: usize = 0;
    while j < c.len()
        invariant
            c@.len() == snapshot.relations@.len(),
            forall|q: int| 0 <= q < c@.len() ==> (match #[trigger] c@[q] {
                None => crossing(*snapshot, q) is None,
                Some(x) => crossing(*snapshot, q) == Some(pair_view(x)),
            }),
            j <= c@.len(),
            mask@.len() == j,
            forall|q: int| 0 <= q < j ==> #[trigger] mask@[q] == in_boundary(*snapshot, pair_view(*p))(q),
        decreases c.len() - j,
    {
        let hit = match &c[j] {
            None => false,
            Some(x) => str_eq(x.0.as_str(), p.0.as_str()) && str_eq(x.1.as_str(), p.1.as_str()),
        };
        mask.push(hit);
        j = j + 1;
    }
    mask
}

/// The kinds of the relations that `mask` marks, in relation order.
fn marked_kinds(snapshot: &CanonicalSnapshot, mask: &Vec<bool>, Ghost(member): Ghost<spec_fn(int) -> bool>) -> (k: Vec<String>)
    requires
        mask@.len() == snapshot.relations@.len(),
        forall|j: int| 0 <= j < mask@.len() ==> #[trigger] mask@[j] == member(j),
    ensures
        views(k@) == kinds_where(*snapshot, member, snapshot.relations@.len() as int),
{
    let mut k: Vec<String> = Vec::new();
    let mut j: usize = 0;
    while j < mask.len()
        invariant
            mask@.len() == snapshot.relations@.len(),
            forall|q: int| 0 <= q < mask@.len() ==> #[trigger] mask@[q] == member(q),
            j <= mask@.len(),
            views(k@) == kinds_where(*snapshot, member, j as int),
        decreases mask.len() - j,
    {
        if mask[j] {
            k.push(snapshot.relations[j].kind.clone());
        }
        j = j + 1;
        assert(views(k@) =~= kinds_where(*snapshot, member, j as int));
    }
    k
}

/// The key a boundary is ranked by.
struct BoundaryRank {
    count: usize,
    from_root: String,
    to_root: String,
    index: usize,
}

impl SortKey for BoundaryRank {
    closed spec fn key_lt(&self, other: &Self) -> bool {
        self.count > other.count || (self.count == other.count && (lex_lt(self.from_root@, other.from_root@)
            || (self.from_root@ == other.from_root@ && lex_lt(self.to_root@, other.to_root@))))
    }

    proof fn lemma_key_lt_transitive(a: &Self, b: &Self, c: &Self) {
        if lex_lt(a.from_root@, b.from_root@) && lex_lt(b.from_root@, c.from_root@) {
            lemma_lex_lt_transitive(a.from_root@, b.from_root@, c.from_root@);
        }
        if lex_lt(a.to_root@, b.to_root@) && lex_lt(b.to_root@, c.to_root@) {
            lemma_lex_lt_transitive(a.to_root@, b.to_root@, c.to_root@);
        }
    }

    proof fn lemma_key_lt_irreflexive(a: &Self) {
        lemma_lex_lt_irreflexive(a.from_root@);
        lemma_lex_lt_irreflexive(a.to_root@);
    }

    fn lt(&self, other: &Self) -> (r: bool) {
        if self.count != other.count {
            self.count > other.count
        } else if str_lt(self.from_root.as_str(), other.from_root.as_str()) {
            true
        } else if str_eq(self.from_root.as_str(), other.from_root.as_str()) {
            str_lt(self.to_root.as_str(), other.to_root.as_str())
        } else {
            false
        }
    }
}

impl Ranked for BoundaryRank {
    closed spec fn position(&self) -> int {
        self.index as int
    }

    fn pos(&self) -> (r: usize) {
        self.index
    }
}

/// The distinct crossed pairs of roots, in the order they first occur.
fn distinct_crossings(snapshot: &CanonicalSnapshot, c: &Vec<Option<(String, String)>>) -> (pairs: Vec<(String, String)>)
    requires
        c@.len() == snapshot.relations@.len(),
        forall|j: int| 0 <= j < c@.len() ==> (match #[trigger] c@[j] {
            None => crossing(*snapshot, j) is None,
            Some(q) => crossing(*snapshot, j) == Some(pair_view(q)),
        }),
    ensures
        pair_views(pairs@).no_duplicates(),
        forall|p: (Seq<char>, Seq<char>)| pair_views(pairs@).contains(p)
            <==> exists|j: int| 0 <= j < snapshot.relations@.len() && #[trigger] crossing(*snapshot, j) == Some(p),
{
    let pairs = distinct_pairs(c);
    assert forall|p: (Seq<char>, Seq<char>)| pair_views(pairs@).contains(p)
        <==> exists|j: int| 0 <= j < snapshot.relations@.len() && #[trigger] crossing(*snapshot, j) == Some(p) by {
        assert(pair_views(pairs@).contains(p) == offered(c@, p));
        if offered(c@, p) {
            let k = choose|k: int| 0 <= k < c@.len() && #[trigger] opt_pair_view(c@[k]) == Some(p);
            assert(crossing(*snapshot, k) == Some(p));
        }
        if exists|j: int| 0 <= j < snapshot.relations@.len() && #[trigger] crossing(*snapshot, j) == Some(p) {
            let j = choose|j: int| 0 <= j < snapshot.relations@.len() && #[trigger] crossing(*snapshot, j) == Some(p);
            assert(opt_pair_view(c@[j]) == Some(p));
        }
    }
    pairs
}

/// The overview entry of the boundary `p`.
fn boundary_overview(
    snapshot: &CanonicalSnapshot,
    c: &Vec<Option<(String, String)>>,
    p: &(String, String),
    top: usize,
) -> (b: IntegrationBoundaryOverview)
    requires
        c@.len() == snapshot.relations@.len(),
        forall|j: int| 0 <= j < c@.len() ==> (match #[trigger] c@[j] {
            None => crossing(*snapshot, j) is None,
            Some(q) => crossing(*snapshot, j) == Some(pair_view(q)),
        }),
    ensures
        boundary_of(b, *snapshot, pair_view(*p), top as int),
{
    let mask = boundary_mask(snapshot, c, p);
    let ghost member = in_boundary(*snapshot, pair_view(*p));
    let (ids, total) = crate::graph::marked_relation_ids(snapshot, &mask, top, Ghost(member));
    let kinds = marked_kinds(snapshot, &mask, Ghost(member));
    let omitted = total - ids.len();
    IntegrationBoundaryOverview {
        from_root: p.0.clone(),
        to_root: p.1.clone(),
        relations: total,
        relation_kinds: top_counts(&kinds, top),
        relation_ids: ids,
        omitted_relation_ids: omitted,
    }
}

/// `r` lists the `top` most crossed boundaries between source roots.
pub open spec fn boundaries_of(r: Seq<IntegrationBoundaryOverview>, snapshot: CanonicalSnapshot, top: int) -> bool {
    exists|pairs: Seq<(Seq<char>, Seq<char>)>| {
        &&& #[trigger] ranked_boundaries(pairs, snapshot)
        &&& r.len() == min_int(pairs.len() as int, top)
        &&& forall|i: int| 0 <= i < r.len() ==> boundary_of(#[trigger] r[i], snapshot, pairs[i], top)
    }
}

/// The `top` pairs of source roots that the most relations cross, ties by the roots,
/// each with its relation kinds and the first `top` relation ids.
pub fn integration_boundaries(snapshot: &CanonicalSnapshot, top: usize) -> (r: Vec<IntegrationBoundaryOverview>)
    ensures
        boundaries_of(r@, *snapshot, top as int),
{
    let c = crossings(snapshot);
    let pairs = distinct_crossings(snapshot, &c);
    let ghost pv = pair_views(pairs@);
    let mut keys: Vec<BoundaryRank> = Vec::new();
    let mut t: usize = 0;
    while t < pairs.len()
        invariant
            c@.len() == snapshot.relations@.len(),
            forall|j: int| 0 <= j < c@.len() ==> (match #[trigger] c@[j] {
                None => crossing(*snapshot, j) is None,
                Some(q) => crossing(*snapshot, j) == Some(pair_view(q)),
            }),
            pv == pair_views(pairs@),
            t <= pairs@.len(),
            keys@.len() == t,
            forall|a: int| 0 <= a < t ==> (#[trigger] keys@[a]).index == a && keys@[a].count == boundary_size(*snapshot, pv[a])
                && keys@[a].from_root@ == pv[a].0 && keys@[a].to_root@ == pv[a].1,
        decreases pairs.len() - t,
    {
        let mask = boundary_mask(snapshot, &c, &pairs[t]);
        let (_ids, total) = crate::graph::marked_relation_ids(snapshot, &mask, 0, Ghost(in_boundary(*snapshot, pv[t as int])));
        keys.push(BoundaryRank { count: total, from_root: pairs[t].0.clone(), to_root: pairs[t].1.clone(), index: t });
        t = t + 1;
    }
    let ghost nn = pairs@.len() as int;
    let ghost before = |a: int, b: int| boundary_first(*snapshot, pv[a], pv[b]);
    let ghost every = |a: int| true;
    proof {
        assert forall|j: int| 0 <= j < nn && #[trigger] every(j) implies exists|a: int| 0 <= a < keys@.len() && (#[trigger] keys@[a]).position() == j by {
            assert(keys@[j].position() == j);
        }
    }
    let order = rank_positions(keys, Ghost(nn), Ghost(every), Ghost(before));
    let ghost o = as_ints(order@);
    let ghost ranked = Seq::new(o.len(), |q: int| pv[o[q]]);
    proof {
        assert(ranked.no_duplicates()) by {
            assert forall|a: int, b: int| 0 <= a < ranked.len() && 0 <= b < ranked.len() && a != b
                implies ranked[a] != ranked[b] by {
                assert(o[a] != o[b]);
            }
        }
        assert forall|p: (Seq<char>, Seq<char>)| ranked.contains(p)
            <==> exists|j: int| 0 <= j < snapshot.relations@.len() && #[trigger] crossing(*snapshot, j) == Some(p) by {
            if ranked.contains(p) {
                let q = choose|q: int| 0 <= q < ranked.len() && #[trigger] ranked[q] == p;
                assert(pv[o[q]] == p);
                assert(pv.contains(p));
            }
            if exists|j: int| 0 <= j < snapshot.relations@.len() && #[trigger] crossing(*snapshot, j) == Some(p) {
                assert(pv.contains(p));
                let x = choose|x: int| 0 <= x < pv.len() && #[trigger] pv[x] == p;
                assert(every(x));
                assert(o.contains(x));
                let q = choose|q: int| 0 <= q < o.len() && #[trigger] o[q] == x;
                assert(ranked[q] == p);
            }
        }
        assert forall|a: int, b: int| 0 <= a < b < ranked.len() implies boundary_first(*snapshot, #[trigger] ranked[a], #[trigger] ranked[b]) by {
            assert(!before(o[b], o[a]));
            assert(o[a] != o[b]);
            assert(pv[o[a]] != pv[o[b]]);
            lemma_lex_total(ranked[a].0, ranked[b].0);
            lemma_lex_total(ranked[a].1, ranked[b].1);
        }
        assert(ranked_boundaries(ranked, *snapshot));
    }
    let keep = if order.len() < top { order.len() } else { top };
    let mut r: Vec<IntegrationBoundaryOverview> = Vec::new();
    let mut q: usize = 0;
    while q < keep
        invariant
            c@.len() == snapshot.relations@.len(),
            forall|j: int| 0 <= j < c@.len() ==> (match #[trigger] c@[j] {
                None => crossing(*snapshot, j) is None,
                Some(x) => crossing(*snapshot, j) == Some(pair_view(x)),
            }),
            keep <= order@.len(),
            o == as_ints(order@),
            lists_exactly(o, nn, every),
            every == (|a: int| true),
            nn == pairs@.len(),
            pv == pair_views(pairs@),
            ranked == Seq::new(o.len(), |x: int| pv[o[x]]),
            q <= keep,
            r@.len() == q,
            forall|a: int| 0 <= a < q ==> boundary_of(#[trigger] r@[a], *snapshot, ranked[a], top as int),
        decreases keep - q,
    {
        let x = order[q];
        assert(0 <= o[q as int] < nn);
        assert(pair_view(pairs@[x as int]) == ranked[q as int]);
        r.push(boundary_overview(snapshot, &c, &pairs[x], top));
        q = q + 1;
    }
    proof {
        crate::sort::lemma_lists_exactly_len(o, nn, every);
        lemma_count_all(nn);
    }
    assert(r@.len() == min_int(ranked.len() as int, top as int));
    r
}

/// The kinds of the snapshot's entities, in order.
pub open spec fn entity_kinds(s: CanonicalSnapshot) -> Seq<Seq<char>> {
    Seq::new(s.entities@.len(), |i: int| s.entities@[i].kind@)
}

/// The kinds of the snapshot's relations, in order.
pub open spec fn relation_kinds(s: CanonicalSnapshot) -> Seq<Seq<char>> {
    Seq::new(s.relations@.len(), |j: int| s.relations@[j].kind@)
}

/// The source roots of the entities that have one, in order.
pub open spec fn source_roots(ents: Seq<Entity>) -> Seq<Seq<char>>
    decreases ents.len(),
{
    if ents.len() == 0 {
        Seq::empty()
    } else {
        match source_root(ents.last()) {
            None => source_roots(ents.drop_last()),
            Some(root) => source_roots(ents.drop_last()).push(root),
        }
    }
}

/// The totals of a snapshot.
pub open spec fn totals_of(t: OverviewTotals, s: CanonicalSnapshot) -> bool {
    &&& t.entities == s.entities@.len()
    &&& t.facts == s.facts@.len()
    &&& t.relations == s.relations@.len()
    &&& t.diagnostics == s.diagnostics@.len()
    &&& t.open_diagnostics == count_below(s.diagnostics@.len() as int, open_diagnostic(s))
    &&& t.source_files == kind_count(s, "file"@)
}

/// `o` is the overview of the snapshot with `top` entries at most in each list.
pub open spec fn overview_of(o: RepositoryOverview, s: CanonicalSnapshot, top: int) -> bool {
    &&& o.schema@ == OVERVIEW_SCHEMA_V1@
    &&& o.snapshot@ == snapshot_name(s.snapshot)
    &&& totals_of(o.totals, s)
    &&& top_counts_of(o.entity_kinds@, entity_kinds(s), top)
    &&& top_counts_of(o.relation_kinds@, relation_kinds(s), top)
    &&& top_counts_of(o.source_roots@, source_roots(s.entities@), top)
    &&& api_overview_of(o.api, s)
    &&& docs_overview_of(o.docs, s)
    &&& operations_overview_of(o.operations, s)
    &&& modules_of(o.module_structure@, s, top)
    &&& boundaries_of(o.integration_boundaries@, s, top)
    &&& hubs_of(o.graph_hubs@, s, top)
    &&& open_diagnostics_of(o.open_diagnostics@, s, top)
}

/// Counts the open diagnostics.
fn count_open(snapshot: &CanonicalSnapshot) -> (r: usize)
    ensures
        r == count_below(snapshot.diagnostics@.len() as int, open_diagnostic(*snapshot)),
{
    let mut n: usize = 0;
    let mut i: usize = 0;
    while i < snapshot.diagnostics.len()
        invariant
            i <= snapshot.diagnostics@.len(),
            n == count_below(i as int, open_diagnostic(*snapshot)),
        decreases snapshot.diagnostics.len() - i,
    {
        proof {
            lemma_count_below_bounded(i as int, open_diagnostic(*snapshot));
        }
        if str_eq(snapshot.diagnostics[i].status.as_str(), "open") {
            n = n + 1;
        }
        i = i + 1;
    }
    n
}

/// Summarizes a snapshot: totals, the `top` most frequent entity and relation kinds and
/// source roots, API, documentation and operations counts, and the `top` modules,
/// boundaries, hubs and open diagnostics.
pub fn build_repository_overview(snapshot: &CanonicalSnapshot, top: usize) -> (r: RepositoryOverview)
    requires
        snapshot.relations@.len() <= usize::MAX / 2,
    ensures
        overview_of(r, *snapshot, top as int),
{
    let mut kinds: Vec<String> = Vec::new();
    let mut roots: Vec<String> = Vec::new();
    let mut i: usize = 0;
    while i < snapshot.entities.len()
        invariant
            i <= snapshot.entities@.len(),
            views(kinds@) == entity_kinds(*snapshot).take(i as int),
            kinds@.len() == i,
            views(roots@) == source_roots(snapshot.entities@.take(i as int)),
        decreases snapshot.entities.len() - i,
    {
        let e = &snapshot.entities[i];
        let ghost old_kinds = kinds@;
        kinds.push(e.kind.clone());
        assert forall|a: int| 0 <= a < i + 1 implies #[trigger] views(kinds@)[a] == entity_kinds(*snapshot).take(i + 1)[a] by {
            if a < i {
                assert(kinds@[a] == old_kinds[a]);
                assert(views(old_kinds)[a] == entity_kinds(*snapshot).take(i as int)[a]);
            }
        }
        let root = entity_source_root(e);
        assert(snapshot.entities@.take(i + 1).drop_last() =~= snapshot.entities@.take(i as int));
        match root {
            None => {},
            Some(x) => {
                roots.push(x);
            },
        }
        i = i + 1;
        assert(views(kinds@) =~= entity_kinds(*snapshot).take(i as int));
        assert(views(roots@) =~= source_roots(snapshot.entities@.take(i as int)));
    }
    assert(entity_kinds(*snapshot).take(i as int) =~= entity_kinds(*snapshot));
    assert(snapshot.entities@.take(i as int) =~= snapshot.entities@);
    let mut rkinds: Vec<String> = Vec::new();
    let mut j: usize = 0;
    while j < snapshot.relations.len()
        invariant
            j <= snapshot.relations@.len(),
            views(rkinds@) == relation_kinds(*snapshot).take(j as int),
            rkinds@.len() == j,
        decreases snapshot.relations.len() - j,
    {
        let ghost old_kinds = rkinds@;
        rkinds.push(snapshot.relations[j].kind.clone());
        assert forall|a: int| 0 <= a < j + 1 implies #[trigger] views(rkinds@)[a] == relation_kinds(*snapshot).take(j + 1)[a] by {
            if a < j {
                assert(rkinds@[a] == old_kinds[a]);
                assert(views(old_kinds)[a] == relation_kinds(*snapshot).take(j as int)[a]);
            }
        }
        j = j + 1;
        assert(views(rkinds@) =~= relation_kinds(*snapshot).take(j as int));
    }
    assert(relation_kinds(*snapshot).take(j as int) =~= relation_kinds(*snapshot));
    RepositoryOverview {
        schema: String::from_str(OVERVIEW_SCHEMA),
        snapshot: snapshot_id(snapshot),
        totals: OverviewTotals {
            entities: snapshot.entities.len(),
            facts: snapshot.facts.len(),
            relations: snapshot.relations.len(),
            diagnostics: snapshot.diagnostics.len(),
            open_diagnostics: count_open(snapshot),
            source_files: count_kind(snapshot, "file"),
        },
        entity_kinds: top_counts(&kinds, top),
        relation_kinds: top_counts(&rkinds, top),
        source_roots: top_counts(&roots, top),
        api: api_overview(snapshot),
        docs: docs_overview(snapshot),
        operations: operations_overview(snapshot),
        module_structure: module_structure(snapshot, top),
        integration_boundaries: integration_boundaries(snapshot, top),
        graph_hubs: graph_hubs(snapshot, top),
        open_diagnostics: diagnostic_overviews(snapshot, top),
    }
}

proof fn lemma_no_earlier(vals: Seq<Seq<char>>, v: Seq<char>, i: int, m: int)
    requires
        0 <= m <= i <= vals.len(),
        !vals.take(i).contains(v),
    ensures
        count_below(m, holds_at(vals, v)) == 0,
    decreases m,
{
    if m > 0 {
        lemma_no_earlier(vals, v, i, m - 1);
        if vals[m - 1] == v {
            assert(vals.take(i)[m - 1] == v);
        }
    }
}

proof fn lemma_count_all(n: int)
    requires
        n >= 0,
    ensures
        count_below(n, |a: int| true) == n,
    decreases n,
{
    if n > 0 {
        lemma_count_all(n - 1);
    }
}

} // verus!
