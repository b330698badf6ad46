//! The canonical snapshot that graph, impact and overview queries read, held as plain
//! values, with the lookups that all of them share.

use vstd::prelude::*;
use crate::sort::{count_below, lemma_count_below_bounded};
use crate::text::str_eq;

verus! {

/// Where an entity is declared.
#[derive(Clone, Debug)]
pub struct SourceLocation {
    pub path: String,
    pub line_start: Option<u32>,
}

/// One piece of evidence behind a relation or a diagnostic.
#[derive(Clone, Debug)]
pub struct Evidence {
    pub source_file: Option<String>,
    pub line_start: Option<u32>,
}

/// An entity of the code graph. `kind` holds the kind's serialized name and
/// `kind_label` the kind as its `Debug` form writes it; `ownership` holds the source
/// files of the entity's ownership records; `role` and `contract_version` are the string
/// values of the payload fields of those names, where present.
#[derive(Clone, Debug)]
pub struct Entity {
    pub id: String,
    pub stable_key: String,
    pub kind: String,
    pub kind_label: String,
    pub name: String,
    pub source: Option<SourceLocation>,
    pub ownership: Vec<String>,
    pub role: Option<String>,
    pub contract_version: Option<String>,
}

/// A directed relation between two entities, named by their ids. `kind` and `status`
/// hold serialized names, and `kind_label` the kind as impact paths name it (its
/// serialized name where that is a plain string, else its `Debug` form); `confidence`
/// holds the confidence's decimal text; `schema` is the string value of the payload
/// field of that name, where present.
#[derive(Clone, Debug)]
pub struct Relation {
    pub id: String,
    pub kind: String,
    pub kind_label: String,
    pub from: String,
    pub to: String,
    pub status: String,
    pub confidence: String,
    pub evidence: Vec<Evidence>,
    pub schema: Option<String>,
}

/// A diagnostic attached to the snapshot. `kind`, `severity` and `status` hold
/// serialized names; `module`, `surface`, `role`, `path` and `port` are the string values
/// of the payload fields of those names, where present.
#[derive(Clone, Debug)]
pub struct Diagnostic {
    pub id: String,
    pub kind: String,
    pub severity: String,
    pub status: String,
    pub title: String,
    pub entities: Vec<String>,
    pub evidence: Vec<Evidence>,
    pub module: Option<String>,
    pub surface: Option<String>,
    pub role: Option<String>,
    pub path: Option<String>,
    pub port: Option<String>,
}

/// A fact about an entity, possibly naming a second entity. `module`, `role`, `status`
/// and `contract_version` are the string values of the fields of those names in the
/// fact's value, where present.
#[derive(Clone, Debug)]
pub struct Fact {
    pub id: String,
    pub kind: String,
    pub subject: String,
    pub object: Option<String>,
    pub module: Option<String>,
    pub role: Option<String>,
    pub status: Option<String>,
    pub contract_version: Option<String>,
}

/// A snapshot of the canonical code graph.
#[derive(Clone, Debug)]
pub struct CanonicalSnapshot {
    pub snapshot: Option<String>,
    pub entities: Vec<Entity>,
    pub facts: Vec<Fact>,
    pub relations: Vec<Relation>,
    pub diagnostics: Vec<Diagnostic>,
}

/// The character of a decimal digit.
pub open spec fn digit_char(d: nat) -> char {
    if d == 0 { '0' } else if d == 1 { '1' } else if d == 2 { '2' } else if d == 3 { '3' }
    else if d == 4 { '4' } else if d == 5 { '5' } else if d == 6 { '6' } else if d == 7 { '7' }
    else if d == 8 { '8' } else { '9' }
}

/// The decimal rendering of `n`, as `to_string` gives it.
pub open spec fn decimal(n: nat) -> Seq<char>
    decreases n,
{
    if n < 10 {
        seq![digit_char(n)]
    } else {
        decimal(n / 10).push(digit_char(n % 10))
    }
}

fn digit_str(d: u64) -> (r: &'static str)
    requires
        d < 10,
    ensures
        r@ == seq![digit_char(d as nat)],
{
    proof {
        reveal_strlit("0");
        reveal_strlit("1");
        reveal_strlit("2");
        reveal_strlit("3");
        reveal_strlit("4");
        reveal_strlit("5");
        reveal_strlit("6");
        reveal_strlit("7");
        reveal_strlit("8");
        reveal_strlit("9");
    }
    if d == 0 { "0" } else if d == 1 { "1" } else if d == 2 { "2" } else if d == 3 { "3" }
    else if d == 4 { "4" } else if d == 5 { "5" } else if d == 6 { "6" } else if d == 7 { "7" }
    else if d == 8 { "8" } else { "9" }
}

/// Appends the decimal rendering of `n` to `out`.
pub fn push_decimal(out: &mut String, n: u64)
    ensures
        final(out)@ == old(out)@ + decimal(n as nat),
    decreases n,
{
    if n >= 10 {
        push_decimal(out, n / 10);
    }
    out.append(digit_str(n % 10));
    assert(old(out)@ + decimal(n as nat) =~= if n >= 10 {
        old(out)@ + decimal((n / 10) as nat) + seq![digit_char((n % 10) as nat)]
    } else {
        old(out)@ + seq![digit_char((n % 10) as nat)]
    });
}

/// The decimal rendering of `n`.
pub fn decimal_string(n: u64) -> (r: String)
    ensures
        r@ == decimal(n as nat),
{
    let mut r = String::new();
    push_decimal(&mut r, n);
    assert(r@ =~= decimal(n as nat));
    r
}

/// `path`, or `path:line` where a line is known.
pub open spec fn anchor(path: Seq<char>, line: Option<u32>) -> Seq<char> {
    match line {
        None => path,
        Some(l) => path + seq![':'] + decimal(l as nat),
    }
}

/// Renders `path` with its optional line as `anchor` says.
pub fn render_anchor(path: &String, line: Option<u32>) -> (r: String)
    ensures
        r@ == anchor(path@, line),
{
    let mut r = path.clone();
    match line {
        None => {},
        Some(l) => {
            proof {
                reveal_strlit(":");
            }
            r.append(":");
            push_decimal(&mut r, l as u64);
        },
    }
    r
}

/// The rendered source of an entity.
pub open spec fn source_text(source: Option<SourceLocation>) -> Option<Seq<char>> {
    match source {
        None => None,
        Some(s) => Some(anchor(s.path@, s.line_start)),
    }
}

/// The view of an optional string.
pub open spec fn opt_view(o: Option<String>) -> Option<Seq<char>> {
    match o {
        None => None,
        Some(s) => Some(s@),
    }
}

/// Renders an entity's source as `source_text` says.
pub fn render_source(source: &Option<SourceLocation>) -> (r: Option<String>)
    ensures
        opt_view(r) == source_text(*source),
{
    match source {
        None => None,
        Some(s) => Some(render_anchor(&s.path, s.line_start)),
    }
}

/// The rendered anchors of the evidence that names a file, in order.
pub open spec fn evidence_texts(evidence: Seq<Evidence>) -> Seq<Seq<char>>
    decreases evidence.len(),
{
    if evidence.len() == 0 {
        Seq::empty()
    } else {
        let rest = evidence_texts(evidence.drop_last());
        let e = evidence.last();
        match e.source_file {
            None => rest,
            Some(f) => rest.push(anchor(f@, e.line_start)),
        }
    }
}

/// The views of a vector of strings.
pub open spec fn views(v: Seq<String>) -> Seq<Seq<char>> {
    Seq::new(v.len(), |i: int| v[i]@)
}

/// Renders the evidence of a relation or diagnostic as `evidence_texts` says.
pub fn render_evidence(evidence: &Vec<Evidence>) -> (r: Vec<String>)
    ensures
        views(r@) == evidence_texts(evidence@),
{
    let mut r: Vec<String> = Vec::new();
    let mut i: usize = 0;
    while i < evidence.len()
        invariant
            i <= evidence@.len(),
            views(r@) == evidence_texts(evidence@.subrange(0, i as int)),
        decreases evidence.len() - i,
    {
        let e = &evidence[i];
        assert(evidence@.subrange(0, i + 1).drop_last() =~= evidence@.subrange(0, i as int));
        match &e.source_file {
            None => {},
            Some(f) => {
                let t = render_anchor(f, e.line_start);
                r.push(t);
            },
        }
        i = i + 1;
        assert(views(r@) =~= evidence_texts(evidence@.subrange(0, i as int)));
    }
    assert(evidence@.subrange(0, i as int) =~= evidence@);
    r
}

/// The snapshot's name, or `unknown`.
pub open spec fn snapshot_name(snapshot: Option<String>) -> Seq<char> {
    match snapshot {
        None => "unknown"@,
        Some(s) => s@,
    }
}

/// Renders the snapshot's name as `snapshot_name` says.
pub fn snapshot_id(snapshot: &CanonicalSnapshot) -> (r: String)
    ensures
        r@ == snapshot_name(snapshot.snapshot),
{
    match &snapshot.snapshot {
        None => String::from_str("unknown"),
        Some(s) => s.clone(),
    }
}

/// The entity that an id names: the last entity that carries it, as a map built from
/// the entity list keeps the last insertion.
pub open spec fn entity_index(entities: Seq<Entity>, id: Seq<char>) -> Option<int>
    decreases entities.len(),
{
    if entities.len() == 0 {
        None
    } else if entities.last().id@ == id {
        Some(entities.len() - 1)
    } else {
        entity_index(entities.drop_last(), id)
    }
}

pub proof fn lemma_entity_index(entities: Seq<Entity>, id: Seq<char>)
    ensures
        match entity_index(entities, id) {
            None => forall|i: int| 0 <= i < entities.len() ==> entities[i].id@ != id,
            Some(k) => 0 <= k < entities.len() && entities[k].id@ == id
                && forall|i: int| k < i < entities.len() ==> entities[i].id@ != id,
        },
    decreases entities.len(),
{
    if entities.len() > 0 {
        let d = entities.drop_last();
        lemma_entity_index(d, id);
        assert forall|i: int| 0 <= i < d.len() implies entities[i] == d[i] by {}
    }
}

/// Finds the entity that `id` names, as `entity_index` says.
pub fn find_entity_by_id(entities: &Vec<Entity>, id: &String) -> (r: Option<usize>)
    ensures
        match r {
            None => entity_index(entities@, id@) is None,
            Some(k) => entity_index(entities@, id@) == Some(k as int),
        },
{
    let mut i: usize = entities.len();
    assert(entities@.subrange(0, i as int) =~= entities@);
    while i > 0
        invariant
            i <= entities@.len(),
            entity_index(entities@, id@) == entity_index(entities@.subrange(0, i as int), id@),
        decreases i,
    {
        let ghost s = entities@.subrange(0, i as int);
        if str_eq(entities[i - 1].id.as_str(), id.as_str()) {
            assert(s.last() == entities@[i - 1]);
            return Some(i - 1);
        }
        assert(s.drop_last() =~= entities@.subrange(0, i - 1));
        i = i - 1;
    }
    None
}

/// The first entity with the given stable key.
pub open spec fn first_with_stable_key(entities: Seq<Entity>, key: Seq<char>) -> Option<int> {
    if exists|i: int| 0 <= i < entities.len() && entities[i].stable_key@ == key {
        Some(choose|i: int| 0 <= i < entities.len() && entities[i].stable_key@ == key
            && forall|j: int| 0 <= j < i ==> entities[j].stable_key@ != key)
    } else {
        None
    }
}

/// Finds the first entity with the given stable key.
pub fn find_by_stable_key(entities: &Vec<Entity>, key: &str) -> (r: Option<usize>)
    ensures
        match r {
            None => forall|i: int| 0 <= i < entities@.len() ==> entities@[i].stable_key@ != key@,
            Some(k) => k < entities@.len() && entities@[k as int].stable_key@ == key@
                && forall|j: int| 0 <= j < k ==> entities@[j].stable_key@ != key@,
        },
        r == (match first_with_stable_key(entities@, key@) {
            None => None::<usize>,
            Some(k) => Some(k as usize),
        }),
{
    let mut i: usize = 0;
    while i < entities.len()
        invariant
            i <= entities@.len(),
            forall|j: int| 0 <= j < i ==> entities@[j].stable_key@ != key@,
        decreases entities.len() - i,
    {
        if str_eq(entities[i].stable_key.as_str(), key) {
            let ghost k = choose|k: int| 0 <= k < entities@.len() && entities@[k].stable_key@ == key@
                && forall|j: int| 0 <= j < k ==> entities@[j].stable_key@ != key@;
            assert(k == i) by {
                if k < i {
                } else if k > i {
                    assert(entities@[i as int].stable_key@ == key@);
                }
            }
            return Some(i);
        }
        i = i + 1;
    }
    None
}

/// The relations that start at an entity id.
pub open spec fn starts_at(relations: Seq<Relation>, id: Seq<char>) -> spec_fn(int) -> bool {
    |j: int| relations[j].from@ == id
}

/// The relations that end at an entity id.
pub open spec fn ends_at(relations: Seq<Relation>, id: Seq<char>) -> spec_fn(int) -> bool {
    |j: int| relations[j].to@ == id
}

/// How many relations start at an entity id.
pub open spec fn out_count(relations: Seq<Relation>, id: Seq<char>) -> nat {
    count_below(relations.len() as int, starts_at(relations, id))
}

/// How many relations end at an entity id.
pub open spec fn in_count(relations: Seq<Relation>, id: Seq<char>) -> nat {
    count_below(relations.len() as int, ends_at(relations, id))
}

/// An entity's degree: the relations that start at it plus those that end at it.
pub open spec fn degree(relations: Seq<Relation>, id: Seq<char>) -> nat {
    out_count(relations, id) + in_count(relations, id)
}

pub proof fn lemma_counts_bounded(relations: Seq<Relation>, id: Seq<char>)
    ensures
        out_count(relations, id) <= relations.len(),
        in_count(relations, id) <= relations.len(),
{
    lemma_count_below_bounded(relations.len() as int, starts_at(relations, id));
    lemma_count_below_bounded(relations.len() as int, ends_at(relations, id));
}

/// Counts the relations that start at and that end at `id`.
pub fn count_endpoints(relations: &Vec<Relation>, id: &String) -> (r: (usize, usize))
    ensures
        r.0 == out_count(relations@, id@),
        r.1 == in_count(relations@, id@),
{
    let mut outgoing: usize = 0;
    let mut incoming: usize = 0;
    let mut i: usize = 0;
    while i < relations.len()
        invariant
            i <= relations@.len(),
            outgoing == count_below(i as int, starts_at(relations@, id@)),
            incoming == count_below(i as int, ends_at(relations@, id@)),
        decreases relations.len() - i,
    {
        proof {
            lemma_count_below_bounded(i as int, starts_at(relations@, id@));
            lemma_count_below_bounded(i as int, ends_at(relations@, id@));
        }
        if str_eq(relations[i].from.as_str(), id.as_str()) {
            outgoing = outgoing + 1;
        }
        if str_eq(relations[i].to.as_str(), id.as_str()) {
            incoming = incoming + 1;
        }
        i = i + 1;
    }
    (outgoing, incoming)
}

/// The degree of the entity named by `id`.
pub fn degree_of(relations: &Vec<Relation>, id: &String) -> (r: usize)
    requires
        relations@.len() <= usize::MAX / 2,
    ensures
        r == degree(relations@, id@),
{
    let (o, n) = count_endpoints(relations, id);
    proof {
        lemma_counts_bounded(relations@, id@);
    }
    o + n
}

/// The optional string views of two options agree.
pub open spec fn same_opt(a: Option<String>, b: Option<String>) -> bool {
    opt_view(a) == opt_view(b)
}

/// Two pieces of evidence say the same.
pub open spec fn same_evidence(a: Evidence, b: Evidence) -> bool {
    same_opt(a.source_file, b.source_file) && a.line_start == b.line_start
}

/// Two entities say the same.
pub open spec fn same_entity(a: Entity, b: Entity) -> bool {
    &&& a.id@ == b.id@
    &&& a.stable_key@ == b.stable_key@
    &&& a.kind@ == b.kind@
    &&& a.kind_label@ == b.kind_label@
    &&& a.name@ == b.name@
    &&& views(a.ownership@) == views(b.ownership@)
    &&& same_opt(a.role, b.role)
    &&& same_opt(a.contract_version, b.contract_version)
    &&& match (a.source, b.source) {
        (None, None) => true,
        (Some(x), Some(y)) => x.path@ == y.path@ && x.line_start == y.line_start,
        _ => false,
    }
}

/// Two relations say the same.
pub open spec fn same_relation(a: Relation, b: Relation) -> bool {
    &&& a.id@ == b.id@
    &&& a.kind@ == b.kind@
    &&& a.kind_label@ == b.kind_label@
    &&& a.from@ == b.from@
    &&& a.to@ == b.to@
    &&& a.status@ == b.status@
    &&& a.confidence@ == b.confidence@
    &&& a.evidence@.len() == b.evidence@.len()
    &&& forall|i: int| 0 <= i < a.evidence@.len() ==> same_evidence(#[trigger] a.evidence@[i], b.evidence@[i])
    &&& same_opt(a.schema, b.schema)
}

/// Two facts say the same.
pub open spec fn same_fact(a: Fact, b: Fact) -> bool {
    &&& a.id@ == b.id@
    &&& a.kind@ == b.kind@
    &&& a.subject@ == b.subject@
    &&& same_opt(a.object, b.object)
    &&& same_opt(a.module, b.module)
    &&& same_opt(a.role, b.role)
    &&& same_opt(a.status, b.status)
    &&& same_opt(a.contract_version, b.contract_version)
}

fn copy_opt_string(o: &Option<String>) -> (r: Option<String>)
    ensures
        same_opt(r, *o),
{
    match o {
        None => None,
        Some(s) => Some(s.clone()),
    }
}

/// A copy of an entity.
pub fn copy_entity(e: &Entity) -> (r: Entity)
    ensures
        same_entity(r, *e),
{
    let mut ownership: Vec<String> = Vec::new();
    let mut i: usize = 0;
    while i < e.ownership.len()
        invariant
            i <= e.ownership@.len(),
            ownership@.len() == i,
            forall|j: int| 0 <= j < i ==> (#[trigger] ownership@[j])@ == e.ownership@[j]@,
        decreases e.ownership.len() - i,
    {
        ownership.push(e.ownership[i].clone());
        i = i + 1;
    }
    assert(views(ownership@) =~= views(e.ownership@));
    Entity {
        id: e.id.clone(),
        stable_key: e.stable_key.clone(),
        kind: e.kind.clone(),
        kind_label: e.kind_label.clone(),
        ownership,
        name: e.name.clone(),
        role: copy_opt_string(&e.role),
        contract_version: copy_opt_string(&e.contract_version),
        source: match &e.source {
            None => None,
            Some(s) => Some(SourceLocation { path: s.path.clone(), line_start: s.line_start }),
        },
    }
}

/// A copy of a relation.
pub fn copy_relation(r: &Relation) -> (c: Relation)
    ensures
        same_relation(c, *r),
{
    let mut evidence: Vec<Evidence> = Vec::new();
    let mut i: usize = 0;
    while i < r.evidence.len()
        invariant
            i <= r.evidence@.len(),
            evidence@.len() == i,
            forall|j: int| 0 <= j < i ==> same_evidence(#[trigger] evidence@[j], r.evidence@[j]),
        decreases r.evidence.len() - i,
    {
        let e = &r.evidence[i];
        evidence.push(Evidence { source_file: copy_opt_string(&e.source_file), line_start: e.line_start });
        i = i + 1;
    }
    Relation {
        id: r.id.clone(),
        kind: r.kind.clone(),
        kind_label: r.kind_label.clone(),
        from: r.from.clone(),
        to: r.to.clone(),
        status: r.status.clone(),
        confidence: r.confidence.clone(),
        evidence,
        schema: copy_opt_string(&r.schema),
    }
}

/// A copy of a fact.
pub fn copy_fact(f: &Fact) -> (r: Fact)
    ensures
        same_fact(r, *f),
{
    Fact {
        id: f.id.clone(),
        kind: f.kind.clone(),
        subject: f.subject.clone(),
        object: copy_opt_string(&f.object),
        module: copy_opt_string(&f.module),
        role: copy_opt_string(&f.role),
        status: copy_opt_string(&f.status),
        contract_version: copy_opt_string(&f.contract_version),
    }
}

/// Two diagnostics say the same.
pub open spec fn same_diagnostic(a: Diagnostic, b: Diagnostic) -> bool {
    &&& a.id@ == b.id@
    &&& a.kind@ == b.kind@
    &&& a.severity@ == b.severity@
    &&& a.status@ == b.status@
    &&& a.title@ == b.title@
    &&& views(a.entities@) == views(b.entities@)
    &&& a.evidence@.len() == b.evidence@.len()
    &&& forall|i: int| 0 <= i < a.evidence@.len() ==> same_evidence(#[trigger] a.evidence@[i], b.evidence@[i])
    &&& same_opt(a.module, b.module)
    &&& same_opt(a.surface, b.surface)
    &&& same_opt(a.role, b.role)
    &&& same_opt(a.path, b.path)
    &&& same_opt(a.port, b.port)
}

fn copy_strings(v: &Vec<String>) -> (r: Vec<String>)
    ensures
        views(r@) == views(v@),
{
    let mut r: Vec<String> = Vec::new();
    let mut i: usize = 0;
    while i < v.len()
        invariant
            i <= v@.len(),
            r@.len() == i,
            forall|j: int| 0 <= j < i ==> (#[trigger] r@[j])@ == v@[j]@,
        decreases v.len() - i,
    {
        r.push(v[i].clone());
        i = i + 1;
    }
    assert(views(r@) =~= views(v@));
    r
}

/// A copy of a diagnostic.
pub fn copy_diagnostic(d: &Diagnostic) -> (r: Diagnostic)
    ensures
        same_diagnostic(r, *d),
{
    let mut evidence: Vec<Evidence> = Vec::new();
    let mut i: usize = 0;
    while i < d.evidence.len()
        invariant
            i <= d.evidence@.len(),
            evidence@.len() == i,
            forall|j: int| 0 <= j < i ==> same_evidence(#[trigger] evidence@[j], d.evidence@[j]),
        decreases d.evidence.len() - i,
    {
        let e = &d.evidence[i];
        evidence.push(Evidence { source_file: copy_opt_string(&e.source_file), line_start: e.line_start });
        i = i + 1;
    }
    Diagnostic {
        id: d.id.clone(),
        kind: d.kind.clone(),
        severity: d.severity.clone(),
        status: d.status.clone(),
        title: d.title.clone(),
        entities: copy_strings(&d.entities),
        evidence,
        module: copy_opt_string(&d.module),
        surface: copy_opt_string(&d.surface),
        role: copy_opt_string(&d.role),
        path: copy_opt_string(&d.path),
        port: copy_opt_string(&d.port),
    }
}

} // verus!
