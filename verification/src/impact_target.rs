//! Where an impact query starts: the entities a target names (by stable key, else by the
//! file it names), or the entities of the files that changed since the last index run.

use vstd::prelude::*;
use crate::impact::ImpactAnalysis;
use crate::json_contract_base::IMPACT_ANALYSIS_SCHEMA_V1;
use crate::snapshot::{copy_entity, same_entity, snapshot_id, snapshot_name, views, CanonicalSnapshot, Entity};
use crate::text::{contains_str, has_prefix, str_eq, to_chars};

verus! {

/// Why an impact query has nowhere to start.
#[derive(Debug)]
pub enum ImpactError {
    TargetNotResolved { target: String },
    NoTarget,
}

/// The message of an impact error.
pub open spec fn impact_error_message(e: ImpactError) -> Seq<char> {
    match e {
        ImpactError::TargetNotResolved { target } =>
            "could not resolve target \""@ + target@ + "\" to any canonical entities in the latest snapshot"@,
        ImpactError::NoTarget => "either a target stable-key/path or the --diff flag must be provided"@,
    }
}

impl ImpactError {
    /// The error's message.
    pub fn to_string(&self) -> (r: String)
        ensures
            r@ == impact_error_message(*self),
    {
        match self {
            ImpactError::TargetNotResolved { target } => {
                let mut r = String::from_str("could not resolve target \"");
                r.append(target.as_str());
                r.append("\" to any canonical entities in the latest snapshot");
                r
            },
            ImpactError::NoTarget => String::from_str("either a target stable-key/path or the --diff flag must be provided"),
        }
    }
}

/// `t` with each `\` turned into `/`.
pub open spec fn forward_slashes(t: Seq<char>) -> Seq<char> {
    Seq::new(t.len(), |i: int| if t[i] == '\\' { '/' } else { t[i] })
}

/// The project-relative path a target names when it cannot be found on disk: its
/// separators made `/`, without a leading `./`.
pub open spec fn target_fallback_path(t: Seq<char>) -> Seq<char> {
    let n = forward_slashes(t);
    if has_prefix(n, "./"@) { n.skip(2) } else { n }
}

/// The project-relative path a target names when it cannot be found on disk.
pub fn fallback_target_path(target: &str) -> (r: String)
    ensures
        r@ == target_fallback_path(target@),
{
    let chars = to_chars(target);
    let mut n: Vec<char> = Vec::new();
    let mut i: usize = 0;
    while i < chars.len()
        invariant
            chars@ == target@,
            i <= chars@.len(),
            n@ == forward_slashes(chars@).take(i as int),
        decreases chars.len() - i,
    {
        let c = chars[i];
        n.push(if c == '\\' { '/' } else { c });
        assert(n@ =~= forward_slashes(chars@).take(i + 1));
        i = i + 1;
    }
    assert(n@ =~= forward_slashes(target@));
    proof {
        reveal_strlit("./");
    }
    let skip: usize = if n.len() >= 2 && n[0] == '.' && n[1] == '/' { 2 } else { 0 };
    assert(has_prefix(n@, "./"@) <==> skip == 2) by {
        assert("./"@ =~= seq!['.', '/']);
        if n@.len() >= 2 {
            assert(n@.subrange(0, 2) =~= seq![n@[0], n@[1]]);
        }
    }
    let mut r = String::new();
    let mut k: usize = skip;
    while k < n.len()
        invariant
            skip <= k <= n@.len(),
            r@ == n@.subrange(skip as int, k as int),
        decreases n.len() - k,
    {
        r.append(crate::text::char_string(n[k]).as_str());
        assert(n@.subrange(skip as int, k + 1) =~= n@.subrange(skip as int, k as int).push(n@[k as int]));
        k = k + 1;
    }
    assert(n@.subrange(skip as int, n@.len() as int) =~= n@.skip(skip as int));
    assert(n@.skip(0) =~= n@);
    r
}

/// The entity belongs to the file at `path`: one of its owners is that file, or its
/// source is.
pub open spec fn from_file(e: Entity, path: Seq<char>) -> bool {
    views(e.ownership@).contains(path) || (e.source matches Some(src) && src.path@ == path)
}

/// The positions of the entities that `keep` admits, in order.
pub open spec fn positions_where(ents: Seq<Entity>, keep: spec_fn(Entity) -> bool) -> Seq<int>
    decreases ents.len(),
{
    if ents.len() == 0 {
        Seq::empty()
    } else {
        let prev = positions_where(ents.drop_last(), keep);
        if keep(ents.last()) { prev.push(ents.len() - 1) } else { prev }
    }
}

proof fn lemma_positions_where_bounded(ents: Seq<Entity>, keep: spec_fn(Entity) -> bool)
    ensures
        forall|i: int| 0 <= i < positions_where(ents, keep).len() ==> 0 <= #[trigger] positions_where(ents, keep)[i] < ents.len(),
    decreases ents.len(),
{
    if ents.len() > 0 {
        let prev = positions_where(ents.drop_last(), keep);
        lemma_positions_where_bounded(ents.drop_last(), keep);
        assert forall|i: int| 0 <= i < positions_where(ents, keep).len() implies
            0 <= #[trigger] positions_where(ents, keep)[i] < ents.len() by {
            if i < prev.len() {
                assert(positions_where(ents, keep)[i] == prev[i]);
            }
        }
    }
}

/// `r` holds copies of the entities at the positions `p`, in order.
pub open spec fn copies_of(r: Seq<Entity>, ents: Seq<Entity>, p: Seq<int>) -> bool {
    &&& r.len() == p.len()
    &&& forall|i: int| 0 <= i < p.len() ==> same_entity(#[trigger] r[i], ents[p[i]])
}

/// The entity's stable key is `key`.
pub open spec fn keyed(key: Seq<char>) -> spec_fn(Entity) -> bool {
    |e: Entity| e.stable_key@ == key
}

/// The entity belongs to the file at `path`.
pub open spec fn of_file(path: Seq<char>) -> spec_fn(Entity) -> bool {
    |e: Entity| from_file(e, path)
}

/// The entity belongs to one of the files.
pub open spec fn of_any_file(files: Seq<Seq<char>>) -> spec_fn(Entity) -> bool {
    |e: Entity| exists|k: int| 0 <= k < files.len() && from_file(e, #[trigger] files[k])
}

/// Whether the entity belongs to the file at `path`.
fn belongs_to(e: &Entity, path: &String) -> (r: bool)
    ensures
        r == from_file(*e, path@),
{
    let owned = contains_str(&e.ownership, path);
    proof {
        crate::graph::lemma_views_contains(e.ownership@, path@);
    }
    owned || match &e.source {
        Some(src) => str_eq(src.path.as_str(), path.as_str()),
        None => false,
    }
}

/// Copies of the entities that have the stable key `key`, in order.
fn entities_with_key(entities: &Vec<Entity>, key: &str) -> (r: Vec<Entity>)
    ensures
        copies_of(r@, entities@, positions_where(entities@, keyed(key@))),
{
    let ghost keep = keyed(key@);
    let mut r: Vec<Entity> = Vec::new();
    let mut i: usize = 0;
    while i < entities.len()
        invariant
            keep == keyed(key@),
            i <= entities@.len(),
            copies_of(r@, entities@, positions_where(entities@.take(i as int), keep)),
        decreases entities.len() - i,
    {
        let ghost before = positions_where(entities@.take(i as int), keep);
        assert(entities@.take(i + 1).drop_last() =~= entities@.take(i as int));
        assert(entities@.take(i + 1).last() == entities@[i as int]);
        proof {
            lemma_positions_where_bounded(entities@.take(i as int), keep);
        }
        if str_eq(entities[i].stable_key.as_str(), key) {
            r.push(copy_entity(&entities[i]));
        }
        proof {
            let after = positions_where(entities@.take(i + 1), keep);
            assert forall|j: int| 0 <= j < after.len() implies same_entity(#[trigger] r@[j], entities@[after[j]]) by {
                if j < before.len() {
                    assert(after[j] == before[j]);
                    assert(entities@.take(i as int)[before[j]] == entities@[before[j]]);
                }
            }
        }
        i = i + 1;
    }
    assert(entities@.take(i as int) =~= entities@);
    r
}

/// Copies of the entities that `keep` admits, where `keep` is membership in one of the
/// files (`files` given) or in the file at `path`.
fn entities_of_files(entities: &Vec<Entity>, files: &Vec<String>) -> (r: Vec<Entity>)
    ensures
        copies_of(r@, entities@, positions_where(entities@, of_any_file(views(files@)))),
{
    let ghost keep = of_any_file(views(files@));
    let mut r: Vec<Entity> = Vec::new();
    let mut i: usize = 0;
    while i < entities.len()
        invariant
            keep == of_any_file(views(files@)),
            i <= entities@.len(),
            copies_of(r@, entities@, positions_where(entities@.take(i as int), keep)),
        decreases entities.len() - i,
    {
        let ghost before = positions_where(entities@.take(i as int), keep);
        assert(entities@.take(i + 1).drop_last() =~= entities@.take(i as int));
        assert(entities@.take(i + 1).last() == entities@[i as int]);
        proof {
            lemma_positions_where_bounded(entities@.take(i as int), keep);
        }
        let e = &entities[i];
        let mut hit = false;
        let mut k: usize = 0;
        while k < files.len()
            invariant
                k <= files@.len(),
                hit <==> exists|q: int| 0 <= q < k && from_file(*e, #[trigger] views(files@)[q]),
            decreases files.len() - k,
        {
            if belongs_to(e, &files[k]) {
                hit = true;
            }
            assert(views(files@)[k as int] == files@[k as int]@);
            k = k + 1;
        }
        assert(hit == keep(*e));
        if hit {
            r.push(copy_entity(e));
        }
        proof {
            let after = positions_where(entities@.take(i + 1), keep);
            assert forall|j: int| 0 <= j < after.len() implies same_entity(#[trigger] r@[j], entities@[after[j]]) by {
                if j < before.len() {
                    assert(after[j] == before[j]);
                    assert(entities@.take(i as int)[before[j]] == entities@[before[j]]);
                }
            }
        }
        i = i + 1;
    }
    assert(entities@.take(i as int) =~= entities@);
    r
}

/// The entities of the changed and removed files, in snapshot order: those that one of
/// the files owns or is the source of.
pub fn entities_for_files(entities: &Vec<Entity>, files: &Vec<String>) -> (r: Vec<Entity>)
    ensures
        copies_of(r@, entities@, positions_where(entities@, of_any_file(views(files@)))),
{
    entities_of_files(entities, files)
}

/// The entities an impact target names: those with the target as stable key, or, where
/// there are none, those of the file at `relative_path` (the project-relative path the
/// target resolves to); it is an error where neither names any entity.
pub fn resolve_target_entities(entities: &Vec<Entity>, target: &str, relative_path: &str) -> (r: Result<Vec<Entity>, ImpactError>)
    ensures
        ({
            let by_key = positions_where(entities@, keyed(target@));
            let by_path = positions_where(entities@, of_file(relative_path@));
            match r {
                Ok(v) => if by_key.len() > 0 { copies_of(v@, entities@, by_key) } else { by_path.len() > 0 && copies_of(v@, entities@, by_path) },
                Err(e) => by_key.len() == 0 && by_path.len() == 0 && (e matches ImpactError::TargetNotResolved { target: t } && t@ == target@),
            }
        }),
{
    let by_key = entities_with_key(entities, target);
    if by_key.len() > 0 {
        return Ok(by_key);
    }
    let one = vec![String::from_str(relative_path)];
    let by_path = entities_of_files(entities, &one);
    proof {
        let a = of_any_file(views(one@));
        let b = of_file(relative_path@);
        assert(views(one@) =~= seq![relative_path@]);
        assert forall|e: Entity| #[trigger] a(e) == b(e) by {
            if b(e) {
                assert(from_file(e, views(one@)[0]));
            }
        }
        assert(a =~= b);
    }
    if by_path.len() > 0 {
        Ok(by_path)
    } else {
        Err(ImpactError::TargetNotResolved { target: String::from_str(target) })
    }
}

/// The analysis of a diff that changed no file since the last index run: nothing starts,
/// so nothing is reached.
pub fn unchanged_analysis(snapshot: &CanonicalSnapshot) -> (r: ImpactAnalysis)
    ensures
        r.schema@ == IMPACT_ANALYSIS_SCHEMA_V1@,
        r.snapshot@ == snapshot_name(snapshot.snapshot),
        r.starting_entities@.len() == 0,
        r.impacted_entities@.len() == 0,
        r.impacted_files@.len() == 0,
        r.impacted_diagnostics@.len() == 0,
{
    ImpactAnalysis {
        schema: String::from_str(IMPACT_ANALYSIS_SCHEMA_V1),
        snapshot: snapshot_id(snapshot),
        starting_entities: Vec::new(),
        impacted_entities: Vec::new(),
        impacted_files: Vec::new(),
        impacted_diagnostics: Vec::new(),
    }
}


} // verus!
