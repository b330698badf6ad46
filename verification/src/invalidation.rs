//! Conservative invalidation planning for incremental indexing: which adapters force a
//! global rebuild, and which entities a change reaches through the relation graph.

use vstd::prelude::*;
use crate::snapshot::{copy_entity, copy_fact, copy_relation, same_entity, same_fact, same_relation, views, Entity, Fact, Relation};
use crate::sort::lists_exactly;
use crate::strset::{is_str_set, set_contains, set_insert, set_new, set_of};
use crate::text::str_eq;

verus! {

/// How far a change must be reconsidered by an adapter.
pub enum InvalidationScope {
    FileLocal,
    DependencyClosure,
    GlobalOnAdd,
    GlobalOnRemove,
    AlwaysGlobal,
}

/// The scope an adapter asks for when files are added, removed, or changed.
pub struct InvalidationPolicy {
    pub on_add: InvalidationScope,
    pub on_remove: InvalidationScope,
    pub on_change: InvalidationScope,
}

/// An adapter with its invalidation policy.
pub struct AdapterInvalidationDeclaration {
    pub adapter: String,
    pub policy: InvalidationPolicy,
}

/// The scope an index run must reconsider.
#[derive(Debug, PartialEq, Eq, Structural)]
pub enum PlannedInvalidationScope {
    FileLocal,
    DependencyClosure,
    Global,
}

/// The invalidation plan of one index run.
pub struct InvalidationPlan {
    pub scope: PlannedInvalidationScope,
    pub added_files: bool,
    pub removed_files: bool,
    pub global_adapters: Vec<String>,
}

/// The scope an adapter's policy gives for the run: its add scope when files were added,
/// else its remove scope when files were removed, else its change scope.
pub open spec fn scope_of(policy: InvalidationPolicy, added: bool, removed: bool) -> InvalidationScope {
    if added {
        policy.on_add
    } else if removed {
        policy.on_remove
    } else {
        policy.on_change
    }
}

/// A scope that forces a global rebuild.
pub open spec fn is_global(s: InvalidationScope) -> bool {
    s is AlwaysGlobal || s is GlobalOnAdd || s is GlobalOnRemove
}

fn scope_for(policy: &InvalidationPolicy, added: bool, removed: bool) -> (r: &InvalidationScope)
    ensures
        *r == scope_of(*policy, added, removed),
{
    if added {
        &policy.on_add
    } else if removed {
        &policy.on_remove
    } else {
        &policy.on_change
    }
}

/// The adapters whose scope for the run is global.
pub open spec fn global_adapter_names(d: Seq<AdapterInvalidationDeclaration>, added: bool, removed: bool) -> Set<Seq<char>> {
    Set::new(|a: Seq<char>| exists|i: int| 0 <= i < d.len() && #[trigger] d[i].adapter@ == a && is_global(scope_of(d[i].policy, added, removed)))
}

/// `r` is the invalidation plan of a run over the declarations `d`.
pub open spec fn invalidation_plan_of(r: InvalidationPlan, d: Seq<AdapterInvalidationDeclaration>, added: bool, removed: bool) -> bool {
    &&& r.added_files == added
    &&& r.removed_files == removed
    &&& r.scope == (if exists|i: int| 0 <= i < d.len() && is_global(#[trigger] scope_of(d[i].policy, added, removed)) {
        PlannedInvalidationScope::Global
    } else if exists|i: int| 0 <= i < d.len() && #[trigger] scope_of(d[i].policy, added, removed) is DependencyClosure {
        PlannedInvalidationScope::DependencyClosure
    } else {
        PlannedInvalidationScope::FileLocal
    })
    &&& is_str_set(r.global_adapters@)
    &&& set_of(r.global_adapters@) == global_adapter_names(d, added, removed)
}

/// When files were added, each adapter's add scope decides: one that asks for a global
/// rebuild makes the plan global and is listed.
pub proof fn lemma_plan_on_added_files(r: InvalidationPlan, d: Seq<AdapterInvalidationDeclaration>, removed: bool, i: int)
    requires
        invalidation_plan_of(r, d, true, removed),
        0 <= i < d.len(),
        d[i].policy.on_add is AlwaysGlobal || d[i].policy.on_add is GlobalOnAdd || d[i].policy.on_add is GlobalOnRemove,
    ensures
        r.scope == PlannedInvalidationScope::Global,
        set_of(r.global_adapters@).contains(d[i].adapter@),
{
    assert(is_global(scope_of(d[i].policy, true, removed)));
}

/// When files were removed and none added, each adapter's remove scope decides: one that
/// asks for a global rebuild makes the plan global and is listed.
pub proof fn lemma_plan_on_removed_files(r: InvalidationPlan, d: Seq<AdapterInvalidationDeclaration>, i: int)
    requires
        invalidation_plan_of(r, d, false, true),
        0 <= i < d.len(),
        d[i].policy.on_remove is AlwaysGlobal || d[i].policy.on_remove is GlobalOnAdd || d[i].policy.on_remove is GlobalOnRemove,
    ensures
        r.scope == PlannedInvalidationScope::Global,
        set_of(r.global_adapters@).contains(d[i].adapter@),
{
    assert(is_global(scope_of(d[i].policy, false, true)));
}

/// When files were only changed, each adapter's change scope decides: one that asks for a
/// global rebuild makes the plan global and is listed.
pub proof fn lemma_plan_on_changed_files(r: InvalidationPlan, d: Seq<AdapterInvalidationDeclaration>, i: int)
    requires
        invalidation_plan_of(r, d, false, false),
        0 <= i < d.len(),
        d[i].policy.on_change is AlwaysGlobal || d[i].policy.on_change is GlobalOnAdd || d[i].policy.on_change is GlobalOnRemove,
    ensures
        r.scope == PlannedInvalidationScope::Global,
        set_of(r.global_adapters@).contains(d[i].adapter@),
{
    assert(is_global(scope_of(d[i].policy, false, false)));
}

/// When files were removed and none added, only the remove scopes count: where every
/// adapter's remove scope is file-local the plan is file-local and lists no adapter,
/// whatever the add and change scopes say.
pub proof fn lemma_plan_removal_file_local(r: InvalidationPlan, d: Seq<AdapterInvalidationDeclaration>)
    requires
        invalidation_plan_of(r, d, false, true),
        forall|i: int| 0 <= i < d.len() ==> (#[trigger] d[i]).policy.on_remove is FileLocal,
    ensures
        r.scope == PlannedInvalidationScope::FileLocal,
        r.global_adapters@.len() == 0,
{
    assert(!exists|i: int| 0 <= i < d.len() && is_global(#[trigger] scope_of(d[i].policy, false, true)));
    assert(!exists|i: int| 0 <= i < d.len() && #[trigger] scope_of(d[i].policy, false, true) is DependencyClosure);
    assert(global_adapter_names(d, false, true) =~= Set::<Seq<char>>::empty());
    if r.global_adapters@.len() > 0 {
        assert(views(r.global_adapters@)[0] == r.global_adapters@[0]@);
        assert(views(r.global_adapters@).contains(r.global_adapters@[0]@));
        assert(views(r.global_adapters@).to_set().contains(r.global_adapters@[0]@));
        assert(set_of(r.global_adapters@).contains(r.global_adapters@[0]@));
    }
}

/// When files were added, only the add scopes count: where every adapter's add scope is
/// file-local the plan is file-local and lists no adapter.
pub proof fn lemma_plan_addition_file_local(r: InvalidationPlan, d: Seq<AdapterInvalidationDeclaration>, removed: bool)
    requires
        invalidation_plan_of(r, d, true, removed),
        forall|i: int| 0 <= i < d.len() ==> (#[trigger] d[i]).policy.on_add is FileLocal,
    ensures
        r.scope == PlannedInvalidationScope::FileLocal,
        r.global_adapters@.len() == 0,
{
    assert(!exists|i: int| 0 <= i < d.len() && is_global(#[trigger] scope_of(d[i].policy, true, removed)));
    assert(!exists|i: int| 0 <= i < d.len() && #[trigger] scope_of(d[i].policy, true, removed) is DependencyClosure);
    assert(global_adapter_names(d, true, removed) =~= Set::<Seq<char>>::empty());
    if r.global_adapters@.len() > 0 {
        assert(views(r.global_adapters@)[0] == r.global_adapters@[0]@);
        assert(views(r.global_adapters@).contains(r.global_adapters@[0]@));
        assert(views(r.global_adapters@).to_set().contains(r.global_adapters@[0]@));
        assert(set_of(r.global_adapters@).contains(r.global_adapters@[0]@));
    }
}

/// When files were only changed, only the change scopes count.
pub proof fn lemma_plan_change_file_local(r: InvalidationPlan, d: Seq<AdapterInvalidationDeclaration>)
    requires
        invalidation_plan_of(r, d, false, false),
        forall|i: int| 0 <= i < d.len() ==> (#[trigger] d[i]).policy.on_change is FileLocal,
    ensures
        r.scope == PlannedInvalidationScope::FileLocal,
        r.global_adapters@.len() == 0,
{
    assert(!exists|i: int| 0 <= i < d.len() && is_global(#[trigger] scope_of(d[i].policy, false, false)));
    assert(!exists|i: int| 0 <= i < d.len() && #[trigger] scope_of(d[i].policy, false, false) is DependencyClosure);
    assert(global_adapter_names(d, false, false) =~= Set::<Seq<char>>::empty());
    if r.global_adapters@.len() > 0 {
        assert(views(r.global_adapters@)[0] == r.global_adapters@[0]@);
        assert(views(r.global_adapters@).contains(r.global_adapters@[0]@));
        assert(views(r.global_adapters@).to_set().contains(r.global_adapters@[0]@));
        assert(set_of(r.global_adapters@).contains(r.global_adapters@[0]@));
    }
}

/// Plans the invalidation of a run: global when any adapter's scope is global, else the
/// dependency closure when any adapter asks for it, else file-local; with the global
/// adapters by name, in order, once each.
pub fn plan_invalidation(declarations: &[AdapterInvalidationDeclaration], added_files: bool, removed_files: bool) -> (r: InvalidationPlan)
    ensures
        r.added_files == added_files,
        r.removed_files == removed_files,
        r.scope == (if exists|i: int| 0 <= i < declarations@.len() && is_global(#[trigger] scope_of(declarations@[i].policy, added_files, removed_files)) {
            PlannedInvalidationScope::Global
        } else if exists|i: int| 0 <= i < declarations@.len() && #[trigger] scope_of(declarations@[i].policy, added_files, removed_files) is DependencyClosure {
            PlannedInvalidationScope::DependencyClosure
        } else {
            PlannedInvalidationScope::FileLocal
        }),
        is_str_set(r.global_adapters@),
        set_of(r.global_adapters@) == global_adapter_names(declarations@, added_files, removed_files),
        invalidation_plan_of(r, declarations@, added_files, removed_files),
{
    let ghost d = declarations@;
    let mut any_global = false;
    let mut any_closure = false;
    let mut global_adapters = set_new();
    let mut i: usize = 0;
    while i < declarations.len()
        invariant
            d == declarations@,
            i <= d.len(),
            any_global == exists|j: int| 0 <= j < i && is_global(#[trigger] scope_of(d[j].policy, added_files, removed_files)),
            any_closure == exists|j: int| 0 <= j < i && #[trigger] scope_of(d[j].policy, added_files, removed_files) is DependencyClosure,
            is_str_set(global_adapters@),
            set_of(global_adapters@) == Set::new(|a: Seq<char>| exists|j: int| 0 <= j < i && #[trigger] d[j].adapter@ == a
                && is_global(scope_of(d[j].policy, added_files, removed_files))),
        decreases declarations.len() - i,
    {
        let decl = &declarations[i];
        let scope = scope_for(&decl.policy, added_files, removed_files);
        let ghost g0 = set_of(global_adapters@);
        match scope {
            InvalidationScope::AlwaysGlobal | InvalidationScope::GlobalOnAdd | InvalidationScope::GlobalOnRemove => {
                any_global = true;
                set_insert(&mut global_adapters, decl.adapter.clone());
            },
            InvalidationScope::DependencyClosure => {
                any_closure = true;
            },
            InvalidationScope::FileLocal => {},
        }
        proof {
            let ii = (i + 1) as int;
            assert(set_of(global_adapters@) =~= Set::new(|a: Seq<char>| exists|j: int| 0 <= j < ii && #[trigger] d[j].adapter@ == a
                && is_global(scope_of(d[j].policy, added_files, removed_files)))) by {
                assert forall|a: Seq<char>| set_of(global_adapters@).contains(a) == (exists|j: int| 0 <= j < ii && #[trigger] d[j].adapter@ == a
                    && is_global(scope_of(d[j].policy, added_files, removed_files))) by {
                    if exists|j: int| 0 <= j < ii && #[trigger] d[j].adapter@ == a && is_global(scope_of(d[j].policy, added_files, removed_files)) {
                        let j = choose|j: int| 0 <= j < ii && #[trigger] d[j].adapter@ == a && is_global(scope_of(d[j].policy, added_files, removed_files));
                        if j < i {
                            assert(g0.contains(a));
                        }
                    }
                }
            }
        }
        i = i + 1;
    }
    let scope = if any_global {
        PlannedInvalidationScope::Global
    } else if any_closure {
        PlannedInvalidationScope::DependencyClosure
    } else {
        PlannedInvalidationScope::FileLocal
    };
    proof {
        assert(set_of(global_adapters@) =~= global_adapter_names(declarations@, added_files, removed_files));
    }
    InvalidationPlan { scope, added_files, removed_files, global_adapters }
}

/// The entities, facts and relations that a change reaches.
pub struct AffectedSubset {
    pub entities: Vec<Entity>,
    pub facts: Vec<Fact>,
    pub relations: Vec<Relation>,
}

/// Some relation joins ids `a` and `b`, read in either direction.
pub open spec fn adjacent_ids(rels: Seq<Relation>, a: Seq<char>, b: Seq<char>) -> bool {
    exists|r: int| 0 <= r < rels.len() && ((#[trigger] rels[r]).from@ == a && rels[r].to@ == b || rels[r].to@ == a && rels[r].from@ == b)
}

/// `path` walks from an id of `seeds` along relations.
pub open spec fn id_walk(rels: Seq<Relation>, seeds: Set<Seq<char>>, path: Seq<Seq<char>>) -> bool {
    &&& path.len() >= 1
    &&& seeds.contains(path[0])
    &&& forall|i: int| 0 <= i < path.len() - 1 ==> #[trigger] adjacent_ids(rels, path[i], path[i + 1])
}

/// Id `x` is connected to some id of `seeds` through the relations.
pub open spec fn connected(rels: Seq<Relation>, seeds: Set<Seq<char>>, x: Seq<char>) -> bool {
    exists|path: Seq<Seq<char>>| #[trigger] id_walk(rels, seeds, path) && path.last() == x
}

/// The ids of the affected entities.
pub open spec fn seed_ids(affected: Seq<Entity>) -> Set<Seq<char>> {
    Set::new(|x: Seq<char>| exists|i: int| 0 <= i < affected.len() && #[trigger] affected[i].id@ == x)
}

proof fn lemma_walk_extend(rels: Seq<Relation>, seeds: Set<Seq<char>>, x: Seq<char>, y: Seq<char>)
    requires
        connected(rels, seeds, x),
        adjacent_ids(rels, x, y),
    ensures
        connected(rels, seeds, y),
{
    let p = choose|p: Seq<Seq<char>>| #[trigger] id_walk(rels, seeds, p) && p.last() == x;
    let q = p.push(y);
    assert forall|i: int| 0 <= i < q.len() - 1 implies #[trigger] adjacent_ids(rels, q[i], q[i + 1]) by {
        if i < p.len() - 1 {
            assert(q[i] == p[i]);
            assert(q[i + 1] == p[i + 1]);
            assert(adjacent_ids(rels, p[i], p[i + 1]));
        }
    }
    assert(id_walk(rels, seeds, q));
}

/// The ids that every id in a closed set leads to stay in it.
proof fn lemma_closed_contains_connected(rels: Seq<Relation>, seeds: Set<Seq<char>>, s: Set<Seq<char>>, path: Seq<Seq<char>>)
    requires
        seeds.subset_of(s),
        forall|a: Seq<char>, b: Seq<char>| s.contains(a) && #[trigger] adjacent_ids(rels, a, b) ==> s.contains(b),
        id_walk(rels, seeds, path),
    ensures
        s.contains(path.last()),
    decreases path.len(),
{
    if path.len() > 1 {
        let p = path.drop_last();
        assert forall|i: int| 0 <= i < p.len() - 1 implies #[trigger] adjacent_ids(rels, p[i], p[i + 1]) by {
            assert(adjacent_ids(rels, path[i], path[i + 1]));
        }
        lemma_closed_contains_connected(rels, seeds, s, p);
        let k = path.len() - 2;
        assert(adjacent_ids(rels, path[k], path[k + 1]));
    }
}

/// The ids that a change to `affected` reaches: theirs and every id connected to them.
#[verifier::rlimit(100)]
#[verifier::spinoff_prover]
fn closure_ids(affected: &Vec<Entity>, relations: &Vec<Relation>) -> (ids: Vec<String>)
    ensures
        is_str_set(ids@),
        forall|x: Seq<char>| #[trigger] set_of(ids@).contains(x) <==> connected(relations@, seed_ids(affected@), x),
{
    let ghost rels = relations@;
    let ghost seeds = seed_ids(affected@);
    let mut ids = set_new();
    let mut i: usize = 0;
    while i < affected.len()
        invariant
            i <= affected@.len(),
            seeds == seed_ids(affected@),
            is_str_set(ids@),
            set_of(ids@) == Set::new(|x: Seq<char>| exists|j: int| 0 <= j < i && #[trigger] affected@[j].id@ == x),
        decreases affected.len() - i,
    {
        let ghost s0 = set_of(ids@);
        set_insert(&mut ids, affected[i].id.clone());
        proof {
            let ii = (i + 1) as int;
            assert(set_of(ids@) =~= Set::new(|x: Seq<char>| exists|j: int| 0 <= j < ii && #[trigger] affected@[j].id@ == x)) by {
                assert forall|x: Seq<char>| set_of(ids@).contains(x) == (exists|j: int| 0 <= j < ii && #[trigger] affected@[j].id@ == x) by {
                    if exists|j: int| 0 <= j < ii && #[trigger] affected@[j].id@ == x {
                        let j = choose|j: int| 0 <= j < ii && #[trigger] affected@[j].id@ == x;
                        if j < i {
                            assert(s0.contains(x));
                        }
                    }
                }
            }
        }
        i = i + 1;
    }
    assert(set_of(ids@) =~= seeds);
    let mut queue: Vec<String> = Vec::new();
    let mut q: usize = 0;
    while q < ids.len()
        invariant
            q <= ids@.len(),
            queue@.len() == q,
            forall|j: int| 0 <= j < q ==> (#[trigger] queue@[j])@ == ids@[j]@,
        decreases ids.len() - q,
    {
        queue.push(ids[q].clone());
        q = q + 1;
    }
    let ghost na = affected@.len() as int;
    let ghost m = rels.len() as int;
    let ghost cand = Seq::new((na + 2 * m) as nat, |i: int| if i < na { affected@[i].id@ } else if i < na + m { rels[i - na].from@ } else { rels[i - na - m].to@ });
    proof {
        assert(views(queue@) =~= views(ids@));
        crate::strset::lemma_sorted_unique(views(ids@));
        assert forall|x: Seq<char>| #[trigger] set_of(ids@).contains(x) implies connected(rels, seeds, x) && cand.to_set().contains(x) by {
            let j = choose|j: int| 0 <= j < affected@.len() && #[trigger] affected@[j].id@ == x;
            assert(cand[j] == x);
            assert(id_walk(rels, seeds, seq![x]));
        }
    }
    let mut head: usize = 0;
    while head < queue.len()
        invariant
            rels == relations@,
            seeds == seed_ids(affected@),
            na == affected@.len(),
            m == rels.len(),
            cand == Seq::new((na + 2 * m) as nat, |i: int| if i < na { affected@[i].id@ } else if i < na + m { rels[i - na].from@ } else { rels[i - na - m].to@ }),
            is_str_set(ids@),
            head <= queue@.len(),
            set_of(ids@) == views(queue@).to_set(),
            views(queue@).no_duplicates(),
            seeds.subset_of(set_of(ids@)),
            forall|x: Seq<char>| #[trigger] set_of(ids@).contains(x) ==> connected(rels, seeds, x) && cand.to_set().contains(x),
            forall|k: int, b: Seq<char>| 0 <= k < head && #[trigger] adjacent_ids(rels, queue@[k]@, b) ==> set_of(ids@).contains(b),
        decreases cand.len() - head,
    {
        proof {
            views(queue@).unique_seq_to_set();
            cand.lemma_cardinality_of_set();
            vstd::seq_lib::seq_to_set_is_finite(cand);
            vstd::set_lib::lemma_len_subset(set_of(ids@), cand.to_set());
        }
        let id = queue[head].clone();
        let ghost before_head = head;
        let mut r: usize = 0;
        while r < relations.len()
            invariant
                rels == relations@,
                seeds == seed_ids(affected@),
                na == affected@.len(),
                m == rels.len(),
                cand == Seq::new((na + 2 * m) as nat, |i: int| if i < na { affected@[i].id@ } else if i < na + m { rels[i - na].from@ } else { rels[i - na - m].to@ }),
                is_str_set(ids@),
                head < queue@.len(),
                id@ == queue@[head as int]@,
                r <= rels.len(),
                set_of(ids@) == views(queue@).to_set(),
                views(queue@).no_duplicates(),
                seeds.subset_of(set_of(ids@)),
                forall|x: Seq<char>| #[trigger] set_of(ids@).contains(x) ==> connected(rels, seeds, x) && cand.to_set().contains(x),
                forall|k: int, b: Seq<char>| 0 <= k < head && #[trigger] adjacent_ids(rels, queue@[k]@, b) ==> set_of(ids@).contains(b),
                forall|p: int| 0 <= p < r ==> (rels[p].from@ == id@ ==> set_of(ids@).contains(#[trigger] rels[p].to@))
                    && (rels[p].to@ == id@ ==> set_of(ids@).contains(rels[p].from@)),
            decreases relations.len() - r,
        {
            let rel = &relations[r];
            assert(set_of(ids@).contains(id@)) by {
                assert(views(queue@)[head as int] == id@);
            }
            if str_eq(rel.from.as_str(), id.as_str()) && !set_contains(&ids, &rel.to) {
                proof {
                    assert(adjacent_ids(rels, id@, rel.to@)) by {
                        assert(rels[r as int] == *rel);
                    }
                    lemma_walk_extend(rels, seeds, id@, rel.to@);
                    assert(cand[na + m + r] == rel.to@);
                }
                let ghost old_queue = views(queue@);
                set_insert(&mut ids, rel.to.clone());
                queue.push(rel.to.clone());
                proof {
                    assert(views(queue@) =~= old_queue.push(rel.to@));
                    assert(old_queue.push(rel.to@) =~= old_queue + seq![rel.to@]);
                    Seq::<Seq<char>>::lemma_to_set_insert_commutes(old_queue, rel.to@);
                    assert(views(queue@).to_set() =~= old_queue.to_set().insert(rel.to@));
                    assert(!old_queue.contains(rel.to@));
                    assert forall|k: int, b: Seq<char>| 0 <= k < head && #[trigger] adjacent_ids(rels, queue@[k]@, b) implies set_of(ids@).contains(b) by {
                        assert(queue@[k]@ == old_queue[k]);
                    }
                }
            }
            if str_eq(rel.to.as_str(), id.as_str()) && !set_contains(&ids, &rel.from) {
                proof {
                    assert(adjacent_ids(rels, id@, rel.from@)) by {
                        assert(rels[r as int] == *rel);
                    }
                    lemma_walk_extend(rels, seeds, id@, rel.from@);
                    assert(cand[na + r] == rel.from@);
                }
                let ghost old_queue = views(queue@);
                set_insert(&mut ids, rel.from.clone());
                queue.push(rel.from.clone());
                proof {
                    assert(views(queue@) =~= old_queue.push(rel.from@));
                    assert(old_queue.push(rel.from@) =~= old_queue + seq![rel.from@]);
                    Seq::<Seq<char>>::lemma_to_set_insert_commutes(old_queue, rel.from@);
                    assert(views(queue@).to_set() =~= old_queue.to_set().insert(rel.from@));
                    assert(!old_queue.contains(rel.from@));
                    assert forall|k: int, b: Seq<char>| 0 <= k < head && #[trigger] adjacent_ids(rels, queue@[k]@, b) implies set_of(ids@).contains(b) by {
                        assert(queue@[k]@ == old_queue[k]);
                    }
                }
            }
            r = r + 1;
        }
        proof {
            assert forall|k: int, b: Seq<char>| 0 <= k < head + 1 && #[trigger] adjacent_ids(rels, queue@[k]@, b) implies set_of(ids@).contains(b) by {
                if k == head {
                    let p = choose|p: int| 0 <= p < rels.len() && ((#[trigger] rels[p]).from@ == queue@[k]@ && rels[p].to@ == b || rels[p].to@ == queue@[k]@ && rels[p].from@ == b);
                }
            }
        }
        head = head + 1;
    }
    proof {
        assert forall|x: Seq<char>| connected(rels, seeds, x) implies #[trigger] set_of(ids@).contains(x) by {
            {
                let p = choose|p: Seq<Seq<char>>| #[trigger] id_walk(rels, seeds, p) && p.last() == x;
                assert forall|a: Seq<char>, b: Seq<char>| set_of(ids@).contains(a) && #[trigger] adjacent_ids(rels, a, b) implies set_of(ids@).contains(b) by {
                    assert(views(queue@).to_set().contains(a));
                    let k = choose|k: int| 0 <= k < views(queue@).len() && views(queue@)[k] == a;
                    assert(adjacent_ids(rels, queue@[k]@, b));
                }
                lemma_closed_contains_connected(rels, seeds, set_of(ids@), p);
            }
        }
    }
    ids
}

/// `idx` lists, in increasing order, exactly the positions below `n` that `member` admits.
pub open spec fn in_order(idx: Seq<int>, n: int, member: spec_fn(int) -> bool) -> bool {
    lists_exactly(idx, n, member) && forall|a: int, b: int| 0 <= a < b < idx.len() ==> #[trigger] idx[a] < #[trigger] idx[b]
}

/// Entities whose id a change reaches.
pub open spec fn reached_entity(entities: Seq<Entity>, rels: Seq<Relation>, seeds: Set<Seq<char>>) -> spec_fn(int) -> bool {
    |i: int| connected(rels, seeds, entities[i].id@)
}

/// Facts whose subject or object a change reaches.
pub open spec fn reached_fact(facts: Seq<Fact>, rels: Seq<Relation>, seeds: Set<Seq<char>>) -> spec_fn(int) -> bool {
    |i: int| connected(rels, seeds, facts[i].subject@) || (facts[i].object matches Some(o) && connected(rels, seeds, o@))
}

/// Relations both of whose ends a change reaches.
pub open spec fn reached_relation(rels: Seq<Relation>, seeds: Set<Seq<char>>) -> spec_fn(int) -> bool {
    |i: int| connected(rels, seeds, rels[i].from@) && connected(rels, seeds, rels[i].to@)
}

/// The entities, facts and relations within the closure of `affected`: an entity whose id
/// is reached, a fact whose subject or object is reached, a relation whose two ends are.
pub fn dependency_closure(
    affected: &AffectedSubset,
    entities: &Vec<Entity>,
    facts: &Vec<Fact>,
    relations: &Vec<Relation>,
) -> (r: AffectedSubset)
    ensures
        ({
            let seeds = seed_ids(affected.entities@);
            &&& exists|idx: Seq<int>| #[trigger] in_order(idx, entities@.len() as int, reached_entity(entities@, relations@, seeds))
                && r.entities@.len() == idx.len()
                && forall|a: int| 0 <= a < idx.len() ==> same_entity(#[trigger] r.entities@[a], entities@[idx[a]])
            &&& exists|idx: Seq<int>| #[trigger] in_order(idx, facts@.len() as int, reached_fact(facts@, relations@, seeds))
                && r.facts@.len() == idx.len()
                && forall|a: int| 0 <= a < idx.len() ==> same_fact(#[trigger] r.facts@[a], facts@[idx[a]])
            &&& exists|idx: Seq<int>| #[trigger] in_order(idx, relations@.len() as int, reached_relation(relations@, seeds))
                && r.relations@.len() == idx.len()
                && forall|a: int| 0 <= a < idx.len() ==> same_relation(#[trigger] r.relations@[a], relations@[idx[a]])
        }),
{
    let ids = closure_ids(&affected.entities, relations);
    let ghost reach = |x: Seq<char>| connected(relations@, seed_ids(affected.entities@), x);
    assert(forall|x: Seq<char>| #[trigger] set_of(ids@).contains(x) <==> reach(x));
    let mut out_entities: Vec<Entity> = Vec::new();
    let ghost mut eidx: Seq<int> = Seq::empty();
    let mut i: usize = 0;
    while i < entities.len()
        invariant
            i <= entities@.len(),
            forall|x: Seq<char>| #[trigger] set_of(ids@).contains(x) <==> reach(x),
            eidx.len() == out_entities@.len(),
            forall|a: int| 0 <= a < eidx.len() ==> 0 <= #[trigger] eidx[a] < i && reach(entities@[eidx[a]].id@),
            forall|a: int, b: int| 0 <= a < b < eidx.len() ==> #[trigger] eidx[a] < #[trigger] eidx[b],
            forall|j: int| 0 <= j < i && reach(#[trigger] entities@[j].id@) ==> eidx.contains(j),
            forall|a: int| 0 <= a < eidx.len() ==> same_entity(#[trigger] out_entities@[a], entities@[eidx[a]]),
        decreases entities.len() - i,
    {
        let ghost e0 = eidx;
        if set_contains(&ids, &entities[i].id) {
            out_entities.push(copy_entity(&entities[i]));
            proof {
                eidx = eidx.push(i as int);
            }
        }
        proof {
            assert forall|j: int| 0 <= j < i + 1 && reach(#[trigger] entities@[j].id@) implies eidx.contains(j) by {
                if j < i {
                    let w = choose|w: int| 0 <= w < e0.len() && e0[w] == j;
                    assert(eidx[w] == j);
                } else {
                    assert(eidx[eidx.len() - 1] == j);
                }
            }
        }
        i = i + 1;
    }
    let mut out_facts: Vec<Fact> = Vec::new();
    let ghost mut fidx: Seq<int> = Seq::empty();
    let ghost rf = reached_fact(facts@, relations@, seed_ids(affected.entities@));
    let mut k: usize = 0;
    while k < facts.len()
        invariant
            k <= facts@.len(),
            rf == reached_fact(facts@, relations@, seed_ids(affected.entities@)),
            forall|x: Seq<char>| #[trigger] set_of(ids@).contains(x) <==> reach(x),
            reach == (|x: Seq<char>| connected(relations@, seed_ids(affected.entities@), x)),
            fidx.len() == out_facts@.len(),
            forall|a: int| 0 <= a < fidx.len() ==> 0 <= #[trigger] fidx[a] < k && rf(fidx[a]),
            forall|a: int, b: int| 0 <= a < b < fidx.len() ==> #[trigger] fidx[a] < #[trigger] fidx[b],
            forall|j: int| 0 <= j < k && #[trigger] rf(j) ==> fidx.contains(j),
            forall|a: int| 0 <= a < fidx.len() ==> same_fact(#[trigger] out_facts@[a], facts@[fidx[a]]),
        decreases facts.len() - k,
    {
        let f = &facts[k];
        let hit_subject = set_contains(&ids, &f.subject);
        let hit_object = match &f.object {
            None => false,
            Some(o) => set_contains(&ids, o),
        };
        let hit = hit_subject || hit_object;
        assert(hit == rf(k as int));
        let ghost f0 = fidx;
        if hit {
            out_facts.push(copy_fact(f));
            proof {
                fidx = fidx.push(k as int);
            }
        }
        proof {
            assert forall|j: int| 0 <= j < k + 1 && #[trigger] rf(j) implies fidx.contains(j) by {
                if j < k {
                    assert(f0.contains(j));
                    let w = choose|w: int| 0 <= w < f0.len() && f0[w] == j;
                    assert(fidx[w] == j);
                } else {
                    assert(fidx[fidx.len() - 1] == j);
                }
            }
        }
        k = k + 1;
    }
    let mut out_relations: Vec<Relation> = Vec::new();
    let ghost mut ridx: Seq<int> = Seq::empty();
    let mut q: usize = 0;
    while q < relations.len()
        invariant
            q <= relations@.len(),
            forall|x: Seq<char>| #[trigger] set_of(ids@).contains(x) <==> reach(x),
            ridx.len() == out_relations@.len(),
            forall|a: int| 0 <= a < ridx.len() ==> 0 <= #[trigger] ridx[a] < q && reach(relations@[ridx[a]].from@) && reach(relations@[ridx[a]].to@),
            forall|a: int, b: int| 0 <= a < b < ridx.len() ==> #[trigger] ridx[a] < #[trigger] ridx[b],
            forall|j: int| 0 <= j < q && reach(#[trigger] relations@[j].from@) && reach(relations@[j].to@) ==> ridx.contains(j),
            forall|a: int| 0 <= a < ridx.len() ==> same_relation(#[trigger] out_relations@[a], relations@[ridx[a]]),
        decreases relations.len() - q,
    {
        let rel = &relations[q];
        let ghost r0 = ridx;
        if set_contains(&ids, &rel.from) && set_contains(&ids, &rel.to) {
            out_relations.push(copy_relation(rel));
            proof {
                ridx = ridx.push(q as int);
            }
        }
        proof {
            assert forall|j: int| 0 <= j < q + 1 && reach(#[trigger] relations@[j].from@) && reach(relations@[j].to@) implies ridx.contains(j) by {
                if j < q {
                    let w = choose|w: int| 0 <= w < r0.len() && r0[w] == j;
                    assert(ridx[w] == j);
                } else {
                    assert(ridx[ridx.len() - 1] == j);
                }
            }
        }
        q = q + 1;
    }
    proof {
        assert(eidx.no_duplicates()) by {
            assert forall|a: int, b: int| 0 <= a < eidx.len() && 0 <= b < eidx.len() && a != b implies eidx[a] != eidx[b] by {
                if a < b { assert(eidx[a] < eidx[b]); } else { assert(eidx[b] < eidx[a]); }
            }
        }
        assert(fidx.no_duplicates()) by {
            assert forall|a: int, b: int| 0 <= a < fidx.len() && 0 <= b < fidx.len() && a != b implies fidx[a] != fidx[b] by {
                if a < b { assert(fidx[a] < fidx[b]); } else { assert(fidx[b] < fidx[a]); }
            }
        }
        assert(ridx.no_duplicates()) by {
            assert forall|a: int, b: int| 0 <= a < ridx.len() && 0 <= b < ridx.len() && a != b implies ridx[a] != ridx[b] by {
                if a < b { assert(ridx[a] < ridx[b]); } else { assert(ridx[b] < ridx[a]); }
            }
        }
        let seeds = seed_ids(affected.entities@);
        assert(in_order(eidx, entities@.len() as int, reached_entity(entities@, relations@, seeds)));
        assert(in_order(fidx, facts@.len() as int, reached_fact(facts@, relations@, seeds)));
        assert(in_order(ridx, relations@.len() as int, reached_relation(relations@, seeds)));
    }
    AffectedSubset { entities: out_entities, facts: out_facts, relations: out_relations }
}

} // verus!
