//! The directed graph that PageRank iterates over: the entities in stable-key order, each
//! one's outgoing targets and incoming relations, and the relation traces reported with
//! a rank. The scores themselves are floating point and are computed outside this
//! library.

use vstd::prelude::*;
use crate::graph::{marked, order_marked_relations, relation_before};
use crate::snapshot::{CanonicalSnapshot, Relation, evidence_texts, render_evidence, views};
use crate::sort::{Ranked, SortKey, as_ints, count_below, lemma_count_below_bounded, lemma_lists_exactly_congruent, lists_exactly, rank_positions, sorted_by};
use crate::text::{lemma_lex_lt_irreflexive, lemma_lex_lt_transitive, lex_lt, str_eq, str_lt};

verus! {

/// A relation that leads into a ranked entity.
pub struct GraphPageRankRelationTrace {
    pub id: String,
    pub kind: String,
    pub from_entity_id: String,
    pub evidence: Vec<String>,
}

/// `t` traces relation `r`.
pub open spec fn trace_of(t: GraphPageRankRelationTrace, r: Relation) -> bool {
    &&& t.id@ == r.id@
    &&& t.kind@ == r.kind@
    &&& t.from_entity_id@ == r.from@
    &&& views(t.evidence@) == evidence_texts(r.evidence@)
}

/// The trace of a relation.
pub fn relation_trace(relation: &Relation) -> (t: GraphPageRankRelationTrace)
    ensures
        trace_of(t, *relation),
{
    GraphPageRankRelationTrace {
        id: relation.id.clone(),
        kind: relation.kind.clone(),
        from_entity_id: relation.from.clone(),
        evidence: render_evidence(&relation.evidence),
    }
}

/// The graph PageRank runs on. Entities are numbered by their place in `order`;
/// `outgoing[k]` holds the numbers of the targets of the relations that leave entity `k`,
/// ascending, and `incoming[k]` the positions of the relations that enter it, by id.
pub struct PageRankGraph {
    pub order: Vec<usize>,
    pub outgoing: Vec<Vec<usize>>,
    pub incoming: Vec<Vec<usize>>,
    pub relation_count: usize,
}

/// Entity order by stable key, ties by position.
pub open spec fn key_first(s: CanonicalSnapshot, a: int, b: int) -> bool {
    lex_lt(s.entities@[a].stable_key@, s.entities@[b].stable_key@)
        || (s.entities@[a].stable_key@ == s.entities@[b].stable_key@ && a < b)
}

/// `o` lists every entity once, in stable-key order.
pub open spec fn rank_order(s: CanonicalSnapshot, o: Seq<int>) -> bool {
    &&& lists_exactly(o, s.entities@.len() as int, |i: int| true)
    &&& sorted_by(o, |a: int, b: int| key_first(s, a, b))
}

/// The number an entity id gets: the last place in `o` whose entity carries it, as a map
/// filled in that order keeps the last insertion.
pub open spec fn slot_of(s: CanonicalSnapshot, o: Seq<int>, id: Seq<char>) -> Option<int>
    decreases o.len(),
{
    if o.len() == 0 {
        None
    } else if s.entities@[o.last()].id@ == id {
        Some(o.len() - 1)
    } else {
        slot_of(s, o.drop_last(), id)
    }
}

/// Both ends of relation `j` name ranked entities.
pub open spec fn ranked_relation(s: CanonicalSnapshot, o: Seq<int>) -> spec_fn(int) -> bool {
    |j: int| slot_of(s, o, s.relations@[j].from@) is Some && slot_of(s, o, s.relations@[j].to@) is Some
}

/// The ranked relations that leave entity number `k`.
pub open spec fn leaving(s: CanonicalSnapshot, o: Seq<int>, k: int) -> spec_fn(int) -> bool {
    |j: int| ranked_relation(s, o)(j) && slot_of(s, o, s.relations@[j].from@) == Some(k)
}

/// The ranked relations that enter entity number `k`.
pub open spec fn entering(s: CanonicalSnapshot, o: Seq<int>, k: int) -> spec_fn(int) -> bool {
    |j: int| ranked_relation(s, o)(j) && slot_of(s, o, s.relations@[j].to@) == Some(k)
}

/// The number of the target of relation `j`.
pub open spec fn target_slot(s: CanonicalSnapshot, o: Seq<int>, j: int) -> int {
    match slot_of(s, o, s.relations@[j].to@) {
        Some(k) => k,
        None => -1,
    }
}

/// Relation order by the number of the target, ties by position.
pub open spec fn target_first(s: CanonicalSnapshot, o: Seq<int>, a: int, b: int) -> bool {
    target_slot(s, o, a) < target_slot(s, o, b) || (target_slot(s, o, a) == target_slot(s, o, b) && a < b)
}

/// The target numbers of the relations at the given positions.
pub open spec fn targets_at(s: CanonicalSnapshot, o: Seq<int>, t: Seq<int>) -> Seq<int> {
    Seq::new(t.len(), |i: int| target_slot(s, o, t[i]))
}

/// `v` holds, ascending, the numbers of the targets of the relations that leave entity
/// number `k`.
pub open spec fn leaving_targets(s: CanonicalSnapshot, o: Seq<int>, k: int, v: Seq<int>) -> bool {
    exists|t: Seq<int>| {
        &&& #[trigger] lists_exactly(t, s.relations@.len() as int, leaving(s, o, k))
        &&& sorted_by(t, |a: int, b: int| target_first(s, o, a, b))
        &&& v == targets_at(s, o, t)
    }
}

/// `g` is the PageRank graph of the snapshot.
pub open spec fn pagerank_graph_of(g: PageRankGraph, s: CanonicalSnapshot) -> bool {
    let o = as_ints(g.order@);
    let m = s.relations@.len() as int;
    &&& rank_order(s, o)
    &&& g.outgoing@.len() == s.entities@.len()
    &&& g.incoming@.len() == s.entities@.len()
    &&& forall|k: int| 0 <= k < g.outgoing@.len() ==> leaving_targets(s, o, k, as_ints((#[trigger] g.outgoing@[k])@))
    &&& forall|k: int| 0 <= k < g.incoming@.len() ==>
        lists_exactly(as_ints((#[trigger] g.incoming@[k])@), m, entering(s, o, k))
        && sorted_by(as_ints(g.incoming@[k]@), |a: int, b: int| relation_before(s, a, b))
    &&& g.relation_count == count_below(m, ranked_relation(s, o))
}

/// The key an entity is ranked by.
struct KeyRank {
    stable_key: String,
    index: usize,
}

impl SortKey for KeyRank {
    closed spec fn key_lt(&self, other: &Self) -> bool {
        lex_lt(self.stable_key@, other.stable_key@) || (self.stable_key@ == other.stable_key@ && self.index < other.index)
    }

    proof fn lemma_key_lt_transitive(a: &Self, b: &Self, c: &Self) {
        if lex_lt(a.stable_key@, b.stable_key@) && lex_lt(b.stable_key@, c.stable_key@) {
            lemma_lex_lt_transitive(a.stable_key@, b.stable_key@, c.stable_key@);
        }
    }

    proof fn lemma_key_lt_irreflexive(a: &Self) {
        lemma_lex_lt_irreflexive(a.stable_key@);
    }

    fn lt(&self, other: &Self) -> (r: bool) {
        if str_lt(self.stable_key.as_str(), other.stable_key.as_str()) {
            true
        } else if str_eq(self.stable_key.as_str(), other.stable_key.as_str()) {
            self.index < other.index
        } else {
            false
        }
    }
}

impl Ranked for KeyRank {
    closed spec fn position(&self) -> int {
        self.index as int
    }

    fn pos(&self) -> (r: usize) {
        self.index
    }
}

/// The key a leaving relation is ordered by.
struct TargetRank {
    target: usize,
    index: usize,
}

impl SortKey for TargetRank {
    closed spec fn key_lt(&self, other: &Self) -> bool {
        self.target < other.target || (self.target == other.target && self.index < other.index)
    }

    proof fn lemma_key_lt_transitive(a: &Self, b: &Self, c: &Self) {
    }

    proof fn lemma_key_lt_irreflexive(a: &Self) {
    }

    fn lt(&self, other: &Self) -> (r: bool) {
        self.target < other.target || (self.target == other.target && self.index < other.index)
    }
}

impl Ranked for TargetRank {
    closed spec fn position(&self) -> int {
        self.index as int
    }

    fn pos(&self) -> (r: usize) {
        self.index
    }
}

/// All entities in stable-key order.
fn entity_order(snapshot: &CanonicalSnapshot) -> (order: Vec<usize>)
    ensures
        rank_order(*snapshot, as_ints(order@)),
        order@.len() == snapshot.entities@.len(),
{
    let n = snapshot.entities.len();
    let ghost every = |i: int| true;
    let mut keys: Vec<KeyRank> = Vec::new();
    let mut i: usize = 0;
    while i < n
        invariant
            n == snapshot.entities@.len(),
            i <= n,
            keys@.len() == i,
            forall|a: int| 0 <= a < i ==> (#[trigger] keys@[a]).index == a
                && keys@[a].stable_key@ == snapshot.entities@[a].stable_key@,
        decreases n - i,
    {
        keys.push(KeyRank { stable_key: snapshot.entities[i].stable_key.clone(), index: i });
        i = i + 1;
    }
    proof {
        assert forall|j: int| 0 <= j < n && #[trigger] every(j) implies exists|a: int| 0 <= a < keys@.len() && (#[trigger] keys@[a]).position() == j by {
            assert(keys@[j].position() == j);
        }
    }
    let ghost by_key = |a: int, b: int| key_first(*snapshot, a, b);
    let order = rank_positions(keys, Ghost(n as int), Ghost(every), Ghost(by_key));
    order
}

/// The number of an entity id, as `slot_of` says.
fn find_slot(snapshot: &CanonicalSnapshot, order: &Vec<usize>, id: &String) -> (r: Option<usize>)
    requires
        forall|k: int| 0 <= k < order@.len() ==> (#[trigger] order@[k]) < snapshot.entities@.len(),
    ensures
        match r {
            None => slot_of(*snapshot, as_ints(order@), id@) is None,
            Some(k) => slot_of(*snapshot, as_ints(order@), id@) == Some(k as int) && k < order@.len(),
        },
{
    let ghost o = as_ints(order@);
    let mut k: usize = order.len();
    assert(o.subrange(0, k as int) =~= o);
    while k > 0
        invariant
            k <= order@.len(),
            o == as_ints(order@),
            forall|x: int| 0 <= x < order@.len() ==> (#[trigger] order@[x]) < snapshot.entities@.len(),
            slot_of(*snapshot, o, id@) == slot_of(*snapshot, o.subrange(0, k as int), id@),
        decreases k,
    {
        let ghost sub = o.subrange(0, k as int);
        assert(sub.last() == o[k - 1]);
        assert(sub.drop_last() =~= o.subrange(0, k - 1));
        if str_eq(snapshot.entities[order[k - 1]].id.as_str(), id.as_str()) {
            return Some(k - 1);
        }
        k = k - 1;
    }
    None
}

/// Builds the graph PageRank runs on, as `pagerank_graph_of` says.
pub fn pagerank_graph(snapshot: &CanonicalSnapshot) -> (g: PageRankGraph)
    ensures
        pagerank_graph_of(g, *snapshot),
{
    let n = snapshot.entities.len();
    let m = snapshot.relations.len();
    let order = entity_order(snapshot);
    let ghost o = as_ints(order@);
    proof {
        assert forall|k: int| 0 <= k < order@.len() implies (#[trigger] order@[k]) < snapshot.entities@.len() by {
            assert(0 <= o[k] < n);
        }
    }
    let mut slots: Vec<(Option<usize>, Option<usize>)> = Vec::new();
    let mut count: usize = 0;
    let mut j: usize = 0;
    while j < m
        invariant
            m == snapshot.relations@.len(),
            n == snapshot.entities@.len(),
            order@.len() == n,
            o == as_ints(order@),
            forall|k: int| 0 <= k < order@.len() ==> (#[trigger] order@[k]) < snapshot.entities@.len(),
            j <= m,
            slots@.len() == j,
            forall|q: int| 0 <= q < j ==> ({
                let (f, t) = #[trigger] slots@[q];
                &&& (match f { None => slot_of(*snapshot, o, snapshot.relations@[q].from@) is None,
                        Some(x) => slot_of(*snapshot, o, snapshot.relations@[q].from@) == Some(x as int) && x < n })
                &&& (match t { None => slot_of(*snapshot, o, snapshot.relations@[q].to@) is None,
                        Some(x) => slot_of(*snapshot, o, snapshot.relations@[q].to@) == Some(x as int) && x < n })
            }),
            count == count_below(j as int, ranked_relation(*snapshot, o)),
        decreases m - j,
    {
        proof {
            lemma_count_below_bounded(j as int, ranked_relation(*snapshot, o));
        }
        let r = &snapshot.relations[j];
        let f = find_slot(snapshot, &order, &r.from);
        let t = find_slot(snapshot, &order, &r.to);
        if f.is_some() && t.is_some() {
            count = count + 1;
        }
        slots.push((f, t));
        j = j + 1;
    }
    let mut outgoing: Vec<Vec<usize>> = Vec::new();
    let mut incoming: Vec<Vec<usize>> = Vec::new();
    let mut k: usize = 0;
    while k < n
        invariant
            m == snapshot.relations@.len(),
            n == snapshot.entities@.len(),
            o == as_ints(order@),
            slots@.len() == m,
            forall|q: int| 0 <= q < m ==> ({
                let (f, t) = #[trigger] slots@[q];
                &&& (match f { None => slot_of(*snapshot, o, snapshot.relations@[q].from@) is None,
                        Some(x) => slot_of(*snapshot, o, snapshot.relations@[q].from@) == Some(x as int) && x < n })
                &&& (match t { None => slot_of(*snapshot, o, snapshot.relations@[q].to@) is None,
                        Some(x) => slot_of(*snapshot, o, snapshot.relations@[q].to@) == Some(x as int) && x < n })
            }),
            k <= n,
            outgoing@.len() == k,
            incoming@.len() == k,
            forall|x: int| 0 <= x < k ==> leaving_targets(*snapshot, o, x, as_ints((#[trigger] outgoing@[x])@)),
            forall|x: int| 0 <= x < k ==>
                lists_exactly(as_ints((#[trigger] incoming@[x])@), m as int, entering(*snapshot, o, x))
                && sorted_by(as_ints(incoming@[x]@), |a: int, b: int| relation_before(*snapshot, a, b)),
        decreases n - k,
    {
        let ghost lv = leaving(*snapshot, o, k as int);
        let ghost en = entering(*snapshot, o, k as int);
        let mut mask: Vec<bool> = Vec::new();
        let mut keys: Vec<TargetRank> = Vec::new();
        let mut q: usize = 0;
        while q < m
            invariant
                m == snapshot.relations@.len(),
                n == snapshot.entities@.len(),
                o == as_ints(order@),
                slots@.len() == m,
                forall|y: int| 0 <= y < m ==> ({
                    let (f, t) = #[trigger] slots@[y];
                    &&& (match f { None => slot_of(*snapshot, o, snapshot.relations@[y].from@) is None,
                            Some(x) => slot_of(*snapshot, o, snapshot.relations@[y].from@) == Some(x as int) && x < n })
                    &&& (match t { None => slot_of(*snapshot, o, snapshot.relations@[y].to@) is None,
                            Some(x) => slot_of(*snapshot, o, snapshot.relations@[y].to@) == Some(x as int) && x < n })
                }),
                lv == leaving(*snapshot, o, k as int),
                en == entering(*snapshot, o, k as int),
                q <= m,
                mask@.len() == q,
                forall|y: int| 0 <= y < q ==> #[trigger] mask@[y] == en(y),
                forall|a: int| 0 <= a < keys@.len() ==> (#[trigger] keys@[a]).index < q
                    && lv(keys@[a].index as int)
                    && keys@[a].target as int == target_slot(*snapshot, o, keys@[a].index as int),
                forall|a: int, b: int| 0 <= a < b < keys@.len() ==> (#[trigger] keys@[a]).index < (#[trigger] keys@[b]).index,
                forall|y: int| 0 <= y < q && #[trigger] lv(y) ==> exists|a: int| 0 <= a < keys@.len() && (#[trigger] keys@[a]).index == y,
            decreases m - q,
        {
            let (f, t) = slots[q];
            let ghost before = keys@;
            let hit_in = match (f, t) {
                (Some(_), Some(b)) => b == k,
                _ => false,
            };
            mask.push(hit_in);
            match (f, t) {
                (Some(a), Some(b)) => {
                    if a == k {
                        keys.push(TargetRank { target: b, index: q });
                        assert(keys@[keys@.len() - 1].index == q);
                    }
                },
                _ => {},
            }
            proof {
                assert forall|y: int| 0 <= y < q + 1 && #[trigger] lv(y) implies exists|a: int|
                    0 <= a < keys@.len() && (#[trigger] keys@[a]).index == y by {
                    if y < q {
                        let a = choose|a: int| 0 <= a < before.len() && (#[trigger] before[a]).index == y;
                        assert(keys@[a] == before[a]);
                    } else {
                        assert(keys@[keys@.len() - 1].index == y);
                    }
                }
            }
            q = q + 1;
        }
        let ghost by_target = |a: int, b: int| target_first(*snapshot, o, a, b);
        let ranked = rank_positions(keys, Ghost(m as int), Ghost(lv), Ghost(by_target));
        let ghost rt = as_ints(ranked@);
        let mut targets: Vec<usize> = Vec::new();
        let mut p: usize = 0;
        while p < ranked.len()
            invariant
                m == snapshot.relations@.len(),
                n == snapshot.entities@.len(),
                o == as_ints(order@),
                slots@.len() == m,
                forall|y: int| 0 <= y < m ==> ({
                    let (f, t) = #[trigger] slots@[y];
                    &&& (match f { None => slot_of(*snapshot, o, snapshot.relations@[y].from@) is None,
                            Some(x) => slot_of(*snapshot, o, snapshot.relations@[y].from@) == Some(x as int) && x < n })
                    &&& (match t { None => slot_of(*snapshot, o, snapshot.relations@[y].to@) is None,
                            Some(x) => slot_of(*snapshot, o, snapshot.relations@[y].to@) == Some(x as int) && x < n })
                }),
                rt == as_ints(ranked@),
                lists_exactly(rt, m as int, lv),
                lv == leaving(*snapshot, o, k as int),
                p <= ranked@.len(),
                targets@.len() == p,
                forall|a: int| 0 <= a < p ==> (#[trigger] targets@[a]) as int == target_slot(*snapshot, o, rt[a]),
            decreases ranked.len() - p,
        {
            let y = ranked[p];
            assert(0 <= rt[p as int] < m && lv(rt[p as int]));
            let (_f, t) = slots[y];
            let target = match t {
                Some(b) => b,
                None => 0,
            };
            targets.push(target);
            p = p + 1;
        }
        let into = order_marked_relations(snapshot, &mask);
        proof {
            lemma_lists_exactly_congruent(as_ints(into@), m as int, marked(mask@), en);
            assert(as_ints(targets@) =~= targets_at(*snapshot, o, rt));
            assert(sorted_by(rt, by_target));
            assert(leaving_targets(*snapshot, o, k as int, as_ints(targets@)));
        }
        let ghost old_out = outgoing@;
        let ghost old_in = incoming@;
        outgoing.push(targets);
        incoming.push(into);
        proof {
            assert forall|x: int| 0 <= x < k + 1 implies leaving_targets(*snapshot, o, x, as_ints((#[trigger] outgoing@[x])@)) by {
                if x < k {
                    assert(outgoing@[x] == old_out[x]);
                }
            }
            assert forall|x: int| 0 <= x < k + 1 implies
                lists_exactly(as_ints((#[trigger] incoming@[x])@), m as int, entering(*snapshot, o, x))
                && sorted_by(as_ints(incoming@[x]@), |a: int, b: int| relation_before(*snapshot, a, b)) by {
                if x < k {
                    assert(incoming@[x] == old_in[x]);
                }
            }
        }
        k = k + 1;
    }
    PageRankGraph { order, outgoing, incoming, relation_count: count }
}

} // verus!
