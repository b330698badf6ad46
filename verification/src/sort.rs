//! A stable insertion sort over items that carry their own ordering key.

use vstd::prelude::*;

verus! {

/// Items that can be ordered by a strict, transitive "comes before" relation.
pub trait SortKey: Sized {
    /// `self` must come strictly before `other`.
    spec fn key_lt(&self, other: &Self) -> bool;

    proof fn lemma_key_lt_transitive(a: &Self, b: &Self, c: &Self)
        requires
            a.key_lt(b),
            b.key_lt(c),
        ensures
            a.key_lt(c),
    ;

    proof fn lemma_key_lt_irreflexive(a: &Self)
        ensures
            !a.key_lt(a),
    ;

    fn lt(&self, other: &Self) -> (r: bool)
        ensures
            r == self.key_lt(other),
    ;
}

/// No item comes strictly before an item placed ahead of it.
pub open spec fn sorted_by_key<T: SortKey>(s: Seq<T>) -> bool {
    forall|i: int, j: int| 0 <= i < j < s.len() ==> !#[trigger] s[j].key_lt(&s[i])
}

/// Sorts `v` by `key_lt`; items that compare equal keep their relative order.
pub fn sort_by_key<T: SortKey>(v: Vec<T>) -> (r: Vec<T>)
    ensures
        r@.to_multiset() == v@.to_multiset(),
        r@.len() == v@.len(),
        sorted_by_key(r@),
{
    broadcast use vstd::seq_lib::group_to_multiset_ensures;

    let ghost orig = v@;
    let mut rest = v;
    let mut r: Vec<T> = Vec::new();
    let ghost mut k: int = 0;
    while rest.len() > 0
        invariant
            0 <= k <= orig.len(),
            rest@ == orig.subrange(k, orig.len() as int),
            r@.to_multiset() == orig.subrange(0, k).to_multiset(),
            r@.len() == k,
            sorted_by_key(r@),
        decreases rest.len(),
    {
        let x = rest.remove(0);
        assert(x == orig[k]);
        let mut p: usize = 0;
        while p < r.len() && !x.lt(&r[p])
            invariant
                p <= r@.len(),
                forall|q: int| 0 <= q < p ==> !x.key_lt(&r@[q]),
            decreases r.len() - p,
        {
            p = p + 1;
        }
        let ghost before = r@;
        proof {
            assert forall|i: int, j: int| 0 <= i < j < before.insert(p as int, x).len() implies
                !#[trigger] before.insert(p as int, x)[j].key_lt(&before.insert(p as int, x)[i]) by {
                let s = before.insert(p as int, x);
                if j == p {
                    assert(s[i] == before[i]);
                } else if i == p {
                    let y = before[j - 1];
                    assert(s[j] == y);
                    if y.key_lt(&x) {
                        T::lemma_key_lt_transitive(&y, &x, &before[p as int]);
                        if j - 1 > p {
                            assert(!before[j - 1].key_lt(&before[p as int]));
                        } else {
                            T::lemma_key_lt_irreflexive(&y);
                        }
                    }
                } else {
                    let a = if i < p { i } else { i - 1 };
                    let b = if j < p { j } else { j - 1 };
                    assert(s[i] == before[a]);
                    assert(s[j] == before[b]);
                }
            }
        }
        r.insert(p, x);
        proof {
            assert(r@ == before.insert(p as int, x));
            vstd::seq_lib::to_multiset_insert(before, p as int, x);
            assert(orig.subrange(0, k + 1) =~= orig.subrange(0, k).push(orig[k]));
            vstd::seq_lib::to_multiset_build(orig.subrange(0, k), orig[k]);
            k = k + 1;
            assert(rest@ =~= orig.subrange(k, orig.len() as int));
        }
    }
    assert(orig.subrange(0, k) =~= orig);
    r
}

/// What a sorted copy keeps of the original: each item came from it, and where the
/// original held no item twice, neither does the copy.
pub proof fn lemma_permutation_facts<T>(orig: Seq<T>, sorted: Seq<T>)
    requires
        sorted.to_multiset() == orig.to_multiset(),
    ensures
        forall|i: int| 0 <= i < sorted.len() ==> orig.contains(#[trigger] sorted[i]),
        forall|i: int| 0 <= i < orig.len() ==> sorted.contains(#[trigger] orig[i]),
        orig.no_duplicates() ==> sorted.no_duplicates(),
{
    broadcast use vstd::seq_lib::group_to_multiset_ensures;

    assert forall|i: int| 0 <= i < orig.len() implies sorted.contains(#[trigger] orig[i]) by {
        assert(orig.contains(orig[i]));
        assert(orig.to_multiset().count(orig[i]) > 0);
        assert(sorted.to_multiset().count(orig[i]) > 0);
    }

    assert forall|i: int| 0 <= i < sorted.len() implies orig.contains(#[trigger] sorted[i]) by {
        assert(sorted.contains(sorted[i]));
        assert(sorted.to_multiset().count(sorted[i]) > 0);
        assert(orig.to_multiset().count(sorted[i]) > 0);
    }
    if orig.no_duplicates() {
        orig.lemma_multiset_has_no_duplicates();
        sorted.lemma_multiset_has_no_duplicates_conv();
    }
}

/// `order` lists, once each, exactly the indices below `n` that `member` admits.
pub open spec fn lists_exactly(order: Seq<int>, n: int, member: spec_fn(int) -> bool) -> bool {
    &&& order.no_duplicates()
    &&& forall|i: int| 0 <= i < order.len() ==> 0 <= #[trigger] order[i] < n && member(order[i])
    &&& forall|j: int| 0 <= j < n && #[trigger] member(j) ==> order.contains(j)
}

/// No index in `order` comes strictly before one placed ahead of it.
pub open spec fn sorted_by(order: Seq<int>, before: spec_fn(int, int) -> bool) -> bool {
    forall|i: int, j: int| 0 <= i < j < order.len() ==> !before(#[trigger] order[j], #[trigger] order[i])
}

/// Distinct indices below `n` number at most `n`.
pub proof fn lemma_distinct_indices_bounded(s: Seq<int>, n: int)
    requires
        s.no_duplicates(),
        n >= 0,
        forall|i: int| 0 <= i < s.len() ==> 0 <= #[trigger] s[i] < n,
    ensures
        s.len() <= n,
{
    s.unique_seq_to_set();
    vstd::set_lib::lemma_int_range(0, n);
    assert(s.to_set().subset_of(vstd::set_lib::set_int_range(0, n))) by {
        assert forall|x: int| s.to_set().contains(x) implies vstd::set_lib::set_int_range(0, n).contains(x) by {
            assert(s.contains(x));
        }
    }
    vstd::set_lib::lemma_len_subset(s.to_set(), vstd::set_lib::set_int_range(0, n));
}

/// How many indices below `n` satisfy `member`.
pub open spec fn count_below(n: int, member: spec_fn(int) -> bool) -> nat
    decreases n,
{
    if n <= 0 {
        0
    } else {
        count_below(n - 1, member) + if member(n - 1) { 1nat } else { 0nat }
    }
}

/// The indices below `n` that `member` admits.
pub open spec fn members_below(n: int, member: spec_fn(int) -> bool) -> Set<int> {
    Set::new(|i: int| 0 <= i < n && member(i))
}

pub proof fn lemma_count_below_set(n: int, member: spec_fn(int) -> bool)
    requires
        n >= 0,
    ensures
        members_below(n, member).finite(),
        members_below(n, member).len() == count_below(n, member),
    decreases n,
{
    if n == 0 {
        assert(members_below(0, member) =~= Set::<int>::empty());
    } else {
        lemma_count_below_set(n - 1, member);
        if member(n - 1) {
            assert(members_below(n, member) =~= members_below(n - 1, member).insert(n - 1));
        } else {
            assert(members_below(n, member) =~= members_below(n - 1, member));
        }
    }
}

/// Distinct indices below `n` that `member` admits are at most as many as `count_below`
/// counts.
pub proof fn lemma_distinct_members_counted(xs: Seq<int>, n: int, member: spec_fn(int) -> bool)
    requires
        n >= 0,
        xs.no_duplicates(),
        forall|i: int| 0 <= i < xs.len() ==> 0 <= #[trigger] xs[i] < n && member(xs[i]),
    ensures
        xs.len() <= count_below(n, member),
{
    lemma_count_below_set(n, member);
    xs.unique_seq_to_set();
    assert(xs.to_set().subset_of(members_below(n, member))) by {
        assert forall|x: int| xs.to_set().contains(x) implies members_below(n, member).contains(x) by {
            let i = choose|i: int| 0 <= i < xs.len() && xs[i] == x;
            assert(0 <= xs[i] < n && member(xs[i]));
        }
    }
    vstd::set_lib::lemma_len_subset(xs.to_set(), members_below(n, member));
}

/// An index below `n` that `member` admits is counted.
pub proof fn lemma_count_below_member(n: int, member: spec_fn(int) -> bool, i: int)
    requires
        0 <= i < n,
        member(i),
    ensures
        count_below(n, member) >= 1,
{
    let xs = seq![i];
    assert(xs.no_duplicates());
    lemma_distinct_members_counted(xs, n, member);
}

/// Where `member` admits no index below `n`, none is counted.
pub proof fn lemma_count_below_none(n: int, member: spec_fn(int) -> bool)
    requires
        forall|i: int| 0 <= i < n ==> !#[trigger] member(i),
    ensures
        count_below(n, member) == 0,
    decreases n,
{
    if n > 0 {
        lemma_count_below_none(n - 1, member);
    }
}

pub proof fn lemma_count_below_bounded(n: int, member: spec_fn(int) -> bool)
    requires
        n >= 0,
    ensures
        count_below(n, member) <= n,
    decreases n,
{
    if n > 0 {
        lemma_count_below_bounded(n - 1, member);
    }
}

/// A list that holds exactly the members below `n` is as long as their count.
pub proof fn lemma_lists_exactly_len(order: Seq<int>, n: int, member: spec_fn(int) -> bool)
    requires
        n >= 0,
        lists_exactly(order, n, member),
    ensures
        order.len() == count_below(n, member),
    decreases n,
{
    if n == 0 {
        if order.len() > 0 {
            assert(0 <= order[0] < n);
        }
    } else if member(n - 1) {
        assert(order.contains(n - 1));
        let p = choose|p: int| 0 <= p < order.len() && order[p] == n - 1;
        let o2 = order.remove(p);
        assert forall|i: int| 0 <= i < o2.len() implies 0 <= #[trigger] o2[i] < n - 1 && member(o2[i]) by {
            if i < p {
                assert(o2[i] == order[i]);
            } else {
                assert(o2[i] == order[i + 1]);
            }
        }
        assert(o2.no_duplicates()) by {
            assert forall|a: int, b: int| 0 <= a < o2.len() && 0 <= b < o2.len() && a != b
                implies o2[a] != o2[b] by {
                let a1 = if a < p { a } else { a + 1 };
                let b1 = if b < p { b } else { b + 1 };
                assert(o2[a] == order[a1]);
                assert(o2[b] == order[b1]);
            }
        }
        assert forall|j: int| 0 <= j < n - 1 && #[trigger] member(j) implies o2.contains(j) by {
            assert(order.contains(j));
            let w = choose|w: int| 0 <= w < order.len() && order[w] == j;
            if w < p {
                assert(o2[w] == j);
            } else {
                assert(w != p);
                assert(o2[w - 1] == j);
            }
        }
        lemma_lists_exactly_len(o2, n - 1, member);
    } else {
        assert forall|i: int| 0 <= i < order.len() implies 0 <= #[trigger] order[i] < n - 1 && member(order[i]) by {
            if order[i] == n - 1 {
                assert(member(order[i]));
            }
        }
        lemma_lists_exactly_len(order, n - 1, member);
    }
}

/// Two membership tests that agree below `n` admit the same lists.
pub proof fn lemma_lists_exactly_congruent(
    order: Seq<int>,
    n: int,
    f: spec_fn(int) -> bool,
    g: spec_fn(int) -> bool,
)
    requires
        lists_exactly(order, n, f),
        forall|j: int| 0 <= j < n ==> #[trigger] f(j) == g(j),
    ensures
        lists_exactly(order, n, g),
{
    assert forall|i: int| 0 <= i < order.len() implies 0 <= #[trigger] order[i] < n && g(order[i]) by {
        assert(f(order[i]));
    }
    assert forall|j: int| 0 <= j < n && #[trigger] g(j) implies order.contains(j) by {
        assert(f(j));
    }
}

/// Every position.
pub open spec fn all_positions() -> spec_fn(int) -> bool {
    |i: int| true
}

/// The indices of a `usize` vector as integers.
pub open spec fn as_ints(v: Seq<usize>) -> Seq<int> {
    Seq::new(v.len(), |i: int| v[i] as int)
}

/// Sort keys that remember the position of the item they rank.
pub trait Ranked: SortKey {
    spec fn position(&self) -> int;

    fn pos(&self) -> (r: usize)
        ensures
            r as int == self.position(),
    ;
}

/// Ranks the items whose keys are given, one key per member position in increasing
/// position order: the positions come out once each, ordered by `before`, which the
/// keys' own order follows.
pub fn rank_positions<T: Ranked>(
    keys: Vec<T>,
    Ghost(n): Ghost<int>,
    Ghost(member): Ghost<spec_fn(int) -> bool>,
    Ghost(before): Ghost<spec_fn(int, int) -> bool>,
) -> (order: Vec<usize>)
    requires
        forall|a: int, b: int| 0 <= a < b < keys@.len() ==> (#[trigger] keys@[a]).position() < (#[trigger] keys@[b]).position(),
        forall|a: int| 0 <= a < keys@.len() ==> 0 <= (#[trigger] keys@[a]).position() < n && member(keys@[a].position()),
        forall|j: int| 0 <= j < n && #[trigger] member(j) ==> exists|a: int| 0 <= a < keys@.len() && (#[trigger] keys@[a]).position() == j,
        forall|a: int, b: int| #![trigger keys@[a], keys@[b]] 0 <= a < keys@.len() && 0 <= b < keys@.len() ==>
            keys@[a].key_lt(&keys@[b]) == before(keys@[a].position(), keys@[b].position()),
    ensures
        lists_exactly(as_ints(order@), n, member),
        sorted_by(as_ints(order@), before),
        order@.len() == keys@.len(),
{
    let ghost orig = keys@;
    let sorted = sort_by_key(keys);
    proof {
        assert(orig.no_duplicates()) by {
            assert forall|a: int, b: int| 0 <= a < orig.len() && 0 <= b < orig.len() && a != b
                implies orig[a] != orig[b] by {
                if a < b {
                    assert(orig[a].position() < orig[b].position());
                } else {
                    assert(orig[b].position() < orig[a].position());
                }
            }
        }
        lemma_permutation_facts(orig, sorted@);
    }
    let mut order: Vec<usize> = Vec::new();
    let mut t: usize = 0;
    while t < sorted.len()
        invariant
            t <= sorted@.len(),
            order@.len() == t,
            forall|j: int| 0 <= j < t ==> order@[j] as int == (#[trigger] sorted@[j]).position(),
        decreases sorted.len() - t,
    {
        order.push(sorted[t].pos());
        t = t + 1;
    }
    let ghost o = as_ints(order@);
    proof {
        broadcast use vstd::seq_lib::group_to_multiset_ensures;

        assert forall|q: int| 0 <= q < o.len() implies 0 <= #[trigger] o[q] < n && member(o[q]) by {
            assert(o[q] == sorted@[q].position());
            assert(orig.contains(sorted@[q]));
        }
        assert(o.no_duplicates()) by {
            assert forall|a: int, b: int| 0 <= a < o.len() && 0 <= b < o.len() && a != b
                implies o[a] != o[b] by {
                assert(sorted@[a] != sorted@[b]);
                assert(orig.contains(sorted@[a]));
                assert(orig.contains(sorted@[b]));
                let wa = choose|w: int| 0 <= w < orig.len() && orig[w] == sorted@[a];
                let wb = choose|w: int| 0 <= w < orig.len() && orig[w] == sorted@[b];
                if wa < wb {
                    assert(orig[wa].position() < orig[wb].position());
                } else if wb < wa {
                    assert(orig[wb].position() < orig[wa].position());
                }
            }
        }
        assert forall|j: int| 0 <= j < n && #[trigger] member(j) implies o.contains(j) by {
            let a = choose|a: int| 0 <= a < orig.len() && (#[trigger] orig[a]).position() == j;
            assert(orig.contains(orig[a]));
            assert(orig.to_multiset().count(orig[a]) > 0);
            assert(sorted@.contains(orig[a]));
            let w = choose|w: int| 0 <= w < sorted@.len() && sorted@[w] == orig[a];
            assert(o[w] == j);
        }
        assert forall|a: int, b: int| 0 <= a < b < o.len() implies
            !before(#[trigger] o[b], #[trigger] o[a]) by {
            assert(!sorted@[b].key_lt(&sorted@[a]));
            assert(orig.contains(sorted@[a]));
            assert(orig.contains(sorted@[b]));
            let wa = choose|w: int| 0 <= w < orig.len() && orig[w] == sorted@[a];
            let wb = choose|w: int| 0 <= w < orig.len() && orig[w] == sorted@[b];
            assert(orig[wb].key_lt(&orig[wa]) == before(orig[wb].position(), orig[wa].position()));
        }
    }
    order
}

} // verus!
