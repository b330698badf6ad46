//! Ordered sets of strings, held as strictly increasing vectors.

use vstd::prelude::*;
use crate::snapshot::views;
use crate::text::{lemma_lex_lt_irreflexive, lemma_lex_lt_transitive, lemma_lex_total, lex_lt, str_eq, str_lt};

verus! {

/// Each string comes strictly before the next.
pub open spec fn strictly_sorted(s: Seq<Seq<char>>) -> bool {
    forall|i: int, j: int| 0 <= i < j < s.len() ==> lex_lt(#[trigger] s[i], #[trigger] s[j])
}

/// The set a strictly increasing vector of strings holds.
pub open spec fn set_of(v: Seq<String>) -> Set<Seq<char>> {
    views(v).to_set()
}

/// `v` is an ordered string set.
pub open spec fn is_str_set(v: Seq<String>) -> bool {
    strictly_sorted(views(v))
}

/// Adds `x` to the ordered set `v`.
pub fn set_insert(v: &mut Vec<String>, x: String)
    requires
        is_str_set(old(v)@),
    ensures
        is_str_set(final(v)@),
        set_of(final(v)@) == set_of(old(v)@).insert(x@),
        final(v)@.len() == old(v)@.len() + if set_of(old(v)@).contains(x@) { 0int } else { 1int },
{
    let ghost before = views(v@);
    let mut p: usize = 0;
    while p < v.len() && str_lt(v[p].as_str(), x.as_str())
        invariant
            p <= v@.len(),
            before == views(v@),
            forall|q: int| 0 <= q < p ==> lex_lt(#[trigger] v@[q]@, x@),
        decreases v.len() - p,
    {
        p = p + 1;
    }
    if p < v.len() && str_eq(v[p].as_str(), x.as_str()) {
        proof {
            assert(views(v@)[p as int] == x@);
            assert(set_of(v@) =~= set_of(v@).insert(x@)) by {
                assert(views(v@)[p as int] == x@);
            }
        }
        return;
    }
    proof {
        if p < v@.len() {
            lemma_lex_total(v@[p as int]@, x@);
        }
        assert(!set_of(v@).contains(x@)) by {
            if set_of(v@).contains(x@) {
                let w = choose|w: int| 0 <= w < views(v@).len() && views(v@)[w] == x@;
                if w < p {
                    assert(lex_lt(v@[w]@, x@));
                    lemma_lex_lt_irreflexive(x@);
                } else if w > p {
                    assert(lex_lt(before[p as int], before[w]));
                    lemma_lex_lt_transitive(x@, before[p as int], before[w]);
                    lemma_lex_lt_irreflexive(x@);
                }
            }
        }
    }
    v.insert(p, x);
    proof {
        let after = views(v@);
        assert(after =~= before.insert(p as int, x@));
        assert forall|i: int, j: int| 0 <= i < j < after.len() implies lex_lt(#[trigger] after[i], #[trigger] after[j]) by {
            if j == p {
                assert(after[i] == before[i]);
            } else if i == p {
                assert(after[j] == before[j - 1]);
                if j - 1 > p {
                    assert(lex_lt(before[p as int], before[j - 1]));
                    lemma_lex_lt_transitive(x@, before[p as int], before[j - 1]);
                }
            } else {
                let a = if i < p { i } else { i - 1 };
                let b = if j < p { j } else { j - 1 };
                assert(after[i] == before[a]);
                assert(after[j] == before[b]);
            }
        }
        assert(after.to_set() =~= before.to_set().insert(x@)) by {
            assert forall|y: Seq<char>| after.to_set().contains(y) implies before.to_set().insert(x@).contains(y) by {
                let w = choose|w: int| 0 <= w < after.len() && after[w] == y;
                if w < p {
                    assert(before[w] == y);
                } else if w > p {
                    assert(before[w - 1] == y);
                }
            }
            assert forall|y: Seq<char>| before.to_set().insert(x@).contains(y) implies after.to_set().contains(y) by {
                if y == x@ {
                    assert(after[p as int] == y);
                } else {
                    let w = choose|w: int| 0 <= w < before.len() && before[w] == y;
                    if w < p {
                        assert(after[w] == y);
                    } else {
                        assert(after[w + 1] == y);
                    }
                }
            }
        }
    }
}

/// The empty ordered set.
pub fn set_new() -> (r: Vec<String>)
    ensures
        is_str_set(r@),
        set_of(r@) == Set::<Seq<char>>::empty(),
        r@.len() == 0,
{
    let r: Vec<String> = Vec::new();
    assert(set_of(r@) =~= Set::<Seq<char>>::empty());
    r
}

/// Whether the ordered set `v` holds `x`.
pub fn set_contains(v: &Vec<String>, x: &String) -> (r: bool)
    ensures
        r == set_of(v@).contains(x@),
{
    let mut i: usize = 0;
    while i < v.len()
        invariant
            i <= v@.len(),
            forall|j: int| 0 <= j < i ==> v@[j]@ != x@,
        decreases v.len() - i,
    {
        if str_eq(v[i].as_str(), x.as_str()) {
            assert(views(v@)[i as int] == x@);
            return true;
        }
        i = i + 1;
    }
    proof {
        if set_of(v@).contains(x@) {
            let w = choose|w: int| 0 <= w < views(v@).len() && views(v@)[w] == x@;
            assert(v@[w]@ == x@);
        }
    }
    false
}

/// The characters of a pair of strings.
pub open spec fn pair_view(p: (String, String)) -> (Seq<char>, Seq<char>) {
    (p.0@, p.1@)
}

/// The characters of each pair of a list.
pub open spec fn pair_views(v: Seq<(String, String)>) -> Seq<(Seq<char>, Seq<char>)> {
    Seq::new(v.len(), |i: int| pair_view(v[i]))
}

/// The characters of an optional pair.
pub open spec fn opt_pair_view(o: Option<(String, String)>) -> Option<(Seq<char>, Seq<char>)> {
    match o {
        None => None,
        Some(x) => Some(pair_view(x)),
    }
}

/// Some entry of `c` offers the pair `p`.
pub open spec fn offered(c: Seq<Option<(String, String)>>, p: (Seq<char>, Seq<char>)) -> bool {
    exists|k: int| 0 <= k < c.len() && #[trigger] opt_pair_view(c[k]) == Some(p)
}

/// The distinct pairs that the entries of `c` offer, in the order they first occur.
pub fn distinct_pairs(c: &Vec<Option<(String, String)>>) -> (pairs: Vec<(String, String)>)
    ensures
        pair_views(pairs@).no_duplicates(),
        forall|p: (Seq<char>, Seq<char>)| pair_views(pairs@).contains(p) <==> offered(c@, p),
{
    let mut pairs: Vec<(String, String)> = Vec::new();
    let mut j: usize = 0;
    while j < c.len()
        invariant
            j <= c@.len(),
            pair_views(pairs@).no_duplicates(),
            forall|p: (Seq<char>, Seq<char>)| pair_views(pairs@).contains(p) <==> offered(c@.take(j as int), p),
        decreases c.len() - j,
    {
        let ghost old_pairs = pairs@;
        let ghost cj = c@.take(j + 1);
        assert forall|k: int| 0 <= k < j implies cj[k] == c@.take(j as int)[k] by {}
        match &c[j] {
            None => {
                assert forall|p: (Seq<char>, Seq<char>)| pair_views(pairs@).contains(p) <==> offered(cj, p) by {
                    if offered(cj, p) {
                        let k = choose|k: int| 0 <= k < cj.len() && #[trigger] opt_pair_view(cj[k]) == Some(p);
                        assert(k != j);
                        assert(opt_pair_view(c@.take(j as int)[k]) == Some(p));
                    }
                    if offered(c@.take(j as int), p) {
                        let k = choose|k: int| 0 <= k < j && #[trigger] opt_pair_view(c@.take(j as int)[k]) == Some(p);
                        assert(opt_pair_view(cj[k]) == Some(p));
                    }
                }
            },
            Some(x) => {
                let mut k: usize = 0;
                while k < pairs.len() && !(str_eq(pairs[k].0.as_str(), x.0.as_str()) && str_eq(pairs[k].1.as_str(), x.1.as_str()))
                    invariant
                        k <= pairs@.len(),
                        forall|q: int| 0 <= q < k ==> pair_view(pairs@[q]) != pair_view(*x),
                    decreases pairs.len() - k,
                {
                    k = k + 1;
                }
                let seen = k < pairs.len();
                if !seen {
                    pairs.push((x.0.clone(), x.1.clone()));
                }
                proof {
                    let pv = pair_view(*x);
                    assert(opt_pair_view(cj[j as int]) == Some(pv));
                    if seen {
                        assert(pair_views(old_pairs)[k as int] == pv);
                    } else {
                        assert(pair_views(pairs@) =~= pair_views(old_pairs).push(pv));
                        assert(!pair_views(old_pairs).contains(pv)) by {
                            if pair_views(old_pairs).contains(pv) {
                                let w = choose|w: int| 0 <= w < old_pairs.len() && #[trigger] pair_views(old_pairs)[w] == pv;
                                assert(pair_view(old_pairs[w]) == pv);
                            }
                        }
                    }
                    assert forall|p: (Seq<char>, Seq<char>)| pair_views(pairs@).contains(p) <==> offered(cj, p) by {
                        if pair_views(pairs@).contains(p) && p != pv {
                            let w = choose|w: int| 0 <= w < pairs@.len() && #[trigger] pair_views(pairs@)[w] == p;
                            if !seen {
                                assert(w < old_pairs.len());
                            }
                            assert(pair_views(old_pairs)[w] == p);
                            assert(pair_views(old_pairs).contains(p));
                            let q = choose|q: int| 0 <= q < j && #[trigger] opt_pair_view(c@.take(j as int)[q]) == Some(p);
                            assert(opt_pair_view(cj[q]) == Some(p));
                        }
                        if offered(cj, p) {
                            if p != pv {
                                let q = choose|q: int| 0 <= q < cj.len() && #[trigger] opt_pair_view(cj[q]) == Some(p);
                                assert(q != j);
                                assert(opt_pair_view(c@.take(j as int)[q]) == Some(p));
                                assert(pair_views(old_pairs).contains(p));
                                let w = choose|w: int| 0 <= w < old_pairs.len() && #[trigger] pair_views(old_pairs)[w] == p;
                                assert(pair_views(pairs@)[w] == p);
                            } else if seen {
                                assert(pair_views(pairs@)[k as int] == p);
                            } else {
                                assert(pair_views(pairs@)[old_pairs.len() as int] == p);
                            }
                        }
                    }
                }
            },
        }
        j = j + 1;
    }
    assert(c@.take(j as int) =~= c@);
    pairs
}

/// Pairs of strings in lexicographic order, by the first string and then the second.
pub open spec fn pair_lt(p: (Seq<char>, Seq<char>), q: (Seq<char>, Seq<char>)) -> bool {
    lex_lt(p.0, q.0) || (p.0 == q.0 && lex_lt(p.1, q.1))
}

pub proof fn lemma_sorted_unique(s: Seq<Seq<char>>)
    requires
        strictly_sorted(s),
    ensures
        s.no_duplicates(),
{
    assert forall|i: int, j: int| 0 <= i < s.len() && 0 <= j < s.len() && i != j implies s[i] != s[j] by {
        if i < j {
            assert(lex_lt(s[i], s[j]));
            if s[i] == s[j] {
                lemma_lex_lt_irreflexive(s[i]);
            }
        } else {
            assert(lex_lt(s[j], s[i]));
            if s[i] == s[j] {
                lemma_lex_lt_irreflexive(s[i]);
            }
        }
    }
}

} // verus!
