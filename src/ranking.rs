//! Deterministic ranking of scored terms: score descending, then term ascending.
//!
//! A score is given as an order key: a larger key is a higher score.
use vstd::prelude::*;
use crate::text::{lemma_bytes_lt_irreflexive, lemma_bytes_lt_total, lemma_bytes_lt_transitive, term_lt, term_less};

verus! {

/// A scored term as the ranking sees it.
pub open spec fn entry_of(e: (String, u64)) -> (Seq<char>, u64) {
    (e.0@, e.1)
}

/// `x` ranks strictly before `y`: a higher score, or the same score and a smaller term.
pub open spec fn ranks_before(x: (Seq<char>, u64), y: (Seq<char>, u64)) -> bool {
    x.1 > y.1 || (x.1 == y.1 && term_lt(x.0, y.0))
}

/// `order` lists every position of `entries` once, and no entry ranks before
/// one listed ahead of it.
pub open spec fn is_ranking(entries: Seq<(String, u64)>, order: Seq<usize>) -> bool {
    &&& order.len() == entries.len()
    &&& forall|i: int| 0 <= i < order.len() ==> order[i] < entries.len()
    &&& forall|i: int, j: int| 0 <= i < j < order.len() ==> order[i] != order[j]
    &&& forall|i: int, j: int|
        0 <= i < j < order.len() ==> !ranks_before(
            entry_of(entries[order[j] as int]),
            entry_of(entries[order[i] as int]),
        )
}

pub proof fn lemma_ranks_before_irreflexive(x: (Seq<char>, u64))
    ensures
        !ranks_before(x, x),
{
    lemma_bytes_lt_irreflexive(vstd::utf8::encode_utf8(x.0));
}

pub proof fn lemma_ranks_before_transitive(x: (Seq<char>, u64), y: (Seq<char>, u64), z: (Seq<char>, u64))
    requires
        ranks_before(x, y),
        ranks_before(y, z),
    ensures
        ranks_before(x, z),
{
    if x.1 == y.1 && y.1 == z.1 {
        lemma_bytes_lt_transitive(
            vstd::utf8::encode_utf8(x.0),
            vstd::utf8::encode_utf8(y.0),
            vstd::utf8::encode_utf8(z.0),
        );
    }
}

/// Ranking before is kept along a ranking: `x` before `y`, and `z` not before
/// `y`, puts `x` before `z`.
pub proof fn lemma_ranks_before_monotone(x: (Seq<char>, u64), y: (Seq<char>, u64), z: (Seq<char>, u64))
    requires
        ranks_before(x, y),
        !ranks_before(z, y),
    ensures
        ranks_before(x, z),
{
    let ey = vstd::utf8::encode_utf8(y.0);
    let ez = vstd::utf8::encode_utf8(z.0);
    lemma_bytes_lt_total(ey, ez);
    if ranks_before(y, z) {
        lemma_ranks_before_transitive(x, y, z);
    }
}

fn ranks_before_exec(x: &(String, u64), y: &(String, u64)) -> (r: bool)
    ensures
        r == ranks_before(entry_of(*x), entry_of(*y)),
{
    x.1 > y.1 || (x.1 == y.1 && term_less(x.0.as_str(), y.0.as_str()))
}

/// The positions of `entries` in ranking order.
pub fn sort_ranked_map(entries: &Vec<(String, u64)>) -> (order: Vec<usize>)
    ensures
        is_ranking(entries@, order@),
{
    let mut order: Vec<usize> = Vec::new();
    let mut k: usize = 0;
    while k < entries.len()
        invariant
            k <= entries@.len(),
            order@.len() == k,
            forall|i: int| 0 <= i < order@.len() ==> order@[i] < k,
            forall|i: int, j: int| 0 <= i < j < order@.len() ==> order@[i] != order@[j],
            forall|i: int, j: int|
                0 <= i < j < order@.len() ==> !ranks_before(
                    entry_of(entries@[order@[j] as int]),
                    entry_of(entries@[order@[i] as int]),
                ),
        decreases entries@.len() - k,
    {
        let ghost x = entry_of(entries@[k as int]);
        let mut lo: usize = 0;
        let mut hi: usize = order.len();
        while lo < hi
            invariant
                k < entries@.len(),
                x == entry_of(entries@[k as int]),
                lo <= hi <= order@.len(),
                forall|i: int| 0 <= i < order@.len() ==> order@[i] < k,
                forall|i: int, j: int|
                    0 <= i < j < order@.len() ==> !ranks_before(
                        entry_of(entries@[order@[j] as int]),
                        entry_of(entries@[order@[i] as int]),
                    ),
                forall|q: int| 0 <= q < lo ==> !ranks_before(x, entry_of(entries@[order@[q] as int])),
                forall|q: int| hi <= q < order@.len() ==> ranks_before(x, entry_of(entries@[order@[q] as int])),
            decreases hi - lo,
        {
            let mid = lo + (hi - lo) / 2;
            let ghost m = entry_of(entries@[order@[mid as int] as int]);
            if ranks_before_exec(&entries[k], &entries[order[mid]]) {
                proof {
                    assert forall|q: int| mid <= q < order@.len() implies ranks_before(
                        x,
                        entry_of(entries@[order@[q] as int]),
                    ) by {
                        if q > mid {
                            lemma_ranks_before_monotone(x, m, entry_of(entries@[order@[q] as int]));
                        }
                    }
                }
                hi = mid;
            } else {
                proof {
                    assert forall|q: int| 0 <= q < mid + 1 implies !ranks_before(
                        x,
                        entry_of(entries@[order@[q] as int]),
                    ) by {
                        if q < mid && ranks_before(x, entry_of(entries@[order@[q] as int])) {
                            lemma_ranks_before_monotone(x, entry_of(entries@[order@[q] as int]), m);
                        }
                    }
                }
                lo = mid + 1;
            }
        }
        let p = lo;
        let ghost old_order = order@;
        order.insert(p, k);
        proof {
            assert forall|i: int, j: int| 0 <= i < j < order@.len() implies !ranks_before(
                entry_of(entries@[order@[j] as int]),
                entry_of(entries@[order@[i] as int]),
            ) by {
                if i < p && j == p {
                } else if i == p && j > p {
                    let y = entry_of(entries@[old_order[j - 1] as int]);
                    if ranks_before(y, x) {
                        let z = entry_of(entries@[old_order[p as int] as int]);
                        if j - 1 > p {
                            lemma_ranks_before_transitive(y, x, z);
                        } else {
                            lemma_ranks_before_transitive(y, x, y);
                            lemma_ranks_before_irreflexive(y);
                        }
                    }
                } else if i < p && j > p {
                } else {
                }
            }
        }
        k += 1;
    }
    order
}

/// The first `min(n, len)` terms in ranking order.
pub fn get_ranked_strings(entries: &Vec<(String, u64)>, n: usize) -> (r: Vec<String>)
    ensures
        exists|order: Seq<usize>|
            #![trigger is_ranking(entries@, order)]
            is_ranking(entries@, order) && r@.len() == (if n < entries@.len() { n as int } else { entries@.len() as int })
                && forall|i: int| 0 <= i < r@.len() ==> r@[i]@ == entries@[order[i] as int].0@,
{
    let order = sort_ranked_map(entries);
    let mut r: Vec<String> = Vec::new();
    let mut i: usize = 0;
    while i < n && i < order.len()
        invariant
            is_ranking(entries@, order@),
            i <= order@.len(),
            i <= n,
            r@.len() == i,
            forall|q: int| 0 <= q < i ==> r@[q]@ == entries@[order@[q] as int].0@,
        decreases order@.len() - i,
    {
        r.push(entries[order[i]].0.clone());
        i += 1;
    }
    assert(forall|q: int| 0 <= q < r@.len() ==> r@[q]@ == entries@[order@[q] as int].0@);
    assert(is_ranking(entries@, order@));
    r
}

/// The first `min(n, len)` terms with their scores, in ranking order.
pub fn get_ranked_scores(entries: &Vec<(String, u64)>, n: usize) -> (r: Vec<(String, u64)>)
    ensures
        exists|order: Seq<usize>|
            #![trigger is_ranking(entries@, order)]
            is_ranking(entries@, order) && r@.len() == (if n < entries@.len() { n as int } else { entries@.len() as int })
                && forall|i: int| 0 <= i < r@.len() ==> entry_of(r@[i]) == entry_of(entries@[order[i] as int]),
{
    let order = sort_ranked_map(entries);
    let mut r: Vec<(String, u64)> = Vec::new();
    let mut i: usize = 0;
    while i < n && i < order.len()
        invariant
            is_ranking(entries@, order@),
            i <= order@.len(),
            i <= n,
            r@.len() == i,
            forall|q: int| 0 <= q < i ==> entry_of(r@[q]) == entry_of(entries@[order@[q] as int]),
        decreases order@.len() - i,
    {
        let e = &entries[order[i]];
        r.push((e.0.clone(), e.1));
        i += 1;
    }
    assert(forall|q: int| 0 <= q < r@.len() ==> entry_of(r@[q]) == entry_of(entries@[order@[q] as int]));
    assert(is_ranking(entries@, order@));
    r
}

} // verus!
