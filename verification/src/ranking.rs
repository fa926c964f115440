//! Ranking of `(node, score)` pairs: highest score first, and among equal
//! scores the lower node first.

use vstd::prelude::*;
use vstd::relations::{sorted_by, total_ordering};
use vstd::seq_lib::{lemma_sorted_unique, to_multiset_build, to_multiset_insert};

verus! {

/// `a` is ranked no later than `b`: it has the higher score, or the same
/// score and no higher a node.
pub open spec fn ranks_no_later(a: (usize, usize), b: (usize, usize)) -> bool {
    a.1 > b.1 || (a.1 == b.1 && a.0 <= b.0)
}

/// The ranking order as a relation.
pub open spec fn rank_order() -> spec_fn((usize, usize), (usize, usize)) -> bool {
    |a: (usize, usize), b: (usize, usize)| ranks_no_later(a, b)
}

/// `ranking` holds the pairs of `entries`, each as often as `entries` does,
/// in ranking order.
pub open spec fn is_ranking_of(ranking: Seq<(usize, usize)>, entries: Seq<(usize, usize)>) -> bool {
    &&& ranking.to_multiset() == entries.to_multiset()
    &&& sorted_by(ranking, rank_order())
}

/// The ranking order is a total order on pairs.
pub proof fn lemma_rank_order_total()
    ensures
        total_ordering(rank_order()),
{
    let order = rank_order();
    assert forall|a: (usize, usize), b: (usize, usize)| #[trigger]
        order(a, b) && #[trigger] order(b, a) implies a == b by {
        assert(a.0 == b.0 && a.1 == b.1);
    }
}

/// The entries determine their ranking: two rankings of the same entries
/// are the same sequence.
pub proof fn lemma_ranking_unique(
    first: Seq<(usize, usize)>,
    second: Seq<(usize, usize)>,
    entries: Seq<(usize, usize)>,
)
    requires
        is_ranking_of(first, entries),
        is_ranking_of(second, entries),
    ensures
        first == second,
{
    lemma_rank_order_total();
    lemma_sorted_unique(first, second, rank_order());
}

/// A ranking has the length of its entries and holds the same pairs.
pub proof fn lemma_ranking_holds_entries(
    ranking: Seq<(usize, usize)>,
    entries: Seq<(usize, usize)>,
)
    requires
        is_ranking_of(ranking, entries),
    ensures
        ranking.len() == entries.len(),
        forall|e: (usize, usize)| ranking.contains(e) <==> entries.contains(e),
        forall|i: int, j: int|
            0 <= i < j < ranking.len() ==> ranks_no_later(#[trigger] ranking[i], #[trigger] ranking[j]),
{
    ranking.to_multiset_ensures();
    entries.to_multiset_ensures();
    assert forall|e: (usize, usize)| ranking.contains(e) <==> entries.contains(e) by {
        assert(ranking.contains(e) <==> ranking.to_multiset().count(e) > 0);
        assert(entries.contains(e) <==> entries.to_multiset().count(e) > 0);
    }
    assert forall|i: int, j: int| 0 <= i < j < ranking.len() implies ranks_no_later(
        #[trigger] ranking[i],
        #[trigger] ranking[j],
    ) by {
        assert(rank_order()(ranking[i], ranking[j]));
    }
}

/// Whether `a` is ranked no later than `b`.
pub fn ranked_no_later(a: (usize, usize), b: (usize, usize)) -> (r: bool)
    ensures
        r == ranks_no_later(a, b),
{
    a.1 > b.1 || (a.1 == b.1 && a.0 <= b.0)
}

/// Ranks the entries: highest score first, and among equal scores the
/// lower node first.
pub fn rank_by_score(entries: Vec<(usize, usize)>) -> (ranking: Vec<(usize, usize)>)
    ensures
        is_ranking_of(ranking@, entries@),
{
    let mut ranking: Vec<(usize, usize)> = Vec::new();
    let mut i: usize = 0;
    assert(ranking@ =~= entries@.take(0));
    while i < entries.len()
        invariant
            i <= entries.len(),
            ranking@.to_multiset() == entries@.take(i as int).to_multiset(),
            sorted_by(ranking@, rank_order()),
        decreases entries.len() - i,
    {
        let entry: (usize, usize) = entries[i];
        let mut at: usize = 0;
        while at < ranking.len() && ranked_no_later(ranking[at], entry)
            invariant
                at <= ranking.len(),
                forall|k: int| 0 <= k < at ==> ranks_no_later(#[trigger] ranking@[k], entry),
            decreases ranking.len() - at,
        {
            at += 1;
        }
        proof {
            let before = ranking@;
            let after = before.insert(at as int, entry);
            before.insert_ensures(at as int, entry);
            assert forall|a: int, b: int| 0 <= a < b < after.len() implies #[trigger] rank_order()(
                after[a],
                after[b],
            ) by {
                if b < at {
                    assert(rank_order()(before[a], before[b]));
                } else if b == at {
                    assert(ranks_no_later(before[a], entry));
                } else if a == at {
                    assert(!ranks_no_later(before[at as int], entry));
                    assert(after[b] == before[b - 1]);
                    if at < b - 1 {
                        assert(rank_order()(before[at as int], before[b - 1]));
                    }
                } else if a < at {
                    assert(after[b] == before[b - 1]);
                    assert(rank_order()(before[a], before[b - 1]));
                } else {
                    assert(after[a] == before[a - 1]);
                    assert(after[b] == before[b - 1]);
                    assert(rank_order()(before[a - 1], before[b - 1]));
                }
            }
            to_multiset_insert(before, at as int, entry);
            assert(entries@.take(i + 1) =~= entries@.take(i as int).push(entry));
            to_multiset_build(entries@.take(i as int), entry);
        }
        ranking.insert(at, entry);
        i += 1;
    }
    assert(entries@.take(entries.len() as int) =~= entries@);
    ranking
}

} // verus!
