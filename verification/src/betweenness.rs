//! A simple betweenness measure: how often a node is newly discovered when
//! a breadth-first traversal is started from every node in turn.

use vstd::prelude::*;

use crate::digraph::EdgeWeightedDigraph;
use crate::filter::lemma_filter_push;
use crate::ranking::{is_ranking_of, lemma_ranking_holds_entries, rank_by_score};
use crate::reach::{
    closed_from, discoverers_below, discovery_count, has_edge, lemma_closed_holds_reachable,
    lemma_discoverers_bounded, lemma_discoverers_step, lemma_discovery_count_bounded,
    lemma_distinct_nodes, lemma_reach_step, lemma_reaches_itself, reachable,
};

verus! {

/// Every node of `m` with the number of traversals that discover it, in
/// node order.
pub open spec fn discovery_counts(m: Seq<Seq<int>>) -> Seq<(usize, usize)> {
    Seq::new(m.len(), |node: int| (node as usize, discovery_count(m, node) as usize))
}

/// The entries with a positive count.
pub open spec fn is_discovered() -> spec_fn((usize, usize)) -> bool {
    |entry: (usize, usize)| entry.1 > 0
}

/// The nodes of `m` that some traversal discovers, each with the number of
/// traversals that discover it, in node order. A node that is never
/// discovered has no entry.
pub open spec fn discovered_nodes(m: Seq<Seq<int>>) -> Seq<(usize, usize)> {
    discovery_counts(m).filter(is_discovered())
}

/// The discovered nodes are exactly the nodes with a positive discovery
/// count, each listed once with that count.
pub proof fn lemma_discovered_nodes(m: Seq<Seq<int>>, entry: (usize, usize))
    requires
        m.len() <= usize::MAX,
    ensures
        discovered_nodes(m).contains(entry) <==> {
            &&& entry.0 < m.len()
            &&& entry.1 == discovery_count(m, entry.0 as int)
            &&& entry.1 > 0
        },
{
    let all = discovery_counts(m);
    let keep = is_discovered();
    if discovered_nodes(m).contains(entry) {
        all.lemma_filter_contains_rev(keep, entry);
        let k = choose|k: int| 0 <= k < all.len() && all[k] == entry;
        lemma_discovery_count_bounded(m, k);
    }
    if entry.0 < m.len() && entry.1 == discovery_count(m, entry.0 as int) && entry.1 > 0 {
        lemma_discovery_count_bounded(m, entry.0 as int);
        assert(all[entry.0 as int] == entry);
        all.lemma_filter_contains(keep, entry.0 as int);
    }
}

/// A ranking of the discovered nodes holds exactly the nodes with a
/// positive discovery count, each with that count.
pub proof fn lemma_ranking_of_discovered(
    m: Seq<Seq<int>>,
    ranking: Seq<(usize, usize)>,
    entry: (usize, usize),
)
    requires
        m.len() <= usize::MAX,
        is_ranking_of(ranking, discovered_nodes(m)),
    ensures
        ranking.len() == discovered_nodes(m).len() <= m.len(),
        ranking.contains(entry) <==> {
            &&& entry.0 < m.len()
            &&& entry.1 == discovery_count(m, entry.0 as int)
            &&& entry.1 > 0
        },
{
    lemma_ranking_holds_entries(ranking, discovered_nodes(m));
    lemma_discovered_nodes(m, entry);
    discovery_counts(m).lemma_filter_len(is_discovered());
}

impl EdgeWeightedDigraph {
    /// Runs one breadth-first traversal from `source` along the edges of
    /// positive weight and adds one to the counter of every node that the
    /// traversal newly discovers. The source itself is not discovered.
    fn count_discoveries(&self, source: usize, counts: Vec<usize>) -> (updated: Vec<usize>)
        requires
            self.wf(),
            source < self@.len(),
            counts@.len() == self@.len(),
            forall|node: int| 0 <= node < counts@.len() ==> counts@[node] <= source,
        ensures
            updated@.len() == counts@.len(),
            forall|node: int|
                0 <= node < counts@.len() ==> #[trigger] updated@[node] == counts@[node] + if node
                    != source && reachable(self@, source as int, node) {
                    1int
                } else {
                    0int
                },
    {
        let n: usize = self.node_count();
        let ghost m = self@;
        let ghost before = counts@;
        let mut counts = counts;
        let mut visited: Vec<bool> = Vec::new();
        let mut filled: usize = 0;
        while filled < n
            invariant
                filled <= n,
                visited@.len() == filled,
                forall|k: int| 0 <= k < filled ==> !visited@[k],
            decreases n - filled,
        {
            visited.push(false);
            filled += 1;
        }
        visited[source] = true;
        let mut queue: Vec<usize> = Vec::new();
        queue.push(source);
        let ghost mut slot: Seq<int> = Seq::new(n as nat, |node: int| 0int);
        let mut head: usize = 0;
        proof {
            lemma_reaches_itself(m, source as int);
        }
        while head < queue.len()
            invariant
                self.wf(),
                m == self@,
                n == m.len(),
                source < n,
                visited@.len() == n,
                counts@.len() == n,
                before.len() == n,
                slot.len() == n,
                head <= queue@.len(),
                queue@.no_duplicates(),
                visited@[source as int],
                forall|k: int|
                    0 <= k < queue@.len() ==> (#[trigger] queue@[k]) < n && visited@[queue@[k] as int],
                forall|node: int|
                    0 <= node < n && #[trigger] visited@[node] ==> 0 <= slot[node] < queue@.len()
                        && queue@[slot[node]] == node,
                forall|node: int|
                    0 <= node < n && #[trigger] visited@[node] ==> reachable(m, source as int, node),
                forall|k: int, to: int|
                    0 <= k < head && #[trigger] has_edge(m, queue@[k] as int, to) ==> visited@[to],
                forall|node: int|
                    0 <= node < n ==> #[trigger] counts@[node] == before[node] + if visited@[node]
                        && node != source {
                        1int
                    } else {
                        0int
                    },
                forall|node: int| 0 <= node < n ==> #[trigger] before[node] <= source,
            decreases n - head,
        {
            proof {
                lemma_distinct_nodes(queue@, n as nat);
            }
            let node: usize = queue[head];
            let mut to: usize = 0;
            while to < n
                invariant
                    self.wf(),
                    m == self@,
                    n == m.len(),
                    source < n,
                    visited@.len() == n,
                    counts@.len() == n,
                    before.len() == n,
                    slot.len() == n,
                    head < queue@.len(),
                    node == queue@[head as int],
                    node < n,
                    to <= n,
                    queue@.no_duplicates(),
                    visited@[source as int],
                    forall|k: int|
                        0 <= k < queue@.len() ==> (#[trigger] queue@[k]) < n && visited@[queue@[k] as int],
                    forall|node: int|
                        0 <= node < n && #[trigger] visited@[node] ==> 0 <= slot[node]
                            < queue@.len() && queue@[slot[node]] == node,
                    forall|node: int|
                        0 <= node < n && #[trigger] visited@[node] ==> reachable(
                            m,
                            source as int,
                            node,
                        ),
                    forall|k: int, to: int|
                        0 <= k < head && #[trigger] has_edge(m, queue@[k] as int, to)
                            ==> visited@[to],
                    forall|t: int| 0 <= t < to && #[trigger] has_edge(m, node as int, t) ==> visited@[t],
                    forall|node: int|
                        0 <= node < n ==> #[trigger] counts@[node] == before[node] + if visited@[node]
                            && node != source {
                            1int
                        } else {
                            0int
                        },
                    forall|node: int| 0 <= node < n ==> #[trigger] before[node] <= source,
                decreases n - to,
            {
                if self.get_weight(node, to) > 0 && !visited[to] {
                    proof {
                        lemma_reach_step(m, source as int, node as int, to as int);
                        slot = slot.update(to as int, queue@.len() as int);
                    }
                    let ghost earlier = queue@;
                    visited[to] = true;
                    queue.push(to);
                    let count: usize = counts[to];
                    counts[to] = count + 1;
                    proof {
                        assert forall|k: int, t: int|
                            0 <= k < head && #[trigger] has_edge(m, queue@[k] as int, t) implies visited@[t] by {
                            assert(queue@[k] == earlier[k]);
                        }
                    }
                }
                to += 1;
            }
            proof {
                assert forall|k: int, t: int|
                    0 <= k < head + 1 && #[trigger] has_edge(m, queue@[k] as int, t) implies visited@[t] by {
                    if k == head {
                        assert(has_edge(m, node as int, t));
                    }
                }
            }
            head += 1;
        }
        proof {
            assert forall|from: int, to: int|
                0 <= from < m.len() && visited@[from] && #[trigger] has_edge(
                    m,
                    from,
                    to,
                ) implies visited@[to] by {
                let k = slot[from];
                assert(queue@[k] == from);
                assert(has_edge(m, queue@[k] as int, to));
            }
            assert(closed_from(m, source as int, visited@));
            assert forall|node: int| 0 <= node < n implies #[trigger] counts@[node] == before[node]
                + if node != source && reachable(m, source as int, node) {
                1int
            } else {
                0int
            } by {
                if reachable(m, source as int, node) {
                    lemma_closed_holds_reachable(m, source as int, visited@, node);
                }
            }
        }
        counts
    }

    /// Ranks the nodes by how often they are newly discovered when a
    /// breadth-first traversal along the edges of positive weight is run
    /// from every node in turn. The result holds one pair `(node, count)`
    /// for every node that is discovered at least once, highest count first;
    /// nodes with the same count are in ascending order. A node that no
    /// traversal discovers is left out.
    pub fn simple_betweenness_centrality(&self) -> (ranking: Vec<(usize, usize)>)
        requires
            self.wf(),
        ensures
            is_ranking_of(ranking@, discovered_nodes(self@)),
    {
        let n: usize = self.node_count();
        let ghost m = self@;
        let mut counts: Vec<usize> = Vec::new();
        let mut filled: usize = 0;
        while filled < n
            invariant
                filled <= n,
                counts@.len() == filled,
                forall|k: int| 0 <= k < filled ==> counts@[k] == 0,
            decreases n - filled,
        {
            counts.push(0);
            filled += 1;
        }
        let mut source: usize = 0;
        proof {
            assert forall|node: int| 0 <= node < n implies #[trigger] counts@[node]
                == discoverers_below(m, node, 0).len() by {
                assert(discoverers_below(m, node, 0) =~= Set::<int>::empty());
            }
        }
        while source < n
            invariant
                self.wf(),
                m == self@,
                n == m.len(),
                source <= n,
                counts@.len() == n,
                forall|node: int|
                    0 <= node < n ==> #[trigger] counts@[node] == discoverers_below(
                        m,
                        node,
                        source as int,
                    ).len(),
            decreases n - source,
        {
            proof {
                assert forall|node: int| 0 <= node < n implies counts@[node] <= source by {
                    lemma_discoverers_bounded(m, node, source as int);
                }
            }
            counts = self.count_discoveries(source, counts);
            proof {
                assert forall|node: int| 0 <= node < n implies #[trigger] counts@[node]
                    == discoverers_below(m, node, source + 1).len() by {
                    lemma_discoverers_step(m, node, source as int);
                }
            }
            source += 1;
        }
        let ghost all = discovery_counts(m);
        let mut found: Vec<(usize, usize)> = Vec::new();
        let mut node: usize = 0;
        proof {
            reveal(Seq::filter);
            assert(all.take(0) =~= Seq::<(usize, usize)>::empty());
        }
        while node < n
            invariant
                n == m.len(),
                node <= n,
                counts@.len() == n,
                all == discovery_counts(m),
                forall|v: int| 0 <= v < n ==> #[trigger] counts@[v] == discovery_count(m, v),
                found@ == all.take(node as int).filter(is_discovered()),
            decreases n - node,
        {
            let count: usize = counts[node];
            proof {
                assert(all.take(node + 1) =~= all.take(node as int).push((node, count)));
                lemma_filter_push(all.take(node as int), (node, count), is_discovered());
            }
            if count > 0 {
                found.push((node, count));
            }
            node += 1;
        }
        assert(all.take(n as int) =~= all);
        rank_by_score(found)
    }
}

} // verus!
