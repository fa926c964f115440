//! The sources of a node: the nodes that have an edge to it, each with the
//! out-degree by which it shares out what it passes along its edges.

use vstd::prelude::*;

use crate::digraph::EdgeWeightedDigraph;
use crate::filter::lemma_filter_push;
use crate::reach::has_edge;
use crate::weights::{lemma_edge_gives_degree, out_degree};

verus! {

/// Every node of `m` with its out-degree, in node order.
pub open spec fn nodes_with_out_degree(m: Seq<Seq<int>>) -> Seq<(int, int)> {
    Seq::new(m.len(), |node: int| (node, out_degree(m, node)))
}

/// The entries whose node has an edge to `target`.
pub open spec fn has_edge_to(m: Seq<Seq<int>>, target: int) -> spec_fn((int, int)) -> bool {
    |entry: (int, int)| has_edge(m, entry.0, target)
}

/// The nodes of `m` that have an edge to `target`, in ascending order, each
/// with its out-degree.
pub open spec fn sources_of(m: Seq<Seq<int>>, target: int) -> Seq<(int, int)> {
    nodes_with_out_degree(m).filter(has_edge_to(m, target))
}

/// The entries as pairs of integers.
pub open spec fn as_ints(entries: Seq<(usize, u128)>) -> Seq<(int, int)> {
    Seq::new(entries.len(), |k: int| (entries[k].0 as int, entries[k].1 as int))
}

impl EdgeWeightedDigraph {
    /// The nodes that have an edge to `target`, in ascending order, each
    /// with its out-degree. The out-degree of a source is positive.
    pub fn sources_of(&self, target: usize) -> (sources: Vec<(usize, u128)>)
        requires
            self.wf(),
            target < self@.len(),
        ensures
            as_ints(sources@) == sources_of(self@, target as int),
            forall|k: int| 0 <= k < sources@.len() ==> (#[trigger] sources@[k]).1 > 0,
    {
        let n: usize = self.node_count();
        let ghost m = self@;
        let ghost all = nodes_with_out_degree(m);
        let ghost keep = has_edge_to(m, target as int);
        let mut sources: Vec<(usize, u128)> = Vec::new();
        let mut node: usize = 0;
        proof {
            reveal(Seq::filter);
            assert(all.take(0) =~= Seq::<(int, int)>::empty());
            assert(as_ints(sources@) =~= Seq::<(int, int)>::empty());
        }
        while node < n
            invariant
                self.wf(),
                m == self@,
                n == m.len(),
                target < n,
                node <= n,
                all == nodes_with_out_degree(m),
                keep == has_edge_to(m, target as int),
                as_ints(sources@) == all.take(node as int).filter(keep),
                forall|k: int| 0 <= k < sources@.len() ==> (#[trigger] sources@[k]).1 > 0,
            decreases n - node,
        {
            proof {
                assert(all.take(node + 1) =~= all.take(node as int).push(all[node as int]));
                lemma_filter_push(all.take(node as int), all[node as int], keep);
            }
            if self.get_weight(node, target) > 0 {
                let shared: u128 = self.out_degree(node);
                let ghost earlier = sources@;
                sources.push((node, shared));
                proof {
                    lemma_edge_gives_degree(m, node as int, target as int);
                    assert(as_ints(sources@) =~= as_ints(earlier).push(all[node as int]));
                }
            }
            node += 1;
        }
        assert(all.take(n as int) =~= all);
        sources
    }
}

} // verus!
