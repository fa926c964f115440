//! Reachability along edges of positive weight.

use vstd::prelude::*;
use vstd::set_lib::{lemma_int_range, lemma_len_subset, set_int_range};

verus! {

/// There is an edge `from -> to`: both are nodes of `m` and the weight
/// between them is positive.
pub open spec fn has_edge(m: Seq<Seq<int>>, from: int, to: int) -> bool {
    &&& 0 <= from < m.len()
    &&& 0 <= to < m.len()
    &&& m[from][to] > 0
}

/// `walk` is a non-empty sequence of nodes of `m` in which every node is
/// joined to the next by an edge.
pub open spec fn is_walk(m: Seq<Seq<int>>, walk: Seq<int>) -> bool {
    &&& walk.len() > 0
    &&& forall|k: int| 0 <= k < walk.len() ==> 0 <= #[trigger] walk[k] < m.len()
    &&& forall|k: int, l: int|
        0 <= k && l == k + 1 && l < walk.len() ==> has_edge(m, #[trigger] walk[k], #[trigger] walk[l])
}

/// `target` can be reached from `source`: some walk starts in `source` and
/// ends in `target`. Every node reaches itself.
pub open spec fn reachable(m: Seq<Seq<int>>, source: int, target: int) -> bool {
    exists|walk: Seq<int>|
        #[trigger] is_walk(m, walk) && walk.first() == source && walk.last() == target
}

/// The nodes below `bound`, other than `node`, from which `node` can be reached.
pub open spec fn discoverers_below(m: Seq<Seq<int>>, node: int, bound: int) -> Set<int> {
    Set::new(|source: int| 0 <= source < bound && source != node && reachable(m, source, node))
}

/// The nodes other than `node` from which `node` can be reached: the
/// sources whose breadth-first traversal discovers `node`.
pub open spec fn discoverers(m: Seq<Seq<int>>, node: int) -> Set<int> {
    discoverers_below(m, node, m.len() as int)
}

/// How many traversals, one from every node, discover `node`.
pub open spec fn discovery_count(m: Seq<Seq<int>>, node: int) -> nat {
    discoverers(m, node).len()
}

/// Every node reaches itself.
pub proof fn lemma_reaches_itself(m: Seq<Seq<int>>, node: int)
    requires
        0 <= node < m.len(),
    ensures
        reachable(m, node, node),
{
    let walk = seq![node];
    assert(is_walk(m, walk));
    assert(walk.first() == node && walk.last() == node);
}

/// A walk can be continued along an edge: what has an edge from a reachable
/// node is reachable.
pub proof fn lemma_reach_step(m: Seq<Seq<int>>, source: int, via: int, target: int)
    requires
        reachable(m, source, via),
        has_edge(m, via, target),
    ensures
        reachable(m, source, target),
{
    let walk = choose|walk: Seq<int>|
        #[trigger] is_walk(m, walk) && walk.first() == source && walk.last() == via;
    let longer = walk.push(target);
    assert forall|k: int, l: int| 0 <= k && l == k + 1 && l < longer.len() implies has_edge(
        m,
        #[trigger] longer[k],
        #[trigger] longer[l],
    ) by {
        if l < walk.len() {
            assert(has_edge(m, walk[k], walk[l]));
        }
    }
    assert(is_walk(m, longer));
    assert(longer.first() == source && longer.last() == target);
}

/// `marked` holds `source` and, with every node it holds, the nodes that
/// node has an edge to.
pub open spec fn closed_from(m: Seq<Seq<int>>, source: int, marked: Seq<bool>) -> bool {
    &&& marked.len() == m.len()
    &&& 0 <= source < m.len()
    &&& marked[source]
    &&& forall|from: int, to: int|
        0 <= from < m.len() && marked[from] && #[trigger] has_edge(m, from, to) ==> marked[to]
}

/// A walk that starts inside a closed marking never leaves it.
proof fn lemma_walk_stays_marked(
    m: Seq<Seq<int>>,
    source: int,
    marked: Seq<bool>,
    walk: Seq<int>,
    k: int,
)
    requires
        closed_from(m, source, marked),
        is_walk(m, walk),
        walk.first() == source,
        0 <= k < walk.len(),
    ensures
        marked[walk[k]],
    decreases k,
{
    if k > 0 {
        lemma_walk_stays_marked(m, source, marked, walk, k - 1);
        assert(has_edge(m, walk[k - 1], walk[k]));
    }
}

/// A closed marking holds every node that can be reached from its source.
pub proof fn lemma_closed_holds_reachable(
    m: Seq<Seq<int>>,
    source: int,
    marked: Seq<bool>,
    target: int,
)
    requires
        closed_from(m, source, marked),
        reachable(m, source, target),
    ensures
        marked[target],
{
    let walk = choose|walk: Seq<int>|
        #[trigger] is_walk(m, walk) && walk.first() == source && walk.last() == target;
    lemma_walk_stays_marked(m, source, marked, walk, walk.len() - 1);
}

/// Below a bound there are at most that many discoverers, and none below zero.
pub proof fn lemma_discoverers_bounded(m: Seq<Seq<int>>, node: int, bound: int)
    requires
        0 <= bound,
    ensures
        discoverers_below(m, node, bound).finite(),
        discoverers_below(m, node, bound).len() <= bound,
{
    lemma_int_range(0, bound);
    assert(discoverers_below(m, node, bound).subset_of(set_int_range(0, bound)));
    lemma_len_subset(discoverers_below(m, node, bound), set_int_range(0, bound));
}

/// Raising the bound by one adds the node at the old bound to the
/// discoverers exactly if it is another node that reaches `node`.
pub proof fn lemma_discoverers_step(m: Seq<Seq<int>>, node: int, bound: int)
    requires
        0 <= bound,
    ensures
        discoverers_below(m, node, bound + 1).len() == discoverers_below(m, node, bound).len()
            + if bound != node && reachable(m, bound, node) {
            1nat
        } else {
            0nat
        },
{
    let before = discoverers_below(m, node, bound);
    let after = discoverers_below(m, node, bound + 1);
    lemma_discoverers_bounded(m, node, bound);
    if bound != node && reachable(m, bound, node) {
        assert(after =~= before.insert(bound));
    } else {
        assert(after =~= before);
    }
}

/// No node is discovered by itself, so a graph of `n` nodes discovers each
/// node fewer than `n` times.
pub proof fn lemma_discovery_count_bounded(m: Seq<Seq<int>>, node: int)
    requires
        0 <= node < m.len(),
    ensures
        discovery_count(m, node) < m.len(),
{
    let n = m.len() as int;
    let others = set_int_range(0, n).remove(node);
    lemma_int_range(0, n);
    assert(discoverers(m, node).subset_of(others));
    lemma_len_subset(discoverers(m, node), others);
}

/// Nodes without repetition in a graph of `n` nodes are at most `n` nodes.
pub proof fn lemma_distinct_nodes(nodes: Seq<usize>, n: nat)
    requires
        nodes.no_duplicates(),
        forall|k: int| 0 <= k < nodes.len() ==> nodes[k] < n,
    ensures
        nodes.len() <= n,
{
    let ids = nodes.map_values(|node: usize| node as int);
    assert(ids.no_duplicates());
    ids.unique_seq_to_set();
    lemma_int_range(0, n as int);
    assert forall|id: int| ids.to_set().contains(id) implies set_int_range(0, n as int).contains(
        id,
    ) by {
        let k = choose|k: int| 0 <= k < ids.len() && ids[k] == id;
        assert(nodes[k] < n);
    }
    lemma_len_subset(ids.to_set(), set_int_range(0, n as int));
}

} // verus!
