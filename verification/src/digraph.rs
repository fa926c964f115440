//! The graph: a fixed set of nodes `0..n` and the accumulated weight of
//! every edge between them.

use vstd::prelude::*;

use crate::weights;
use crate::weights::{
    empty_weights, incoming, sum, total_weight, valid_weights, with_added_weight, MAX_WEIGHT,
};

verus! {

/// Why an edge could not be read or changed.
#[derive(Clone, Copy, Debug, PartialEq, Eq, Structural)]
pub enum EdgeError {
    /// An end of the edge is not a node of the graph.
    OutOfBounds,
    /// The edge's weight would fall below zero or rise above `MAX_WEIGHT`.
    WeightOutOfRange,
}

/// A directed graph over the nodes `0..n` whose edges carry accumulated
/// non-negative weights. A weight of zero means that there is no edge. Its
/// view is the matrix of the weights: `g@[i][j]` is the weight of `i -> j`.
pub struct EdgeWeightedDigraph {
    graph: Vec<Vec<i32>>,
}

impl View for EdgeWeightedDigraph {
    type V = Seq<Seq<int>>;

    closed spec fn view(&self) -> Seq<Seq<int>> {
        Seq::new(
            self.graph@.len(),
            |i: int| Seq::new(self.graph@[i]@.len(), |j: int| self.graph@[i]@[j] as int),
        )
    }
}

impl EdgeWeightedDigraph {
    /// The representation invariant: the weights form a valid matrix.
    pub open spec fn wf(&self) -> bool {
        valid_weights(self@)
    }

    /// Creates the graph of `n` nodes without any edge.
    pub fn new(n: usize) -> (g: Self)
        ensures
            g.wf(),
            g@ == empty_weights(n as nat),
            total_weight(g@) == 0,
    {
        let mut graph: Vec<Vec<i32>> = Vec::new();
        let mut i: usize = 0;
        while i < n
            invariant
                i <= n,
                graph@.len() == i,
                forall|a: int| 0 <= a < i ==> (#[trigger] graph@[a])@.len() == n,
                forall|a: int, b: int| 0 <= a < i && 0 <= b < n ==> (#[trigger] graph@[a]@[b]) == 0,
            decreases n - i,
        {
            let mut row: Vec<i32> = Vec::new();
            let mut j: usize = 0;
            while j < n
                invariant
                    j <= n,
                    row@.len() == j,
                    forall|b: int| 0 <= b < j ==> #[trigger] row@[b] == 0,
                decreases n - j,
            {
                row.push(0);
                j += 1;
            }
            graph.push(row);
            i += 1;
        }
        let g = EdgeWeightedDigraph { graph };
        proof {
            assert(g@ =~~= empty_weights(n as nat));
            weights::lemma_total_weight_empty(n as nat);
        }
        g
    }

    /// The number of nodes.
    pub fn node_count(&self) -> (n: usize)
        ensures
            n == self@.len(),
    {
        self.graph.len()
    }

    /// Adds `weight` to the accumulated weight of the edge `start -> end`.
    pub fn add_weight(&mut self, start: usize, end: usize, weight: i32)
        requires
            old(self).wf(),
            start < old(self)@.len(),
            end < old(self)@.len(),
            0 <= old(self)@[start as int][end as int] + weight <= MAX_WEIGHT,
        ensures
            final(self).wf(),
            final(self)@ == with_added_weight(old(self)@, start as int, end as int, weight as int),
            total_weight(final(self)@) == total_weight(old(self)@) + weight,
    {
        self.graph[start][end] += weight;
        proof {
            assert(self@ =~~= with_added_weight(
                old(self)@,
                start as int,
                end as int,
                weight as int,
            ));
            weights::lemma_added_weight(old(self)@, start as int, end as int, weight as int);
        }
    }

    /// Adds `weight` to the accumulated weight of the edge `start -> end`
    /// where that can be done, and leaves the graph as it is where not: an
    /// end that is no node is refused first, a weight out of range second.
    pub fn try_add_weight(&mut self, start: usize, end: usize, weight: i32) -> (outcome: Result<
        (),
        EdgeError,
    >)
        requires
            old(self).wf(),
        ensures
            final(self).wf(),
            match outcome {
                Ok(_) => {
                    &&& start < old(self)@.len()
                    &&& end < old(self)@.len()
                    &&& 0 <= old(self)@[start as int][end as int] + weight <= MAX_WEIGHT
                    &&& final(self)@ == with_added_weight(
                        old(self)@,
                        start as int,
                        end as int,
                        weight as int,
                    )
                    &&& total_weight(final(self)@) == total_weight(old(self)@) + weight
                },
                Err(EdgeError::OutOfBounds) => {
                    &&& start >= old(self)@.len() || end >= old(self)@.len()
                    &&& final(self)@ == old(self)@
                },
                Err(EdgeError::WeightOutOfRange) => {
                    &&& start < old(self)@.len()
                    &&& end < old(self)@.len()
                    &&& !(0 <= old(self)@[start as int][end as int] + weight <= MAX_WEIGHT)
                    &&& final(self)@ == old(self)@
                },
            },
    {
        let n: usize = self.node_count();
        if start >= n || end >= n {
            return Err(EdgeError::OutOfBounds);
        }
        let current: i32 = self.get_weight(start, end);
        if weight < 0 - current || weight > MAX_WEIGHT - current {
            return Err(EdgeError::WeightOutOfRange);
        }
        self.add_weight(start, end, weight);
        Ok(())
    }

    /// The accumulated weight of the edge `start -> end`.
    pub fn get_weight(&self, start: usize, end: usize) -> (w: i32)
        requires
            self.wf(),
            start < self@.len(),
            end < self@.len(),
        ensures
            w == self@[start as int][end as int],
    {
        assert(self@[start as int].len() == self@.len());
        self.graph[start][end]
    }

    /// The accumulated weight of the edge `start -> end`, if both are nodes
    /// of the graph.
    pub fn try_get_weight(&self, start: usize, end: usize) -> (w: Option<i32>)
        requires
            self.wf(),
        ensures
            w is Some <==> start < self@.len() && end < self@.len(),
            w matches Some(weight) ==> weight == self@[start as int][end as int],
    {
        let n: usize = self.node_count();
        if start < n && end < n {
            Some(self.get_weight(start, end))
        } else {
            None
        }
    }

    /// The total weight of the edges that start in `node`.
    pub fn out_degree(&self, node: usize) -> (d: u128)
        requires
            self.wf(),
            node < self@.len(),
        ensures
            d == weights::out_degree(self@, node as int),
    {
        let n: usize = self.graph.len();
        let ghost row = self@[node as int];
        assert(row.len() == n);
        let mut d: u128 = 0;
        let mut j: usize = 0;
        while j < n
            invariant
                self.wf(),
                n == self@.len(),
                node < n,
                row == self@[node as int],
                j <= n,
                d == sum(row.take(j as int)),
                d <= j * MAX_WEIGHT,
            decreases n - j,
        {
            assert(row.take(j + 1).drop_last() =~= row.take(j as int));
            assert(0 <= row[j as int] <= MAX_WEIGHT);
            let w: i32 = self.graph[node][j];
            d = d + (w as u128);
            j += 1;
        }
        assert(row.take(n as int) =~= row);
        d
    }

    /// The total weight of the edges that end in `node`.
    pub fn in_degree(&self, node: usize) -> (d: u128)
        requires
            self.wf(),
            node < self@.len(),
        ensures
            d == weights::in_degree(self@, node as int),
    {
        let n: usize = self.graph.len();
        let ghost column = incoming(self@, node as int);
        let mut d: u128 = 0;
        let mut i: usize = 0;
        while i < n
            invariant
                self.wf(),
                n == self@.len(),
                node < n,
                column == incoming(self@, node as int),
                i <= n,
                d == sum(column.take(i as int)),
                d <= i * MAX_WEIGHT,
            decreases n - i,
        {
            assert(column.take(i + 1).drop_last() =~= column.take(i as int));
            assert(self@[i as int].len() == n);
            assert(0 <= self@[i as int][node as int] <= MAX_WEIGHT);
            let w: i32 = self.graph[i][node];
            d = d + (w as u128);
            i += 1;
        }
        assert(column.take(n as int) =~= column);
        d
    }
}

} // verus!
