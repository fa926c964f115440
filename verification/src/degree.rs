//! Degree centrality: the incoming, outgoing or combined edge weight of
//! every node.

use vstd::prelude::*;

use crate::digraph::EdgeWeightedDigraph;
use crate::weights::{
    in_degree, in_degrees, is_square, lemma_degree_sums, lemma_degree_within, out_degree,
    out_degrees, sum, total_weight, MAX_WEIGHT,
};

verus! {

/// Which edges of a node count towards its degree.
#[derive(Clone, Copy, Debug, PartialEq, Eq, Structural)]
pub enum DegreeKind {
    /// The edges that end in the node.
    InDegree,
    /// The edges that start in the node.
    OutDegree,
    /// Both: the sum of in-degree and out-degree.
    Combined,
}

/// Why no degree table was produced.
#[derive(Clone, Copy, Debug, PartialEq, Eq, Structural)]
pub enum DegreeError {
    /// The kind is none of `"in-degree"`, `"out-degree"` and `"combined"`.
    InvalidKind,
    /// Some node's degree is larger than `usize::MAX`.
    Overflow,
}

/// The kind that `name` stands for: `"in-degree"`, `"out-degree"` and
/// `"combined"` name a kind, and nothing else does.
pub open spec fn kind_named(name: Seq<char>) -> Option<DegreeKind> {
    if name == "in-degree"@ {
        Some(DegreeKind::InDegree)
    } else if name == "out-degree"@ {
        Some(DegreeKind::OutDegree)
    } else if name == "combined"@ {
        Some(DegreeKind::Combined)
    } else {
        None
    }
}

/// The degree of `node` in the matrix `m`, for the given kind.
pub open spec fn degree(m: Seq<Seq<int>>, kind: DegreeKind, node: int) -> int {
    match kind {
        DegreeKind::InDegree => in_degree(m, node),
        DegreeKind::OutDegree => out_degree(m, node),
        DegreeKind::Combined => in_degree(m, node) + out_degree(m, node),
    }
}

/// Every node's degree of the given kind can be held in a `usize`.
pub open spec fn degrees_fit(m: Seq<Seq<int>>, kind: DegreeKind) -> bool {
    forall|node: int| 0 <= node < m.len() ==> #[trigger] degree(m, kind, node) <= usize::MAX
}

/// `table` lists, for each node of `m` in node order, the node and its
/// degree of the given kind.
pub open spec fn is_degree_table(
    table: Seq<(usize, usize)>,
    m: Seq<Seq<int>>,
    kind: DegreeKind,
) -> bool {
    &&& table.len() == m.len()
    &&& forall|node: int|
        0 <= node < table.len() ==> (#[trigger] table[node]).0 == node && table[node].1 == degree(
            m,
            kind,
            node,
        )
}

/// The degrees listed in `table`, in the order of the table.
pub open spec fn listed_degrees(table: Seq<(usize, usize)>) -> Seq<int> {
    Seq::new(table.len(), |i: int| table[i].1 as int)
}

/// Whether `text` is the sequence of characters of `name`.
fn is_name(text: &String, name: &str) -> (same: bool)
    ensures
        same == (text@ == name@),
{
    let owned = name.to_owned();
    *text == owned
}

impl DegreeKind {
    /// Reads a kind from its name. Exactly the names `"in-degree"`,
    /// `"out-degree"` and `"combined"` are accepted.
    pub fn from_name(name: &str) -> (kind: Option<DegreeKind>)
        ensures
            kind == kind_named(name@),
    {
        let text = name.to_owned();
        if is_name(&text, "in-degree") {
            Some(DegreeKind::InDegree)
        } else if is_name(&text, "out-degree") {
            Some(DegreeKind::OutDegree)
        } else if is_name(&text, "combined") {
            Some(DegreeKind::Combined)
        } else {
            None
        }
    }
}

impl EdgeWeightedDigraph {
    /// The degree of `node` for the given kind, as wide as any degree can get.
    fn degree_of(&self, kind: DegreeKind, node: usize) -> (d: u128)
        requires
            self.wf(),
            node < self@.len(),
        ensures
            d == degree(self@, kind, node as int),
    {
        let n: usize = self.node_count();
        proof {
            lemma_degree_within(self@, node as int);
            assert(n * MAX_WEIGHT <= usize::MAX * MAX_WEIGHT);
        }
        match kind {
            DegreeKind::InDegree => self.in_degree(node),
            DegreeKind::OutDegree => self.out_degree(node),
            DegreeKind::Combined => self.in_degree(node) + self.out_degree(node),
        }
    }

    /// The degree table for a kind, unless some degree does not fit a `usize`.
    fn degree_table(&self, kind: DegreeKind) -> (table: Option<Vec<(usize, usize)>>)
        requires
            self.wf(),
        ensures
            table is Some <==> degrees_fit(self@, kind),
            table matches Some(degrees) ==> is_degree_table(degrees@, self@, kind),
    {
        let n: usize = self.node_count();
        let mut degrees: Vec<(usize, usize)> = Vec::new();
        let mut node: usize = 0;
        while node < n
            invariant
                self.wf(),
                n == self@.len(),
                node <= n,
                degrees@.len() == node,
                forall|i: int|
                    0 <= i < node ==> (#[trigger] degrees@[i]).0 == i && degrees@[i].1 == degree(
                        self@,
                        kind,
                        i,
                    ),
            decreases n - node,
        {
            let d: u128 = self.degree_of(kind, node);
            if d > usize::MAX as u128 {
                return None;
            }
            degrees.push((node, d as usize));
            node += 1;
        }
        proof {
            assert forall|i: int| 0 <= i < self@.len() implies #[trigger] degree(self@, kind, i)
                <= usize::MAX by {
                assert(degrees@[i].1 == degree(self@, kind, i));
            }
        }
        Some(degrees)
    }

    /// The degree of every node: one pair `(node, degree)` per node, in node
    /// order. `type_str` selects the degree: `"in-degree"`, `"out-degree"`
    /// or `"combined"`.
    pub fn degree_centrality(&self, type_str: &str) -> (degrees: Vec<(usize, usize)>)
        requires
            self.wf(),
            kind_named(type_str@) is Some,
            degrees_fit(self@, kind_named(type_str@).unwrap()),
        ensures
            is_degree_table(degrees@, self@, kind_named(type_str@).unwrap()),
    {
        let kind = DegreeKind::from_name(type_str).unwrap();
        self.degree_table(kind).unwrap()
    }

    /// The degree of every node as `degree_centrality` gives it, or the
    /// reason why there is none: a name that is no kind is refused first, a
    /// degree beyond `usize::MAX` second.
    pub fn try_degree_centrality(&self, type_str: &str) -> (outcome: Result<
        Vec<(usize, usize)>,
        DegreeError,
    >)
        requires
            self.wf(),
        ensures
            match outcome {
                Ok(degrees) => {
                    &&& kind_named(type_str@) matches Some(kind)
                    &&& degrees_fit(self@, kind)
                    &&& is_degree_table(degrees@, self@, kind)
                },
                Err(DegreeError::InvalidKind) => kind_named(type_str@) is None,
                Err(DegreeError::Overflow) => {
                    &&& kind_named(type_str@) matches Some(kind)
                    &&& !degrees_fit(self@, kind)
                },
            },
    {
        match DegreeKind::from_name(type_str) {
            None => Err(DegreeError::InvalidKind),
            Some(kind) => match self.degree_table(kind) {
                Some(degrees) => Ok(degrees),
                None => Err(DegreeError::Overflow),
            },
        }
    }
}

/// The combined degree table is the entry-wise sum of the in-degree and the
/// out-degree table: same nodes, degrees added.
pub proof fn lemma_combined_is_sum(
    m: Seq<Seq<int>>,
    ins: Seq<(usize, usize)>,
    outs: Seq<(usize, usize)>,
    both: Seq<(usize, usize)>,
)
    requires
        is_degree_table(ins, m, DegreeKind::InDegree),
        is_degree_table(outs, m, DegreeKind::OutDegree),
        is_degree_table(both, m, DegreeKind::Combined),
    ensures
        both.len() == ins.len() == outs.len(),
        forall|node: int|
            0 <= node < both.len() ==> {
                &&& (#[trigger] both[node]).0 == ins[node].0
                &&& both[node].0 == outs[node].0
                &&& both[node].1 == ins[node].1 + outs[node].1
            },
{
    assert forall|node: int| 0 <= node < both.len() implies {
        &&& (#[trigger] both[node]).0 == ins[node].0
        &&& both[node].0 == outs[node].0
        &&& both[node].1 == ins[node].1 + outs[node].1
    } by {
        assert(ins[node].1 == degree(m, DegreeKind::InDegree, node));
        assert(outs[node].1 == degree(m, DegreeKind::OutDegree, node));
    }
}

/// The degrees of an in-degree table and those of an out-degree table each
/// add up to the total accumulated weight of the graph.
pub proof fn lemma_tables_sum_to_total(
    m: Seq<Seq<int>>,
    ins: Seq<(usize, usize)>,
    outs: Seq<(usize, usize)>,
)
    requires
        is_square(m),
        is_degree_table(ins, m, DegreeKind::InDegree),
        is_degree_table(outs, m, DegreeKind::OutDegree),
    ensures
        sum(listed_degrees(ins)) == total_weight(m),
        sum(listed_degrees(outs)) == total_weight(m),
{
    lemma_degree_sums(m);
    assert forall|i: int| 0 <= i < m.len() implies listed_degrees(ins)[i] == in_degrees(m)[i] by {
        assert(ins[i].1 == degree(m, DegreeKind::InDegree, i));
    }
    assert forall|i: int| 0 <= i < m.len() implies listed_degrees(outs)[i] == out_degrees(m)[i] by {
        assert(outs[i].1 == degree(m, DegreeKind::OutDegree, i));
    }
    assert(listed_degrees(ins) =~= in_degrees(m));
    assert(listed_degrees(outs) =~= out_degrees(m));
}

} // verus!
