use digraph_centrality::degree::{DegreeError, DegreeKind};
use digraph_centrality::digraph::EdgeWeightedDigraph;

fn sample() -> EdgeWeightedDigraph {
    let mut g = EdgeWeightedDigraph::new(4);
    g.add_weight(0, 1, 5);
    g.add_weight(0, 2, 5);
    g.add_weight(1, 2, 5);
    g.add_weight(1, 2, 5);
    g.add_weight(3, 0, 5);
    g.add_weight(2, 2, 1);
    g
}

#[test]
fn in_degree_table() {
    let g = sample();
    assert_eq!(g.degree_centrality("in-degree"), vec![(0, 5), (1, 5), (2, 16), (3, 0)]);
}

#[test]
fn out_degree_table() {
    let g = sample();
    assert_eq!(g.degree_centrality("out-degree"), vec![(0, 10), (1, 10), (2, 1), (3, 5)]);
}

#[test]
fn combined_degree_table() {
    let g = sample();
    assert_eq!(g.degree_centrality("combined"), vec![(0, 15), (1, 15), (2, 17), (3, 5)]);
}

#[test]
fn combined_is_sum_of_in_and_out() {
    let g = sample();
    let ins = g.degree_centrality("in-degree");
    let outs = g.degree_centrality("out-degree");
    let both = g.degree_centrality("combined");
    assert_eq!(both.len(), 4);
    for i in 0..4 {
        assert_eq!(both[i].0, i);
        assert_eq!(ins[i].0, i);
        assert_eq!(outs[i].0, i);
        assert_eq!(both[i].1, ins[i].1 + outs[i].1);
    }
}

#[test]
fn degrees_add_up_to_total_weight() {
    let g = sample();
    let total_in: usize = g.degree_centrality("in-degree").iter().map(|e| e.1).sum();
    let total_out: usize = g.degree_centrality("out-degree").iter().map(|e| e.1).sum();
    assert_eq!(total_in, 26);
    assert_eq!(total_out, 26);
}

#[test]
fn degree_table_of_empty_graph_is_empty() {
    let g = EdgeWeightedDigraph::new(0);
    assert_eq!(g.degree_centrality("combined"), vec![]);
}

#[test]
fn checked_table_agrees_with_plain_table() {
    let g = sample();
    for name in ["in-degree", "out-degree", "combined"] {
        assert_eq!(g.try_degree_centrality(name), Ok(g.degree_centrality(name)));
    }
}

#[test]
fn unknown_kind_is_refused() {
    let g = sample();
    let names = [
        "", "in", "indegree", "In-Degree", "in-degree ", " combined", "out_degree", "both",
        "combined\n", "in-degree\0", "in\u{2010}degree",
    ];
    for name in names {
        assert_eq!(g.try_degree_centrality(name), Err(DegreeError::InvalidKind));
    }
}

#[test]
fn unknown_kind_is_refused_on_empty_graph() {
    let g = EdgeWeightedDigraph::new(0);
    assert_eq!(g.try_degree_centrality("degree"), Err(DegreeError::InvalidKind));
    assert_eq!(g.try_degree_centrality("in-degree"), Ok(vec![]));
}

#[test]
fn kind_names() {
    assert_eq!(DegreeKind::from_name("in-degree"), Some(DegreeKind::InDegree));
    assert_eq!(DegreeKind::from_name("out-degree"), Some(DegreeKind::OutDegree));
    assert_eq!(DegreeKind::from_name("combined"), Some(DegreeKind::Combined));
    assert_eq!(DegreeKind::from_name("Combined"), None);
    assert_eq!(DegreeKind::from_name("in-degre"), None);
    assert_eq!(DegreeKind::from_name("in-degreee"), None);
}

#[test]
fn degree_beyond_usize_is_reported() {
    if usize::BITS > 32 {
        return;
    }
    let mut g = EdgeWeightedDigraph::new(3);
    g.add_weight(0, 0, i32::MAX);
    g.add_weight(0, 1, i32::MAX);
    g.add_weight(0, 2, i32::MAX);
    assert_eq!(g.try_degree_centrality("out-degree"), Err(DegreeError::Overflow));
    assert!(g.try_degree_centrality("in-degree").is_ok());
}
