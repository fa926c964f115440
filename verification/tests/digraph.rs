use digraph_centrality::digraph::{EdgeError, EdgeWeightedDigraph};

#[test]
fn new_graph_has_no_edges() {
    let g = EdgeWeightedDigraph::new(3);
    assert_eq!(g.node_count(), 3);
    for i in 0..3 {
        for j in 0..3 {
            assert_eq!(g.get_weight(i, j), 0);
        }
        assert_eq!(g.in_degree(i), 0);
        assert_eq!(g.out_degree(i), 0);
    }
}

#[test]
fn graph_without_nodes_can_be_built() {
    let g = EdgeWeightedDigraph::new(0);
    assert_eq!(g.node_count(), 0);
}

#[test]
fn added_weights_accumulate() {
    let mut g = EdgeWeightedDigraph::new(4);
    g.add_weight(1, 2, 5);
    g.add_weight(1, 2, 7);
    assert_eq!(g.get_weight(1, 2), 12);
    assert_eq!(g.get_weight(2, 1), 0);
}

#[test]
fn adding_weight_changes_one_edge_only() {
    let mut g = EdgeWeightedDigraph::new(3);
    g.add_weight(0, 2, 9);
    for i in 0..3 {
        for j in 0..3 {
            let expected = if i == 0 && j == 2 { 9 } else { 0 };
            assert_eq!(g.get_weight(i, j), expected);
        }
    }
}

#[test]
fn negative_amount_lowers_a_weight() {
    let mut g = EdgeWeightedDigraph::new(2);
    g.add_weight(0, 1, 10);
    g.add_weight(0, 1, -4);
    assert_eq!(g.get_weight(0, 1), 6);
}

#[test]
fn self_loop_is_an_ordinary_edge() {
    let mut g = EdgeWeightedDigraph::new(2);
    g.add_weight(1, 1, 3);
    assert_eq!(g.get_weight(1, 1), 3);
    assert_eq!(g.in_degree(1), 3);
    assert_eq!(g.out_degree(1), 3);
    assert_eq!(g.in_degree(0), 0);
}

#[test]
fn weight_can_reach_the_largest_value() {
    let mut g = EdgeWeightedDigraph::new(2);
    g.add_weight(0, 1, i32::MAX - 1);
    g.add_weight(0, 1, 1);
    assert_eq!(g.get_weight(0, 1), i32::MAX);
    assert_eq!(g.out_degree(0), i32::MAX as u128);
}

#[test]
fn degrees_sum_rows_and_columns() {
    let mut g = EdgeWeightedDigraph::new(3);
    g.add_weight(0, 1, 2);
    g.add_weight(0, 2, 3);
    g.add_weight(1, 2, 4);
    g.add_weight(2, 0, 5);
    assert_eq!(g.out_degree(0), 5);
    assert_eq!(g.out_degree(1), 4);
    assert_eq!(g.out_degree(2), 5);
    assert_eq!(g.in_degree(0), 5);
    assert_eq!(g.in_degree(1), 2);
    assert_eq!(g.in_degree(2), 7);
}

#[test]
fn degrees_wider_than_a_weight_do_not_wrap() {
    let mut g = EdgeWeightedDigraph::new(3);
    g.add_weight(0, 0, i32::MAX);
    g.add_weight(0, 1, i32::MAX);
    g.add_weight(0, 2, i32::MAX);
    assert_eq!(g.out_degree(0), 3 * (i32::MAX as u128));
}

#[test]
fn checked_addition_adds_within_bounds() {
    let mut g = EdgeWeightedDigraph::new(3);
    assert_eq!(g.try_add_weight(2, 0, 5), Ok(()));
    assert_eq!(g.try_add_weight(2, 0, 5), Ok(()));
    assert_eq!(g.get_weight(2, 0), 10);
}

#[test]
fn checked_addition_refuses_what_is_no_node() {
    let mut g = EdgeWeightedDigraph::new(3);
    assert_eq!(g.try_add_weight(3, 0, 5), Err(EdgeError::OutOfBounds));
    assert_eq!(g.try_add_weight(0, 3, 5), Err(EdgeError::OutOfBounds));
    assert_eq!(g.try_add_weight(usize::MAX, 0, -5), Err(EdgeError::OutOfBounds));
    assert_eq!(g.try_add_weight(3, 0, i32::MIN), Err(EdgeError::OutOfBounds));
    for i in 0..3 {
        for j in 0..3 {
            assert_eq!(g.get_weight(i, j), 0);
        }
    }
    let mut empty = EdgeWeightedDigraph::new(0);
    assert_eq!(empty.try_add_weight(0, 0, 1), Err(EdgeError::OutOfBounds));
}

#[test]
fn checked_addition_refuses_a_weight_out_of_range() {
    let mut g = EdgeWeightedDigraph::new(2);
    assert_eq!(g.try_add_weight(0, 1, -1), Err(EdgeError::WeightOutOfRange));
    assert_eq!(g.try_add_weight(0, 1, i32::MIN), Err(EdgeError::WeightOutOfRange));
    assert_eq!(g.try_add_weight(0, 1, i32::MAX), Ok(()));
    assert_eq!(g.try_add_weight(0, 1, 1), Err(EdgeError::WeightOutOfRange));
    assert_eq!(g.try_add_weight(0, 1, i32::MAX), Err(EdgeError::WeightOutOfRange));
    assert_eq!(g.get_weight(0, 1), i32::MAX);
    assert_eq!(g.try_add_weight(0, 1, -i32::MAX), Ok(()));
    assert_eq!(g.get_weight(0, 1), 0);
    assert_eq!(g.try_add_weight(0, 1, i32::MIN), Err(EdgeError::WeightOutOfRange));
}

#[test]
fn checked_read_tells_nodes_from_other_numbers() {
    let mut g = EdgeWeightedDigraph::new(2);
    g.add_weight(1, 0, 8);
    assert_eq!(g.try_get_weight(1, 0), Some(8));
    assert_eq!(g.try_get_weight(0, 1), Some(0));
    assert_eq!(g.try_get_weight(2, 0), None);
    assert_eq!(g.try_get_weight(0, 2), None);
}
