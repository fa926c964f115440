use digraph_centrality::digraph::EdgeWeightedDigraph;
use digraph_centrality::ranking::rank_by_score;

/// A small deterministic generator of pseudo-random numbers.
struct Numbers(u64);

impl Numbers {
    fn next(&mut self) -> u64 {
        self.0 = self.0.wrapping_mul(6364136223846793005).wrapping_add(1442695040888963407);
        self.0 >> 33
    }

    fn below(&mut self, bound: u64) -> u64 {
        self.next() % bound
    }
}

/// A graph of up to `max_nodes` nodes with a random choice of weighted
/// edges, and its weights as a plain table.
fn random_graph(numbers: &mut Numbers, max_nodes: u64) -> (EdgeWeightedDigraph, Vec<Vec<i32>>) {
    let n = numbers.below(max_nodes + 1) as usize;
    let mut graph = EdgeWeightedDigraph::new(n);
    let mut table = vec![vec![0i32; n]; n];
    if n > 0 {
        let edges = numbers.below(2 * n as u64 + 1);
        for _ in 0..edges {
            let start = numbers.below(n as u64) as usize;
            let end = numbers.below(n as u64) as usize;
            let weight = numbers.below(9) as i32 + 1;
            graph.add_weight(start, end, weight);
            table[start][end] += weight;
        }
    }
    (graph, table)
}

/// Which node reaches which, by repeated closure over the edges.
fn reaches(table: &[Vec<i32>]) -> Vec<Vec<bool>> {
    let n = table.len();
    let mut reach = vec![vec![false; n]; n];
    for i in 0..n {
        reach[i][i] = true;
        for j in 0..n {
            if table[i][j] > 0 {
                reach[i][j] = true;
            }
        }
    }
    for k in 0..n {
        for i in 0..n {
            for j in 0..n {
                if reach[i][k] && reach[k][j] {
                    reach[i][j] = true;
                }
            }
        }
    }
    reach
}

#[test]
fn weights_read_back_as_added() {
    let mut numbers = Numbers(1);
    for _ in 0..200 {
        let (graph, table) = random_graph(&mut numbers, 7);
        assert_eq!(graph.node_count(), table.len());
        for i in 0..table.len() {
            for j in 0..table.len() {
                assert_eq!(graph.get_weight(i, j), table[i][j]);
            }
        }
    }
}

#[test]
fn degrees_are_row_and_column_sums() {
    let mut numbers = Numbers(2);
    for _ in 0..200 {
        let (graph, table) = random_graph(&mut numbers, 7);
        let n = table.len();
        let ins = graph.degree_centrality("in-degree");
        let outs = graph.degree_centrality("out-degree");
        let both = graph.degree_centrality("combined");
        assert_eq!((ins.len(), outs.len(), both.len()), (n, n, n));
        for i in 0..n {
            let row: usize = table[i].iter().map(|&w| w as usize).sum();
            let column: usize = table.iter().map(|r| r[i] as usize).sum();
            assert_eq!(ins[i], (i, column));
            assert_eq!(outs[i], (i, row));
            assert_eq!(both[i], (i, row + column));
            assert_eq!(graph.in_degree(i), column as u128);
            assert_eq!(graph.out_degree(i), row as u128);
        }
    }
}

#[test]
fn in_degrees_and_out_degrees_add_up_to_the_total_weight() {
    let mut numbers = Numbers(3);
    for _ in 0..200 {
        let (graph, table) = random_graph(&mut numbers, 7);
        let total: usize = table.iter().flatten().map(|&w| w as usize).sum();
        let total_in: usize = graph.degree_centrality("in-degree").iter().map(|e| e.1).sum();
        let total_out: usize = graph.degree_centrality("out-degree").iter().map(|e| e.1).sum();
        assert_eq!(total_in, total);
        assert_eq!(total_out, total);
    }
}

#[test]
fn betweenness_counts_the_other_nodes_that_reach_a_node() {
    let mut numbers = Numbers(4);
    for _ in 0..300 {
        let (graph, table) = random_graph(&mut numbers, 8);
        let n = table.len();
        let reach = reaches(&table);
        let mut expected: Vec<(usize, usize)> = Vec::new();
        for node in 0..n {
            let count = (0..n).filter(|&source| source != node && reach[source][node]).count();
            if count > 0 {
                expected.push((node, count));
            }
        }
        expected.sort_by(|a, b| b.1.cmp(&a.1).then(a.0.cmp(&b.0)));
        assert_eq!(graph.simple_betweenness_centrality(), expected);
    }
}

#[test]
fn sources_are_the_nodes_with_an_edge_to_the_target() {
    let mut numbers = Numbers(5);
    for _ in 0..200 {
        let (graph, table) = random_graph(&mut numbers, 7);
        let n = table.len();
        for target in 0..n {
            let mut expected: Vec<(usize, u128)> = Vec::new();
            for source in 0..n {
                if table[source][target] > 0 {
                    let shared: i32 = table[source].iter().sum();
                    expected.push((source, shared as u128));
                }
            }
            assert_eq!(graph.sources_of(target), expected);
        }
    }
}

#[test]
fn ranking_agrees_with_a_stable_sort_by_falling_score() {
    let mut numbers = Numbers(6);
    for _ in 0..300 {
        let len = numbers.below(12) as usize;
        let entries: Vec<(usize, usize)> =
            (0..len).map(|node| (node, numbers.below(4) as usize)).collect();
        let mut expected = entries.clone();
        expected.sort_by_key(|&(_, score)| std::cmp::Reverse(score));
        assert_eq!(rank_by_score(entries), expected);
    }
}

#[test]
fn ranking_orders_entries_that_come_in_any_order() {
    let mut numbers = Numbers(7);
    for _ in 0..300 {
        let len = numbers.below(12) as usize;
        let entries: Vec<(usize, usize)> = (0..len)
            .map(|_| (numbers.below(5) as usize, numbers.below(4) as usize))
            .collect();
        let mut expected = entries.clone();
        expected.sort_by(|a, b| b.1.cmp(&a.1).then(a.0.cmp(&b.0)));
        assert_eq!(rank_by_score(entries), expected);
    }
}

#[test]
fn graph_of_many_nodes_is_handled() {
    let mut numbers = Numbers(8);
    let n = 168;
    let mut graph = EdgeWeightedDigraph::new(n);
    let mut table = vec![vec![0i32; n]; n];
    for _ in 0..400 {
        let start = numbers.below(n as u64) as usize;
        let end = numbers.below(n as u64) as usize;
        graph.add_weight(start, end, 5);
        table[start][end] += 5;
    }
    let reach = reaches(&table);
    let mut expected: Vec<(usize, usize)> = Vec::new();
    for node in 0..n {
        let count = (0..n).filter(|&source| source != node && reach[source][node]).count();
        if count > 0 {
            expected.push((node, count));
        }
    }
    expected.sort_by(|a, b| b.1.cmp(&a.1).then(a.0.cmp(&b.0)));
    assert_eq!(graph.simple_betweenness_centrality(), expected);

    let both = graph.degree_centrality("combined");
    for node in 0..n {
        let row: usize = table[node].iter().map(|&w| w as usize).sum();
        let column: usize = table.iter().map(|r| r[node] as usize).sum();
        assert_eq!(both[node], (node, row + column));
    }
    let mut by_degree = both.clone();
    by_degree.sort_by_key(|&(_, degree)| std::cmp::Reverse(degree));
    assert_eq!(rank_by_score(both), by_degree);
}
