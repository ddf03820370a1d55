use egostats::degree::calculate_degree_distribution;
use egostats::graph::build_graph;
use egostats::separation::{bfs_distances, collect_separations};
use egostats::stats::{median_elements, separation_sum, separation_sum_squares, sort_ascending};

fn lines_of(specs: &[&str]) -> Vec<Vec<u8>> {
    let mut v: Vec<Vec<u8>> = Vec::new();
    for s in specs {
        v.push(s.as_bytes().to_vec());
    }
    v
}

fn mean_of(sample: &Vec<usize>) -> f64 {
    if sample.is_empty() {
        return 0.0;
    }
    separation_sum(sample) as f64 / sample.len() as f64
}

fn std_dev_of(sample: &Vec<usize>) -> f64 {
    if sample.is_empty() {
        return 0.0;
    }
    let n = sample.len() as f64;
    let sum = separation_sum(sample) as f64;
    let sum_sq = separation_sum_squares(sample).unwrap() as f64;
    let mean = sum / n;
    (sum_sq / n - mean * mean).sqrt()
}

fn median_of(sample: &Vec<usize>) -> f64 {
    match median_elements(sample) {
        None => 0.0,
        Some((a, b)) => (a as f64 + b as f64) / 2.0,
    }
}

#[test]
fn test_load_edges() {
    let graph = build_graph(&lines_of(&["1 2", "2 3", "3 4"]));
    assert_eq!(graph.node_count(), 4); // 4 unique nodes
    assert_eq!(graph.edge_count(), 3); // 3 edges
}

#[test]
fn test_calculate_degree_distribution() {
    // A triangle: each node has degree 2
    let graph = build_graph(&lines_of(&["0 1", "1 2", "2 0"]));
    let degree_distribution = calculate_degree_distribution(&graph);
    assert_eq!(degree_distribution, vec![(2, 3)]);
}

#[test]
fn test_calculate_mean_separation() {
    // A triangle: every reachable pair is at distance 1
    let graph = build_graph(&lines_of(&["0 1", "1 2", "2 0"]));
    let sample = collect_separations(&graph);
    assert_eq!(mean_of(&sample), 1.0);
}

#[test]
fn test_calculate_standard_deviation_separation() {
    // A path of four nodes
    let graph = build_graph(&lines_of(&["0 1", "1 2", "2 3"]));
    let sample = collect_separations(&graph);
    assert!(std_dev_of(&sample) > 0.0);
}

#[test]
fn test_calculate_median_separation() {
    // A path of four nodes
    let graph = build_graph(&lines_of(&["0 1", "1 2", "2 3"]));
    let sample = collect_separations(&graph);
    assert_eq!(median_of(&sample), 1.5);
}

#[test]
fn test_print_sorted_degrees() {
    // A path of three nodes: the table is sorted ascending by degree
    let graph = build_graph(&lines_of(&["0 1", "1 2"]));
    let degree_distribution = calculate_degree_distribution(&graph);
    assert_eq!(degree_distribution, vec![(1, 2), (2, 1)]);
    for w in degree_distribution.windows(2) {
        assert!(w[0].0 < w[1].0);
    }
}

#[test]
fn test_counts_order_independent() {
    let g1 = build_graph(&lines_of(&["1 2", "2 3", "3 4"]));
    let g2 = build_graph(&lines_of(&["3 4", "1 2", "2 3"]));
    assert_eq!(g1.node_count(), g2.node_count());
    assert_eq!(g1.edge_count(), g2.edge_count());
}

#[test]
fn test_path_distance_multiset() {
    // Path 0-1-2-3: each unordered pair is counted twice, once per direction
    let graph = build_graph(&lines_of(&["0 1", "1 2", "2 3"]));
    let sample = collect_separations(&graph);
    let sorted = sort_ascending(&sample);
    assert_eq!(sorted, vec![1, 1, 1, 1, 1, 1, 2, 2, 2, 2, 3, 3]);
}

#[test]
fn test_empty_graph() {
    let graph = build_graph(&lines_of(&[]));
    assert_eq!(graph.node_count(), 0);
    assert_eq!(graph.edge_count(), 0);
    assert_eq!(calculate_degree_distribution(&graph), vec![]);
    let sample = collect_separations(&graph);
    assert!(sample.is_empty());
    assert_eq!(mean_of(&sample), 0.0);
    assert_eq!(std_dev_of(&sample), 0.0);
    assert_eq!(median_of(&sample), 0.0);
}

#[test]
fn test_malformed_lines_skipped() {
    // A single token and three tokens create no node and no edge
    let graph = build_graph(&lines_of(&["5", "6 7 8"]));
    assert_eq!(graph.node_count(), 0);
    assert_eq!(graph.edge_count(), 0);
    let graph = build_graph(&lines_of(&["5", "1 2", "6 7 8"]));
    assert_eq!(graph.node_count(), 2);
    assert_eq!(graph.edge_count(), 1);
}

#[test]
fn test_repeated_computation_identical() {
    let graph = build_graph(&lines_of(&["0 1", "1 2", "2 3", "0 3"]));
    let d1 = calculate_degree_distribution(&graph);
    let d2 = calculate_degree_distribution(&graph);
    assert_eq!(d1, d2);
    let s1 = collect_separations(&graph);
    let s2 = collect_separations(&graph);
    assert_eq!(s1, s2);
    assert_eq!(mean_of(&s1).to_bits(), mean_of(&s2).to_bits());
    assert_eq!(std_dev_of(&s1).to_bits(), std_dev_of(&s2).to_bits());
    assert_eq!(median_of(&s1).to_bits(), median_of(&s2).to_bits());
}

#[test]
fn test_duplicate_edges_counted() {
    // The same edge twice: both copies count toward the degree
    let graph = build_graph(&lines_of(&["1 2", "1 2"]));
    assert_eq!(graph.node_count(), 2);
    assert_eq!(graph.edge_count(), 2);
    assert_eq!(calculate_degree_distribution(&graph), vec![(2, 2)]);
    let sample = collect_separations(&graph);
    assert_eq!(sort_ascending(&sample), vec![1, 1]);
}

#[test]
fn test_bfs_exact_distances() {
    let graph = build_graph(&lines_of(&["0 1", "1 2", "2 3"]));
    let dst = bfs_distances(&graph, 0);
    assert_eq!(dst, vec![Some(0), Some(1), Some(2), Some(3)]);
}

#[test]
fn test_unreachable_pairs_excluded() {
    // Two separate components: cross pairs contribute nothing
    let graph = build_graph(&lines_of(&["1 2", "3 4"]));
    let dst = bfs_distances(&graph, 0);
    assert_eq!(dst, vec![Some(0), Some(1), None, None]);
    let sample = collect_separations(&graph);
    assert_eq!(sort_ascending(&sample), vec![1, 1, 1, 1]);
}

#[test]
fn test_sums_exact() {
    let sample: Vec<usize> = vec![1, 2, 3];
    assert_eq!(separation_sum(&sample), 6);
    assert_eq!(separation_sum_squares(&sample), Some(14));
    assert_eq!(separation_sum(&vec![]), 0);
    assert_eq!(separation_sum_squares(&vec![]), Some(0));
}

#[test]
fn test_sort_ascending() {
    let sorted = sort_ascending(&vec![3, 1, 2, 1]);
    assert_eq!(sorted, vec![1, 1, 2, 3]);
}

#[test]
fn test_median_elements_odd_and_even() {
    assert_eq!(median_elements(&vec![5, 1, 3]), Some((3, 3)));
    assert_eq!(median_elements(&vec![4, 1, 3, 2]), Some((2, 3)));
    assert_eq!(median_elements(&vec![]), None);
}

#[test]
fn test_self_loop_line() {
    // Two equal tokens name one node but form no edge: an edge needs two
    // distinct endpoints
    let graph = build_graph(&lines_of(&["5 5"]));
    assert_eq!(graph.node_count(), 1);
    assert_eq!(graph.edge_count(), 0);
    assert_eq!(calculate_degree_distribution(&graph), vec![(0, 1)]);
    assert!(collect_separations(&graph).is_empty());
}

#[test]
fn test_handshake_identity() {
    // Degrees weighted by their counts add up to twice the edge count
    let graph = build_graph(&lines_of(&["0 1", "1 2", "2 3", "0 3", "1 2"]));
    let degree_distribution = calculate_degree_distribution(&graph);
    let weighted: usize = degree_distribution.iter().map(|&(d, c)| d * c).sum();
    assert_eq!(weighted, 2 * graph.edge_count());
}
