use graph_sampling::graph::{BFSError, Graph};
use graph_sampling::sampling::{run_pairs, run_samples, sample_pair, Sample, Totals};
use graph_sampling::stats::{summarize, Ratio, StatsError, Summary};

fn nine_node_graph() -> Graph {
    let mut graph = Graph::new();
    let edges = [
        ("0", "4"), ("1", "2"), ("1", "8"), ("2", "3"), ("3", "1"), ("3", "8"),
        ("4", "2"), ("5", "4"), ("6", "5"), ("7", "5"), ("7", "6"), ("8", "7"),
    ];
    for (from, to) in edges {
        graph.add_edge(from.to_string(), to.to_string());
    }
    graph
}

#[test]
fn fresh_totals_are_zero() {
    let totals = Totals::new();
    assert_eq!(totals, Totals { attempted: 0, pairs_found: 0, distance_sum: 0, longest: 0 });
}

#[test]
fn record_counts_a_distance_found() {
    let mut totals = Totals::new();
    totals.record(Ok(3));
    assert_eq!(totals, Totals { attempted: 1, pairs_found: 1, distance_sum: 3, longest: 3 });
    totals.record(Ok(5));
    assert_eq!(totals, Totals { attempted: 2, pairs_found: 2, distance_sum: 8, longest: 5 });
    totals.record(Ok(2));
    assert_eq!(totals, Totals { attempted: 3, pairs_found: 3, distance_sum: 10, longest: 5 });
    totals.record(Ok(0));
    assert_eq!(totals, Totals { attempted: 4, pairs_found: 4, distance_sum: 10, longest: 5 });
}

#[test]
fn record_of_a_failure_only_counts_the_attempt() {
    let mut totals = Totals::new();
    totals.record(Ok(4));
    totals.record(Err(BFSError::NodeNotFound));
    assert_eq!(totals, Totals { attempted: 2, pairs_found: 1, distance_sum: 4, longest: 4 });
    totals.record(Err(BFSError::NodeNotFound));
    assert_eq!(totals, Totals { attempted: 3, pairs_found: 1, distance_sum: 4, longest: 4 });
}

#[test]
fn record_holds_the_greatest_distances_a_machine_can_hold() {
    let mut totals = Totals::new();
    totals.record(Ok(usize::MAX));
    totals.record(Ok(usize::MAX));
    assert_eq!(totals.distance_sum, 2 * (usize::MAX as u128));
    assert_eq!(totals.longest, usize::MAX);
}

#[test]
fn sample_pair_queries_the_nodes_by_number() {
    let graph = nine_node_graph();
    assert_eq!(sample_pair(&graph, 2, 6), Ok(4));
    assert_eq!(sample_pair(&graph, 2, 2), Ok(0));
    assert_eq!(sample_pair(&graph, 0, 2), Ok(2));
    assert_eq!(sample_pair(&graph, 1, 4), Ok(4));
    assert_eq!(sample_pair(&graph, 4, 0), Err(BFSError::NodeNotFound));
    assert_eq!(sample_pair(&graph, 1, 10), Err(BFSError::NodeNotFound));
}

#[test]
fn sample_pair_uses_whole_numerals_as_labels() {
    let mut graph = Graph::new();
    graph.add_edge("10".to_string(), "123".to_string());
    graph.add_edge("1".to_string(), "0".to_string());
    assert_eq!(sample_pair(&graph, 10, 123), Ok(1));
    assert_eq!(sample_pair(&graph, 1, 0), Ok(1));
    assert_eq!(sample_pair(&graph, 1, 123), Err(BFSError::NodeNotFound));
    assert_eq!(sample_pair(&graph, 10, 0), Err(BFSError::NodeNotFound));
}

#[test]
fn run_pairs_folds_the_queries_in_order() {
    let graph = nine_node_graph();
    let pairs = vec![(2, 6), (2, 2), (4, 0), (0, 2), (1, 4), (2, 6), (8, 1)];
    let totals = run_pairs(&graph, &pairs);
    assert_eq!(
        totals,
        Totals { attempted: 7, pairs_found: 6, distance_sum: 4 + 0 + 2 + 4 + 4 + 6, longest: 6 }
    );
}

#[test]
fn run_pairs_of_nothing_is_empty() {
    let graph = nine_node_graph();
    assert_eq!(run_pairs(&graph, &Vec::new()), Totals::new());
}

#[test]
fn run_pairs_counts_a_repeated_pair_each_time() {
    let graph = nine_node_graph();
    let totals = run_pairs(&graph, &vec![(0, 5), (0, 5), (0, 5)]);
    assert_eq!(totals, Totals { attempted: 3, pairs_found: 3, distance_sum: 18, longest: 6 });
}

#[test]
fn run_samples_tries_every_iteration() {
    let graph = nine_node_graph();
    let mut rng = rand::thread_rng();
    let run = run_samples(&graph, 8, 500, false, &mut rng);
    assert_eq!(run.totals.attempted, 500);
    assert!(run.totals.pairs_found <= 500);
    assert!(run.totals.longest <= 6);
    assert!(run.totals.distance_sum <= 6 * run.totals.pairs_found as u128);
    assert!(run.trace.is_empty());
}

#[test]
fn run_samples_may_find_fewer_pairs_than_iterations() {
    let graph = nine_node_graph();
    let mut rng = rand::thread_rng();
    let run = run_samples(&graph, 8, 500, true, &mut rng);
    let unreachable = run.trace.iter().filter(|s| s.start != 0 && s.target == 0).count();
    assert_eq!(run.totals.pairs_found as usize, 500 - unreachable);
    assert!(run.totals.longest <= 6);
}

#[test]
fn run_samples_trace_accounts_for_the_totals() {
    let graph = nine_node_graph();
    let mut rng = rand::thread_rng();
    let run = run_samples(&graph, 8, 300, true, &mut rng);
    assert_eq!(run.trace.len(), 300);
    let mut replay = Totals::new();
    let mut pairs = Vec::new();
    for sample in &run.trace {
        assert!(sample.start <= 8 && sample.target <= 8);
        assert_eq!(sample.result, sample_pair(&graph, sample.start, sample.target));
        replay.record(sample.result);
        pairs.push((sample.start, sample.target));
    }
    assert_eq!(run.totals, replay);
    assert_eq!(run.totals, run_pairs(&graph, &pairs));
}

#[test]
fn run_samples_draws_within_the_bound_and_varies() {
    let graph = Graph::new();
    let mut rng = rand::thread_rng();
    let run = run_samples(&graph, 3, 400, true, &mut rng);
    let mut seen = [false; 4];
    for Sample { start, target, result } in run.trace.iter().copied() {
        assert!(start <= 3 && target <= 3);
        seen[start as usize] = true;
        seen[target as usize] = true;
        let expected = if start == target { Ok(0) } else { Err(BFSError::NodeNotFound) };
        assert_eq!(result, expected);
    }
    assert_eq!(seen, [true; 4]);
    assert_eq!(run.totals.longest, 0);
    assert_eq!(run.totals.distance_sum, 0);
}

#[test]
fn run_samples_with_bound_zero_always_draws_node_zero() {
    let graph = nine_node_graph();
    let mut rng = rand::thread_rng();
    let run = run_samples(&graph, 0, 25, true, &mut rng);
    assert_eq!(run.totals, Totals { attempted: 25, pairs_found: 25, distance_sum: 0, longest: 0 });
    assert!(run.trace.iter().all(|s| s.start == 0 && s.target == 0 && s.result == Ok(0)));
}

#[test]
fn run_samples_of_no_iterations_is_empty() {
    let graph = nine_node_graph();
    let mut rng = rand::thread_rng();
    let run = run_samples(&graph, 8, 0, true, &mut rng);
    assert_eq!(run.totals, Totals::new());
    assert!(run.trace.is_empty());
    assert_eq!(summarize(&run.totals), Err(StatsError::NoIterations));
}

#[test]
fn summary_gives_exact_fractions() {
    let totals = Totals { attempted: 8, pairs_found: 6, distance_sum: 20, longest: 6 };
    assert_eq!(
        summarize(&totals),
        Ok(Summary {
            pairs_found: 6,
            percent_connected: Ratio { numerator: 600, denominator: 8 },
            average_distance: Some(Ratio { numerator: 20, denominator: 6 }),
            longest_distance: 6,
        })
    );
}

#[test]
fn summary_without_iterations_is_rejected() {
    assert_eq!(summarize(&Totals::new()), Err(StatsError::NoIterations));
}

#[test]
fn summary_without_pairs_found_has_no_average() {
    let totals = Totals { attempted: 4, pairs_found: 0, distance_sum: 0, longest: 0 };
    assert_eq!(
        summarize(&totals),
        Ok(Summary {
            pairs_found: 0,
            percent_connected: Ratio { numerator: 0, denominator: 4 },
            average_distance: None,
            longest_distance: 0,
        })
    );
}

#[test]
fn percent_connected_stays_between_0_and_100() {
    let graph = nine_node_graph();
    let all_found = run_pairs(&graph, &vec![(1, 2), (2, 3), (3, 1)]);
    let summary = summarize(&all_found).unwrap();
    assert_eq!(summary.percent_connected, Ratio { numerator: 300, denominator: 3 });
    let none_found = run_pairs(&graph, &vec![(1, 0), (2, 0)]);
    let summary = summarize(&none_found).unwrap();
    assert_eq!(summary.percent_connected, Ratio { numerator: 0, denominator: 2 });
    let mut rng = rand::thread_rng();
    let run = run_samples(&graph, 8, 200, false, &mut rng);
    let summary = summarize(&run.totals).unwrap();
    assert_eq!(summary.percent_connected.denominator, 200);
    assert!(summary.percent_connected.numerator <= 100 * 200);
    let percent = summary.percent_connected.numerator as f64 / summary.percent_connected.denominator as f64;
    assert!((0.0..=100.0).contains(&percent));
}
