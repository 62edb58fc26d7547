use holdgram::anagram::signature;
use holdgram::graph::Graph;
use holdgram::dot::parse_dot_lines;

fn words(ws: &[&str]) -> Vec<String> {
    ws.iter().map(|w| w.to_string()).collect()
}

fn scenario_graph() -> Graph {
    Graph::from_reader_over_ascii(words(&["cat", "act", "tac", "dog", "acts", "cats"])).unwrap()
}

#[test]
fn signature_sorts_characters() {
    assert_eq!(signature(&"cat".to_string()), "act");
    assert_eq!(signature(&"dog".to_string()), "dgo");
    assert_eq!(signature(&"acts".to_string()), "acst");
    assert_eq!(signature(&"".to_string()), "");
}

#[test]
fn signature_characterizes_anagrams() {
    assert_eq!(
        signature(&"listen".to_string()),
        signature(&"silent".to_string())
    );
    assert_ne!(
        signature(&"abc".to_string()),
        signature(&"abd".to_string())
    );
}

#[test]
fn scenario_classes() {
    let g = scenario_graph();
    assert_eq!(g.number_of_classes(), 3);
    assert_eq!(g.to_class[0].signature, "act");
    assert_eq!(g.to_class[0].members, words(&["act", "cat", "tac"]));
    assert_eq!(g.to_class[1].signature, "dgo");
    assert_eq!(g.to_class[1].members, words(&["dog"]));
    assert_eq!(g.to_class[2].signature, "acst");
    assert_eq!(g.to_class[2].members, words(&["acts", "cats"]));
}

#[test]
fn scenario_edges() {
    let g = scenario_graph();
    assert_eq!(g.adjacent.len(), 3);
    assert_eq!(g.adjacent[0].len(), 1);
    assert_eq!(g.adjacent[0][0].to, 2);
    assert_eq!(g.adjacent[0][0].symbol, 's');
    assert!(g.adjacent[1].is_empty());
    assert!(g.adjacent[2].is_empty());
}

#[test]
fn scenario_reachability_histogram() {
    let g = scenario_graph();
    let hist = g.reachability(3);
    assert_eq!(hist, vec![0, 0, 0, 2, 1]);
}

#[test]
fn reachability_of_missing_length_is_empty() {
    let g = scenario_graph();
    let hist = g.reachability(7);
    assert!(hist.iter().all(|&c| c == 0));
    let empty = Graph::from_reader_over_ascii(Vec::new()).unwrap();
    assert_eq!(empty.reachability(3), Vec::<u64>::new());
}

#[test]
fn scenario_paths_within_bounds() {
    let g = scenario_graph();
    let paths = g.to_paths(3, (2, 2));
    assert_eq!(paths, vec!["{act, cat, tac} + s -> {acts, cats}".to_string()]);
}

#[test]
fn scenario_paths_excludes_out_of_bounds_sinks() {
    let g = scenario_graph();
    // the dog class is a sink at depth one, below the bound of three
    let paths = g.to_paths(3, (3, 7));
    assert!(paths.is_empty());
}

#[test]
fn paths_of_depth_one_are_bare_sinks() {
    let g = scenario_graph();
    let paths = g.to_paths(3, (1, 1));
    assert_eq!(paths, vec!["{dog}".to_string()]);
}

#[test]
fn shuffle_changes_order_only() {
    let g = Graph::from_reader_over_ascii(words(&["a", "ab", "ac"])).unwrap();
    let mut paths = g.to_paths(1, (2, 2));
    paths.sort();
    assert_eq!(
        paths,
        vec!["{a} + b -> {ab}".to_string(), "{a} + c -> {ac}".to_string()]
    );
}

#[test]
fn paths_of_missing_length_are_empty() {
    let g = scenario_graph();
    assert!(g.to_paths(9, (1, 9)).is_empty());
}

#[test]
fn adding_a_word_twice_changes_nothing() {
    let mut g1 = Graph::new_over_ascii();
    g1.add_word("cat".to_string()).unwrap();
    g1.add_word("act".to_string()).unwrap();
    let members_once = g1.to_class[0].members.clone();
    let count_once = g1.number_of_classes();
    g1.add_word("cat".to_string()).unwrap();
    assert_eq!(g1.number_of_classes(), count_once);
    assert_eq!(g1.to_class[0].members, members_once);
}

#[test]
fn invalid_symbol_is_reported_with_word() {
    let mut g = Graph::new_over_ascii();
    let err = g.add_word("b4d".to_string()).unwrap_err();
    assert_eq!(err.symbol, '4');
    assert_eq!(err.word, "b4d");
    assert_eq!(g.number_of_classes(), 0);
}

#[test]
fn invalid_line_aborts_the_load() {
    let err = Graph::from_reader_over_ascii(words(&["fine", "Bad", "later"])).unwrap_err();
    assert_eq!(err.symbol, 'B');
    assert_eq!(err.word, "Bad");
}

#[test]
fn empty_line_forms_a_zero_length_class() {
    let g = Graph::from_reader_over_ascii(words(&["", "a"])).unwrap();
    assert_eq!(g.number_of_classes(), 2);
    assert_eq!(g.to_class[0].signature, "");
    // the empty signature extends to every single-symbol class
    assert_eq!(g.adjacent[0].len(), 1);
    assert_eq!(g.adjacent[0][0].symbol, 'a');
}

#[test]
fn dot_output_is_deterministic() {
    let g = scenario_graph();
    let expected = "strict digraph {\n  0 [label=\"act\"];\n  1 [label=\"dgo\"];\n  2 [label=\"acst\"];\n  0 -> 2 [label=\"s\"];\n}\n";
    assert_eq!(g.to_dot(), expected);
    assert_eq!(g.to_dot(), expected);
}

#[test]
fn dot_round_trip_recovers_labels_and_edges() {
    let g = scenario_graph();
    let lines = g.to_dot_lines();
    let (nodes, edges) = parse_dot_lines(&lines);
    assert_eq!(
        nodes,
        vec![
            (0, "act".to_string()),
            (1, "dgo".to_string()),
            (2, "acst".to_string())
        ]
    );
    assert_eq!(edges, vec![(0, 2, 's')]);
}

#[test]
fn classes_by_length_buckets_labels() {
    let g = scenario_graph();
    let buckets = g.classes_by_length();
    assert_eq!(buckets.len(), 5);
    assert!(buckets[0].is_empty());
    assert!(buckets[1].is_empty());
    assert!(buckets[2].is_empty());
    assert_eq!(buckets[3], vec![0, 1]);
    assert_eq!(buckets[4], vec![2]);
}

#[test]
fn totals_behind_the_averages() {
    let g = scenario_graph();
    assert_eq!(g.total_members(), 6);
    assert_eq!(g.total_degree(), 1);
    assert_eq!(g.max_sig_len(), 4);
}

#[test]
fn report_renders_overview_and_histograms() {
    let g = scenario_graph();
    let expected = "overview\n  - number of classes: 3\n  - average class size: 2.00\n  - average degree: 0.33\n\nanagram classes\n2 of length 3 (e.g. act)\n1 of length 4 (e.g. acst)\n\nreachability from class length 3\n2 of length 3 (avg 1.00)\n1 of length 4 (avg 0.50)\n(end)";
    assert_eq!(g.report(), expected);
}

#[test]
fn report_of_empty_graph() {
    let g = Graph::from_reader_over_ascii(Vec::new()).unwrap();
    assert_eq!(g.report(), "overview\n  - number of classes: 0\n(end)");
}

#[test]
fn report_without_length_three_classes_has_empty_reachability() {
    let g = Graph::from_reader_over_ascii(words(&["ab", "ba"])).unwrap();
    let report = g.report();
    assert!(report.contains("reachability from class length 3\n(end)"));
}

#[test]
fn report_rounds_averages_to_nearest() {
    // two edges over three classes: average degree 2/3 rounds to 0.67
    let g = Graph::from_reader_over_ascii(words(&["a", "b", "ab"])).unwrap();
    let report = g.report();
    assert!(report.contains("average degree: 0.67"));
    assert!(report.contains("average class size: 1.00"));
}
