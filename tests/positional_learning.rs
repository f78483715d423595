use logmap::positional::LogFilters;

fn words(line: &str) -> Vec<String> {
    line.split(' ').map(|w| w.to_string()).collect()
}

fn columns(cols: &[&[&str]]) -> Vec<Vec<String>> {
    cols.iter().map(|c| c.iter().map(|w| w.to_string()).collect()).collect()
}

#[test]
fn positional_merge_adds_alternatives_by_position() {
    let mut log_filters = LogFilters::new();
    log_filters.learn_line("alpha beta gamma delta");
    log_filters.learn_line("alpha beta gamma omega");
    log_filters.learn_line("x y");
    assert_eq!(log_filters.store.filters.len(), 2);
    assert_eq!(
        log_filters.store.filters[0],
        columns(&[&["alpha"], &["beta"], &["gamma"], &["delta", "omega"]])
    );
    assert_eq!(log_filters.store.filters[1], columns(&[&["x"], &["y"]]));
    // the index is not extended by a positional merge
    assert_eq!(log_filters.store.words_hash.get("omega"), None);
    assert_eq!(log_filters.store.words_hash.get("alpha"), Some(&vec![0]));
}

#[test]
fn positional_runs_and_candidates() {
    let mut log_filters = LogFilters::new();
    log_filters.learn_line("alpha beta gamma delta");
    assert_eq!(log_filters._count_consequent_matches_in_filter(&words("alpha zzz beta gamma"), 0), 2);
    assert_eq!(log_filters._count_consequent_matches_in_filter(&words("zzz alpha yyy beta"), 0), 0);
    assert_eq!(log_filters._count_consequent_matches_in_filter(&words("alpha beta"), 1), 0);
    assert_eq!(log_filters._get_filter_indexes_with_min_req_matches(&words("alpha beta")), Vec::<usize>::new());
    assert_eq!(log_filters._get_filter_indexes_with_min_req_matches(&words("alpha beta gamma")), vec![0]);
    assert_eq!(log_filters._find_best_matching_filter_index(&words("alpha beta gamma delta")), 0);
    assert_eq!(log_filters._find_best_matching_filter_index(&words("alpha beta")), -1);
}

#[test]
fn positional_line_keeps_apostrophes_and_drops_numbers() {
    let mut log_filters = LogFilters::new();
    log_filters.learn_line("it's done 123 now");
    assert_eq!(log_filters.store.filters[0], columns(&[&["it's"], &["done"], &["now"]]));
    assert!(log_filters._is_word_only_numeric(&"4567".to_string()));
    assert!(!log_filters._is_word_only_numeric(&"45a".to_string()));
    assert!(LogFilters::_is_word_in_word_alternatives(&"b".to_string(), &words("a b c")));
    assert!(log_filters._is_word_in_filter(&"done".to_string(), 0));
    assert!(!log_filters._is_word_in_filter(&"done".to_string(), 1));
}

#[test]
fn positional_update_appends_columns_for_longer_lines() {
    let mut log_filters = LogFilters::new();
    log_filters._add_filter(words("a b"));
    log_filters._update_filter(words("a c d"), 0);
    assert_eq!(log_filters.store.filters[0], columns(&[&["a"], &["b", "c"], &["d"]]));
    log_filters._update_hash(&"d".to_string(), 0);
    assert_eq!(log_filters.store.words_hash.get("d"), Some(&vec![0]));
    log_filters._update_filter(Vec::new(), 0);
    log_filters._update_filter(words("q"), 5);
    assert_eq!(log_filters.store.filters.len(), 1);
}
