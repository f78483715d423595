use logmap::clog::LogFilters;

fn _words_vector_from_string(words: &str) -> Vec<String> {
    LogFilters::_line_split(words)
}

fn _simple_filter_from_string(words: &str) -> Vec<Vec<String>> {
    let words_vec = LogFilters::_line_split(words);

    let mut filter = Vec::new();
    for word in words_vec {
        filter.push(vec![word.to_string()]);
    }
    filter
}

fn _add_word_alternative(mut filter: Vec<Vec<String>>, index: usize, word: &str) -> Vec<Vec<String>> {
    if filter.get(index).is_some() {
        filter.get_mut(index).unwrap().push(word.to_string());
        filter
    } else {
        panic!("Failed to create test data! Extending {:?} at {}", filter, index);
    }
}

fn _add_test_filter(test_filters: &mut LogFilters, filter: Vec<Vec<String>>) {
    test_filters.store.push_filter(filter);
}

fn _init_test_data() -> LogFilters {
    let mut log_filters = LogFilters::new();
    let mut complex_filter = _simple_filter_from_string("aaa qqq ccc sss");
    complex_filter = _add_word_alternative(complex_filter, 1, "bbb");
    complex_filter = _add_word_alternative(complex_filter, 2, "rrr");
    complex_filter = _add_word_alternative(complex_filter, 3, "ddd");
    _add_test_filter(&mut log_filters, complex_filter);
    _add_test_filter(&mut log_filters, _simple_filter_from_string("eee fff ggg hhh x y z"));
    _add_test_filter(&mut log_filters, _simple_filter_from_string("iii jjj kkk lll"));
    _add_test_filter(&mut log_filters, _simple_filter_from_string("mmm nnn ooo ppp"));
    complex_filter = _simple_filter_from_string("qqq rrr sss ttt");
    complex_filter = _add_word_alternative(complex_filter, 3, "aaa");
    _add_test_filter(&mut log_filters, complex_filter);
    _add_test_filter(&mut log_filters, _simple_filter_from_string("ttt aaa uuu bbb ccc ddd vvv"));
    log_filters
}

#[test]
fn _line_split() {
    // Test if string will be splitted correctly (single separators)
    let line_1 = "a b/c,d.e:f\"g\'h(i)j{k}l[m]n";
    let result = vec!["a", "b", "c", "d", "e", "f", "g", "h", "i", "j", "k",
        "l", "m", "n"];
    assert_eq!(LogFilters::_line_split(&line_1), result);

    // Test if string will be splitted correctly (multiple separators)
    let line_2 = " /,.a:\"\'()b{}[]";
    let result = vec!["a", "b"];
    assert_eq!(LogFilters::_line_split(&line_2), result);

    // Empty string expected if line consisting of only separators
    let line_3 = " /,.:\"\'(){}[]";
    let result: Vec<String> = Vec::new();
    assert_eq!(LogFilters::_line_split(&line_3), result);

    let line_4 = "";
    let result: Vec<String> = Vec::new();
    assert_eq!(LogFilters::_line_split(&line_4), result);

    let line_5 = "LoremIpsum";
    let result = vec!["LoremIpsum"];
    assert_eq!(LogFilters::_line_split(&line_5), result);
}

#[test]
fn _line_to_words() {
    let mut log_filters = LogFilters::new();
    log_filters.ignore_numeric_words = false;
    log_filters.ignore_first_columns = 0;

    // Test if string will be splitted correctly (single separators)
    let line_1 = "a b/c,d.e:f\"g\'h(i)j{k}l[m]n";
    let result = vec!["a", "b", "c", "d", "e", "f", "g", "h", "i", "j", "k",
        "l", "m", "n"];
    assert_eq!(log_filters._line_to_words(&line_1), result);

    // Test if string will be splitted correctly (multiple separators)
    let line_2 = " /,.a:\"\'()b{}[]";
    let result = vec!["a", "b"];
    assert_eq!(log_filters._line_to_words(&line_2), result);

    // Empty string expected if line consisting of only separators
    let line_3 = " /,.:\"\'(){}[]";
    let result: Vec<String> = Vec::new();
    assert_eq!(log_filters._line_to_words(&line_3), result);

    let line_4 = "";
    let result: Vec<String> = Vec::new();
    assert_eq!(log_filters._line_to_words(&line_4), result);

    // Test if string will be splitted correctly (no separators)
    let line_5 = "LoremIpsum";
    let result = vec!["LoremIpsum"];
    assert_eq!(log_filters._line_to_words(&line_5), result);


    // Following tests for LogFilters::ignore_first_columns parameter set to `2`
    let mut log_filters = LogFilters::new();
    log_filters.ignore_numeric_words = false;
    log_filters.ignore_first_columns = 2;

    // Test if string will be splitted correctly (single separators)
    let line_1 = "a b/c,d.e:f\"g\'h(i)j{k}l[m]n";
    let result = vec!["c", "d", "e", "f", "g", "h", "i", "j", "k",
        "l", "m", "n"];
    assert_eq!(log_filters._line_to_words(&line_1), result);

    // Test if string will be splitted correctly (multiple separators)
    let line_2 = " /,.a:\"\'()b{}[]c[]{}.,";
    let result = vec!["c"];
    assert_eq!(log_filters._line_to_words(&line_2), result);

    // Empty string expected if line consisting of only separators
    let line_3 = " /,.:\"\'(){}[]";
    let result: Vec<String> = Vec::new();
    assert_eq!(log_filters._line_to_words(&line_3), result);

    let line_4 = "";
    let result: Vec<String> = Vec::new();
    assert_eq!(log_filters._line_to_words(&line_4), result);

    // First two words should be removed, numeric word should stay
    let line_5 = "Lorem ipsum dolor sit amet, 123 consectetur adipiscing elit7";
    let result = vec!["dolor", "sit", "amet", "123", "consectetur", "adipiscing", "elit7"];
    assert_eq!(log_filters._line_to_words(&line_5), result);

    // Test if numeric words will be ignored
    let mut log_filters = LogFilters::new();
    log_filters.ignore_numeric_words = true;
    log_filters.ignore_first_columns = 2;

    // First two words and numeric word should be removed
    let line_5 = "Lorem ipsum dolor sit amet, 123 consectetur adipiscing elit7";
    let result = vec!["dolor", "sit", "amet", "consectetur", "adipiscing", "elit7"];
    assert_eq!(log_filters._line_to_words(&line_5), result);
}

#[test]
fn _to_string() {
    let mut log_filters = LogFilters::new();
    assert_eq!(log_filters._to_string(), "0");

    // One filter with no alternatives
    _add_test_filter(&mut log_filters, _simple_filter_from_string("aaa bbb ccc ddd"));
    let filter_1 : String = "4
                            aaa 
                            bbb 
                            ccc 
                            ddd ".to_string().replace("    ", "");
    let result = "1\n".to_string() + &filter_1;
    assert_eq!(log_filters._to_string(), result);

    // Two filters with no alternatives
    _add_test_filter(&mut log_filters, _simple_filter_from_string("xxx yyy zzz"));
    let filter_2 : String = "3
                            xxx 
                            yyy 
                            zzz ".to_string().replace("    ", "");
    let result = "2\n".to_string() + &filter_1 + "\n" + &filter_2;
    assert_eq!(log_filters._to_string(), result);

    // Three filters, third filter with alternatives
    let mut complex_filter = _simple_filter_from_string("eee fff ggg hhh");
    complex_filter = _add_word_alternative(complex_filter, 1, "iii");
    complex_filter = _add_word_alternative(complex_filter, 1, "jjj");
    complex_filter = _add_word_alternative(complex_filter, 3, ".");
    _add_test_filter(&mut log_filters, complex_filter);
    let filter_3 : String = "4
                            eee 
                            fff iii jjj 
                            ggg 
                            hhh . ".to_string().replace("    ", "");
    let result = "3\n".to_string() + &filter_1 + "\n" + &filter_2 + "\n" + &filter_3;
    assert_eq!(log_filters._to_string(), result);
}

#[test]
fn _load_parameters() {
    let log_filters_lines = vec!["3", "2", ".", "true", "2", "0"];
    let log_filters = LogFilters::_load_parameters(&log_filters_lines).unwrap();
    assert_eq!(log_filters.min_req_consequent_matches, 3);
    assert_eq!(log_filters.max_allowed_new_alternatives, 2);
    assert_eq!(log_filters.store.denote_optional, ".");
    assert_eq!(log_filters.ignore_numeric_words, true);
    assert_eq!(log_filters.ignore_first_columns, 2);
}

#[test]
fn _from_str_lines() {
    // Filter with no alternatives
    let log_filters_lines = vec![
    "1",
    "5",
    "a",
    "b",
    "c",
    "d",
    "e"];
    let mut log_filters = LogFilters::new();
    log_filters._from_str_lines(&log_filters_lines, 0).unwrap();
    assert_eq!(log_filters.store.filters.len(), 1);
    let expected = _simple_filter_from_string("a b c d e");
    assert_eq!(log_filters.store.filters[0], expected);
    assert_eq!(log_filters.store.words_hash.get(&"a".to_string()).unwrap(),
        &vec![0 as usize]);
    assert_eq!(log_filters.store.words_hash.get(&"b".to_string()).unwrap(),
        &vec![0 as usize]);
    assert_eq!(log_filters.store.words_hash.get(&"c".to_string()).unwrap(),
        &vec![0 as usize]);
    assert_eq!(log_filters.store.words_hash.get(&"d".to_string()).unwrap(),
        &vec![0 as usize]);
    assert_eq!(log_filters.store.words_hash.get(&"e".to_string()).unwrap(),
        &vec![0 as usize]);

    // Filter with alternatives
    let log_filters_lines = vec![
    "1",
    "3",
    "a b",
    "c",
    "d e"];
    let mut log_filters = LogFilters::new();
    log_filters._from_str_lines(&log_filters_lines, 0).unwrap();
    assert_eq!(log_filters.store.filters.len(), 1);
    let mut expected = _simple_filter_from_string("a c d");
    expected = _add_word_alternative(expected, 0, "b");
    expected = _add_word_alternative(expected, 2, "e");
    assert_eq!(log_filters.store.filters[0], expected);
    assert_eq!(log_filters.store.words_hash.get(&"a".to_string()).unwrap(),
        &vec![0 as usize]);
    assert_eq!(log_filters.store.words_hash.get(&"b".to_string()).unwrap(),
        &vec![0 as usize]);
    assert_eq!(log_filters.store.words_hash.get(&"c".to_string()).unwrap(),
        &vec![0 as usize]);
    assert_eq!(log_filters.store.words_hash.get(&"d".to_string()).unwrap(),
        &vec![0 as usize]);
    assert_eq!(log_filters.store.words_hash.get(&"e".to_string()).unwrap(),
        &vec![0 as usize]);

    // Two filters
    let log_filters_lines = vec![
    "2",
    "5",
    "a",
    "b",
    "c",
    "d",
    "e f",
    "3",
    "a b",
    "c",
    "d e g"];
    let mut log_filters = LogFilters::new();
    log_filters._from_str_lines(&log_filters_lines, 0).unwrap();
    assert_eq!(log_filters.store.filters.len(), 2);
    let mut expected_1 = _simple_filter_from_string("a b c d e");
    expected_1 = _add_word_alternative(expected_1, 4, "f");
    let mut expected_2 = _simple_filter_from_string("a c d");
    expected_2 = _add_word_alternative(expected_2, 0, "b");
    expected_2 = _add_word_alternative(expected_2, 2, "e");
    expected_2 = _add_word_alternative(expected_2, 2, "g");
    assert_eq!(log_filters.store.filters[0], expected_1);
    assert_eq!(log_filters.store.filters[1], expected_2);
    assert_eq!(log_filters.store.words_hash.get(&"a".to_string()).unwrap(),
        &vec![0 as usize, 1 as usize]);
    assert_eq!(log_filters.store.words_hash.get(&"b".to_string()).unwrap(),
        &vec![0 as usize, 1 as usize]);
    assert_eq!(log_filters.store.words_hash.get(&"c".to_string()).unwrap(),
        &vec![0 as usize, 1 as usize]);
    assert_eq!(log_filters.store.words_hash.get(&"d".to_string()).unwrap(),
        &vec![0 as usize, 1 as usize]);
    assert_eq!(log_filters.store.words_hash.get(&"e".to_string()).unwrap(),
        &vec![0 as usize, 1 as usize]);
    assert_eq!(log_filters.store.words_hash.get(&"f".to_string()).unwrap(),
        &vec![0 as usize]);
    assert_eq!(log_filters.store.words_hash.get(&"g".to_string()).unwrap(),
        &vec![1 as usize]);
}

#[test]
fn _is_word_only_numeric() {
    let log_filters = LogFilters::new();
    assert_eq!(log_filters._is_word_only_numeric(&"asdf".to_string()), false);
    assert_eq!(log_filters._is_word_only_numeric(&"123a".to_string()), false);
    assert_eq!(log_filters._is_word_only_numeric(&"a123".to_string()), false);
    assert_eq!(log_filters._is_word_only_numeric(&"6789".to_string()), true);
    assert_eq!(log_filters._is_word_only_numeric(&"".to_string()), true);
}

#[test]
fn _find_best_matching_filter_index() {
    let log_filters = LogFilters::new();
    let words = _words_vector_from_string("aaa bbb ccc ddd");
    assert_eq!(log_filters._find_best_matching_filter_index(&words), -1);

    let mut log_filters = _init_test_data();
    log_filters.max_allowed_new_alternatives = 1;
    log_filters.min_req_consequent_matches = 3;
    // Empty words vector should result in invalid index
    let words = vec![];
    assert_eq!(log_filters._find_best_matching_filter_index(&words), -1);
    // First full match should be returned
    let words = _words_vector_from_string("aaa bbb ccc ddd");
    assert_eq!(log_filters._find_best_matching_filter_index(&words), 0);
    // If words vector is shorter than filter then first fully matching filter should be returned
    let words = _words_vector_from_string("aaa bbb ccc");
    assert_eq!(log_filters._find_best_matching_filter_index(&words), 0);
    let words = _words_vector_from_string("aaa bbb");
    assert_eq!(log_filters._find_best_matching_filter_index(&words), 0);
    let words = _words_vector_from_string("aaa");
    assert_eq!(log_filters._find_best_matching_filter_index(&words), 0);
    // Test if 1 word alternative is allowed
    let words = _words_vector_from_string("aaa bbb ccc xxx");
    assert_eq!(log_filters._find_best_matching_filter_index(&words), 0);
    let words = _words_vector_from_string("aaa xxx ccc ddd");
    assert_eq!(log_filters._find_best_matching_filter_index(&words), 0);
    // Two and more new alternatives should result in incorrect index
    let words = _words_vector_from_string("aaa bbb zzz xxx");
    assert_eq!(log_filters._find_best_matching_filter_index(&words), -1);
    let words = _words_vector_from_string("aaa xxx zzz ddd");
    assert_eq!(log_filters._find_best_matching_filter_index(&words), -1);
    // Test if words vector can be longer than existing filter
    let words = _words_vector_from_string("aaa bbb ccc ddd eee fff ggg hhh");
    assert_eq!(log_filters._find_best_matching_filter_index(&words), 0);
    // Test if longer words vector will be allowed to contain 1 word alternative to existing word
    let words = _words_vector_from_string("aaa xxx ccc ddd eee fff ggg hhh");
    assert_eq!(log_filters._find_best_matching_filter_index(&words), 0);
    // Test if longer words vector will be allowed to contain 1 new word alternative
    let words = _words_vector_from_string("aaa xxx bbb ccc ddd fff ggg hhh");
    assert_eq!(log_filters._find_best_matching_filter_index(&words), 0);
    // Test if words vector and filter vector must contain words in the same order
    let words = _words_vector_from_string("ddd ccc bbb aaa");
    assert_eq!(log_filters._find_best_matching_filter_index(&words), -1);
    let words = _words_vector_from_string("ccc bbb aaa");
    assert_eq!(log_filters._find_best_matching_filter_index(&words), -1);
    let words = _words_vector_from_string("bbb aaa");
    assert_eq!(log_filters._find_best_matching_filter_index(&words), -1);
}

#[test]
fn _get_filter_indexes_with_min_req_matches() {
    // Test what happens if method was used on empty data structure
    let log_filters = LogFilters::new();
    assert_eq!(log_filters._get_filter_indexes_with_min_req_matches(&vec![]), vec![]);
    let words = _words_vector_from_string("aaa bbb ccc ddd");
    assert_eq!(log_filters._get_filter_indexes_with_min_req_matches(&words), vec![]);

    let mut log_filters = _init_test_data();
    log_filters.max_allowed_new_alternatives = 1;
    log_filters.min_req_consequent_matches = 3;
    assert_eq!(log_filters._get_sorted_filter_indexes_containing_words(&vec![]), vec![]);
    let words = _words_vector_from_string("aaa bbb ccc ddd");
    assert_eq!(log_filters._get_filter_indexes_with_min_req_matches(&words), vec![0, 5]);
    // Test when words length is less than self.min_req_consequent_matches
    let words = _words_vector_from_string("aaa bbb");
    assert_eq!(log_filters._get_filter_indexes_with_min_req_matches(&words), vec![0, 4, 5]);
    let words = _words_vector_from_string("aaa");
    assert_eq!(log_filters._get_filter_indexes_with_min_req_matches(&words), vec![0, 4, 5]);
    // But empty words vector is still not allowed
    let words = vec![];
    assert_eq!(log_filters._get_filter_indexes_with_min_req_matches(&words), vec![]);
    // One-word words vector will only match if at least one filter contains that word
    let words = _words_vector_from_string("xyz");
    assert_eq!(log_filters._get_filter_indexes_with_min_req_matches(&words), vec![]);
    // Test when new word alternatives are required
    let words = _words_vector_from_string("aaa lll ccc ddd");
    assert_eq!(log_filters._get_filter_indexes_with_min_req_matches(&words), vec![0, 5]);
    // Test when new word alternative is required and words vector is shorter than filter
    let words = _words_vector_from_string("aaa lll ccc");
    assert_eq!(log_filters._get_filter_indexes_with_min_req_matches(&words), vec![0, 5]);
    // We are not counting consequent matches here, max_allowed_new_alternatives
    let words = _words_vector_from_string("aaa lll zzz ddd");
    assert_eq!(log_filters._get_filter_indexes_with_min_req_matches(&words), vec![0, 5]);
    let words = _words_vector_from_string("aaa lll zzz yyy ddd");
    assert_eq!(log_filters._get_filter_indexes_with_min_req_matches(&words), vec![0, 5]);
    // We are not checking for correct words order here
    let words = _words_vector_from_string("ddd lll zzz yyy aaa");
    assert_eq!(log_filters._get_filter_indexes_with_min_req_matches(&words), vec![0, 5]);
}

#[test]
fn _get_sorted_filter_indexes_containing_words() {
    let log_filters = LogFilters::new();
    let words = _words_vector_from_string("aaa bbb ccc ddd");
    assert_eq!(log_filters._get_sorted_filter_indexes_containing_words(&words), vec![]);
    assert_eq!(log_filters._get_sorted_filter_indexes_containing_words(&vec![]), vec![]);

    let mut log_filters = _init_test_data();
    log_filters.max_allowed_new_alternatives = 1;
    log_filters.min_req_consequent_matches = 3;
    assert_eq!(log_filters._get_sorted_filter_indexes_containing_words(&vec![]), vec![]);
    let words = _words_vector_from_string("aaa bbb ccc ddd");
    assert_eq!(log_filters._get_sorted_filter_indexes_containing_words(&words), vec![0, 0, 0, 0, 4, 5, 5, 5, 5]);
    let words = _words_vector_from_string("aaa xxx");
    assert_eq!(log_filters._get_sorted_filter_indexes_containing_words(&words), vec![0, 4, 5]);
    let words = _words_vector_from_string("xxx");
    assert_eq!(log_filters._get_sorted_filter_indexes_containing_words(&words), vec![]);
}

#[test]
fn _count_consequent_matches() {
    // Test what happens if method was used on empty data structure
    let mut log_filters = LogFilters::new();
    let words = _words_vector_from_string("aaa bbb ccc ddd");
    assert_eq!(log_filters._count_consequent_matches(&words, 0), 0);
    assert_eq!(log_filters._count_consequent_matches(&words, 1), 0);
    assert_eq!(log_filters._count_consequent_matches(&vec![], 0), 0);
    log_filters.max_allowed_new_alternatives = 0;
    assert_eq!(log_filters._count_consequent_matches(&words, 0), 0);
    assert_eq!(log_filters._count_consequent_matches(&words, 1), 0);
    assert_eq!(log_filters._count_consequent_matches(&vec![], 0), 0);

    let mut log_filters = _init_test_data();
    log_filters.max_allowed_new_alternatives = 1;
    log_filters.min_req_consequent_matches = 3;
    // Test for existing pattern
    let words = _words_vector_from_string("aaa bbb ccc ddd");
    assert_eq!(log_filters._count_consequent_matches(&words, 0), 4);
    assert_eq!(log_filters._count_consequent_matches(&words, 1), 0);
    // Test out of bounds
    assert_eq!(log_filters._count_consequent_matches(&words, log_filters.store.filters.len()), 0);
    // Test empty words vector
    assert_eq!(log_filters._count_consequent_matches(&vec![], 0), 0);
    // Test if words vector can be smaller than filter
    let words = _words_vector_from_string("iii jjj lll");
    assert_eq!(log_filters._count_consequent_matches(&words, 2), 3);
    let words = _words_vector_from_string("iii lll");
    assert_eq!(log_filters._count_consequent_matches(&words, 2), 2);
    let words = _words_vector_from_string("iii jjj");
    assert_eq!(log_filters._count_consequent_matches(&words, 2), 2);
    let words = _words_vector_from_string("jjj kkk");
    assert_eq!(log_filters._count_consequent_matches(&words, 2), 2);
    let words = _words_vector_from_string("iii");
    assert_eq!(log_filters._count_consequent_matches(&words, 2), 1);
    let words = _words_vector_from_string("jjj");
    assert_eq!(log_filters._count_consequent_matches(&words, 2), 1);
    // Test if word alternative will be matched
    let words = _words_vector_from_string("aaa");
    assert_eq!(log_filters._count_consequent_matches(&words, 4), 1);
    // Test if 1 word alternative is allowed
    let words = _words_vector_from_string("aaa bbb ccc xxx");
    assert_eq!(log_filters._count_consequent_matches(&words, 0), 3);
    let words = _words_vector_from_string("aaa xxx ccc ddd");
    assert_eq!(log_filters._count_consequent_matches(&words, 0), 3);
    let words = _words_vector_from_string("aaa bbb zzz xxx");
    assert_eq!(log_filters._count_consequent_matches(&words, 0), 0);
    let words = _words_vector_from_string("aaa xxx zzz ddd");
    assert_eq!(log_filters._count_consequent_matches(&words, 0), 0);
    // Test if words vector can be longer than existing filter
    let words = _words_vector_from_string("aaa bbb ccc ddd eee fff ggg hhh");
    assert_eq!(log_filters._count_consequent_matches(&words, 0), 4);
    // Test if longer words vector will be allowed to contain 1 word alternative to existing word
    let words = _words_vector_from_string("aaa xxx ccc ddd eee fff ggg hhh");
    assert_eq!(log_filters._count_consequent_matches(&words, 3), 0);
    // Test if longer words vector will be allowed to contain 1 new word alternative
    let words = _words_vector_from_string("aaa xxx bbb ccc ddd fff ggg hhh");
    assert_eq!(log_filters._count_consequent_matches(&words, 4), 0);
    // Test if words vector and filter vector must contain words in the same order
    let words = _words_vector_from_string("ddd ccc bbb aaa");
    assert_eq!(log_filters._count_consequent_matches(&words, 0), 0);
}

#[test]
fn _get_word_index_in_filter() {
    // Test what happens if method was used on empty data structure
    let log_filters = LogFilters::new();
    assert_eq!(log_filters._get_word_index_in_filter(&"aaa".to_string(), 0, 0), -1);
    assert_eq!(log_filters._get_word_index_in_filter(&"aaa".to_string(), 0, 100), -1);
    assert_eq!(log_filters._get_word_index_in_filter(&"aaa".to_string(), 100, 0), -1);
    assert_eq!(log_filters._get_word_index_in_filter(&"".to_string(), 0, 0), -1);

    let log_filters = _init_test_data();
    // Test if word will be matched when it should be
    assert_eq!(log_filters._get_word_index_in_filter(&"aaa".to_string(), 0, 0), 0);
    assert_eq!(log_filters._get_word_index_in_filter(&"aaa".to_string(), 4, 0), 3);
    assert_eq!(log_filters._get_word_index_in_filter(&"qqq".to_string(), 0, 0), 1);
    assert_eq!(log_filters._get_word_index_in_filter(&"sss".to_string(), 0, 3), 3);
    assert_eq!(log_filters._get_word_index_in_filter(&"ddd".to_string(), 0, 3), 3);
    // Test if word will not be matched if starting index is higher than word index in filter
    assert_eq!(log_filters._get_word_index_in_filter(&"aaa".to_string(), 0, 1), -1);
    // Empty string should not be matched
    assert_eq!(log_filters._get_word_index_in_filter(&"".to_string(), 4, 0), -1);
    // Test when word does not exist in filter or filter does not exist
    assert_eq!(log_filters._get_word_index_in_filter(&"aaa".to_string(), 1, 0), -1);
    assert_eq!(log_filters._get_word_index_in_filter(&"aaa".to_string(), log_filters.store.filters.len(), 0), -1);
}

#[test]
fn _get_word_index_in_words() {
    let log_filters = LogFilters::new();
    let words = _words_vector_from_string("aaa bbb ccc xxx");
    assert_eq!(log_filters._get_word_index_in_words(&"aaa".to_string(), &words), 0);
    assert_eq!(log_filters._get_word_index_in_words(&"bbb".to_string(), &words), 1);
    assert_eq!(log_filters._get_word_index_in_words(&"xxx".to_string(), &words), 3);
    assert_eq!(log_filters._get_word_index_in_words(&"zzz".to_string(), &words), -1);
    assert_eq!(log_filters._get_word_index_in_words(&"".to_string(), &words), -1);
}

#[test]
fn _update_filter() {
    // Test empty data structure
    let mut log_filters = LogFilters::new();
    log_filters._update_filter(vec![], 0);
    assert_eq!(log_filters.store.filters.len(), 0);

    let mut log_filters = _init_test_data();
    log_filters.max_allowed_new_alternatives = 1;
    log_filters.min_req_consequent_matches = 3;
    log_filters.store.denote_optional = ".".to_string();
    // Try to update based on empty words vector
    let filter_0_len = log_filters.store.filters[0].len();
    log_filters._update_filter(vec![], 0);
    assert_eq!(log_filters.store.filters[0].len(), filter_0_len);
    // Try to update a filter that does not exist
    let words = _words_vector_from_string("aaa bbb ccc xxx");
    let nonexisting_filter_index = log_filters.store.filters.len();
    log_filters._update_filter(words, nonexisting_filter_index);
    // No update required
    let words = _words_vector_from_string("mmm nnn ooo ppp");
    log_filters._update_filter(words, 3);
    let expected = _simple_filter_from_string("mmm nnn ooo ppp");
    assert_eq!(log_filters.store.filters.get(3).unwrap(), &expected);

    // One new (hence optional) word alternative added at the front of filter
    let words = _words_vector_from_string("foo qqq rrr sss ttt");
    log_filters._update_filter(words, 4);
    let mut expected = _simple_filter_from_string("foo qqq rrr sss ttt");
    expected = _add_word_alternative(expected, 0, ".");
    expected = _add_word_alternative(expected, 4, "aaa");
    assert_eq!(log_filters.store.filters.get(4).unwrap(), &expected);
    assert_eq!(log_filters.store.words_hash.get(&"foo".to_string()).unwrap(), &vec![4]);
    // Two new (hence optional) word alternatives added at the front of filter
    let words = _words_vector_from_string("xyz qwe mmm nnn ooo ppp");
    log_filters._update_filter(words, 3);
    let mut expected = _simple_filter_from_string("xyz qwe mmm nnn ooo ppp");
    expected = _add_word_alternative(expected, 0, ".");
    expected = _add_word_alternative(expected, 1, ".");
    assert_eq!(log_filters.store.filters.get(3).unwrap(), &expected);
    assert_eq!(log_filters.store.words_hash.get(&"xyz".to_string()).unwrap(), &vec![3]);
    assert_eq!(log_filters.store.words_hash.get(&"qwe".to_string()).unwrap(), &vec![3]);
    // One word turned to (optional) alternative as a result of words vector shorter than filter
    let words = _words_vector_from_string("fff ggg hhh x y z");
    log_filters._update_filter(words, 1);
    let mut expected = _simple_filter_from_string("eee fff ggg hhh x y z");
    expected = _add_word_alternative(expected, 0, ".");
    assert_eq!(log_filters.store.filters.get(1).unwrap(), &expected);
    // Two words turned to (optional) alternatives as a result of words vector shorter than filter
    let words = _words_vector_from_string("kkk lll");
    log_filters._update_filter(words, 2);
    let mut expected = _simple_filter_from_string("iii jjj kkk lll");
    expected = _add_word_alternative(expected, 0, ".");
    expected = _add_word_alternative(expected, 1, ".");
    assert_eq!(log_filters.store.filters.get(2).unwrap(), &expected);
    // One word turned to optional alternative and one new alternative added
    let words = _words_vector_from_string("bar ccc sss");
    log_filters._update_filter(words, 0);
    let mut expected = _simple_filter_from_string("aaa qqq ccc sss");
    expected = _add_word_alternative(expected, 0, ".");
    expected = _add_word_alternative(expected, 1, "bbb");
    expected = _add_word_alternative(expected, 1, "bar");
    expected = _add_word_alternative(expected, 2, "rrr");
    expected = _add_word_alternative(expected, 3, "ddd");
    assert_eq!(log_filters.store.filters.get(0).unwrap(), &expected);

    let mut log_filters = _init_test_data();
    log_filters.max_allowed_new_alternatives = 1;
    log_filters.min_req_consequent_matches = 3;
    log_filters.store.denote_optional = ".".to_string();
    // Add alternative to one word in the middle
    let words = _words_vector_from_string("iii jjj foo lll");
    log_filters._update_filter(words, 2);
    let mut expected = _simple_filter_from_string("iii jjj kkk lll");
    expected = _add_word_alternative(expected, 2, "foo");
    assert_eq!(log_filters.store.filters.get(2).unwrap(), &expected);
    assert_eq!(log_filters.store.words_hash.get(&"foo".to_string()).unwrap(), &vec![2]);
    // Add alternatives to consequent two words in the middle
    let words = _words_vector_from_string("ttt aaa xyz qwe ccc ddd vvv");
    log_filters._update_filter(words, 5);
    let mut expected = _simple_filter_from_string("ttt aaa uuu bbb ccc ddd vvv");
    expected = _add_word_alternative(expected, 2, "xyz");
    expected = _add_word_alternative(expected, 3, "qwe");
    assert_eq!(log_filters.store.filters.get(5).unwrap(), &expected);
    assert_eq!(log_filters.store.words_hash.get(&"xyz".to_string()).unwrap(), &vec![5]);
    assert_eq!(log_filters.store.words_hash.get(&"qwe".to_string()).unwrap(), &vec![5]);
    // Add alternatives to two non-consequent words in the middle
    let words = _words_vector_from_string("eee fff bar hhh x baz z");
    log_filters._update_filter(words, 1);
    let mut expected = _simple_filter_from_string("eee fff ggg hhh x y z");
    expected = _add_word_alternative(expected, 2, "bar");
    expected = _add_word_alternative(expected, 5, "baz");
    assert_eq!(log_filters.store.filters.get(1).unwrap(), &expected);
    assert_eq!(log_filters.store.words_hash.get(&"bar".to_string()).unwrap(), &vec![1]);
    assert_eq!(log_filters.store.words_hash.get(&"baz".to_string()).unwrap(), &vec![1]);

    let mut log_filters = _init_test_data();
    log_filters.max_allowed_new_alternatives = 1;
    log_filters.min_req_consequent_matches = 3;
    log_filters.store.denote_optional = ".".to_string();
    // Turn one word in the middle to optional alternative
    let words = _words_vector_from_string("ttt aaa bbb ccc ddd vvv");
    log_filters._update_filter(words, 5);
    let mut expected = _simple_filter_from_string("ttt aaa uuu bbb ccc ddd vvv");
    expected = _add_word_alternative(expected, 2, ".");
    assert_eq!(log_filters.store.filters.get(5).unwrap(), &expected);
    // Turn two non-consequent words in the middle to optional alternatives
    let words = _words_vector_from_string("eee ggg x y z");
    log_filters._update_filter(words, 1);
    let mut expected = _simple_filter_from_string("eee fff ggg hhh x y z");
    expected = _add_word_alternative(expected, 1, ".");
    expected = _add_word_alternative(expected, 3, ".");
    assert_eq!(log_filters.store.filters.get(1).unwrap(), &expected);
    // Turn one word in the middle to optional alternative
    let words = _words_vector_from_string("iii jjj lll");
    log_filters._update_filter(words, 2);
    let mut expected = _simple_filter_from_string("iii jjj kkk lll");
    expected = _add_word_alternative(expected, 2, ".");
    assert_eq!(log_filters.store.filters.get(2).unwrap(), &expected);

    let mut log_filters = _init_test_data();
    log_filters.max_allowed_new_alternatives = 1;
    log_filters.min_req_consequent_matches = 3;
    log_filters.store.denote_optional = ".".to_string();
    // Last word not matching
    let words = _words_vector_from_string("ttt aaa uuu bbb ccc ddd xyz");
    log_filters._update_filter(words, 5);
    let mut expected = _simple_filter_from_string("ttt aaa uuu bbb ccc ddd vvv");
    expected = _add_word_alternative(expected, 6, "xyz");
    assert_eq!(log_filters.store.filters.get(5).unwrap(), &expected);
    assert_eq!(log_filters.store.words_hash.get(&"xyz".to_string()).unwrap(), &vec![5]);

    let mut log_filters = _init_test_data();
    log_filters.max_allowed_new_alternatives = 1;
    log_filters.min_req_consequent_matches = 3;
    log_filters.store.denote_optional = ".".to_string();
    // Words vector shorter by one word
    let words = _words_vector_from_string("ttt aaa uuu bbb ccc ddd");
    log_filters._update_filter(words, 5);
    let mut expected = _simple_filter_from_string("ttt aaa uuu bbb ccc ddd vvv");
    expected = _add_word_alternative(expected, 6, ".");
    assert_eq!(log_filters.store.filters.get(5).unwrap(), &expected);

    let mut log_filters = _init_test_data();
    log_filters.max_allowed_new_alternatives = 1;
    log_filters.min_req_consequent_matches = 3;
    log_filters.store.denote_optional = ".".to_string();
    // Words vector longer by one word
    let words = _words_vector_from_string("ttt aaa uuu bbb ccc ddd vvv xyz");
    log_filters._update_filter(words, 5);
    let mut expected = _simple_filter_from_string("ttt aaa uuu bbb ccc ddd vvv xyz");
    expected = _add_word_alternative(expected, 7, ".");
    assert_eq!(log_filters.store.filters.get(5).unwrap(), &expected);
    assert_eq!(log_filters.store.words_hash.get(&"xyz".to_string()).unwrap(), &vec![5]);
}

#[test]
fn _normalise_lengths_before_first_match() {
    // Test empty data structure
    let mut log_filters = LogFilters::new();
    assert_eq!(log_filters._normalise_lengths_before_first_match(&vec![], 0, 0, 0), (-1, -1));
    assert_eq!(log_filters.store.filters.len(), 0);
    assert_eq!(log_filters.store.words_hash.len(), 0);
    let words = _words_vector_from_string("aaa bbb ccc xxx");
    assert_eq!(log_filters._normalise_lengths_before_first_match(&words, 0, 0, 0), (-1, -1));
    assert_eq!(log_filters.store.filters.len(), 0);
    assert_eq!(log_filters.store.words_hash.len(), 0);

    let mut log_filters = _init_test_data();
    log_filters.max_allowed_new_alternatives = 1;
    log_filters.min_req_consequent_matches = 3;
    log_filters.store.denote_optional = ".".to_string();
    // Try to update based on empty words vector
    let filter_0_len = log_filters.store.filters[0].len();
    assert_eq!(log_filters._normalise_lengths_before_first_match(&vec![], 0, 0, 0), (-1, -1));
    assert_eq!(log_filters.store.filters[0].len(), filter_0_len);
    // Try to update a filter that does not exist
    let words = _words_vector_from_string("aaa bbb ccc xxx");
    let nonexisting_filter_index = log_filters.store.filters.len();
    assert_eq!(log_filters._normalise_lengths_before_first_match(&words, nonexisting_filter_index, 0, 0), (-1, -1));
    // No update required
    let words = _words_vector_from_string("mmm nnn ooo ppp");
    assert_eq!(log_filters._normalise_lengths_before_first_match(&words, 3, 0, 0), (0, 0));
    let expected = _simple_filter_from_string("mmm nnn ooo ppp");
    assert_eq!(log_filters.store.filters.get(3).unwrap(), &expected);

    // One new (hence optional) word alternative added at the front of filter
    let words = _words_vector_from_string("foo qqq rrr sss ttt");
    assert_eq!(log_filters._normalise_lengths_before_first_match(&words, 4, 0, 0), (1, 1));
    let mut expected = _simple_filter_from_string("foo qqq rrr sss ttt");
    expected = _add_word_alternative(expected, 0, ".");
    expected = _add_word_alternative(expected, 4, "aaa");
    assert_eq!(log_filters.store.filters.get(4).unwrap(), &expected);
    assert_eq!(log_filters.store.words_hash.get(&"foo".to_string()).unwrap(), &vec![4]);
    // Two new (hence optional) word alternatives resulting from passed word vector
    let words = _words_vector_from_string("xyz qwe mmm nnn ooo ppp");
    assert_eq!(log_filters._normalise_lengths_before_first_match(&words, 3, 0, 0), (2, 2));
    let mut expected = _simple_filter_from_string("xyz qwe mmm nnn ooo ppp");
    expected = _add_word_alternative(expected, 0, ".");
    expected = _add_word_alternative(expected, 1, ".");
    assert_eq!(log_filters.store.filters.get(3).unwrap(), &expected);
    assert_eq!(log_filters.store.words_hash.get(&"xyz".to_string()).unwrap(), &vec![3]);
    assert_eq!(log_filters.store.words_hash.get(&"qwe".to_string()).unwrap(), &vec![3]);
    // One word turned to (optional) alternative as a result of words vector shorter than filter
    let words = _words_vector_from_string("fff ggg hhh x y z");
    assert_eq!(log_filters._normalise_lengths_before_first_match(&words, 1, 0, 0), (0, 1));
    let mut expected = _simple_filter_from_string("eee fff ggg hhh x y z");
    expected = _add_word_alternative(expected, 0, ".");
    assert_eq!(log_filters.store.filters.get(1).unwrap(), &expected);
    // Two words turned to (optional) alternatives as a resulting of words vector shorter than filter
    let words = _words_vector_from_string("kkk lll");
    assert_eq!(log_filters._normalise_lengths_before_first_match(&words, 2, 0, 0), (0, 2));
    let mut expected = _simple_filter_from_string("iii jjj kkk lll");
    expected = _add_word_alternative(expected, 0, ".");
    expected = _add_word_alternative(expected, 1, ".");
    assert_eq!(log_filters.store.filters.get(2).unwrap(), &expected);
    // One word turned to optional alternative and one new alternative added to second word
    let words = _words_vector_from_string("bar ccc sss");
    assert_eq!(log_filters._normalise_lengths_before_first_match(&words, 0, 0, 0), (1, 2));
    let mut expected = _simple_filter_from_string("aaa qqq ccc sss");
    expected = _add_word_alternative(expected, 0, ".");
    expected = _add_word_alternative(expected, 1, "bbb");
    expected = _add_word_alternative(expected, 1, "bar");
    expected = _add_word_alternative(expected, 2, "rrr");
    expected = _add_word_alternative(expected, 3, "ddd");
    assert_eq!(log_filters.store.filters.get(0).unwrap(), &expected);

    // Tests covering when both filter and words vector do not start from column 0 and both are different indexes
    let mut log_filters = _init_test_data();
    log_filters.max_allowed_new_alternatives = 1;
    log_filters.min_req_consequent_matches = 3;
    // Test empty words vector on valid filters
    assert_eq!(log_filters._normalise_lengths_before_first_match(&vec![], 5, 3, 2), (-1, -1));
    let expected = _simple_filter_from_string("ttt aaa uuu bbb ccc ddd vvv");
    assert_eq!(log_filters.store.filters.get(5).unwrap(), &expected);

    // both filter and words vector match first word
    let mut log_filters = _init_test_data();
    log_filters.max_allowed_new_alternatives = 1;
    log_filters.min_req_consequent_matches = 3;
    log_filters.store.denote_optional = ".".to_string();
    //     0   1   2  |  3   4   5   6
    // w: ttt aaa kkk | uuu ccc ddd vvv
    // f:     ttt aaa | uuu bbb ccc ddd vvv
    //         0   1  |  2   3   4   5   6
    // r:     ttt aaa | uuu bbb ccc ddd vvv
    let words = _words_vector_from_string("ttt aaa kkk uuu ccc ddd vvv");
    assert_eq!(log_filters._normalise_lengths_before_first_match(&words, 5, 3, 2), (3, 2));
    let expected = _simple_filter_from_string("ttt aaa uuu bbb ccc ddd vvv");
    assert_eq!(log_filters.store.filters.get(5).unwrap(), &expected);

    // first filter's alternative matches second word
    let mut log_filters = _init_test_data();
    log_filters.max_allowed_new_alternatives = 1;
    log_filters.min_req_consequent_matches = 3;
    log_filters.store.denote_optional = ".".to_string();
    //     0   1   2  |  3   4   5   6   7   8
    // w: ttt aaa uuu | xyz uuu bbb ccc ddd vvv
    // f:     ttt aaa | uuu bbb ccc ddd vvv
    //         0   1  |  2   3   4   5   6
    // r:     ttt aaa | xyz uuu bbb ccc ddd vvv
    //                   .
    let words = _words_vector_from_string("ttt aaa uuu xyz uuu bbb ccc ddd vvv");
    assert_eq!(log_filters._normalise_lengths_before_first_match(&words, 5, 3, 2), (4, 3));
    let mut expected = _simple_filter_from_string("ttt aaa xyz uuu bbb ccc ddd vvv");
    expected = _add_word_alternative(expected, 2, ".");
    assert_eq!(log_filters.store.filters.get(5).unwrap(), &expected);
    assert_eq!(log_filters.store.words_hash.get(&"xyz".to_string()).unwrap(), &vec![5]);

    // second filter's alternative matches second word
    let mut log_filters = _init_test_data();
    log_filters.max_allowed_new_alternatives = 1;
    log_filters.min_req_consequent_matches = 3;
    log_filters.store.denote_optional = ".".to_string();
    //     0   1   2  |  3   4   5   6   7
    // w: ttt aaa uuu | xyz bbb ccc ddd vvv
    // f:     ttt aaa | uuu bbb ccc ddd vvv
    //         0   1  |  2   3   4   5   6
    // r:     ttt aaa | uuu bbb ccc ddd vvv
    //                  xyz
    let words = _words_vector_from_string("ttt aaa uuu xyz bbb ccc ddd vvv");
    assert_eq!(log_filters._normalise_lengths_before_first_match(&words, 5, 3, 2), (4, 3));
    let mut expected = _simple_filter_from_string("ttt aaa uuu bbb ccc ddd vvv");
    expected = _add_word_alternative(expected, 2, "xyz");
    assert_eq!(log_filters.store.filters.get(5).unwrap(), &expected);
    assert_eq!(log_filters.store.words_hash.get(&"xyz".to_string()).unwrap(), &vec![5]);

    // words missing first alternative and second alternative with new option
    let mut log_filters = _init_test_data();
    log_filters.max_allowed_new_alternatives = 1;
    log_filters.min_req_consequent_matches = 3;
    log_filters.store.denote_optional = ".".to_string();
    //     0   1   2  |  3   4   5   6
    // w: ttt aaa fff | xyz ccc ddd vvv
    // f:     ttt aaa | uuu bbb ccc ddd vvv
    //         0   1  |  2   3   4   5   6
    // r:     ttt aaa | uuu bbb ccc ddd vvv
    //                   .  xyz
    let words = _words_vector_from_string("ttt aaa fff xyz ccc ddd vvv");
    assert_eq!(log_filters._normalise_lengths_before_first_match(&words, 5, 3, 2), (4, 4));
    let mut expected = _simple_filter_from_string("ttt aaa uuu bbb ccc ddd vvv");
    expected = _add_word_alternative(expected, 2, ".");
    expected = _add_word_alternative(expected, 3, "xyz");
    assert_eq!(log_filters.store.filters.get(5).unwrap(), &expected);
    assert_eq!(log_filters.store.words_hash.get(&"xyz".to_string()).unwrap(), &vec![5]);

    // no matches
    let mut log_filters = _init_test_data();
    log_filters.max_allowed_new_alternatives = 1;
    log_filters.min_req_consequent_matches = 3;
    log_filters.store.denote_optional = ".".to_string();
    let words = _words_vector_from_string("xyz foo bar baz");
    assert_eq!(log_filters._normalise_lengths_before_first_match(&words, 5, 3, 2), (-1, -1));
    let expected = _simple_filter_from_string("ttt aaa uuu bbb ccc ddd vvv");
    assert_eq!(log_filters.store.filters.get(5).unwrap(), &expected);

    // first word matching last filter alternative while a match further left exists
    let mut log_filters = _init_test_data();
    log_filters.max_allowed_new_alternatives = 1;
    log_filters.min_req_consequent_matches = 3;
    log_filters.store.denote_optional = ".".to_string();
    //     0   1   2  |  3   4   5   6   7   8
    // w: aaa bbb ccc | lll ddd eee fff ggg hhh
    // f:     aaa bbb | ccc ddd eee fff ggg hhh
    //                                      lll
    //         0   1  |  2   3   4   5   6   7
    // r:     aaa bbb | ccc ddd eee fff ggg hhh
    //                  lll                 lll
    let words = _words_vector_from_string("aaa bbb ccc lll ddd eee fff ggg hhh");
    let new_filter = _simple_filter_from_string("aaa bbb ccc ddd eee fff ggg hhh");
    let new_filter = _add_word_alternative(new_filter, 7, "lll");
    _add_test_filter(&mut log_filters, new_filter);
    assert_eq!(log_filters._normalise_lengths_before_first_match(&words, 6, 3, 2), (4, 3));
    let mut expected = _simple_filter_from_string("aaa bbb ccc ddd eee fff ggg hhh");
    expected = _add_word_alternative(expected, 2, "lll");
    expected = _add_word_alternative(expected, 7, "lll");
    assert_eq!(log_filters.store.filters.get(6).unwrap(), &expected);
}

#[test]
fn _get_indexes_of_earliest_matching_word() {
    let mut log_filters = LogFilters::new();
    // Test empty words vector on empty filters
    assert_eq!(log_filters._get_indexes_of_earliest_matching_word(&vec![], 0, 0, 0), (-1, -1));
    // Test valid words vector on empty filters
    let words = _words_vector_from_string("aaa bbb ccc ddd");
    assert_eq!(log_filters._get_indexes_of_earliest_matching_word(&words, 0, 0, 0), (-1, -1));
    // Test valid words vector on empty filter
    log_filters.store.filters.push(vec![]);
    assert_eq!(log_filters._get_indexes_of_earliest_matching_word(&words, 0, 0, 0), (-1, -1));

    // Tests covering when both filter and words vector start from column 0
    let mut log_filters = _init_test_data();
    log_filters.max_allowed_new_alternatives = 1;
    log_filters.min_req_consequent_matches = 3;
    // Test empty words vector on valid filters
    assert_eq!(log_filters._get_indexes_of_earliest_matching_word(&vec![], 0, 0, 0), (-1, -1));
    // both filter and words vector match first word
    let words = _words_vector_from_string("aaa bbb ccc ddd");
    assert_eq!(log_filters._get_indexes_of_earliest_matching_word(&words, 0, 0, 0), (0, 0));
    // first filter's alternative matches second word
    let words = _words_vector_from_string("xyz aaa ccc ddd");
    assert_eq!(log_filters._get_indexes_of_earliest_matching_word(&words, 0, 0, 0), (1, 0));
    // second filter's alternative matches second word
    let words = _words_vector_from_string("xyz bbb ccc ddd");
    assert_eq!(log_filters._get_indexes_of_earliest_matching_word(&words, 0, 0, 0), (1, 1));
    // first word matching last filter alternative while a match further left exists
    let words = _words_vector_from_string("sss aaa ccc ddd");
    assert_eq!(log_filters._get_indexes_of_earliest_matching_word(&words, 0, 0, 0), (1, 0));
    // words missing first alternative and second alternative with new option
    let words = _words_vector_from_string("bar ccc sss");
    assert_eq!(log_filters._get_indexes_of_earliest_matching_word(&words, 0, 0, 0), (1, 2));
    // no matches
    let words = _words_vector_from_string("xyz");
    assert_eq!(log_filters._get_indexes_of_earliest_matching_word(&words, 0, 0, 0), (-1, -1));

    // Tests covering when both filter and words vector do not start from column 0 but both are the same indexes
    let mut log_filters = _init_test_data();
    log_filters.max_allowed_new_alternatives = 1;
    log_filters.min_req_consequent_matches = 3;
    // Test empty words vector on valid filters
    assert_eq!(log_filters._get_indexes_of_earliest_matching_word(&vec![], 0, 2, 2), (-1, -1));
    // both filter and words vector match first word
    let words = _words_vector_from_string("aaa bbb ccc ddd");
    assert_eq!(log_filters._get_indexes_of_earliest_matching_word(&words, 0, 2, 2), (2, 2));
    // first filter's alternative matches second word
    let words = _words_vector_from_string("aaa bbb xyz ccc");
    assert_eq!(log_filters._get_indexes_of_earliest_matching_word(&words, 0, 2, 2), (3, 2));
    // second filter's alternative matches second word
    let words = _words_vector_from_string("aaa bbb xyz ddd");
    assert_eq!(log_filters._get_indexes_of_earliest_matching_word(&words, 0, 2, 2), (3, 3));
    // words missing first alternative and second alternative with new option
    let words = _words_vector_from_string("aaa bar ddd");
    assert_eq!(log_filters._get_indexes_of_earliest_matching_word(&words, 0, 1, 1), (2, 3));
    // no matches
    let words = _words_vector_from_string("xyz foo bar baz");
    assert_eq!(log_filters._get_indexes_of_earliest_matching_word(&words, 0, 2, 2), (-1, -1));
    // first word matching last filter alternative while a match further left exists
    let words = _words_vector_from_string("aaa bbb lll ddd eee fff ggg hhh");
    let new_filter = _simple_filter_from_string("aaa bbb ccc ddd eee fff ggg hhh");
    let new_filter = _add_word_alternative(new_filter, 7, "lll");
    _add_test_filter(&mut log_filters, new_filter);
    assert_eq!(log_filters._get_indexes_of_earliest_matching_word(&words, 6, 2, 2), (3, 3));

    // Tests covering when both filter and words vector do not start from column 0 and both are different indexes
    let mut log_filters = _init_test_data();
    log_filters.max_allowed_new_alternatives = 1;
    log_filters.min_req_consequent_matches = 3;
    // Test empty words vector on valid filters
    assert_eq!(log_filters._get_indexes_of_earliest_matching_word(&vec![], 5, 3, 2), (-1, -1));
    // both filter and words vector match first word
    //     0   1   2  |  3   4   5   6
    // w: ttt aaa kkk | uuu ccc ddd vvv
    // f:     ttt aaa | uuu bbb ccc ddd vvv
    //         0   1  |  2   3   4   5   6
    let words = _words_vector_from_string("ttt aaa kkk uuu ccc ddd vvv");
    assert_eq!(log_filters._get_indexes_of_earliest_matching_word(&words, 5, 3, 2), (3, 2));
    // first filter's alternative matches second word
    //     0   1   2  |  3   4   5   6   7   8
    // w: ttt aaa uuu | xyz uuu bbb ccc ddd vvv
    // f:     ttt aaa | uuu bbb ccc ddd vvv
    //         0   1  |  2   3   4   5   6
    let words = _words_vector_from_string("ttt aaa uuu xyz uuu bbb ccc ddd vvv");
    assert_eq!(log_filters._get_indexes_of_earliest_matching_word(&words, 5, 3, 2), (4, 2));
    // second filter's alternative matches second word
    //     0   1   2  |  3   4   5   6   7
    // w: ttt aaa uuu | fff bbb ccc ddd vvv
    // f:     ttt aaa | uuu bbb ccc ddd vvv
    //         0   1  |  2   3   4   5   6
    let words = _words_vector_from_string("ttt aaa uuu fff bbb ccc ddd vvv");
    assert_eq!(log_filters._get_indexes_of_earliest_matching_word(&words, 5, 3, 2), (4, 3));
    // words missing first alternative and second alternative with new option
    //     0   1   2  |  3   4   5   6
    // w: ttt aaa fff | xyz ccc ddd vvv
    // f:     ttt aaa | uuu bbb ccc ddd vvv
    //         0   1  |  2   3   4   5   6
    let words = _words_vector_from_string("ttt aaa fff xyz ccc ddd vvv");
    assert_eq!(log_filters._get_indexes_of_earliest_matching_word(&words, 5, 3, 2), (4, 4));
    // no matches
    let words = _words_vector_from_string("xyz foo bar baz");
    assert_eq!(log_filters._get_indexes_of_earliest_matching_word(&words, 5, 3, 2), (-1, -1));
    // first word matching last filter alternative while a match further left exists
    //     0   1   2  |  3   4   5   6   7   8
    // w: aaa bbb ccc | lll ddd eee fff ggg hhh
    // f:     aaa bbb | ccc ddd eee fff ggg hhh
    //                                      lll
    //         0   1  |  2   3   4   5   6   7
    let words = _words_vector_from_string("aaa bbb ccc lll ddd eee fff ggg hhh");
    let new_filter = _simple_filter_from_string("aaa bbb ccc ddd eee fff ggg hhh");
    let new_filter = _add_word_alternative(new_filter, 7, "lll");
    _add_test_filter(&mut log_filters, new_filter);
    assert_eq!(log_filters._get_indexes_of_earliest_matching_word(&words, 6, 3, 2), (4, 3));
    // same filter, matching last word
    //     0   1   2   3   4   5   6   7  |  8
    // w: aaa bbb ccc lll ddd eee fff ggg | hhh
    // f:     aaa bbb ccc ddd eee fff ggg | hhh
    //                                    | lll
    //         0   1   2   3   4   5   6     7
    assert_eq!(log_filters._get_indexes_of_earliest_matching_word(&words, 6, 8, 7), (8, 7));
}

#[test]
fn _add_filter() {
    // Test what happens if method was used on empty data structure
    let mut log_filters = LogFilters::new();
    log_filters._add_filter(_words_vector_from_string("aaa bbb ccc"));
    assert_eq!(log_filters.store.words_hash.get(&"aaa".to_string()).unwrap(), &vec![0]);
    assert_eq!(log_filters.store.words_hash.get(&"bbb".to_string()).unwrap(), &vec![0]);
    assert_eq!(log_filters.store.words_hash.get(&"ccc".to_string()).unwrap(), &vec![0]);
    assert_eq!(log_filters.store.filters.get(0).unwrap(), &_simple_filter_from_string("aaa bbb ccc"));
    // _add_filter does not check if filter already exists
    log_filters._add_filter(_words_vector_from_string("aaa bbb ccc"));
    assert_eq!(log_filters.store.words_hash.get(&"aaa".to_string()).unwrap(), &vec![0, 1]);
    assert_eq!(log_filters.store.words_hash.get(&"bbb".to_string()).unwrap(), &vec![0, 1]);
    assert_eq!(log_filters.store.words_hash.get(&"ccc".to_string()).unwrap(), &vec![0, 1]);
    assert_eq!(log_filters.store.filters.get(1).unwrap(), &_simple_filter_from_string("aaa bbb ccc"));
}

#[test]
fn _update_hash() {
    // Test what happens if method was used on empty data structure
    let mut log_filters = LogFilters::new();
    let word = "xxx".to_string();
    log_filters._update_hash(&word, 0);
    assert_eq!(log_filters.store.words_hash.get(&word).is_some(), false);

    let mut log_filters = _init_test_data();
    // Trying to add a word not found in any filter
    let word = "xyz".to_string();
    log_filters._update_hash(&word, 0);
    assert_eq!(log_filters.store.words_hash.get(&word).is_some(), false);
    // Trying to add already existing word should change nothing
    let word = "aaa".to_string();
    assert_eq!(log_filters.store.words_hash.get(&word).unwrap(), &vec![0, 4, 5]);
    log_filters._update_hash(&word, 0);
    assert_eq!(log_filters.store.words_hash.get(&word).unwrap(), &vec![0, 4, 5]);
    // Adding new word to hash just after new filter was added
    let word = "xyz".to_string();
    log_filters.store.filters.push(_simple_filter_from_string(&word));
    let last_index : usize = log_filters.store.filters.len() - 1;
    assert_eq!(log_filters.store.words_hash.get(&word).is_some(), false);
    log_filters._update_hash(&word, last_index);
    assert_eq!(log_filters.store.words_hash.get(&word).unwrap(), &vec![last_index]);
    // Adding new word to hash when extending existing filter
    let word = "iii".to_string();
    log_filters.store.filters[0].push(vec![word.clone()]);
    assert_eq!(log_filters.store.words_hash.get(&word).unwrap(), &vec![2]);
    log_filters._update_hash(&word, 0);
    assert_eq!(log_filters.store.words_hash.get(&word).unwrap(), &vec![0, 2]);
}

#[test]
fn _is_word_in_filter() {
    let log_filters = _init_test_data();
    assert_eq!(log_filters._is_word_in_filter(&"aaa".to_string(), 0), true);
    assert_eq!(log_filters._is_word_in_filter(&"aaa".to_string(), 4), true);
    assert_eq!(log_filters._is_word_in_filter(&"hhh".to_string(), 1), true);
    assert_eq!(log_filters._is_word_in_filter(&"aaa".to_string(), 1), false);
    assert_eq!(log_filters._is_word_in_filter(&"xxx".to_string(), 2), false);
    assert_eq!(log_filters._is_word_in_filter(&"xxx".to_string(), log_filters.store.filters.len()), false);
    assert_eq!(log_filters._is_word_in_filter(&"".to_string(), 0), false);
}
