use word_finder::index::Index;
use word_finder::search::find_words_q;

fn index_of(words: &[&str]) -> Index {
    let words: Vec<String> = words.iter().map(|w| w.to_string()).collect();
    Index::build(&words)
}

fn strings(words: &[&str]) -> Vec<String> {
    words.iter().map(|w| w.to_string()).collect()
}

fn sample() -> Index {
    index_of(&["cat", "act", "at", "a", "tack", "tacks"])
}

#[test]
fn longest_match_excludes_shorter_ones() {
    let index = sample();
    assert_eq!(find_words_q(&index, "tack"), Some(strings(&["tack"])));
}

#[test]
fn equal_length_matches_come_alphabetically() {
    let index = sample();
    assert_eq!(find_words_q(&index, "act"), Some(strings(&["act", "cat"])));
}

#[test]
fn letters_in_any_order_give_the_same_matches() {
    let index = sample();
    assert_eq!(find_words_q(&index, "kcat"), Some(strings(&["tack"])));
    assert_eq!(find_words_q(&index, "tca"), Some(strings(&["act", "cat"])));
}

#[test]
fn extra_letters_are_left_over() {
    let index = sample();
    assert_eq!(find_words_q(&index, "xtackz"), Some(strings(&["tack"])));
    assert_eq!(find_words_q(&index, "skcatq"), Some(strings(&["tacks"])));
}

#[test]
fn single_letter_query_finds_one_letter_word() {
    let index = sample();
    assert_eq!(find_words_q(&index, "a"), Some(strings(&["a"])));
}

#[test]
fn query_without_matches_reports_none() {
    let index = sample();
    assert_eq!(find_words_q(&index, "zzq"), None);
}

#[test]
fn empty_query_reports_none() {
    let index = sample();
    assert_eq!(find_words_q(&index, ""), None);
}

#[test]
fn empty_index_reports_none() {
    let index = Index::new();
    assert_eq!(find_words_q(&index, "tack"), None);
}

#[test]
fn repeated_letter_needs_repeated_query_letter() {
    let index = index_of(&["tacks", "stacks"]);
    assert_eq!(find_words_q(&index, "tacks"), Some(strings(&["tacks"])));
    assert_eq!(find_words_q(&index, "stacks"), Some(strings(&["stacks"])));
    assert_eq!(find_words_q(&index, "sstack"), Some(strings(&["stacks"])));
}

#[test]
fn duplicate_words_are_reported_once() {
    let index = index_of(&["cat", "cat", "act", "cat"]);
    assert_eq!(find_words_q(&index, "tac"), Some(strings(&["act", "cat"])));
}

#[test]
fn ties_are_sorted_alphabetically_whatever_the_insertion_order() {
    let index = index_of(&["tab", "bat", "abt"]);
    assert_eq!(find_words_q(&index, "bta"), Some(strings(&["abt", "bat", "tab"])));
}

#[test]
fn longest_match_is_kept_from_any_position_in_the_index() {
    let index = index_of(&["a", "ab", "abc", "b"]);
    assert_eq!(find_words_q(&index, "cba"), Some(strings(&["abc"])));
    assert_eq!(find_words_q(&index, "ba"), Some(strings(&["ab"])));
    assert_eq!(find_words_q(&index, "bx"), Some(strings(&["b"])));
    let index = index_of(&["b", "abc", "ab", "a"]);
    assert_eq!(find_words_q(&index, "cba"), Some(strings(&["abc"])));
}

#[test]
fn repeated_queries_give_identical_results() {
    let index = sample();
    let first = find_words_q(&index, "tacks");
    let second = find_words_q(&index, "tacks");
    assert_eq!(first, second);
    assert_eq!(first, Some(strings(&["tacks"])));
}

#[test]
fn every_result_fits_the_letters() {
    let index = index_of(&["tea", "eat", "ate", "tee", "eta", "at"]);
    assert_eq!(find_words_q(&index, "eta"), Some(strings(&["ate", "eat", "eta", "tea"])));
    assert_eq!(find_words_q(&index, "etx"), None);
}

#[test]
fn case_is_kept_as_given() {
    let index = index_of(&["Cat", "act"]);
    assert_eq!(find_words_q(&index, "act"), Some(strings(&["act"])));
    assert_eq!(find_words_q(&index, "Cta"), Some(strings(&["Cat"])));
}

#[test]
fn non_ascii_letters_are_matched() {
    let index = index_of(&["été", "té"]);
    assert_eq!(find_words_q(&index, "tééx"), Some(strings(&["été"])));
    assert_eq!(find_words_q(&index, "ét"), Some(strings(&["té"])));
}
