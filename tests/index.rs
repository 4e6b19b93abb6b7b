use word_finder::index::Index;
use word_finder::signature::signature;

#[test]
fn signature_sorts_the_letters() {
    assert_eq!(signature("tack"), "ackt");
    assert_eq!(signature("tacks"), "ackst");
    assert_eq!(signature("cat"), "act");
    assert_eq!(signature(""), "");
    assert_eq!(signature("b"), "b");
}

#[test]
fn signature_keeps_repeated_letters() {
    assert_eq!(signature("stacks"), "acksst");
    assert_eq!(signature("banana"), "aaabnn");
}

#[test]
fn anagrams_share_a_signature() {
    assert_eq!(signature("listen"), signature("silent"));
    assert_eq!(signature("act"), signature("cat"));
    assert_ne!(signature("act"), signature("acts"));
}

#[test]
fn signature_is_case_sensitive_and_orders_by_code_point() {
    assert_eq!(signature("Cat"), "Cat");
    assert_eq!(signature("caT"), "Tac");
    assert_eq!(signature("éa"), "aé");
}

#[test]
fn build_groups_words_by_signature_in_insertion_order() {
    let words: Vec<String> = ["cat", "act", "at", "a", "tack", "tacks"]
        .iter()
        .map(|w| w.to_string())
        .collect();
    let index = Index::build(&words);
    assert_eq!(index.lookup("act"), Some(vec!["cat".to_string(), "act".to_string()]));
    assert_eq!(index.lookup("at"), Some(vec!["at".to_string()]));
    assert_eq!(index.lookup("a"), Some(vec!["a".to_string()]));
    assert_eq!(index.lookup("ackt"), Some(vec!["tack".to_string()]));
    assert_eq!(index.lookup("ackst"), Some(vec!["tacks".to_string()]));
    assert_eq!(index.lookup("cat"), None);
    assert_eq!(index.lookup("zz"), None);
}

#[test]
fn add_appends_duplicates() {
    let mut index = Index::new();
    index.add("cat");
    index.add("cat");
    index.add("act");
    assert_eq!(
        index.lookup("act"),
        Some(vec!["cat".to_string(), "cat".to_string(), "act".to_string()])
    );
}

#[test]
fn entries_without_a_word_are_skipped_and_counted() {
    let mut index = Index::new();
    let entries = vec![
        Some("tack".to_string()),
        None,
        Some("cat".to_string()),
        None,
        None,
    ];
    assert_eq!(index.add_entries(&entries), 3);
    assert_eq!(index.lookup("ackt"), Some(vec!["tack".to_string()]));
    assert_eq!(index.lookup("act"), Some(vec!["cat".to_string()]));
    assert_eq!(index.add_entries(&Vec::new()), 0);
}
