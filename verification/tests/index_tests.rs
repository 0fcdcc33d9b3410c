use tf_idf_indexer::index::{CorpusIndex, TermFreq, index_document, merge_results};

fn chars(s: &str) -> Vec<char> {
    s.chars().collect()
}

fn count(tf: &TermFreq, term: &str) -> Option<usize> {
    tf.get(&chars(term))
}

#[test]
fn three_occurrences_count_exactly_three() {
    let tf = index_document(&chars("cat dog cat bird cat"));
    assert_eq!(count(&tf, "cat"), Some(3));
    assert_eq!(count(&tf, "dog"), Some(1));
    assert_eq!(count(&tf, "bird"), Some(1));
    assert_eq!(count(&tf, "fish"), None);
}

#[test]
fn first_occurrence_counts_once_not_twice() {
    let tf = index_document(&chars("cat"));
    assert_eq!(count(&tf, "cat"), Some(1));
    assert_eq!(tf.len(), 1);
}

#[test]
fn empty_text_gives_empty_table() {
    let tf = index_document(&chars("  \n "));
    assert_eq!(tf.len(), 0);
}

#[test]
fn terms_are_case_sensitive_and_exact() {
    let tf = index_document(&chars("Cat cat CAT"));
    assert_eq!(count(&tf, "Cat"), Some(1));
    assert_eq!(count(&tf, "cat"), Some(1));
    assert_eq!(count(&tf, "CAT"), Some(1));
    assert_eq!(tf.len(), 3);
}

#[test]
fn insert_document_keeps_first_write() {
    let mut ci = CorpusIndex::new();
    let first = index_document(&chars("a a"));
    let second = index_document(&chars("b"));
    assert!(ci.insert_document(chars("doc"), first));
    assert!(!ci.insert_document(chars("doc"), second));
    assert_eq!(ci.len(), 1);
    let tf = ci.get(&chars("doc")).expect("doc present");
    assert_eq!(count(tf, "a"), Some(2));
    assert_eq!(count(tf, "b"), None);
}

#[test]
fn merge_is_independent_of_completion_order() {
    let r1 = vec![
        (chars("one"), index_document(&chars("x"))),
        (chars("two"), index_document(&chars("y y"))),
        (chars("three"), index_document(&chars("z z z"))),
    ];
    let r2 = vec![
        (chars("three"), index_document(&chars("z z z"))),
        (chars("one"), index_document(&chars("x"))),
        (chars("two"), index_document(&chars("y y"))),
    ];
    let a = merge_results(r1);
    let b = merge_results(r2);
    assert_eq!(a.len(), 3);
    assert_eq!(b.len(), 3);
    for (path, term, n) in [("one", "x", 1), ("two", "y", 2), ("three", "z", 3)] {
        let ta = a.get(&chars(path)).expect("path in a");
        let tb = b.get(&chars(path)).expect("path in b");
        assert_eq!(count(ta, term), Some(n));
        assert_eq!(count(tb, term), Some(n));
    }
}
