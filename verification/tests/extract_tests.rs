use tf_idf_indexer::ErrorKind;
use tf_idf_indexer::codec::{index_to_json, load_index_file};
use tf_idf_indexer::extract::{extract_text, index_markup};
use tf_idf_indexer::index::CorpusIndex;
use tf_idf_indexer::has_extension;

fn chars(s: &str) -> Vec<char> {
    s.chars().collect()
}

fn text(v: &[char]) -> String {
    v.iter().collect()
}

#[test]
fn extraction_yields_character_data_with_separators() {
    let t = extract_text(b"<r>hi</r>").expect("well-formed markup");
    assert_eq!(text(&t), "hi ");
}

#[test]
fn adjacent_text_nodes_do_not_fuse() {
    let tf = index_markup(b"<r><a>x</a><a>y</a></r>").expect("well-formed markup");
    assert_eq!(tf.get(&chars("x")), Some(1));
    assert_eq!(tf.get(&chars("y")), Some(1));
    assert_eq!(tf.get(&chars("xy")), None);
}

#[test]
fn markup_document_is_tokenized_and_counted() {
    let tf = index_markup(b"<p>a a b</p>").expect("well-formed markup");
    assert_eq!(tf.get(&chars("a")), Some(2));
    assert_eq!(tf.get(&chars("b")), Some(1));
    assert_eq!(tf.len(), 2);
}

#[test]
fn tags_are_not_terms() {
    let tf = index_markup(b"<html><body>only words</body></html>").expect("markup");
    assert_eq!(tf.get(&chars("only")), Some(1));
    assert_eq!(tf.get(&chars("words")), Some(1));
    assert_eq!(tf.get(&chars("html")), None);
    assert_eq!(tf.get(&chars("body")), None);
}

#[test]
fn malformed_markup_is_a_parse_error() {
    assert_eq!(index_markup(b"<unclosed>").unwrap_err(), ErrorKind::Parse);
    assert_eq!(index_markup(b"not xml at all").unwrap_err(), ErrorKind::Parse);
}

#[test]
fn extension_filter_selects_eligible_files() {
    let ext = chars("xhtml");
    assert!(has_extension(&chars("docs/a.xhtml"), &ext));
    assert!(has_extension(&chars("a.xhtml"), &ext));
    assert!(has_extension(&chars("b.c.xhtml"), &ext));
    assert!(!has_extension(&chars("a.html"), &ext));
    assert!(!has_extension(&chars(".xhtml"), &ext));
    assert!(!has_extension(&chars("dir/.xhtml"), &ext));
    assert!(!has_extension(&chars("xhtml"), &ext));
    assert!(!has_extension(&chars("a.xhtml.bak"), &ext));
}

// Two eligible documents, one of which cannot be indexed: the persisted
// index holds exactly the readable document's frequencies, and the run
// reports one failure.
#[test]
fn partial_failure_keeps_the_readable_document() {
    let good: &[u8] = b"<p>a a b</p>";
    let bad: &[u8] = b"<p>a a b";  // truncated: the parser rejects it
    let mut ci = CorpusIndex::new();
    let mut failed = 0usize;
    for (path, bytes) in [("good.xhtml", good), ("bad.xhtml", bad)] {
        match index_markup(bytes) {
            Ok(tf) => {
                assert!(ci.insert_document(chars(path), tf));
            },
            Err(_) => failed += 1,
        }
    }
    assert_eq!(failed, 1);
    assert_eq!(ci.len(), 1);
    let saved = index_to_json(&ci);
    assert_eq!(text(&saved), "{\"good.xhtml\":{\"a\":2,\"b\":1}}");
    let loaded = load_index_file(&saved).expect("canonical text loads");
    assert_eq!(loaded, ci);
}
