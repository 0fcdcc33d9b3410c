use std::collections::BTreeMap;

use tf_idf_indexer::ErrorKind;
use tf_idf_indexer::codec::{index_to_json, json_to_index, load_index_file};
use tf_idf_indexer::index::{CorpusIndex, TermFreq, index_document};

fn chars(s: &str) -> Vec<char> {
    s.chars().collect()
}

fn text(v: &[char]) -> String {
    v.iter().collect()
}

fn one_doc_index() -> CorpusIndex {
    let mut ci = CorpusIndex::new();
    let tf = index_document(&chars("a a b"));
    assert!(ci.insert_document(chars("doc.xhtml"), tf));
    ci
}

#[test]
fn serialization_has_the_documented_shape() {
    let out = index_to_json(&one_doc_index());
    assert_eq!(text(&out), "{\"doc.xhtml\":{\"a\":2,\"b\":1}}");
}

#[test]
fn empty_index_serializes_to_empty_object() {
    let out = index_to_json(&CorpusIndex::new());
    assert_eq!(text(&out), "{}");
    let back = json_to_index(&out).expect("empty object loads");
    assert_eq!(back.len(), 0);
}

#[test]
fn round_trip_restores_the_index() {
    let mut ci = CorpusIndex::new();
    assert!(ci.insert_document(chars("a.xhtml"), index_document(&chars("x y x"))));
    assert!(ci.insert_document(chars("dir/b.xhtml"), index_document(&chars("1999text &"))));
    assert!(ci.insert_document(chars("empty.xhtml"), index_document(&chars(""))));
    let saved = index_to_json(&ci);
    let loaded = load_index_file(&saved).expect("canonical text loads");
    assert_eq!(loaded, ci);
}

#[test]
fn round_trip_survives_quotes_backslashes_and_emoji() {
    let mut ci = CorpusIndex::new();
    let tf = index_document(&chars("\" \\ \u{1f980}"));
    assert!(ci.insert_document(chars("we\"ird\\path"), tf));
    let saved = index_to_json(&ci);
    let loaded = load_index_file(&saved).expect("escaped text loads");
    assert_eq!(loaded, ci);
    let tf2 = loaded.get(&chars("we\"ird\\path")).expect("path survives");
    assert_eq!(tf2.get(&chars("\"")), Some(1));
    assert_eq!(tf2.get(&chars("\\")), Some(1));
    assert_eq!(tf2.get(&chars("\u{1f980}")), Some(1));
}

#[test]
fn malformed_documents_are_rejected() {
    for bad in [
        "",
        "   ",
        "{",
        "}",
        "{}x",
        "{} {}",
        "{\"a\"}",
        "{\"a\":}",
        "{\"a\":{}",
        "{\"a\":{},}",
        "{\"a\":{\"t\":}}",
        "{\"a\":{\"t\":1}",
        "{\"a\":{\"t\":1x}}",
        "{\"unterminated",
        "{\"bad\\q\":{}}",
        "{\"bad\\u00\":{}}",
        "{\"bad\\u00zz\":{}}",
        "{\"lone\\ud800\":{}}",
    ] {
        assert_eq!(json_to_index(&chars(bad)), Err(ErrorKind::Serialization), "input: {bad}");
    }
}

#[test]
fn blanks_between_tokens_are_accepted() {
    let ci = json_to_index(&chars(" { } ")).expect("blank-padded empty object loads");
    assert_eq!(ci.len(), 0);
    let ci = json_to_index(&chars("{ \"a\" : { \"t\" : 2 } ,\n\t\"b\" : {} }"))
        .expect("blank-padded document loads");
    assert_eq!(ci.len(), 2);
    let tf = ci.get(&chars("a")).expect("a present");
    assert_eq!(tf.get(&chars("t")), Some(2));
    let tfb = ci.get(&chars("b")).expect("b present");
    assert_eq!(tfb.len(), 0);
}

#[test]
fn standard_string_escapes_are_decoded() {
    let ci = json_to_index(&chars(
        "{\"a\\nb\":{\"\\u0041\":1,\"\\t\":2,\"\\/\":3,\"\\u00e9\":4}}",
    ))
    .expect("escaped document loads");
    let tf = ci.get(&chars("a\nb")).expect("escaped path decodes");
    assert_eq!(tf.get(&chars("A")), Some(1));
    assert_eq!(tf.get(&chars("\t")), Some(2));
    assert_eq!(tf.get(&chars("/")), Some(3));
    assert_eq!(tf.get(&chars("\u{e9}")), Some(4));
}

#[test]
fn zero_counts_and_duplicate_keys_are_rejected() {
    assert_eq!(json_to_index(&chars("{\"a\":{\"t\":0}}")), Err(ErrorKind::Serialization));
    assert_eq!(
        json_to_index(&chars("{\"a\":{},\"a\":{}}")),
        Err(ErrorKind::Serialization)
    );
    assert_eq!(
        json_to_index(&chars("{\"a\":{\"t\":1,\"t\":2}}")),
        Err(ErrorKind::Serialization)
    );
}

#[test]
fn loading_a_handwritten_document_works() {
    let ci = json_to_index(&chars("{\"d\":{\"cat\":3,\"dog\":1}}")).expect("loads");
    assert_eq!(ci.len(), 1);
    let tf = ci.get(&chars("d")).expect("d present");
    assert_eq!(tf.get(&chars("cat")), Some(3));
    assert_eq!(tf.get(&chars("dog")), Some(1));
}

#[test]
fn oversized_counts_are_rejected() {
    let too_big = format!("{{\"d\":{{\"t\":{}0}}}}", usize::MAX);
    assert_eq!(json_to_index(&chars(&too_big)), Err(ErrorKind::Serialization));
    let max = format!("{{\"d\":{{\"t\":{}}}}}", usize::MAX);
    let ci = json_to_index(&chars(&max)).expect("largest count loads");
    let tf = ci.get(&chars("d")).expect("d present");
    assert_eq!(tf.get(&chars("t")), Some(usize::MAX));
}

#[test]
fn control_characters_are_escaped_and_round_trip() {
    let mut ci = CorpusIndex::new();
    let tf = index_document(&chars("x\u{1}x \u{1f}"));
    assert!(ci.insert_document(chars("ctl\u{2}.xhtml"), tf));
    let saved = text(&index_to_json(&ci));
    assert!(!saved.contains('\u{1}'));
    assert!(saved.contains("\\u0001"));
    assert!(saved.contains("\\u001f"));
    assert!(saved.contains("\\u0002"));
    let parsed: BTreeMap<String, BTreeMap<String, usize>> =
        serde_json::from_str(&saved).expect("valid JSON despite control characters");
    assert_eq!(parsed["ctl\u{2}.xhtml"]["\u{1}"], 1);
    assert_eq!(parsed["ctl\u{2}.xhtml"]["\u{1f}"], 1);
    assert_eq!(parsed["ctl\u{2}.xhtml"]["x"], 2);
    let loaded = load_index_file(&chars(&saved)).expect("own output loads");
    assert_eq!(loaded, ci);
}

#[test]
fn serialization_is_plain_json() {
    let mut ci = CorpusIndex::new();
    assert!(ci.insert_document(chars("d one.xhtml"), index_document(&chars("a a b \" \\"))));
    assert!(ci.insert_document(chars("two.xhtml"), index_document(&chars("z"))));
    let saved = text(&index_to_json(&ci));
    let parsed: BTreeMap<String, BTreeMap<String, usize>> =
        serde_json::from_str(&saved).expect("valid JSON");
    assert_eq!(parsed.len(), 2);
    assert_eq!(parsed["d one.xhtml"]["a"], 2);
    assert_eq!(parsed["d one.xhtml"]["b"], 1);
    assert_eq!(parsed["d one.xhtml"]["\""], 1);
    assert_eq!(parsed["d one.xhtml"]["\\"], 1);
    assert_eq!(parsed["two.xhtml"]["z"], 1);
}
