use textprims::bayes::naive_bayes::NaiveBayes;
use textprims::persist::json::{from_json, to_json, to_json_pretty};

fn trained() -> NaiveBayes {
    let mut nb = NaiveBayes::new();
    nb.train("A".to_string(), vec!["aaa", "bbb", "aaa"]);
    nb.train("B".to_string(), vec!["ccc"]);
    nb.train("B".to_string(), vec![]);
    nb
}

fn tables_equal(a: &NaiveBayes, b: &NaiveBayes) {
    assert_eq!(a.label_list(), b.label_list());
    for label in a.label_list() {
        assert_eq!(a.doc_count_of(&label), b.doc_count_of(&label));
        assert_eq!(a.token_total_of(&label), b.token_total_of(&label));
        for token in ["aaa", "bbb", "ccc", "zzz"] {
            assert_eq!(a.token_count_of(&label, token), b.token_count_of(&label, token));
        }
    }
}

#[test]
fn test_compact_output() {
    let nb = trained();
    assert_eq!(
        to_json(&nb),
        "{\"train_counts\":{\"A\":1,\"B\":2},\
         \"token_counts\":{\"A\":{\"aaa\":2,\"bbb\":1},\"B\":{\"ccc\":1}},\
         \"total_counts\":{\"A\":3,\"B\":1}}"
    );
}

#[test]
fn test_round_trip_compact() {
    let nb = trained();
    let text = to_json(&nb);
    let back = from_json(&text).expect("document written by to_json must load");
    tables_equal(&nb, &back);
}

#[test]
fn test_round_trip_pretty() {
    let nb = trained();
    let text = to_json_pretty(&nb);
    let back = from_json(&text).expect("document written by to_json_pretty must load");
    tables_equal(&nb, &back);
}

#[test]
fn test_round_trip_empty() {
    let nb = NaiveBayes::new();
    let back = from_json(&to_json(&nb)).expect("empty classifier must load");
    assert!(back.label_list().is_empty());
}

#[test]
fn test_escaped_labels() {
    let mut nb = NaiveBayes::new();
    nb.train("a \"b\"\\c\n\t\u{1}".to_string(), vec!["t\u{1f600}k", ""]);
    let back = from_json(&to_json(&nb)).expect("escaped labels must survive");
    assert_eq!(back.doc_count_of("a \"b\"\\c\n\t\u{1}"), Some(1));
    assert_eq!(back.token_count_of("a \"b\"\\c\n\t\u{1}", "t\u{1f600}k"), Some(1));
    let pretty = to_json_pretty(&nb);
    let back2 = from_json(&pretty).expect("pretty escaped labels must survive");
    assert_eq!(back2.token_count_of("a \"b\"\\c\n\t\u{1}", ""), Some(1));
}

#[test]
fn test_serde_compat() {
    // The emitted document is plain JSON: an independent parser reads it
    // back with the same numbers.
    let nb = trained();
    let text = to_json(&nb);
    let v: serde_json::Value = serde_json::from_str(&text).expect("valid JSON");
    assert_eq!(v["train_counts"]["B"], serde_json::Value::from(2u64));
    assert_eq!(v["token_counts"]["A"]["aaa"], serde_json::Value::from(2u64));
    assert_eq!(v["total_counts"]["A"], serde_json::Value::from(3u64));

    let pretty = to_json_pretty(&nb);
    let vp: serde_json::Value = serde_json::from_str(&pretty).expect("valid pretty JSON");
    assert_eq!(v, vp);
}

#[test]
fn test_serde_written_document_loads() {
    // A document written by serde_json from equivalent maps loads to the
    // same tables, whatever key order serde chose.
    let text = "{\"train_counts\":{\"B\":2,\"A\":1},\
                \"token_counts\":{\"A\":{\"aaa\":2,\"bbb\":1},\"B\":{\"ccc\":1}},\
                \"total_counts\":{\"B\":1,\"A\":3}}";
    let back = from_json(text).expect("reordered tables must load");
    assert_eq!(back.doc_count_of("A"), Some(1));
    assert_eq!(back.doc_count_of("B"), Some(2));
    assert_eq!(back.token_total_of("A"), Some(3));
}

#[test]
fn test_malformed_documents_rejected() {
    assert!(from_json("").is_err());
    assert!(from_json("{}").is_err());
    assert!(from_json("not json").is_err());
    // unknown field in place of a known one is a hard error
    assert!(from_json("{\"train_counts\":{},\"word_counts\":{},\"total_counts\":{}}").is_err());
    // missing field
    assert!(from_json("{\"train_counts\":{},\"token_counts\":{}}").is_err());
    // trailing garbage
    assert!(from_json("{\"train_counts\":{},\"token_counts\":{},\"total_counts\":{}}x").is_err());
}

#[test]
fn test_inconsistent_documents_rejected() {
    // total does not match the token counts
    assert!(from_json(
        "{\"train_counts\":{\"A\":1},\"token_counts\":{\"A\":{\"x\":1}},\"total_counts\":{\"A\":2}}"
    ).is_err());
    // label sets differ
    assert!(from_json(
        "{\"train_counts\":{\"A\":1},\"token_counts\":{\"B\":{}},\"total_counts\":{\"A\":0}}"
    ).is_err());
    // zero document count
    assert!(from_json(
        "{\"train_counts\":{\"A\":0},\"token_counts\":{\"A\":{}},\"total_counts\":{\"A\":0}}"
    ).is_err());
    // duplicate key
    assert!(from_json(
        "{\"train_counts\":{\"A\":1,\"A\":1},\"token_counts\":{\"A\":{}},\"total_counts\":{\"A\":0,\"A\":0}}"
    ).is_err());
}

#[test]
fn test_whitespace_tolerated() {
    let text = " {\n \"train_counts\" : { \"A\" : 1 } ,\n \"token_counts\" : { \"A\" : { } } ,\n \"total_counts\" : { \"A\" : 0 } }\n";
    let back = from_json(text).expect("whitespace between tokens must be tolerated");
    assert_eq!(back.doc_count_of("A"), Some(1));
    assert_eq!(back.token_total_of("A"), Some(0));
}
