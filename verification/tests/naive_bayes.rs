use textprims::bayes::naive_bayes::NaiveBayes;

#[test]
fn naive_bayes_test_interface() {
    let nb: NaiveBayes = NaiveBayes::new();
    assert!(nb.label_list().is_empty(), "NaiveBayes::new() did not have a train_counts or is not empty.");
    assert!(nb.token_count_of("x", "y").is_none(), "NaiveBayes::new() did not have a token_counts or is not empty.");
    assert!(nb.token_total_of("x").is_none(), "NaiveBayes::new() did not have a total_counts or is not empty.");
}

#[test]
fn naive_bayes_test_train() {
    let mut nb: NaiveBayes = NaiveBayes::new();
    nb.train("A".to_string(), vec!["aaa", "bbb", "ccc", "ddd"]);
    nb.train("B".to_string(), vec!["ddd", "eee"]);
    assert_eq!(nb.doc_count_of("A"), Some(1));
    assert_eq!(nb.doc_count_of("B"), Some(1));
    nb.train("B".to_string(), vec!["eee", "fff"]);
    assert_eq!(nb.doc_count_of("B"), Some(2));

    let training_data = vec![
        ("A".to_string(), vec!["bbb", "xxx", "yyy"]),
        ("B".to_string(), vec!["eee", "yyy", "zzz"]),
        ("C".to_string(), vec!["iii", "jjj", "kkk", "lll"]),
        ("B".to_string(), vec!["eee", "ddd", "zzz"]),
    ];
    nb.bulk_train(training_data);
    assert_eq!(nb.doc_count_of("A"), Some(2));
    assert_eq!(nb.doc_count_of("B"), Some(4));
    assert_eq!(nb.doc_count_of("C"), Some(1));
    assert_eq!(nb.doc_count_of("X"), None);
}

#[test]
fn test_classify() {
    let mut nb: NaiveBayes = NaiveBayes::new();
    let training_data = vec![
        ("spam".to_string(), vec!["buy", "cheap", "meds"]),
        ("spam".to_string(), vec!["cheap", "pills", "offer"]),
        ("nospam".to_string(), vec!["offer", "let's", "meet", "for", "lunch", "tonight"]),
        ("nospam".to_string(), vec!["see", "you", "at", "the", "party", "tonight"]),
    ];
    nb.bulk_train(training_data);
    let spam_vector = vec!["cheap", "meds", "offer"];
    assert_eq!(nb.classify(&spam_vector), Some("spam".to_string()));

    let nospam_vector = vec!["meet", "lunch", "tonight"];
    assert_eq!(nb.classify(&nospam_vector), Some("nospam".to_string()));

    let ambiguous_vector = vec!["offer", "meet", "for", "lunch", "tonight"];
    assert_eq!(nb.classify(&ambiguous_vector), Some("nospam".to_string()));
}

#[test]
fn test_training_counts() {
    let mut nb = NaiveBayes::new();
    nb.train("A".to_string(), vec!["aaa", "bbb", "ccc", "ddd"]);
    nb.train("B".to_string(), vec!["ddd", "eee"]);
    nb.train("B".to_string(), vec!["eee", "fff"]);
    assert_eq!(nb.doc_count_of("A"), Some(1));
    assert_eq!(nb.doc_count_of("B"), Some(2));
    assert_eq!(nb.token_total_of("A"), Some(4));
    assert_eq!(nb.token_total_of("B"), Some(4));
    assert_eq!(nb.token_count_of("B", "eee"), Some(2));
    assert_eq!(nb.token_count_of("B", "ggg"), None);
}

#[test]
fn test_order_independence() {
    let mut nb1 = NaiveBayes::new();
    nb1.train("A".to_string(), vec!["x", "y"]);
    nb1.train("B".to_string(), vec!["y"]);
    nb1.train("A".to_string(), vec!["x"]);
    let mut nb2 = NaiveBayes::new();
    nb2.train("A".to_string(), vec!["x"]);
    nb2.train("A".to_string(), vec!["x", "y"]);
    nb2.train("B".to_string(), vec!["y"]);
    for label in ["A", "B"] {
        assert_eq!(nb1.doc_count_of(label), nb2.doc_count_of(label));
        assert_eq!(nb1.token_total_of(label), nb2.token_total_of(label));
        for token in ["x", "y"] {
            assert_eq!(nb1.token_count_of(label, token), nb2.token_count_of(label, token));
        }
    }
}

#[test]
fn test_monotonic_counts() {
    let mut nb = NaiveBayes::new();
    nb.train("A".to_string(), vec!["x"]);
    let before = nb.token_count_of("A", "x");
    nb.train("A".to_string(), vec!["y"]);
    nb.train("B".to_string(), vec!["x", "x"]);
    assert!(nb.token_count_of("A", "x") >= before);
    assert_eq!(nb.doc_count_of("A"), Some(2));
    assert_eq!(nb.token_total_of("A"), Some(2));
}

#[test]
fn test_score_counts_absent() {
    let mut nb = NaiveBayes::new();
    nb.train("A".to_string(), vec!["x"]);
    let toks = vec!["x", "z"];
    let sc = nb.score_counts("A", &toks).expect("trained label must score");
    assert_eq!(sc.doc_count, 1);
    assert_eq!(sc.token_total, 1);
    assert_eq!(sc.token_counts, vec![1, 0]);
    assert!(nb.score_counts("B", &toks).is_none());
    assert!(!nb.has_label("B"));
}

#[test]
fn test_classify_empty() {
    let nb = NaiveBayes::new();
    let toks: Vec<&str> = Vec::new();
    assert_eq!(nb.classify(&toks), None);
    assert!(!nb.has_label("x"));
}

#[test]
fn test_predict_delegate() {
    let mut nb = textprims::bayes::NaiveBayes::new();
    nb.bulk_train(vec![
        ("spam".to_string(), vec!["buy", "cheap", "meds"]),
        ("ham".to_string(), vec!["meet", "for", "lunch"]),
    ]);
    assert_eq!(nb.predict(&vec!["cheap", "meds"]), Some("spam".to_string()));
    assert!(nb.has_label("ham"));
    assert_eq!(nb.doc_count_of("ham"), Some(1));
    assert_eq!(nb.label_list(), vec!["spam".to_string(), "ham".to_string()]);
}

#[test]
fn test_tie_breaks_to_earliest_label() {
    let mut nb = NaiveBayes::new();
    nb.train("second-trained-wins-never".to_string(), vec!["x", "y"]);
    // identical counts: the scores tie exactly
    let mut nb2 = NaiveBayes::new();
    nb2.train("beta".to_string(), vec!["x", "y"]);
    nb2.train("alpha".to_string(), vec!["x", "y"]);
    assert_eq!(nb2.classify(&vec!["x"]), Some("beta".to_string()));
    assert_eq!(nb2.classify(&vec![]), Some("beta".to_string()));
}

#[test]
fn test_classify_large_counts() {
    // Scores whose likelihood weights exceed one machine word still
    // compare exactly.
    let mut nb = NaiveBayes::new();
    nb.train("seen".to_string(), vec!["t"; 200]);
    nb.train("unseen".to_string(), vec!["u"; 200]);
    let query = vec!["t"; 10];
    assert_eq!(nb.classify(&query), Some("seen".to_string()));
    let other = vec!["u"; 10];
    assert_eq!(nb.classify(&other), Some("unseen".to_string()));
}
