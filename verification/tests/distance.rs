use textprims::levenshtein::{distance, distance_byte};

#[test]
fn test_parameters() {
    let s1 = "hello";
    let s2 = String::from("hello");
    assert_eq!(distance(s1, &s2), 0);
    assert_eq!(s1, "hello", "s1 became out of scope.");
    assert_eq!(s2, "hello", "s2 became out of scope.");
}

#[test]
fn test_edit_distance_unicode() {
    let source = "hello";
    let alter1 = "hello";
    assert_eq!(distance(&source, &alter1), 0);
    let alter2 = "Hello";
    assert_eq!(distance(&source, &alter2), 1);
    let alter3 = "helloabcdef";
    assert_eq!(distance(&source, &alter3), 6);
    let alter4 = "hey";
    assert_eq!(distance(&source, &alter4), 3);
    let alter5 = "hello 😊!";
    assert_eq!(distance(&source, &alter5), 3);
}

#[test]
fn test_edit_distance_bytes() {
    let source = "hello";
    let alter1 = "hello";
    assert_eq!(distance_byte(&source, &alter1), 0);
    let alter2 = "hell";
    assert_eq!(distance_byte(&source, &alter2), 1);
    let alter3 = "helloo";
    assert_eq!(distance_byte(&source, &alter3), 1);
    let alter4 = "hello😊";
    assert_eq!(distance_byte(&source, &alter4), 4);
    let alter4 = "hello 😊 world";
    assert_eq!(distance_byte(&source, &alter4), 4 + 7);
}

#[test]
fn test_distance_handle_string() {
    let a = "hello world!";
    let b = &String::from("hello!");
    assert_eq!(distance(&a, &b), 7);
    assert_eq!(distance(b, a), 7);

    assert_eq!(a.len(), 12);
    assert_eq!(b.len(), 6);
}

#[test]
fn test_distance_under_different_length() {
    let a = "abc";
    let b = "abcxyz";
    let c = "";
    assert_eq!(distance(a, b), 3);
    assert_eq!(distance(b, a), 3);
    assert_eq!(distance(a, c), 3);
    assert_eq!(distance(c, a), 3);
    assert_eq!(distance(c, c), 0);
}
