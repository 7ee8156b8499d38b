use textprims::utils::token::explode_usn;

#[test]
fn test_explode_usn() {
    let text = "abcdefg";
    assert_eq!(explode_usn(text, 2).len(), 4);
    assert_eq!(explode_usn(text, 3).len(), 3);
    assert_eq!(explode_usn(text, 4).len(), 2);
}

#[test]
fn test_explode_usd() {}

#[test]
fn test_chunk_contents() {
    assert_eq!(explode_usn("abcdefg", 2), vec!["ab", "cd", "ef", "g"]);
    assert_eq!(explode_usn("abcdefg", 3), vec!["abc", "def", "g"]);
    assert_eq!(explode_usn("", 3), Vec::<String>::new());
    assert_eq!(explode_usn("ab", 5), vec!["ab"]);
    assert_eq!(explode_usn("abc", 1), vec!["a", "b", "c"]);
}
