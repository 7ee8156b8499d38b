use textprims::utils::stem::stem;

#[test]
fn stem_test_interface() {
    let s = String::from("aabbbccccd");
    let freq = stem(&s, true);
    assert!(!freq.is_empty(), "stem() did not return a table")
}

#[test]
fn test_unicode_stem() {
    let s = String::from("aabbbccccd");
    let freq = stem(&s, true);
    assert_eq!(freq.get('a'), Some(2));
    assert_eq!(freq.get('b'), Some(3));
    assert_eq!(freq.get('c').unwrap(), 4);
    assert_eq!(freq.get('d'), Some(1));
}

#[test]
fn test_byte_stem() {
    let s = String::from("äöü");
    let freq = stem(&s, false);
    assert_eq!(freq.get('¶'), Some(1));
    assert_eq!(freq.get('¼'), Some(1));
    assert_eq!(freq.get('¤'), Some(1));
    assert_eq!(freq.get('Ã'), Some(3));
}
