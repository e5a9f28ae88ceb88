use f_graph::text::{characters, contains, find, push_bracketed, push_decimal, push_signed};

#[test]
fn numbers_are_written_in_decimal() {
    for n in [0, 7, 10, 99, 100, 123_456_789, u64::MAX] {
        let mut text = String::from("n=");
        push_decimal(&mut text, n);
        assert_eq!(text, format!("n={n}"));
    }
    for i in [0, 5, -5, i32::MAX, i32::MIN] {
        let mut text = String::new();
        push_signed(&mut text, i);
        assert_eq!(text, i.to_string());
    }
}

#[test]
fn lists_are_written_in_brackets() {
    for list in [vec![], vec![1u64], vec![3, 20, 100]] {
        let mut text = String::new();
        push_bracketed(&mut text, &list);
        assert_eq!(text, format!("{list:?}"));
    }
}

#[test]
fn patterns_are_found_at_their_first_position() {
    let text = characters("abcabc");
    assert_eq!(find(&text, &characters("bc"), 0), Some(1));
    assert_eq!(find(&text, &characters("bc"), 1), Some(1));
    assert_eq!(find(&text, &characters("bc"), 2), Some(4));
    assert_eq!(find(&text, &characters("bc"), 5), None);
    assert_eq!(find(&text, &characters("cb"), 0), None);
    assert_eq!(find(&text, &characters("abcabcd"), 0), None);
    assert_eq!(find(&text, &characters(""), 6), Some(6));
    assert!(contains("abc", ""));
    assert!(contains("abc", "abc"));
    assert!(!contains("abc", "ac"));
    assert!(contains("äöü", "ö"));
}
