use food_generator2::share_str::{chars_of, string_of, ShareStr};

#[test]
fn text_keeps_its_characters() {
    let s = ShareStr::new("héllo, wörld");
    assert_eq!(s.len(), 12);
    assert!(!s.is_empty());
    assert_eq!(s.char_at(1), 'é');
    assert_eq!(s.as_str(), "héllo, wörld");
    assert!(ShareStr::new("").is_empty());
    assert_eq!(ShareStr::new("").as_str(), "");
}

#[test]
fn text_from_characters() {
    let s = ShareStr::from_chars(vec!['a', 'b', 'c']);
    assert_eq!(s.as_str(), "abc");
    assert_eq!(chars_of("añb"), vec!['a', 'ñ', 'b']);
    assert_eq!(string_of(&vec!['x', 'y', 'z'], 1, 3), "yz");
    assert_eq!(string_of(&vec!['x', 'y', 'z'], 2, 2), "");
}

#[test]
fn range_of_a_text() {
    let s = ShareStr::new("0123456789");
    let mid = s.clone_range(2, 7);
    assert_eq!(mid.as_str(), "23456");
    let inner = mid.clone_range(1, 3);
    assert_eq!(inner.as_str(), "34");
    assert_eq!(mid.clone_range(0, 0).as_str(), "");
    assert_eq!(mid.clone_range(5, 5).as_str(), "");
    assert_eq!(mid.clone_range(0, 5).as_str(), "23456");
}

#[test]
fn recognize_takes_places_in_the_buffer() {
    let s = ShareStr::new("0123456789");
    let mid = s.clone_range(2, 7);
    assert_eq!(mid.recognize(3, 5).map(|t| t.as_str()), Some("34".to_string()));
    assert_eq!(mid.recognize(2, 7).map(|t| t.as_str()), Some("23456".to_string()));
    assert_eq!(mid.recognize(4, 4).map(|t| t.as_str()), Some(String::new()));
    assert!(mid.recognize(1, 5).is_none());
    assert!(mid.recognize(3, 8).is_none());
    assert!(mid.recognize(5, 4).is_none());
}

#[test]
fn texts_are_equal_by_their_characters() {
    let a = ShareStr::new("xxabcxx").clone_range(2, 5);
    let b = ShareStr::new("abc");
    assert!(a == b);
    assert!(a != ShareStr::new("abd"));
    assert!(a != ShareStr::new("ab"));
    assert!(a.clone() == a);
}

#[test]
fn starts_with_compares_the_head() {
    let s = ShareStr::new("grammar");
    assert!(s.starts_with(&ShareStr::new("gram")));
    assert!(s.starts_with(&ShareStr::new("")));
    assert!(s.starts_with(&ShareStr::new("grammar")));
    assert!(!s.starts_with(&ShareStr::new("grammars")));
    assert!(!s.starts_with(&ShareStr::new("ram")));
}
