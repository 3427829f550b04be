use winnow::order::{chars_of, insert_sorted, str_less};

#[test]
fn str_less_orders_like_strings() {
    assert!(str_less("abc", "abd"));
    assert!(str_less("ab", "abc"));
    assert!(!str_less("abc", "abc"));
    assert!(!str_less("b", "abc"));
    assert!(str_less("", "a"));
    assert!(!str_less("", ""));
    assert!(str_less("Z", "a"));
}

#[test]
fn insert_sorted_keeps_order_and_skips_duplicates() {
    let mut v: Vec<String> = Vec::new();
    for s in ["src/b.rs", "src/a.rs", "src/c.rs", "src/a.rs", "lib.rs"] {
        insert_sorted(&mut v, s.to_string());
    }
    assert_eq!(v, vec!["lib.rs", "src/a.rs", "src/b.rs", "src/c.rs"]);
}

#[test]
fn chars_of_splits_into_characters() {
    assert_eq!(chars_of("añb"), vec!['a', 'ñ', 'b']);
    assert!(chars_of("").is_empty());
}
