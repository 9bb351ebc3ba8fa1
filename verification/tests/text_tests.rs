use jj_ryu::name_map::NameMap;
use jj_ryu::text::{
    chars_of, clone_optional_text, clone_texts, contains_text, decimal, ends_with_text, join,
    precedes, same_text, starts_with_text,
};

#[test]
fn test_chars_and_equality() {
    assert_eq!(chars_of("aé👈"), vec!['a', 'é', '👈']);
    assert_eq!(chars_of(""), Vec::<char>::new());
    assert!(same_text("abc", "abc"));
    assert!(same_text("", ""));
    assert!(!same_text("abc", "abd"));
    assert!(!same_text("abc", "ab"));
    assert!(!same_text("ab", "abc"));
}

#[test]
fn test_search() {
    assert!(contains_text("feature-wip-2", "wip"));
    assert!(contains_text("wip", "wip"));
    assert!(contains_text("abc", ""));
    assert!(contains_text("", ""));
    assert!(!contains_text("wi", "wip"));
    assert!(!contains_text("w-i-p", "wip"));
    assert!(contains_text("grüßwipé", "wip"));
    assert!(starts_with_text("wip/x", "wip/"));
    assert!(!starts_with_text("xwip/", "wip/"));
    assert!(!starts_with_text("wi", "wip"));
    assert!(ends_with_text("feat-old", "-old"));
    assert!(!ends_with_text("old-feat", "-old"));
    assert!(!ends_with_text("ld", "-old"));
    assert!(ends_with_text("x", ""));
    for (hay, needle) in [("abcabc", "cab"), ("abcabc", "cba"), ("aaa", "aa"), ("", "a")] {
        assert_eq!(contains_text(hay, needle), hay.contains(needle));
        assert_eq!(starts_with_text(hay, needle), hay.starts_with(needle));
        assert_eq!(ends_with_text(hay, needle), hay.ends_with(needle));
    }
}

#[test]
fn test_decimal() {
    assert_eq!(decimal(0), "0");
    assert_eq!(decimal(7), "7");
    assert_eq!(decimal(10), "10");
    assert_eq!(decimal(42), "42");
    assert_eq!(decimal(1005), "1005");
    assert_eq!(decimal(u64::MAX), "18446744073709551615");
    for n in [9u64, 99, 100, 101, 123_456_789, 1 << 40] {
        assert_eq!(decimal(n), n.to_string());
    }
}

#[test]
fn test_order_of_names() {
    // Shorter first.
    assert!(precedes("zz", "aaa"));
    assert!(!precedes("aaa", "zz"));
    // Byte order among names of one length.
    assert!(precedes("alpha", "beta1"));
    assert!(!precedes("beta1", "alpha"));
    assert!(precedes("A", "a"));
    assert!(precedes("ab", "ac"));
    // No name precedes itself.
    assert!(!precedes("same", "same"));
    assert!(!precedes("", ""));
    assert!(precedes("", "a"));
    // Length is counted in bytes.
    assert!(precedes("zz", "éé"));
    assert!(precedes("zzz", "éé"));
    assert!(precedes("zz", "é!"));
}

#[test]
fn test_join_and_copies() {
    assert_eq!(join("ab", "cd"), "abcd");
    assert_eq!(join("", ""), "");
    let texts = vec!["a".to_string(), "b".to_string()];
    assert_eq!(clone_texts(&texts), texts);
    assert_eq!(clone_optional_text(&Some("x".to_string())), Some("x".to_string()));
    assert_eq!(clone_optional_text(&None), None);
}

#[test]
fn test_name_map() {
    let mut map: NameMap<u32> = NameMap::new();
    assert!(map.is_empty());
    assert_eq!(map.len(), 0);
    assert_eq!(map.get("a"), None);
    map.insert("b".to_string(), 2);
    map.insert("a".to_string(), 1);
    map.insert("b".to_string(), 20);
    assert_eq!(map.len(), 2);
    assert!(!map.is_empty());
    assert_eq!(map.get("b"), Some(&20));
    assert_eq!(map.get("a"), Some(&1));
    assert_eq!(map.get("c"), None);
    assert!(map.contains_key("a"));
    assert!(!map.contains_key("A"));
    assert_eq!(map.position("a"), Some(1));
    assert_eq!(map.position("zz"), None);
    // A name keeps the place of its first insertion.
    assert_eq!(map.name_at(0), "b");
    assert_eq!(*map.value_at(0), 20);
    assert_eq!(map.name_at(1), "a");
    let copy = map.clone();
    assert_eq!(copy.len(), 2);
    assert_eq!(copy.get("b"), Some(&20));
    assert_eq!(copy.name_at(0), "b");
    let empty: NameMap<u32> = NameMap::default();
    assert!(empty.is_empty());
}
