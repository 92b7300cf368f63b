use fan_control::name_sorter::{add_sorted, compare_names};
use std::cmp::Ordering;

#[test]
fn numbers_compare_by_value() {
    assert_eq!(compare_names("config2", "config10"), Ordering::Less);
    assert_eq!(compare_names("config10", "config2"), Ordering::Greater);
    assert_eq!(compare_names("x007", "x7"), Ordering::Equal);
}

#[test]
fn capital_letter_comes_first() {
    assert_eq!(compare_names("ABC", "abc"), Ordering::Less);
    assert_eq!(compare_names("abc", "ABC"), Ordering::Greater);
    assert_eq!(compare_names("abd", "ABC"), Ordering::Greater);
}

#[test]
fn fewer_pieces_first() {
    assert_eq!(compare_names("a", "a1"), Ordering::Less);
    assert_eq!(compare_names("", "a"), Ordering::Less);
    assert_eq!(compare_names("", ""), Ordering::Equal);
}

#[test]
fn runs_equal_over_common_length() {
    assert_eq!(compare_names("ab", "abc"), Ordering::Equal);
}

#[test]
fn letters_after_numbers_after_symbols() {
    assert_eq!(compare_names("-", "a"), Ordering::Less);
    assert_eq!(compare_names("1", "-"), Ordering::Greater);
    assert_eq!(compare_names("é", "1"), Ordering::Greater);
    assert_eq!(compare_names("1", "é"), Ordering::Less);
    assert_eq!(compare_names("-", "+"), Ordering::Greater);
}

#[test]
fn add_sorted_follows_the_search() {
    let mut v: Vec<String> = vec!["c".into(), "b".into(), "a".into()];
    let i = add_sorted(&mut v, "bb".into());
    assert_eq!(i, 1);
    assert_eq!(v, vec!["c", "bb", "b", "a"]);
    let mut w: Vec<String> = vec!["a".into(), "b".into(), "c".into()];
    let j = add_sorted(&mut w, "b2".into());
    assert_eq!(j, 0);
    assert_eq!(w, vec!["b2", "a", "b", "c"]);
    let mut e: Vec<String> = Vec::new();
    assert_eq!(add_sorted(&mut e, "x".into()), 0);
    assert_eq!(e, vec!["x"]);
}
