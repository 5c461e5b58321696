use sigyn::format::{decimal, signed_decimal};
use sigyn::order::{lowered, str_lt, str_nocase_eq, str_nocase_lt};
use sigyn::sort::stable_sort;

fn chars(s: &str) -> Vec<char> {
    s.chars().collect()
}

#[test]
fn nocase_comparisons() {
    assert!(str_nocase_lt("alpha", "Beta"));
    assert!(!str_nocase_lt("Beta", "alpha"));
    assert!(str_nocase_eq("WeB", "web"));
    assert!(!str_nocase_lt("abc", "ABC"));
    assert!(str_lt("B", "a"));
    assert_eq!(lowered("MiXeD-1"), chars("mixed-1"));
}

#[test]
fn stable_sort_keeps_ties_in_order() {
    let keys = vec![chars("b"), chars("a"), chars("b"), chars(""), chars("ab")];
    assert_eq!(stable_sort(&keys), vec![3, 1, 4, 0, 2]);
    assert_eq!(stable_sort(&vec![]), Vec::<usize>::new());
}

#[test]
fn decimals() {
    assert_eq!(decimal(0), chars("0"));
    assert_eq!(decimal(1234), chars("1234"));
    assert_eq!(signed_decimal(-42), chars("-42"));
    assert_eq!(signed_decimal(i32::MAX), chars("2147483647"));
}
