use std::cmp::Ordering;

use json_lint::natural_sort::compare;

#[test]
fn test_compare() {
    assert_eq!(compare("__a__", "__1__"), Ordering::Greater);
    assert_eq!(compare("__1__", "__18__"), Ordering::Less);
    assert_eq!(compare("__1__", "__12__"), Ordering::Less);
    assert_eq!(compare("__1__", "__2__"), Ordering::Less);
    assert_eq!(compare("__10__", "__18__"), Ordering::Less);
    assert_eq!(compare("__18__", "__1__"), Ordering::Greater);
    assert_eq!(compare("__18__", "__1__"), Ordering::Greater);
    assert_eq!(compare("__18__", "__10__"), Ordering::Greater);
    assert_eq!(compare("__000912__", "__911__"), Ordering::Greater);
}

#[test]
fn compare_decides_numeric_runs() {
    assert_eq!(compare("000912", "911"), Ordering::Greater);
    assert_eq!(compare("item2", "item10"), Ordering::Less);
    assert_eq!(compare("a", "a"), Ordering::Equal);
    assert_eq!(compare("01", "1"), Ordering::Less);
}

#[test]
fn compare_digit_below_letter() {
    assert_eq!(compare("5", "a"), Ordering::Less);
    assert_eq!(compare("a", "5"), Ordering::Greater);
}
