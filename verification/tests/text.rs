//! Text building blocks and number lists.
use tilefeed::order::{compare_numbers, distinct_numbers};
use tilefeed::text::{chars_of, copied, decimal_text, holds_text, joined, pad_left, text_of};

#[test]
fn numbers_in_decimal() {
    assert_eq!(decimal_text(0), "0");
    assert_eq!(decimal_text(1090), "1090");
    assert_eq!(decimal_text(u64::MAX), "18446744073709551615");
}

#[test]
fn texts_are_taken_apart_and_put_together() {
    let chars = chars_of("a\u{e4}\u{1f5fa}b");
    assert_eq!(chars.len(), 4);
    assert_eq!(text_of(&chars, 1, 3), "\u{e4}\u{1f5fa}");
    assert_eq!(joined("a", "b"), "ab");
    assert_eq!(pad_left("\u{e4}", 3), "  \u{e4}");
    assert_eq!(pad_left("long", 2), "long");
    let list = vec!["x".to_string(), "y".to_string()];
    assert_eq!(copied(&list), list);
    assert!(holds_text(&list, "y"));
    assert!(!holds_text(&list, "z"));
}

#[test]
fn number_lists_are_sorted_and_compared() {
    let a = distinct_numbers(vec![5, 1, 5, 3, u128::MAX]);
    assert_eq!(a, vec![1, 3, 5, u128::MAX]);
    let c = compare_numbers(&a, &vec![0, 3, 4, u128::MAX]);
    assert_eq!(c.only_a, vec![1, 5]);
    assert_eq!(c.only_b, vec![0, 4]);
    assert_eq!(c.both, vec![3, u128::MAX]);
}
