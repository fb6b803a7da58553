use manifold::text::{order_text, parse_i32, parse_u64, trim, Order};

#[test]
fn texts_are_ordered_by_code_point() {
    assert_eq!(order_text("a", "b"), Order::Less);
    assert_eq!(order_text("b", "a"), Order::Greater);
    assert_eq!(order_text("a", "a"), Order::Equal);
    assert_eq!(order_text("", "a"), Order::Less);
}

#[test]
fn numbers_are_read_as_decimals() {
    assert_eq!(parse_u64("18446744073709551615"), Some(u64::MAX));
    assert_eq!(parse_u64("18446744073709551616"), None);
    assert_eq!(parse_u64("+7"), Some(7));
    assert_eq!(parse_u64("-7"), None);
    assert_eq!(parse_u64(""), None);
    assert_eq!(parse_i32("-2147483648"), Some(i32::MIN));
    assert_eq!(parse_i32("2147483648"), None);
    assert_eq!(parse_i32(" 1"), None);
}

#[test]
fn white_space_is_trimmed() {
    assert_eq!(trim(" \t a b\u{3000}\n"), "a b");
    assert_eq!(trim(" \u{a0}"), "");
}

#[test]
fn the_first_occurrence_is_replaced() {
    assert_eq!(manifold::text::replace_first("abcabc", "bc", "-"), "a-abc");
    assert_eq!(manifold::text::replace_first("abab", "ba", ""), "ab");
    assert_eq!(manifold::text::replace_first("abc", "x", "y"), "abc");
    assert_eq!(manifold::text::replace_first("", "x", "y"), "");
    assert_eq!(manifold::text::replace_first("abc", "", "y"), "yabc");
    assert_eq!(manifold::text::replace_first("abc", "abcd", "y"), "abc");
}
