use logsift::text::append_decimal;
use logsift::text::append_padded_left;
use logsift::text::append_padded_right;
use logsift::text::append_spaces;
use logsift::text::chars_of;
use logsift::text::decimal_string;
use logsift::text::rank_bytes;
use logsift::text::Rank;

#[test]
fn numbers_print_in_decimal() {
    for n in [0u128, 1, 9, 10, 11, 99, 100, 101, 1024, 65535, 1 << 64, u128::MAX] {
        assert_eq!(decimal_string(n), format!("{}", n));
    }
    let mut out = String::from("n=");
    append_decimal(&mut out, 407);
    assert_eq!(out, "n=407");
}

#[test]
fn padding_fills_a_field_and_never_cuts() {
    for (text, width) in [("", 0usize), ("", 3), ("7", 6), ("123456", 6), ("1234567", 6), ("\u{e9}t\u{e9}", 5)] {
        let mut left = String::from("[");
        append_padded_left(&mut left, text, width);
        assert_eq!(left, format!("[{:>w$}", text, w = width));
        let mut right = String::from("[");
        append_padded_right(&mut right, text, width);
        assert_eq!(right, format!("[{:<w$}", text, w = width));
    }
    let mut out = String::from("a");
    append_spaces(&mut out, 3);
    assert_eq!(out, "a   ");
    append_spaces(&mut out, 0);
    assert_eq!(out, "a   ");
}

#[test]
fn characters_come_out_in_order() {
    assert_eq!(chars_of(""), Vec::<char>::new());
    assert_eq!(chars_of("a\u{e9}\u{1f600}z"), vec!['a', '\u{e9}', '\u{1f600}', 'z']);
}

#[test]
fn bytes_compare_lexicographically() {
    assert_eq!(rank_bytes(&[], &[]), Rank::Equal);
    assert_eq!(rank_bytes(&[1, 2], &[1, 2]), Rank::Equal);
    assert_eq!(rank_bytes(&[1, 2], &[1, 3]), Rank::Less);
    assert_eq!(rank_bytes(&[1, 2], &[1, 2, 0]), Rank::Less);
    assert_eq!(rank_bytes(&[2], &[1, 9, 9]), Rank::Greater);
    assert_eq!(rank_bytes(&[255], &[0]), Rank::Greater);
}
