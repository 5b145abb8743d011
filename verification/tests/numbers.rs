use stack_vm::number::{parse_number, push_decimal};
use stack_vm::value::Value;

#[test]
fn numerals_are_read_in_base_ten() {
    assert_eq!(parse_number("0"), Some(0));
    assert_eq!(parse_number("7"), Some(7));
    assert_eq!(parse_number("42"), Some(42));
    assert_eq!(parse_number("-1"), Some(-1));
    assert_eq!(parse_number("-100"), Some(-100));
    assert_eq!(parse_number("-0"), Some(0));
    assert_eq!(parse_number("007"), Some(7));
    assert_eq!(parse_number("-007"), Some(-7));
    assert_eq!(parse_number("2147483647"), Some(i32::MAX));
    assert_eq!(parse_number("-2147483648"), Some(i32::MIN));
    assert_eq!(parse_number("00000000000000000000002147483647"), Some(i32::MAX));
}

#[test]
fn what_is_no_numeral_is_no_number() {
    assert_eq!(parse_number(""), None);
    assert_eq!(parse_number("-"), None);
    assert_eq!(parse_number("+"), None);
    assert_eq!(parse_number("--1"), None);
    assert_eq!(parse_number("1-"), None);
    assert_eq!(parse_number("1 "), None);
    assert_eq!(parse_number(" 1"), None);
    assert_eq!(parse_number("1.5"), None);
    assert_eq!(parse_number("1e3"), None);
    assert_eq!(parse_number("0x10"), None);
    assert_eq!(parse_number("12a"), None);
    assert_eq!(parse_number("a12"), None);
    assert_eq!(parse_number("if"), None);
    assert_eq!(parse_number("{"), None);
    assert_eq!(parse_number("١٢٣"), None);
    assert_eq!(parse_number("1２"), None);
    assert_eq!(parse_number("-é"), None);
}

#[test]
fn a_plus_sign_is_not_part_of_a_numeral() {
    assert_eq!(parse_number("+5"), None);
    assert_eq!(parse_number("+0"), None);
}

#[test]
fn numerals_beyond_32_bits_are_no_numbers() {
    assert_eq!(parse_number("2147483648"), None);
    assert_eq!(parse_number("-2147483649"), None);
    assert_eq!(parse_number("4294967296"), None);
    assert_eq!(parse_number("99999999999999999999999999999999999999"), None);
    assert_eq!(parse_number("-99999999999999999999999999999999999999"), None);
    assert_eq!(parse_number("9223372036854775808"), None);
    assert_eq!(parse_number("18446744073709551616"), None);
}

#[test]
fn reading_agrees_with_std_where_no_plus_leads() {
    let samples = [
        "0", "1", "-1", "10", "-10", "123456789", "-123456789", "2147483647", "2147483648",
        "-2147483648", "-2147483649", "", "-", "--", "-a", "a", "1a", "00", "-00", "000123",
        "3000000000", "1_000", "٣", " 1", "1\n",
    ];
    for text in samples.iter() {
        assert_eq!(parse_number(text), text.parse::<i32>().ok(), "{:?}", text);
    }
    let mut n: i64 = -70000;
    while n <= 70000 {
        let text = n.to_string();
        assert_eq!(parse_number(&text), Some(n as i32));
        n += 1;
    }
}

#[test]
fn writing_agrees_with_std() {
    let samples = [
        0,
        1,
        -1,
        9,
        10,
        -10,
        99,
        100,
        101,
        -4,
        78,
        1234567890,
        -1234567890,
        i32::MAX,
        i32::MIN,
        i32::MAX - 1,
        i32::MIN + 1,
    ];
    for n in samples.iter() {
        assert_eq!(Value::Number(*n).display(), n.to_string());
        let mut text = String::from("x");
        push_decimal(*n, &mut text);
        assert_eq!(text, format!("x{}", n));
    }
    let mut n: i32 = -1500;
    while n <= 1500 {
        assert_eq!(Value::Number(n).display(), n.to_string());
        n += 1;
    }
}

#[test]
fn what_is_written_is_read_back() {
    let samples = [0, 1, -1, 42, -100, 101, i32::MAX, i32::MIN];
    for n in samples.iter() {
        let text = Value::Number(*n).display();
        assert_eq!(parse_number(&text), Some(*n));
    }
}
