use task_replica::decimal::{digit, digit_value, format_i64, parse_i64, parse_i64_chars, write_digits};

#[test]
fn numbers_are_formatted_in_decimal() {
    assert_eq!(format_i64(0), "0");
    assert_eq!(format_i64(7), "7");
    assert_eq!(format_i64(10), "10");
    assert_eq!(format_i64(-1), "-1");
    assert_eq!(format_i64(1577836800), "1577836800");
    assert_eq!(format_i64(i64::MAX), "9223372036854775807");
    assert_eq!(format_i64(i64::MIN), "-9223372036854775808");
}

#[test]
fn numbers_are_parsed_from_decimal() {
    assert_eq!(parse_i64("0"), Some(0));
    assert_eq!(parse_i64("-0"), Some(0));
    assert_eq!(parse_i64("+5"), Some(5));
    assert_eq!(parse_i64("007"), Some(7));
    assert_eq!(parse_i64("-42"), Some(-42));
    assert_eq!(parse_i64("9223372036854775807"), Some(i64::MAX));
    assert_eq!(parse_i64("-9223372036854775808"), Some(i64::MIN));
    assert_eq!(parse_i64("0000000000000000000000000000000000000000000000012"), Some(12));
}

#[test]
fn what_is_no_number_of_64_bits_is_refused() {
    for bad in [
        "",
        "-",
        "+",
        " 5",
        "5 ",
        "1a",
        "a",
        "--1",
        "1.5",
        "9223372036854775808",
        "-9223372036854775809",
        "99999999999999999999999999999999999999999999999999",
        "-99999999999999999999999999999999999999999999999999",
        "340282366920938463463374607431768211456",
    ] {
        assert_eq!(parse_i64(bad), None, "{}", bad);
    }
}

#[test]
fn what_is_formatted_is_parsed_back() {
    for n in [0, 1, -1, 9, 10, 11, 99, 100, -100, 1577836800, i64::MAX, i64::MIN, i64::MIN + 1] {
        assert_eq!(parse_i64(&format_i64(n)), Some(n));
        assert_eq!(format_i64(n), n.to_string());
    }
}

#[test]
fn digits() {
    let all = ['0', '1', '2', '3', '4', '5', '6', '7', '8', '9'];
    for d in 0..10u8 {
        assert_eq!(digit(d), all[d as usize]);
        assert_eq!(digit_value(all[d as usize]), Some(d));
    }
    assert_eq!(digit_value('a'), None);
    assert_eq!(digit_value(';'), None);
    assert_eq!(digit_value('٣'), None);
    let mut buf = vec!['x'];
    write_digits(&mut buf, 120);
    assert_eq!(buf, vec!['x', '1', '2', '0']);
    assert_eq!(parse_i64_chars(&vec!['-', '1', '2']), Some(-12));
}
