use puzzlebox::text::{
    find, is_space_byte, lines, parse_signed, parse_unsigned, same_bytes, split, split_once, splitn, to_decimal,
    tokens,
};

fn words(parts: Vec<&[u8]>) -> Vec<String> {
    parts.into_iter().map(|p| String::from_utf8(p.to_vec()).unwrap()).collect()
}

#[test]
fn the_first_occurrence_is_found() {
    assert_eq!(find(b"abcabc", b"bc"), Some(1));
    assert_eq!(find(b"abcabc", b"abcabc"), Some(0));
    assert_eq!(find(b"abcabc", b"cab"), Some(2));
    assert_eq!(find(b"abcabc", b"abcabcd"), None);
    assert_eq!(find(b"abcabc", b"x"), None);
    assert_eq!(find(b"abc", b""), Some(0));
    assert_eq!(find(b"", b""), Some(0));
    assert_eq!(find(b"", b"a"), None);
    assert_eq!(find(b"aab", b"ab"), Some(1));
}

#[test]
fn a_text_is_split_once() {
    assert_eq!(split_once(b"a HAS b HAS c", b" HAS "), Some((&b"a"[..], &b"b HAS c"[..])));
    assert_eq!(split_once(b"-x", b"-"), Some((&b""[..], &b"x"[..])));
    assert_eq!(split_once(b"x-", b"-"), Some((&b"x"[..], &b""[..])));
    assert_eq!(split_once(b"x", b"-"), None);
}

#[test]
fn a_text_is_split_into_pieces() {
    assert_eq!(words(split(b"a,b,,c", b",")), ["a", "b", "", "c"]);
    assert_eq!(words(split(b"", b",")), [""]);
    assert_eq!(words(split(b",", b",")), ["", ""]);
    assert_eq!(words(split(b"a, b,c", b", ")), ["a", "b,c"]);
    assert_eq!(words(split(b"aaa", b"aa")), ["", "a"]);
    assert_eq!(words(splitn(b"a b c d", b" ", 3)), ["a", "b", "c d"]);
    assert_eq!(words(splitn(b"a b c d", b" ", 9)), ["a", "b", "c", "d"]);
    assert_eq!(words(splitn(b"a b c d", b" ", 1)), ["a b c d"]);
    assert_eq!(words(splitn(b"a b c d", b" ", 0)), ["a b c d"]);
}

#[test]
fn words_are_parted_by_white_space() {
    assert_eq!(words(tokens(b"  FROM  A\tTO B\r\nAMT 5 ")), ["FROM", "A", "TO", "B", "AMT", "5"]);
    assert_eq!(tokens(b"").len(), 0);
    assert_eq!(tokens(b" \n\t").len(), 0);
    assert_eq!(words(tokens(b"x")), ["x"]);
    assert!(is_space_byte(b' ') && is_space_byte(0x0c) && !is_space_byte(0x0b) && !is_space_byte(b'a'));
}

#[test]
fn lines_end_with_a_line_feed() {
    assert_eq!(words(lines(b"a\nb\r\nc")), ["a", "b", "c"]);
    assert_eq!(words(lines(b"a\nb\n")), ["a", "b"]);
    assert_eq!(words(lines(b"a\n\nb\n\n")), ["a", "", "b", ""]);
    assert_eq!(words(lines(b"a\r")), ["a\r"]);
    assert_eq!(words(lines(b"a\r\n")), ["a"]);
    assert_eq!(words(lines(b"\n")), [""]);
    assert_eq!(lines(b"").len(), 0);
}

#[test]
fn unsigned_numbers_are_read() {
    assert_eq!(parse_unsigned(b"0", 255), Some(0));
    assert_eq!(parse_unsigned(b"255", 255), Some(255));
    assert_eq!(parse_unsigned(b"256", 255), None);
    assert_eq!(parse_unsigned(b"+7", 255), Some(7));
    assert_eq!(parse_unsigned(b"007", 255), Some(7));
    assert_eq!(parse_unsigned(b"-0", 255), None);
    assert_eq!(parse_unsigned(b"", 255), None);
    assert_eq!(parse_unsigned(b"+", 255), None);
    assert_eq!(parse_unsigned(b"1 ", 255), None);
    assert_eq!(parse_unsigned(b"18446744073709551615", u64::MAX), Some(u64::MAX));
    assert_eq!(parse_unsigned(b"18446744073709551616", u64::MAX), None);
    assert_eq!(parse_unsigned(b"99999999999999999999", u64::MAX), None);
}

#[test]
fn signed_numbers_are_read() {
    assert_eq!(parse_signed(b"-32768", -32768, 32767), Some(-32768));
    assert_eq!(parse_signed(b"32767", -32768, 32767), Some(32767));
    assert_eq!(parse_signed(b"32768", -32768, 32767), None);
    assert_eq!(parse_signed(b"-32769", -32768, 32767), None);
    assert_eq!(parse_signed(b"+12", -32768, 32767), Some(12));
    assert_eq!(parse_signed(b"-0", -32768, 32767), Some(0));
    assert_eq!(parse_signed(b"--1", -32768, 32767), None);
    assert_eq!(parse_signed(b"-", -32768, 32767), None);
    assert_eq!(parse_signed(b"", -32768, 32767), None);
    assert_eq!(parse_signed(b"-9223372036854775808", i64::MIN, i64::MAX), Some(i64::MIN));
    assert_eq!(parse_signed(b"9223372036854775807", i64::MIN, i64::MAX), Some(i64::MAX));
    assert_eq!(parse_signed(b"9223372036854775808", i64::MIN, i64::MAX), None);
}

#[test]
fn numbers_are_written_in_decimal() {
    assert_eq!(to_decimal(0), b"0");
    assert_eq!(to_decimal(7), b"7");
    assert_eq!(to_decimal(10), b"10");
    assert_eq!(to_decimal(1234567890), b"1234567890");
    assert_eq!(to_decimal(u64::MAX), b"18446744073709551615");
    for n in [0u64, 9, 10, 99, 100, 65535, u64::MAX] {
        assert_eq!(parse_unsigned(&to_decimal(n), u64::MAX), Some(n));
    }
    assert!(same_bytes(b"abc", b"abc") && !same_bytes(b"abc", b"abd") && !same_bytes(b"abc", b"ab"));
}
