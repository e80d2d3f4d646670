use advent::text::{
    blanks, copy_range, eat, find, find_byte, lines, newlines, opt_newline, parse_signed,
    parse_unsigned, piece, scan_digits, scan_signed, split, starts_with,
};

fn strs(v: Vec<Vec<u8>>) -> Vec<String> {
    v.into_iter().map(|l| String::from_utf8(l).unwrap()).collect()
}

#[test]
fn lines_split_as_the_standard_library_does() {
    for text in ["", "a", "a\n", "a\nb", "a\n\nb\n", "\n", "\n\n", "a\r\nb\r\n", "a\rb\n", "a\r", "\r\n", "a\n\r", "\r\r\n"] {
        let want: Vec<String> = text.lines().map(String::from).collect();
        assert_eq!(strs(lines(text.as_bytes())), want, "for {:?}", text);
    }
}

#[test]
fn split_at_every_separator() {
    for text in ["", "a", "a -> b", " -> ", "a ->  -> b", "a -> b -> ", " -> -> ", "a->b"] {
        let want: Vec<String> = text.split(" -> ").map(String::from).collect();
        assert_eq!(strs(split(text.as_bytes(), b" -> ")), want, "for {:?}", text);
    }
    assert_eq!(strs(split(b"aaa", b"aa")), vec!["", "a"]);
}

#[test]
fn pieces_by_number() {
    assert_eq!(piece(b"2-4", b'-', 0), Some((0, 1)));
    assert_eq!(piece(b"2-4", b'-', 1), Some((2, 3)));
    assert_eq!(piece(b"2-4", b'-', 2), None);
    assert_eq!(piece(b"-", b'-', 1), Some((1, 1)));
    assert_eq!(piece(b"", b'-', 0), Some((0, 0)));
    assert_eq!(find_byte(b"abcabc", 1, b'a'), 3);
    assert_eq!(find_byte(b"abcabc", 4, b'a'), 6);
    assert_eq!(find(b"abcabc", b"ca", 0), 2);
    assert_eq!(find(b"abcabc", b"ca", 3), 6);
    assert_eq!(copy_range(b"abcdef", 2, 4), b"cd".to_vec());
}

#[test]
fn whole_numbers() {
    for text in ["0", "7", "+7", "007", "18446744073709551615", "18446744073709551616", "", "+", "-7", "7 ", " 7", "7a", "++7"] {
        assert_eq!(parse_unsigned(text.as_bytes(), u64::MAX), text.parse::<u64>().ok(), "for {:?}", text);
    }
    for text in ["0", "-0", "+0", "-128", "127", "128", "-129", "", "-", "+", "1-", "--1", "12x"] {
        assert_eq!(
            parse_signed(text.as_bytes(), -128, 127),
            text.parse::<i8>().ok().map(i64::from),
            "for {:?}",
            text
        );
    }
    assert_eq!(parse_signed(b"-9223372036854775808", i64::MIN, i64::MAX), Some(i64::MIN));
    assert_eq!(parse_signed(b"9223372036854775807", i64::MIN, i64::MAX), Some(i64::MAX));
    assert_eq!(parse_signed(b"9223372036854775808", i64::MIN, i64::MAX), None);
    assert_eq!(parse_signed(b"-9223372036854775809", i64::MIN, i64::MAX), None);
    assert_eq!(parse_unsigned(b"256", 255), None);
    assert_eq!(parse_unsigned(b"255", 255), Some(255));
}

#[test]
fn numbers_at_a_position() {
    assert_eq!(scan_digits(b"ab123cd", 2, 1000), Some((123, 5)));
    assert_eq!(scan_digits(b"ab123cd", 2, 122), None);
    assert_eq!(scan_digits(b"ab123cd", 1, 1000), None);
    assert_eq!(scan_digits(b"123", 3, 1000), None);
    assert_eq!(scan_digits(b"00012", 0, 12), Some((12, 5)));
    assert_eq!(scan_signed(b"x-45y", 1, -100, 100), Some((-45, 4)));
    assert_eq!(scan_signed(b"x+45", 1, -100, 100), Some((45, 4)));
    assert_eq!(scan_signed(b"x-y", 1, -100, 100), None);
    assert_eq!(scan_signed(b"-101", 0, -100, 100), None);
    assert_eq!(scan_signed(b"-100", 0, -100, 100), Some((-100, 4)));
}

#[test]
fn small_steps() {
    assert!(starts_with(b"hello", 1, b"ell"));
    assert!(!starts_with(b"hello", 3, b"low"));
    assert!(starts_with(b"hello", 5, b""));
    assert!(!starts_with(b"hello", 6, b""));
    assert_eq!(eat(b"move 1", 0, "move "), Some(5));
    assert_eq!(eat(b"move 1", 1, "move "), None);
    assert_eq!(blanks(b"a \t b", 1), Some(4));
    assert_eq!(blanks(b"a \t b", 0), None);
    assert_eq!(blanks(b"a ", 2), None);
    assert_eq!(opt_newline(b"a\n\nb", 1), 2);
    assert_eq!(opt_newline(b"a\n\nb", 3), 3);
    assert_eq!(newlines(b"a\n\nb", 1), 3);
    assert_eq!(newlines(b"a\n\n", 1), 3);
}
