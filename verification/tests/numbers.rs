use clam_onaccess::text::{
    ascii_bytes, chars_of, ends_with, is_white_space, parse_number, push_decimal, same_text, trim_end,
    NumberError,
};
use std::num::IntErrorKind;

#[test]
fn white_space_is_that_of_the_standard_library() {
    for c in '\0'..=char::MAX {
        assert_eq!(is_white_space(c), c.is_whitespace(), "{c:?}");
    }
}

#[test]
fn numbers_are_read_as_by_the_standard_library() {
    let samples = [
        "", "+", "-", "0", "7", "+7", "-7", "++7", "+-7", "007", "12345", "4294967295", "4294967296",
        "+4294967295", "99999999999", "99999999999x", "42949672950", "1x99999999999", "x", " 1", "1 ",
        "1\n", "\u{ff11}", "12\u{e9}", "00000000000000000001", "000000000004294967296",
    ];
    for s in samples {
        let expected = match s.parse::<u32>() {
            Ok(n) => Ok(n),
            Err(e) => Err(match e.kind() {
                IntErrorKind::Empty => NumberError::Empty,
                IntErrorKind::InvalidDigit => NumberError::InvalidDigit,
                IntErrorKind::PosOverflow => NumberError::PosOverflow,
                _ => panic!("unexpected"),
            }),
        };
        assert_eq!(parse_number(&chars_of(s)), expected, "{s:?}");
    }
}

#[test]
fn number_errors_read_as_in_the_standard_library() {
    for s in ["", "x", "4294967296"] {
        let expected = s.parse::<u32>().unwrap_err().to_string();
        assert_eq!(parse_number(&chars_of(s)).unwrap_err().message(), expected);
    }
}

#[test]
fn trailing_white_space_is_trimmed() {
    for s in ["", " ", "12\n", "12 \t\r\n", " 12", "1 2 ", "12\u{3000}\u{85}", "12\u{200b}", "12\u{180e}"] {
        let expected: Vec<char> = s.trim_end().chars().collect();
        assert_eq!(trim_end(s), expected, "{s:?}");
    }
}

#[test]
fn decimal_notation_is_read_back() {
    for n in [0, 1, 9, 10, 11, 99, 100, 12345, 4294967294, u32::MAX] {
        let mut out = vec![b'#'];
        push_decimal(&mut out, n);
        let text = String::from_utf8(out).unwrap();
        assert_eq!(text, format!("#{n}"));
        assert_eq!(parse_number(&chars_of(&text[1..])), Ok(n));
    }
}

#[test]
fn suffixes_are_those_of_the_standard_library() {
    for s in ["", "OK", "K", "stream: OK", "OK ", "okOK", "FOUND", "\u{e9}OK"] {
        for t in ["", "OK", "FOUND", "stream: OK\u{e9}"] {
            assert_eq!(ends_with(s, t), s.ends_with(t), "{s:?} {t:?}");
        }
    }
}

#[test]
fn texts_are_compared() {
    assert!(same_text("cgroup2", "cgroup2"));
    assert!(!same_text("cgroup2", "cgroup"));
    assert!(!same_text("proc", "pric"));
    assert_eq!(ascii_bytes("zF"), vec![122, 70]);
}
