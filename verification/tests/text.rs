use tempkeys::text::{
    alnum, alpha, contains, decimal_text, digit, next_line, number, same, signed, signed_text,
    space, split_digits, split_once, starts_with, strip_prefix, strip_suffix, trim,
};

const SAMPLES: [&str; 12] = [
    "",
    " ",
    "a",
    "=",
    "a=b=c",
    " \u{3000}é = ü\u{a0}\t",
    "line\r\nnext\rsame\n\nlast",
    "\r\n",
    "\n",
    "x\r",
    "𝄞=\u{85}",
    "12é3",
];

#[test]
fn classes_of_characters() {
    for c in (0..=0x10ffffu32).filter_map(char::from_u32) {
        assert_eq!(space(c), c.is_whitespace(), "{c:?}");
        assert_eq!(alpha(c), c.is_ascii_alphabetic(), "{c:?}");
        assert_eq!(digit(c), c.is_ascii_digit(), "{c:?}");
        assert_eq!(alnum(c), c.is_ascii_alphanumeric(), "{c:?}");
    }
}

#[test]
fn cutting_and_trimming() {
    for s in SAMPLES {
        assert_eq!(trim(s), s.trim());
        assert_eq!(split_once(s, '='), s.split_once('='));
        assert_eq!(split_once(s, 'é'), s.split_once('é'));
        assert_eq!(contains(s, '\r'), s.contains('\r'));
        for p in SAMPLES {
            assert_eq!(same(s, p), s == p);
            assert_eq!(starts_with(s, p), s.starts_with(p));
            assert_eq!(strip_prefix(s, p), s.strip_prefix(p));
            assert_eq!(strip_suffix(s, p), s.strip_suffix(p));
        }
    }
    assert_eq!(strip_suffix("aé", "é"), Some("a"));
    assert_eq!(strip_suffix("a\u{129}", "\u{29}"), None);
}

#[test]
fn lines_are_taken_off() {
    for s in SAMPLES {
        let mut rest = s;
        let mut lines = Vec::new();
        while !rest.is_empty() {
            let (line, next) = next_line(rest);
            lines.push(line);
            rest = next;
        }
        assert_eq!(lines, s.lines().collect::<Vec<_>>());
    }
}

#[test]
fn numbers_in_decimal() {
    for n in [0u64, 9, 10, 1234567890, u64::MAX] {
        assert_eq!(decimal_text(n), n.to_string());
        assert_eq!(number(&n.to_string()), Some(n));
    }
    assert_eq!(number("18446744073709551616"), None);
    assert_eq!(number("00018446744073709551615"), Some(u64::MAX));
    assert_eq!(split_digits("12é3"), ("12", "é3"));
    assert_eq!(split_digits("x1"), ("", "x1"));
    for n in [0i32, -1, 7, i32::MAX, i32::MIN] {
        assert_eq!(signed_text(n), n.to_string());
        assert_eq!(signed(&n.to_string()), Some(n));
    }
    for s in [
        "", "+", "-", "+5", "--5", "2147483648", "-2147483649", "1 ", "-0", "99999999999999999999",
    ] {
        assert_eq!(signed(s), s.parse::<i32>().ok(), "{s:?}");
    }
}
