use kanit::text::{find_char, has_prefix, parse_decimal, repeat, split_lines, to_decimal};

#[test]
fn decimal_numerals() {
    assert_eq!(to_decimal(0), "0");
    assert_eq!(to_decimal(7), "7");
    assert_eq!(to_decimal(10), "10");
    assert_eq!(to_decimal(1234567890), "1234567890");
    assert_eq!(to_decimal(u64::MAX), "18446744073709551615");
}

#[test]
fn parse_decimal_reads_numerals() {
    assert_eq!(parse_decimal("0", 255), Some(0));
    assert_eq!(parse_decimal("007", 255), Some(7));
    assert_eq!(parse_decimal("+5", 255), Some(5));
    assert_eq!(parse_decimal("255", 255), Some(255));
    assert_eq!(
        parse_decimal("340282366920938463463374607431768211455", u128::MAX),
        Some(u128::MAX)
    );
}

#[test]
fn parse_decimal_refuses_what_is_no_numeral() {
    assert_eq!(parse_decimal("", 255), None);
    assert_eq!(parse_decimal("+", 255), None);
    assert_eq!(parse_decimal("-1", 255), None);
    assert_eq!(parse_decimal("++1", 255), None);
    assert_eq!(parse_decimal(" 1", 255), None);
    assert_eq!(parse_decimal("1 ", 255), None);
    assert_eq!(parse_decimal("1_0", 255), None);
    assert_eq!(parse_decimal("٣", 255), None);
    assert_eq!(parse_decimal("12a", 255), None);
}

#[test]
fn parse_decimal_refuses_what_is_too_large() {
    assert_eq!(parse_decimal("256", 255), None);
    assert_eq!(parse_decimal("1000", 255), None);
    assert_eq!(
        parse_decimal("340282366920938463463374607431768211456", u128::MAX),
        None
    );
    assert_eq!(parse_decimal("4294967296", 0xffff_ffff), None);
}

#[test]
fn parse_decimal_agrees_with_the_standard_parser() {
    for text in ["0", "1", "+1", "-1", "", "+", "00", "65535", "65536", "99999", "1x", "x1"] {
        assert_eq!(
            parse_decimal(text, u16::MAX as u128),
            text.parse::<u16>().ok().map(|n| n as u128),
            "{:?}",
            text
        );
    }
}

#[test]
fn repeat_and_prefix_and_find() {
    assert_eq!(repeat("ab", 0), "");
    assert_eq!(repeat("ab", 3), "ababab");
    assert!(has_prefix("getty@tty1", "getty"));
    assert!(has_prefix("getty", "getty"));
    assert!(!has_prefix("gett", "getty"));
    assert!(!has_prefix("agetty", "getty"));
    assert!(has_prefix("x", ""));
    assert_eq!(find_char("a=b=c", '='), Some(1));
    assert_eq!(find_char("ä=b", '='), Some(1));
    assert_eq!(find_char("abc", '='), None);
}

#[test]
fn lines_end_in_a_line_feed() {
    assert_eq!(split_lines(""), Vec::<String>::new());
    assert_eq!(split_lines("a"), vec!["a"]);
    assert_eq!(split_lines("a\n"), vec!["a"]);
    assert_eq!(split_lines("a\nb"), vec!["a", "b"]);
    assert_eq!(split_lines("\n"), vec![""]);
    assert_eq!(split_lines("\n\n"), vec!["", ""]);
    assert_eq!(split_lines("a\n\nb\n"), vec!["a", "", "b"]);
}

#[test]
fn a_carriage_return_before_a_line_feed_belongs_to_the_ending() {
    assert_eq!(split_lines("a\r\nb\r\n"), vec!["a", "b"]);
    assert_eq!(split_lines("a\r\r\nb"), vec!["a\r", "b"]);
    assert_eq!(split_lines("\r\n"), vec![""]);
    // a carriage return alone ends no line
    assert_eq!(split_lines("a\rb"), vec!["a\rb"]);
    assert_eq!(split_lines("a\r"), vec!["a\r"]);
    assert_eq!(split_lines("a\nb\r"), vec!["a", "b\r"]);
    assert_eq!(split_lines("\r"), vec!["\r"]);
}

#[test]
fn split_lines_agrees_with_the_standard_lines() {
    let marks = ['a', '\n', '\r', ' ', 'é'];
    let mut texts: Vec<String> = vec![String::new()];
    let mut from = 0;
    for _ in 0..5 {
        let upto = texts.len();
        for i in from..upto {
            for c in marks {
                let mut longer = texts[i].clone();
                longer.push(c);
                texts.push(longer);
            }
        }
        from = upto;
    }
    assert_eq!(texts.len(), 3906);
    for text in texts {
        let expected: Vec<String> = text.lines().map(|l| l.to_string()).collect();
        assert_eq!(split_lines(&text), expected, "{text:?}");
    }
}
