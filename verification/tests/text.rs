use sapxc::text::{is_whitespace, parse_number, split_lines};

#[test]
fn white_space_is_what_unicode_says() {
    for code in 0..=0x10ffffu32 {
        if let Some(c) = char::from_u32(code) {
            assert_eq!(is_whitespace(c), c.is_whitespace(), "U+{:04X}", code);
        }
    }
}

#[test]
fn white_space_examples() {
    assert!(is_whitespace(' '));
    assert!(is_whitespace('\t'));
    assert!(is_whitespace('\n'));
    assert!(is_whitespace('\r'));
    assert!(is_whitespace('\u{a0}'));
    assert!(is_whitespace('\u{3000}'));
    assert!(!is_whitespace('a'));
    assert!(!is_whitespace('0'));
    assert!(!is_whitespace('\u{200b}'));
}

#[test]
fn lines_end_at_line_feeds() {
    assert_eq!(split_lines("a\nb"), vec!["a", "b"]);
    assert_eq!(split_lines("a\nb\n"), vec!["a", "b"]);
    assert_eq!(split_lines("a\n\nb"), vec!["a", "", "b"]);
    assert_eq!(split_lines("\n"), vec![""]);
    assert_eq!(split_lines("\n\n"), vec!["", ""]);
    assert_eq!(split_lines("\nx"), vec!["", "x"]);
    assert_eq!(split_lines("one line"), vec!["one line"]);
}

#[test]
fn empty_text_has_no_lines() {
    assert_eq!(split_lines(""), Vec::<String>::new());
}

#[test]
fn lines_keep_carriage_returns() {
    assert_eq!(split_lines("a\r\nb\r\n"), vec!["a\r", "b\r"]);
}

#[test]
fn lines_agree_with_std_up_to_carriage_returns() {
    let texts = [
        "",
        "\n",
        "a",
        "a\n",
        "a\nb",
        "LDA A\nA = 5\n",
        "\n\n\nNOP\n\n",
        "x\r\ny\r\n",
        "tab\there\n  spaces  \n",
        "\u{3000}wide\u{2028}sep\nlast",
    ];
    for text in texts {
        let ours: Vec<String> =
            split_lines(text).iter().map(|l| l.trim_end_matches('\r').to_string()).collect();
        let theirs: Vec<String> = text.lines().map(|l| l.to_string()).collect();
        assert_eq!(ours, theirs, "{:?}", text);
    }
}

#[test]
fn numbers_are_signed_decimal_literals() {
    assert_eq!(parse_number("0"), Some(0));
    assert_eq!(parse_number("5"), Some(5));
    assert_eq!(parse_number("+5"), Some(5));
    assert_eq!(parse_number("-5"), Some(-5));
    assert_eq!(parse_number("007"), Some(7));
    assert_eq!(parse_number("-0"), Some(0));
    assert_eq!(parse_number("1234567890"), Some(1234567890));
}

#[test]
fn other_words_are_not_numbers() {
    assert_eq!(parse_number(""), None);
    assert_eq!(parse_number("-"), None);
    assert_eq!(parse_number("+"), None);
    assert_eq!(parse_number("--5"), None);
    assert_eq!(parse_number("+-5"), None);
    assert_eq!(parse_number("5-"), None);
    assert_eq!(parse_number("5x"), None);
    assert_eq!(parse_number("x5"), None);
    assert_eq!(parse_number("0x10"), None);
    assert_eq!(parse_number("1_000"), None);
    assert_eq!(parse_number("1.5"), None);
    assert_eq!(parse_number("A"), None);
    assert_eq!(parse_number("="), None);
    assert_eq!(parse_number("\u{663}"), None);
}

#[test]
fn numbers_must_fit_the_machine_word() {
    assert_eq!(parse_number(&isize::MAX.to_string()), Some(isize::MAX));
    assert_eq!(parse_number(&isize::MIN.to_string()), Some(isize::MIN));
    assert_eq!(parse_number(&format!("+{}", isize::MAX)), Some(isize::MAX));
    assert_eq!(parse_number(&format!("000{}", isize::MAX)), Some(isize::MAX));
    let above = (isize::MAX as i128 + 1).to_string();
    let below = (isize::MIN as i128 - 1).to_string();
    assert_eq!(parse_number(&above), None);
    assert_eq!(parse_number(&below), None);
    assert_eq!(parse_number("99999999999999999999999999999999999999999"), None);
    assert_eq!(parse_number("-99999999999999999999999999999999999999999"), None);
    assert_eq!(parse_number("99999999999999999999999999999999999999999x"), None);
}

#[test]
fn numbers_agree_with_std() {
    let words = [
        "", "0", "-0", "+0", "00", "1", "-1", "+1", "12", "-12", "+12", "1-2", "-+1", "+-1", "++1",
        "--1", " 1", "1 ", "a", "1a", "a1", "-a", "0x1", "1e3", "١", "9223372036854775807",
        "9223372036854775808", "-9223372036854775808", "-9223372036854775809",
        "2147483647", "2147483648", "-2147483648", "-2147483649",
        "00000000000000000000000000000000000000001", "18446744073709551616",
        "-", "+", "=", "<declaration>",
    ];
    for word in words {
        assert_eq!(parse_number(word), word.parse::<isize>().ok(), "{:?}", word);
    }
}
