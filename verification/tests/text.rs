use hmtl_kernel::text;

fn chars(s: &str) -> Vec<char> {
    text::chars_of(s)
}

fn strings(list: Vec<Vec<char>>) -> Vec<String> {
    list.iter().map(|w| w.iter().collect()).collect()
}

fn samples() -> Vec<&'static str> {
    vec![
        "",
        " ",
        "\n",
        "\r\n",
        "\r",
        "a",
        "a\r",
        "a\n",
        "a\r\n",
        "a\r\r\nb",
        "\n\na\n\n",
        "cpu0  1 2\t3 \n",
        " lead and trail \u{3000}",
        "\u{85}\u{a0}x\u{2003}y\u{200b}z\u{2028}w",
        "MemTotal:       16384 kB\nMemFree: 3 kB",
        "grüße, 世界\nzwei",
        "no newline at end\nlast",
    ]
}

#[test]
fn white_space_is_that_of_unicode() {
    for n in 0..=0x10_FFFFu32 {
        if let Some(c) = char::from_u32(n) {
            assert_eq!(text::is_white_space(c), c.is_whitespace(), "{:#x}", n);
        }
    }
}

#[test]
fn characters_come_in_order() {
    assert_eq!(chars("grüße"), vec!['g', 'r', 'ü', 'ß', 'e']);
}

#[test]
fn words_are_split_at_white_space() {
    for s in samples() {
        let expected: Vec<&str> = s.split_whitespace().collect();
        assert_eq!(strings(text::split_words(&chars(s))), expected, "{:?}", s);
    }
}

#[test]
fn lines_are_split_at_line_endings() {
    for s in samples() {
        let expected: Vec<&str> = s.lines().collect();
        assert_eq!(strings(text::split_lines(&chars(s))), expected, "{:?}", s);
    }
}

#[test]
fn trimming_takes_white_space_off_both_ends() {
    for s in samples() {
        assert_eq!(text::trim(&chars(s)), chars(s.trim()), "{:?}", s);
    }
}

#[test]
fn prefixes_are_recognised() {
    for s in ["cpu0", "cpu ", "cpu", "cp", "", "xcpu"] {
        for prefix in ["cpu", "cpu ", "", "cpu01"] {
            assert_eq!(text::starts_with(&chars(s), prefix), s.starts_with(prefix));
        }
    }
}

#[test]
fn numbers_are_parsed() {
    for s in [
        "0",
        "7",
        "007",
        "+12",
        "++12",
        "+",
        "-",
        "-0",
        "",
        " 1",
        "1 ",
        "12a",
        "١",
        "255",
        "256",
        "18446744073709551615",
        "18446744073709551616",
        "99999999999999999999",
        "000000000000000000000000000001",
    ] {
        assert_eq!(text::parse_number(&chars(s), u64::MAX), s.parse::<u64>().ok(), "{:?}", s);
        assert_eq!(
            text::parse_number(&chars(s), 255),
            s.parse::<u8>().ok().map(|n| n as u64),
            "{:?}",
            s
        );
    }
}
