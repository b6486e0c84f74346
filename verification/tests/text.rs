use scripture_lib::text;

#[test]
fn white_space_is_that_of_unicode() {
    for code in 0..=0x10ffff {
        if let Some(c) = char::from_u32(code) {
            assert_eq!(text::white_space(c), c.is_whitespace(), "{code:x}");
            assert_eq!(text::ascii_white_space(c), c.is_ascii_whitespace());
            assert_eq!(text::digit(c), c.is_ascii_digit());
        }
    }
}

const SAMPLES: [&str; 14] = [
    "",
    " ",
    "a",
    " a ",
    "\t a  b\r\n",
    "\u{a0}x\u{2003}y\u{3000}",
    "a,b-c,,-d",
    "-",
    "ABC xyz \u{c4}\u{e4}",
    "abc XYZ \u{c4}\u{e4}",
    "\u{200f}12",
    "\u{b}v\u{b}",
    "release/USX_1/GEN.usx",
    "\u{1f600} \u{1f600}",
];

#[test]
fn text_operations_agree_with_those_of_str() {
    for a in SAMPLES {
        assert_eq!(text::trim(a), a.trim());
        assert_eq!(text::trim(text::trim(a).as_str()), a.trim());
        assert_eq!(text::to_ascii_uppercase(a), a.to_ascii_uppercase());
        assert_eq!(
            text::split(a, '-', ','),
            a.split(['-', ',']).collect::<Vec<_>>()
        );
        let collapsed = a.split_ascii_whitespace().collect::<Vec<_>>().join(" ");
        assert_eq!(text::collapse_white_space(a), collapsed);
        assert_eq!(text::collapse_white_space(&collapsed), collapsed);
        assert_eq!(text::chars_of(a), a.chars().collect::<Vec<_>>());
        for b in SAMPLES {
            assert_eq!(text::same(a, b), a == b);
            assert_eq!(text::starts_with(a, b), a.starts_with(b));
            assert_eq!(text::ends_with(a, b), a.ends_with(b));
            assert_eq!(
                text::strip_prefix(a, b),
                a.strip_prefix(b).map(str::to_owned)
            );
            assert_eq!(
                text::eq_ignore_ascii_case(a, b),
                a.eq_ignore_ascii_case(b)
            );
        }
    }
}

#[test]
fn numerals_agree_with_those_of_u32() {
    for s in [
        "", "+", "-", "0", "00", "7", "+7", "++7", "-0", " 7", "7 ", "12a", "4294967295",
        "4294967296", "00004294967295", "99999999999999999999", "\u{663}",
    ] {
        assert_eq!(text::parse_u32(s), s.parse::<u32>().ok(), "{s:?}");
    }
    for n in [0, 1, 9, 10, 99, 100, 12345, u32::MAX] {
        assert_eq!(text::decimal_string(n), n.to_string());
        assert_eq!(text::parse_u32(&text::decimal_string(n)), Some(n));
    }
}

#[test]
fn strings_are_found_and_joined() {
    let list = vec!["a".to_owned(), "b c".to_owned()];
    assert!(text::contains(&list, "b c"));
    assert!(!text::contains(&list, "b"));
    assert_eq!(text::join_with_spaces(&list), "a b c");
    assert_eq!(text::join_with_spaces(&Vec::new()), "");
    assert_eq!(text::string_of(&['a', 'b', 'c'], 1, 3), "bc");
}
