use hocon::unescape::unescape;

#[test]
fn unescape_plain_text_is_unchanged() {
    assert_eq!(unescape("hello world"), "hello world");
}

#[test]
fn unescape_two_character_escapes() {
    assert_eq!(unescape(r#"a\"b\\c\/d\be\ff\ng\rh\ti"#), "a\"b\\c/d\u{8}e\u{c}f\ng\rh\ti");
}

#[test]
fn unescape_unicode_escape() {
    assert_eq!(unescape(r"A\u00e9"), "A\u{e9}");
    assert_eq!(unescape(r"\u0041\u00E9"), "A\u{e9}");
}

#[test]
fn unescape_surrogate_pair_is_merged() {
    assert_eq!(unescape(r"\ud83d\ude00"), "\u{1f600}");
    assert_eq!(unescape(r"a\uD83D\uDE00b"), "a\u{1f600}b");
}

#[test]
fn unescape_lone_low_surrogate_is_dropped() {
    assert_eq!(unescape(r"x\ude00y"), "xy");
}

#[test]
fn unescape_lone_high_surrogate_is_dropped() {
    assert_eq!(unescape(r"x\ud83dy"), "xy");
    assert_eq!(unescape(r"x\ud83d\u0041"), "xA");
}

#[test]
fn unescape_joins_a_low_surrogate_only_with_the_high_one_before_it() {
    assert_eq!(unescape(r"\ud83dx\ude00"), "x");
    assert_eq!(unescape(r"\ud83d\n\ude00"), "\n");
    assert_eq!(unescape(r"\ud83d\ude00\ude00"), "\u{1f600}");
    assert_eq!(unescape(r"\ud83c\ud83d\ude00"), "\u{1f600}");
}

#[test]
fn unescape_short_unicode_escape_is_dropped() {
    assert_eq!(unescape(r"ab\u12"), "ab12");
}

#[test]
fn unescape_bad_digits_are_dropped() {
    assert_eq!(unescape(r"ab\uzzzzcd"), "abcd");
}

#[test]
fn unescape_plus_sign_is_no_digit() {
    assert_eq!(unescape(r"\u+041"), "");
    assert_eq!(unescape(r"\u+0411"), "1");
}

#[test]
fn unescape_keeps_text_beyond_ascii() {
    assert_eq!(unescape("h\u{e9}llo\\n\u{4e16}"), "h\u{e9}llo\n\u{4e16}");
}

#[test]
fn unescape_never_lengthens_a_text() {
    for text in [r"", r"plain", r"\n\t\\", r"\u0041\ud83d\ude00", r"\u12", r"\", r"a\qb", r"\uzzzz\"] {
        assert!(unescape(text).chars().count() <= text.chars().count(), "{:?}", text);
    }
}
