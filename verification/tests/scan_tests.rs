use hocon::scan::{
    comment, integer, multiline_comment, multiline_string, possible_comment, quoted_string,
    recognize_number, skip_run,
    take_while_m_n, unquoted_string, CharClass,
};

fn chars(t: &str) -> Vec<char> {
    t.chars().collect()
}

#[test]
fn blanks_include_unicode_spaces() {
    let s = chars(" \t\u{feff}\u{a0}\u{2007}\u{202f}x");
    assert_eq!(skip_run(&s, 0, CharClass::Blank), 6);
    assert_eq!(skip_run(&s, 0, CharClass::Whitespace), 2);
}

#[test]
fn comment_runs_to_the_newline() {
    let s = chars("// one\nx");
    assert_eq!(comment(&s, 0), Some(6));
    let s = chars("# two\n");
    assert_eq!(comment(&s, 0), Some(5));
    let s = chars("/ not\n");
    assert_eq!(comment(&s, 0), None);
}

#[test]
fn comment_without_newline_is_none() {
    let s = chars("// no end");
    assert_eq!(comment(&s, 0), None);
}

#[test]
fn comment_block_takes_following_comments_and_whitespace() {
    let s = chars("\n\n  // a\n\n # b\n   x");
    assert_eq!(multiline_comment(&s, 0), Some(18));
    assert_eq!(possible_comment(&s, 0), 18);
    let s = chars("\n\n  x");
    assert_eq!(multiline_comment(&s, 0), None);
    assert_eq!(possible_comment(&s, 0), 0);
}

#[test]
fn number_needs_digits_in_each_part() {
    assert_eq!(recognize_number(&chars("-12.5e+3,"), 0), Some(8));
    assert_eq!(recognize_number(&chars("12.x"), 0), Some(2));
    assert_eq!(recognize_number(&chars("12e"), 0), Some(2));
    assert_eq!(recognize_number(&chars("12e+"), 0), Some(2));
    assert_eq!(recognize_number(&chars(".5"), 0), None);
    assert_eq!(recognize_number(&chars("-"), 0), None);
    assert_eq!(recognize_number(&chars("-x"), 0), None);
}

#[test]
fn integer_is_exact_at_the_limits() {
    let s = chars("9223372036854775807");
    assert_eq!(integer(&s, 0, s.len(), false), Some(i64::MAX));
    assert_eq!(integer(&s, 0, s.len(), true), Some(-i64::MAX));
    let s = chars("9223372036854775808");
    assert_eq!(integer(&s, 0, s.len(), false), None);
    assert_eq!(integer(&s, 0, s.len(), true), Some(i64::MIN));
    let s = chars("9223372036854775809");
    assert_eq!(integer(&s, 0, s.len(), true), None);
    let s = chars("00000000000000000000000000000000000042");
    assert_eq!(integer(&s, 0, s.len(), false), Some(42));
    let s = chars("123456789012345678901234567890123456789012345678901234567890");
    assert_eq!(integer(&s, 0, s.len(), false), None);
}

#[test]
fn quoted_string_gives_the_bounds_of_its_content() {
    assert_eq!(quoted_string(&chars(r#""a\"b" rest"#), 0), Some((1, 5, 6)));
    assert_eq!(quoted_string(&chars(r#""""#), 0), Some((1, 1, 2)));
    assert_eq!(quoted_string(&chars("\"a\nb\""), 0), None);
    assert_eq!(quoted_string(&chars(r#""a\qb""#), 0), None);
    assert_eq!(quoted_string(&chars(r#""open"#), 0), None);
}

#[test]
fn multiline_string_ends_with_the_last_three_of_a_run_of_quotes() {
    assert_eq!(multiline_string(&chars("\"\"\"a\"b\"\"\"\"x"), 0), Some((3, 7, 10)));
    assert_eq!(multiline_string(&chars("\"\"\"a\"\"b\"\"\""), 0), Some((3, 7, 10)));
    assert_eq!(multiline_string(&chars("\"\"\"\"\"\""), 0), Some((3, 3, 6)));
    assert_eq!(multiline_string(&chars("\"\"\"a\"\""), 0), None);
    assert_eq!(multiline_string(&chars("\"\"a\"\"\""), 0), None);
}

#[test]
fn unquoted_string_stops_at_structure_and_comments() {
    assert_eq!(unquoted_string(&chars("foo bar,"), 0), Some(7));
    assert_eq!(unquoted_string(&chars("a/b//c"), 0), Some(3));
    assert_eq!(unquoted_string(&chars("a/"), 0), Some(2));
    assert_eq!(unquoted_string(&chars("x\ty"), 0), Some(1));
    assert_eq!(unquoted_string(&chars("{x"), 0), None);
    assert_eq!(unquoted_string(&chars(""), 0), None);
    assert_eq!(unquoted_string(&chars("//"), 0), None);
}

#[test]
fn take_while_m_n_takes_at_most_n_and_needs_m() {
    let s = chars("12ab5xyz");
    assert_eq!(take_while_m_n(&s, 0, 0, 4, CharClass::HexDigit), Some(4));
    assert_eq!(take_while_m_n(&s, 0, 6, 8, CharClass::HexDigit), None);
    assert_eq!(take_while_m_n(&s, 5, 0, 4, CharClass::HexDigit), Some(5));
    assert_eq!(take_while_m_n(&s, 5, 1, 4, CharClass::HexDigit), None);
    assert_eq!(take_while_m_n(&s, 0, 2, 2, CharClass::Digit), Some(2));
}
