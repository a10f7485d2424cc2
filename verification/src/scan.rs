//! The lexical layer of the notation: blanks, comments, numbers, quoted,
//! multi-line and unquoted strings. Every scanner takes the text and a start
//! position and says where the token ends.

use vstd::prelude::*;

verus! {

/// The sets of characters that the scanners skip over.
#[derive(Clone, Copy, Debug, PartialEq, Eq)]
pub enum CharClass {
    /// Space, tab and the Unicode blanks that may stand between tokens.
    Blank,
    /// Space, tab, carriage return and newline.
    Whitespace,
    /// The newline character.
    Newline,
    /// Everything but the newline character.
    NotNewline,
    /// The decimal digits.
    Digit,
    /// The double quote.
    Quote,
    /// What may stand in an unquoted string (a `/` is looked at separately).
    Plain,
    /// The hexadecimal digits, in either case.
    HexDigit,
    /// What is cut off the ends of a word: blanks and whitespace.
    Space,
    /// Everything but the dot that parts the steps of a path.
    NotDot,
    /// Everything but the backslash that begins an escape sequence.
    NotBackslash,
}

/// The characters that end an unquoted string.
pub open spec fn is_structural(c: char) -> bool {
    c == '$' || c == '"' || c == '{' || c == '}' || c == '[' || c == ']' || c == ':' || c == '='
        || c == ',' || c == '+' || c == '#' || c == '`' || c == '^' || c == '?' || c == '!' || c
        == '@' || c == '*' || c == '&' || c == '\'' || c == '\\' || c == '\t' || c == '\n'
}

impl CharClass {
    /// Whether `c` belongs to the class.
    pub open spec fn holds(self, c: char) -> bool {
        match self {
            CharClass::Blank => c == ' ' || c == '\t' || c == '\u{feff}' || c == '\u{00a0}' || c
                == '\u{2007}' || c == '\u{202f}',
            CharClass::Whitespace => c == ' ' || c == '\t' || c == '\r' || c == '\n',
            CharClass::Newline => c == '\n',
            CharClass::NotNewline => c != '\n',
            CharClass::Digit => '0' <= c && c <= '9',
            CharClass::Quote => c == '"',
            CharClass::Plain => !is_structural(c),
            CharClass::HexDigit => ('0' <= c && c <= '9') || ('a' <= c && c <= 'f') || ('A' <= c
                && c <= 'F'),
            CharClass::Space => c == ' ' || c == '\t' || c == '\r' || c == '\n' || c == '\u{feff}'
                || c == '\u{00a0}' || c == '\u{2007}' || c == '\u{202f}',
            CharClass::NotDot => c != '.',
            CharClass::NotBackslash => c != '\\',
        }
    }

    /// Whether `c` belongs to the class.
    pub fn test(self, c: char) -> (r: bool)
        ensures
            r == self.holds(c),
    {
        match self {
            CharClass::Blank => c == ' ' || c == '\t' || c == '\u{feff}' || c == '\u{00a0}' || c
                == '\u{2007}' || c == '\u{202f}',
            CharClass::Whitespace => c == ' ' || c == '\t' || c == '\r' || c == '\n',
            CharClass::Newline => c == '\n',
            CharClass::NotNewline => c != '\n',
            CharClass::Digit => '0' <= c && c <= '9',
            CharClass::Quote => c == '"',
            CharClass::Plain => !(c == '$' || c == '"' || c == '{' || c == '}' || c == '[' || c
                == ']' || c == ':' || c == '=' || c == ',' || c == '+' || c == '#' || c == '`'
                || c == '^' || c == '?' || c == '!' || c == '@' || c == '*' || c == '&' || c
                == '\'' || c == '\\' || c == '\t' || c == '\n'),
            CharClass::HexDigit => ('0' <= c && c <= '9') || ('a' <= c && c <= 'f') || ('A' <= c
                && c <= 'F'),
            CharClass::Space => c == ' ' || c == '\t' || c == '\r' || c == '\n' || c == '\u{feff}'
                || c == '\u{00a0}' || c == '\u{2007}' || c == '\u{202f}',
            CharClass::NotDot => c != '.',
            CharClass::NotBackslash => c != '\\',
        }
    }
}

/// The end of the longest run of characters of `class` that starts at `pos`.
pub open spec fn run_end(s: Seq<char>, pos: int, class: CharClass) -> int
    decreases s.len() - pos,
{
    if 0 <= pos < s.len() && class.holds(s[pos]) {
        run_end(s, pos + 1, class)
    } else {
        pos
    }
}

/// A run ends inside the text, at or after its start; every character in it
/// belongs to the class and the one after it, if any, does not.
pub proof fn lemma_run_end(s: Seq<char>, pos: int, class: CharClass)
    requires
        0 <= pos <= s.len(),
    ensures
        pos <= run_end(s, pos, class) <= s.len(),
        forall|i: int| pos <= i < run_end(s, pos, class) ==> class.holds(#[trigger] s[i]),
        run_end(s, pos, class) < s.len() ==> !class.holds(s[run_end(s, pos, class)]),
    decreases s.len() - pos,
{
    if pos < s.len() && class.holds(s[pos]) {
        lemma_run_end(s, pos + 1, class);
    }
}

/// Skips the longest run of characters of `class` that starts at `pos`.
pub fn skip_run(s: &Vec<char>, pos: usize, class: CharClass) -> (end: usize)
    requires
        pos <= s.len(),
    ensures
        end == run_end(s@, pos as int, class),
        pos <= end <= s.len(),
{
    let mut i: usize = pos;
    while i < s.len() && class.test(s[i])
        invariant
            pos <= i <= s.len(),
            run_end(s@, pos as int, class) == run_end(s@, i as int, class),
        decreases s.len() - i,
    {
        i += 1;
    }
    i
}

/// Where a one-line comment that starts at `pos` ends: at the newline that
/// follows `//` or `#`. A comment that no newline ends is none.
pub open spec fn comment_end(s: Seq<char>, pos: int) -> Option<int> {
    let body = if 0 <= pos && pos + 1 < s.len() && s[pos] == '/' && s[pos + 1] == '/' {
        pos + 2
    } else if 0 <= pos < s.len() && s[pos] == '#' {
        pos + 1
    } else {
        -1
    };
    if body < 0 {
        None
    } else if run_end(s, body, CharClass::NotNewline) < s.len() {
        Some(run_end(s, body, CharClass::NotNewline))
    } else {
        None
    }
}

/// Scans a one-line comment.
pub fn comment(s: &Vec<char>, pos: usize) -> (r: Option<usize>)
    requires
        pos <= s.len(),
    ensures
        r.is_some() == comment_end(s@, pos as int).is_some(),
        r matches Some(end) ==> comment_end(s@, pos as int) == Some(end as int) && pos < end
            < s.len(),
{
    let body: usize = if pos < s.len() && s.len() - pos >= 2 && s[pos] == '/' && s[pos + 1]
        == '/' {
        pos + 2
    } else if pos < s.len() && s[pos] == '#' {
        pos + 1
    } else {
        return None;
    };
    let end = skip_run(s, body, CharClass::NotNewline);
    if end < s.len() {
        Some(end)
    } else {
        None
    }
}

/// The end of a run of newlines and of comments that blanks may precede.
pub open spec fn comment_lines_end(s: Seq<char>, pos: int) -> int
    decreases s.len() - pos,
{
    if 0 <= pos < s.len() && s[pos] == '\n' {
        comment_lines_end(s, pos + 1)
    } else {
        match comment_end(s, run_end(s, pos, CharClass::Blank)) {
            Some(end) => if pos < end <= s.len() {
                comment_lines_end(s, end)
            } else {
                pos
            },
            None => pos,
        }
    }
}

/// Where a block of comments that starts at `pos` ends. The block is: any
/// newlines, blanks, one comment, then newlines and further comments, then
/// whitespace. Without a comment there is no block.
pub open spec fn comment_block_end(s: Seq<char>, pos: int) -> Option<int> {
    let a = run_end(s, pos, CharClass::Newline);
    let b = run_end(s, a, CharClass::Blank);
    match comment_end(s, b) {
        Some(c) => Some(run_end(s, comment_lines_end(s, c), CharClass::Whitespace)),
        None => None,
    }
}

/// The position after an optional block of comments.
pub open spec fn after_comments(s: Seq<char>, pos: int) -> int {
    match comment_block_end(s, pos) {
        Some(end) => end,
        None => pos,
    }
}

/// Scans a run of newlines and comments.
pub fn comment_lines(s: &Vec<char>, pos: usize) -> (end: usize)
    requires
        pos <= s.len(),
    ensures
        end == comment_lines_end(s@, pos as int),
        pos <= end <= s.len(),
{
    let mut i: usize = pos;
    loop
        invariant
            pos <= i <= s.len(),
            comment_lines_end(s@, pos as int) == comment_lines_end(s@, i as int),
        ensures
            pos <= i <= s.len(),
            i == comment_lines_end(s@, pos as int),
        decreases s.len() - i,
    {
        if i < s.len() && s[i] == '\n' {
            i += 1;
        } else {
            let b = skip_run(s, i, CharClass::Blank);
            match comment(s, b) {
                Some(end) => {
                    i = end;
                },
                None => {
                    break ;
                },
            }
        }
    }
    i
}

/// Scans a block of comments.
pub fn multiline_comment(s: &Vec<char>, pos: usize) -> (r: Option<usize>)
    requires
        pos <= s.len(),
    ensures
        r.is_some() == comment_block_end(s@, pos as int).is_some(),
        r matches Some(end) ==> comment_block_end(s@, pos as int) == Some(end as int) && pos < end
            <= s.len(),
{
    let a = skip_run(s, pos, CharClass::Newline);
    let b = skip_run(s, a, CharClass::Blank);
    match comment(s, b) {
        Some(c) => {
            let d = comment_lines(s, c);
            Some(skip_run(s, d, CharClass::Whitespace))
        },
        None => None,
    }
}

/// Skips an optional block of comments.
pub fn possible_comment(s: &Vec<char>, pos: usize) -> (end: usize)
    requires
        pos <= s.len(),
    ensures
        end == after_comments(s@, pos as int),
        pos <= end <= s.len(),
{
    match multiline_comment(s, pos) {
        Some(end) => end,
        None => pos,
    }
}

/// Where a number that starts at `pos` ends: an optional minus sign, digits,
/// an optional fraction and an optional exponent, each part of which needs at
/// least one digit.
pub open spec fn number_end(s: Seq<char>, pos: int) -> Option<int> {
    let first = if 0 <= pos < s.len() && s[pos] == '-' {
        pos + 1
    } else {
        pos
    };
    let whole = run_end(s, first, CharClass::Digit);
    if first < 0 || whole <= first {
        None
    } else {
        Some(exponent_end(s, fraction_end(s, whole)))
    }
}

/// The position after an optional fraction that starts at `pos`.
pub open spec fn fraction_end(s: Seq<char>, pos: int) -> int {
    if 0 <= pos < s.len() && s[pos] == '.' && run_end(s, pos + 1, CharClass::Digit) > pos + 1 {
        run_end(s, pos + 1, CharClass::Digit)
    } else {
        pos
    }
}

/// The position after an optional exponent that starts at `pos`.
pub open spec fn exponent_end(s: Seq<char>, pos: int) -> int {
    if 0 <= pos < s.len() && (s[pos] == 'e' || s[pos] == 'E') {
        let digits = if pos + 1 < s.len() && (s[pos + 1] == '+' || s[pos + 1] == '-') {
            pos + 2
        } else {
            pos + 1
        };
        if run_end(s, digits, CharClass::Digit) > digits {
            run_end(s, digits, CharClass::Digit)
        } else {
            pos
        }
    } else {
        pos
    }
}

/// Whether the number that starts at `pos` is written with digits alone
/// behind its optional sign.
pub open spec fn number_is_whole(s: Seq<char>, pos: int) -> bool {
    let first = if 0 <= pos < s.len() && s[pos] == '-' {
        pos + 1
    } else {
        pos
    };
    number_end(s, pos) == Some(run_end(s, first, CharClass::Digit))
}

/// Scans a number.
pub fn recognize_number(s: &Vec<char>, pos: usize) -> (r: Option<usize>)
    requires
        pos <= s.len(),
    ensures
        r.is_some() == number_end(s@, pos as int).is_some(),
        r matches Some(end) ==> number_end(s@, pos as int) == Some(end as int) && pos < end
            <= s.len(),
{
    let first: usize = if pos < s.len() && s[pos] == '-' {
        pos + 1
    } else {
        pos
    };
    let whole = skip_run(s, first, CharClass::Digit);
    if whole <= first {
        return None;
    }
    let mut end: usize = whole;
    if end < s.len() && s[end] == '.' {
        let f = skip_run(s, end + 1, CharClass::Digit);
        if f > end + 1 {
            end = f;
        }
    }
    if end < s.len() && (s[end] == 'e' || s[end] == 'E') {
        let digits: usize = if end + 1 < s.len() && (s[end + 1] == '+' || s[end + 1] == '-') {
            end + 2
        } else {
            end + 1
        };
        let e = skip_run(s, digits, CharClass::Digit);
        if e > digits {
            end = e;
        }
    }
    Some(end)
}

/// The number that a character stands for as a digit, in any base up to 16.
pub open spec fn digit_value(c: char) -> int {
    if '0' <= c && c <= '9' {
        c as int - '0' as int
    } else if 'a' <= c && c <= 'f' {
        c as int - 'a' as int + 10
    } else if 'A' <= c && c <= 'F' {
        c as int - 'A' as int + 10
    } else {
        0
    }
}

/// The number that a run of digits denotes in the given base.
pub open spec fn digits_value(digits: Seq<char>, base: int) -> int
    decreases digits.len(),
{
    if digits.len() == 0 {
        0
    } else {
        digits_value(digits.drop_last(), base) * base + digit_value(digits.last())
    }
}

/// The value of a run of digits is not negative.
pub proof fn lemma_digits_value_nonnegative(digits: Seq<char>, base: int)
    requires
        base >= 0,
    ensures
        digits_value(digits, base) >= 0,
    decreases digits.len(),
{
    if digits.len() > 0 {
        lemma_digits_value_nonnegative(digits.drop_last(), base);
        assert(digits_value(digits.drop_last(), base) * base >= 0) by (nonlinear_arith)
            requires
                digits_value(digits.drop_last(), base) >= 0,
                base >= 0,
        ;
    }
}

/// The 64-bit integer that the decimal digits `s[from..to]` denote, negated
/// if `negative`; none if it does not fit.
pub open spec fn integer_of(digits: Seq<char>, negative: bool) -> Option<i64> {
    let n = if negative {
        -digits_value(digits, 10)
    } else {
        digits_value(digits, 10)
    };
    if i64::MIN <= n <= i64::MAX {
        Some(n as i64)
    } else {
        None
    }
}

/// Converts the decimal digits `s[from..to]` to a 64-bit integer.
pub fn integer(s: &Vec<char>, from: usize, to: usize, negative: bool) -> (r: Option<i64>)
    requires
        from <= to <= s.len(),
        forall|i: int| from <= i < to ==> CharClass::Digit.holds(#[trigger] s@[i]),
    ensures
        r == integer_of(s@.subrange(from as int, to as int), negative),
{
    let limit: u128 = 0x8000_0000_0000_0000;
    let mut acc: u128 = 0;
    let mut i: usize = from;
    while i < to
        invariant
            from <= i <= to <= s.len(),
            limit == 0x8000_0000_0000_0000u128,
            forall|k: int| from <= k < to ==> CharClass::Digit.holds(#[trigger] s@[k]),
            acc <= limit,
            acc == digits_value(s@.subrange(from as int, i as int), 10),
        decreases to - i,
    {
        let c = s[i];
        assert(CharClass::Digit.holds(s@[i as int]));
        let d: u128 = (c as u32 - '0' as u32) as u128;
        proof {
            let next = s@.subrange(from as int, i + 1);
            assert(next.drop_last() =~= s@.subrange(from as int, i as int));
            assert(next.last() == c);
            assert(digits_value(next, 10) == acc * 10 + d);
        }
        if acc * 10 + d > limit {
            proof {
                lemma_digits_grow(s@.subrange(from as int, i + 1), s@.subrange(i + 1, to as int));
                assert(s@.subrange(from as int, i + 1) + s@.subrange(i + 1, to as int) =~= s@.subrange(
                    from as int,
                    to as int,
                ));
            }
            return None;
        }
        acc = acc * 10 + d;
        i += 1;
    }
    if negative {
        let v: i128 = -(acc as i128);
        Some(v as i64)
    } else if acc < limit {
        Some(acc as i64)
    } else {
        None
    }
}

/// Further digits never make a number smaller.
pub proof fn lemma_digits_grow(head: Seq<char>, tail: Seq<char>)
    ensures
        digits_value(head + tail, 10) >= digits_value(head, 10),
    decreases tail.len(),
{
    if tail.len() == 0 {
        assert(head + tail =~= head);
    } else {
        lemma_digits_grow(head, tail.drop_last());
        assert((head + tail).drop_last() =~= head + tail.drop_last());
        lemma_digits_value_nonnegative(head, 10);
    }
}

/// The end of the longest run of at most `max` characters of `class` that
/// starts at `pos`.
pub open spec fn bounded_run_end(s: Seq<char>, pos: int, max: int, class: CharClass) -> int
    decreases max,
{
    if max > 0 && 0 <= pos < s.len() && class.holds(s[pos]) {
        bounded_run_end(s, pos + 1, max - 1, class)
    } else {
        pos
    }
}

/// A bounded run ends inside the text, at most `max` characters after its
/// start, and every character in it belongs to the class; where `max`
/// characters of the class stand at `pos`, it takes them all.
pub proof fn lemma_bounded_run_end(s: Seq<char>, pos: int, max: int, class: CharClass)
    requires
        0 <= pos <= s.len(),
        0 <= max,
    ensures
        pos <= bounded_run_end(s, pos, max, class) <= pos + max,
        bounded_run_end(s, pos, max, class) <= s.len(),
        forall|i: int|
            pos <= i < bounded_run_end(s, pos, max, class) ==> class.holds(#[trigger] s[i]),
        (pos + max <= s.len() && forall|i: int| pos <= i < pos + max ==> class.holds(#[trigger] s[i]))
            ==> bounded_run_end(s, pos, max, class) == pos + max,
    decreases max,
{
    if max > 0 && pos < s.len() && class.holds(s[pos]) {
        lemma_bounded_run_end(s, pos + 1, max - 1, class);
    }
}

/// Takes between `min` and `max` characters of `class`, as many as there are;
/// none if there are fewer than `min`.
pub fn take_while_m_n(s: &Vec<char>, pos: usize, min: usize, max: usize, class: CharClass) -> (r:
    Option<usize>)
    requires
        pos <= s.len(),
    ensures
        r == (if bounded_run_end(s@, pos as int, max as int, class) - pos >= min {
            Some(bounded_run_end(s@, pos as int, max as int, class) as usize)
        } else {
            None
        }),
        r matches Some(end) ==> pos <= end <= s.len() && end - pos <= max,
{
    let mut count: usize = 0;
    while count < max && pos + count < s.len() && class.test(s[pos + count])
        invariant
            count <= max,
            pos + count <= s.len(),
            bounded_run_end(s@, pos as int, max as int, class) == bounded_run_end(
                s@,
                pos + count,
                max - count,
                class,
            ),
        decreases max - count,
    {
        count += 1;
    }
    if count >= min {
        Some(pos + count)
    } else {
        None
    }
}

/// The characters that may follow a backslash in a quoted string.
pub open spec fn is_escape_letter(c: char) -> bool {
    c == '"' || c == '\\' || c == '/' || c == 'b' || c == 'f' || c == 'n' || c == 'r' || c == 't'
        || c == 'u'
}

/// Where one unit of a quoted string's content ends: a character other than
/// backslash, quote and newline; or a backslash and an escape letter other
/// than `u`; or `\u` and four hexadecimal digits. A `\u` with fewer digits
/// behind it is no unit.
pub open spec fn string_unit_end(s: Seq<char>, pos: int) -> Option<int> {
    if !(0 <= pos < s.len()) {
        None
    } else if s[pos] != '\\' && s[pos] != '"' && s[pos] != '\n' {
        Some(pos + 1)
    } else if s[pos] == '\\' && pos + 1 < s.len() && s[pos + 1] == 'u' {
        if bounded_run_end(s, pos + 2, 4, CharClass::HexDigit) == pos + 6 {
            Some(pos + 6)
        } else {
            None
        }
    } else if s[pos] == '\\' && pos + 1 < s.len() && is_escape_letter(s[pos + 1]) {
        Some(pos + 2)
    } else {
        None
    }
}

/// The end of the content of a quoted string whose content starts at `pos`.
pub open spec fn string_content_end(s: Seq<char>, pos: int) -> int
    decreases s.len() - pos,
{
    match string_unit_end(s, pos) {
        Some(end) => if pos < end <= s.len() {
            string_content_end(s, end)
        } else {
            pos
        },
        None => pos,
    }
}

/// A quoted string that starts at `pos`: the bounds of its content, still
/// escaped, and the position after the closing quote.
pub open spec fn quoted_string_at(s: Seq<char>, pos: int) -> Option<(int, int, int)> {
    let end = string_content_end(s, pos + 1);
    if 0 <= pos < s.len() && s[pos] == '"' && end < s.len() && s[end] == '"' {
        Some((pos + 1, end, end + 1))
    } else {
        None
    }
}

/// Scans one unit of a quoted string's content.
pub fn string_unit(s: &Vec<char>, pos: usize) -> (r: Option<usize>)
    requires
        pos <= s.len(),
    ensures
        r.is_some() == string_unit_end(s@, pos as int).is_some(),
        r matches Some(end) ==> string_unit_end(s@, pos as int) == Some(end as int) && pos < end
            <= s.len(),
{
    if pos >= s.len() {
        return None;
    }
    let c = s[pos];
    if c != '\\' && c != '"' && c != '\n' {
        return Some(pos + 1);
    }
    if c == '\\' && pos + 1 < s.len() {
        let e = s[pos + 1];
        if e == 'u' {
            proof {
                lemma_bounded_run_end(s@, pos + 2, 4, CharClass::HexDigit);
            }
            return take_while_m_n(s, pos + 2, 4, 4, CharClass::HexDigit);
        }
        if e == '"' || e == '\\' || e == '/' || e == 'b' || e == 'f' || e == 'n' || e == 'r' || e
            == 't' {
            return Some(pos + 2);
        }
    }
    None
}

/// Scans the content of a quoted string.
pub fn string_content(s: &Vec<char>, pos: usize) -> (end: usize)
    requires
        pos <= s.len(),
    ensures
        end == string_content_end(s@, pos as int),
        pos <= end <= s.len(),
{
    let mut i: usize = pos;
    loop
        invariant
            pos <= i <= s.len(),
            string_content_end(s@, pos as int) == string_content_end(s@, i as int),
        ensures
            pos <= i <= s.len(),
            i == string_content_end(s@, pos as int),
        decreases s.len() - i,
    {
        match string_unit(s, i) {
            Some(end) => {
                i = end;
            },
            None => {
                break ;
            },
        }
    }
    i
}

/// Scans a quoted string: the bounds of its content and the position after it.
pub fn quoted_string(s: &Vec<char>, pos: usize) -> (r: Option<(usize, usize, usize)>)
    requires
        pos <= s.len(),
    ensures
        r.is_some() == quoted_string_at(s@, pos as int).is_some(),
        r matches Some(t) ==> quoted_string_at(s@, pos as int) == Some(
            (t.0 as int, t.1 as int, t.2 as int),
        ) && pos < t.0 <= t.1 < t.2 <= s.len(),
{
    if pos >= s.len() || s[pos] != '"' {
        return None;
    }
    let end = string_content(s, pos + 1);
    if end < s.len() && s[end] == '"' {
        Some((pos + 1, end, end + 1))
    } else {
        None
    }
}

/// The end of the first run of three or more quotes at or after `pos`.
pub open spec fn closing_quotes_end(s: Seq<char>, pos: int) -> Option<int>
    decreases s.len() - pos,
{
    if !(0 <= pos < s.len()) {
        None
    } else if s[pos] == '"' {
        let end = run_end(s, pos, CharClass::Quote);
        if end - pos >= 3 {
            Some(end)
        } else if pos < end <= s.len() {
            closing_quotes_end(s, end)
        } else {
            None
        }
    } else {
        closing_quotes_end(s, pos + 1)
    }
}

/// A multi-line string that starts at `pos`: the bounds of its content and
/// the position after it. The string ends with the first run of three or
/// more quotes; the last three of them close it and the others are content.
pub open spec fn multiline_string_at(s: Seq<char>, pos: int) -> Option<(int, int, int)> {
    if 0 <= pos && pos + 3 <= s.len() && s[pos] == '"' && s[pos + 1] == '"' && s[pos + 2]
        == '"' {
        match closing_quotes_end(s, pos + 3) {
            Some(end) => Some((pos + 3, end - 3, end)),
            None => None,
        }
    } else {
        None
    }
}

/// What holds of the end of the closing quotes: the three characters before
/// it are quotes that stand at or after the start, no quote follows them,
/// and before them no three quotes stand in a row.
pub proof fn lemma_closing_quotes(s: Seq<char>, pos: int)
    requires
        0 <= pos <= s.len(),
    ensures
        closing_quotes_end(s, pos) matches Some(end) ==> {
            &&& pos + 3 <= end <= s.len()
            &&& s[end - 1] == '"' && s[end - 2] == '"' && s[end - 3] == '"'
            &&& end < s.len() ==> s[end] != '"'
            &&& forall|i: int|
                pos <= i && i + 3 < end ==> !(#[trigger] s[i] == '"' && s[i + 1] == '"' && s[i + 2]
                    == '"' && s[i + 3] != '"')
        },
    decreases s.len() - pos,
{
    if pos < s.len() {
        if s[pos] == '"' {
            let end = run_end(s, pos, CharClass::Quote);
            lemma_run_end(s, pos, CharClass::Quote);
            if end - pos >= 3 {
                assert(CharClass::Quote.holds(s[end - 1]));
                assert(CharClass::Quote.holds(s[end - 2]));
                assert(CharClass::Quote.holds(s[end - 3]));
                assert forall|i: int| pos <= i && i + 3 < end implies !(#[trigger] s[i] == '"'
                    && s[i + 1] == '"' && s[i + 2] == '"' && s[i + 3] != '"') by {
                    assert(CharClass::Quote.holds(s[i + 3]));
                }
            } else {
                lemma_closing_quotes(s, end);
                if let Some(e) = closing_quotes_end(s, end) {
                    assert forall|i: int| pos <= i && i + 3 < e implies !(#[trigger] s[i] == '"'
                        && s[i + 1] == '"' && s[i + 2] == '"' && s[i + 3] != '"') by {
                        if i < end {
                            if i + 2 < end {
                            } else if i + 1 < end {
                                assert(!CharClass::Quote.holds(s[end]));
                            } else {
                                assert(!CharClass::Quote.holds(s[end]));
                            }
                        }
                    }
                }
            }
        } else {
            lemma_closing_quotes(s, pos + 1);
        }
    }
}

/// Scans a multi-line string.
pub fn multiline_string(s: &Vec<char>, pos: usize) -> (r: Option<(usize, usize, usize)>)
    requires
        pos <= s.len(),
    ensures
        r.is_some() == multiline_string_at(s@, pos as int).is_some(),
        r matches Some(t) ==> multiline_string_at(s@, pos as int) == Some(
            (t.0 as int, t.1 as int, t.2 as int),
        ) && pos < t.0 <= t.1 < t.2 <= s.len(),
{
    if s.len() - pos < 3 || s[pos] != '"' || s[pos + 1] != '"' || s[pos + 2] != '"' {
        return None;
    }
    let mut i: usize = pos + 3;
    while i < s.len()
        invariant
            pos + 3 <= i <= s.len(),
            s@[pos as int] == '"' && s@[pos + 1] == '"' && s@[pos + 2] == '"',
            closing_quotes_end(s@, pos + 3) == closing_quotes_end(s@, i as int),
        decreases s.len() - i,
    {
        if s[i] == '"' {
            let end = skip_run(s, i, CharClass::Quote);
            if end - i >= 3 {
                return Some((pos + 3, end - 3, end));
            }
            proof {
                lemma_run_end(s@, i as int, CharClass::Quote);
                assert(run_end(s@, i as int, CharClass::Quote) > i);
            }
            i = end;
        } else {
            i += 1;
        }
    }
    None
}

/// The end of an unquoted string that starts at `pos`: it runs up to the
/// first structural character or the first `//`.
pub open spec fn unquoted_end(s: Seq<char>, pos: int) -> int
    decreases s.len() - pos,
{
    if 0 <= pos < s.len() && !is_structural(s[pos]) && !(s[pos] == '/' && pos + 1 < s.len()
        && s[pos + 1] == '/') {
        unquoted_end(s, pos + 1)
    } else {
        pos
    }
}

/// An unquoted string that starts at `pos`, if it holds a character at all.
pub open spec fn unquoted_string_at(s: Seq<char>, pos: int) -> Option<int> {
    if unquoted_end(s, pos) > pos {
        Some(unquoted_end(s, pos))
    } else {
        None
    }
}

/// An unquoted string holds no structural character and no `//`, and is
/// followed by one of them or by the end of the text.
pub proof fn lemma_unquoted_end(s: Seq<char>, pos: int)
    requires
        0 <= pos <= s.len(),
    ensures
        pos <= unquoted_end(s, pos) <= s.len(),
        forall|i: int|
            pos <= i < unquoted_end(s, pos) ==> !is_structural(#[trigger] s[i]) && !(s[i] == '/'
                && i + 1 < s.len() && s[i + 1] == '/'),
        unquoted_end(s, pos) < s.len() ==> is_structural(s[unquoted_end(s, pos)]) || (s[unquoted_end(
            s,
            pos,
        )] == '/' && unquoted_end(s, pos) + 1 < s.len() && s[unquoted_end(s, pos) + 1] == '/'),
    decreases s.len() - pos,
{
    if pos < s.len() && !is_structural(s[pos]) && !(s[pos] == '/' && pos + 1 < s.len() && s[pos
        + 1] == '/') {
        lemma_unquoted_end(s, pos + 1);
    }
}

/// Scans an unquoted string.
pub fn unquoted_string(s: &Vec<char>, pos: usize) -> (r: Option<usize>)
    requires
        pos <= s.len(),
    ensures
        r.is_some() == unquoted_string_at(s@, pos as int).is_some(),
        r matches Some(end) ==> unquoted_string_at(s@, pos as int) == Some(end as int) && pos
            < end <= s.len(),
{
    let mut end: usize = pos;
    while end < s.len()
        invariant
            pos <= end <= s.len(),
            unquoted_end(s@, pos as int) == unquoted_end(s@, end as int),
        ensures
            pos <= end <= s.len(),
            unquoted_end(s@, pos as int) == end,
        decreases s.len() - end,
    {
        let c = s[end];
        if !CharClass::Plain.test(c) {
            break ;
        }
        if c == '/' && end + 1 < s.len() && s[end + 1] == '/' {
            break ;
        }
        end += 1;
    }
    if end == pos {
        None
    } else {
        Some(end)
    }
}

} // verus!
