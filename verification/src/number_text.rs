//! Numbers as they are written. A number that is no 64-bit integer is
//! kept as its text; this module says which texts are such numbers, and
//! that the grammar reads each of them back as it is.

use crate::grammar::{char_at, number_at};
use crate::scan::{
    exponent_end, fraction_end, integer_of, lemma_run_end, multiline_string_at, number_end,
    number_is_whole, quoted_string_at, run_end, CharClass,
};
use crate::text::occurs_at;
use crate::value::ValueView;
use vstd::prelude::*;

verus! {

/// Where the digits of the number `t` start: behind its minus sign, if it
/// has one.
pub open spec fn digits_start(t: Seq<char>) -> int {
    if t.len() > 0 && t[0] == '-' {
        1
    } else {
        0
    }
}

/// Whether `t` is, from its first character to its last, one number of the
/// grammar that is no 64-bit integer: it has a fraction or an exponent, or
/// its digits denote a number beyond the 64-bit integers.
pub open spec fn real_text(t: Seq<char>) -> bool {
    number_end(t, 0) == Some(t.len() as int) && !(number_is_whole(t, 0) && integer_of(
        t.subrange(digits_start(t), t.len() as int),
        digits_start(t) == 1,
    ) is Some)
}

/// The characters that a number is written with.
pub open spec fn number_char(c: char) -> bool {
    CharClass::Digit.holds(c) || c == '-' || c == '+' || c == '.' || c == 'e' || c == 'E'
}

/// A run of digits in a text that stands in another text, with something
/// that is no digit behind it, is the same run in the other text.
pub proof fn lemma_digits_local(s: Seq<char>, pos: int, t: Seq<char>, i: int)
    requires
        occurs_at(s, pos, t),
        0 <= i <= t.len(),
        pos + t.len() < s.len(),
        !CharClass::Digit.holds(s[pos + t.len()]),
    ensures
        run_end(s, pos + i, CharClass::Digit) == pos + run_end(t, i, CharClass::Digit),
        i <= run_end(t, i, CharClass::Digit) <= t.len(),
    decreases t.len() - i,
{
    if i < t.len() {
        assert(s[pos + i] == t[i]) by {
            assert(s.subrange(pos, pos + t.len())[i] == t[i]);
        }
        if CharClass::Digit.holds(t[i]) {
            lemma_digits_local(s, pos, t, i + 1);
        }
    }
}

/// A number that fills a text which stands in another text, with a
/// character behind it that no number goes on with, is the same number in
/// the other text.
pub proof fn lemma_number_local(s: Seq<char>, pos: int, t: Seq<char>)
    requires
        occurs_at(s, pos, t),
        pos + t.len() < s.len(),
        !number_char(s[pos + t.len()]),
        number_end(t, 0) == Some(t.len() as int),
    ensures
        t.len() > 0,
        t[0] == '-' || CharClass::Digit.holds(t[0]),
        s[pos] == t[0],
        number_end(s, pos) == Some(pos + t.len()),
        number_is_whole(s, pos) == number_is_whole(t, 0),
{
    let len = t.len() as int;
    assert forall|i: int| 0 <= i < len implies s[pos + i] == #[trigger] t[i] by {
        assert(s.subrange(pos, pos + len)[i] == t[i]);
    }
    let first = digits_start(t);
    let whole = run_end(t, first, CharClass::Digit);
    lemma_run_end(t, first, CharClass::Digit);
    assert(t.len() > 0);
    assert(s[pos] == t[0]);
    lemma_digits_local(s, pos, t, first);
    assert(run_end(s, pos + first, CharClass::Digit) == pos + whole);
    if first == 0 {
        assert(CharClass::Digit.holds(t[0]));
    }
    // The fraction.
    let fraction = fraction_end(t, whole);
    if whole < len && t[whole] == '.' {
        lemma_digits_local(s, pos, t, whole + 1);
    }
    assert(fraction_end(s, pos + whole) == pos + fraction);
    assert(whole <= fraction <= len) by {
        if whole < len {
            lemma_run_end(t, whole + 1, CharClass::Digit);
        }
    }
    // The exponent.
    if fraction < len && (t[fraction] == 'e' || t[fraction] == 'E') {
        let digits = if fraction + 1 < len && (t[fraction + 1] == '+' || t[fraction + 1] == '-') {
            fraction + 2
        } else {
            fraction + 1
        };
        lemma_digits_local(s, pos, t, digits);
        if fraction + 1 == len {
            assert(s[pos + fraction + 1] == s[pos + len]);
        }
    }
    assert(exponent_end(s, pos + fraction) == pos + exponent_end(t, fraction));
}

/// A number that is kept as its text, with a character behind it that no
/// number goes on with, is read as that text.
pub proof fn lemma_reads_real(s: Seq<char>, pos: int, t: Seq<char>)
    requires
        real_text(t),
        occurs_at(s, pos, t),
        pos + t.len() < s.len(),
        !number_char(s[pos + t.len()]),
    ensures
        t.len() > 0,
        t[0] == '-' || CharClass::Digit.holds(t[0]),
        multiline_string_at(s, pos) is None,
        quoted_string_at(s, pos) is None,
        number_at(s, pos) == Some((ValueView::Real(t), pos + t.len())),
{
    lemma_number_local(s, pos, t);
    let end = pos + t.len();
    let first = digits_start(t);
    assert(s.subrange(pos, end) == t);
    assert(char_at(s, pos, '-') == (first == 1));
    assert(s.subrange(pos + first, end) =~= t.subrange(first, t.len() as int)) by {
        assert forall|i: int| 0 <= i < t.len() - first implies s.subrange(pos + first, end)[i]
            == t.subrange(first, t.len() as int)[i] by {
            assert(s.subrange(pos, end)[first + i] == t[first + i]);
        }
    }
}

/// A number is written with digits, signs, a dot and the letter of the
/// exponent.
pub proof fn lemma_number_chars(t: Seq<char>)
    requires
        number_end(t, 0) == Some(t.len() as int),
    ensures
        forall|i: int| 0 <= i < t.len() ==> number_char(#[trigger] t[i]),
{
    let len = t.len() as int;
    let first = digits_start(t);
    let whole = run_end(t, first, CharClass::Digit);
    lemma_run_end(t, first, CharClass::Digit);
    let fraction = fraction_end(t, whole);
    if whole < len {
        lemma_run_end(t, whole + 1, CharClass::Digit);
    }
    let end = exponent_end(t, fraction);
    let digits = if fraction + 1 < len && (t[fraction + 1] == '+' || t[fraction + 1] == '-') {
        fraction + 2
    } else {
        fraction + 1
    };
    if fraction < len {
        if digits <= len {
            lemma_run_end(t, digits, CharClass::Digit);
        }
    }
    assert forall|i: int| 0 <= i < t.len() implies number_char(#[trigger] t[i]) by {
        if i < first {
        } else if i < whole {
            assert(CharClass::Digit.holds(t[i]));
        } else if i < fraction {
            if i > whole {
                assert(CharClass::Digit.holds(t[i]));
            }
        } else {
            if i >= digits {
                assert(CharClass::Digit.holds(t[i]));
            }
        }
    }
}

} // verus!
