//! The text of a scalar value, as it is joined with others when values are
//! written side by side.

use crate::text::copy_chars;
use crate::vecs::reverse;
use crate::value::{Value, ValueView};
use vstd::prelude::*;

verus! {

/// The character for a digit below ten.
pub open spec fn digit_char(d: int) -> char {
    if d == 0 {
        '0'
    } else if d == 1 {
        '1'
    } else if d == 2 {
        '2'
    } else if d == 3 {
        '3'
    } else if d == 4 {
        '4'
    } else if d == 5 {
        '5'
    } else if d == 6 {
        '6'
    } else if d == 7 {
        '7'
    } else if d == 8 {
        '8'
    } else {
        '9'
    }
}

/// The decimal digits of a natural number.
pub open spec fn natural_text(n: nat) -> Seq<char>
    decreases n,
{
    if n < 10 {
        seq![digit_char(n as int)]
    } else {
        natural_text(n / 10).push(digit_char((n % 10) as int))
    }
}

/// An integer in decimal, with a minus sign if it is negative.
pub open spec fn integer_text(i: int) -> Seq<char> {
    if i < 0 {
        seq!['-'] + natural_text((-i) as nat)
    } else {
        natural_text(i as nat)
    }
}

/// The character for a digit below ten.
pub fn digit(d: u64) -> (r: char)
    requires
        d < 10,
    ensures
        r == digit_char(d as int),
{
    if d == 0 {
        '0'
    } else if d == 1 {
        '1'
    } else if d == 2 {
        '2'
    } else if d == 3 {
        '3'
    } else if d == 4 {
        '4'
    } else if d == 5 {
        '5'
    } else if d == 6 {
        '6'
    } else if d == 7 {
        '7'
    } else if d == 8 {
        '8'
    } else {
        '9'
    }
}

/// The digits of a number that are still to be written when `n` is what is
/// left of it: those of `n`, or none where nothing is left.
pub open spec fn digits_left(n: nat) -> Seq<char> {
    if n == 0 {
        Seq::empty()
    } else {
        natural_text(n)
    }
}

/// Writes an integer in decimal.
pub fn write_integer(i: i64) -> (r: Vec<char>)
    ensures
        r@ == integer_text(i as int),
{
    let magnitude: u64 = if i < 0 {
        (-(i as i128)) as u64
    } else {
        i as u64
    };
    let mut backwards: Vec<char> = Vec::new();
    backwards.push(digit(magnitude % 10));
    let mut n: u64 = magnitude / 10;
    while n > 0
        invariant
            backwards@.len() > 0,
            natural_text(magnitude as nat) == digits_left(n as nat) + Seq::new(
                backwards@.len(),
                |k: int| backwards@[backwards@.len() - 1 - k],
            ),
        decreases n,
    {
        let ghost before = backwards@;
        backwards.push(digit(n % 10));
        assert(digits_left(n as nat) =~= digits_left((n / 10) as nat) + seq![
            digit_char((n % 10) as int),
        ]);
        assert(Seq::new(backwards@.len(), |k: int| backwards@[backwards@.len() - 1 - k]) =~= seq![
            digit_char((n % 10) as int),
        ] + Seq::new(before.len(), |k: int| before[before.len() - 1 - k]));
        n = n / 10;
    }
    if i < 0 {
        backwards.push('-');
    }
    let out = reverse(backwards);
    assert(out@ =~= integer_text(i as int));
    out
}

/// The text that a value adds where values are written side by side; none
/// for a value that is no scalar.
pub open spec fn value_text(v: ValueView) -> Option<Seq<char>> {
    match v {
        ValueView::Null => Some(seq!['n', 'u', 'l', 'l']),
        ValueView::Boolean(b) => Some(
            if b {
                seq!['t', 'r', 'u', 'e']
            } else {
                seq!['f', 'a', 'l', 's', 'e']
            },
        ),
        ValueView::Integer(i) => Some(integer_text(i as int)),
        ValueView::Real(t) => Some(t),
        ValueView::String(t) => Some(t),
        ValueView::UnquotedString(t) => Some(t),
        _ => None,
    }
}

/// The text that a value adds where values are written side by side.
pub fn text_of(v: &Value) -> (r: Option<Vec<char>>)
    ensures
        crate::value::optional_text(r) == value_text(v@),
{
    match v {
        Value::Null => {
            let t = vec!['n', 'u', 'l', 'l'];
            assert(t@ =~= seq!['n', 'u', 'l', 'l']);
            Some(t)
        },
        Value::Boolean(b) => {
            if *b {
                let t = vec!['t', 'r', 'u', 'e'];
                assert(t@ =~= seq!['t', 'r', 'u', 'e']);
                Some(t)
            } else {
                let t = vec!['f', 'a', 'l', 's', 'e'];
                assert(t@ =~= seq!['f', 'a', 'l', 's', 'e']);
                Some(t)
            }
        },
        Value::Integer(i) => Some(write_integer(*i)),
        Value::Real(t) => Some(copy_chars(t)),
        Value::String(t) => Some(copy_chars(t)),
        Value::UnquotedString(t) => Some(copy_chars(t)),
        _ => None,
    }
}

} // verus!
