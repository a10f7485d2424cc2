//! Strings as JSON spells them. Between the quotes of a string stand
//! characters as they are, escape sequences of two characters, and
//! `\uXXXX` with four hexadecimal digits, which stands for the character
//! with that code, or, as one of a pair of surrogates, for half of one.
//! The grammar reads every such spelling as the string that it spells.

use crate::escapes::{lemma_decode_gap, lemma_decode_shift, lemma_first_escape};
use crate::scan::{
    digits_value, is_escape_letter, multiline_string_at, quoted_string_at, string_content_end,
    lemma_bounded_run_end, string_unit_end, CharClass,
};
use crate::text::{lemma_first_char, lemma_occurs_chars, lemma_occurs_parts, occurs_at};
use crate::unescape::{
    carried, code_unit_end, code_unit_reach, code_unit_value, decode_from, decoded, escape_effect,
    escape_matches, escape_number, escape_replacement, escape_stands, utf8_width, MatchView,
};
use vstd::prelude::*;

verus! {

/// One unit of the spelling of a string.
pub enum Unit {
    /// A character as it is.
    Raw(char),
    /// A backslash and this letter.
    Short(char),
    /// `\u` and these four digits, for a character that is no surrogate.
    Code(Seq<char>),
    /// `\u` and four digits for a high surrogate, then `\u` and four
    /// digits for a low surrogate.
    Pair(Seq<char>, Seq<char>),
}

/// Whether `d` is four hexadecimal digits.
pub open spec fn hex4(d: Seq<char>) -> bool {
    d.len() == 4 && forall|i: int| 0 <= i < 4 ==> CharClass::HexDigit.holds(#[trigger] d[i])
}

/// The number that four hexadecimal digits denote.
pub open spec fn hex_value(d: Seq<char>) -> int {
    digits_value(d, 16)
}

/// Whether a unit is one that JSON allows, and that this notation reads
/// as JSON does: a character that is no quote, backslash, newline or
/// carriage return; one of the eight letters behind a backslash; a code
/// that is no surrogate; a high surrogate with a low one behind it.
pub open spec fn unit_ok(u: Unit) -> bool {
    match u {
        Unit::Raw(c) => c != '"' && c != '\\' && c != '\n' && c != '\r',
        Unit::Short(l) => is_escape_letter(l) && l != 'u',
        Unit::Code(d) => hex4(d) && !(0xd800 <= hex_value(d) < 0xe000),
        Unit::Pair(h, l) => hex4(h) && hex4(l) && 0xd800 <= hex_value(h) < 0xdc00 && 0xdc00
            <= hex_value(l) < 0xe000,
    }
}

/// The text of a unit.
pub open spec fn unit_text(u: Unit) -> Seq<char> {
    match u {
        Unit::Raw(c) => seq![c],
        Unit::Short(l) => seq!['\\', l],
        Unit::Code(d) => seq!['\\', 'u'] + d,
        Unit::Pair(h, l) => seq!['\\', 'u'] + h + (seq!['\\', 'u'] + l),
    }
}

/// The character that a unit stands for.
pub open spec fn unit_value(u: Unit) -> char {
    match u {
        Unit::Raw(c) => c,
        Unit::Short(l) => escape_replacement(escape_number(l)),
        Unit::Code(d) => hex_value(d) as char,
        Unit::Pair(h, l) => (0x10000 + (hex_value(h) - 0xd800) * 0x400 + (hex_value(l) - 0xdc00)) as char,
    }
}

/// Whether every unit is one that JSON allows.
pub open spec fn units_ok(units: Seq<Unit>) -> bool {
    forall|i: int| 0 <= i < units.len() ==> unit_ok(#[trigger] units[i])
}

/// The text of the units from `from` on.
pub open spec fn units_text(units: Seq<Unit>, from: nat) -> Seq<char>
    decreases units.len() - from,
{
    if from >= units.len() {
        Seq::empty()
    } else {
        unit_text(units[from as int]) + units_text(units, from + 1)
    }
}

/// The string that the units from `from` on spell.
pub open spec fn units_value(units: Seq<Unit>, from: nat) -> Seq<char>
    decreases units.len() - from,
{
    if from >= units.len() {
        Seq::empty()
    } else {
        seq![unit_value(units[from as int])] + units_value(units, from + 1)
    }
}

/// A spelling in quotes.
pub open spec fn quoted_units(units: Seq<Unit>) -> Seq<char> {
    seq!['"'] + units_text(units, 0) + seq!['"']
}

/// The content of a quoted string runs on over characters that are no
/// quote, backslash or newline.
pub proof fn lemma_plain_content(s: Seq<char>, from: int, to: int)
    requires
        0 <= from <= to <= s.len(),
        forall|i: int| from <= i < to ==> (#[trigger] s[i]) != '\\' && s[i] != '"' && s[i] != '\n',
    ensures
        string_content_end(s, from) == string_content_end(s, to),
    decreases to - from,
{
    if from < to {
        assert(s[from] != '\\' && s[from] != '"' && s[from] != '\n');
        assert(string_unit_end(s, from) == Some(from + 1));
        lemma_plain_content(s, from + 1, to);
    }
}

/// A hexadecimal digit is no quote, backslash or newline, and takes one
/// byte.
pub proof fn lemma_hex_digit(c: char)
    requires
        CharClass::HexDigit.holds(c),
    ensures
        c != '\\' && c != '"' && c != '\n' && c != '\r',
        utf8_width(c) == 1,
{
}

/// The content of a quoted string runs on over `\u` and four hexadecimal
/// digits.
pub proof fn lemma_code_content(s: Seq<char>, pos: int, d: Seq<char>)
    requires
        hex4(d),
        occurs_at(s, pos, seq!['\\', 'u'] + d),
    ensures
        string_content_end(s, pos) == string_content_end(s, pos + 6),
        s[pos] == '\\' && s[pos + 1] == 'u',
        s.subrange(pos + 2, pos + 6) == d,
        forall|i: int| pos + 2 <= i < pos + 6 ==> (#[trigger] s[i]) != '\\',
{
    let w = seq!['\\', 'u'] + d;
    lemma_occurs_chars(s, pos, w);
    assert(s[pos] == w[0] && s[pos + 1] == w[1]);
    assert forall|i: int| pos + 2 <= i < pos + 6 implies (#[trigger] s[i]) != '\\' && s[i] != '"'
        && s[i] != '\n' by {
        assert(s[i] == w[i - pos]);
        assert(w[i - pos] == d[i - pos - 2]);
        lemma_hex_digit(d[i - pos - 2]);
    }
    assert forall|i: int| pos + 2 <= i < pos + 6 implies CharClass::HexDigit.holds(
        #[trigger] s[i],
    ) by {
        assert(s[i] == w[i - pos]);
        assert(w[i - pos] == d[i - pos - 2]);
    }
    lemma_bounded_run_end(s, pos + 2, 4, CharClass::HexDigit);
    assert(string_unit_end(s, pos) == Some(pos + 6));
    assert(s.subrange(pos + 2, pos + 6) =~= d) by {
        assert forall|i: int| 0 <= i < 4 implies s.subrange(pos + 2, pos + 6)[i] == d[i] by {
            assert(s[pos + 2 + i] == w[2 + i]);
        }
    }
}

/// The text of a unit holds at least one character and begins with no
/// quote, and the content of a quoted string runs on over it.
pub proof fn lemma_unit_content(s: Seq<char>, pos: int, u: Unit)
    requires
        unit_ok(u),
        occurs_at(s, pos, unit_text(u)),
    ensures
        unit_text(u).len() > 0,
        unit_text(u)[0] != '"',
        string_content_end(s, pos) == string_content_end(s, pos + unit_text(u).len()),
{
    let w = unit_text(u);
    match u {
        Unit::Raw(c) => {
            lemma_first_char(s, pos, w);
            assert(string_unit_end(s, pos) == Some(pos + 1));
        },
        Unit::Short(l) => {
            lemma_occurs_chars(s, pos, w);
            assert(s[pos] == w[0] && s[pos + 1] == w[1]);
            assert(string_unit_end(s, pos) == Some(pos + 2));
        },
        Unit::Code(d) => {
            lemma_code_content(s, pos, d);
        },
        Unit::Pair(h, l) => {
            lemma_occurs_parts(s, pos, seq!['\\', 'u'] + h, seq!['\\', 'u'] + l);
            lemma_code_content(s, pos, h);
            lemma_code_content(s, pos + 6, l);
        },
    }
}

/// The content of a quoted string runs over a spelling, up to the quote
/// behind it.
pub proof fn lemma_units_content(s: Seq<char>, pos: int, units: Seq<Unit>, from: nat)
    requires
        units_ok(units),
        from <= units.len(),
        occurs_at(s, pos, units_text(units, from)),
        pos + units_text(units, from).len() < s.len(),
        s[pos + units_text(units, from).len()] == '"',
    ensures
        string_content_end(s, pos) == pos + units_text(units, from).len(),
    decreases units.len() - from,
{
    if from >= units.len() {
        assert(string_unit_end(s, pos) is None);
    } else {
        let u = units[from as int];
        lemma_occurs_parts(s, pos, unit_text(u), units_text(units, from + 1));
        lemma_unit_content(s, pos, u);
        lemma_units_content(s, pos + unit_text(u).len(), units, from + 1);
    }
}

/// A spelling begins with no quote.
pub proof fn lemma_units_start(units: Seq<Unit>)
    requires
        units_ok(units),
    ensures
        units_text(units, 0).len() > 0 ==> units_text(units, 0)[0] != '"',
        units.len() == 0 ==> units_text(units, 0).len() == 0,
{
    if units.len() > 0 {
        let u = units[0];
        assert(unit_ok(u));
        assert(unit_text(u).len() > 0 && unit_text(u)[0] != '"') by {
            match u {
                Unit::Raw(c) => {},
                Unit::Short(l) => {},
                Unit::Code(d) => {},
                Unit::Pair(h, l) => {},
            }
        }
        assert(units_text(units, 0)[0] == unit_text(u)[0]);
    }
}

/// A spelling in quotes, with something other than a quote behind it, is
/// read as a quoted string, and as no multi-line string.
pub proof fn lemma_spelling_reads(s: Seq<char>, pos: int, units: Seq<Unit>)
    requires
        units_ok(units),
        occurs_at(s, pos, quoted_units(units)),
        pos + quoted_units(units).len() < s.len(),
        s[pos + quoted_units(units).len()] != '"',
    ensures
        quoted_units(units).len() >= 2,
        quoted_units(units)[0] == '"',
        multiline_string_at(s, pos) is None,
        quoted_string_at(s, pos) == Some(
            (pos + 1, pos + quoted_units(units).len() - 1, pos + quoted_units(units).len()),
        ),
        s.subrange(pos + 1, pos + quoted_units(units).len() - 1) == units_text(units, 0),
{
    let body = units_text(units, 0);
    lemma_occurs_parts(s, pos, seq!['"'] + body, seq!['"']);
    lemma_occurs_parts(s, pos, seq!['"'], body);
    lemma_first_char(s, pos, seq!['"']);
    lemma_first_char(s, pos + 1 + body.len(), seq!['"']);
    lemma_units_content(s, pos + 1, units, 0);
    lemma_units_start(units);
    if body.len() > 0 {
        lemma_first_char(s, pos + 1, body);
    }
}

/// Where no backslash stands, the search for escape sequences goes on
/// without finding one.
pub proof fn lemma_skip_plain(e: Seq<char>, from: int, to: int)
    requires
        0 <= from <= to <= e.len(),
        forall|i: int| from <= i < to ==> (#[trigger] e[i]) != '\\',
    ensures
        escape_matches(e, from) == escape_matches(e, to),
    decreases to - from,
{
    if from < to {
        assert(e[from] != '\\');
        lemma_skip_plain(e, from + 1, to);
    }
}

/// What `\u` and four hexadecimal digits do when they are decoded: a high
/// surrogate is remembered; a low surrogate is joined with the high one
/// before it; any other code gives its character. Only a high surrogate is
/// remembered.
pub proof fn lemma_code_effect(e: Seq<char>, at: int, d: Seq<char>, high: int)
    requires
        0 <= at,
        hex4(d),
        occurs_at(e, at, seq!['\\', 'u'] + d),
    ensures
        escape_stands(e, at),
        escape_number(e[at + 1]) == 8,
        forall|i: int| at + 2 <= i < at + 6 ==> (#[trigger] e[i]) != '\\',
        ({
            let v = hex_value(d);
            let effect = escape_effect(e, MatchView { pattern: 8, start: at, end: at + 2 }, high);
            &&& effect.next == at + 6
            &&& 0xd800 <= v < 0xdc00 ==> effect.text == Seq::<char>::empty() && effect.high == v
            &&& 0xdc00 <= v < 0xe000 && 0xd800 <= high < 0xdc00 ==> effect.text == seq![
                (0x10000 + (high - 0xd800) * 0x400 + (v - 0xdc00)) as char,
            ] && effect.high == 0
            &&& !(0xd800 <= v < 0xe000) ==> effect.text == seq![v as char] && effect.high == 0
        }),
{
    lemma_code_content(e, at, d);
    reveal_with_fuel(code_unit_reach, 5);
    assert forall|i: int| at + 2 <= i < at + 6 implies utf8_width(#[trigger] e[i]) == 1 by {
        assert(e.subrange(at + 2, at + 6)[i - at - 2] == d[i - at - 2]);
        lemma_hex_digit(d[i - at - 2]);
    }
    assert(utf8_width(e[at + 2]) == 1 && utf8_width(e[at + 3]) == 1 && utf8_width(e[at + 4]) == 1
        && utf8_width(e[at + 5]) == 1);
    assert(code_unit_end(e, at + 2) == at + 6);
    assert(code_unit_value(d) == Some(hex_value(d)));
}

/// The units of a spelling from `from` on, decoded from the place where
/// their text stands, give the string that they spell.
pub proof fn lemma_decode_units(
    units: Seq<Unit>,
    from: nat,
    e: Seq<char>,
    at: int,
    high: int,
    out: Seq<char>,
)
    requires
        units_ok(units),
        from <= units.len(),
        0 <= at,
        at + units_text(units, from).len() == e.len(),
        occurs_at(e, at, units_text(units, from)),
    ensures
        decode_from(e, escape_matches(e, at), 0, at, high, out) == out + units_value(units, from),
    decreases units.len() - from,
{
    let ms = escape_matches(e, at);
    if from >= units.len() {
        assert(ms =~= Seq::empty());
        assert(out + e.subrange(at, e.len() as int) =~= out + units_value(units, from));
    } else {
        let u = units[from as int];
        let c = unit_value(u);
        let w = unit_text(u);
        let rest = units_text(units, from + 1);
        let tail = units_value(units, from + 1);
        assert(unit_ok(u));
        lemma_occurs_parts(e, at, w, rest);
        match u {
            Unit::Raw(_) => {
                lemma_first_char(e, at, w);
                assert(!escape_stands(e, at));
                if at + 1 >= e.len() {
                    assert(ms =~= Seq::empty());
                    assert(rest.len() == 0);
                    assert(from + 1 >= units.len()) by {
                        if from + 1 < units.len() {
                            let v = units[from + 1 as int];
                            assert(unit_ok(v));
                            assert(unit_text(v).len() > 0) by {
                                match v {
                                    Unit::Raw(_) => {},
                                    Unit::Short(_) => {},
                                    Unit::Code(_) => {},
                                    Unit::Pair(_, _) => {},
                                }
                            }
                        }
                    }
                    assert(tail =~= Seq::empty());
                    assert(e.subrange(at, e.len() as int) =~= seq![c]);
                } else {
                    assert(ms == escape_matches(e, at + 1));
                    lemma_first_escape(e, at + 1);
                    lemma_decode_gap(e, ms, at, high, out);
                    lemma_decode_units(units, from + 1, e, at + 1, 0, out + seq![c]);
                    assert(out + seq![c] + tail =~= out + (seq![c] + tail));
                }
            },
            Unit::Short(l) => {
                lemma_occurs_chars(e, at, w);
                assert(e[at] == w[0] && e[at + 1] == w[1]);
                assert(escape_stands(e, at));
                let m = ms[0];
                assert(m == MatchView { pattern: escape_number(l), start: at, end: at + 2 });
                assert(carried(high, at, m.start) == high);
                let effect = escape_effect(e, m, high);
                assert(effect.text =~= seq![c]);
                let next_out = out + e.subrange(at, at) + effect.text;
                assert(next_out =~= out + seq![c]);
                lemma_decode_shift(e, ms, 1, at + 2, 0, next_out);
                assert(ms.subrange(1, ms.len() as int) =~= escape_matches(e, at + 2));
                lemma_decode_units(units, from + 1, e, at + 2, 0, next_out);
                assert(next_out + tail =~= out + (seq![c] + tail));
            },
            Unit::Code(d) => {
                lemma_code_effect(e, at, d, high);
                let m = ms[0];
                assert(m == MatchView { pattern: 8, start: at, end: at + 2 });
                assert(carried(high, at, m.start) == high);
                let effect = escape_effect(e, m, high);
                let next_out = out + e.subrange(at, at) + effect.text;
                assert(next_out =~= out + seq![c]);
                lemma_decode_shift(e, ms, 1, at + 6, 0, next_out);
                assert(ms.subrange(1, ms.len() as int) =~= escape_matches(e, at + 2));
                lemma_skip_plain(e, at + 2, at + 6);
                lemma_decode_units(units, from + 1, e, at + 6, 0, next_out);
                assert(next_out + tail =~= out + (seq![c] + tail));
            },
            Unit::Pair(h, l) => {
                lemma_occurs_parts(e, at, seq!['\\', 'u'] + h, seq!['\\', 'u'] + l);
                lemma_code_effect(e, at, h, high);
                let m = ms[0];
                assert(m == MatchView { pattern: 8, start: at, end: at + 2 });
                assert(carried(high, at, m.start) == high);
                let first = escape_effect(e, m, high);
                let kept = hex_value(h);
                let out1 = out + e.subrange(at, at) + first.text;
                assert(out1 =~= out);
                lemma_decode_shift(e, ms, 1, at + 6, kept, out1);
                assert(ms.subrange(1, ms.len() as int) =~= escape_matches(e, at + 2));
                lemma_skip_plain(e, at + 2, at + 6);
                let ms2 = escape_matches(e, at + 6);
                lemma_code_effect(e, at + 6, l, kept);
                let m2 = ms2[0];
                assert(m2 == MatchView { pattern: 8, start: at + 6, end: at + 8 });
                let second = escape_effect(e, m2, kept);
                let out2 = out1 + e.subrange(at + 6, at + 6) + second.text;
                assert(out2 =~= out + seq![c]);
                assert(carried(kept, at + 6, m2.start) == kept);
                lemma_decode_shift(e, ms2, 1, at + 12, 0, out2);
                assert(ms2.subrange(1, ms2.len() as int) =~= escape_matches(e, at + 8));
                lemma_skip_plain(e, at + 8, at + 12);
                lemma_decode_units(units, from + 1, e, at + 12, 0, out2);
                assert(out2 + tail =~= out + (seq![c] + tail));
            },
        }
    }
}

/// The units of one spelling behind those of another spell what they
/// spell alone.
pub proof fn lemma_units_behind(a: Seq<Unit>, b: Seq<Unit>, from: nat)
    ensures
        units_text(a + b, a.len() + from) == units_text(b, from),
        units_value(a + b, a.len() + from) == units_value(b, from),
    decreases b.len() - from,
{
    if from < b.len() {
        assert((a + b)[(a.len() + from) as int] == b[from as int]);
        lemma_units_behind(a, b, from + 1);
    }
}

/// Two spellings one behind the other spell the two strings one behind the
/// other.
pub proof fn lemma_units_joined(a: Seq<Unit>, b: Seq<Unit>, from: nat)
    requires
        from <= a.len(),
    ensures
        units_text(a + b, from) == units_text(a, from) + units_text(b, 0),
        units_value(a + b, from) == units_value(a, from) + units_value(b, 0),
    decreases a.len() - from,
{
    if from < a.len() {
        assert((a + b)[from as int] == a[from as int]);
        lemma_units_joined(a, b, from + 1);
        let u = a[from as int];
        assert(unit_text(u) + (units_text(a, from + 1) + units_text(b, 0)) =~= unit_text(u)
            + units_text(a, from + 1) + units_text(b, 0));
        assert(seq![unit_value(u)] + (units_value(a, from + 1) + units_value(b, 0)) =~= seq![
            unit_value(u),
        ] + units_value(a, from + 1) + units_value(b, 0));
    } else {
        lemma_units_behind(a, b, 0);
        assert(Seq::<char>::empty() + units_text(b, 0) =~= units_text(b, 0));
        assert(Seq::<char>::empty() + units_value(b, 0) =~= units_value(b, 0));
    }
}

/// Decoding goes through texts that are written one behind the other,
/// where each is a spelling of its own: no escape sequence begins in the
/// one and ends in the other.
pub proof fn lemma_decoding_joins_spellings(a: Seq<Unit>, b: Seq<Unit>)
    requires
        units_ok(a),
        units_ok(b),
    ensures
        decoded(units_text(a, 0) + units_text(b, 0)) == decoded(units_text(a, 0)) + decoded(
            units_text(b, 0),
        ),
{
    assert(units_ok(a + b)) by {
        assert forall|i: int| 0 <= i < (a + b).len() implies unit_ok(#[trigger] (a + b)[i]) by {
            if i < a.len() {
                assert((a + b)[i] == a[i]);
            } else {
                assert((a + b)[i] == b[i - a.len()]);
            }
        }
    }
    lemma_units_joined(a, b, 0);
    lemma_decoded_units(a + b);
    lemma_decoded_units(a);
    lemma_decoded_units(b);
}

/// The text of a spelling is decoded to the string that it spells.
pub proof fn lemma_decoded_units(units: Seq<Unit>)
    requires
        units_ok(units),
    ensures
        decoded(units_text(units, 0)) == units_value(units, 0),
{
    let e = units_text(units, 0);
    assert(occurs_at(e, 0, e)) by {
        assert(e.subrange(0, e.len() as int) =~= e);
    }
    lemma_decode_units(units, 0, e, 0, 0, Seq::empty());
    assert(Seq::<char>::empty() + units_value(units, 0) =~= units_value(units, 0));
}

} // verus!
