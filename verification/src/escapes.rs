//! Escape sequences as they are written and read back. A text that is
//! written between quotes with its quotes, backslashes, newlines and
//! carriage returns as escape sequences is read as the content of a quoted
//! string, and decoded to the text.

use crate::scan::{
    is_escape_letter, multiline_string_at, quoted_string_at, string_content_end, string_unit_end,
};
use crate::text::{lemma_first_char, lemma_occurs_parts, occurs_at};
use crate::unescape::{
    carried, code_unit_reach, utf8_width, decode_from, decoded, escape_effect, escape_matches, escape_number,
    escape_replacement,
    escape_stands, MatchView,
};
use crate::write::{escaped, escaped_char, quoted};
use vstd::prelude::*;

verus! {

/// Whether a character is written as an escape sequence.
pub open spec fn needs_escape(c: char) -> bool {
    c == '"' || c == '\\' || c == '\n' || c == '\r'
}

/// A character is written as itself, or as a backslash and an escape
/// letter whose escape sequence stands for it.
pub proof fn lemma_escaped_char(c: char)
    ensures
        needs_escape(c) ==> escaped_char(c).len() == 2 && escaped_char(c)[0] == '\\'
            && is_escape_letter(escaped_char(c)[1]) && escape_number(escaped_char(c)[1]) < 8
            && escape_replacement(escape_number(escaped_char(c)[1])) == c,
        !needs_escape(c) ==> escaped_char(c) == seq![c],
{
}

/// What is written of a text holds at least one character for each
/// character of the text, and begins with no quote.
pub proof fn lemma_escaped_start(t: Seq<char>, from: nat)
    ensures
        from < t.len() ==> escaped(t, from).len() > 0 && escaped(t, from)[0] != '"',
        from >= t.len() ==> escaped(t, from).len() == 0,
{
    if from < t.len() {
        lemma_escaped_char(t[from as int]);
    }
}

/// The content of a quoted string runs over what is written of a text, up
/// to the quote behind it.
pub proof fn lemma_escaped_content(s: Seq<char>, pos: int, t: Seq<char>, from: nat)
    requires
        from <= t.len(),
        occurs_at(s, pos, escaped(t, from)),
        pos + escaped(t, from).len() < s.len(),
        s[pos + escaped(t, from).len()] == '"',
    ensures
        string_content_end(s, pos) == pos + escaped(t, from).len(),
    decreases t.len() - from,
{
    if from >= t.len() {
        assert(string_unit_end(s, pos) is None);
    } else {
        let c = t[from as int];
        let unit = escaped_char(c);
        let rest = escaped(t, from + 1);
        lemma_escaped_char(c);
        lemma_occurs_parts(s, pos, unit, rest);
        lemma_first_char(s, pos, unit);
        if needs_escape(c) {
            assert(s[pos + 1] == unit[1]) by {
                assert(s.subrange(pos, pos + 2)[1] == unit[1]);
            }
            assert(string_unit_end(s, pos) == Some(pos + 2));
        } else {
            assert(string_unit_end(s, pos) == Some(pos + 1));
        }
        lemma_escaped_content(s, pos + unit.len(), t, from + 1);
    }
}

/// A text in quotes, with something other than a quote behind it, is read
/// as a quoted string, and as no multi-line string.
pub proof fn lemma_quoted_reads(s: Seq<char>, pos: int, t: Seq<char>)
    requires
        occurs_at(s, pos, quoted(t)),
        pos + quoted(t).len() < s.len(),
        s[pos + quoted(t).len()] != '"',
    ensures
        quoted(t).len() == escaped(t, 0).len() + 2,
        multiline_string_at(s, pos) is None,
        quoted_string_at(s, pos) == Some(
            (pos + 1, pos + 1 + escaped(t, 0).len(), pos + 2 + escaped(t, 0).len()),
        ),
        s.subrange(pos + 1, pos + 1 + escaped(t, 0).len()) == escaped(t, 0),
{
    let body = escaped(t, 0);
    lemma_occurs_parts(s, pos, seq!['"'] + body, seq!['"']);
    lemma_occurs_parts(s, pos, seq!['"'], body);
    lemma_first_char(s, pos, seq!['"']);
    lemma_first_char(s, pos + 1 + body.len(), seq!['"']);
    lemma_escaped_content(s, pos + 1, t, 0);
    lemma_escaped_start(t, 0);
    if body.len() > 0 {
        lemma_first_char(s, pos + 1, body);
    }
}

/// The first of the escape sequences from a place on stands at or behind
/// that place, in the text.
pub proof fn lemma_first_escape(e: Seq<char>, from: int)
    requires
        0 <= from,
    ensures
        escape_matches(e, from).len() > 0 ==> from <= escape_matches(e, from)[0].start
            && escape_matches(e, from)[0].end == escape_matches(e, from)[0].start + 2
            && escape_matches(e, from)[0].end <= e.len(),
    decreases e.len() - from,
{
    if from + 1 < e.len() && !escape_stands(e, from) {
        lemma_first_escape(e, from + 1);
    }
}

/// Decoding looks at the matches from the given one on, and at none before
/// it.
pub proof fn lemma_decode_shift(
    e: Seq<char>,
    ms: Seq<MatchView>,
    k: int,
    last: int,
    high: int,
    out: Seq<char>,
)
    requires
        0 <= k <= ms.len(),
    ensures
        decode_from(e, ms, k, last, high, out) == decode_from(
            e,
            ms.subrange(k, ms.len() as int),
            0,
            last,
            high,
            out,
        ),
    decreases ms.len() - k,
{
    let rest = ms.subrange(k, ms.len() as int);
    if k < ms.len() {
        assert(rest[0] == ms[k]);
        let after = ms.subrange(k + 1, ms.len() as int);
        assert(rest.subrange(1, rest.len() as int) =~= after);
        if !(last <= ms[k].start <= ms[k].end <= e.len()) {
            lemma_decode_shift(e, ms, k + 1, last, high, out);
            lemma_decode_shift(e, rest, 1, last, high, out);
        } else {
            let effect = escape_effect(e, ms[k], carried(high, last, ms[k].start));
            let next_out = out + e.subrange(last, ms[k].start) + effect.text;
            lemma_decode_shift(e, ms, k + 1, effect.next, effect.high, next_out);
            lemma_decode_shift(e, rest, 1, effect.next, effect.high, next_out);
        }
    }
}

/// A character before the next match may be taken as already read; a
/// high surrogate before it is then forgotten.
pub proof fn lemma_decode_gap(e: Seq<char>, ms: Seq<MatchView>, last: int, high: int, out: Seq<char>)
    requires
        0 <= last < e.len(),
        ms.len() > 0 ==> last + 1 <= ms[0].start <= ms[0].end <= e.len(),
    ensures
        decode_from(e, ms, 0, last, high, out) == decode_from(
            e,
            ms,
            0,
            last + 1,
            0,
            out + seq![e[last]],
        ),
{
    if ms.len() == 0 {
        assert(out + e.subrange(last, e.len() as int) =~= out + seq![e[last]] + e.subrange(
            last + 1,
            e.len() as int,
        ));
    } else {
        let m = ms[0];
        let effect = escape_effect(e, m, 0);
        assert(carried(high, last, m.start) == 0 && carried(0, last + 1, m.start) == 0);
        assert(out + e.subrange(last, m.start) + effect.text =~= out + seq![e[last]]
            + e.subrange(last + 1, m.start) + effect.text);
    }
}

/// What is written of a text from one of its characters on, decoded from
/// the place where it stands, is the text from that character on.
pub proof fn lemma_decode_escaped(
    t: Seq<char>,
    from: nat,
    e: Seq<char>,
    at: int,
    high: int,
    out: Seq<char>,
)
    requires
        from <= t.len(),
        0 <= at,
        at + escaped(t, from).len() == e.len(),
        occurs_at(e, at, escaped(t, from)),
    ensures
        decode_from(e, escape_matches(e, at), 0, at, high, out) == out + t.subrange(
            from as int,
            t.len() as int,
        ),
    decreases t.len() - from,
{
    let ms = escape_matches(e, at);
    if from >= t.len() {
        assert(ms =~= Seq::empty());
        assert(out + e.subrange(at, e.len() as int) =~= out + t.subrange(
            from as int,
            t.len() as int,
        ));
    } else {
        let c = t[from as int];
        let unit = escaped_char(c);
        let rest = escaped(t, from + 1);
        lemma_escaped_char(c);
        lemma_occurs_parts(e, at, unit, rest);
        lemma_first_char(e, at, unit);
        let tail = t.subrange((from + 1) as int, t.len() as int);
        assert(seq![c] + tail =~= t.subrange(from as int, t.len() as int));
        if needs_escape(c) {
            assert(e[at + 1] == unit[1]) by {
                assert(e.subrange(at, at + 2)[1] == unit[1]);
            }
            assert(escape_stands(e, at));
            let m = ms[0];
            assert(m.pattern == escape_number(unit[1]) && m.start == at && m.end == at + 2);
            let effect = escape_effect(e, m, carried(high, at, m.start));
            assert(effect.text =~= seq![c]);
            assert(effect.next == at + 2 && effect.high == 0);
            let next_out = out + e.subrange(at, at) + effect.text;
            assert(next_out =~= out + seq![c]);
            lemma_decode_shift(e, ms, 1, at + 2, 0, next_out);
            assert(ms.subrange(1, ms.len() as int) =~= escape_matches(e, at + 2));
            lemma_decode_escaped(t, from + 1, e, at + 2, 0, next_out);
            assert(next_out + tail =~= out + t.subrange(from as int, t.len() as int));
        } else {
            assert(e[at] == c);
            assert(!escape_stands(e, at));
            lemma_escaped_start(t, from + 1);
            if at + 1 >= e.len() {
                assert(ms =~= Seq::empty());
                assert(rest.len() == 0);
                assert(tail =~= Seq::empty());
                assert(e.subrange(at, e.len() as int) =~= seq![c]);
            } else {
                assert(ms == escape_matches(e, at + 1));
                lemma_first_escape(e, at + 1);
                lemma_decode_gap(e, ms, at, high, out);
                lemma_decode_escaped(t, from + 1, e, at + 1, 0, out + seq![c]);
                assert(out + seq![c] + tail =~= out + t.subrange(from as int, t.len() as int));
            }
        }
    }
}

/// Every escape sequence that is found has two characters and lies in the
/// text.
pub proof fn lemma_matches_are_pairs(s: Seq<char>, from: int)
    requires
        0 <= from,
    ensures
        forall|k: int|
            0 <= k < escape_matches(s, from).len() ==> from <= (#[trigger] escape_matches(
                s,
                from,
            )[k]).start && escape_matches(s, from)[k].end == escape_matches(s, from)[k].start + 2
                && escape_matches(s, from)[k].end <= s.len(),
    decreases s.len() - from,
{
    let ms = escape_matches(s, from);
    if from + 1 < s.len() {
        if escape_stands(s, from) {
            lemma_matches_are_pairs(s, from + 2);
            let rest = escape_matches(s, from + 2);
            assert forall|k: int| 0 <= k < ms.len() implies from <= (#[trigger] ms[k]).start
                && ms[k].end == ms[k].start + 2 && ms[k].end <= s.len() by {
                if k > 0 {
                    assert(ms[k] == rest[k - 1]);
                }
            }
        } else {
            lemma_matches_are_pairs(s, from + 1);
            let rest = escape_matches(s, from + 1);
            assert(ms == rest);
            assert forall|k: int| 0 <= k < ms.len() implies from <= (#[trigger] ms[k]).start
                && ms[k].end == ms[k].start + 2 && ms[k].end <= s.len() by {
                assert(ms[k] == rest[k]);
            }
        }
    } else {
        assert(ms.len() == 0);
    }
}

/// The digits of a `\u` end in the text, behind where they begin, if there
/// are enough of them.
pub proof fn lemma_reach_bounds(s: Seq<char>, pos: int, taken: int)
    requires
        0 <= pos <= s.len(),
    ensures
        code_unit_reach(s, pos, taken) == -1 || pos <= code_unit_reach(s, pos, taken) <= s.len(),
    decreases s.len() - pos,
{
    if taken < 4 && pos < s.len() {
        lemma_reach_bounds(s, pos + 1, taken + utf8_width(s[pos]));
    }
}

/// An escape sequence stands for at most one character, and reading goes
/// on in the text, at or behind its end.
pub proof fn lemma_effect_bounds(s: Seq<char>, m: MatchView, high: int)
    requires
        0 <= m.end <= s.len(),
    ensures
        escape_effect(s, m, high).text.len() <= 1,
        m.end <= escape_effect(s, m, high).next <= s.len(),
{
    lemma_reach_bounds(s, m.end, 0);
}

/// Decoding writes no more than it reads.
pub proof fn lemma_decode_length(
    s: Seq<char>,
    ms: Seq<MatchView>,
    k: int,
    last: int,
    high: int,
    out: Seq<char>,
)
    requires
        0 <= k <= ms.len(),
        0 <= last <= s.len(),
        forall|j: int| 0 <= j < ms.len() ==> (#[trigger] ms[j]).end == ms[j].start + 2,
    ensures
        decode_from(s, ms, k, last, high, out).len() <= out.len() + s.len() - last,
    decreases ms.len() - k,
{
    if k < ms.len() {
        let m = ms[k];
        if !(last <= m.start <= m.end <= s.len()) {
            lemma_decode_length(s, ms, k + 1, last, high, out);
        } else {
            let effect = escape_effect(s, m, carried(high, last, m.start));
            lemma_effect_bounds(s, m, carried(high, last, m.start));
            let next_out = out + s.subrange(last, m.start) + effect.text;
            lemma_decode_length(s, ms, k + 1, effect.next, effect.high, next_out);
        }
    }
}

/// Decoding never lengthens a text: every escape sequence has at least two
/// characters and stands for at most one.
pub proof fn lemma_decoding_never_lengthens(s: Seq<char>)
    ensures
        decoded(s).len() <= s.len(),
{
    lemma_matches_are_pairs(s, 0);
    lemma_decode_length(s, escape_matches(s, 0), 0, 0, 0, Seq::empty());
}

/// What is written of a text between quotes is decoded to the text.
pub proof fn lemma_decoded_escaped(t: Seq<char>)
    ensures
        decoded(escaped(t, 0)) == t,
{
    let e = escaped(t, 0);
    assert(occurs_at(e, 0, e)) by {
        assert(e.subrange(0, e.len() as int) =~= e);
    }
    lemma_decode_escaped(t, 0, e, 0, 0, Seq::empty());
    assert(Seq::<char>::empty() + t.subrange(0, t.len() as int) =~= t);
}

} // verus!
