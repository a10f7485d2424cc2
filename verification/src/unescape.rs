//! Decoding of the escape sequences of a quoted string: the two-character
//! escapes of JSON, and `\uXXXX` with UTF-16 surrogate pairs merged into one
//! character. An Aho-Corasick automaton finds the escape sequences.

use crate::scan::{
    digit_value, digits_value, is_escape_letter, lemma_run_end, run_end, skip_run, CharClass,
};
use crate::text::{chars_of, copy_chars, copy_range, push_chars, string_of};
use vstd::prelude::*;

verus! {

/// `char::from_u32` gives the character with the given code, if the code is
/// a Unicode scalar value.
pub assume_specification[ char::from_u32 ](i: u32) -> (r: Option<char>)
    ensures
        r == (if vstd::utf8::is_scalar(i) {
            Some(i as char)
        } else {
            None::<char>
        }),
;

#[verifier::external_type_specification]
#[verifier::external_body]
pub struct ExAhoCorasick(aho_corasick::AhoCorasick);

/// One occurrence of a pattern in a text: the number of the pattern and the
/// half-open range that it covers.
#[derive(Clone, Copy, Debug, PartialEq, Eq)]
pub struct PatternMatch {
    pub pattern: usize,
    pub start: usize,
    pub end: usize,
}

/// A `PatternMatch` as a mathematical value.
pub struct MatchView {
    pub pattern: int,
    pub start: int,
    pub end: int,
}

impl View for PatternMatch {
    type V = MatchView;

    open spec fn view(&self) -> MatchView {
        MatchView { pattern: self.pattern as int, start: self.start as int, end: self.end as int }
    }
}

/// The matches of `ms` as mathematical values.
pub open spec fn matches_view(ms: Seq<PatternMatch>) -> Seq<MatchView> {
    Seq::new(ms.len(), |i: int| ms[i]@)
}

/// The patterns that an automaton was built from.
pub uninterp spec fn automaton_patterns(automaton: aho_corasick::AhoCorasick) -> Seq<Seq<u8>>;

/// Whether `pattern` stands in `haystack` at `at`.
pub open spec fn pattern_occurs(haystack: Seq<u8>, at: int, pattern: Seq<u8>) -> bool {
    0 <= at && at + pattern.len() <= haystack.len() && haystack.subrange(
        at,
        at + pattern.len(),
    ) == pattern
}

/// Where the search for the match `k` begins: at the start of the text, or
/// at the end of the match before it.
pub open spec fn search_from(ms: Seq<MatchView>, k: int) -> int {
    if k <= 0 {
        0
    } else {
        ms[k - 1].end
    }
}

/// Whether the match `k` is the first that is seen when the text is read
/// from where the search begins: its pattern stands at its place, and no
/// pattern that stands at or behind the start of the search ends before it
/// does.
pub open spec fn seen_first(
    patterns: Seq<Seq<u8>>,
    haystack: Seq<u8>,
    ms: Seq<MatchView>,
    k: int,
) -> bool {
    let m = ms[k];
    &&& 0 <= m.pattern < patterns.len()
    &&& search_from(ms, k) <= m.start
    &&& m.end == m.start + patterns[m.pattern].len()
    &&& pattern_occurs(haystack, m.start, patterns[m.pattern])
    &&& forall|p: int, at: int|
        0 <= p < patterns.len() && search_from(ms, k) <= at && #[trigger] pattern_occurs(
            haystack,
            at,
            patterns[p],
        ) ==> m.end <= at + patterns[p].len()
}

/// Whether `ms` are the matches that a search reports which takes every
/// match as soon as it is seen and goes on behind it: each is the first
/// seen from where its search begins, and behind the last of them no
/// pattern stands.
pub open spec fn reported_as_seen(
    patterns: Seq<Seq<u8>>,
    haystack: Seq<u8>,
    ms: Seq<MatchView>,
) -> bool {
    &&& forall|k: int| 0 <= k < ms.len() ==> seen_first(patterns, haystack, ms, k)
    &&& forall|p: int, at: int|
        0 <= p < patterns.len() && search_from(ms, ms.len() as int) <= at ==> !#[trigger] pattern_occurs(
            haystack,
            at,
            patterns[p],
        )
}

/// Whether none of the patterns is empty.
pub open spec fn none_empty(patterns: Seq<Seq<u8>>) -> bool {
    forall|p: int| 0 <= p < patterns.len() ==> (#[trigger] patterns[p]).len() > 0
}

/// The patterns of `v` as sequences of bytes.
pub open spec fn patterns_view(v: Seq<Vec<u8>>) -> Seq<Seq<u8>> {
    Seq::new(v.len(), |i: int| v[i]@)
}

/// Whether there are at most 16 patterns, of at most 16 bytes each.
pub open spec fn few_short(patterns: Seq<Seq<u8>>) -> bool {
    patterns.len() <= 16 && forall|p: int|
        0 <= p < patterns.len() ==> (#[trigger] patterns[p]).len() <= 16
}

/// `aho_corasick::AhoCorasick::new` builds an automaton for the given
/// patterns in the default configuration: standard match semantics, searches
/// that are not anchored. The build fails only where the number of a
/// pattern, a state, a transition or a match, or the length of a pattern,
/// goes beyond what 31 bits hold. A few short patterns are far from that:
/// they give no more states than they have bytes, and a few more; each
/// state has at most 256 transitions, and at most one match for each
/// pattern.
#[verifier::external_body]
fn build_automaton(patterns: &Vec<Vec<u8>>) -> (r: Option<aho_corasick::AhoCorasick>)
    ensures
        few_short(patterns_view(patterns@)) ==> r is Some,
        r matches Some(a) ==> automaton_patterns(a) == patterns_view(patterns@),
{
    aho_corasick::AhoCorasick::new(patterns).ok()
}

/// An automaton that finds the occurrences of a fixed set of patterns.
pub struct PatternFinder {
    automaton: aho_corasick::AhoCorasick,
}

impl PatternFinder {
    /// The patterns that the finder looks for.
    pub closed spec fn patterns(&self) -> Seq<Seq<u8>> {
        automaton_patterns(self.automaton)
    }

    /// A finder for the given patterns, where one can be built; for a few
    /// short patterns one can.
    pub fn new(patterns: &Vec<Vec<u8>>) -> (r: Option<PatternFinder>)
        ensures
            few_short(patterns_view(patterns@)) ==> r is Some,
            r matches Some(f) ==> f.patterns() == patterns_view(patterns@),
    {
        match build_automaton(patterns) {
            Some(automaton) => Some(PatternFinder { automaton }),
            None => None,
        }
    }

    /// `aho_corasick::AhoCorasick::find_iter` reports the matches of the
    /// automaton's patterns in `haystack` that do not overlap, from left to
    /// right. With standard match semantics, which the automaton in a
    /// `PatternFinder` has, a match is reported as soon as it is seen: it is
    /// the match that ends first among those that start at or behind the end
    /// of the match before it. Where several end there, nothing is said of
    /// which is reported. The search ends when no pattern stands in the rest
    /// of the text. The call panics only on an automaton built for anchored
    /// searches, which the one in a `PatternFinder` is not.
    #[verifier::external_body]
    fn find_all(&self, haystack: &Vec<u8>) -> (r: Vec<PatternMatch>)
        ensures
            none_empty(self.patterns()) ==> reported_as_seen(
                self.patterns(),
                haystack@,
                matches_view(r@),
            ),
    {
        self.automaton.find_iter(haystack.as_slice()).map(
            |m| PatternMatch { pattern: m.pattern().as_usize(), start: m.start(), end: m.end() },
        ).collect()
    }
}

/// The byte that stands for a character in a search: the character itself
/// if it is ASCII, and a byte that no pattern holds otherwise.
pub open spec fn search_byte(c: char) -> u8 {
    if (c as u32) < 0x80 {
        c as u8
    } else {
        0x80
    }
}

/// The text to search, one byte for each character, so that a position in
/// it is a position in the text.
pub open spec fn search_key(s: Seq<char>) -> Seq<u8> {
    Seq::new(s.len(), |i: int| search_byte(s[i]))
}

/// Builds the text to search.
pub fn make_search_key(s: &Vec<char>) -> (r: Vec<u8>)
    ensures
        r@ == search_key(s@),
{
    let mut out: Vec<u8> = Vec::new();
    let mut i: usize = 0;
    while i < s.len()
        invariant
            i <= s.len(),
            out@.len() == i,
            forall|k: int| 0 <= k < i ==> out@[k] == search_byte(s@[k]),
        decreases s.len() - i,
    {
        let c = s[i];
        let b: u8 = if (c as u32) < 0x80 {
            c as u8
        } else {
            0x80
        };
        out.push(b);
        i += 1;
    }
    assert(out@ =~= search_key(s@));
    out
}

/// The escape sequences, each a backslash and a letter. The first eight
/// stand for one character each; the last begins a `\uXXXX` escape.
pub open spec fn escape_pattern_list() -> Seq<Seq<u8>> {
    seq![
        seq![0x5cu8, 0x22u8],
        seq![0x5cu8, 0x5cu8],
        seq![0x5cu8, 0x2fu8],
        seq![0x5cu8, 0x62u8],
        seq![0x5cu8, 0x66u8],
        seq![0x5cu8, 0x6eu8],
        seq![0x5cu8, 0x72u8],
        seq![0x5cu8, 0x74u8],
        seq![0x5cu8, 0x75u8],
    ]
}

/// The character that each of the first eight escape sequences stands for.
pub open spec fn escape_replacement(pattern: int) -> char {
    if pattern == 0 {
        '"'
    } else if pattern == 1 {
        '\\'
    } else if pattern == 2 {
        '/'
    } else if pattern == 3 {
        '\u{8}'
    } else if pattern == 4 {
        '\u{c}'
    } else if pattern == 5 {
        '\n'
    } else if pattern == 6 {
        '\r'
    } else {
        '\t'
    }
}

/// Builds the list of escape sequences.
pub fn escape_patterns() -> (r: Vec<Vec<u8>>)
    ensures
        patterns_view(r@) == escape_pattern_list(),
{
    let letters: [u8; 9] = [0x22, 0x5c, 0x2f, 0x62, 0x66, 0x6e, 0x72, 0x74, 0x75];
    let mut out: Vec<Vec<u8>> = Vec::new();
    let mut i: usize = 0;
    while i < 9
        invariant
            i <= 9,
            out@.len() == i,
            letters@ == seq![0x22u8, 0x5cu8, 0x2fu8, 0x62u8, 0x66u8, 0x6eu8, 0x72u8, 0x74u8, 0x75u8],
            forall|k: int| 0 <= k < i ==> (#[trigger] out@[k])@ == seq![0x5cu8, letters@[k]],
        decreases 9 - i,
    {
        let mut p: Vec<u8> = Vec::new();
        p.push(0x5c);
        p.push(letters[i]);
        assert(p@ =~= seq![0x5cu8, letters@[i as int]]);
        out.push(p);
        i += 1;
    }
    proof {
        let a = patterns_view(out@);
        let b = escape_pattern_list();
        assert(a.len() == b.len());
        assert forall|k: int| 0 <= k < 9 implies a[k] == b[k] by {
            assert(a[k] == out@[k]@);
            assert(a[k] =~= b[k]);
        }
        assert(a =~= b);
    }
    out
}

/// A finder for the escape sequences.
pub fn escape_finder() -> (r: PatternFinder)
    ensures
        r.patterns() == escape_pattern_list(),
{
    let patterns = escape_patterns();
    proof {
        lemma_escape_patterns();
    }
    match PatternFinder::new(&patterns) {
        Some(finder) => finder,
        None => vstd::pervasive::unreached(),
    }
}

/// The number of bytes that a character takes in UTF-8.
pub open spec fn utf8_width(c: char) -> int {
    if (c as u32) < 0x80 {
        1
    } else if (c as u32) < 0x800 {
        2
    } else if (c as u32) < 0x10000 {
        3
    } else {
        4
    }
}

/// The position after the characters that the next four bytes of the text
/// belong to; `pos` itself where the text holds fewer than four more bytes.
pub open spec fn code_unit_end(s: Seq<char>, pos: int) -> int {
    code_unit_reach(s, pos, 0)
}

/// As `code_unit_end`, with `taken` bytes counted so far.
pub open spec fn code_unit_reach(s: Seq<char>, pos: int, taken: int) -> int
    decreases s.len() - pos,
{
    if taken >= 4 {
        pos
    } else if 0 <= pos < s.len() {
        code_unit_reach(s, pos + 1, taken + utf8_width(s[pos]))
    } else {
        -1
    }
}

/// The number that the four characters `digits` denote in a `\uXXXX`
/// escape, where they are four hexadecimal digits.
pub open spec fn code_unit_value(digits: Seq<char>) -> Option<int> {
    if digits.len() == 4 && forall|i: int|
        0 <= i < 4 ==> CharClass::HexDigit.holds(#[trigger] digits[i]) {
        Some(digits_value(digits, 16))
    } else {
        None
    }
}

/// What one escape sequence does: the text that it stands for, where the
/// reading goes on, and the high surrogate that is remembered after it.
pub struct EscapeEffect {
    pub text: Seq<char>,
    pub next: int,
    pub high: int,
}

/// The effect of the escape sequence `m` in `s`, with `high` the high
/// surrogate that stands directly before it (0 if none does).
///
/// One of the first eight patterns gives its character. A `\u` takes the
/// next four bytes of the text as its digits. Where they denote a high
/// surrogate, it is remembered and nothing is written. A low surrogate is
/// joined with the high surrogate before it to one character; without one,
/// nothing is written. Any other number gives the character with that code.
/// Where fewer than four bytes follow, the `\u` alone is dropped; where the
/// four bytes are no number, they are dropped with it. Only a high
/// surrogate is remembered.
pub open spec fn escape_effect(s: Seq<char>, m: MatchView, high: int) -> EscapeEffect {
    if m.pattern < 8 {
        EscapeEffect { text: seq![escape_replacement(m.pattern)], next: m.end, high: 0 }
    } else {
        let end = code_unit_end(s, m.end);
        if end < 0 {
            EscapeEffect { text: Seq::empty(), next: m.end, high: 0 }
        } else {
            match code_unit_value(s.subrange(m.end, end)) {
                None => EscapeEffect { text: Seq::empty(), next: end, high: 0 },
                Some(unit) => if 0xd800 <= unit < 0xdc00 {
                    EscapeEffect { text: Seq::empty(), next: end, high: unit }
                } else if 0xdc00 <= unit < 0xe000 {
                    if 0xd800 <= high < 0xdc00 {
                        EscapeEffect {
                            text: seq![
                                (0x10000 + (high - 0xd800) * 0x400 + (unit - 0xdc00)) as char,
                            ],
                            next: end,
                            high: 0,
                        }
                    } else {
                        EscapeEffect { text: Seq::empty(), next: end, high: 0 }
                    }
                } else {
                    EscapeEffect { text: seq![unit as char], next: end, high: 0 }
                },
            }
        }
    }
}

/// The high surrogate that the escape sequence at `start` may be joined
/// with: the one that was remembered, where it ends at `start`.
pub open spec fn carried(high: int, last: int, start: int) -> int {
    if start == last {
        high
    } else {
        0
    }
}

/// The text `s` with the escape sequences `ms[k..]` decoded, where `last`
/// is the position up to which `s` has been read, `high` the high
/// surrogate that ends there (0 if none does) and `out` the text written
/// so far. A match that does not lie in the text at or after `last` is
/// passed over.
pub open spec fn decode_from(
    s: Seq<char>,
    ms: Seq<MatchView>,
    k: int,
    last: int,
    high: int,
    out: Seq<char>,
) -> Seq<char>
    decreases ms.len() - k,
{
    if k < 0 || k >= ms.len() {
        out + s.subrange(last, s.len() as int)
    } else if !(last <= ms[k].start <= ms[k].end <= s.len()) {
        decode_from(s, ms, k + 1, last, high, out)
    } else {
        let effect = escape_effect(s, ms[k], carried(high, last, ms[k].start));
        decode_from(
            s,
            ms,
            k + 1,
            effect.next,
            effect.high,
            out + s.subrange(last, ms[k].start) + effect.text,
        )
    }
}

/// The text `s` with the escape sequences `ms` decoded.
pub open spec fn decode_escapes(s: Seq<char>, ms: Seq<MatchView>) -> Seq<char> {
    decode_from(s, ms, 0, 0, 0, Seq::empty())
}

/// Whether a text holds a backslash.
pub open spec fn has_backslash(s: Seq<char>) -> bool {
    run_end(s, 0, CharClass::NotBackslash) < s.len()
}

/// The number of the escape sequence with the given letter.
pub open spec fn escape_number(letter: char) -> int {
    if letter == '"' {
        0
    } else if letter == '\\' {
        1
    } else if letter == '/' {
        2
    } else if letter == 'b' {
        3
    } else if letter == 'f' {
        4
    } else if letter == 'n' {
        5
    } else if letter == 'r' {
        6
    } else if letter == 't' {
        7
    } else {
        8
    }
}

/// Whether an escape sequence stands in `s` at `at`: a backslash and an
/// escape letter.
pub open spec fn escape_stands(s: Seq<char>, at: int) -> bool {
    0 <= at && at + 1 < s.len() && s[at] == '\\' && is_escape_letter(s[at + 1])
}

/// The escape sequences of `s` from `from` on, as a search finds them that
/// reads from left to right and goes on behind each one that it finds.
pub open spec fn escape_matches(s: Seq<char>, from: int) -> Seq<MatchView>
    decreases s.len() - from,
{
    if from < 0 || from + 1 >= s.len() {
        Seq::empty()
    } else if escape_stands(s, from) {
        seq![MatchView { pattern: escape_number(s[from + 1]), start: from, end: from + 2 }]
            + escape_matches(s, from + 2)
    } else {
        escape_matches(s, from + 1)
    }
}

/// The text `s` with its escape sequences decoded.
pub open spec fn decoded(s: Seq<char>) -> Seq<char> {
    decode_escapes(s, escape_matches(s, 0))
}

/// The number of bytes that `c` takes in UTF-8.
pub fn utf8_len(c: char) -> (r: usize)
    ensures
        r == utf8_width(c),
        1 <= r <= 4,
{
    let v: u32 = c as u32;
    if v < 0x80 {
        1
    } else if v < 0x800 {
        2
    } else if v < 0x10000 {
        3
    } else {
        4
    }
}

/// The end of the digits of a `\u` whose letter ends at `pos`.
pub fn code_unit_span(s: &Vec<char>, pos: usize) -> (r: Option<usize>)
    requires
        pos <= s.len(),
    ensures
        r.is_some() == (code_unit_end(s@, pos as int) >= 0),
        r matches Some(end) ==> end == code_unit_end(s@, pos as int) && pos < end <= s.len()
            && end <= pos + 4,
{
    let mut i: usize = pos;
    let mut taken: usize = 0;
    while taken < 4
        invariant
            pos <= i <= s.len(),
            taken <= 7,
            i - pos <= taken,
            i - pos <= 4,
            taken > 0 ==> i > pos,
            code_unit_end(s@, pos as int) == code_unit_reach(s@, i as int, taken as int),
        decreases s.len() - i,
    {
        if i >= s.len() {
            return None;
        }
        taken += utf8_len(s[i]);
        i += 1;
    }
    Some(i)
}

/// The value of `c` as a hexadecimal digit.
pub fn hex_digit(c: char) -> (r: Option<u16>)
    ensures
        r.is_some() == CharClass::HexDigit.holds(c),
        r matches Some(d) ==> d == digit_value(c) && d < 16,
{
    if '0' <= c && c <= '9' {
        Some((c as u32 - '0' as u32) as u16)
    } else if 'a' <= c && c <= 'f' {
        Some((c as u32 - 'a' as u32 + 10) as u16)
    } else if 'A' <= c && c <= 'F' {
        Some((c as u32 - 'A' as u32 + 10) as u16)
    } else {
        None
    }
}

/// The number that the hexadecimal digits `s[from..to]` denote, if they are
/// at most four hexadecimal digits.
fn hex_number(s: &Vec<char>, from: usize, to: usize) -> (r: Option<u16>)
    requires
        from <= to <= s.len(),
        to - from <= 4,
    ensures
        r.is_some() == (forall|i: int| from <= i < to ==> CharClass::HexDigit.holds(#[trigger] s@[i])),
        r matches Some(v) ==> v == digits_value(s@.subrange(from as int, to as int), 16),
{
    let mut acc: u32 = 0;
    let mut i: usize = from;
    while i < to
        invariant
            from <= i <= to <= s.len(),
            to - from <= 4,
            forall|k: int| from <= k < i ==> CharClass::HexDigit.holds(#[trigger] s@[k]),
            acc == digits_value(s@.subrange(from as int, i as int), 16),
            i - from == 0 ==> acc == 0,
            i - from == 1 ==> acc < 0x10,
            i - from == 2 ==> acc < 0x100,
            i - from == 3 ==> acc < 0x1000,
            i - from == 4 ==> acc < 0x10000,
        decreases to - i,
    {
        match hex_digit(s[i]) {
            Some(d) => {
                proof {
                    let next = s@.subrange(from as int, i + 1);
                    assert(next.drop_last() =~= s@.subrange(from as int, i as int));
                    assert(next.last() == s@[i as int]);
                }
                acc = acc * 16 + d as u32;
                i += 1;
            },
            None => {
                return None;
            },
        }
    }
    Some(acc as u16)
}

/// The number that the four characters `s[from..from + 4]` denote in a
/// `\uXXXX` escape.
pub fn code_unit(s: &Vec<char>, from: usize) -> (r: Option<u16>)
    requires
        from + 4 <= s.len(),
    ensures
        r.is_some() == code_unit_value(s@.subrange(from as int, from + 4)).is_some(),
        r matches Some(v) ==> code_unit_value(s@.subrange(from as int, from + 4)) == Some(v as int),
{
    let ghost digits = s@.subrange(from as int, from + 4);
    assert(forall|i: int| 0 <= i < 4 ==> digits[i] == s@[from + i]);
    match hex_number(s, from, from + 4) {
        Some(v) => {
            assert forall|i: int| 0 <= i < 4 implies CharClass::HexDigit.holds(
                #[trigger] digits[i],
            ) by {
                assert(CharClass::HexDigit.holds(s@[from + i]));
            }
            Some(v)
        },
        None => {
            proof {
                let j = choose|j: int| from <= j < from + 4 && !CharClass::HexDigit.holds(s@[j]);
                assert(!CharClass::HexDigit.holds(digits[j - from]));
            }
            None
        },
    }
}

/// The character that each of the first eight escape sequences stands for.
pub fn replacement(pattern: usize) -> (r: char)
    requires
        pattern < 8,
    ensures
        r == escape_replacement(pattern as int),
{
    if pattern == 0 {
        '"'
    } else if pattern == 1 {
        '\\'
    } else if pattern == 2 {
        '/'
    } else if pattern == 3 {
        '\u{8}'
    } else if pattern == 4 {
        '\u{c}'
    } else if pattern == 5 {
        '\n'
    } else if pattern == 6 {
        '\r'
    } else {
        '\t'
    }
}

/// The text of an effect that writes `c`, or nothing.
pub open spec fn effect_text(c: Option<char>) -> Seq<char> {
    match c {
        Some(c) => seq![c],
        None => Seq::empty(),
    }
}

/// Works out the effect of one escape sequence: the character to write, if
/// any, where the reading goes on, and the high surrogate to remember.
pub fn apply_escape(s: &Vec<char>, m: PatternMatch, high: u16) -> (r: (Option<char>, usize, u16))
    requires
        m.end <= s.len(),
    ensures
        effect_text(r.0) == escape_effect(s@, m@, high as int).text,
        r.1 == escape_effect(s@, m@, high as int).next,
        r.2 == escape_effect(s@, m@, high as int).high,
        m.end <= r.1 <= s.len(),
{
    if m.pattern < 8 {
        return (Some(replacement(m.pattern)), m.end, 0);
    }
    let end = match code_unit_span(s, m.end) {
        Some(end) => end,
        None => {
            return (None, m.end, 0);
        },
    };
    if end - m.end != 4 {
        return (None, end, 0);
    }
    let unit = match code_unit(s, m.end) {
        Some(unit) => unit,
        None => {
            return (None, end, 0);
        },
    };
    if 0xd800 <= unit && unit < 0xdc00 {
        (None, end, unit)
    } else if 0xdc00 <= unit && unit < 0xe000 {
        if 0xd800 <= high && high < 0xdc00 {
            let code: u32 = 0x10000 + (high as u32 - 0xd800) * 0x400 + (unit as u32 - 0xdc00);
            (char::from_u32(code), end, 0)
        } else {
            (None, end, 0)
        }
    } else {
        (char::from_u32(unit as u32), end, 0)
    }
}

/// Decodes the escape sequences `ms` in `s`. A match that does not lie in
/// the text behind what was read before it is passed over.
pub fn decode(s: &Vec<char>, ms: &Vec<PatternMatch>) -> (r: Vec<char>)
    ensures
        r@ == decode_escapes(s@, matches_view(ms@)),
{
    let mut out: Vec<char> = Vec::new();
    let mut last: usize = 0;
    let mut high: u16 = 0;
    let mut k: usize = 0;
    while k < ms.len()
        invariant
            k <= ms.len(),
            last <= s.len(),
            decode_escapes(s@, matches_view(ms@)) == decode_from(
                s@,
                matches_view(ms@),
                k as int,
                last as int,
                high as int,
                out@,
            ),
        decreases ms.len() - k,
    {
        let m = ms[k];
        if last <= m.start && m.start <= m.end && m.end <= s.len() {
            let piece = copy_range(s, last, m.start);
            push_chars(&mut out, &piece);
            let joined: u16 = if m.start == last {
                high
            } else {
                0
            };
            let effect = apply_escape(s, m, joined);
            let ghost before = out@;
            match effect.0 {
                Some(c) => {
                    out.push(c);
                    assert(out@ =~= before + seq![c]);
                },
                None => {
                    assert(out@ =~= before + Seq::<char>::empty());
                },
            }
            last = effect.1;
            high = effect.2;
        }
        k += 1;
    }
    let rest = copy_range(s, last, s.len());
    push_chars(&mut out, &rest);
    out
}

/// Whether `s` holds a backslash.
pub fn contains_backslash(s: &Vec<char>) -> (r: bool)
    ensures
        r == has_backslash(s@),
{
    skip_run(s, 0, CharClass::NotBackslash) < s.len()
}

/// The byte that stands for a character in a search is the backslash or
/// an escape letter only for that character.
pub proof fn lemma_search_byte(c: char)
    ensures
        (search_byte(c) == 0x5c) == (c == '\\'),
        (search_byte(c) == 0x22) == (c == '"'),
        (search_byte(c) == 0x2f) == (c == '/'),
        (search_byte(c) == 0x62) == (c == 'b'),
        (search_byte(c) == 0x66) == (c == 'f'),
        (search_byte(c) == 0x6e) == (c == 'n'),
        (search_byte(c) == 0x72) == (c == 'r'),
        (search_byte(c) == 0x74) == (c == 't'),
        (search_byte(c) == 0x75) == (c == 'u'),
{
}

/// An escape pattern stands in the text to search where the escape
/// sequence of its number stands in the text.
pub proof fn lemma_pattern_occurs(s: Seq<char>, at: int, p: int)
    requires
        0 <= p < 9,
    ensures
        pattern_occurs(search_key(s), at, escape_pattern_list()[p]) == (escape_stands(s, at)
            && escape_number(s[at + 1]) == p),
{
    let key = search_key(s);
    let pattern = escape_pattern_list()[p];
    assert(pattern.len() == 2);
    if 0 <= at && at + 2 <= s.len() {
        lemma_search_byte(s[at]);
        lemma_search_byte(s[at + 1]);
        assert(key[at] == search_byte(s[at]));
        assert(key[at + 1] == search_byte(s[at + 1]));
        let piece = key.subrange(at, at + 2);
        assert(piece[0] == key[at] && piece[1] == key[at + 1]);
        if escape_stands(s, at) && escape_number(s[at + 1]) == p {
            assert(piece =~= pattern);
        }
        if piece == pattern {
            assert(piece[0] == pattern[0] && piece[1] == pattern[1]);
        }
    }
}

/// There are nine escape patterns, of two bytes each.
pub proof fn lemma_escape_patterns()
    ensures
        escape_pattern_list().len() == 9,
        none_empty(escape_pattern_list()),
        few_short(escape_pattern_list()),
        forall|p: int| 0 <= p < 9 ==> (#[trigger] escape_pattern_list()[p]).len() == 2,
{
}

/// The matches that a search for the escape patterns reports, from the
/// match `k` on, are the escape sequences of the text from `q` on, where
/// no escape sequence stands between the start of the search for that
/// match and `q`.
pub proof fn lemma_reported_matches(s: Seq<char>, ms: Seq<MatchView>, k: int, q: int)
    requires
        reported_as_seen(escape_pattern_list(), search_key(s), ms),
        0 <= k <= ms.len(),
        0 <= q,
        search_from(ms, k) <= q <= s.len(),
        forall|at: int| search_from(ms, k) <= at < q ==> !escape_stands(s, at),
    ensures
        ms.subrange(k, ms.len() as int) == escape_matches(s, q),
    decreases s.len() - q,
{
    let patterns = escape_pattern_list();
    let key = search_key(s);
    lemma_escape_patterns();
    let from = search_from(ms, k);
    if k < ms.len() {
        let m = ms[k];
        assert(seen_first(patterns, key, ms, k));
        lemma_pattern_occurs(s, m.start, m.pattern);
        assert(escape_stands(s, m.start));
        assert(m.start >= q);
        assert(m.end == m.start + 2);
    }
    if q + 1 >= s.len() {
        assert(k == ms.len());
        assert(ms.subrange(k, ms.len() as int) =~= Seq::empty());
    } else if escape_stands(s, q) {
        let p = escape_number(s[q + 1]);
        lemma_pattern_occurs(s, q, p);
        assert(pattern_occurs(key, q, patterns[p]));
        if k == ms.len() {
            assert(!pattern_occurs(key, q, patterns[p]));
        }
        let m = ms[k];
        assert(m.end <= q + patterns[p].len());
        assert(m.start == q);
        assert(m.pattern == p);
        assert(m == MatchView { pattern: p, start: q, end: q + 2 });
        assert(search_from(ms, k + 1) == q + 2);
        lemma_reported_matches(s, ms, k + 1, q + 2);
        assert(ms.subrange(k, ms.len() as int) =~= seq![m] + ms.subrange(
            k + 1,
            ms.len() as int,
        ));
    } else {
        lemma_reported_matches(s, ms, k, q + 1);
    }
}

/// A text without a backslash holds no escape sequence, and is decoded to
/// itself.
pub proof fn lemma_decoded_without_backslash(s: Seq<char>)
    requires
        !has_backslash(s),
    ensures
        decoded(s) == s,
{
    lemma_run_end(s, 0, CharClass::NotBackslash);
    lemma_no_escapes(s, 0);
    assert(s.subrange(0, s.len() as int) =~= s);
    assert(Seq::<char>::empty() + s =~= s);
}

/// Where no backslash stands, no escape sequence is found.
pub proof fn lemma_no_escapes(s: Seq<char>, from: int)
    requires
        forall|i: int| 0 <= i < s.len() ==> (#[trigger] s[i]) != '\\',
    ensures
        escape_matches(s, from) == Seq::<MatchView>::empty(),
    decreases s.len() - from,
{
    if 0 <= from && from + 1 < s.len() {
        lemma_no_escapes(s, from + 1);
    }
}

/// Decodes the escape sequences of `s`, which `finder` finds.
pub fn unescape_chars(finder: &PatternFinder, s: &Vec<char>) -> (r: Vec<char>)
    requires
        finder.patterns() == escape_pattern_list(),
    ensures
        r@ == decoded(s@),
{
    if !contains_backslash(s) {
        proof {
            lemma_decoded_without_backslash(s@);
        }
        return copy_chars(s);
    }
    let key = make_search_key(s);
    let found = finder.find_all(&key);
    proof {
        lemma_escape_patterns();
        let ms = matches_view(found@);
        lemma_reported_matches(s@, ms, 0, 0);
        assert(ms.subrange(0, ms.len() as int) =~= ms);
    }
    decode(s, &found)
}

/// Decodes the escape sequences of a quoted string's content.
pub fn unescape(input: &str) -> (r: String)
    ensures
        r@ == decoded(input@),
{
    let s = chars_of(input);
    let finder = escape_finder();
    let out = unescape_chars(&finder, &s);
    string_of(&out)
}

} // verus!
