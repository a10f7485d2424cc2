//! Text as sequences of characters: conversions between `str`, `String` and
//! `Vec<char>`, and the small scanning primitives the grammar is built from.

use vstd::prelude::*;

verus! {

/// `String::push` appends one character to the end of the string.
pub assume_specification[ std::string::String::push ](s: &mut std::string::String, c: char)
    ensures
        final(s)@ == old(s)@.push(c),
;

/// The characters of `s`, in order.
pub fn chars_of(s: &str) -> (r: Vec<char>)
    ensures
        r@ == s@,
{
    let mut out: Vec<char> = Vec::new();
    for c in it: s.chars()
        invariant
            out@ == it.history@,
    {
        out.push(c);
    }
    out
}

/// A `String` holding the characters of `v`.
pub fn string_of(v: &Vec<char>) -> (r: String)
    ensures
        r@ == v@,
{
    let mut out = String::new();
    let mut i: usize = 0;
    while i < v.len()
        invariant
            i <= v.len(),
            out@ == v@.subrange(0, i as int),
        decreases v.len() - i,
    {
        out.push(v[i]);
        i += 1;
        assert(v@.subrange(0, i as int) =~= v@.subrange(0, i - 1).push(v@[i - 1]));
    }
    assert(v@.subrange(0, v.len() as int) =~= v@);
    out
}

/// A copy of `s[from..to]`.
pub fn copy_range(s: &Vec<char>, from: usize, to: usize) -> (r: Vec<char>)
    requires
        from <= to <= s.len(),
    ensures
        r@ == s@.subrange(from as int, to as int),
{
    let mut out: Vec<char> = Vec::new();
    let mut i: usize = from;
    while i < to
        invariant
            from <= i <= to <= s.len(),
            out@ == s@.subrange(from as int, i as int),
        decreases to - i,
    {
        out.push(s[i]);
        i += 1;
        assert(s@.subrange(from as int, i as int) =~= s@.subrange(from as int, i - 1).push(
            s@[i - 1],
        ));
    }
    out
}

/// A copy of the whole of `s`.
pub fn copy_chars(s: &Vec<char>) -> (r: Vec<char>)
    ensures
        r@ == s@,
{
    let r = copy_range(s, 0, s.len());
    assert(s@.subrange(0, s.len() as int) =~= s@);
    r
}

/// Appends the characters of `tail` to `out`.
pub fn push_chars(out: &mut Vec<char>, tail: &Vec<char>)
    ensures
        final(out)@ == old(out)@ + tail@,
{
    let mut i: usize = 0;
    while i < tail.len()
        invariant
            i <= tail.len(),
            out@ == old(out)@ + tail@.subrange(0, i as int),
        decreases tail.len() - i,
    {
        out.push(tail[i]);
        i += 1;
        assert(tail@.subrange(0, i as int) =~= tail@.subrange(0, i - 1).push(tail@[i - 1]));
    }
    assert(tail@.subrange(0, tail.len() as int) =~= tail@);
}

/// Whether `a` and `b` hold the same characters.
pub fn same_chars(a: &Vec<char>, b: &Vec<char>) -> (r: bool)
    ensures
        r == (a@ == b@),
{
    if a.len() != b.len() {
        return false;
    }
    let mut i: usize = 0;
    while i < a.len()
        invariant
            i <= a.len(),
            a.len() == b.len(),
            a@.subrange(0, i as int) == b@.subrange(0, i as int),
        decreases a.len() - i,
    {
        if a[i] != b[i] {
            assert(a@[i as int] != b@[i as int]);
            return false;
        }
        i += 1;
        assert(a@.subrange(0, i as int) =~= a@.subrange(0, i - 1).push(a@[i - 1]));
        assert(b@.subrange(0, i as int) =~= b@.subrange(0, i - 1).push(b@[i - 1]));
    }
    assert(a@.subrange(0, a.len() as int) =~= a@);
    assert(b@.subrange(0, b.len() as int) =~= b@);
    true
}

/// `pat` occurs in `s` starting at `pos`.
pub open spec fn occurs_at(s: Seq<char>, pos: int, pat: Seq<char>) -> bool {
    &&& 0 <= pos
    &&& pos + pat.len() <= s.len()
    &&& s.subrange(pos, pos + pat.len()) == pat
}

/// Whether the characters `a` and `b` stand at `pos` and behind it.
pub fn starts_with_pair(s: &Vec<char>, pos: usize, a: char, b: char) -> (r: bool)
    ensures
        r == occurs_at(s@, pos as int, seq![a, b]),
{
    if pos < s.len() && s.len() - pos >= 2 && s[pos] == a && s[pos + 1] == b {
        assert(s@.subrange(pos as int, pos + 2) =~= seq![a, b]);
        true
    } else {
        proof {
            if occurs_at(s@, pos as int, seq![a, b]) {
                let t = s@.subrange(pos as int, pos + 2);
                assert(t[0] == a && t[1] == b);
            }
        }
        false
    }
}

/// A text that stands at a place has its characters there.
pub proof fn lemma_occurs_chars(s: Seq<char>, pos: int, w: Seq<char>)
    requires
        occurs_at(s, pos, w),
    ensures
        forall|i: int| 0 <= i < w.len() ==> s[pos + i] == #[trigger] w[i],
{
    assert forall|i: int| 0 <= i < w.len() implies s[pos + i] == #[trigger] w[i] by {
        assert(s.subrange(pos, pos + w.len())[i] == w[i]);
    }
}

/// Where two texts stand one behind the other, each stands at its place.
pub proof fn lemma_occurs_parts(s: Seq<char>, pos: int, a: Seq<char>, b: Seq<char>)
    requires
        occurs_at(s, pos, a + b),
    ensures
        occurs_at(s, pos, a),
        occurs_at(s, pos + a.len(), b),
{
    lemma_occurs_chars(s, pos, a + b);
    assert(s.subrange(pos, pos + a.len()) =~= a) by {
        assert forall|i: int| 0 <= i < a.len() implies s.subrange(pos, pos + a.len())[i]
            == a[i] by {
            assert((a + b)[i] == a[i]);
        }
    }
    assert(s.subrange(pos + a.len(), pos + a.len() + b.len()) =~= b) by {
        assert forall|i: int| 0 <= i < b.len() implies s.subrange(
            pos + a.len(),
            pos + a.len() + b.len(),
        )[i] == b[i] by {
            assert((a + b)[a.len() + i] == b[i]);
        }
    }
}

/// Where a text stands, its first character stands.
pub proof fn lemma_first_char(s: Seq<char>, pos: int, w: Seq<char>)
    requires
        occurs_at(s, pos, w),
        w.len() > 0,
    ensures
        0 <= pos < s.len(),
        s[pos] == w[0],
{
    lemma_occurs_chars(s, pos, w);
}

/// Three texts one behind the other stand each at its place.
pub proof fn lemma_occurs_three(s: Seq<char>, pos: int, a: Seq<char>, b: Seq<char>, c: Seq<char>)
    requires
        occurs_at(s, pos, a + b + c),
    ensures
        occurs_at(s, pos, a),
        occurs_at(s, pos + a.len(), b),
        occurs_at(s, pos + a.len() + b.len(), c),
{
    lemma_occurs_parts(s, pos, a + b, c);
    lemma_occurs_parts(s, pos, a, b);
}

} // verus!
