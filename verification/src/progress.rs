//! Loading comes to an end. Every request asks from a level: the depth at
//! which its document was parsed. What is taken in for a request strikes
//! that request from its level and adds requests one level deeper only,
//! and beyond the greatest level nothing is taken in. So the numbers of
//! requests at the levels, read from the first level to the last, fall
//! with each request that is dealt with, as the digits of a number do when
//! it is counted down; and there are no more levels than a depth can
//! count.

use crate::error::ErrorView;
use crate::loader::{
    brought_in, configuration_for, decided, failed_entry, lemma_brought_in_goes_deeper,
    lemma_next_request, locator_of, next_request, refused, requested, sound, spliced, supplied,
    Decision, Event, LoaderView,
};
use crate::loader_config::UrlParts;
use crate::value::{EntryView, ValueView};
use vstd::prelude::*;

verus! {

/// The level that an entry asks from; -1 for an entry that is no request.
pub open spec fn level_of(e: EntryView) -> int {
    match e.value {
        ValueView::Inclusion { depth, .. } => depth as int,
        _ => -1,
    }
}

/// Whether an entry is a request that asks from `level`.
pub open spec fn asks_from(e: EntryView, level: int) -> bool {
    e.value is Inclusion && level_of(e) == level
}

/// The number of requests among `d` that ask from `level`.
pub open spec fn requests_at(d: Seq<EntryView>, level: int) -> nat
    decreases d.len(),
{
    if d.len() == 0 {
        0
    } else {
        requests_at(d.drop_last(), level) + if asks_from(d.last(), level) {
            1nat
        } else {
            0nat
        }
    }
}

/// The requests of two sequences of entries are those of the one and
/// those of the other.
pub proof fn lemma_requests_joined(a: Seq<EntryView>, b: Seq<EntryView>, level: int)
    ensures
        requests_at(a + b, level) == requests_at(a, level) + requests_at(b, level),
    decreases b.len(),
{
    if b.len() == 0 {
        assert(a + b =~= a);
    } else {
        assert((a + b).drop_last() =~= a + b.drop_last());
        assert((a + b).last() == b.last());
        lemma_requests_joined(a, b.drop_last(), level);
    }
}

/// Entries of which none asks from a level hold no request at that level.
pub proof fn lemma_no_requests(d: Seq<EntryView>, level: int)
    requires
        forall|i: int| 0 <= i < d.len() ==> !asks_from(#[trigger] d[i], level),
    ensures
        requests_at(d, level) == 0,
    decreases d.len(),
{
    if d.len() > 0 {
        assert forall|i: int| 0 <= i < d.drop_last().len() implies !asks_from(
            #[trigger] d.drop_last()[i],
            level,
        ) by {
            assert(d.drop_last()[i] == d[i]);
        }
        assert(d.last() == d[d.len() - 1]);
        lemma_no_requests(d.drop_last(), level);
    }
}

/// The requests of a sequence with one entry replaced by others are those
/// before the entry, those of the others and those behind it.
pub proof fn lemma_requests_replaced(
    d: Seq<EntryView>,
    at: int,
    new: Seq<EntryView>,
    level: int,
)
    requires
        0 <= at < d.len(),
    ensures
        requests_at(d.subrange(0, at) + new + d.subrange(at + 1, d.len() as int), level) + requests_at(
            seq![d[at]],
            level,
        ) == requests_at(d, level) + requests_at(new, level),
{
    let before = d.subrange(0, at);
    let behind = d.subrange(at + 1, d.len() as int);
    assert(d =~= before + seq![d[at]] + behind);
    lemma_requests_joined(before + seq![d[at]], behind, level);
    lemma_requests_joined(before, seq![d[at]], level);
    lemma_requests_joined(before + new, behind, level);
    lemma_requests_joined(before, new, level);
}

/// One entry alone holds one request at the level that it asks from, and
/// none at any other.
pub proof fn lemma_one_request(e: EntryView, level: int)
    ensures
        requests_at(seq![e], level) == (if asks_from(e, level) {
            1nat
        } else {
            0nat
        }),
{
    assert(seq![e].drop_last() =~= Seq::<EntryView>::empty());
    assert(seq![e].last() == e);
    assert(requests_at(Seq::<EntryView>::empty(), level) == 0);
}

/// What is brought in for a request strikes it from its level and leaves
/// the levels before it as they are, where all that it asks for itself is
/// asked from the next level.
pub proof fn lemma_brought_in_strikes_one(
    d: Seq<EntryView>,
    at: int,
    sub: Seq<EntryView>,
    level: int,
)
    requires
        0 <= at < d.len(),
        d[at].value is Inclusion,
        forall|i: int|
            0 <= i < sub.len() ==> (#[trigger] sub[i]).value is Inclusion ==> level_of(sub[i])
                == level_of(d[at]) + 1,
        level <= level_of(d[at]),
    ensures
        level < level_of(d[at]) ==> requests_at(spliced(d, at, sub), level) == requests_at(d, level),
        level == level_of(d[at]) ==> requests_at(spliced(d, at, sub), level) + 1 == requests_at(
            d,
            level,
        ),
{
    let new = Seq::new(sub.len(), |i: int| crate::loader::brought_entry(d[at], sub[i]));
    assert forall|i: int| 0 <= i < new.len() implies !asks_from(#[trigger] new[i], level) by {
        assert(new[i].value == sub[i].value);
        assert(level_of(new[i]) == level_of(sub[i]));
    }
    lemma_no_requests(new, level);
    lemma_requests_replaced(d, at, new, level);
    lemma_one_request(d[at], level);
}

/// A request that cannot be served, and gives way to a bad value, is
/// struck from its level, and all other levels stay as they are.
pub proof fn lemma_failure_strikes_one(d: Seq<EntryView>, at: int, err: ErrorView, level: int)
    requires
        0 <= at < d.len(),
        d[at].value is Inclusion,
    ensures
        level != level_of(d[at]) ==> requests_at(d.update(at, failed_entry(d[at], err)), level)
            == requests_at(d, level),
        level == level_of(d[at]) ==> requests_at(d.update(at, failed_entry(d[at], err)), level) + 1
            == requests_at(d, level),
{
    let new = seq![failed_entry(d[at], err)];
    assert(d.update(at, failed_entry(d[at], err)) =~= d.subrange(0, at) + new + d.subrange(
        at + 1,
        d.len() as int,
    ));
    lemma_one_request(failed_entry(d[at], err), level);
    lemma_requests_replaced(d, at, new, level);
    lemma_one_request(d[at], level);
}

/// What a loader takes in for the request that it waits for strikes that
/// request from its level and leaves the levels before it as they are,
/// whatever was read or fetched, unless the whole fails: either the
/// entries that were brought in stand in its place, which ask from the
/// next level, or a bad value does.
pub proof fn lemma_taking_in_strikes_the_request(
    s: LoaderView,
    parts: Option<UrlParts>,
    event: Event,
    json_tag: Seq<char>,
    hocon_tag: Seq<char>,
    level: int,
)
    requires
        sound(s),
        s.waiting is Some,
        s.waiting == configuration_for(decided(s.config, s.doc[s.cursor].value, parts)),
        supplied(s, event, json_tag, hocon_tag).1 is None,
        level <= level_of(s.doc[s.cursor]),
    ensures
        level < level_of(s.doc[s.cursor]) ==> requests_at(
            supplied(s, event, json_tag, hocon_tag).0.doc,
            level,
        ) == requests_at(s.doc, level),
        level == level_of(s.doc[s.cursor]) ==> requests_at(
            supplied(s, event, json_tag, hocon_tag).0.doc,
            level,
        ) + 1 == requests_at(s.doc, level),
{
    let request = s.doc[s.cursor];
    let w = s.waiting.unwrap();
    match request.value {
        ValueView::Inclusion { kind, locator, depth, base } => {
            match brought_in(w, event, json_tag, hocon_tag) {
                Some(sub) => {
                    lemma_brought_in_goes_deeper(
                        s.config,
                        kind,
                        locator,
                        depth,
                        base,
                        parts,
                        event,
                        json_tag,
                        hocon_tag,
                    );
                    lemma_brought_in_strikes_one(s.doc, s.cursor, sub, level);
                },
                None => {
                    lemma_failure_strikes_one(
                        s.doc,
                        s.cursor,
                        refused(locator_of(request.value)),
                        level,
                    );
                },
            }
        },
        _ => {},
    }
}

/// A request that a loader refuses is struck from its level, and all other
/// levels stay as they are, unless the whole fails; and while a loader
/// asks for a reading, or is done, the entries stay as they are.
pub proof fn lemma_looking_on_strikes_or_waits(s: LoaderView, parts: Option<UrlParts>, level: int)
    requires
        sound(s),
        !(requested(s, parts).1 is Failed),
    ensures
        requested(s, parts).1 is Again ==> ({
            let at = next_request(s.doc, s.cursor);
            &&& 0 <= at < s.doc.len()
            &&& s.doc[at].value is Inclusion
            &&& level != level_of(s.doc[at]) ==> requests_at(requested(s, parts).0.doc, level)
                == requests_at(s.doc, level)
            &&& level == level_of(s.doc[at]) ==> requests_at(requested(s, parts).0.doc, level) + 1
                == requests_at(s.doc, level)
        }),
        !(requested(s, parts).1 is Again) ==> requested(s, parts).0.doc == s.doc,
{
    let at = next_request(s.doc, s.cursor);
    lemma_next_request(s.doc, s.cursor);
    if at < s.doc.len() {
        if let Decision::Fail(err) = decided(s.config, s.doc[at].value, parts) {
            lemma_failure_strikes_one(s.doc, at, err, level);
        }
    }
}

} // verus!
