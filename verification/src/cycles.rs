//! Substitutions without a base. A substitution stands for what is written
//! at another path; where that is a substitution again, and so on in a
//! circle, there is no value that any of them could stand for. Resolution
//! then ends with bad values: no value comes from nowhere.

use crate::resolve::{after_rounds, applied, folded_entries, resolved, substituted, target_path};
use crate::tree::{
    empty_hash, items_of, looked_up, member_index, members_of, merged, merged_members, placed,
    NodeView,
};
use crate::value::{EntryView, PathItemView, PathView, ValueView};
use vstd::prelude::*;

verus! {

/// Whether every leaf of a tree is a bad value.
pub open spec fn only_failures(n: NodeView) -> bool
    decreases n,
{
    match n {
        NodeView::Leaf(v) => v is BadValue,
        NodeView::Hash(members) => forall|i: int|
            0 <= i < members.len() ==> only_failures((#[trigger] members[i]).1),
        NodeView::Array(items, _) => forall|i: int|
            0 <= i < items.len() ==> only_failures(#[trigger] items[i]),
    }
}

/// Whether every member of `members` is a tree of bad values.
pub open spec fn members_only_failures(members: Seq<(Seq<char>, NodeView)>) -> bool {
    forall|i: int| 0 <= i < members.len() ==> only_failures((#[trigger] members[i]).1)
}

/// Whether every entry of `d` holds a substitution and nothing else.
pub open spec fn all_substitutions(d: Seq<EntryView>) -> bool {
    forall|i: int| 0 <= i < d.len() ==> (#[trigger] d[i]).value is PathSubstitution
}

/// Where a member is found, it is found among the members.
pub proof fn lemma_member_index(members: Seq<(Seq<char>, NodeView)>, key: Seq<char>, from: int)
    requires
        0 <= from,
    ensures
        member_index(members, key, from) == -1 || from <= member_index(members, key, from)
            < members.len(),
    decreases members.len() - from,
{
    if from < members.len() && members[from].0 != key {
        lemma_member_index(members, key, from + 1);
    }
}

/// Merging trees of bad values gives a tree of bad values.
pub proof fn lemma_merged_failures(old: NodeView, new: NodeView)
    requires
        only_failures(old),
        only_failures(new),
    ensures
        only_failures(merged(old, new)),
    decreases new, 0nat,
{
    match (old, new) {
        (NodeView::Hash(a), NodeView::Hash(b)) => {
            lemma_merged_members_failures(a, b, b.len());
        },
        _ => {},
    }
}

/// Merging members that are trees of bad values gives such members.
pub proof fn lemma_merged_members_failures(
    old: Seq<(Seq<char>, NodeView)>,
    new: Seq<(Seq<char>, NodeView)>,
    count: nat,
)
    requires
        members_only_failures(old),
        members_only_failures(new),
        count <= new.len(),
    ensures
        members_only_failures(merged_members(old, new, count)),
    decreases new, count,
{
    if count > 0 {
        lemma_merged_members_failures(old, new, (count - 1) as nat);
        let before = merged_members(old, new, (count - 1) as nat);
        let member = new[count - 1];
        let at = member_index(before, member.0, 0);
        lemma_member_index(before, member.0, 0);
        assert(only_failures(member.1));
        if 0 <= at < before.len() {
            assert(only_failures(before[at].1));
            lemma_merged_failures(before[at].1, member.1);
            let after = before.update(at, (member.0, merged(before[at].1, member.1)));
            assert forall|i: int| 0 <= i < after.len() implies only_failures(
                (#[trigger] after[i]).1,
            ) by {
                if i != at {
                    assert(after[i] == before[i]);
                }
            }
        } else {
            let after = before.push(member);
            assert forall|i: int| 0 <= i < after.len() implies only_failures(
                (#[trigger] after[i]).1,
            ) by {
                if i < before.len() {
                    assert(after[i] == before[i]);
                }
            }
        }
    }
}

/// Writing a tree of bad values into a tree of bad values gives a tree of
/// bad values.
pub proof fn lemma_placed_failures(node: NodeView, path: PathView, k: int, new: NodeView)
    requires
        only_failures(node),
        only_failures(new),
    ensures
        only_failures(placed(node, path, k, new)),
    decreases path.len() - k,
{
    if k < 0 || k >= path.len() {
        lemma_merged_failures(node, new);
    } else {
        match path[k] {
            PathItemView::Key(name) => {
                let members = members_of(node);
                let at = member_index(members, name, 0);
                lemma_member_index(members, name, 0);
                assert(members_only_failures(members));
                if 0 <= at < members.len() {
                    assert(only_failures(members[at].1));
                    lemma_placed_failures(members[at].1, path, k + 1, new);
                    let after = members.update(at, (name, placed(members[at].1, path, k + 1, new)));
                    assert forall|i: int| 0 <= i < after.len() implies only_failures(
                        (#[trigger] after[i]).1,
                    ) by {
                        if i != at {
                            assert(after[i] == members[i]);
                        }
                    }
                } else {
                    lemma_placed_failures(empty_hash(), path, k + 1, new);
                    let after = members.push((name, placed(empty_hash(), path, k + 1, new)));
                    assert forall|i: int| 0 <= i < after.len() implies only_failures(
                        (#[trigger] after[i]).1,
                    ) by {
                        if i < members.len() {
                            assert(after[i] == members[i]);
                        }
                    }
                }
            },
            slot => {
                let items = items_of(node);
                assert(forall|i: int| 0 <= i < items.len() ==> only_failures(#[trigger] items[i]));
                if crate::tree::last_slot_of(node) == Some(slot) {
                    assert(only_failures(items[items.len() - 1]));
                    lemma_placed_failures(items.last(), path, k + 1, new);
                    let after = items.update(
                        items.len() - 1,
                        placed(items.last(), path, k + 1, new),
                    );
                    assert forall|i: int| 0 <= i < after.len() implies only_failures(
                        #[trigger] after[i],
                    ) by {
                        if i != items.len() - 1 {
                            assert(after[i] == items[i]);
                        }
                    }
                } else {
                    lemma_placed_failures(empty_hash(), path, k + 1, new);
                    let after = items.push(placed(empty_hash(), path, k + 1, new));
                    assert forall|i: int| 0 <= i < after.len() implies only_failures(
                        #[trigger] after[i],
                    ) by {
                        if i < items.len() {
                            assert(after[i] == items[i]);
                        }
                    }
                }
            },
        }
    }
}

/// What is found in a tree of bad values is a tree of bad values.
pub proof fn lemma_looked_up_failures(node: NodeView, path: PathView, k: int)
    requires
        only_failures(node),
    ensures
        looked_up(node, path, k) matches Some(n) ==> only_failures(n),
    decreases path.len() - k,
{
    if 0 <= k < path.len() {
        match (node, path[k]) {
            (NodeView::Hash(members), PathItemView::Key(name)) => {
                let at = member_index(members, name, 0);
                lemma_member_index(members, name, 0);
                if 0 <= at < members.len() {
                    assert(only_failures(members[at].1));
                    lemma_looked_up_failures(members[at].1, path, k + 1);
                }
            },
            _ => {},
        }
    }
}

/// Writing a substitution into a tree of bad values, with a tree of bad
/// values from the round before, gives a tree of bad values.
pub proof fn lemma_applied_failures(tree: NodeView, full: Option<NodeView>, e: EntryView)
    requires
        only_failures(tree),
        full matches Some(f) ==> only_failures(f),
        e.value is PathSubstitution,
    ensures
        only_failures(applied(tree, full, e)),
{
    match e.value {
        ValueView::PathSubstitution { target, optional, original } => {
            match target_path(*target) {
                Some(p) => {
                    match e.root {
                        Some(r) => {
                            lemma_looked_up_failures(tree, r + p, 0);
                            if let Some(f) = full {
                                lemma_looked_up_failures(f, r + p, 0);
                            }
                        },
                        None => {},
                    }
                    lemma_looked_up_failures(tree, p, 0);
                    if let Some(f) = full {
                        lemma_looked_up_failures(f, p, 0);
                    }
                    match substituted(tree, full, e.path, e.root, p) {
                        Some(node) => {
                            lemma_placed_failures(tree, e.path, 0, node);
                        },
                        None => {
                            if !optional {
                                lemma_placed_failures(
                                    tree,
                                    e.path,
                                    0,
                                    crate::resolve::bad_leaf(crate::resolve::missing(*target)),
                                );
                            }
                        },
                    }
                },
                None => {
                    lemma_placed_failures(
                        tree,
                        e.path,
                        0,
                        crate::resolve::bad_leaf(crate::error::ErrorView::InvalidValue),
                    );
                },
            }
        },
        _ => {},
    }
}

/// A round over substitutions alone gives a tree of bad values.
pub proof fn lemma_folded_failures(d: Seq<EntryView>, full: Option<NodeView>, count: nat)
    requires
        all_substitutions(d),
        full matches Some(f) ==> only_failures(f),
    ensures
        only_failures(folded_entries(d, full, count)),
    decreases count,
{
    if count > 0 && count <= d.len() {
        lemma_folded_failures(d, full, (count - 1) as nat);
        assert(d[count - 1].value is PathSubstitution);
        lemma_applied_failures(folded_entries(d, full, (count - 1) as nat), full, d[count - 1]);
    }
}

/// Any number of rounds over substitutions alone gives a tree of bad
/// values.
pub proof fn lemma_rounds_failures(d: Seq<EntryView>, rounds: nat)
    requires
        all_substitutions(d),
    ensures
        only_failures(after_rounds(d, rounds)),
    decreases rounds,
{
    if rounds == 0 {
        lemma_folded_failures(d, None, d.len());
    } else {
        lemma_rounds_failures(d, (rounds - 1) as nat);
        lemma_folded_failures(d, Some(after_rounds(d, (rounds - 1) as nat)), d.len());
    }
}

/// A document in which every entry is a substitution, so that no chain of
/// substitutions ever ends in a value that was written, resolves to a tree
/// in which every leaf is a bad value. Substitutions that name each other
/// in a circle are the plain case: `a = ${b}` with `b = ${a}`.
pub proof fn lemma_substitutions_without_base(d: Seq<EntryView>)
    requires
        all_substitutions(d),
    ensures
        only_failures(resolved(d)),
{
    lemma_rounds_failures(d, crate::resolve::substitution_count(d, d.len()));
}

} // verus!
