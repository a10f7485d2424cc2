//! Writing and reading back. A tree of plain values that is written as the
//! shortest text and read again is the same tree.

use crate::document::{element_entries, object_entries, prefixed, prefixed_entry, root_entry};
use crate::hocon::{
    first_failure, first_failure_in_items, first_failure_in_members, loaded, projected, HoconView,
};
use crate::resolve::{applied, folded_entries, leaf_for, resolved, substitution_count};
use crate::tree::{
    empty_array, empty_hash, items_of, last_slot_of, member_index, members_of, merged,
    merged_members, placed, NodeView,
};
use crate::number_text::real_text;
use crate::value::{EntryView, PathItemView, PathView, ValueView};
use crate::words::{trim_end, trim_start, trimmed};
use vstd::prelude::*;

verus! {

/// The node that a path leads on to from `node` by the step `item`: the
/// member of that name, or the last element if this step led to it; an
/// empty object where there is none.
pub open spec fn child_at(node: NodeView, item: PathItemView) -> NodeView {
    match item {
        PathItemView::Key(name) => {
            let members = members_of(node);
            let at = member_index(members, name, 0);
            if 0 <= at < members.len() {
                members[at].1
            } else {
                empty_hash()
            }
        },
        slot => if last_slot_of(node) == Some(slot) {
            items_of(node).last()
        } else {
            empty_hash()
        },
    }
}

/// The node `node` with `child` put where the step `item` leads.
pub open spec fn with_child(node: NodeView, item: PathItemView, child: NodeView) -> NodeView {
    match item {
        PathItemView::Key(name) => {
            let members = members_of(node);
            let at = member_index(members, name, 0);
            if 0 <= at < members.len() {
                NodeView::Hash(members.update(at, (name, child)))
            } else {
                NodeView::Hash(members.push((name, child)))
            }
        },
        slot => {
            let items = items_of(node);
            if last_slot_of(node) == Some(slot) {
                NodeView::Array(items.update(items.len() - 1, child), Some(slot))
            } else {
                NodeView::Array(items.push(child), Some(slot))
            }
        },
    }
}

/// Writing at a path is writing below the first step of the path.
pub proof fn lemma_placed_step(node: NodeView, path: PathView, k: int, new: NodeView)
    requires
        0 <= k < path.len(),
    ensures
        placed(node, path, k, new) == with_child(
            node,
            path[k],
            placed(child_at(node, path[k]), path, k + 1, new),
        ),
{
}

/// Where a member is found, it is the first of its name.
pub proof fn lemma_member_index_first(members: Seq<(Seq<char>, NodeView)>, key: Seq<char>, from: int)
    requires
        0 <= from,
    ensures
        member_index(members, key, from) == -1 || from <= member_index(members, key, from)
            < members.len(),
        member_index(members, key, from) >= 0 ==> members[member_index(members, key, from)].0
            == key,
        forall|i: int|
            from <= i < members.len() && (member_index(members, key, from) == -1 || i
                < member_index(members, key, from)) ==> (#[trigger] members[i]).0 != key,
    decreases members.len() - from,
{
    if from < members.len() && members[from].0 != key {
        lemma_member_index_first(members, key, from + 1);
    }
}

/// The first member of a name is where the name is found.
pub proof fn lemma_member_index_is(members: Seq<(Seq<char>, NodeView)>, key: Seq<char>, from: int, at: int)
    requires
        0 <= from <= at < members.len(),
        members[at].0 == key,
        forall|i: int| from <= i < at ==> (#[trigger] members[i]).0 != key,
    ensures
        member_index(members, key, from) == at,
    decreases at - from,
{
    if from < at {
        assert(members[from].0 != key);
        lemma_member_index_is(members, key, from + 1, at);
    }
}

/// What was put where a step leads is found where the step leads.
pub proof fn lemma_child_of_with_child(node: NodeView, item: PathItemView, child: NodeView)
    ensures
        child_at(with_child(node, item, child), item) == child,
{
    match item {
        PathItemView::Key(name) => {
            let members = members_of(node);
            let at = member_index(members, name, 0);
            lemma_member_index_first(members, name, 0);
            if 0 <= at < members.len() {
                let after = members.update(at, (name, child));
                assert forall|i: int| 0 <= i < at implies (#[trigger] after[i]).0 != name by {
                    assert(after[i] == members[i]);
                }
                lemma_member_index_is(after, name, 0, at);
            } else {
                let after = members.push((name, child));
                assert forall|i: int| 0 <= i < members.len() implies (#[trigger] after[i]).0
                    != name by {
                    assert(after[i] == members[i]);
                }
                lemma_member_index_is(after, name, 0, members.len() as int);
            }
        },
        slot => {},
    }
}

/// Putting a child where one was put before replaces it.
pub proof fn lemma_with_child_twice(node: NodeView, item: PathItemView, first: NodeView, second: NodeView)
    ensures
        with_child(with_child(node, item, first), item, second) == with_child(node, item, second),
{
    match item {
        PathItemView::Key(name) => {
            let members = members_of(node);
            let at = member_index(members, name, 0);
            lemma_member_index_first(members, name, 0);
            if 0 <= at < members.len() {
                let after = members.update(at, (name, first));
                assert forall|i: int| 0 <= i < at implies (#[trigger] after[i]).0 != name by {
                    assert(after[i] == members[i]);
                }
                lemma_member_index_is(after, name, 0, at);
                assert(after.update(at, (name, second)) =~= members.update(at, (name, second)));
            } else {
                let after = members.push((name, first));
                assert forall|i: int| 0 <= i < members.len() implies (#[trigger] after[i]).0
                    != name by {
                    assert(after[i] == members[i]);
                }
                lemma_member_index_is(after, name, 0, members.len() as int);
                assert(after.update(members.len() as int, (name, second)) =~= members.push(
                    (name, second),
                ));
            }
        },
        slot => {
            let items = items_of(node);
            if last_slot_of(node) == Some(slot) {
                let after = items.update(items.len() - 1, first);
                assert(after.update(after.len() - 1, second) =~= items.update(
                    items.len() - 1,
                    second,
                ));
            } else {
                let after = items.push(first);
                assert(after.update(after.len() - 1, second) =~= items.push(second));
            }
        },
    }
}

/// Writing at a path looks at the steps from the given place on, and at
/// nothing before it.
pub proof fn lemma_placed_shift(node: NodeView, before: PathView, path: PathView, k: int, new: NodeView)
    requires
        0 <= k <= path.len(),
    ensures
        placed(node, before + path, before.len() + k, new) == placed(node, path, k, new),
    decreases path.len() - k,
{
    let whole = before + path;
    if k < path.len() {
        assert(whole[before.len() + k] == path[k]);
        match path[k] {
            PathItemView::Key(name) => {
                let members = members_of(node);
                let at = member_index(members, name, 0);
                if 0 <= at < members.len() {
                    lemma_placed_shift(members[at].1, before, path, k + 1, new);
                } else {
                    lemma_placed_shift(empty_hash(), before, path, k + 1, new);
                }
            },
            slot => {
                let items = items_of(node);
                if last_slot_of(node) == Some(slot) {
                    lemma_placed_shift(items.last(), before, path, k + 1, new);
                } else {
                    lemma_placed_shift(empty_hash(), before, path, k + 1, new);
                }
            },
        }
    }
}

/// Whether a value is written into a tree as it is: it is no substitution,
/// holds none, and asks for no other document.
pub open spec fn is_plain_value(v: ValueView) -> bool {
    !(v is PathSubstitution) && !(v is PathSubstitutionInParent) && !(v is Concat) && !(v
        is Inclusion)
}

/// The node that an entry with the plain value `v` writes.
pub open spec fn plain_node(v: ValueView) -> NodeView {
    match v {
        ValueView::EmptyObject => empty_hash(),
        ValueView::EmptyArray => empty_array(),
        other => leaf_for(other),
    }
}

/// Whether every entry of `d` holds a plain value.
pub open spec fn all_plain(d: Seq<EntryView>) -> bool {
    forall|i: int| 0 <= i < d.len() ==> is_plain_value((#[trigger] d[i]).value)
}

/// An entry with a plain value writes the node of its value at its path.
pub proof fn lemma_applied_plain(tree: NodeView, full: Option<NodeView>, e: EntryView)
    requires
        is_plain_value(e.value),
    ensures
        applied(tree, full, e) == placed(tree, e.path, 0, plain_node(e.value)),
{
}

/// The tree `tree` with the first `count` entries of `d` written into it,
/// in order.
pub open spec fn fold_onto(tree: NodeView, d: Seq<EntryView>, full: Option<NodeView>, count: nat) -> NodeView
    decreases count,
{
    if count == 0 || count > d.len() {
        tree
    } else {
        applied(fold_onto(tree, d, full, (count - 1) as nat), full, d[count - 1])
    }
}

/// A round starts from the empty object.
pub proof fn lemma_folded_is_fold_onto(d: Seq<EntryView>, full: Option<NodeView>, count: nat)
    ensures
        folded_entries(d, full, count) == fold_onto(empty_hash(), d, full, count),
    decreases count,
{
    if count > 0 && count <= d.len() {
        lemma_folded_is_fold_onto(d, full, (count - 1) as nat);
    }
}

/// Only the entries that are written count.
pub proof fn lemma_fold_onto_prefix(
    tree: NodeView,
    a: Seq<EntryView>,
    b: Seq<EntryView>,
    full: Option<NodeView>,
    count: nat,
)
    requires
        count <= a.len(),
    ensures
        fold_onto(tree, a + b, full, count) == fold_onto(tree, a, full, count),
    decreases count,
{
    if count > 0 {
        lemma_fold_onto_prefix(tree, a, b, full, (count - 1) as nat);
        assert((a + b)[count - 1] == a[count - 1]);
    }
}

/// Writing entries one after another is writing the first ones, then the
/// others.
pub proof fn lemma_fold_onto_concat(
    tree: NodeView,
    a: Seq<EntryView>,
    b: Seq<EntryView>,
    full: Option<NodeView>,
    count: nat,
)
    requires
        count <= b.len(),
    ensures
        fold_onto(tree, a + b, full, a.len() + count) == fold_onto(
            fold_onto(tree, a, full, a.len()),
            b,
            full,
            count,
        ),
    decreases count,
{
    if count == 0 {
        lemma_fold_onto_prefix(tree, a, b, full, a.len());
    } else {
        lemma_fold_onto_concat(tree, a, b, full, (count - 1) as nat);
        assert((a + b)[a.len() + count - 1] == b[count - 1]);
    }
}

/// Writing plain entries that all lie below one step is writing them,
/// without that step, into what the step leads to.
pub proof fn lemma_fold_below(
    tree: NodeView,
    item: PathItemView,
    d: Seq<EntryView>,
    full: Option<NodeView>,
    count: nat,
)
    requires
        all_plain(d),
        1 <= count <= d.len(),
    ensures
        fold_onto(tree, prefixed(seq![item], d), full, count) == with_child(
            tree,
            item,
            fold_onto(child_at(tree, item), d, full, count),
        ),
    decreases count,
{
    let below = prefixed(seq![item], d);
    let e = d[count - 1];
    let lifted = below[count - 1];
    assert(lifted == prefixed_entry(seq![item], e));
    assert(is_plain_value(e.value));
    let node = plain_node(e.value);
    assert(lifted.path[0] == item);
    if count == 1 {
        lemma_applied_plain(tree, full, lifted);
        lemma_applied_plain(child_at(tree, item), full, e);
        lemma_placed_step(tree, lifted.path, 0, node);
        lemma_placed_shift(child_at(tree, item), seq![item], e.path, 0, node);
    } else {
        lemma_fold_below(tree, item, d, full, (count - 1) as nat);
        let inner = fold_onto(child_at(tree, item), d, full, (count - 1) as nat);
        let outer = with_child(tree, item, inner);
        lemma_applied_plain(outer, full, lifted);
        lemma_applied_plain(inner, full, e);
        lemma_placed_step(outer, lifted.path, 0, node);
        lemma_child_of_with_child(tree, item, inner);
        lemma_placed_shift(inner, seq![item], e.path, 0, node);
        lemma_with_child_twice(tree, item, inner, placed(inner, e.path, 0, node));
    }
}

/// The word `null`.
pub open spec fn null_word() -> Seq<char> {
    seq!['n', 'u', 'l', 'l']
}

/// Whether a leaf is null, a boolean, an integer, another number as the
/// grammar writes it, or a string; or the word `null` as it was read, with
/// spaces at its ends, which stands for null.
pub open spec fn plain_leaf(v: ValueView) -> bool {
    match v {
        ValueView::Null => true,
        ValueView::Boolean(_) => true,
        ValueView::Integer(_) => true,
        ValueView::Real(t) => real_text(t),
        ValueView::String(_) => true,
        ValueView::UnquotedString(t) => trimmed(t) == null_word(),
        _ => false,
    }
}

/// Whether every leaf of a tree is a value, and none a word that stands
/// for one.
pub open spec fn final_tree(n: NodeView) -> bool
    decreases n,
{
    match n {
        NodeView::Leaf(v) => !(v is UnquotedString),
        NodeView::Hash(members) => forall|i: int|
            0 <= i < members.len() ==> final_tree((#[trigger] members[i]).1),
        NodeView::Array(items, _) => forall|i: int|
            0 <= i < items.len() ==> final_tree(#[trigger] items[i]),
    }
}

/// Whether the names of `members` all differ.
pub open spec fn distinct_keys(members: Seq<(Seq<char>, NodeView)>) -> bool {
    forall|i: int, j: int|
        0 <= i < j < members.len() ==> (#[trigger] members[i]).0 != (#[trigger] members[j]).0
}

/// Whether a tree is made of plain leaves, arrays, and objects whose
/// members have names that all differ.
pub open spec fn plain_tree(n: NodeView) -> bool
    decreases n,
{
    match n {
        NodeView::Leaf(v) => plain_leaf(v),
        NodeView::Hash(members) => distinct_keys(members) && forall|i: int|
            0 <= i < members.len() ==> plain_tree((#[trigger] members[i]).1),
        NodeView::Array(items, _) => forall|i: int|
            0 <= i < items.len() ==> plain_tree(#[trigger] items[i]),
    }
}

/// The step that leads to the last element of an array literal with `len`
/// elements.
pub open spec fn last_index(len: nat) -> Option<PathItemView> {
    if len == 0 {
        None
    } else {
        Some(PathItemView::Index(len - 1))
    }
}

/// The tree `n` as reading gives it: every array remembers the step that
/// led to its last element, and a word that stands for a value is that
/// value.
pub open spec fn as_read(n: NodeView) -> NodeView
    decreases n,
{
    match n {
        NodeView::Leaf(v) => match v {
            ValueView::UnquotedString(_) => leaf_for(v),
            other => NodeView::Leaf(other),
        },
        NodeView::Hash(members) => NodeView::Hash(
            Seq::new(
                members.len(),
                |i: int|
                    if 0 <= i < members.len() {
                        (members[i].0, as_read(members[i].1))
                    } else {
                        (Seq::empty(), empty_hash())
                    },
            ),
        ),
        NodeView::Array(items, _) => NodeView::Array(
            Seq::new(
                items.len(),
                |i: int|
                    if 0 <= i < items.len() {
                        as_read(items[i])
                    } else {
                        empty_hash()
                    },
            ),
            last_index(items.len()),
        ),
    }
}

/// The value that the grammar yields for the text of a leaf.
pub open spec fn leaf_value(v: ValueView) -> ValueView {
    match v {
        ValueView::Null => ValueView::UnquotedString(seq!['n', 'u', 'l', 'l']),
        other => other,
    }
}

/// The entries that the grammar yields for the text of a tree.
pub open spec fn flat(n: NodeView) -> Seq<EntryView>
    decreases n, 0nat,
{
    match n {
        NodeView::Leaf(v) => seq![root_entry(leaf_value(v))],
        NodeView::Hash(members) => object_entries(flat_members(members, 0)),
        NodeView::Array(items, _) => seq![root_entry(ValueView::EmptyArray)] + flat_elements(
            items,
            0,
        ),
    }
}

/// The entries of the elements `items[from..]`, each under its index.
pub open spec fn flat_elements(items: Seq<NodeView>, from: nat) -> Seq<EntryView>
    decreases items, items.len() - from,
{
    if from >= items.len() {
        Seq::empty()
    } else {
        prefixed(seq![PathItemView::Index(from as int)], flat(items[from as int])) + flat_elements(
            items,
            from + 1,
        )
    }
}

/// The entries of the members `members[from..]`, each under its name.
pub open spec fn flat_members(members: Seq<(Seq<char>, NodeView)>, from: nat) -> Seq<EntryView>
    decreases members, members.len() - from,
{
    if from >= members.len() {
        Seq::empty()
    } else {
        prefixed(seq![PathItemView::Key(members[from as int].0)], flat(members[from as int].1))
            + flat_members(members, from + 1)
    }
}

/// The entries of the elements of an array, one sequence for each.
pub open spec fn flat_items(items: Seq<NodeView>) -> Seq<Seq<EntryView>> {
    Seq::new(items.len(), |i: int| flat(items[i]))
}

/// The members of an object as reading gives them.
pub open spec fn members_as_read(members: Seq<(Seq<char>, NodeView)>) -> Seq<(Seq<char>, NodeView)> {
    Seq::new(members.len(), |i: int| (members[i].0, as_read(members[i].1)))
}

/// The elements of an array as reading gives them.
pub open spec fn items_as_read(items: Seq<NodeView>) -> Seq<NodeView> {
    Seq::new(items.len(), |i: int| as_read(items[i]))
}

/// How `as_read` goes through objects and arrays.
pub proof fn lemma_as_read(n: NodeView)
    ensures
        n matches NodeView::Hash(members) ==> as_read(n) == NodeView::Hash(members_as_read(members)),
        n matches NodeView::Array(items, last) ==> as_read(n) == NodeView::Array(
            items_as_read(items),
            last_index(items.len()),
        ),
{
    match n {
        NodeView::Hash(members) => {
            assert(as_read(n)->Hash_0 =~= members_as_read(members));
        },
        NodeView::Array(items, last) => {
            assert(as_read(n)->Array_0 =~= items_as_read(items));
        },
        _ => {},
    }
}

/// The entries of the elements of an array are those of an array literal
/// whose elements give the entries of each.
pub proof fn lemma_flat_elements(items: Seq<NodeView>, from: nat)
    ensures
        flat_elements(items, from) == element_entries(flat_items(items), from as int),
    decreases items.len() - from,
{
    if from < items.len() {
        lemma_flat_elements(items, from + 1);
    }
}

/// The entries of a tree are plain, and there is at least one.
pub proof fn lemma_flat_plain(n: NodeView)
    requires
        plain_tree(n),
    ensures
        flat(n).len() > 0,
        all_plain(flat(n)),
    decreases n, 1nat,
{
    match n {
        NodeView::Leaf(v) => {},
        NodeView::Hash(members) => {
            lemma_flat_members_plain(members, 0);
        },
        NodeView::Array(items, last) => {
            lemma_flat_elements_plain(items, 0);
        },
    }
}

/// The entries of members are plain.
pub proof fn lemma_flat_members_plain(members: Seq<(Seq<char>, NodeView)>, from: nat)
    requires
        forall|i: int| 0 <= i < members.len() ==> plain_tree((#[trigger] members[i]).1),
    ensures
        all_plain(flat_members(members, from)),
        from < members.len() ==> flat_members(members, from).len() > 0,
    decreases members, members.len() - from, 0nat,
{
    if from < members.len() {
        lemma_flat_plain(members[from as int].1);
        lemma_flat_members_plain(members, from + 1);
    }
}

/// The entries of elements are plain.
pub proof fn lemma_flat_elements_plain(items: Seq<NodeView>, from: nat)
    requires
        forall|i: int| 0 <= i < items.len() ==> plain_tree(#[trigger] items[i]),
    ensures
        all_plain(flat_elements(items, from)),
        from < items.len() ==> flat_elements(items, from).len() > 0,
    decreases items, items.len() - from, 0nat,
{
    if from < items.len() {
        lemma_flat_plain(items[from as int]);
        lemma_flat_elements_plain(items, from + 1);
    }
}

/// No member has a name that is found among none of them.
pub proof fn lemma_member_index_none(members: Seq<(Seq<char>, NodeView)>, key: Seq<char>, from: int)
    requires
        0 <= from,
        forall|i: int| from <= i < members.len() ==> (#[trigger] members[i]).0 != key,
    ensures
        member_index(members, key, from) == -1,
    decreases members.len() - from,
{
    if from < members.len() {
        assert(members[from].0 != key);
        lemma_member_index_none(members, key, from + 1);
    }
}

/// Members whose names all differ, written over no members, are those
/// members.
pub proof fn lemma_merge_into_empty(members: Seq<(Seq<char>, NodeView)>, count: nat)
    requires
        distinct_keys(members),
        count <= members.len(),
    ensures
        merged_members(Seq::empty(), members, count) == members.subrange(0, count as int),
    decreases count,
{
    if count == 0 {
        assert(members.subrange(0, 0) =~= Seq::empty());
    } else {
        lemma_merge_into_empty(members, (count - 1) as nat);
        let before = members.subrange(0, count - 1);
        let member = members[count - 1];
        assert forall|i: int| 0 <= i < before.len() implies (#[trigger] before[i]).0
            != member.0 by {
            assert(before[i] == members[i]);
        }
        lemma_member_index_none(before, member.0, 0);
        assert(before.push(member) =~= members.subrange(0, count as int));
    }
}

/// A plain tree as it is read, written over the empty object, is that
/// tree.
pub proof fn lemma_merged_fresh(n: NodeView)
    requires
        plain_tree(n),
    ensures
        merged(empty_hash(), as_read(n)) == as_read(n),
{
    match n {
        NodeView::Hash(members) => {
            lemma_as_read(n);
            let read = members_as_read(members);
            assert(distinct_keys(read)) by {
                assert forall|i: int, j: int| 0 <= i < j < read.len() implies (#[trigger] read[i]).0
                    != (#[trigger] read[j]).0 by {
                    assert(members[i].0 != members[j].0);
                }
            }
            lemma_merge_into_empty(read, read.len());
            assert(read.subrange(0, read.len() as int) =~= read);
        },
        _ => {},
    }
}

/// Writing the entries of a plain tree into a tree is writing the tree, as
/// it is read, where the root of the other stands.
pub proof fn lemma_fold_flat(tree: NodeView, n: NodeView, full: Option<NodeView>)
    requires
        plain_tree(n),
    ensures
        fold_onto(tree, flat(n), full, flat(n).len()) == merged(tree, as_read(n)),
    decreases n, 2nat,
{
    match n {
        NodeView::Leaf(v) => {
            let e = root_entry(leaf_value(v));
            assert(flat(n)[0] == e);
            assert(fold_onto(tree, flat(n), full, 0) == tree);
            lemma_applied_plain(tree, full, e);
            if v is Null {
                let word = seq!['n', 'u', 'l', 'l'];
                assert(trim_start(word, 0, 4) == 0);
                assert(trim_end(word, 0, 4) == 4);
                assert(trimmed(word) =~= word);
            }
            assert(plain_node(leaf_value(v)) == as_read(n));
        },
        NodeView::Hash(members) => {
            lemma_as_read(n);
            let read = members_as_read(members);
            if members.len() == 0 {
                let e = root_entry(ValueView::EmptyObject);
                assert(flat(n)[0] == e);
                assert(fold_onto(tree, flat(n), full, 0) == tree);
                lemma_applied_plain(tree, full, e);
                assert(read =~= Seq::empty());
                assert(merged_members(members_of(tree), read, 0) == members_of(tree));
            } else {
                lemma_flat_members_plain(members, 0);
                lemma_fold_members(tree, tree, members, 0, full);
                if !(tree is Hash) {
                    assert(distinct_keys(read)) by {
                        assert forall|i: int, j: int| 0 <= i < j < read.len() implies (
                        #[trigger] read[i]).0 != (#[trigger] read[j]).0 by {
                            assert(members[i].0 != members[j].0);
                        }
                    }
                    lemma_merge_into_empty(read, read.len());
                    assert(read.subrange(0, read.len() as int) =~= read);
                }
            }
        },
        NodeView::Array(items, last) => {
            lemma_as_read(n);
            let marker = seq![root_entry(ValueView::EmptyArray)];
            let rest = flat_elements(items, 0);
            assert(fold_onto(tree, marker, full, 0) == tree);
            lemma_applied_plain(tree, full, marker[0]);
            assert(fold_onto(tree, marker, full, 1) == empty_array());
            lemma_fold_onto_concat(tree, marker, rest, full, rest.len());
            assert(items_as_read(items).subrange(0, 0) =~= Seq::empty());
            lemma_fold_elements(items, 0, full);
        },
    }
}

/// Writing the entries of the members from `from` on, into a node that
/// holds the members before them written over those of `tree`, gives the
/// object with all members written over those of `tree`.
pub proof fn lemma_fold_members(
    tree: NodeView,
    x: NodeView,
    members: Seq<(Seq<char>, NodeView)>,
    from: nat,
    full: Option<NodeView>,
)
    requires
        plain_tree(NodeView::Hash(members)),
        from <= members.len(),
        members_of(x) == merged_members(members_of(tree), members_as_read(members), from),
        from > 0 ==> x is Hash,
    ensures
        fold_onto(x, flat_members(members, from), full, flat_members(members, from).len()) == (
        if from == members.len() {
            x
        } else {
            NodeView::Hash(
                merged_members(members_of(tree), members_as_read(members), members.len()),
            )
        }),
    decreases members, members.len() - from, 1nat,
{
    if from < members.len() {
        let read = members_as_read(members);
        let name = members[from as int].0;
        let value = members[from as int].1;
        let item = PathItemView::Key(name);
        let a = prefixed(seq![item], flat(value));
        let b = flat_members(members, from + 1);
        lemma_flat_plain(value);
        lemma_fold_onto_concat(x, a, b, full, b.len());
        lemma_fold_below(x, item, flat(value), full, flat(value).len());
        let child = child_at(x, item);
        lemma_fold_flat(child, value, full);
        let next = with_child(x, item, merged(child, as_read(value)));
        assert(fold_onto(x, a, full, a.len()) == next);
        let before = members_of(x);
        let at = member_index(before, name, 0);
        assert(read[from as int] == (name, as_read(value)));
        if !(0 <= at < before.len()) {
            lemma_merged_fresh(value);
        }
        assert(members_of(next) == merged_members(members_of(tree), read, from + 1));
        lemma_fold_members(tree, next, members, from + 1, full);
    }
}

/// Writing the entries of the elements from `from` on, into the array of
/// the elements before them, gives the array of all elements.
pub proof fn lemma_fold_elements(items: Seq<NodeView>, from: nat, full: Option<NodeView>)
    requires
        forall|i: int| 0 <= i < items.len() ==> plain_tree(#[trigger] items[i]),
        from <= items.len(),
    ensures
        fold_onto(
            NodeView::Array(items_as_read(items).subrange(0, from as int), last_index(from)),
            flat_elements(items, from),
            full,
            flat_elements(items, from).len(),
        ) == NodeView::Array(items_as_read(items), last_index(items.len())),
    decreases items, items.len() - from, 1nat,
{
    let read = items_as_read(items);
    let x = NodeView::Array(read.subrange(0, from as int), last_index(from));
    if from == items.len() {
        assert(read.subrange(0, from as int) =~= read);
    } else {
        let value = items[from as int];
        let item = PathItemView::Index(from as int);
        let a = prefixed(seq![item], flat(value));
        let b = flat_elements(items, from + 1);
        lemma_flat_plain(value);
        lemma_fold_onto_concat(x, a, b, full, b.len());
        lemma_fold_below(x, item, flat(value), full, flat(value).len());
        assert(last_slot_of(x) != Some(item));
        assert(child_at(x, item) == empty_hash());
        lemma_fold_flat(empty_hash(), value, full);
        lemma_merged_fresh(value);
        let next = with_child(x, item, as_read(value));
        assert(next == NodeView::Array(
            read.subrange(0, (from + 1) as int),
            last_index(from + 1),
        )) by {
            assert(read.subrange(0, from as int).push(as_read(value)) =~= read.subrange(
                0,
                (from + 1) as int,
            ));
        }
        lemma_fold_elements(items, from + 1, full);
    }
}

/// Plain entries hold no substitution.
pub proof fn lemma_plain_count(d: Seq<EntryView>, count: nat)
    requires
        all_plain(d),
    ensures
        substitution_count(d, count) == 0,
    decreases count,
{
    if count > 0 && count <= d.len() {
        lemma_plain_count(d, (count - 1) as nat);
        assert(is_plain_value(d[count - 1].value));
    }
}

/// The entries of a plain tree resolve to the tree, as it is read.
pub proof fn lemma_resolved_flat(n: NodeView)
    requires
        plain_tree(n),
    ensures
        resolved(flat(n)) == as_read(n),
{
    let d = flat(n);
    lemma_flat_plain(n);
    lemma_plain_count(d, d.len());
    lemma_folded_is_fold_onto(d, None, d.len());
    lemma_fold_flat(empty_hash(), n, None);
    lemma_merged_fresh(n);
}

/// A tree as it is read has the same members, elements and leaves, and so
/// projects to the same value.
pub proof fn lemma_projected_as_read(n: NodeView)
    requires
        final_tree(n),
    ensures
        projected(as_read(n)) == projected(n),
    decreases n,
{
    lemma_as_read(n);
    match n {
        NodeView::Leaf(v) => {},
        NodeView::Hash(members) => {
            let read = members_as_read(members);
            assert forall|i: int| 0 <= i < members.len() implies projected(read[i].1) == projected(
                members[i].1,
            ) by {
                lemma_projected_as_read(members[i].1);
            }
            assert(projected(as_read(n))->Hash_0 =~= projected(n)->Hash_0);
        },
        NodeView::Array(items, last) => {
            let read = items_as_read(items);
            assert forall|i: int| 0 <= i < items.len() implies projected(read[i]) == projected(
                items[i],
            ) by {
                lemma_projected_as_read(items[i]);
            }
            assert(projected(as_read(n))->Array_0 =~= projected(n)->Array_0);
        },
    }
}

/// A plain tree holds no failure.
pub proof fn lemma_plain_has_no_failure(n: NodeView)
    requires
        plain_tree(n),
    ensures
        first_failure(n) is None,
    decreases n, 1nat,
{
    match n {
        NodeView::Leaf(v) => {},
        NodeView::Hash(members) => {
            lemma_members_have_no_failure(members, 0);
        },
        NodeView::Array(items, last) => {
            lemma_items_have_no_failure(items, 0);
        },
    }
}

/// The members of a plain object hold no failure.
pub proof fn lemma_members_have_no_failure(members: Seq<(Seq<char>, NodeView)>, from: nat)
    requires
        forall|i: int| 0 <= i < members.len() ==> plain_tree((#[trigger] members[i]).1),
    ensures
        first_failure_in_members(members, from) is None,
    decreases members, members.len() - from, 0nat,
{
    if from < members.len() {
        lemma_plain_has_no_failure(members[from as int].1);
        lemma_members_have_no_failure(members, from + 1);
    }
}

/// The elements of a plain array hold no failure.
pub proof fn lemma_items_have_no_failure(items: Seq<NodeView>, from: nat)
    requires
        forall|i: int| 0 <= i < items.len() ==> plain_tree(#[trigger] items[i]),
    ensures
        first_failure_in_items(items, from) is None,
    decreases items, items.len() - from, 0nat,
{
    if from < items.len() {
        lemma_plain_has_no_failure(items[from as int]);
        lemma_items_have_no_failure(items, from + 1);
    }
}

/// A plain tree as it is read is a plain tree.
pub proof fn lemma_as_read_plain(n: NodeView)
    requires
        plain_tree(n),
    ensures
        plain_tree(as_read(n)),
    decreases n,
{
    lemma_as_read(n);
    match n {
        NodeView::Leaf(v) => {},
        NodeView::Hash(members) => {
            let read = members_as_read(members);
            assert forall|i: int| 0 <= i < read.len() implies plain_tree(
                (#[trigger] read[i]).1,
            ) by {
                assert(plain_tree(members[i].1));
                lemma_as_read_plain(members[i].1);
            }
            assert forall|i: int, j: int| 0 <= i < j < read.len() implies (#[trigger] read[i]).0
                != (#[trigger] read[j]).0 by {
                assert(members[i].0 != members[j].0);
            }
        },
        NodeView::Array(items, last) => {
            let read = items_as_read(items);
            assert forall|i: int| 0 <= i < read.len() implies plain_tree(#[trigger] read[i]) by {
                assert(plain_tree(items[i]));
                lemma_as_read_plain(items[i]);
            }
        },
    }
}

/// Resolving the entries of a plain tree of values and projecting the
/// result gives the value of the tree, for a strict loader as for any
/// other.
pub proof fn lemma_flat_loads_back(n: NodeView, strict: bool)
    requires
        plain_tree(n),
        final_tree(n),
    ensures
        loaded(flat(n), strict) == Ok::<HoconView, crate::error::ErrorView>(projected(n)),
{
    lemma_resolved_flat(n);
    lemma_projected_as_read(n);
    lemma_as_read_plain(n);
    lemma_plain_has_no_failure(as_read(n));
}

} // verus!
