//! What stands at a path after something was written there. A later
//! entry overrides an earlier one at the same path: what is written is
//! merged with what stood there before, so that a scalar or an array
//! replaces it and an object is laid over an object. The append operator
//! adds one element to the array at its path.

use crate::resolve::{applied, substituted, target_path};
use crate::roundtrip::{child_at, lemma_child_of_with_child, lemma_placed_step, with_child};
use crate::tree::{
    empty_hash, items_of, last_slot_of, looked_up, member_index, members_of, merged,
    merged_members, placed, NodeView,
};
use crate::value::{EntryView, PathItemView, PathView, ValueView};
use vstd::prelude::*;

verus! {

/// Whether the steps `path[from..to]` are keys.
pub open spec fn keys_between(path: PathView, from: int, to: int) -> bool {
    forall|i: int| from <= i < to ==> (#[trigger] path[i]) is Key
}

/// What stands in `node` at the keys `path[k..]`; the empty object where
/// nothing stands there.
pub open spec fn standing_at(node: NodeView, path: PathView, k: int) -> NodeView {
    match looked_up(node, path, k) {
        Some(n) => n,
        None => empty_hash(),
    }
}

/// Looking up a key goes on in what the key leads to.
pub proof fn lemma_standing_step(node: NodeView, path: PathView, k: int)
    requires
        0 <= k < path.len(),
        path[k] is Key,
    ensures
        standing_at(node, path, k) == standing_at(child_at(node, path[k]), path, k + 1),
{
    match path[k] {
        PathItemView::Key(name) => {
            let members = members_of(node);
            let at = member_index(members, name, 0);
            if !(node is Hash) || !(0 <= at < members.len()) {
                if k + 1 < path.len() {
                    assert(looked_up(empty_hash(), path, k + 1) is None) by {
                        assert(member_index(Seq::empty(), path[k + 1]->Key_0, 0) == -1);
                    }
                }
            }
        },
        _ => {},
    }
}

/// After `new` was written at a path, what stands at the keys that begin
/// the path is what stood there before with `new` written at the rest of
/// the path.
pub proof fn lemma_placed_below(node: NodeView, path: PathView, k: int, upto: int, new: NodeView)
    requires
        0 <= k <= upto <= path.len(),
        keys_between(path, k, upto),
    ensures
        looked_up(placed(node, path, k, new), path.subrange(0, upto), k) == Some(
            placed(standing_at(node, path.subrange(0, upto), k), path, upto, new),
        ),
    decreases upto - k,
{
    let keys = path.subrange(0, upto);
    if k < upto {
        assert(path[k] is Key);
        assert(keys[k] == path[k]);
        let item = path[k];
        let child = child_at(node, item);
        let below = placed(child, path, k + 1, new);
        lemma_placed_step(node, path, k, new);
        lemma_child_of_with_child(node, item, below);
        lemma_placed_below(child, path, k + 1, upto, new);
        lemma_standing_step(node, keys, k);
        let after = with_child(node, item, below);
        match item {
            PathItemView::Key(name) => {
                let members = members_of(after);
                let at = member_index(members, name, 0);
                crate::roundtrip::lemma_member_index_first(members_of(node), name, 0);
                assert(child_at(after, item) == below);
                assert(0 <= at < members.len()) by {
                    crate::roundtrip::lemma_member_index_first(members, name, 0);
                    if !(0 <= at < members.len()) {
                        let old = members_of(node);
                        let found = member_index(old, name, 0);
                        if 0 <= found < old.len() {
                            assert(members[found].0 == name);
                        } else {
                            assert(members[old.len() as int].0 == name);
                        }
                    }
                }
            },
            _ => {},
        }
    }
}

/// After `new` was written at a path of keys, what stands at the path is
/// what stood there before, merged with `new`.
pub proof fn lemma_written_overrides(node: NodeView, path: PathView, new: NodeView)
    requires
        keys_between(path, 0, path.len() as int),
    ensures
        looked_up(placed(node, path, 0, new), path, 0) == Some(
            merged(standing_at(node, path, 0), new),
        ),
{
    lemma_placed_below(node, path, 0, path.len() as int, new);
    assert(path.subrange(0, path.len() as int) =~= path);
}

/// A scalar that is written at a path of keys replaces whatever stood
/// there: of two scalars at one path the later stands.
pub proof fn lemma_later_scalar_stands(node: NodeView, path: PathView, v: ValueView)
    requires
        keys_between(path, 0, path.len() as int),
    ensures
        looked_up(placed(node, path, 0, NodeView::Leaf(v)), path, 0) == Some(NodeView::Leaf(v)),
{
    lemma_written_overrides(node, path, NodeView::Leaf(v));
}

/// An object that is written at a path of keys where an object stands is
/// laid over it, member by member.
pub proof fn lemma_later_object_is_merged(
    node: NodeView,
    path: PathView,
    old: Seq<(Seq<char>, NodeView)>,
    new: Seq<(Seq<char>, NodeView)>,
)
    requires
        keys_between(path, 0, path.len() as int),
        looked_up(node, path, 0) == Some(NodeView::Hash(old)),
    ensures
        looked_up(placed(node, path, 0, NodeView::Hash(new)), path, 0) == Some(
            NodeView::Hash(merged_members(old, new, new.len())),
        ),
{
    lemma_written_overrides(node, path, NodeView::Hash(new));
}

/// An array that is written at a path of keys replaces whatever stood
/// there, an array too.
pub proof fn lemma_later_array_replaces(
    node: NodeView,
    path: PathView,
    items: Seq<NodeView>,
    last: Option<PathItemView>,
)
    requires
        keys_between(path, 0, path.len() as int),
    ensures
        looked_up(placed(node, path, 0, NodeView::Array(items, last)), path, 0) == Some(
            NodeView::Array(items, last),
        ),
{
    lemma_written_overrides(node, path, NodeView::Array(items, last));
}

/// What one use of the append operator writes first becomes one more
/// element of the array at its path: the elements that stood there stay,
/// in their order, and what is written stands behind them. Where no array
/// stood, the array starts with it.
pub proof fn lemma_append_adds_one(node: NodeView, keys: PathView, slot: PathItemView, new: NodeView)
    requires
        keys_between(keys, 0, keys.len() as int),
        slot is Append,
        last_slot_of(standing_at(node, keys, 0)) != Some(slot),
    ensures
        looked_up(placed(node, keys.push(slot), 0, new), keys, 0) == Some(
            NodeView::Array(
                items_of(standing_at(node, keys, 0)).push(merged(empty_hash(), new)),
                Some(slot),
            ),
        ),
{
    let path = keys.push(slot);
    let upto = keys.len() as int;
    assert(path.subrange(0, upto) =~= keys);
    assert(keys_between(path, 0, upto)) by {
        assert forall|i: int| 0 <= i < upto implies (#[trigger] path[i]) is Key by {
            assert(path[i] == keys[i]);
        }
    }
    lemma_placed_below(node, path, 0, upto, new);
    let old = standing_at(node, keys, 0);
    lemma_placed_step(old, path, upto, new);
}

/// A substitution that may find nothing, and finds nothing, leaves the
/// tree as it is: the member or element that it would have given is left
/// out.
pub proof fn lemma_optional_substitution_is_left_out(
    tree: NodeView,
    full: Option<NodeView>,
    e: EntryView,
)
    requires
        e.value matches ValueView::PathSubstitution { target, optional, .. } && optional && (
        target_path(*target) matches Some(p) && substituted(tree, full, e.path, e.root, p) is None),
    ensures
        applied(tree, full, e) == tree,
{
}

} // verus!
