//! The tree that the entries of a document are folded into: objects that
//! keep their members in the order in which they were first written,
//! arrays, and values at the leaves.

use crate::text::{copy_chars, same_chars};
use crate::value::{path_view, PathItem, PathItemView, PathView, Value, ValueView};
use crate::vecs::reverse;
use vstd::prelude::*;

verus! {

/// A tree of values.
#[derive(Debug, PartialEq, Eq)]
pub enum Node {
    /// A value.
    Leaf(Value),
    /// An object: its members, each name once, in the order in which the
    /// names were first written.
    Hash(Vec<(Vec<char>, Node)>),
    /// An array: its elements, and the step of a path that led to the last
    /// of them, by which further entries of that element find it again.
    Array(Vec<Node>, Option<PathItem>),
}

/// A `Node` as a mathematical value.
pub enum NodeView {
    Leaf(ValueView),
    Hash(Seq<(Seq<char>, NodeView)>),
    Array(Seq<NodeView>, Option<PathItemView>),
}

/// An optional step as a mathematical value.
pub open spec fn optional_item(item: Option<PathItem>) -> Option<PathItemView> {
    match item {
        Some(i) => Some(i@),
        None => None,
    }
}

/// The mathematical value of `n`.
pub open spec fn node_view(n: Node) -> NodeView
    decreases n,
{
    match n {
        Node::Leaf(v) => NodeView::Leaf(v@),
        Node::Hash(members) => NodeView::Hash(
            Seq::new(
                members@.len(),
                |i: int|
                    if 0 <= i < members@.len() {
                        (members@[i].0@, node_view(members@[i].1))
                    } else {
                        (Seq::empty(), NodeView::Hash(Seq::empty()))
                    },
            ),
        ),
        Node::Array(items, last) => NodeView::Array(
            Seq::new(
                items@.len(),
                |i: int|
                    if 0 <= i < items@.len() {
                        node_view(items@[i])
                    } else {
                        NodeView::Hash(Seq::empty())
                    },
            ),
            optional_item(last),
        ),
    }
}

impl View for Node {
    type V = NodeView;

    open spec fn view(&self) -> NodeView {
        node_view(*self)
    }
}

/// The members of `members` as mathematical values.
pub open spec fn members_view(members: Seq<(Vec<char>, Node)>) -> Seq<(Seq<char>, NodeView)> {
    Seq::new(members.len(), |i: int| (members[i].0@, members[i].1@))
}

/// The nodes of `nodes` as mathematical values.
pub open spec fn nodes_view(nodes: Seq<Node>) -> Seq<NodeView> {
    Seq::new(nodes.len(), |i: int| nodes[i]@)
}

/// The view of an object is made of the views of its members.
pub proof fn lemma_hash_view(members: Vec<(Vec<char>, Node)>)
    ensures
        Node::Hash(members)@ == NodeView::Hash(members_view(members@)),
{
    let s = node_view(Node::Hash(members))->Hash_0;
    assert(s.len() == members@.len());
    assert(s =~= members_view(members@));
}

/// The view of an array is made of the views of its elements.
pub proof fn lemma_array_view(items: Vec<Node>, last: Option<PathItem>)
    ensures
        Node::Array(items, last)@ == NodeView::Array(nodes_view(items@), optional_item(last)),
{
    let s = node_view(Node::Array(items, last))->Array_0;
    assert(s.len() == items@.len());
    assert(s =~= nodes_view(items@));
}

/// The object without members.
pub open spec fn empty_hash() -> NodeView {
    NodeView::Hash(Seq::empty())
}

/// The array without elements.
pub open spec fn empty_array() -> NodeView {
    NodeView::Array(Seq::empty(), None)
}

/// The place of the member `key` among `members[from..]`; -1 if there is
/// none.
pub open spec fn member_index(members: Seq<(Seq<char>, NodeView)>, key: Seq<char>, from: int) -> int
    decreases members.len() - from,
{
    if from < 0 || from >= members.len() {
        -1
    } else if members[from].0 == key {
        from
    } else {
        member_index(members, key, from + 1)
    }
}

/// What stands at a place when `new` is written where `old` stood: an
/// object written over an object is merged with it, member by member;
/// anything else replaces what was there.
pub open spec fn merged(old: NodeView, new: NodeView) -> NodeView
    decreases new, 0nat,
{
    match (old, new) {
        (NodeView::Hash(a), NodeView::Hash(b)) => NodeView::Hash(merged_members(a, b, b.len())),
        _ => new,
    }
}

/// The members `old` with the first `count` members of `new` written over
/// them, in order: a member that is there already is merged with the new
/// one and keeps its place, any other is added at the end.
pub open spec fn merged_members(
    old: Seq<(Seq<char>, NodeView)>,
    new: Seq<(Seq<char>, NodeView)>,
    count: nat,
) -> Seq<(Seq<char>, NodeView)>
    decreases new, count,
{
    if count == 0 || count > new.len() {
        old
    } else {
        let before = merged_members(old, new, (count - 1) as nat);
        let member = new[count - 1];
        let at = member_index(before, member.0, 0);
        if 0 <= at < before.len() {
            before.update(at, (member.0, merged(before[at].1, member.1)))
        } else {
            before.push(member)
        }
    }
}

/// The members of `node` if it is an object, and none otherwise.
pub open spec fn members_of(node: NodeView) -> Seq<(Seq<char>, NodeView)> {
    match node {
        NodeView::Hash(m) => m,
        _ => Seq::empty(),
    }
}

/// The elements of `node` if it is an array, and none otherwise.
pub open spec fn items_of(node: NodeView) -> Seq<NodeView> {
    match node {
        NodeView::Array(items, _) => items,
        _ => Seq::empty(),
    }
}

/// The step that led to the last element of `node`, if it is an array
/// with elements.
pub open spec fn last_slot_of(node: NodeView) -> Option<PathItemView> {
    match node {
        NodeView::Array(items, last) => if items.len() > 0 {
            last
        } else {
            None
        },
        _ => None,
    }
}

/// The tree `node` with `new` written at `path[k..]`.
///
/// A key leads to the member of that name, which is added at the end of
/// the object if it is not there. Any other step leads to an element of an
/// array: to the last one if this very step led to it before, and else to
/// a new one at the end. What is no object, where a key leads on, gives
/// way to one, and likewise for arrays. At the end of the path `new` is
/// merged with what stands there.
pub open spec fn placed(node: NodeView, path: PathView, k: int, new: NodeView) -> NodeView
    decreases path.len() - k,
{
    if k < 0 || k >= path.len() {
        merged(node, new)
    } else {
        match path[k] {
            PathItemView::Key(name) => {
                let members = members_of(node);
                let at = member_index(members, name, 0);
                if 0 <= at < members.len() {
                    NodeView::Hash(
                        members.update(at, (name, placed(members[at].1, path, k + 1, new))),
                    )
                } else {
                    NodeView::Hash(members.push((name, placed(empty_hash(), path, k + 1, new))))
                }
            },
            slot => {
                let items = items_of(node);
                if last_slot_of(node) == Some(slot) {
                    NodeView::Array(
                        items.update(items.len() - 1, placed(items.last(), path, k + 1, new)),
                        Some(slot),
                    )
                } else {
                    NodeView::Array(
                        items.push(placed(empty_hash(), path, k + 1, new)),
                        Some(slot),
                    )
                }
            },
        }
    }
}

/// What stands in `node` at the keys `path[k..]`, if anything does.
pub open spec fn looked_up(node: NodeView, path: PathView, k: int) -> Option<NodeView>
    decreases path.len() - k,
{
    if k < 0 || k >= path.len() {
        Some(node)
    } else {
        match (node, path[k]) {
            (NodeView::Hash(members), PathItemView::Key(name)) => {
                let at = member_index(members, name, 0);
                if 0 <= at < members.len() {
                    looked_up(members[at].1, path, k + 1)
                } else {
                    None
                }
            },
            _ => None,
        }
    }
}

/// Finds the member `key` among `members`.
pub fn find_member(members: &Vec<(Vec<char>, Node)>, key: &Vec<char>) -> (r: Option<usize>)
    ensures
        r matches Some(at) ==> at == member_index(members_view(members@), key@, 0) && at
            < members.len() && members@[at as int].0@ == key@,
        r is None ==> member_index(members_view(members@), key@, 0) == -1,
{
    let mut i: usize = 0;
    while i < members.len()
        invariant
            i <= members.len(),
            member_index(members_view(members@), key@, 0) == member_index(
                members_view(members@),
                key@,
                i as int,
            ),
        decreases members.len() - i,
    {
        if same_chars(&members[i].0, key) {
            return Some(i);
        }
        i += 1;
    }
    None
}

impl Node {
    /// A copy of the tree.
    pub fn duplicate(&self) -> (r: Node)
        ensures
            r@ == self@,
        decreases self,
    {
        match self {
            Node::Leaf(v) => Node::Leaf(v.duplicate()),
            Node::Hash(members) => {
                let mut out: Vec<(Vec<char>, Node)> = Vec::new();
                let mut i: usize = 0;
                while i < members.len()
                    invariant
                        i <= members.len(),
                        out@.len() == i,
                        forall|k: int|
                            0 <= k < i ==> (#[trigger] out@[k]).0@ == members@[k].0@ && out@[k].1@
                                == members@[k].1@,
                        forall|k: int|
                            0 <= k < members.len() ==> decreases_to!(self => (#[trigger] members@[k]).1),
                    decreases members.len() - i,
                {
                    out.push((copy_chars(&members[i].0), members[i].1.duplicate()));
                    i += 1;
                }
                proof {
                    lemma_hash_view(out);
                    lemma_hash_view(*members);
                    assert(members_view(out@) =~= members_view(members@));
                }
                Node::Hash(out)
            },
            Node::Array(items, last) => {
                let mut out: Vec<Node> = Vec::new();
                let mut i: usize = 0;
                while i < items.len()
                    invariant
                        i <= items.len(),
                        out@.len() == i,
                        forall|k: int| 0 <= k < i ==> (#[trigger] out@[k])@ == items@[k]@,
                        forall|k: int|
                            0 <= k < items.len() ==> decreases_to!(self => #[trigger] items@[k]),
                    decreases items.len() - i,
                {
                    out.push(items[i].duplicate());
                    i += 1;
                }
                let last = match last {
                    Some(item) => Some(item.duplicate()),
                    None => None,
                };
                proof {
                    lemma_array_view(out, last);
                    match self {
                        Node::Array(a, b) => {
                            lemma_array_view(*a, *b);
                        },
                        _ => {},
                    }
                    assert(nodes_view(out@) =~= nodes_view(items@));
                }
                Node::Array(out, last)
            },
        }
    }
}

/// Writes `new` where `old` stood.
pub fn merge(old: Node, new: Node) -> (r: Node)
    ensures
        r@ == merged(old@, new@),
    decreases new,
{
    match (old, new) {
        (Node::Hash(a), Node::Hash(b)) => {
            let ghost old_members = members_view(a@);
            let ghost new_members = members_view(b@);
            proof {
                lemma_hash_view(a);
                lemma_hash_view(b);
            }
            let count = b.len();
            let ghost b0 = b@;
            let mut rest = reverse(b);
            let mut acc = a;
            let mut i: usize = 0;
            while i < count
                invariant
                    i <= count,
                    count == b0.len(),
                    rest@.len() == count - i,
                    forall|k: int| 0 <= k < rest@.len() ==> rest@[k] == b0[count - 1 - k],
                    new_members == members_view(b0),
                    members_view(acc@) == merged_members(old_members, new_members, i as nat),
                    forall|k: int| 0 <= k < b0.len() ==> decreases_to!(new => (#[trigger] b0[k]).1),
                decreases count - i,
            {
                let (name, value) = rest.pop().unwrap();
                assert(name == b0[i as int].0 && value == b0[i as int].1);
                let ghost before = members_view(acc@);
                match find_member(&acc, &name) {
                    Some(at) => {
                        let (key, child) = acc.remove(at);
                        let both = merge(child, value);
                        acc.insert(at, (name, both));
                        assert(members_view(acc@) =~= before.update(
                            at as int,
                            (name@, merged(before[at as int].1, new_members[i as int].1)),
                        ));
                    },
                    None => {
                        acc.push((name, value));
                        assert(members_view(acc@) =~= before.push(new_members[i as int]));
                    },
                }
                i += 1;
            }
            proof {
                lemma_hash_view(acc);
            }
            Node::Hash(acc)
        },
        (_, new) => new,
    }
}

/// An optional tree as a mathematical value.
pub open spec fn optional_node(n: Option<Node>) -> Option<NodeView> {
    match n {
        Some(n) => Some(n@),
        None => None,
    }
}

/// Writes `new` into `node` at `path[k..]`.
pub fn place(node: Node, path: &Vec<PathItem>, k: usize, new: Node) -> (r: Node)
    ensures
        r@ == placed(node@, path_view(path@), k as int, new@),
    decreases path.len() - k,
{
    if k >= path.len() {
        return merge(node, new);
    }
    let ghost whole = node@;
    match &path[k] {
        PathItem::Key(name) => {
            let mut members = match node {
                Node::Hash(m) => {
                    proof {
                        lemma_hash_view(m);
                    }
                    m
                },
                _ => Vec::new(),
            };
            assert(members_view(members@) =~= members_of(whole));
            let ghost before = members_view(members@);
            match find_member(&members, name) {
                Some(at) => {
                    let (key, child) = members.remove(at);
                    let sub = place(child, path, k + 1, new);
                    members.insert(at, (key, sub));
                    assert(members_view(members@) =~= before.update(
                        at as int,
                        (name@, placed(before[at as int].1, path_view(path@), k + 1, new@)),
                    ));
                },
                None => {
                    let fresh: Vec<(Vec<char>, Node)> = Vec::new();
                    proof {
                        lemma_hash_view(fresh);
                        assert(members_view(fresh@) =~= Seq::empty());
                    }
                    let sub = place(Node::Hash(fresh), path, k + 1, new);
                    members.push((copy_chars(name), sub));
                    assert(members_view(members@) =~= before.push(
                        (name@, placed(empty_hash(), path_view(path@), k + 1, new@)),
                    ));
                },
            }
            proof {
                lemma_hash_view(members);
            }
            Node::Hash(members)
        },
        slot => {
            let (mut items, last) = match node {
                Node::Array(i, l) => {
                    proof {
                        lemma_array_view(i, l);
                    }
                    (i, l)
                },
                _ => (Vec::new(), None),
            };
            assert(nodes_view(items@) =~= items_of(whole));
            let ghost before = nodes_view(items@);
            let same = items.len() > 0 && match &last {
                Some(l) => l.same(slot),
                None => false,
            };
            assert(same == (last_slot_of(whole) == Some(slot@)));
            let fresh: Vec<(Vec<char>, Node)> = Vec::new();
            proof {
                lemma_hash_view(fresh);
                assert(members_view(fresh@) =~= Seq::empty());
            }
            let child = if same {
                items.pop().unwrap()
            } else {
                Node::Hash(fresh)
            };
            let sub = place(child, path, k + 1, new);
            items.push(sub);
            let mark = Some(slot.duplicate());
            proof {
                lemma_array_view(items, mark);
                if same {
                    assert(nodes_view(items@) =~= before.update(
                        before.len() - 1,
                        placed(before.last(), path_view(path@), k + 1, new@),
                    ));
                } else {
                    assert(nodes_view(items@) =~= before.push(
                        placed(empty_hash(), path_view(path@), k + 1, new@),
                    ));
                }
            }
            Node::Array(items, mark)
        },
    }
}

/// Finds what stands in `node` at the keys `path[k..]`, and copies it.
pub fn lookup(node: &Node, path: &Vec<PathItem>, k: usize) -> (r: Option<Node>)
    ensures
        optional_node(r) == looked_up(node@, path_view(path@), k as int),
    decreases path.len() - k,
{
    if k >= path.len() {
        return Some(node.duplicate());
    }
    match (node, &path[k]) {
        (Node::Hash(members), PathItem::Key(name)) => {
            proof {
                lemma_hash_view(*members);
            }
            match find_member(members, name) {
                Some(at) => lookup(&members[at].1, path, k + 1),
                None => None,
            }
        },
        _ => None,
    }
}

} // verus!
