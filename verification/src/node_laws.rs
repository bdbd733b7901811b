//! What is read off a node, said of its slots, its value and its key.

use vstd::prelude::*;

use crate::keys::{default_child_storage_key_prefix, is_child_key, is_default_child_key};
use crate::level::{node_fits, value_state, LevelStateView};
use crate::nibbles::{packed, padded, partial_nibbles, unpacked, without_last};
use crate::node::{hashed_children, ChildView, NodeView, ValueView};
use crate::order::lemma_branches_descend;
use crate::soundness::{branch_need, refers, Need, Role};

verus! {

/// A slot and a hash are among the branches exactly where the slot holds a child by that hash,
/// whatever the other slots hold.
pub proof fn law_branches_are_hashed_slots(
    children: Seq<Option<ChildView>>,
    nibble: u8,
    hash: Seq<u8>,
)
    requires
        children.len() <= 16,
    ensures
        hashed_children(children).contains((nibble, hash)) <==> nibble < children.len()
            && children[nibble as int] == Some(ChildView::Hash(hash)),
    decreases children.len(),
{
    if children.len() > 0 {
        let front = children.drop_last();
        let all = hashed_children(children);
        let rest = hashed_children(front);
        law_branches_are_hashed_slots(front, nibble, hash);
        if let Some(ChildView::Hash(last)) = children.last() {
            if rest.contains((nibble, hash)) {
                let j = choose|j: int| 0 <= j < rest.len() && rest[j] == (nibble, hash);
                assert(all[j + 1] == (nibble, hash));
            }
            if nibble == children.len() - 1 && hash == last {
                assert(all[0] == (nibble, hash));
            }
        }
    }
}

/// The branches are kept with the highest slot first, each slot once.
pub proof fn law_branches_descend(children: Seq<Option<ChildView>>, i: int, j: int)
    requires
        children.len() <= 16,
        0 <= i < j < hashed_children(children).len(),
    ensures
        hashed_children(children)[i].0 > hashed_children(children)[j].0,
{
    lemma_branches_descend(children);
}

/// What each kind of node has: its nibbles, its slots and its value.
pub proof fn law_node_parts(
    partial: Seq<u8>,
    children: Seq<Option<ChildView>>,
    leaf_value: ValueView,
    value: Option<ValueView>,
)
    ensures
        NodeView::Empty.partial().len() == 0,
        NodeView::Empty.children().len() == 0,
        NodeView::Empty.value() is None,
        NodeView::Leaf(partial, leaf_value).partial() == partial,
        NodeView::Leaf(partial, leaf_value).children().len() == 0,
        NodeView::Leaf(partial, leaf_value).value() == Some(leaf_value),
        NodeView::Branch(children, value).partial().len() == 0,
        NodeView::Branch(children, value).children() == children,
        NodeView::Branch(children, value).value() == value,
        NodeView::NibbledBranch(partial, children, value).partial() == partial,
        NodeView::NibbledBranch(partial, children, value).children() == children,
        NodeView::NibbledBranch(partial, children, value).value() == value,
{
}

/// Child storage keys begin with `:child_storage:`, and default ones with
/// `:child_storage:default:`.
pub proof fn law_child_keys_begin_with_words(key: Seq<u8>)
    ensures
        is_child_key(key) <==> key.len() >= 15 && forall|i: int|
            0 <= i < 15 ==> #[trigger] key[i] == ":child_storage:"@[i] as u8,
        is_default_child_key(key) <==> key.len() >= 23 && forall|i: int|
            0 <= i < 23 ==> #[trigger] key[i] == ":child_storage:default:"@[i] as u8,
{
    reveal_strlit(":child_storage:");
    reveal_strlit(":child_storage:default:");
    let default = default_child_storage_key_prefix();
    if is_default_child_key(key) {
        assert forall|i: int| 0 <= i < 23 implies #[trigger] key[i]
            == ":child_storage:default:"@[i] as u8 by {
            assert(key[i] == default[i]);
        }
    }
}

/// A value leads on to a child trie exactly where it stands itself under a child storage key of a
/// trie with child tries: at the name of that trie, with the value as its root. A value by hash is
/// looked for under that hash. Any other value is left behind.
pub proof fn law_value_leads_on(
    allow_child: bool,
    path: Seq<u8>,
    value: Option<ValueView>,
    name: Seq<u8>,
    hash: Seq<u8>,
)
    ensures
        value_state(allow_child, path, value) == LevelStateView::ChildHash(name, hash) <==> {
            &&& allow_child
            &&& is_child_key(packed(path))
            &&& value == Some(ValueView::Inline(hash))
            &&& name == unpacked(packed(path).skip(23))
        },
        value_state(allow_child, path, value) == LevelStateView::ValueHash(hash) <==> value
            == Some(ValueView::Node(hash)),
        value_state(allow_child, path, value) is Value <==> value is None || (value->0 is Inline
            && !(allow_child && is_child_key(packed(path)))),
{
}

/// The walk can go into a node exactly where it is no extension, what it refers to by hash has 32
/// bytes, and a value under a child storage key of a trie with child tries stands there itself, has
/// 32 bytes and is under a default child storage key.
pub proof fn law_node_fits(allow_child: bool, path: Seq<u8>, node: NodeView)
    ensures
        node_fits(allow_child, path, node) <==> {
            &&& node != NodeView::Extension
            &&& node.children().len() <= 16
            &&& forall|slot: int|
                0 <= slot < node.children().len() ==> match #[trigger] node.children()[slot] {
                    Some(ChildView::Hash(hash)) => hash.len() == 32,
                    _ => true,
                }
            &&& match node.value() {
                Some(ValueView::Inline(root)) => allow_child && is_child_key(packed(path)) ==> {
                    &&& root.len() == 32
                    &&& is_default_child_key(packed(path))
                },
                Some(ValueView::Node(hash)) => hash.len() == 32 && !(allow_child && is_child_key(
                    packed(path),
                )),
                None => true,
            }
        },
{
}

/// A node refers to exactly this by hash: what is in each slot that holds a child by its hash, one
/// nibble below its value; its value, if that is there by its hash; and the child trie, if its
/// value is the root of one.
pub proof fn law_node_refers_to(allow_child: bool, path: Seq<u8>, node: NodeView, need: Need)
    requires
        node.children().len() <= 16,
    ensures
        refers(allow_child, path, node, need) <==> {
            let at = path + node.partial();
            ||| exists|slot: u8|
                slot < node.children().len() && node.children()[slot as int] == Some(
                    ChildView::Hash(need.hash),
                ) && need.path == #[trigger] at.push(slot) && need.role == Role::Node(allow_child)
            ||| node.value() == Some(ValueView::Node(need.hash)) && need.path == at && need.role
                == Role::Value
            ||| node.value() == Some(ValueView::Inline(need.hash)) && allow_child && is_child_key(
                packed(at),
            ) && need.path == unpacked(packed(at).skip(23)) && need.role == Role::Node(false)
        },
{
    let at = path + node.partial();
    let all = hashed_children(node.children());
    law_value_leads_on(allow_child, at, node.value(), need.path, need.hash);
    if exists|slot: u8|
        slot < node.children().len() && node.children()[slot as int] == Some(
            ChildView::Hash(need.hash),
        ) && need.path == #[trigger] at.push(slot) && need.role == Role::Node(allow_child) {
        let slot = choose|slot: u8|
            slot < node.children().len() && node.children()[slot as int] == Some(
                ChildView::Hash(need.hash),
            ) && need.path == #[trigger] at.push(slot) && need.role == Role::Node(allow_child);
        law_branches_are_hashed_slots(node.children(), slot, need.hash);
        let j = choose|j: int| 0 <= j < all.len() && all[j] == (slot, need.hash);
        assert(branch_need(allow_child, path, node, j) == need);
    }
    if exists|j: int|
        0 <= j < all.len() && #[trigger] branch_need(allow_child, path, node, j)
            == need {
        let j = choose|j: int|
            0 <= j < all.len() && #[trigger] branch_need(
                allow_child,
                path,
                node,
                j,
            ) == need;
        law_branches_are_hashed_slots(node.children(), all[j].0, all[j].1);
    }
}

/// Bytes are their nibbles, high half first, and whole bytes come back from their nibbles.
pub proof fn law_nibbles_of_bytes(bytes: Seq<u8>)
    ensures
        unpacked(bytes).len() == 2 * bytes.len(),
        forall|i: int|
            0 <= i < unpacked(bytes).len() ==> (#[trigger] unpacked(bytes)[i]) < 16,
        forall|i: int|
            0 <= i < bytes.len() ==> #[trigger] bytes[i] == unpacked(bytes)[2 * i] * 16 + unpacked(
                bytes,
            )[2 * i + 1],
        packed(unpacked(bytes)) == bytes,
        padded(unpacked(bytes)) == bytes,
{
}

/// A path comes back from its bytes: from all of them with at most one nibble of zero behind it,
/// and from the whole ones without an odd last nibble.
pub proof fn law_bytes_of_nibbles(path: Seq<u8>)
    requires
        forall|i: int| 0 <= i < path.len() ==> (#[trigger] path[i]) < 16,
    ensures
        path.len() % 2 == 0 ==> unpacked(padded(path)) == path,
        path.len() % 2 == 1 ==> unpacked(padded(path)) == path.push(0),
        unpacked(packed(path)) == path.take(path.len() - path.len() % 2),
{
}

/// Dropping as many nibbles as were put behind a path leads back to it, and dropping more drops
/// all.
pub proof fn law_dropped_nibbles(path: Seq<u8>, more: Seq<u8>, n: nat)
    ensures
        without_last(path + more, more.len()) == path,
        n >= path.len() ==> without_last(path, n).len() == 0,
{
}

/// A partial key is its odd nibble, if it has one, and the nibbles of its bytes.
pub proof fn law_partial_nibbles(nibble: u8, bytes: Seq<u8>)
    requires
        nibble < 16,
    ensures
        partial_nibbles(((0, nibble), bytes)) == unpacked(bytes),
        partial_nibbles(((1, nibble), bytes)).len() == 1 + 2 * bytes.len(),
        partial_nibbles(((1, nibble), bytes)).first() == nibble,
        partial_nibbles(((1, nibble), bytes)).drop_first() == unpacked(bytes),
{
}

} // verus!
