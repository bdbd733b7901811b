//! Trie nodes, decoded with the codec of the trie layout.

use sp_core::Blake2Hasher;
use sp_trie::LayoutV0;
use trie_db::node::Node::{Branch, Empty, Extension, Leaf, NibbledBranch};
use trie_db::node::NodeHandle::{Hash as HashHandle, Inline as InlineHandle};
use trie_db::node::Value::{Inline as InlineValue, Node as NodeHash};
use trie_db::{NibbleSlice, NodeCodec, Partial, TrieLayout};
use vstd::prelude::*;

use crate::nibbles::{partial_nibbles, slice_nibbles, unpacked};

verus! {

/// The codec of the trie layout.
type LayoutCodec = <LayoutV0<Blake2Hasher> as TrieLayout>::Codec;

/// How a branch refers to a child.
pub enum ChildHandle<'a> {
    /// By the hash under which the child is stored.
    Hash(&'a [u8]),
    /// The encoded child itself.
    Inline(&'a [u8]),
}

/// How a node refers to its value.
pub enum NodeValue<'a> {
    /// The value itself.
    Inline(&'a [u8]),
    /// By the hash under which the value is stored.
    Node(&'a [u8]),
}

/// The nibbles of a node, which lead from its place to its value and its children.
pub struct PartialKey<'a>(NibbleSlice<'a>);

/// A decoded trie node. Nothing is read off an extension.
pub enum TrieNode<'a> {
    Empty,
    Leaf(PartialKey<'a>, NodeValue<'a>),
    Extension,
    Branch([Option<ChildHandle<'a>>; 16], Option<NodeValue<'a>>),
    NibbledBranch(PartialKey<'a>, [Option<ChildHandle<'a>>; 16], Option<NodeValue<'a>>),
}

/// The bytes that a `ChildHandle` holds, with their meaning.
pub enum ChildView {
    Hash(Seq<u8>),
    Inline(Seq<u8>),
}

/// The bytes that a `NodeValue` holds, with their meaning.
pub enum ValueView {
    Inline(Seq<u8>),
    Node(Seq<u8>),
}

/// What a decoded node holds.
pub enum NodeView {
    Empty,
    Leaf(Seq<u8>, ValueView),
    Extension,
    Branch(Seq<Option<ChildView>>, Option<ValueView>),
    NibbledBranch(Seq<u8>, Seq<Option<ChildView>>, Option<ValueView>),
}

impl<'a> View for PartialKey<'a> {
    type V = Seq<u8>;

    closed spec fn view(&self) -> Seq<u8> {
        slice_nibbles(self.0)
    }
}

impl<'a> PartialKey<'a> {
    /// The nibbles of `data`.
    pub fn new(data: &'a [u8]) -> (key: Self)
        ensures
            key@ == unpacked(data@),
    {
        PartialKey(NibbleSlice::new(data))
    }

    /// The number of nibbles.
    pub fn len(&self) -> (len: usize)
        ensures
            len == self@.len(),
    {
        self.0.len()
    }

    /// The nibbles in the form in which they go behind a path.
    pub(crate) fn right(&self) -> (partial: Partial)
        ensures
            partial_nibbles((partial.0, partial.1@)) == self@,
    {
        self.0.right()
    }
}

impl<'a> View for ChildHandle<'a> {
    type V = ChildView;

    open spec fn view(&self) -> ChildView {
        match *self {
            ChildHandle::Hash(bytes) => ChildView::Hash(bytes@),
            ChildHandle::Inline(bytes) => ChildView::Inline(bytes@),
        }
    }
}

impl<'a> View for NodeValue<'a> {
    type V = ValueView;

    open spec fn view(&self) -> ValueView {
        match *self {
            NodeValue::Inline(bytes) => ValueView::Inline(bytes@),
            NodeValue::Node(bytes) => ValueView::Node(bytes@),
        }
    }
}

/// The child at each of a branch's sixteen places.
pub open spec fn children_view(children: [Option<ChildHandle>; 16]) -> Seq<Option<ChildView>> {
    Seq::new(
        16,
        |i: int|
            match children[i] {
                Some(child) => Some(child@),
                None => None,
            },
    )
}

/// The value of a node that may have none.
pub open spec fn value_view(value: Option<NodeValue>) -> Option<ValueView> {
    match value {
        Some(value) => Some(value@),
        None => None,
    }
}

impl<'a> View for TrieNode<'a> {
    type V = NodeView;

    open spec fn view(&self) -> NodeView {
        match *self {
            TrieNode::Empty => NodeView::Empty,
            TrieNode::Leaf(partial, value) => NodeView::Leaf(partial@, value@),
            TrieNode::Extension => NodeView::Extension,
            TrieNode::Branch(children, value) => NodeView::Branch(
                children_view(children),
                value_view(value),
            ),
            TrieNode::NibbledBranch(partial, children, value) => NodeView::NibbledBranch(
                partial@,
                children_view(children),
                value_view(value),
            ),
        }
    }
}

impl NodeView {
    /// The nibbles that lead from the node's place to its value and its children.
    pub open spec fn partial(self) -> Seq<u8> {
        match self {
            NodeView::Leaf(partial, _) => partial,
            NodeView::NibbledBranch(partial, _, _) => partial,
            _ => Seq::empty(),
        }
    }

    /// The node's children by their nibbles, if it is a branch.
    pub open spec fn children(self) -> Seq<Option<ChildView>> {
        match self {
            NodeView::Branch(children, _) => children,
            NodeView::NibbledBranch(_, children, _) => children,
            _ => Seq::empty(),
        }
    }

    /// The node's value, if it has one.
    pub open spec fn value(self) -> Option<ValueView> {
        match self {
            NodeView::Leaf(_, value) => Some(value),
            NodeView::Branch(_, value) => value,
            NodeView::NibbledBranch(_, _, value) => value,
            _ => None,
        }
    }
}

/// The children that are referred to by hash, each with its nibble, the highest nibble first.
pub open spec fn hashed_children(children: Seq<Option<ChildView>>) -> Seq<(u8, Seq<u8>)>
    decreases children.len(),
{
    if children.len() == 0 {
        Seq::empty()
    } else {
        match children.last() {
            Some(ChildView::Hash(hash)) => seq![((children.len() - 1) as u8, hash)]
                + hashed_children(children.drop_last()),
            _ => hashed_children(children.drop_last()),
        }
    }
}

/// The node that `encoded` decodes to, if it is an encoded node.
pub uninterp spec fn decoded_node(encoded: Seq<u8>) -> Option<NodeView>;

/// `NodeCodec::decode` of the trie layout. The outcome depends on the bytes alone; which bytes
/// stand for which node is left to the codec.
#[verifier::external_body]
pub(crate) fn decode_node(encoded: &[u8]) -> (node: Option<TrieNode>)
    ensures
        decoded_node(encoded@) == match node {
            Some(node) => Some(node@),
            None => None,
        },
{
    let child = |h| match h {
        HashHandle(b) => ChildHandle::Hash(b), InlineHandle(b) => ChildHandle::Inline(b)
    };
    let value = |v| match v {
        InlineValue(b) => NodeValue::Inline(b), NodeHash(b) => NodeValue::Node(b)
    };
    Some(match LayoutCodec::decode(encoded).ok()? {
        Empty => TrieNode::Empty,
        Leaf(p, v) => TrieNode::Leaf(PartialKey(p), value(v)),
        Extension(..) => TrieNode::Extension,
        Branch(c, v) => TrieNode::Branch(c.map(|h| h.map(child)), v.map(value)),
        NibbledBranch(p, c, v) =>
            TrieNode::NibbledBranch(PartialKey(p), c.map(|h| h.map(child)), v.map(value))
    })
}

} // verus!
