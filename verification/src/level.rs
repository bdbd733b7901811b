//! The walk through a single trie, from its root down and back.

use sp_core::storage::well_known_keys;
use trie_db::{NibbleSlice, NibbleVec};
use vstd::prelude::*;
use vstd::slice::slice_subrange;

use crate::hash::{as_hash, HashBytes};
use crate::inline::{branch_list, Branches};
use crate::keys::{
    default_child_storage_key_prefix, default_prefix, is_child_key, is_default_child_key,
};
use crate::nibbles::{nibbles, packed, unpacked, without_last};
use crate::node::{
    children_view, decode_node, decoded_node, hashed_children, ChildHandle, ChildView, NodeValue,
    NodeView, TrieNode, ValueView,
};

verus! {

/// A node on the way from the root of the trie to the place that the walk has reached.
pub struct LevelNode {
    /// The hash under which the node is stored.
    pub hash: HashBytes,
    /// The encoded node.
    pub encoded: Vec<u8>,
    /// The number of nibbles in the node itself.
    pub prefix_nibbles: usize,
    /// The branches that are still to be visited.
    pub branches: Branches,
}

/// What the walk does next.
pub enum LevelState {
    /// Look for the root of the trie.
    Root(HashBytes),
    /// Walk the child trie with this path and root, which the value of the last node names.
    ChildHash(NibbleVec, HashBytes),
    /// Look for the value of the last node.
    ValueHash(HashBytes),
    /// Leave the value of the last node behind.
    Value,
    /// Look for the node at the end of the path.
    Branch(HashBytes),
    /// Go on to the next branch of the last node.
    Pop,
    /// Leave the last node behind.
    End,
}

/// The walk through one trie.
pub struct Level {
    /// Whether the trie's values can be roots of child tries.
    pub allow_child: bool,
    /// What comes next.
    pub state: LevelState,
    /// The nodes that are being visited, the root of the trie first.
    pub stack: Vec<LevelNode>,
    /// The path that the walk has reached.
    pub prefix: NibbleVec,
    /// The number of bytes in the path at which the trie begins.
    pub initial_prefix_len: usize,
}

/// What a `LevelNode` holds.
pub struct LevelNodeView {
    pub hash: Seq<u8>,
    pub encoded: Seq<u8>,
    pub prefix_nibbles: nat,
    pub branches: Seq<(u8, Seq<u8>)>,
}

/// What a `LevelState` holds.
pub enum LevelStateView {
    Root(Seq<u8>),
    ChildHash(Seq<u8>, Seq<u8>),
    ValueHash(Seq<u8>),
    Value,
    Branch(Seq<u8>),
    Pop,
    End,
}

/// What a `Level` holds.
pub struct LevelView {
    pub allow_child: bool,
    pub state: LevelStateView,
    pub stack: Seq<LevelNodeView>,
    pub prefix: Seq<u8>,
    pub initial_prefix_len: nat,
}

/// Branches with their hashes as sequences.
pub open spec fn branches_view(branches: Seq<(u8, HashBytes)>) -> Seq<(u8, Seq<u8>)> {
    Seq::new(branches.len(), |i: int| (branches[i].0, branches[i].1@))
}

impl View for LevelNode {
    type V = LevelNodeView;

    open spec fn view(&self) -> LevelNodeView {
        LevelNodeView {
            hash: self.hash@,
            encoded: self.encoded@,
            prefix_nibbles: self.prefix_nibbles as nat,
            branches: branches_view(branch_list(self.branches)),
        }
    }
}

impl View for LevelState {
    type V = LevelStateView;

    open spec fn view(&self) -> LevelStateView {
        match *self {
            LevelState::Root(hash) => LevelStateView::Root(hash@),
            LevelState::ChildHash(path, hash) => LevelStateView::ChildHash(nibbles(path), hash@),
            LevelState::ValueHash(hash) => LevelStateView::ValueHash(hash@),
            LevelState::Value => LevelStateView::Value,
            LevelState::Branch(hash) => LevelStateView::Branch(hash@),
            LevelState::Pop => LevelStateView::Pop,
            LevelState::End => LevelStateView::End,
        }
    }
}

impl View for Level {
    type V = LevelView;

    open spec fn view(&self) -> LevelView {
        LevelView {
            allow_child: self.allow_child,
            state: self.state@,
            stack: Seq::new(self.stack@.len(), |i: int| self.stack@[i]@),
            prefix: nibbles(self.prefix),
            initial_prefix_len: self.initial_prefix_len as nat,
        }
    }
}

impl LevelStateView {
    /// Whether the value of the last node is next.
    pub open spec fn is_value(self) -> bool {
        self is ChildHash || self is ValueHash || self is Value
    }

    /// Whether a branch of the last node is at the end of the path.
    pub open spec fn is_branch(self) -> bool {
        self is Branch || self is Pop
    }

    /// The hash of the node that is looked for.
    pub open spec fn node_hash(self) -> Seq<u8> {
        match self {
            LevelStateView::Root(hash) => hash,
            LevelStateView::Branch(hash) => hash,
            _ => Seq::empty(),
        }
    }
}

/// What comes next after a node whose value stands at `path`.
pub open spec fn value_state(
    allow_child: bool,
    path: Seq<u8>,
    value: Option<ValueView>,
) -> LevelStateView {
    match value {
        Some(ValueView::Inline(root)) if allow_child && is_child_key(packed(path)) => {
            LevelStateView::ChildHash(
                unpacked(packed(path).skip(default_child_storage_key_prefix().len() as int)),
                root,
            )
        },
        Some(ValueView::Node(hash)) => LevelStateView::ValueHash(hash),
        _ => LevelStateView::Value,
    }
}

/// Whether the walk can go into a node whose value stands at `path`: it is no extension, what it
/// refers to by hash has the length of a hash, and a value under a child storage key is the root of
/// a default child trie.
pub open spec fn node_fits(allow_child: bool, path: Seq<u8>, node: NodeView) -> bool {
    &&& node !is Extension
    &&& node.children().len() <= 16
    &&& forall|i: int|
        0 <= i < node.children().len() ==> (#[trigger] node.children()[i] matches Some(
            ChildView::Hash(hash),
        ) ==> hash.len() == 32)
    &&& match node.value() {
        None => true,
        Some(value) => if allow_child && is_child_key(packed(path)) {
            value is Inline && value->Inline_0.len() == 32 && is_default_child_key(packed(path))
        } else {
            value is Node ==> value->Node_0.len() == 32
        },
    }
}

impl LevelView {
    /// The walk at the root of a trie that begins at `prefix`.
    pub open spec fn new(allow_child: bool, prefix: Seq<u8>, root: Seq<u8>) -> LevelView {
        LevelView {
            allow_child,
            state: LevelStateView::Root(root),
            stack: Seq::empty(),
            prefix,
            initial_prefix_len: ((prefix.len() + 1) / 2) as nat,
        }
    }

    /// The walk at the next branch of the last node, or at its end where no branch is left.
    pub open spec fn next_branch(self) -> LevelView {
        let prefix = if self.state.is_branch() {
            self.prefix.drop_last()
        } else {
            self.prefix
        };
        let node = self.stack.last();
        if node.branches.len() > 0 {
            let (nibble, hash) = node.branches.last();
            LevelView {
                state: LevelStateView::Branch(hash),
                stack: self.stack.drop_last().push(
                    LevelNodeView { branches: node.branches.drop_last(), ..node },
                ),
                prefix: prefix.push(nibble),
                ..self
            }
        } else {
            LevelView {
                state: LevelStateView::End,
                prefix: without_last(prefix, node.prefix_nibbles),
                ..self
            }
        }
    }

    /// Whether the walk can go into `node` from here.
    pub open spec fn fits(self, node: NodeView) -> bool {
        node_fits(self.allow_child, self.prefix + node.partial(), node)
    }

    /// The walk at the value of `node`, which is found where it was looked for.
    pub open spec fn push(self, encoded: Seq<u8>, node: NodeView) -> LevelView {
        let prefix = self.prefix + node.partial();
        LevelView {
            state: value_state(self.allow_child, prefix, node.value()),
            stack: self.stack.push(
                LevelNodeView {
                    hash: self.state.node_hash(),
                    encoded,
                    prefix_nibbles: node.partial().len(),
                    branches: hashed_children(node.children()),
                },
            ),
            prefix,
            ..self
        }
    }

    /// The walk after the last node: at the next branch of the node above, if there is one.
    pub open spec fn pop(self) -> LevelView {
        let above = LevelView { stack: self.stack.drop_last(), ..self };
        if above.stack.len() > 0 {
            (LevelView { state: LevelStateView::Pop, ..above }).next_branch()
        } else {
            above
        }
    }

    /// The number of nibbles in the path to the `k`th node.
    pub open spec fn node_start(self, k: int) -> nat
        decreases k,
    {
        if k <= 0 {
            2 * self.initial_prefix_len
        } else {
            self.node_start(k - 1) + self.stack[k - 1].prefix_nibbles + 1
        }
    }

    /// The number of nibbles in the path to the value of the `k`th node.
    pub open spec fn node_end(self, k: int) -> nat {
        self.node_start(k) + self.stack[k].prefix_nibbles
    }
}

/// The branches of a node that are referred to by hash, in the order in which they are kept.
fn hash_branches(children: &[Option<ChildHandle>; 16]) -> (branches: Branches)
    requires
        forall|i: int|
            0 <= i < 16 ==> (#[trigger] children_view(*children)[i] matches Some(
                ChildView::Hash(hash),
            ) ==> hash.len() == 32),
    ensures
        branches_view(branch_list(branches)) == hashed_children(children_view(*children)),
{
    let ghost all = children_view(*children);
    let mut branches = Branches::new();
    let mut i: usize = 16;
    assert(all.take(16) =~= all);
    while i > 0
        invariant
            i <= 16,
            all == children_view(*children),
            all.len() == 16,
            forall|j: int|
                0 <= j < 16 ==> (#[trigger] all[j] matches Some(ChildView::Hash(hash))
                    ==> hash.len() == 32),
            branches_view(branch_list(branches)) + hashed_children(all.take(i as int))
                == hashed_children(all),
        decreases i,
    {
        i = i - 1;
        assert(all.take(i + 1).drop_last() =~= all.take(i as int));
        if let Some(ChildHandle::Hash(hash)) = &children[i] {
            branches.push((i as u8, as_hash(hash)));
        }
    }
    branches
}

impl Level {
    /// Starts a walk at the root of a trie that begins at `prefix`.
    pub fn new(allow_child: bool, prefix: NibbleVec, root: HashBytes) -> (level: Self)
        ensures
            level@ == LevelView::new(allow_child, nibbles(prefix), root@),
    {
        let initial_prefix_len: usize = prefix.inner().len();
        let level = Level {
            allow_child,
            state: LevelState::Root(root),
            stack: Vec::new(),
            prefix,
            initial_prefix_len,
        };
        assert(level@.stack =~= Seq::<LevelNodeView>::empty());
        level
    }

    /// Goes on to the next branch of the last node, or to its end where no branch is left.
    pub fn next_branch(&mut self)
        requires
            old(self)@.state.is_value() || old(self)@.state.is_branch(),
            old(self)@.state.is_branch() ==> old(self)@.prefix.len() > 0,
            old(self)@.stack.len() > 0,
            old(self)@.stack.last().branches.len() > 0 ==> old(self)@.stack.last().branches.last().0
                < 16,
        ensures
            final(self)@ == old(self)@.next_branch(),
    {
        let is_branch = matches!(self.state, LevelState::Branch(_) | LevelState::Pop);
        if is_branch {
            self.prefix.pop();
        }
        let ghost stack = self@.stack;
        let mut node = self.stack.pop().unwrap();
        let ghost rest = self@.stack;
        assert(rest =~= stack.drop_last());
        let next = node.branches.pop();
        match next {
            Some((nibble, hash)) => {
                self.prefix.push(nibble);
                self.state = LevelState::Branch(hash);
            },
            None => {
                self.prefix.drop_lasts(node.prefix_nibbles);
                self.state = LevelState::End;
            },
        }
        self.stack.push(node);
        proof {
            assert(self@.stack =~= rest.push(node@));
            if next is Some {
                assert(node@.branches =~= stack.last().branches.drop_last());
            } else {
                assert(rest.push(node@) =~= stack);
            }
        }
    }

    /// Whether the walk can go into `node` from here.
    pub fn fits(&self, node: &TrieNode) -> (fits: bool)
        ensures
            fits == self@.fits(node@),
    {
        let (partial, children, value) = match node {
            TrieNode::Empty => (None, None, None),
            TrieNode::Leaf(partial, value) => (Some(partial), None, Some(value)),
            TrieNode::Extension => {
                return false;
            },
            TrieNode::Branch(children, value) => (None, Some(children), value.as_ref()),
            TrieNode::NibbledBranch(partial, children, value) => (
                Some(partial),
                Some(children),
                value.as_ref(),
            ),
        };
        if let Some(children) = children {
            let mut i: usize = 0;
            while i < 16
                invariant
                    i <= 16,
                    node@.children() == children_view(*children),
                    forall|j: int|
                        0 <= j < i ==> (#[trigger] node@.children()[j] matches Some(
                            ChildView::Hash(hash),
                        ) ==> hash.len() == 32),
                decreases 16 - i,
            {
                if let Some(ChildHandle::Hash(hash)) = &children[i] {
                    assert(node@.children()[i as int] == Some(ChildView::Hash(hash@)));
                    if hash.len() != 32 {
                        return false;
                    }
                }
                i = i + 1;
            }
        }
        match value {
            None => true,
            Some(value) => {
                let mut path = self.prefix.clone();
                if let Some(partial) = partial {
                    path.append_partial(partial.right());
                }
                let key = path.as_prefix().0;
                if self.allow_child && well_known_keys::is_child_storage_key(key) {
                    match value {
                        NodeValue::Inline(root) => root.len() == 32
                            && well_known_keys::is_default_child_storage_key(key),
                        NodeValue::Node(_) => false,
                    }
                } else {
                    match value {
                        NodeValue::Inline(_) => true,
                        NodeValue::Node(hash) => hash.len() == 32,
                    }
                }
            },
        }
    }

    /// Moves to the value of `node` and says how many nibbles the node has and which branches are
    /// to be visited.
    pub fn enter(&mut self, node: &TrieNode) -> (parts: (usize, Branches))
        requires
            old(self)@.fits(node@),
        ensures
            final(self)@ == (LevelView {
                prefix: old(self)@.prefix + node@.partial(),
                state: value_state(
                    old(self)@.allow_child,
                    old(self)@.prefix + node@.partial(),
                    node@.value(),
                ),
                ..old(self)@
            }),
            parts.0 == node@.partial().len(),
            branches_view(branch_list(parts.1)) == hashed_children(node@.children()),
    {
        let (partial, children, value) = match node {
            TrieNode::Empty => (None, None, None),
            TrieNode::Leaf(partial, value) => (Some(partial), None, Some(value)),
            TrieNode::Extension => (None, None, None),
            TrieNode::Branch(children, value) => (None, Some(children), value.as_ref()),
            TrieNode::NibbledBranch(partial, children, value) => (
                Some(partial),
                Some(children),
                value.as_ref(),
            ),
        };
        let prefix_nibbles: usize = if let Some(partial) = partial {
            self.prefix.append_partial(partial.right());
            partial.len()
        } else {
            0
        };
        let branches = match children {
            Some(children) => hash_branches(children),
            None => Branches::new(),
        };
        self.state = match value {
            Some(value) => {
                let key = self.prefix.as_prefix().0;
                if self.allow_child && well_known_keys::is_child_storage_key(key) {
                    match value {
                        NodeValue::Inline(root) => {
                            let start: usize = default_prefix().len();
                            let path = slice_subrange(key, start, key.len());
                            LevelState::ChildHash(
                                NibbleVec::from(NibbleSlice::new(path)),
                                as_hash(root),
                            )
                        },
                        NodeValue::Node(_) => LevelState::Value,
                    }
                } else {
                    match value {
                        NodeValue::Inline(_) => LevelState::Value,
                        NodeValue::Node(hash) => LevelState::ValueHash(as_hash(hash)),
                    }
                }
            },
            None => LevelState::Value,
        };
        (prefix_nibbles, branches)
    }

    /// Goes into the encoded node that was looked for, and says whether it could: where the bytes
    /// are no node that the walk can go into, nothing changes.
    pub fn push(&mut self, encoded: Vec<u8>) -> (pushed: bool)
        requires
            old(self)@.state is Root || old(self)@.state is Branch,
        ensures
            pushed == (decoded_node(encoded@) matches Some(node) && old(self)@.fits(node)),
            pushed ==> final(self)@ == old(self)@.push(encoded@, decoded_node(encoded@)->0),
            !pushed ==> final(self)@ == old(self)@,
    {
        let hash = match &self.state {
            LevelState::Root(hash) => *hash,
            LevelState::Branch(hash) => *hash,
            _ => {
                return false;
            },
        };
        let (prefix_nibbles, branches) = match decode_node(encoded.as_slice()) {
            Some(node) => {
                if !self.fits(&node) {
                    return false;
                }
                self.enter(&node)
            },
            None => {
                return false;
            },
        };
        self.stack.push(LevelNode { hash, encoded, prefix_nibbles, branches });
        assert(self@.stack =~= old(self)@.push(encoded@, decoded_node(encoded@)->0).stack);
        true
    }

    /// Leaves the last node behind and hands it out: goes on to the next branch of the node above,
    /// if there is one.
    pub fn pop(&mut self) -> (node: LevelNode)
        requires
            old(self)@.state is End,
            old(self)@.stack.len() > 0,
            old(self)@.stack.len() > 1 ==> old(self)@.prefix.len() > 0,
            old(self)@.stack.len() > 1 ==> {
                let above = old(self)@.stack[old(self)@.stack.len() - 2];
                above.branches.len() > 0 ==> above.branches.last().0 < 16
            },
        ensures
            final(self)@ == old(self)@.pop(),
            node@ == old(self)@.stack.last(),
    {
        let node = self.stack.pop().unwrap();
        assert(self@.stack =~= old(self)@.stack.drop_last());
        if !self.stack.is_empty() {
            self.state = LevelState::Pop;
            self.next_branch();
        }
        node
    }
}

} // verus!
