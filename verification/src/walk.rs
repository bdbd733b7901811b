//! The walk through the target's tries, node by node, as far as a proof goes.

use trie_db::NibbleVec;
use vstd::prelude::*;

use crate::hash::{same_hash, HashBytes};
use crate::inline::Levels;
use crate::level::{Level, LevelNodeView, LevelState, LevelStateView, LevelView};
use crate::nibbles::nibbles;
use crate::node::{decoded_node, hashed_children, ChildView, NodeView};
use crate::proof_db::{proof_nodes, ProofDb};

verus! {

/// Nodes and values for the client's database, each with its path and its hash, in the order in
/// which they are to be written.
pub type HashDbEmplaceBatch = Vec<(NibbleVec, HashBytes, Vec<u8>)>;

/// One node or value of a batch.
pub struct Entry {
    pub path: Seq<u8>,
    pub hash: Seq<u8>,
    pub value: Seq<u8>,
}

/// What a batch holds.
pub open spec fn batch_view(batch: Seq<(NibbleVec, HashBytes, Vec<u8>)>) -> Seq<Entry> {
    Seq::new(
        batch.len(),
        |i: int| Entry { path: nibbles(batch[i].0), hash: batch[i].1@, value: batch[i].2@ },
    )
}

/// How far the walk has come, and what it has gathered.
pub struct WalkView {
    pub levels: Seq<LevelView>,
    pub batch: Seq<Entry>,
}

/// What one move of the walk leads to.
pub enum AdvanceView {
    /// The walk went on.
    Moved(WalkView),
    /// The proof does not hold what comes next.
    Missing,
    /// What comes next is no node that the walk can go into.
    Malformed,
}

/// What the walk has to ask the client before it can go on: whether the database holds the node or
/// value with this path and this hash. The empty node is never asked for.
pub open spec fn question(level: LevelView, null_hash: Seq<u8>) -> Option<(Seq<u8>, Seq<u8>)> {
    match level.state {
        LevelStateView::ChildHash(path, hash) if hash != null_hash => Some((path, hash)),
        LevelStateView::ValueHash(hash) if hash != null_hash => Some((level.prefix, hash)),
        LevelStateView::Branch(hash) if hash != null_hash => Some((level.prefix, hash)),
        _ => None,
    }
}

impl WalkView {
    /// The walk with the last level exchanged.
    pub open spec fn with_last(self, level: LevelView) -> WalkView {
        WalkView { levels: self.levels.drop_last().push(level), ..self }
    }

    /// The walk inside the node with hash `hash`, if the proof holds it.
    pub open spec fn go_into(self, nodes: Map<Seq<u8>, Seq<u8>>, hash: Seq<u8>) -> AdvanceView {
        let level = self.levels.last();
        if !nodes.contains_key(hash) {
            AdvanceView::Missing
        } else {
            match decoded_node(nodes[hash]) {
                Some(node) if level.fits(node) => AdvanceView::Moved(
                    self.with_last(level.push(nodes[hash], node)),
                ),
                _ => AdvanceView::Malformed,
            }
        }
    }

    /// The next move of the walk, where `known` says whether the client already has the node or
    /// value that comes next.
    pub open spec fn advance(self, nodes: Map<Seq<u8>, Seq<u8>>, known: bool) -> AdvanceView {
        let level = self.levels.last();
        let next = self.with_last(level.next_branch());
        match level.state {
            LevelStateView::Root(hash) => self.go_into(nodes, hash),
            LevelStateView::ChildHash(path, root) => if known {
                AdvanceView::Moved(next)
            } else {
                let above = self.with_last(LevelView { state: LevelStateView::Value, ..level });
                AdvanceView::Moved(
                    WalkView {
                        levels: above.levels.push(LevelView::new(false, path, root)),
                        ..above
                    },
                )
            },
            LevelStateView::ValueHash(hash) => if known {
                AdvanceView::Moved(next)
            } else if nodes.contains_key(hash) {
                let entry = Entry { path: level.prefix, hash, value: nodes[hash] };
                AdvanceView::Moved(WalkView { batch: self.batch.push(entry), ..next })
            } else {
                AdvanceView::Missing
            },
            LevelStateView::Value => AdvanceView::Moved(next),
            LevelStateView::Branch(hash) => if known {
                AdvanceView::Moved(next)
            } else {
                self.go_into(nodes, hash)
            },
            LevelStateView::Pop => AdvanceView::Malformed,
            LevelStateView::End => {
                let node = level.stack.last();
                let entry = Entry { path: level.prefix, hash: node.hash, value: node.encoded };
                let left = if level.stack.len() > 1 {
                    self.with_last(level.pop())
                } else {
                    WalkView { levels: self.levels.drop_last(), ..self }
                };
                AdvanceView::Moved(WalkView { batch: self.batch.push(entry), ..left })
            },
        }
    }
}

impl LevelView {
    /// Whether the path has the length that the nodes on the stack give it, and every branch that
    /// is still to be visited is a nibble.
    pub open spec fn valid(self) -> bool {
        let last = self.stack.len() - 1;
        &&& forall|k: int, j: int|
            0 <= k < self.stack.len() && 0 <= j < self.stack[k].branches.len()
                ==> (#[trigger] self.stack[k].branches[j]).0 < 16
        &&& match self.state {
            LevelStateView::Root(_) => self.stack.len() == 0 && self.prefix.len() == 2
                * self.initial_prefix_len,
            LevelStateView::Branch(_) => self.stack.len() > 0 && self.prefix.len() == self.node_end(
                last,
            ) + 1,
            LevelStateView::Pop => false,
            LevelStateView::ChildHash(path, _) => self.stack.len() > 0 && self.prefix.len()
                == self.node_end(last) && path.len() % 2 == 0,
            LevelStateView::End => self.stack.len() > 0 && self.prefix.len() == self.node_start(
                last,
            ),
            _ => self.stack.len() > 0 && self.prefix.len() == self.node_end(last),
        }
    }

    /// How much of the stack is left to work off.
    pub open spec fn work(self) -> nat {
        let state: nat = if self.state is End || self.state is Root {
            1
        } else {
            2
        };
        2 * branch_total(self.stack) + 2 * self.stack.len() + state
    }
}

/// The number of branches that are still to be visited on a whole stack.
pub open spec fn branch_total(stack: Seq<LevelNodeView>) -> nat
    decreases stack.len(),
{
    if stack.len() == 0 {
        0
    } else {
        branch_total(stack.drop_last()) + stack.last().branches.len()
    }
}

/// Whether every level is valid.
pub open spec fn levels_valid(levels: Seq<LevelView>) -> bool {
    forall|i: int| 0 <= i < levels.len() ==> (#[trigger] levels[i]).valid()
}

/// The number of levels whose root is still looked for.
pub open spec fn root_total(levels: Seq<LevelView>) -> nat
    decreases levels.len(),
{
    if levels.len() == 0 {
        0
    } else {
        root_total(levels.drop_last()) + if levels.last().state is Root {
            1nat
        } else {
            0nat
        }
    }
}

/// How much of all levels is left to work off.
pub open spec fn work_total(levels: Seq<LevelView>) -> nat
    decreases levels.len(),
{
    if levels.len() == 0 {
        0
    } else {
        work_total(levels.drop_last()) + levels.last().work()
    }
}

/// Why the walk pauses.
pub enum PauseView {
    /// The client has to be asked.
    Ask,
    /// The walk is over, or the proof does not go further.
    Stop,
    /// The proof holds something else where a node should be.
    Malformed,
}

/// Where the walk pauses, and why, if it goes on for as long as it needs no answer.
pub open spec fn settle(walk: WalkView, nodes: Map<Seq<u8>, Seq<u8>>, null_hash: Seq<u8>) -> (
    WalkView,
    PauseView,
)
    decreases root_total(walk.levels), work_total(walk.levels),
    when levels_valid(walk.levels)
    via settle_decreases
{
    if walk.levels.len() == 0 {
        (walk, PauseView::Stop)
    } else if question(walk.levels.last(), null_hash) is Some {
        (walk, PauseView::Ask)
    } else {
        match walk.advance(nodes, true) {
            AdvanceView::Moved(next) => settle(next, nodes, null_hash),
            AdvanceView::Missing => (walk, PauseView::Stop),
            AdvanceView::Malformed => (walk, PauseView::Malformed),
        }
    }
}

/// The paths to the nodes of a stack depend only on where it begins and on the nibbles in its
/// nodes.
pub(crate) proof fn lemma_node_start_agrees(left: LevelView, right: LevelView, k: int)
    requires
        left.initial_prefix_len == right.initial_prefix_len,
        0 <= k <= left.stack.len(),
        k <= right.stack.len(),
        forall|i: int|
            0 <= i < k ==> (#[trigger] left.stack[i]).prefix_nibbles
                == right.stack[i].prefix_nibbles,
    ensures
        left.node_start(k) == right.node_start(k),
    decreases k,
{
    if k > 0 {
        lemma_node_start_agrees(left, right, k - 1);
    }
}

/// A node of a stack ends before the nodes below it begin.
pub(crate) proof fn lemma_node_order(level: LevelView, k: int, m: int)
    requires
        0 <= k < m,
    ensures
        level.node_end(k) + 1 <= level.node_start(m),
        2 * level.initial_prefix_len <= level.node_start(k),
    decreases m,
{
    if k + 1 < m {
        lemma_node_order(level, k, m - 1);
    }
    if k > 0 {
        lemma_node_order(level, k - 1, k);
    }
}

/// Going on to the next branch keeps a level valid and works something off.
proof fn lemma_next_branch(level: LevelView)
    requires
        level.stack.len() > 0,
        forall|k: int, j: int|
            0 <= k < level.stack.len() && 0 <= j < level.stack[k].branches.len()
                ==> (#[trigger] level.stack[k].branches[j]).0 < 16,
        level.prefix.len() == level.node_end(level.stack.len() - 1) + if level.state.is_branch() {
            1int
        } else {
            0int
        },
        level.state !is Root,
        level.state !is End,
    ensures
        level.next_branch().valid(),
        level.next_branch().state !is Root,
        level.next_branch().work() < level.work(),
{
    let next = level.next_branch();
    let last = level.stack.len() - 1;
    assert(next.stack.drop_last() =~= level.stack.drop_last());
    lemma_node_start_agrees(level, next, last);
}

/// Leaving the last node keeps a level valid and works something off.
proof fn lemma_pop(level: LevelView)
    requires
        level.valid(),
        level.state is End,
        level.stack.len() > 1,
    ensures
        level.pop().valid(),
        level.pop().state !is Root,
        level.pop().work() < level.work(),
{
    let above = LevelView {
        stack: level.stack.drop_last(),
        state: LevelStateView::Pop,
        ..level
    };
    let last = level.stack.len() - 1;
    lemma_node_start_agrees(level, above, last - 1);
    lemma_next_branch(above);
}

/// The branches of a node are nibbles.
pub(crate) proof fn lemma_hashed_children_are_nibbles(children: Seq<Option<ChildView>>)
    requires
        children.len() <= 16,
    ensures
        forall|j: int|
            0 <= j < hashed_children(children).len() ==> (#[trigger] hashed_children(children)[j]).0
                < children.len(),
    decreases children.len(),
{
    if children.len() > 0 {
        lemma_hashed_children_are_nibbles(children.drop_last());
        let rest = hashed_children(children.drop_last());
        assert forall|j: int| 0 <= j < hashed_children(children).len() implies (
        #[trigger] hashed_children(children)[j]).0 < children.len() by {
            if let Some(ChildView::Hash(_)) = children.last() {
                assert(j > 0 ==> hashed_children(children)[j] == rest[j - 1]);
            }
        }
    }
}

/// Going into a node keeps a level valid.
proof fn lemma_push(level: LevelView, encoded: Seq<u8>, node: NodeView)
    requires
        level.valid(),
        level.state is Root || level.state is Branch,
        level.fits(node),
    ensures
        level.push(encoded, node).valid(),
        level.push(encoded, node).state !is Root,
{
    let next = level.push(encoded, node);
    let last = level.stack.len() as int;
    lemma_hashed_children_are_nibbles(node.children());
    lemma_node_start_agrees(level, next, last);
}

/// A move keeps every level valid.
pub(crate) proof fn lemma_move_keeps_valid(
    walk: WalkView,
    nodes: Map<Seq<u8>, Seq<u8>>,
    known: bool,
    next: WalkView,
)
    requires
        levels_valid(walk.levels),
        walk.levels.len() > 0,
        walk.advance(nodes, known) == AdvanceView::Moved(next),
    ensures
        levels_valid(next.levels),
{
    let level = walk.levels.last();
    match level.state {
        LevelStateView::Root(hash) => {
            lemma_push(level, nodes[hash], decoded_node(nodes[hash])->0);
        },
        LevelStateView::Branch(hash) => {
            if known {
                lemma_next_branch(level);
            } else {
                lemma_push(level, nodes[hash], decoded_node(nodes[hash])->0);
            }
        },
        LevelStateView::ChildHash(path, root) => {
            if known {
                lemma_next_branch(level);
            } else {
                let above = LevelView { state: LevelStateView::Value, ..level };
                lemma_node_start_agrees(level, above, level.stack.len() - 1);
            }
        },
        LevelStateView::End => {
            if level.stack.len() > 1 {
                lemma_pop(level);
            }
        },
        _ => {
            lemma_next_branch(level);
        },
    }
}

/// A move without an answer works something off.
pub(crate) proof fn lemma_silent_move_decreases(
    walk: WalkView,
    nodes: Map<Seq<u8>, Seq<u8>>,
    next: WalkView,
)
    requires
        levels_valid(walk.levels),
        walk.levels.len() > 0,
        walk.advance(nodes, true) == AdvanceView::Moved(next),
    ensures
        root_total(next.levels) < root_total(walk.levels) || (root_total(next.levels) == root_total(
            walk.levels,
        ) && work_total(next.levels) < work_total(walk.levels)),
{
    let level = walk.levels.last();
    let below = walk.levels.drop_last();
    match level.state {
        LevelStateView::Root(hash) => {
            let node = decoded_node(nodes[hash])->0;
            lemma_push(level, nodes[hash], node);
            assert(next.levels.drop_last() =~= below);
        },
        LevelStateView::End => {
            if level.stack.len() > 1 {
                lemma_pop(level);
                assert(next.levels.drop_last() =~= below);
            }
        },
        _ => {
            lemma_next_branch(level);
            assert(next.levels.drop_last() =~= below);
        },
    }
}

#[via_fn]
proof fn settle_decreases(walk: WalkView, nodes: Map<Seq<u8>, Seq<u8>>, null_hash: Seq<u8>) {
    if walk.levels.len() > 0 && question(walk.levels.last(), null_hash) is None {
        if let AdvanceView::Moved(next) = walk.advance(nodes, true) {
            lemma_silent_move_decreases(walk, nodes, next);
        }
    }
}

/// What one move of the walk led to.
pub enum Advance {
    /// The walk went on.
    Moved,
    /// The proof does not hold what comes next.
    Missing,
    /// What comes next is no node that the walk can go into.
    Malformed,
}

/// Why the walk paused.
pub enum Pause {
    /// The client has to say whether it has the node or value with this path and hash.
    Ask(NibbleVec, HashBytes),
    /// The walk is over, or the proof does not go further.
    Stop,
    /// The proof holds something else where a node should be.
    Malformed,
}

/// The walk that levels and a batch stand for.
pub open spec fn walk_view(levels: Levels, batch: HashDbEmplaceBatch) -> WalkView {
    WalkView { levels: levels@, batch: batch_view(batch@) }
}

/// What the walk has to ask the client before it can go on.
pub fn ask(level: &Level, null_hash: &HashBytes) -> (asked: Option<(NibbleVec, HashBytes)>)
    ensures
        question(level@, null_hash@) == match asked {
            Some((path, hash)) => Some((nibbles(path), hash@)),
            None => None,
        },
{
    match &level.state {
        LevelState::ChildHash(path, hash) => {
            if same_hash(hash, null_hash) {
                None
            } else {
                Some((path.clone(), *hash))
            }
        },
        LevelState::ValueHash(hash) | LevelState::Branch(hash) => {
            if same_hash(hash, null_hash) {
                None
            } else {
                Some((level.prefix.clone(), *hash))
            }
        },
        _ => None,
    }
}

/// Goes into the node with hash `hash` from the level above `levels`.
fn go_into(levels: &mut Levels, level: Level, proof: &ProofDb, hash: &HashBytes) -> (moved: Advance)
    requires
        level@.state is Root || level@.state is Branch,
    ensures
        forall|batch: Seq<Entry>|
            #[trigger] (WalkView { levels: old(levels)@.push(level@), batch }).go_into(
                proof_nodes(*proof),
                hash@,
            ) == match moved {
                Advance::Moved => AdvanceView::Moved(WalkView { levels: final(levels)@, batch }),
                Advance::Missing => AdvanceView::Missing,
                Advance::Malformed => AdvanceView::Malformed,
            },
        moved !is Moved ==> final(levels)@ == old(levels)@.push(level@),
{
    let mut level = level;
    let ghost start = level@;
    let moved = match proof.get(hash, &level.prefix) {
        Some(value) => {
            if level.push(value) {
                Advance::Moved
            } else {
                Advance::Malformed
            }
        },
        None => Advance::Missing,
    };
    levels.push(level);
    proof {
        assert(levels@ =~= old(levels)@.push(level@));
        assert(old(levels)@.push(start).drop_last() =~= old(levels)@);
    }
    moved
}

/// Makes the next move of the walk, where `known` says whether the client already has the node or
/// value that comes next.
pub fn advance(
    levels: &mut Levels,
    batch: &mut HashDbEmplaceBatch,
    proof: &ProofDb,
    known: bool,
) -> (moved: Advance)
    requires
        levels_valid(old(levels)@),
        old(levels)@.len() > 0,
    ensures
        walk_view(*old(levels), *old(batch)).advance(proof_nodes(*proof), known) == match moved {
            Advance::Moved => AdvanceView::Moved(walk_view(*final(levels), *final(batch))),
            Advance::Missing => AdvanceView::Missing,
            Advance::Malformed => AdvanceView::Malformed,
        },
        moved !is Moved ==> walk_view(*final(levels), *final(batch)) == walk_view(
            *old(levels),
            *old(batch),
        ),
{
    let ghost walk = walk_view(*levels, *batch);
    let mut level = levels.pop().unwrap();
    let ghost below = levels@;
    let ghost top = level@;
    proof {
        assert(below =~= walk.levels.drop_last());
        assert(below.push(top) =~= walk.levels);
    }
    match &level.state {
        LevelState::Root(hash) => {
            let hash = *hash;
            return go_into(levels, level, proof, &hash);
        },
        LevelState::Branch(hash) if !known => {
            let hash = *hash;
            return go_into(levels, level, proof, &hash);
        },
        LevelState::ChildHash(path, hash) if !known => {
            let child = Level::new(false, path.clone(), *hash);
            level.state = LevelState::Value;
            levels.push(level);
            levels.push(child);
            assert(levels@ =~= below.push(level@).push(child@));
        },
        LevelState::ValueHash(hash) if !known => {
            let hash = *hash;
            match proof.get(&hash, &level.prefix) {
                Some(value) => {
                    let ghost entry = Entry { path: top.prefix, hash: hash@, value: value@ };
                    batch.push((level.prefix.clone(), hash, value));
                    assert(batch_view(batch@) =~= walk.batch.push(entry));
                    level.next_branch();
                    levels.push(level);
                    assert(levels@ =~= below.push(level@));
                },
                None => {
                    levels.push(level);
                    assert(levels@ =~= walk.levels);
                    return Advance::Missing;
                },
            }
        },
        LevelState::Pop => {
            levels.push(level);
            return Advance::Malformed;
        },
        LevelState::End => {
            let ghost last = top.stack.last();
            let ghost entry = Entry { path: top.prefix, hash: last.hash, value: last.encoded };
            let path = level.prefix.clone();
            let node = level.pop();
            batch.push((path, node.hash, node.encoded));
            assert(batch_view(batch@) =~= walk.batch.push(entry));
            assert(level@.stack.len() == top.stack.len() - 1);
            if !level.stack.is_empty() {
                levels.push(level);
                assert(levels@ =~= below.push(level@));
            }
        },
        _ => {
            level.next_branch();
            levels.push(level);
            assert(levels@ =~= below.push(level@));
        },
    }
    Advance::Moved
}

/// Goes on for as long as the walk needs no answer.
pub fn go_on(
    levels: &mut Levels,
    batch: &mut HashDbEmplaceBatch,
    proof: &ProofDb,
    null_hash: &HashBytes,
) -> (pause: Pause)
    requires
        levels_valid(old(levels)@),
    ensures
        levels_valid(final(levels)@),
        settle(walk_view(*old(levels), *old(batch)), proof_nodes(*proof), null_hash@) == (
            walk_view(*final(levels), *final(batch)),
            match pause {
                Pause::Ask(_, _) => PauseView::Ask,
                Pause::Stop => PauseView::Stop,
                Pause::Malformed => PauseView::Malformed,
            },
        ),
        pause matches Pause::Ask(path, hash) ==> final(levels)@.len() > 0 && question(
            final(levels)@.last(),
            null_hash@,
        ) == Some((nibbles(path), hash@)),
{
    let ghost nodes = proof_nodes(*proof);
    loop
        invariant
            nodes == proof_nodes(*proof),
            levels_valid(levels@),
            settle(walk_view(*levels, *batch), nodes, null_hash@) == settle(
                walk_view(*old(levels), *old(batch)),
                nodes,
                null_hash@,
            ),
        decreases root_total(levels@), work_total(levels@),
    {
        let len: usize = levels.len();
        if len == 0 {
            return Pause::Stop;
        }
        if let Some(level) = levels.get(len - 1) {
            if let Some((path, hash)) = ask(level, null_hash) {
                return Pause::Ask(path, hash);
            }
        }
        let ghost walk = walk_view(*levels, *batch);
        match advance(levels, batch, proof, true) {
            Advance::Moved => {
                proof {
                    lemma_move_keeps_valid(walk, nodes, true, walk_view(*levels, *batch));
                    lemma_silent_move_decreases(walk, nodes, walk_view(*levels, *batch));
                }
            },
            Advance::Missing => {
                return Pause::Stop;
            },
            Advance::Malformed => {
                return Pause::Malformed;
            },
        }
    }
}

} // verus!
