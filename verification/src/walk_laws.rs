//! What each move of the walk does, said of the node that it is at and of what the proof holds.

use vstd::prelude::*;

use crate::hash::blake2_256;
use crate::keys::is_child_key;
use crate::level::{node_fits, value_state, LevelNodeView, LevelStateView, LevelView};
use crate::nibbles::{packed, unpacked};
use crate::node::{decoded_node, hashed_children, ChildView, NodeView, ValueView};
use crate::node_laws::{law_branches_are_hashed_slots, law_value_leads_on};
use crate::order::lemma_branches_descend;
use crate::soundness::{
    branch_need, law_complete_state_is_supplied, root_need, sound, supplied, supplies, Need, Past,
    Role,
};
use crate::sync_view::{PhaseView, StepView, SyncView};
use crate::walk::{
    lemma_move_keeps_valid, lemma_silent_move_decreases, levels_valid, question, root_total,
    settle, work_total, AdvanceView, Entry, PauseView, WalkView,
};

verus! {

/// The client is asked exactly for what comes next by its hash, at its path, and never for the
/// empty node.
pub proof fn law_question(level: LevelView, null_hash: Seq<u8>, path: Seq<u8>, hash: Seq<u8>)
    ensures
        question(level, null_hash) == Some((path, hash)) <==> {
            &&& hash != null_hash
            &&& {
                ||| level.state == LevelStateView::ChildHash(path, hash)
                ||| level.state == LevelStateView::ValueHash(hash) && path == level.prefix
                ||| level.state == LevelStateView::Branch(hash) && path == level.prefix
            }
        },
{
}

/// A walk through a trie begins at its root, at the path that it is given.
pub proof fn law_new_level(allow_child: bool, prefix: Seq<u8>, root: Seq<u8>)
    ensures
        ({
            let level = LevelView::new(allow_child, prefix, root);
            &&& level.allow_child == allow_child
            &&& level.state == LevelStateView::Root(root)
            &&& level.stack.len() == 0
            &&& level.prefix == prefix
            &&& prefix.len() <= 2 * level.initial_prefix_len <= prefix.len() + 1
        }),
{
}

/// Whether two nodes of a stack are the same but for the branches that are still to be visited.
pub open spec fn same_node(left: LevelNodeView, right: LevelNodeView) -> bool {
    &&& left.hash == right.hash
    &&& left.encoded == right.encoded
    &&& left.prefix_nibbles == right.prefix_nibbles
}

/// Going on to the next branch takes the last of those that are still to be visited, puts its
/// nibble where the nibble of the branch before was, and leaves all else as it is. Where none is
/// left, the node's own nibbles are dropped.
pub proof fn law_next_branch(level: LevelView)
    requires
        level.stack.len() > 0,
        level.state is Branch || level.state is Pop ==> level.prefix.len() > 0,
    ensures
        ({
            let next = level.next_branch();
            let last = level.stack.len() - 1;
            let branches = level.stack[last].branches;
            let n = branches.len() - 1;
            let at = if level.state is Branch || level.state is Pop {
                level.prefix.take(level.prefix.len() - 1)
            } else {
                level.prefix
            };
            &&& next.allow_child == level.allow_child
            &&& next.initial_prefix_len == level.initial_prefix_len
            &&& next.stack.len() == level.stack.len()
            &&& forall|k: int| 0 <= k < last ==> #[trigger] next.stack[k] == level.stack[k]
            &&& same_node(next.stack[last], level.stack[last])
            &&& n >= 0 ==> {
                &&& next.state == LevelStateView::Branch(branches[n].1)
                &&& next.prefix == at.push(branches[n].0)
                &&& next.stack[last].branches == branches.take(n)
            }
            &&& n < 0 ==> {
                &&& next.state is End
                &&& next.stack[last].branches.len() == 0
                &&& level.stack[last].prefix_nibbles <= at.len() ==> next.prefix == at.take(
                    at.len() - level.stack[last].prefix_nibbles,
                )
            }
        }),
{
}

/// Leaving the last node leads to the next branch of the node above it, or to the end of that node,
/// and leaves the nodes above as they are.
pub proof fn law_pop(level: LevelView)
    requires
        level.stack.len() > 1,
        level.prefix.len() > 0,
    ensures
        ({
            let next = level.pop();
            let last = level.stack.len() - 2;
            let branches = level.stack[last].branches;
            let n = branches.len() - 1;
            let at = level.prefix.take(level.prefix.len() - 1);
            &&& next.allow_child == level.allow_child
            &&& next.initial_prefix_len == level.initial_prefix_len
            &&& next.stack.len() == level.stack.len() - 1
            &&& forall|k: int| 0 <= k < last ==> #[trigger] next.stack[k] == level.stack[k]
            &&& same_node(next.stack[last], level.stack[last])
            &&& n >= 0 ==> {
                &&& next.state == LevelStateView::Branch(branches[n].1)
                &&& next.prefix == at.push(branches[n].0)
                &&& next.stack[last].branches == branches.take(n)
            }
            &&& n < 0 ==> {
                &&& next.state is End
                &&& next.stack[last].branches.len() == 0
                &&& level.stack[last].prefix_nibbles <= at.len() ==> next.prefix == at.take(
                    at.len() - level.stack[last].prefix_nibbles,
                )
            }
        }),
{
    let above = LevelView {
        stack: level.stack.drop_last(),
        state: LevelStateView::Pop,
        ..level
    };
    law_next_branch(above);
}

/// Going into a node puts it on the stack, under the hash that was looked for, with each slot that
/// holds a child by its hash to be visited, and leads to its value.
pub proof fn law_push(
    level: LevelView,
    encoded: Seq<u8>,
    node: NodeView,
    hash: Seq<u8>,
    slot: u8,
    child: Seq<u8>,
)
    requires
        level.state == LevelStateView::Root(hash) || level.state == LevelStateView::Branch(hash),
        node.children().len() <= 16,
    ensures
        ({
            let next = level.push(encoded, node);
            let last = level.stack.len() as int;
            &&& next.allow_child == level.allow_child
            &&& next.initial_prefix_len == level.initial_prefix_len
            &&& next.prefix == level.prefix + node.partial()
            &&& next.state == value_state(
                level.allow_child,
                level.prefix + node.partial(),
                node.value(),
            )
            &&& next.stack.len() == last + 1
            &&& forall|k: int| 0 <= k < last ==> #[trigger] next.stack[k] == level.stack[k]
            &&& next.stack[last].hash == hash
            &&& next.stack[last].encoded == encoded
            &&& next.stack[last].prefix_nibbles == node.partial().len()
            &&& next.stack[last].branches.contains((slot, child)) <==> slot < node.children().len()
                && node.children()[slot as int] == Some(ChildView::Hash(child))
            &&& forall|i: int, j: int|
                0 <= i < j < next.stack[last].branches.len() ==> (
                #[trigger] next.stack[last].branches[i]).0 > (
                #[trigger] next.stack[last].branches[j]).0
        }),
{
    law_branches_are_hashed_slots(node.children(), slot, child);
    lemma_branches_descend(node.children());
}

/// At a root, and at a branch that the client does not have, the walk goes into the node that the
/// proof holds under that hash. It stops where the proof holds none, and fails exactly where what
/// it holds is no node that fits.
pub proof fn law_move_into_node(
    walk: WalkView,
    nodes: Map<Seq<u8>, Seq<u8>>,
    known: bool,
    hash: Seq<u8>,
)
    requires
        walk.levels.len() > 0,
        walk.levels.last().state == LevelStateView::Root(hash) || (!known
            && walk.levels.last().state == LevelStateView::Branch(hash)),
    ensures
        ({
            let level = walk.levels.last();
            let found = decoded_node(nodes[hash]);
            let fits = found is Some && node_fits(
                level.allow_child,
                level.prefix + found->0.partial(),
                found->0,
            );
            match walk.advance(nodes, known) {
                AdvanceView::Missing => !nodes.contains_key(hash),
                AdvanceView::Malformed => nodes.contains_key(hash) && !fits,
                AdvanceView::Moved(next) => {
                    &&& nodes.contains_key(hash) && fits
                    &&& next.batch == walk.batch
                    &&& next.levels == walk.levels.update(
                        walk.levels.len() - 1,
                        level.push(nodes[hash], found->0),
                    )
                },
            }
        }),
{
}

/// What the client has is left out: the walk goes on to the next branch, whatever the proof holds,
/// and writes nothing. So it does behind a value that is there.
pub proof fn law_move_past_known(walk: WalkView, nodes: Map<Seq<u8>, Seq<u8>>, known: bool)
    requires
        walk.levels.len() > 0,
        walk.levels.last().state is Value || (known && (walk.levels.last().state is ChildHash
            || walk.levels.last().state is ValueHash || walk.levels.last().state is Branch)),
    ensures
        walk.advance(nodes, known) matches AdvanceView::Moved(next) && next.batch == walk.batch
            && next.levels == walk.levels.update(
            walk.levels.len() - 1,
            walk.levels.last().next_branch(),
        ),
{
}

/// A value that the client does not have is written as the proof holds it, at its path and under
/// its hash. The walk stops where the proof does not hold it.
pub proof fn law_move_past_value(walk: WalkView, nodes: Map<Seq<u8>, Seq<u8>>, hash: Seq<u8>)
    requires
        walk.levels.len() > 0,
        walk.levels.last().state == LevelStateView::ValueHash(hash),
    ensures
        match walk.advance(nodes, false) {
            AdvanceView::Missing => !nodes.contains_key(hash),
            AdvanceView::Malformed => false,
            AdvanceView::Moved(next) => {
                let level = walk.levels.last();
                &&& nodes.contains_key(hash)
                &&& next.batch.len() == walk.batch.len() + 1
                &&& next.batch.drop_last() == walk.batch
                &&& next.batch.last().path == level.prefix
                &&& next.batch.last().hash == hash
                &&& next.batch.last().value == nodes[hash]
                &&& next.levels == walk.levels.update(walk.levels.len() - 1, level.next_branch())
            },
        },
{
}

/// A child trie that the client does not have is walked from its root, without child tries of its
/// own, and the walk above waits behind the value.
pub proof fn law_move_into_child(
    walk: WalkView,
    nodes: Map<Seq<u8>, Seq<u8>>,
    path: Seq<u8>,
    root: Seq<u8>,
)
    requires
        walk.levels.len() > 0,
        walk.levels.last().state == LevelStateView::ChildHash(path, root),
    ensures
        walk.advance(nodes, false) matches AdvanceView::Moved(next) && {
            let top = walk.levels.len() - 1;
            let waiting = LevelView { state: LevelStateView::Value, ..walk.levels[top] };
            &&& next.batch == walk.batch
            &&& next.levels.len() == walk.levels.len() + 1
            &&& next.levels.drop_last() == walk.levels.update(top, waiting)
            &&& next.levels.last() == LevelView::new(false, path, root)
        },
{
}

/// A node is written when the walk leaves it, as it was found, at its path and under its hash. With
/// the root of a trie the walk leaves the trie.
pub proof fn law_move_out_of_node(walk: WalkView, nodes: Map<Seq<u8>, Seq<u8>>, known: bool)
    requires
        walk.levels.len() > 0,
        walk.levels.last().state is End,
        walk.levels.last().stack.len() > 0,
    ensures
        walk.advance(nodes, known) matches AdvanceView::Moved(next) && {
            let level = walk.levels.last();
            let node = level.stack[level.stack.len() - 1];
            &&& next.batch.len() == walk.batch.len() + 1
            &&& next.batch.drop_last() == walk.batch
            &&& next.batch.last().path == level.prefix
            &&& next.batch.last().hash == node.hash
            &&& next.batch.last().value == node.encoded
            &&& level.stack.len() == 1 ==> next.levels == walk.levels.take(walk.levels.len() - 1)
            &&& level.stack.len() > 1 ==> next.levels == walk.levels.update(
                walk.levels.len() - 1,
                level.pop(),
            )
        },
{
}

/// The walk pauses exactly where it needs an answer, where it is over, where the proof does not
/// hold the root that it needs, or where the proof holds something else in its place.
pub proof fn law_walk_pauses(
    walk: WalkView,
    nodes: Map<Seq<u8>, Seq<u8>>,
    null_hash: Seq<u8>,
)
    requires
        levels_valid(walk.levels),
    ensures
        ({
            let (paused, pause) = settle(walk, nodes, null_hash);
            let level = paused.levels.last();
            match pause {
                PauseView::Ask => paused.levels.len() > 0 && match level.state {
                    LevelStateView::ChildHash(_, hash) => hash != null_hash,
                    LevelStateView::ValueHash(hash) => hash != null_hash,
                    LevelStateView::Branch(hash) => hash != null_hash,
                    _ => false,
                },
                PauseView::Stop => paused.levels.len() > 0 ==> match level.state {
                    LevelStateView::Root(hash) => !nodes.contains_key(hash),
                    _ => false,
                },
                PauseView::Malformed => paused.levels.len() > 0 && match level.state {
                    LevelStateView::Root(hash) => nodes.contains_key(hash) && !(decoded_node(
                        nodes[hash],
                    ) matches Some(node) && node_fits(
                        level.allow_child,
                        level.prefix + node.partial(),
                        node,
                    )),
                    _ => false,
                },
            }
        }),
    decreases root_total(walk.levels), work_total(walk.levels),
{
    if walk.levels.len() > 0 {
        if question(walk.levels.last(), null_hash) is None {
            if let AdvanceView::Moved(next) = walk.advance(nodes, true) {
                lemma_move_keeps_valid(walk, nodes, true, next);
                lemma_silent_move_decreases(walk, nodes, next);
                law_walk_pauses(next, nodes, null_hash);
            }
        }
    }
}

/// A walk that needs no answer for its next move makes it: it pauses where it pauses after that
/// move. One that needs an answer pauses where it is.
pub proof fn law_walk_goes_on(
    walk: WalkView,
    nodes: Map<Seq<u8>, Seq<u8>>,
    null_hash: Seq<u8>,
    next: WalkView,
)
    requires
        levels_valid(walk.levels),
        walk.levels.len() > 0,
    ensures
        question(walk.levels.last(), null_hash) is Some ==> settle(walk, nodes, null_hash).0
            == walk,
        question(walk.levels.last(), null_hash) is None && walk.advance(nodes, true)
            == AdvanceView::Moved(next) ==> settle(walk, nodes, null_hash) == settle(
            next,
            nodes,
            null_hash,
        ),
{
    if question(walk.levels.last(), null_hash) is None && walk.advance(nodes, true)
        == AdvanceView::Moved(next) {
        lemma_move_keeps_valid(walk, nodes, true, next);
        reveal_with_fuel(settle, 2);
    }
}

/// Where a walk pauses, the sync asks for what comes next, has what was gathered written, or fails.
/// It keeps what it needs to go on, and nothing but the walk changes.
pub proof fn law_walked_step(sync: SyncView, nodes: Map<Seq<u8>, Seq<u8>>, walk: WalkView)
    ensures
        ({
            let (paused, pause) = settle(walk, nodes, sync.null_hash);
            let (after, step) = sync.walked(nodes, walk);
            &&& after == (SyncView { levels: paused.levels, phase: after.phase, ..sync })
            &&& match pause {
                PauseView::Ask => {
                    &&& after.phase == PhaseView::Asking { nodes, batch: paused.batch }
                    &&& question(paused.levels.last(), sync.null_hash) matches Some((path, hash))
                        ==> step == StepView::Lookup(path, hash)
                },
                PauseView::Stop => after.phase is Writing && step == StepView::Write(paused.batch),
                PauseView::Malformed => after.phase is Failed && step is Malformed,
            }
        }),
{
}

/// Whether `entry` is what `need` asks for and, if it is a node, all that it refers to by hash is
/// among `needs`: what is in each slot that holds a child by its hash, its value, and the child
/// trie that its value is the root of.
pub open spec fn fills(entry: Entry, need: Need, needs: Set<Need>) -> bool {
    &&& entry.path == need.path
    &&& entry.hash == need.hash
    &&& blake2_256(entry.value) == need.hash
    &&& need.role matches Role::Node(allow_child) ==> {
        let node = decoded_node(entry.value)->0;
        let at = entry.path + node.partial();
        &&& decoded_node(entry.value) is Some
        &&& forall|slot: int|
            0 <= slot < node.children().len() ==> match #[trigger] node.children()[slot] {
                Some(ChildView::Hash(hash)) => needs.contains(
                    Need { role: Role::Node(allow_child), path: at.push(slot as u8), hash },
                ),
                _ => true,
            }
        &&& match node.value() {
            Some(ValueView::Node(hash)) => needs.contains(
                Need { role: Role::Value, path: at, hash },
            ),
            Some(ValueView::Inline(root)) => allow_child && is_child_key(packed(at))
                ==> needs.contains(
                Need {
                    role: Role::Node(false),
                    path: unpacked(packed(at).skip(23)),
                    hash: root,
                },
            ),
            None => true,
        }
    }
}

/// Whether each of `needs` is the empty node, is among what the client had, or has been written
/// with all that it refers to by hash among `needs` too.
pub open spec fn filled(needs: Set<Need>, past: Past, null_hash: Seq<u8>) -> bool {
    forall|need: Need| #[trigger]
        needs.contains(need) ==> {
            ||| need.hash == null_hash
            ||| past.known.contains(need)
            ||| exists|i: int|
                0 <= i < past.written.len() && #[trigger] fills(past.written[i], need, needs)
        }
}

/// When a sync with proofs is complete, the node at the target's root has been written, at the
/// empty path, and with every node that was written each of its slots that holds a child by its
/// hash, its value by hash and the child trie that its value names, down to what the client said it
/// had.
pub proof fn law_complete_state_is_filled(sync: SyncView, past: Past)
    requires
        sync.valid(),
        !sync.skip_proof,
        sync.complete,
        sound(sync, past),
    ensures
        exists|needs: Set<Need>|
            needs.contains(
                Need { role: Role::Node(true), path: Seq::empty(), hash: sync.target_root },
            ) && #[trigger] filled(needs, past, sync.null_hash),
{
    law_complete_state_is_supplied(sync, past);
    let needs = choose|needs: Set<Need>|
        needs.contains(root_need(sync.target_root)) && #[trigger] supplied(
            needs,
            past.written,
            past.known,
            sync.null_hash,
        );
    assert forall|need: Need| #[trigger] needs.contains(need) implies {
        ||| need.hash == sync.null_hash
        ||| past.known.contains(need)
        ||| exists|i: int|
            0 <= i < past.written.len() && #[trigger] fills(past.written[i], need, needs)
    } by {
        if need.hash != sync.null_hash && !past.known.contains(need) {
            let i = choose|i: int|
                0 <= i < past.written.len() && #[trigger] supplies(past.written[i], need, needs);
            lemma_supplies_fills(past.written[i], need, needs);
        }
    }
    assert(filled(needs, past, sync.null_hash));
}

/// What is supplied through the branches of a node is there slot by slot.
proof fn lemma_supplies_fills(entry: Entry, need: Need, needs: Set<Need>)
    requires
        supplies(entry, need, needs),
    ensures
        fills(entry, need, needs),
{
    if let Role::Node(allow_child) = need.role {
        let node = decoded_node(entry.value)->0;
        let at = entry.path + node.partial();
        let all = hashed_children(node.children());
        assert forall|slot: int|
            0 <= slot < node.children().len() implies match #[trigger] node.children()[slot] {
            Some(ChildView::Hash(hash)) => needs.contains(
                Need { role: Role::Node(allow_child), path: at.push(slot as u8), hash },
            ),
            _ => true,
        } by {
            if let Some(ChildView::Hash(hash)) = node.children()[slot] {
                law_branches_are_hashed_slots(node.children(), slot as u8, hash);
                let j = choose|j: int| 0 <= j < all.len() && all[j] == (slot as u8, hash);
                assert(needs.contains(branch_need(allow_child, entry.path, node, j)));
            }
        }
        match node.value() {
            Some(ValueView::Inline(root)) => {
                let name = unpacked(packed(at).skip(23));
                law_value_leads_on(allow_child, at, node.value(), name, root);
            },
            Some(ValueView::Node(hash)) => {
                law_value_leads_on(allow_child, at, node.value(), at, hash);
            },
            None => {},
        }
    }
}

} // verus!
