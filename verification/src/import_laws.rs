//! What an import leads to, said of the response and of what the sync was before.

use vstd::prelude::*;

use crate::inline::{branch_list, level_list, Levels};
use crate::level::{Level, LevelNode, LevelState, LevelStateView};
use crate::nibbles::{nibbles, unpacked};
use crate::node::{children_view, ChildHandle, ChildView, NodeValue, NodeView, TrieNode, ValueView};
use crate::proof_db::{compact_proof, expanded_proof};
use crate::schema::{KeyValueStateEntryView, StateResponse, StateResponseView};
use crate::state_sync::{
    body_cloned, justifications_cloned, step_is, Block, ImportResult, ImportStep, StateSync,
    StateSyncProvider, TargetView,
};
use crate::storage::{
    level_bytes, levels_bytes, total_bytes, with_level, with_levels, TrieContents,
};
use crate::sync_view::{kept_keys, open_keys, StepView, SyncView};
use crate::walk::{
    batch_view, lemma_node_order, levels_valid, walk_view, AdvanceView, HashDbEmplaceBatch,
    WalkView,
};

verus! {

/// A response with these entries, and with these bytes in place of a proof.
pub open spec fn chunks_response(
    levels: Seq<KeyValueStateEntryView>,
    proof_bytes: Seq<u8>,
) -> StateResponseView {
    StateResponseView { entries: levels, proof_bytes }
}

/// The entries that a sync has taken in by the end of an import: those that it hands out, or those
/// that it keeps.
pub open spec fn taken_in(import: (SyncView, StepView)) -> Map<Seq<u8>, TrieContents> {
    match import.1 {
        StepView::Import(state) => state,
        _ => import.0.state,
    }
}

/// A response is bad exactly where it brings nothing, or where a sync with proofs does not find a
/// proof of its target's state in it.
pub proof fn law_bad_responses(sync: SyncView, response: StateResponseView)
    ensures
        sync.import(response).1 is BadResponse <==> {
            ||| response.entries.len() == 0 && response.proof_bytes.len() == 0
            ||| !sync.skip_proof && response.proof_bytes.len() == 0
            ||| !sync.skip_proof && compact_proof(response.proof_bytes) is None
            ||| !sync.skip_proof && expanded_proof(
                compact_proof(response.proof_bytes)->0,
                sync.target_root,
            ) is None
        },
{
}

/// Without proofs, the state is handed out exactly where every single trie of a response has ended.
/// As long as one has not, wherever it stands, the sync goes on and is no more complete than
/// before.
pub proof fn law_open_trie_goes_on(sync: SyncView, response: StateResponseView)
    requires
        sync.skip_proof,
        response.entries.len() > 0 || response.proof_bytes.len() > 0,
    ensures
        (exists|i: int|
            0 <= i < response.entries.len() && !(#[trigger] response.entries[i]).complete)
            ==> sync.import(response).1 is Continue && sync.import(response).0.complete
            == sync.complete,
        (forall|i: int|
            0 <= i < response.entries.len() ==> (#[trigger] response.entries[i]).complete)
            ==> sync.import(response).1 is Import && sync.import(response).0.complete,
{
}

/// The next request goes on behind the last entry of each trie that has not ended: the key of that
/// entry is behind the keys that there were with the tries before it.
pub proof fn law_next_key_of_one_more_trie(
    sync: SyncView,
    levels: Seq<KeyValueStateEntryView>,
    level: KeyValueStateEntryView,
    proof_bytes: Seq<u8>,
)
    requires
        sync.skip_proof,
        levels.len() > 0,
    ensures
        ({
            let before = sync.import(chunks_response(levels, proof_bytes)).0.last_key;
            let after = sync.import(chunks_response(levels.push(level), proof_bytes)).0.last_key;
            let n = level.entries.len() as int;
            after == if !level.complete && n > 0 {
                before.push(level.entries[n - 1].0)
            } else {
                before
            }
        }),
{
    let all = levels.push(level);
    assert(all.drop_last() =~= levels);
}

/// The next request goes on behind the last entry of the first trie, if that has not ended. Where
/// the first trie brings no entries and there are two keys, the key of the top trie stays, and no
/// other key does.
pub proof fn law_next_key_of_first_trie(
    sync: SyncView,
    level: KeyValueStateEntryView,
    proof_bytes: Seq<u8>,
)
    requires
        sync.skip_proof,
    ensures
        ({
            let keys = sync.import(chunks_response(seq![level], proof_bytes)).0.last_key;
            let n = level.entries.len() as int;
            if n == 0 && sync.last_key.len() == 2 {
                keys.len() == 1 && keys[0] == sync.last_key[0]
            } else if n > 0 && !level.complete {
                keys.len() == 1 && keys[0] == level.entries[n - 1].0
            } else {
                keys.len() == 0
            }
        }),
{
    let one = seq![level];
    reveal_with_fuel(open_keys, 2);
}

/// The last entry of each trie that has not ended is among the keys of the next request, whatever
/// the other tries bring.
pub proof fn law_open_trie_is_asked_for(sync: SyncView, response: StateResponseView, i: int)
    requires
        sync.skip_proof,
        0 <= i < response.entries.len(),
        !response.entries[i].complete,
        response.entries[i].entries.len() > 0,
    ensures
        ({
            let entries = response.entries[i].entries;
            sync.import(response).0.last_key.contains(entries[entries.len() - 1].0)
        }),
{
    let levels = response.entries;
    let key = levels[i].entries[levels[i].entries.len() - 1].0;
    lemma_open_key(levels, i);
    let open = open_keys(levels);
    let kept = kept_keys(sync.last_key, levels);
    let j = choose|j: int| 0 <= j < open.len() && open[j] == key;
    assert((kept + open)[kept.len() + j] == key);
}

/// The last key of a trie that has not ended is among those of all tries.
proof fn lemma_open_key(levels: Seq<KeyValueStateEntryView>, i: int)
    requires
        0 <= i < levels.len(),
        !levels[i].complete,
        levels[i].entries.len() > 0,
    ensures
        open_keys(levels).contains(levels[i].entries[levels[i].entries.len() - 1].0),
    decreases levels.len(),
{
    let key = levels[i].entries[levels[i].entries.len() - 1].0;
    let keys = open_keys(levels);
    if i < levels.len() - 1 {
        let front = open_keys(levels.drop_last());
        lemma_open_key(levels.drop_last(), i);
        let j = choose|j: int| 0 <= j < front.len() && front[j] == key;
        assert(keys[j] == key);
    } else {
        assert(keys[keys.len() - 1] == key);
    }
}

/// Each trie of a response is added to what the tries before it left, with its bytes, and the whole
/// is handed out or kept.
pub proof fn law_one_more_trie_is_taken_in(
    sync: SyncView,
    levels: Seq<KeyValueStateEntryView>,
    level: KeyValueStateEntryView,
    proof_bytes: Seq<u8>,
)
    requires
        sync.skip_proof,
        levels.len() > 0,
    ensures
        ({
            let before = sync.import(chunks_response(levels, proof_bytes));
            let after = sync.import(chunks_response(levels.push(level), proof_bytes));
            &&& taken_in(after) == with_level(taken_in(before), level)
            &&& after.0.imported_bytes == before.0.imported_bytes + level_bytes(
                taken_in(before),
                level,
            )
        }),
{
    assert(levels.push(level).drop_last() =~= levels);
}

/// The first trie of a response is added to what there was, with its bytes. What is handed out is
/// not kept, and without proofs nothing else changes.
pub proof fn law_first_trie_is_taken_in(
    sync: SyncView,
    level: KeyValueStateEntryView,
    response: StateResponseView,
)
    requires
        sync.skip_proof,
    ensures
        ({
            let after = sync.import(chunks_response(seq![level], response.proof_bytes));
            &&& taken_in(after) == with_level(sync.state, level)
            &&& after.0.imported_bytes == sync.imported_bytes + level_bytes(sync.state, level)
        }),
        sync.import(response).1 is Import ==> sync.import(response).0.state.dom().is_empty(),
        sync.import(response).0.levels == sync.levels,
        sync.import(response).0.phase == sync.phase,
{
    let one = seq![level];
    reveal_with_fuel(with_levels, 2);
    reveal_with_fuel(levels_bytes, 2);
}

/// A response without entries, to a sync that asked for entries and is not inside a child trie,
/// ends the sync with what has arrived before.
pub proof fn law_response_without_entries(sync: SyncView, response: StateResponseView)
    requires
        sync.skip_proof,
        response.entries.len() == 0,
        response.proof_bytes.len() > 0,
        sync.last_key.len() != 2,
    ensures
        sync.import(response).1 == StepView::Import(sync.state),
        sync.import(response).0.complete,
        sync.import(response).0.last_key.len() == 0,
        sync.import(response).0.imported_bytes == sync.imported_bytes,
{
}

/// With proofs, every response that is not bad makes the size grow by exactly the length of its
/// proof, wherever the walk stands. A bad one leaves it as it is, and so does all that follows a
/// response.
pub proof fn law_size_grows_by_proof(sync: SyncView, response: StateResponseView, known: bool)
    requires
        !sync.skip_proof,
    ensures
        sync.import(response).1 !is BadResponse ==> sync.import(response).0.imported_bytes
            == sync.imported_bytes + response.proof_bytes.len(),
        sync.import(response).1 is BadResponse ==> sync.import(response).0.imported_bytes
            == sync.imported_bytes,
        sync.resume(known).0.imported_bytes == sync.imported_bytes,
        sync.written().0.imported_bytes == sync.imported_bytes,
{
}

/// A proof that is not refused is walked from where the walk stands, with nothing gathered yet, and
/// nothing but the walk and the size changes.
pub proof fn law_proof_is_walked(
    sync: SyncView,
    response: StateResponseView,
    nodes: Map<Seq<u8>, Seq<u8>>,
)
    requires
        !sync.skip_proof,
        response.proof_bytes.len() > 0,
        compact_proof(response.proof_bytes) is Some,
        expanded_proof(compact_proof(response.proof_bytes)->0, sync.target_root) == Some(nodes),
    ensures
        ({
            let walk = WalkView { levels: sync.levels, batch: Seq::empty() };
            let (walked, step) = sync.walked(nodes, walk);
            let (after, import_step) = sync.import(response);
            &&& import_step == step
            &&& after == (SyncView { imported_bytes: after.imported_bytes, ..walked })
        }),
{
}

/// After an answer the walk makes the move that the answer allows and goes on from there. Where the
/// proof does not hold what comes next, all that was gathered is written.
pub proof fn law_answer_moves_the_walk(sync: SyncView, known: bool, next: WalkView)
    requires
        sync.phase is Asking,
    ensures
        ({
            let nodes = sync.phase->nodes;
            let walk = WalkView { levels: sync.levels, batch: sync.phase->batch };
            let (after, step) = sync.resume(known);
            match walk.advance(nodes, known) {
                AdvanceView::Moved(moved) => moved == next ==> sync.resume(known) == sync.walked(
                    nodes,
                    next,
                ),
                AdvanceView::Missing => step == StepView::Write(walk.batch) && after.levels
                    == sync.levels && after.phase is Writing,
                AdvanceView::Malformed => step is Malformed && after.levels == sync.levels
                    && after.phase is Failed,
            }
        }),
{
}

/// With what was gathered written, an import ends: the state is complete exactly where the walk is
/// over, and the walk stays where it is.
pub proof fn law_written_ends_the_import(sync: SyncView)
    ensures
        ({
            let (after, step) = sync.written();
            &&& step is Import <==> sync.levels.len() == 0
            &&& step is Continue <==> sync.levels.len() > 0
            &&& after.complete == (sync.complete || sync.levels.len() == 0)
            &&& after.levels == sync.levels
            &&& after.phase is Idle
            &&& taken_in(sync.written()) == sync.state
        }),
{
}

/// The next request goes on where the walk stands in each trie: its key begins with all of the path
/// walked inside that trie, in whole bytes, with at most half a byte of zero behind it.
pub proof fn law_request_goes_on_where_the_walk_is(sync: SyncView, i: int)
    requires
        levels_valid(sync.levels),
        0 <= i < sync.levels.len(),
    ensures
        ({
            let key = sync.written().0.last_key[i];
            let level = sync.levels[i];
            let walked = level.prefix.skip(2 * level.initial_prefix_len as int);
            &&& sync.written().0.last_key.len() == sync.levels.len()
            &&& level.prefix.len() >= 2 * level.initial_prefix_len
            &&& walked.len() <= 2 * key.len() <= walked.len() + 1
            &&& forall|b: int|
                0 <= b < walked.len() / 2 ==> #[trigger] key[b] == (walked[2 * b] * 16
                    + walked[2 * b + 1]) as u8
            &&& walked.len() % 2 == 1 ==> key[key.len() - 1] == (walked[walked.len() - 1]
                * 16) as u8
            &&& (forall|n: int| 0 <= n < walked.len() ==> (#[trigger] walked[n]) < 16)
                ==> unpacked(key).take(walked.len() as int) == walked && (walked.len() % 2 == 1
                ==> unpacked(key)[walked.len() as int] == 0)
        }),
{
    let level = sync.levels[i];
    let key = sync.written().0.last_key[i];
    let start = level.initial_prefix_len as int;
    let walked = level.prefix.skip(2 * start);
    if level.stack.len() > 0 {
        lemma_node_order(level, level.stack.len() - 1, level.stack.len() as int);
    }
    assert(forall|b: int|
        0 <= b < walked.len() / 2 ==> #[trigger] key[b] == (walked[2 * b] * 16 + walked[2 * b
            + 1]) as u8);
}

/// The estimate goes by the first byte of the first key of the next request.
pub proof fn law_estimate_goes_by_first_byte(sync: SyncView)
    ensures
        sync.last_key.len() == 0 ==> sync.cursor() == 0,
        sync.last_key.len() > 0 && sync.last_key[0].len() == 0 ==> sync.cursor() == 0,
        sync.last_key.len() > 0 && sync.last_key[0].len() > 0 ==> sync.cursor()
            == sync.last_key[0][0],
{
}

/// A sync begins with nothing: no keys, no entries and no bytes, and with proofs at the root of the
/// top trie.
pub proof fn law_new_sync(
    target_block: Seq<u8>,
    target_root: Seq<u8>,
    null_hash: Seq<u8>,
    skip_proof: bool,
)
    ensures
        ({
            let sync = SyncView::new(target_block, target_root, null_hash, skip_proof);
            &&& sync.target_block == target_block
            &&& sync.target_root == target_root
            &&& sync.null_hash == null_hash
            &&& sync.skip_proof == skip_proof
            &&& sync.last_key.len() == 0
            &&& sync.state.dom().is_empty()
            &&& !sync.complete
            &&& sync.imported_bytes == 0
            &&& sync.phase is Idle
            &&& skip_proof ==> sync.levels.len() == 0
            &&& !skip_proof ==> {
                &&& sync.levels.len() == 1
                &&& sync.levels[0].allow_child
                &&& sync.levels[0].state == LevelStateView::Root(target_root)
                &&& sync.levels[0].prefix.len() == 0
            }
        }),
{
}

/// A response is admitted whenever no import is in progress and its bytes stay in range, but for
/// one without entries that comes to a sync inside a child trie that asked for entries. What is
/// admitted is accepted, and what is accepted fits.
pub proof fn law_responses_are_admitted(sync: SyncView, response: StateResponseView)
    ensures
        !sync.skip_proof ==> (sync.admits(response) <==> sync.phase is Idle && sync.imported_bytes
            + response.proof_bytes.len() <= u64::MAX),
        !sync.skip_proof ==> (sync.accepts(response) <==> sync.admits(response)),
        sync.skip_proof ==> (sync.admits(response) <==> sync.phase is Idle && sync.imported_bytes
            + total_bytes(response.entries) <= u64::MAX && !(sync.last_key.len() == 2
            && response.entries.len() == 0 && response.proof_bytes.len() > 0)),
        sync.skip_proof ==> (sync.accepts(response) <==> sync.phase is Idle && sync.imported_bytes
            + levels_bytes(sync.state, response.entries) <= u64::MAX && !(sync.last_key.len() == 2
            && response.entries.len() == 0 && response.proof_bytes.len() > 0)),
{
}

/// A sync takes a response whenever it accepts it, an answer whenever it has asked, and the news
/// that a batch is written whenever it has handed one out.
pub proof fn law_when_a_sync_goes_on<B: Block>(sync: StateSync<B>, response: StateResponse)
    ensures
        sync.accepts(response) <==> sync@.accepts(response@),
        sync.asks() <==> sync@.phase is Asking,
        sync.writes() <==> sync@.phase is Writing,
        sync.valid() <==> sync.roots_unique() && sync@.valid(),
{
}

/// What a step hands out: the target's block, header, body and justifications, with the entries,
/// and whether they have been written already; a question; a batch; or nothing.
pub proof fn law_steps_hand_out<B: Block>(
    step: ImportStep<B>,
    view: StepView,
    sync: SyncView,
    target: TargetView<B>,
)
    requires
        step_is(step, view, sync, target),
    ensures
        match step {
            ImportStep::Done(ImportResult::BadResponse) => view is BadResponse,
            ImportStep::Done(ImportResult::Continue) => view is Continue,
            ImportStep::Done(ImportResult::Import(block, header, imported, body, justifications))
                => {
                &&& view is Import
                &&& block@ == sync.target_block
                &&& imported.block@ == sync.target_block
                &&& imported.written <==> !sync.skip_proof
                &&& imported.state@ == view->Import_0
                &&& imported.state.valid()
                &&& cloned(target.header, header)
                &&& body_cloned(target.body, body)
                &&& justifications_cloned(target.justifications, justifications)
            },
            ImportStep::Lookup(path, hash) => view == StepView::Lookup(nibbles(path), hash@),
            ImportStep::Write(batch) => view == StepView::Write(batch_view(batch@)),
            ImportStep::Malformed => view is Malformed,
        },
{
}

/// A body comes back with each of its extrinsics, in order, and none where there was none. So do
/// justifications.
pub proof fn law_target_is_handed_out_whole<E: Clone, J: Clone>(
    body: Option<Vec<E>>,
    body_copy: Option<Vec<E>>,
    justifications: Option<J>,
    justifications_copy: Option<J>,
)
    ensures
        body_cloned(body, body_copy) ==> {
            &&& body is Some <==> body_copy is Some
            &&& body is Some ==> body_copy->0@.len() == body->0@.len()
            &&& forall|i: int|
                body is Some && 0 <= i < body->0@.len() ==> cloned(
                    body->0@[i],
                    #[trigger] body_copy->0@[i],
                )
        },
        justifications_cloned(justifications, justifications_copy) ==> {
            &&& justifications is Some <==> justifications_copy is Some
            &&& justifications is Some ==> cloned(justifications->0, justifications_copy->0)
        },
{
}

/// What a batch holds is what its entries hold, in order.
pub proof fn law_batches_are_read_in_order(levels: Levels, batch: HashDbEmplaceBatch, i: int)
    ensures
        batch_view(batch@).len() == batch@.len(),
        0 <= i < batch@.len() ==> {
            &&& batch_view(batch@)[i].path == nibbles(batch@[i].0)
            &&& batch_view(batch@)[i].hash == batch@[i].1@
            &&& batch_view(batch@)[i].value == batch@[i].2@
        },
        walk_view(levels, batch).batch == batch_view(batch@),
        walk_view(levels, batch).levels.len() == level_list(levels).len(),
        0 <= i < level_list(levels).len() ==> walk_view(levels, batch).levels[i] == level_list(
            levels,
        )[i]@,
{
}

/// What a level holds is what its fields hold, in order.
pub proof fn law_levels_are_read_in_order(level: Level, node: LevelNode, i: int)
    ensures
        level@.allow_child == level.allow_child,
        level@.prefix == nibbles(level.prefix),
        level@.initial_prefix_len == level.initial_prefix_len,
        level@.stack.len() == level.stack@.len(),
        0 <= i < level.stack@.len() ==> level@.stack[i] == level.stack@[i]@,
        node@.hash == node.hash@,
        node@.encoded == node.encoded@,
        node@.prefix_nibbles == node.prefix_nibbles,
        node@.branches.len() == branch_list(node.branches).len(),
        0 <= i < branch_list(node.branches).len() ==> node@.branches[i].0 == branch_list(
            node.branches,
        )[i].0 && node@.branches[i].1 == branch_list(node.branches)[i].1@,
        match level.state {
            LevelState::Root(hash) => level@.state == LevelStateView::Root(hash@),
            LevelState::ChildHash(path, hash) => level@.state == LevelStateView::ChildHash(
                nibbles(path),
                hash@,
            ),
            LevelState::ValueHash(hash) => level@.state == LevelStateView::ValueHash(hash@),
            LevelState::Value => level@.state is Value,
            LevelState::Branch(hash) => level@.state == LevelStateView::Branch(hash@),
            LevelState::Pop => level@.state is Pop,
            LevelState::End => level@.state is End,
        },
{
}

/// What a decoded node holds is what its fields hold, slot by slot.
pub proof fn law_nodes_are_read_slot_by_slot(
    node: TrieNode,
    children: [Option<ChildHandle>; 16],
    slot: int,
)
    ensures
        children_view(children).len() == 16,
        0 <= slot < 16 ==> match children[slot] {
            Some(ChildHandle::Hash(hash)) => children_view(children)[slot] == Some(
                ChildView::Hash(hash@),
            ),
            Some(ChildHandle::Inline(child)) => children_view(children)[slot] == Some(
                ChildView::Inline(child@),
            ),
            None => children_view(children)[slot] is None,
        },
        match node {
            TrieNode::Empty => node@ is Empty,
            TrieNode::Extension => node@ is Extension,
            TrieNode::Leaf(partial, NodeValue::Inline(value)) => node@ == NodeView::Leaf(
                partial@,
                ValueView::Inline(value@),
            ),
            TrieNode::Leaf(partial, NodeValue::Node(hash)) => node@ == NodeView::Leaf(
                partial@,
                ValueView::Node(hash@),
            ),
            TrieNode::Branch(slots, value) => node@.children() == children_view(slots)
                && value is Some == node@.value() is Some && node@ is Branch,
            TrieNode::NibbledBranch(partial, slots, value) => node@.children() == children_view(
                slots,
            ) && value is Some == node@.value() is Some && node@.partial() == partial@
                && node@ is NibbledBranch,
        },
        match node {
            TrieNode::Branch(_, Some(NodeValue::Inline(value))) => node@.value() == Some(
                ValueView::Inline(value@),
            ),
            TrieNode::Branch(_, Some(NodeValue::Node(hash))) => node@.value() == Some(
                ValueView::Node(hash@),
            ),
            TrieNode::NibbledBranch(_, _, Some(NodeValue::Inline(value))) => node@.value() == Some(
                ValueView::Inline(value@),
            ),
            TrieNode::NibbledBranch(_, _, Some(NodeValue::Node(hash))) => node@.value() == Some(
                ValueView::Node(hash@),
            ),
            _ => true,
        },
{
}

} // verus!
