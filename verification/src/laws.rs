//! What holds of a state sync over several calls.

use vstd::prelude::*;

use crate::keys::is_child_key;
use crate::level::{LevelStateView, LevelView};
use crate::node::{hashed_children, NodeView};
use crate::schema::{KeyValueStateEntryView, StateResponseView};
use crate::storage::{
    child_entries, contents_of, kept_entries, levels_bytes, names_child, takes, with_level,
    with_levels, with_parents, TrieContents,
};
use crate::sync_view::{PhaseView, StepView, SyncView};
use crate::walk::{
    lemma_move_keeps_valid, lemma_node_order, lemma_node_start_agrees, lemma_silent_move_decreases,
    levels_valid, question, root_total,
    settle, work_total, AdvanceView, WalkView,
};

verus! {

/// A bad response changes nothing.
pub proof fn law_bad_response_changes_nothing(sync: SyncView, response: StateResponseView)
    requires
        sync.import(response).1 is BadResponse,
    ensures
        sync.import(response).0 == sync,
{
}

/// A sync is complete from the step on that hands out the state, and stays complete.
pub proof fn law_complete_with_import(sync: SyncView, response: StateResponseView, known: bool)
    ensures
        sync.import(response).0.complete == (sync.complete || sync.import(response).1 is Import),
        sync.resume(known).0.complete == sync.complete,
        sync.resume(known).1 !is Import,
        sync.written().0.complete == (sync.complete || sync.written().1 is Import),
{
}

/// The number of imported bytes never shrinks, and nothing but a response makes it grow.
pub proof fn law_imported_bytes_grow(sync: SyncView, response: StateResponseView, known: bool)
    ensures
        sync.import(response).0.imported_bytes >= sync.imported_bytes,
        sync.resume(known).0.imported_bytes == sync.imported_bytes,
        sync.written().0.imported_bytes == sync.imported_bytes,
{
}

/// The target never changes, nor does the way in which its state is asked for.
pub proof fn law_target_is_kept(sync: SyncView, response: StateResponseView, known: bool)
    ensures
        ({
            let nexts = seq![sync.import(response).0, sync.resume(known).0, sync.written().0];
            forall|i: int|
                0 <= i < nexts.len() ==> {
                    &&& (#[trigger] nexts[i]).target_block == sync.target_block
                    &&& nexts[i].target_root == sync.target_root
                    &&& nexts[i].null_hash == sync.null_hash
                    &&& nexts[i].skip_proof == sync.skip_proof
                }
        }),
{
}

/// The estimate never reaches a hundred percent.
pub proof fn law_percentage_below_hundred(sync: SyncView)
    ensures
        0 <= sync.cursor() * 100 / 256 < 100,
{
}

/// With proofs, a sync hands out no entries: they have all been written.
pub proof fn law_proofs_leave_no_entries(sync: SyncView, response: StateResponseView)
    requires
        sync.valid(),
        !sync.skip_proof,
    ensures
        sync.import(response).1 !is Import,
        sync.written().1 matches StepView::Import(state) ==> state == Map::<
            Seq<u8>,
            TrieContents,
        >::empty(),
{
}

/// Where all that arrives belongs to a child trie, the position in the top trie stays.
pub proof fn law_parent_cursor_stays(sync: SyncView, levels: Seq<KeyValueStateEntryView>)
    requires
        sync.last_key.len() == 2,
        levels.len() > 0,
        levels[0].entries.len() == 0,
    ensures
        sync.import_entries(levels).0.last_key.len() > 0,
        sync.import_entries(levels).0.last_key[0] == sync.last_key[0],
{
}

/// Entries that arrive in two responses add up to the same state, and to the same number of bytes,
/// as if they had arrived in one.
pub proof fn law_entries_add_up(
    state: Map<Seq<u8>, TrieContents>,
    first: Seq<KeyValueStateEntryView>,
    second: Seq<KeyValueStateEntryView>,
)
    ensures
        with_levels(state, first + second) == with_levels(with_levels(state, first), second),
        levels_bytes(state, first + second) == levels_bytes(state, first) + levels_bytes(
            with_levels(state, first),
            second,
        ),
    decreases second.len(),
{
    if second.len() > 0 {
        law_entries_add_up(state, first, second.drop_last());
        assert((first + second).drop_last() =~= first + second.drop_last());
    }
}

/// A trie whose root several keys hold is taken once: when its entries arrive again, the state
/// stays as it is.
pub proof fn law_shared_trie_is_taken_once(
    state: Map<Seq<u8>, TrieContents>,
    level: KeyValueStateEntryView,
)
    requires
        state.contains_key(level.state_root),
        state[level.state_root].key_values.len() > 0,
        state[level.state_root].parents.len() > 1,
    ensures
        with_level(state, level) == state,
        with_levels(state, seq![level]) == state,
        levels_bytes(state, seq![level]) == 0,
{
    reveal_with_fuel(with_levels, 2);
    reveal_with_fuel(levels_bytes, 2);
}

/// Whether the top trie has no entries that name child tries, and tries are held by such keys only.
pub open spec fn tidy(state: Map<Seq<u8>, TrieContents>) -> bool {
    &&& forall|i: int|
        state.contains_key(Seq::empty()) && 0 <= i < state[Seq::empty()].key_values.len()
            ==> !is_child_key((#[trigger] state[Seq::<u8>::empty()].key_values[i]).0)
    &&& forall|root: Seq<u8>, i: int|
        state.contains_key(root) && 0 <= i < state[root].parents.len() ==> is_child_key(
            #[trigger] state[root].parents[i],
        )
}

/// What a filter lets through is what it asks for.
proof fn lemma_filtered(root: Seq<u8>, entries: Seq<(Seq<u8>, Seq<u8>)>)
    ensures
        forall|i: int|
            0 <= i < kept_entries(root, entries).len() ==> !names_child(
                root,
                (#[trigger] kept_entries(root, entries)[i]).0,
            ),
        forall|i: int|
            0 <= i < child_entries(root, entries).len() ==> names_child(
                root,
                (#[trigger] child_entries(root, entries)[i]).0,
            ),
        forall|i: int|
            0 <= i < entries.len() ==> if names_child(root, (#[trigger] entries[i]).0) {
                child_entries(root, entries).contains(entries[i])
            } else {
                kept_entries(root, entries).contains(entries[i])
            },
    decreases entries.len(),
{
    reveal(Seq::filter);
    if entries.len() > 0 {
        lemma_filtered(root, entries.drop_last());
    }
}

/// Whether nothing of one state is lost in another: what has arrived of each trie stays in front.
pub open spec fn extends(
    before: Map<Seq<u8>, TrieContents>,
    after: Map<Seq<u8>, TrieContents>,
) -> bool {
    forall|root: Seq<u8>| #[trigger]
        before.contains_key(root) ==> {
            &&& after.contains_key(root)
            &&& before[root].key_values.is_prefix_of(after[root].key_values)
            &&& before[root].parents.is_prefix_of(after[root].parents)
        }
}

/// Adding parents keeps a state tidy and loses nothing.
proof fn lemma_with_parents(
    state: Map<Seq<u8>, TrieContents>,
    children: Seq<(Seq<u8>, Seq<u8>)>,
)
    requires
        forall|i: int| 0 <= i < children.len() ==> is_child_key((#[trigger] children[i]).0),
    ensures
        tidy(state) ==> tidy(with_parents(state, children)),
        extends(state, with_parents(state, children)),
        forall|i: int|
            0 <= i < children.len() ==> {
                &&& with_parents(state, children).contains_key((#[trigger] children[i]).1)
                &&& with_parents(state, children)[children[i].1].parents.contains(children[i].0)
            },
    decreases children.len(),
{
    let after = with_parents(state, children);
    if children.len() > 0 {
        let before = with_parents(state, children.drop_last());
        let (key, root) = children.last();
        lemma_with_parents(state, children.drop_last());
        let parents = contents_of(before, root).parents;
        assert forall|i: int| 0 <= i < children.len() implies after.contains_key(
            (#[trigger] children[i]).1,
        ) && after[children[i].1].parents.contains(children[i].0) by {
            if i < children.len() - 1 {
                let earlier = children.drop_last()[i];
                let j = choose|j: int|
                    0 <= j < before[earlier.1].parents.len() && before[earlier.1].parents[j]
                        == earlier.0;
                assert(after[earlier.1].parents[j] == earlier.0);
            } else {
                assert(after[root].parents[parents.len() as int] == key);
            }
        }
    }
}

/// Adding the entries of one trie keeps a state tidy and loses nothing.
proof fn lemma_with_level(state: Map<Seq<u8>, TrieContents>, level: KeyValueStateEntryView)
    ensures
        tidy(state) ==> tidy(with_level(state, level)),
        extends(state, with_level(state, level)),
{
    let root = level.state_root;
    let contents = contents_of(state, root);
    let children = child_entries(root, level.entries);
    lemma_filtered(root, level.entries);
    if takes(contents) {
        let key_values = contents.key_values + kept_entries(root, level.entries);
        let taken = state.insert(root, TrieContents { key_values, ..contents });
        lemma_with_parents(taken, children);
        assert forall|other: Seq<u8>| #[trigger] state.contains_key(other) implies {
            &&& with_level(state, level).contains_key(other)
            &&& state[other].key_values.is_prefix_of(with_level(state, level)[other].key_values)
            &&& state[other].parents.is_prefix_of(with_level(state, level)[other].parents)
        } by {
            assert(taken.contains_key(other));
        }
    }
}

/// The top trie's entries never name child tries: such entries become parents of the child tries
/// instead, and nothing else does.
pub proof fn law_entries_stay_tidy(
    state: Map<Seq<u8>, TrieContents>,
    levels: Seq<KeyValueStateEntryView>,
)
    requires
        tidy(state),
    ensures
        tidy(with_levels(state, levels)),
    decreases levels.len(),
{
    if levels.len() > 0 {
        law_entries_stay_tidy(state, levels.drop_last());
        lemma_with_level(with_levels(state, levels.drop_last()), levels.last());
    }
}

/// Nothing that has arrived is lost when more arrives.
pub proof fn law_entries_are_kept(
    state: Map<Seq<u8>, TrieContents>,
    levels: Seq<KeyValueStateEntryView>,
)
    ensures
        extends(state, with_levels(state, levels)),
    decreases levels.len(),
{
    if levels.len() > 0 {
        let before = with_levels(state, levels.drop_last());
        law_entries_are_kept(state, levels.drop_last());
        lemma_with_level(before, levels.last());
    }
}

/// Everything that arrives has its place: an entry that names a child trie is among the parents of
/// that trie, and any other is among the entries of its own trie.
pub proof fn law_entries_have_their_place(
    state: Map<Seq<u8>, TrieContents>,
    level: KeyValueStateEntryView,
    i: int,
)
    requires
        takes(contents_of(state, level.state_root)),
        0 <= i < level.entries.len(),
    ensures
        ({
            let after = with_level(state, level);
            let (key, value) = level.entries[i];
            if names_child(level.state_root, key) {
                after.contains_key(value) && after[value].parents.contains(key)
            } else {
                after.contains_key(level.state_root)
                    && after[level.state_root].key_values.contains((key, value))
            }
        }),
{
    let root = level.state_root;
    let contents = contents_of(state, root);
    let kept = kept_entries(root, level.entries);
    let children = child_entries(root, level.entries);
    let taken = state.insert(
        root,
        TrieContents { key_values: contents.key_values + kept, ..contents },
    );
    let entry = level.entries[i];
    lemma_filtered(root, level.entries);
    lemma_with_parents(taken, children);
    if !names_child(root, entry.0) {
        let j = choose|j: int| 0 <= j < kept.len() && kept[j] == entry;
        assert(taken.contains_key(root));
        assert(taken[root].key_values[contents.key_values.len() + j] == entry);
    }
}

/// The entries of the trie with root `root` that are kept, chunk by chunk.
pub open spec fn chunks(levels: Seq<KeyValueStateEntryView>, root: Seq<u8>) -> Seq<
    (Seq<u8>, Seq<u8>),
>
    decreases levels.len(),
{
    if levels.len() == 0 {
        Seq::empty()
    } else if levels.last().state_root == root {
        chunks(levels.drop_last(), root) + kept_entries(root, levels.last().entries)
    } else {
        chunks(levels.drop_last(), root)
    }
}

/// The entries of the trie with root `root` that are kept, chunk by chunk, without the chunks that
/// are not taken.
pub open spec fn taken_chunks(
    state: Map<Seq<u8>, TrieContents>,
    levels: Seq<KeyValueStateEntryView>,
    root: Seq<u8>,
) -> Seq<(Seq<u8>, Seq<u8>)>
    decreases levels.len(),
{
    if levels.len() == 0 {
        Seq::empty()
    } else {
        let front = levels.drop_last();
        let before = taken_chunks(state, front, root);
        if levels.last().state_root == root && takes(contents_of(with_levels(state, front), root)) {
            before + kept_entries(root, levels.last().entries)
        } else {
            before
        }
    }
}

/// The keys of those of `children` that hold `root`.
pub open spec fn naming_keys(children: Seq<(Seq<u8>, Seq<u8>)>, root: Seq<u8>) -> Seq<Seq<u8>>
    decreases children.len(),
{
    if children.len() == 0 {
        Seq::empty()
    } else if children.last().1 == root {
        naming_keys(children.drop_last(), root).push(children.last().0)
    } else {
        naming_keys(children.drop_last(), root)
    }
}

/// The keys of the top trie that name a child trie and hold `root`, in the order in which they have
/// arrived.
pub open spec fn parent_keys(levels: Seq<KeyValueStateEntryView>, root: Seq<u8>) -> Seq<Seq<u8>>
    decreases levels.len(),
{
    if levels.len() == 0 {
        Seq::empty()
    } else {
        let level = levels.last();
        parent_keys(levels.drop_last(), root) + naming_keys(
            child_entries(level.state_root, level.entries),
            root,
        )
    }
}

/// The keys of the top trie that name a child trie and hold `root`, in the order in which they have
/// arrived, without the chunks that are not taken.
pub open spec fn taken_parent_keys(
    state: Map<Seq<u8>, TrieContents>,
    levels: Seq<KeyValueStateEntryView>,
    root: Seq<u8>,
) -> Seq<Seq<u8>>
    decreases levels.len(),
{
    if levels.len() == 0 {
        Seq::empty()
    } else {
        let front = levels.drop_last();
        let level = levels.last();
        let before = taken_parent_keys(state, front, root);
        if takes(contents_of(with_levels(state, front), level.state_root)) {
            before + naming_keys(child_entries(level.state_root, level.entries), root)
        } else {
            before
        }
    }
}

/// Adding parents leaves the entries as they are, and adds each key to the trie that it names.
proof fn lemma_parents_added(
    state: Map<Seq<u8>, TrieContents>,
    children: Seq<(Seq<u8>, Seq<u8>)>,
    root: Seq<u8>,
)
    ensures
        contents_of(with_parents(state, children), root).key_values == contents_of(
            state,
            root,
        ).key_values,
        contents_of(with_parents(state, children), root).parents == contents_of(state, root).parents
            + naming_keys(children, root),
    decreases children.len(),
{
    if children.len() > 0 {
        lemma_parents_added(state, children.drop_last(), root);
    }
}

/// What one chunk adds to the trie with root `root`.
pub(crate) proof fn lemma_level_added(
    state: Map<Seq<u8>, TrieContents>,
    level: KeyValueStateEntryView,
    root: Seq<u8>,
)
    ensures
        ({
            let before = contents_of(state, root);
            let after = contents_of(with_level(state, level), root);
            let kept = kept_entries(root, level.entries);
            let names = naming_keys(child_entries(level.state_root, level.entries), root);
            let taken = takes(contents_of(state, level.state_root));
            &&& after.key_values == if taken && level.state_root == root {
                before.key_values + kept
            } else {
                before.key_values
            }
            &&& after.parents == if taken {
                before.parents + names
            } else {
                before.parents
            }
        }),
{
    let contents = contents_of(state, level.state_root);
    if takes(contents) {
        let key_values = contents.key_values + kept_entries(level.state_root, level.entries);
        let taken = state.insert(level.state_root, TrieContents { key_values, ..contents });
        lemma_parents_added(taken, child_entries(level.state_root, level.entries), root);
    }
}

/// The entries of each trie are the chunks of it that were taken, one behind the other. Where at
/// most one key names the trie, they are all its chunks.
pub proof fn law_entries_are_chunks(
    state: Map<Seq<u8>, TrieContents>,
    levels: Seq<KeyValueStateEntryView>,
    root: Seq<u8>,
)
    ensures
        contents_of(with_levels(state, levels), root).key_values == contents_of(
            state,
            root,
        ).key_values + taken_chunks(state, levels, root),
        contents_of(with_levels(state, levels), root).parents.len() <= 1 ==> taken_chunks(
            state,
            levels,
            root,
        ) == chunks(levels, root),
    decreases levels.len(),
{
    if levels.len() > 0 {
        let before = with_levels(state, levels.drop_last());
        law_entries_are_chunks(state, levels.drop_last(), root);
        lemma_level_added(before, levels.last(), root);
    }
}

/// The parents of each trie are the keys of the top trie that name a child trie and hold its root,
/// in the order in which they were taken. Where at most one key names the top trie's own root, they
/// are all those keys.
pub proof fn law_parents_are_naming_keys(
    state: Map<Seq<u8>, TrieContents>,
    levels: Seq<KeyValueStateEntryView>,
    root: Seq<u8>,
)
    ensures
        contents_of(with_levels(state, levels), root).parents == contents_of(state, root).parents
            + taken_parent_keys(state, levels, root),
        contents_of(with_levels(state, levels), Seq::empty()).parents.len() <= 1
            ==> taken_parent_keys(state, levels, root) == parent_keys(levels, root),
    decreases levels.len(),
{
    if levels.len() > 0 {
        let before = with_levels(state, levels.drop_last());
        let level = levels.last();
        law_parents_are_naming_keys(state, levels.drop_last(), root);
        lemma_level_added(before, level, root);
        lemma_level_added(before, level, Seq::empty());
        if level.state_root.len() == 0 {
            assert(level.state_root =~= Seq::<u8>::empty());
        } else {
            lemma_filtered(level.state_root, level.entries);
            let children = child_entries(level.state_root, level.entries);
            assert(children.len() == 0) by {
                if children.len() > 0 {
                    assert(names_child(level.state_root, children[0].0));
                }
            }
        }
    }
}

/// The walk after `n` times going on to the next branch.
pub open spec fn next_branches(level: LevelView, n: nat) -> LevelView
    decreases n,
{
    if n == 0 {
        level
    } else {
        next_branches(level, (n - 1) as nat).next_branch()
    }
}

/// The walk at the `n`th branch of a node.
proof fn lemma_nth_branch(inside: LevelView, n: nat)
    requires
        inside.state.is_value(),
        inside.stack.len() > 0,
        0 < n <= inside.stack.last().branches.len(),
    ensures
        ({
            let level = next_branches(inside, n);
            &&& level.state is Branch
            &&& level.prefix.len() == inside.prefix.len() + 1
            &&& level.prefix.drop_last() == inside.prefix
            &&& level.stack.len() == inside.stack.len()
            &&& level.stack.last().prefix_nibbles == inside.stack.last().prefix_nibbles
            &&& level.stack.last().branches.len() == inside.stack.last().branches.len() - n
        }),
    decreases n,
{
    reveal_with_fuel(next_branches, 2);
    if n > 1 {
        lemma_nth_branch(inside, (n - 1) as nat);
    }
}

/// Going into a node, through all of its branches and out of it again leads back to where it was
/// found.
pub proof fn law_leaving_returns(level: LevelView, encoded: Seq<u8>, node: NodeView)
    ensures
        ({
            let branches = hashed_children(node.children()).len();
            let left = next_branches(level.push(encoded, node), branches + 1);
            &&& left.state is End
            &&& left.prefix == level.prefix
        }),
{
    let inside = level.push(encoded, node);
    let branches = hashed_children(node.children()).len();
    if branches > 0 {
        lemma_nth_branch(inside, branches);
    } else {
        assert(next_branches(inside, 0) == inside);
    }
}

/// Whether the path of a level that began at a path of `start` nibbles has the length that the
/// nodes on the stack give it.
pub open spec fn path_fits(level: LevelView, start: nat) -> bool {
    let last = level.stack.len() - 1;
    let len = level.prefix.len() + 2 * level.initial_prefix_len;
    match level.state {
        LevelStateView::Root(_) => level.stack.len() == 0 && level.prefix.len() == start,
        LevelStateView::Branch(_) => last >= 0 && len == start + level.node_end(last) + 1,
        LevelStateView::Pop => last >= 0 && len == start + level.node_end(last) + 1,
        LevelStateView::End => last >= 0 && len == start + level.node_start(last),
        _ => last >= 0 && len == start + level.node_end(last),
    }
}

/// A level begins with the path that it is given, whether that has whole bytes or not.
pub proof fn law_path_length_of_new(allow_child: bool, prefix: Seq<u8>, root: Seq<u8>)
    ensures
        path_fits(LevelView::new(allow_child, prefix, root), prefix.len()),
{
}

/// The path always has the length that its beginning and the nodes on the stack give it, whether it
/// began with whole bytes or not.
pub proof fn law_path_length_is_kept(
    level: LevelView,
    start: nat,
    encoded: Seq<u8>,
    node: NodeView,
)
    requires
        path_fits(level, start),
    ensures
        level.state is Root || level.state is Branch ==> path_fits(
            level.push(encoded, node),
            start,
        ),
        level.state.is_value() || level.state.is_branch() ==> path_fits(level.next_branch(), start),
        level.state is End && level.stack.len() > 1 ==> path_fits(level.pop(), start),
{
    let last = level.stack.len() - 1;
    if level.state is Root || level.state is Branch {
        lemma_node_start_agrees(level, level.push(encoded, node), last + 1);
    }
    if level.state.is_value() || level.state.is_branch() {
        lemma_next_branch_fits(level, start);
    }
    if level.state is End && level.stack.len() > 1 {
        let above = LevelView {
            stack: level.stack.drop_last(),
            state: LevelStateView::Pop,
            ..level
        };
        lemma_node_start_agrees(level, above, last - 1);
        lemma_next_branch_fits(above, start);
    }
}

/// Going on to the next branch keeps the length of the path.
proof fn lemma_next_branch_fits(level: LevelView, start: nat)
    requires
        path_fits(level, start),
        level.state.is_value() || level.state.is_branch(),
    ensures
        path_fits(level.next_branch(), start),
{
    let last = level.stack.len() - 1;
    lemma_node_start_agrees(level, level.next_branch(), last);
    lemma_node_order(level, last, last + 1);
}

/// From a value or a branch, the walk goes on to the next branch or to the end of the node.
pub proof fn law_next_branch_states(level: LevelView)
    ensures
        level.next_branch().state is Branch || level.next_branch().state is End,
{
}

/// From the root or a branch, the walk goes on to the value of the node there.
pub proof fn law_push_states(level: LevelView, encoded: Seq<u8>, node: NodeView)
    ensures
        level.push(encoded, node).state.is_value(),
{
}

/// From the end of a node, the walk goes on to the next branch or to the end of the node above.
pub proof fn law_pop_states(level: LevelView)
    requires
        level.state is End,
    ensures
        level.pop().state is Branch || level.pop().state is End,
{
}

/// The walk stops early only where the proof ends: at a root that the proof does not hold.
pub proof fn law_walk_stops_where_proof_ends(
    walk: WalkView,
    nodes: Map<Seq<u8>, Seq<u8>>,
    null_hash: Seq<u8>,
)
    requires
        levels_valid(walk.levels),
    ensures
        ({
            let (paused, pause) = settle(walk, nodes, null_hash);
            pause is Stop && paused.levels.len() > 0 ==> {
                &&& paused.levels.last().state is Root
                &&& !nodes.contains_key(paused.levels.last().state.node_hash())
            }
        }),
    decreases root_total(walk.levels), work_total(walk.levels),
{
    if walk.levels.len() > 0 && question(walk.levels.last(), null_hash) is None {
        if let AdvanceView::Moved(next) = walk.advance(nodes, true) {
            lemma_move_keeps_valid(walk, nodes, true, next);
            lemma_silent_move_decreases(walk, nodes, next);
            law_walk_stops_where_proof_ends(next, nodes, null_hash);
        }
    }
}

/// An import ends before the walk is over only where the proof does: it does not hold what comes
/// next, and the client does not have it either.
pub proof fn law_import_stops_where_proof_ends(sync: SyncView, known: bool)
    requires
        sync.valid(),
        sync.phase is Asking,
    ensures
        sync.resume(known).1 is Write && sync.resume(known).0.levels.len() > 0 ==> {
            let level = sync.resume(known).0.levels.last();
            let nodes = sync.phase->nodes;
            ||| level.state is Root && !nodes.contains_key(level.state.node_hash())
            ||| !known && (question(level, sync.null_hash) matches Some((_, hash))
                && !nodes.contains_key(hash))
        },
{
    if let PhaseView::Asking { nodes, batch } = sync.phase {
        let walk = WalkView { levels: sync.levels, batch };
        if let AdvanceView::Moved(next) = walk.advance(nodes, known) {
            lemma_move_keeps_valid(walk, nodes, known, next);
            law_walk_stops_where_proof_ends(next, nodes, sync.null_hash);
        }
    }
}

} // verus!
