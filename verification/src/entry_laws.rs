//! What arrives without a proof, said entry by entry.

use vstd::prelude::*;

use crate::keys::is_child_key;
use crate::laws::lemma_level_added;
use crate::schema::{
    entries_view, levels_view, KeyValueStateEntry, KeyValueStateEntryView, StateEntry,
    StateResponse,
};
use crate::storage::{
    child_entries, contents_of, entry_bytes, kept_entries, lemma_next_entry, lemma_root_index,
    level_bytes, levels_bytes, takes, total_bytes, with_level, with_levels, with_parents,
    KeyValueStates, TrieContents,
};

verus! {

/// The entries of the trie with root `root`: none, where nothing has arrived of it.
pub open spec fn entries_at(state: Map<Seq<u8>, TrieContents>, root: Seq<u8>) -> Seq<
    (Seq<u8>, Seq<u8>),
> {
    if state.contains_key(root) {
        state[root].key_values
    } else {
        Seq::empty()
    }
}

/// The keys that name the trie with root `root`: none, where nothing has arrived of it.
pub open spec fn parents_at(state: Map<Seq<u8>, TrieContents>, root: Seq<u8>) -> Seq<Seq<u8>> {
    if state.contains_key(root) {
        state[root].parents
    } else {
        Seq::empty()
    }
}

/// Whether the entries of a trie have arrived before and several keys name it.
pub open spec fn shared(state: Map<Seq<u8>, TrieContents>, root: Seq<u8>) -> bool {
    entries_at(state, root).len() > 0 && parents_at(state, root).len() > 1
}

/// A chunk with one more entry.
pub open spec fn longer(
    level: KeyValueStateEntryView,
    key: Seq<u8>,
    value: Seq<u8>,
) -> KeyValueStateEntryView {
    KeyValueStateEntryView { entries: level.entries.push((key, value)), ..level }
}

/// What is kept of one more entry, and what names a child trie.
proof fn lemma_longer(level: KeyValueStateEntryView, key: Seq<u8>, value: Seq<u8>)
    ensures
        ({
            let root = level.state_root;
            let more = longer(level, key, value);
            let kept = kept_entries(root, level.entries);
            let children = child_entries(root, level.entries);
            if root.len() == 0 && is_child_key(key) {
                &&& kept_entries(root, more.entries) == kept
                &&& child_entries(root, more.entries) == children.push((key, value))
            } else {
                &&& kept_entries(root, more.entries) == kept.push((key, value))
                &&& child_entries(root, more.entries) == children
                &&& entry_bytes(kept_entries(root, more.entries)) == entry_bytes(kept) + key.len()
                    + value.len()
            }
        }),
{
    let all = longer(level, key, value).entries;
    let n = level.entries.len() as int;
    lemma_next_entry(level.state_root, all, n);
    assert(all.take(n) =~= level.entries);
    assert(all.take(n + 1) =~= all);
}

/// Which tries there are after parents have been added does not depend on what they hold.
proof fn lemma_same_tries(
    left: Map<Seq<u8>, TrieContents>,
    right: Map<Seq<u8>, TrieContents>,
    children: Seq<(Seq<u8>, Seq<u8>)>,
)
    requires
        left.dom() == right.dom(),
    ensures
        with_parents(left, children).dom() == with_parents(right, children).dom(),
    decreases children.len(),
{
    if children.len() > 0 {
        lemma_same_tries(left, right, children.drop_last());
    }
}

/// A chunk without entries adds nothing but the trie itself.
pub proof fn law_chunk_without_entries(
    state: Map<Seq<u8>, TrieContents>,
    level: KeyValueStateEntryView,
    root: Seq<u8>,
)
    requires
        level.entries.len() == 0,
    ensures
        entries_at(with_level(state, level), root) == entries_at(state, root),
        parents_at(with_level(state, level), root) == parents_at(state, root),
        with_level(state, level).contains_key(root) <==> state.contains_key(root) || root
            == level.state_root,
        level_bytes(state, level) == 0,
{
    reveal(Seq::filter);
    lemma_level_added(state, level, root);
}

/// One more entry in a chunk goes behind the entries of its trie, with its bytes counted, unless
/// its key names a child trie: then the key goes behind those that name that trie, and nothing is
/// counted. Nothing else changes, and nothing at all where the trie is shared and has arrived
/// before.
pub proof fn law_one_more_entry(
    state: Map<Seq<u8>, TrieContents>,
    level: KeyValueStateEntryView,
    key: Seq<u8>,
    value: Seq<u8>,
    root: Seq<u8>,
)
    ensures
        ({
            let before = with_level(state, level);
            let after = with_level(state, longer(level, key, value));
            let taken = !shared(state, level.state_root);
            let names_child = level.state_root.len() == 0 && is_child_key(key);
            &&& entries_at(after, root) == if taken && !names_child && root == level.state_root {
                entries_at(before, root).push((key, value))
            } else {
                entries_at(before, root)
            }
            &&& parents_at(after, root) == if taken && names_child && root == value {
                parents_at(before, root).push(key)
            } else {
                parents_at(before, root)
            }
            &&& after.contains_key(root) <==> before.contains_key(root) || (taken && names_child
                && root == value)
            &&& level_bytes(state, longer(level, key, value)) == level_bytes(state, level)
                + if taken && !names_child {
                key.len() + value.len()
            } else {
                0
            }
        }),
{
    let more = longer(level, key, value);
    let own = level.state_root;
    let contents = contents_of(state, own);
    lemma_longer(level, key, value);
    lemma_level_added(state, level, root);
    lemma_level_added(state, more, root);
    if takes(contents) {
        let children = child_entries(own, level.entries);
        let kept = kept_entries(own, level.entries);
        let short = state.insert(
            own,
            TrieContents { key_values: contents.key_values + kept, ..contents },
        );
        let long = state.insert(
            own,
            TrieContents {
                key_values: contents.key_values + kept_entries(own, more.entries),
                ..contents
            },
        );
        lemma_same_tries(short, long, children);
        if own.len() == 0 && is_child_key(key) {
            let all = children.push((key, value));
            assert(all.drop_last() =~= children);
        }
    }
}

/// Tries are added one behind the other, and their bytes add up.
pub proof fn law_one_more_chunk(
    state: Map<Seq<u8>, TrieContents>,
    levels: Seq<KeyValueStateEntryView>,
    level: KeyValueStateEntryView,
)
    ensures
        with_levels(state, Seq::empty()) == state,
        levels_bytes(state, Seq::empty()) == 0,
        with_levels(state, levels.push(level)) == with_level(with_levels(state, levels), level),
        levels_bytes(state, levels.push(level)) == levels_bytes(state, levels) + level_bytes(
            with_levels(state, levels),
            level,
        ),
{
    assert(levels.push(level).drop_last() =~= levels);
}

/// Every key and every value counts in all that has arrived, whether it is kept or not.
pub proof fn law_total_bytes(
    levels: Seq<KeyValueStateEntryView>,
    level: KeyValueStateEntryView,
    key: Seq<u8>,
    value: Seq<u8>,
)
    ensures
        total_bytes(Seq::empty()) == 0,
        level.entries.len() == 0 ==> total_bytes(levels.push(level)) == total_bytes(levels),
        total_bytes(levels.push(longer(level, key, value))) == total_bytes(levels.push(level))
            + key.len() + value.len(),
{
    let more = longer(level, key, value);
    assert(levels.push(level).drop_last() =~= levels);
    assert(levels.push(more).drop_last() =~= levels);
    assert(more.entries.drop_last() =~= level.entries);
}

/// What requests, responses and states hold is what their fields hold, in order.
pub proof fn law_responses_are_read_in_order(
    entries: Seq<StateEntry>,
    levels: Seq<KeyValueStateEntry>,
    response: StateResponse,
    i: int,
    j: int,
)
    ensures
        entries_view(entries).len() == entries.len(),
        0 <= i < entries.len() ==> entries_view(entries)[i].0 == entries[i].key@ && entries_view(
            entries,
        )[i].1 == entries[i].value@,
        levels_view(levels).len() == levels.len(),
        0 <= i < levels.len() ==> {
            let level = levels_view(levels)[i];
            &&& level.state_root == levels[i].state_root@
            &&& level.complete == levels[i].complete
            &&& level.entries.len() == levels[i].entries@.len()
            &&& 0 <= j < level.entries.len() ==> level.entries[j].0 == levels[i].entries@[j].key@
                && level.entries[j].1 == levels[i].entries@[j].value@
        },
        response@.proof_bytes == response.proof@,
        response@.entries.len() == response.entries@.len(),
        0 <= i < response.entries@.len() ==> response@.entries[i] == response.entries@[i]@,
{
}

/// What states hold, trie by trie: the entries and the naming keys of the one trie with each root,
/// in order.
pub proof fn law_states_hold_each_trie(states: KeyValueStates, root: Seq<u8>, i: int, j: int)
    requires
        states.valid(),
    ensures
        states@.contains_key(root) <==> exists|k: int|
            0 <= k < states.0@.len() && (#[trigger] states.0@[k]).state_root@ == root,
        0 <= i < states.0@.len() ==> {
            let level = states.0@[i];
            let held = states@[level.state_root@];
            &&& states@.contains_key(level.state_root@)
            &&& held.key_values.len() == level.key_values@.len()
            &&& held.parents.len() == level.parent_storage_keys@.len()
            &&& 0 <= j < level.key_values@.len() ==> held.key_values[j].0
                == level.key_values@[j].0@ && held.key_values[j].1 == level.key_values@[j].1@
            &&& 0 <= j < level.parent_storage_keys@.len() ==> held.parents[j]
                == level.parent_storage_keys@[j]@
        },
        forall|k: int|
            0 <= k < states.0@.len() && 0 <= i < states.0@.len() && k != i ==> (
            #[trigger] states.0@[k]).state_root@ != states.0@[i].state_root@,
{
    if 0 <= i < states.0@.len() {
        lemma_root_index(states, i);
    }
}

} // verus!
