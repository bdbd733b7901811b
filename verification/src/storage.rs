//! Entries of the state that have arrived without a proof, trie by trie.

use sp_core::storage::well_known_keys;
use vstd::prelude::*;

use crate::keys::is_child_key;
use crate::schema::{
    entries_view, levels_view, KeyValueStateEntry, KeyValueStateEntryView, StateEntry,
};

verus! {

/// The entries of one trie.
pub struct KeyValueStorageLevel {
    /// The root of the trie: empty for the top trie.
    pub state_root: Vec<u8>,
    /// The keys of the top trie that hold this root.
    pub parent_storage_keys: Vec<Vec<u8>>,
    /// Keys with their values.
    pub key_values: Vec<(Vec<u8>, Vec<u8>)>,
}

/// The entries of several tries, each root once.
pub struct KeyValueStates(pub Vec<KeyValueStorageLevel>);

/// What has arrived of one trie.
pub struct TrieContents {
    pub key_values: Seq<(Seq<u8>, Seq<u8>)>,
    pub parents: Seq<Seq<u8>>,
}

impl TrieContents {
    /// A trie of which nothing has arrived.
    pub open spec fn empty() -> TrieContents {
        TrieContents { key_values: Seq::empty(), parents: Seq::empty() }
    }
}

impl KeyValueStorageLevel {
    /// What the level holds besides its root.
    pub open spec fn contents(self) -> TrieContents {
        TrieContents {
            key_values: self.key_values.deep_view(),
            parents: self.parent_storage_keys.deep_view(),
        }
    }
}

/// Whether the trie with root `root` is among `levels`.
pub open spec fn has_root(levels: Seq<KeyValueStorageLevel>, root: Seq<u8>) -> bool {
    exists|i: int| 0 <= i < levels.len() && (#[trigger] levels[i]).state_root@ == root
}

/// The place of the trie with root `root` among `levels`.
pub open spec fn root_index(levels: Seq<KeyValueStorageLevel>, root: Seq<u8>) -> int {
    choose|i: int| 0 <= i < levels.len() && (#[trigger] levels[i]).state_root@ == root
}

impl KeyValueStates {
    /// Whether each root occurs once.
    pub open spec fn valid(self) -> bool {
        forall|i: int, j: int|
            0 <= i < j < self.0@.len() ==> (#[trigger] self.0@[i]).state_root@ != (
            #[trigger] self.0@[j]).state_root@
    }
}

impl View for KeyValueStates {
    type V = Map<Seq<u8>, TrieContents>;

    open spec fn view(&self) -> Map<Seq<u8>, TrieContents> {
        Map::new(
            |root: Seq<u8>| has_root(self.0@, root),
            |root: Seq<u8>| self.0@[root_index(self.0@, root)].contents(),
        )
    }
}

/// What has arrived of the trie with root `root`.
pub open spec fn contents_of(
    state: Map<Seq<u8>, TrieContents>,
    root: Seq<u8>,
) -> TrieContents {
    if state.contains_key(root) {
        state[root]
    } else {
        TrieContents::empty()
    }
}

/// Whether an entry of the trie with root `root` names a child trie.
pub open spec fn names_child(root: Seq<u8>, key: Seq<u8>) -> bool {
    root.len() == 0 && is_child_key(key)
}

/// The entries of the trie with root `root` that name child tries.
pub open spec fn child_entries(root: Seq<u8>, entries: Seq<(Seq<u8>, Seq<u8>)>) -> Seq<
    (Seq<u8>, Seq<u8>),
> {
    entries.filter(|entry: (Seq<u8>, Seq<u8>)| names_child(root, entry.0))
}

/// The entries of the trie with root `root` that are kept: all but those that name child tries.
pub open spec fn kept_entries(root: Seq<u8>, entries: Seq<(Seq<u8>, Seq<u8>)>) -> Seq<
    (Seq<u8>, Seq<u8>),
> {
    entries.filter(|entry: (Seq<u8>, Seq<u8>)| !names_child(root, entry.0))
}

/// The number of bytes in the keys and the values of `entries`.
pub open spec fn entry_bytes(entries: Seq<(Seq<u8>, Seq<u8>)>) -> nat
    decreases entries.len(),
{
    if entries.len() == 0 {
        0
    } else {
        entry_bytes(entries.drop_last()) + entries.last().0.len() + entries.last().1.len()
    }
}

/// The state after the key of each of `children` has been added to the parents of the child trie
/// whose root is its value.
pub open spec fn with_parents(
    state: Map<Seq<u8>, TrieContents>,
    children: Seq<(Seq<u8>, Seq<u8>)>,
) -> Map<Seq<u8>, TrieContents>
    decreases children.len(),
{
    if children.len() == 0 {
        state
    } else {
        let before = with_parents(state, children.drop_last());
        let (key, root) = children.last();
        let child = contents_of(before, root);
        before.insert(root, TrieContents { parents: child.parents.push(key), ..child })
    }
}

/// Whether the entries of a trie are taken: not where some have arrived already and several keys
/// of the top trie hold its root.
pub open spec fn takes(contents: TrieContents) -> bool {
    !(contents.key_values.len() > 0 && contents.parents.len() > 1)
}

/// The state with the entries of one trie added.
pub open spec fn with_level(
    state: Map<Seq<u8>, TrieContents>,
    level: KeyValueStateEntryView,
) -> Map<Seq<u8>, TrieContents> {
    let root = level.state_root;
    let contents = contents_of(state, root);
    if takes(contents) {
        let key_values = contents.key_values + kept_entries(root, level.entries);
        with_parents(
            state.insert(root, TrieContents { key_values, ..contents }),
            child_entries(root, level.entries),
        )
    } else {
        state.insert(root, contents)
    }
}

/// The number of bytes that one trie adds to the state: those of the entries that are taken and
/// kept. Entries that name child tries do not count.
pub open spec fn level_bytes(
    state: Map<Seq<u8>, TrieContents>,
    level: KeyValueStateEntryView,
) -> nat {
    if takes(contents_of(state, level.state_root)) {
        entry_bytes(kept_entries(level.state_root, level.entries))
    } else {
        0
    }
}

/// The state with the entries of several tries added, one after the other.
pub open spec fn with_levels(
    state: Map<Seq<u8>, TrieContents>,
    levels: Seq<KeyValueStateEntryView>,
) -> Map<Seq<u8>, TrieContents>
    decreases levels.len(),
{
    if levels.len() == 0 {
        state
    } else {
        with_level(with_levels(state, levels.drop_last()), levels.last())
    }
}

/// The number of bytes that several tries add to the state.
pub open spec fn levels_bytes(
    state: Map<Seq<u8>, TrieContents>,
    levels: Seq<KeyValueStateEntryView>,
) -> nat
    decreases levels.len(),
{
    if levels.len() == 0 {
        0
    } else {
        levels_bytes(state, levels.drop_last()) + level_bytes(
            with_levels(state, levels.drop_last()),
            levels.last(),
        )
    }
}

/// The number of bytes in all keys and values of several tries, whether they are kept or not.
pub open spec fn total_bytes(levels: Seq<KeyValueStateEntryView>) -> nat
    decreases levels.len(),
{
    if levels.len() == 0 {
        0
    } else {
        total_bytes(levels.drop_last()) + entry_bytes(levels.last().entries)
    }
}

/// A root that occurs once is found in its only place.
pub(crate) proof fn lemma_root_index(states: KeyValueStates, i: int)
    requires
        states.valid(),
        0 <= i < states.0@.len(),
    ensures
        states@.contains_key(states.0@[i].state_root@),
        states@[states.0@[i].state_root@] == states.0@[i].contents(),
{
}

/// Changing what one trie holds changes the state there and nowhere else.
proof fn lemma_update(before: KeyValueStates, after: KeyValueStates, i: int)
    requires
        before.valid(),
        0 <= i < before.0@.len(),
        after.0@.len() == before.0@.len(),
        after.0@[i].state_root@ == before.0@[i].state_root@,
        forall|j: int| 0 <= j < before.0@.len() && j != i ==> (#[trigger] after.0@[j])
            == before.0@[j],
    ensures
        after.valid(),
        after@ == before@.insert(before.0@[i].state_root@, after.0@[i].contents()),
{
    let root = before.0@[i].state_root@;
    lemma_root_index(after, i);
    assert forall|other: Seq<u8>| #![auto] after@.contains_key(other) == before@.insert(
        root,
        after.0@[i].contents(),
    ).contains_key(other) by {
        lemma_root_index(before, i);
        if has_root(before.0@, other) {
            let j = root_index(before.0@, other);
            assert(after.0@[j].state_root@ == other);
        }
    }
    assert forall|other: Seq<u8>| #![auto] before@.contains_key(other) && other != root implies
        after@[other] == before@[other] by {
        let j = root_index(before.0@, other);
        lemma_root_index(before, j);
        lemma_root_index(after, j);
    }
}

/// What is kept of the next entry stands behind what is kept of those before it.
pub(crate) proof fn lemma_next_entry(root: Seq<u8>, entries: Seq<(Seq<u8>, Seq<u8>)>, i: int)
    requires
        0 <= i < entries.len(),
    ensures
        names_child(root, entries[i].0) ==> kept_entries(root, entries.take(i + 1))
            == kept_entries(root, entries.take(i)) && child_entries(root, entries.take(i + 1))
            == child_entries(root, entries.take(i)).push(entries[i]),
        !names_child(root, entries[i].0) ==> kept_entries(root, entries.take(i + 1))
            == kept_entries(root, entries.take(i)).push(entries[i]) && child_entries(
            root,
            entries.take(i + 1),
        ) == child_entries(root, entries.take(i)) && entry_bytes(
            kept_entries(root, entries.take(i + 1)),
        ) == entry_bytes(kept_entries(root, entries.take(i))) + entries[i].0.len()
            + entries[i].1.len(),
{
    reveal(Seq::filter);
    assert(entries.take(i + 1).drop_last() =~= entries.take(i));
    if !names_child(root, entries[i].0) {
        assert(kept_entries(root, entries.take(i)).push(entries[i]).drop_last() =~= kept_entries(
            root,
            entries.take(i),
        ));
    }
}

/// What is kept of a front part is a front part of what is kept of the whole.
proof fn lemma_kept_bytes_grow(root: Seq<u8>, entries: Seq<(Seq<u8>, Seq<u8>)>, i: int)
    requires
        0 <= i <= entries.len(),
    ensures
        entry_bytes(kept_entries(root, entries.take(i))) <= entry_bytes(
            kept_entries(root, entries),
        ),
    decreases entries.len() - i,
{
    if i < entries.len() {
        lemma_next_entry(root, entries, i);
        lemma_kept_bytes_grow(root, entries, i + 1);
    } else {
        assert(entries.take(i) =~= entries);
    }
}

/// What is kept has no more bytes than what has arrived.
proof fn lemma_kept_bytes(root: Seq<u8>, entries: Seq<(Seq<u8>, Seq<u8>)>)
    ensures
        entry_bytes(kept_entries(root, entries)) <= entry_bytes(entries),
    decreases entries.len(),
{
    reveal(Seq::filter);
    if entries.len() > 0 {
        let i = entries.len() - 1;
        lemma_kept_bytes(root, entries.drop_last());
        lemma_next_entry(root, entries, i);
    }
}

/// Tries add no more bytes to the state than they have.
pub(crate) proof fn lemma_total_bytes(
    state: Map<Seq<u8>, TrieContents>,
    levels: Seq<KeyValueStateEntryView>,
)
    ensures
        levels_bytes(state, levels) <= total_bytes(levels),
    decreases levels.len(),
{
    if levels.len() > 0 {
        lemma_total_bytes(state, levels.drop_last());
        lemma_kept_bytes(levels.last().state_root, levels.last().entries);
    }
}

/// A front part of the entries has no more bytes than the whole.
proof fn lemma_entry_bytes_grow(entries: Seq<(Seq<u8>, Seq<u8>)>, n: int)
    requires
        0 <= n <= entries.len(),
    ensures
        entry_bytes(entries.take(n)) <= entry_bytes(entries),
    decreases entries.len() - n,
{
    if n < entries.len() {
        lemma_entry_bytes_grow(entries, n + 1);
        assert(entries.take(n + 1).drop_last() =~= entries.take(n));
    } else {
        assert(entries.take(n) =~= entries);
    }
}

/// A front part of the tries has no more bytes than the whole.
proof fn lemma_total_bytes_grow(levels: Seq<KeyValueStateEntryView>, n: int)
    requires
        0 <= n <= levels.len(),
    ensures
        total_bytes(levels.take(n)) <= total_bytes(levels),
    decreases levels.len() - n,
{
    if n < levels.len() {
        lemma_total_bytes_grow(levels, n + 1);
        assert(levels.take(n + 1).drop_last() =~= levels.take(n));
    } else {
        assert(levels.take(n) =~= levels);
    }
}

/// Adds the number of bytes in all keys and values of one trie to `bytes`, if the sum is in range.
fn add_entry_bytes(entries: &Vec<StateEntry>, bytes: u64) -> (sum: Option<u64>)
    ensures
        match sum {
            Some(sum) => sum == bytes + entry_bytes(entries_view(entries@)),
            None => bytes + entry_bytes(entries_view(entries@)) > u64::MAX,
        },
{
    let ghost all = entries_view(entries@);
    let mut sum: u64 = bytes;
    let mut i: usize = 0;
    while i < entries.len()
        invariant
            i <= entries@.len(),
            all == entries_view(entries@),
            sum == bytes + entry_bytes(all.take(i as int)),
        decreases entries@.len() - i,
    {
        proof {
            assert(all.take(i + 1).drop_last() =~= all.take(i as int));
            lemma_entry_bytes_grow(all, i + 1);
        }
        sum = match sum.checked_add(entries[i].key.len() as u64) {
            Some(sum) => sum,
            None => {
                return None;
            },
        };
        sum = match sum.checked_add(entries[i].value.len() as u64) {
            Some(sum) => sum,
            None => {
                return None;
            },
        };
        i = i + 1;
    }
    assert(all.take(i as int) =~= all);
    Some(sum)
}

/// Adds the number of bytes in all keys and values of several tries to `bytes`, if the sum is in
/// range.
pub fn add_total_bytes(levels: &Vec<KeyValueStateEntry>, bytes: u64) -> (sum: Option<u64>)
    ensures
        match sum {
            Some(sum) => sum == bytes + total_bytes(levels_view(levels@)),
            None => bytes + total_bytes(levels_view(levels@)) > u64::MAX,
        },
{
    let ghost all = levels_view(levels@);
    let mut sum: u64 = bytes;
    let mut i: usize = 0;
    while i < levels.len()
        invariant
            i <= levels@.len(),
            all == levels_view(levels@),
            sum == bytes + total_bytes(all.take(i as int)),
        decreases levels@.len() - i,
    {
        proof {
            assert(all.take(i + 1).drop_last() =~= all.take(i as int));
            lemma_total_bytes_grow(all, i + 1);
        }
        sum = match add_entry_bytes(&levels[i].entries, sum) {
            Some(sum) => sum,
            None => {
                return None;
            },
        };
        i = i + 1;
    }
    assert(all.take(i as int) =~= all);
    Some(sum)
}

impl KeyValueStates {
    /// No tries at all.
    pub fn new() -> (states: Self)
        ensures
            states.valid(),
            states@ == Map::<Seq<u8>, TrieContents>::empty(),
    {
        KeyValueStates(Vec::new())
    }

    /// The place of the trie with root `root`, which is added without contents where it is missing.
    fn entry(&mut self, root: Vec<u8>) -> (index: usize)
        requires
            old(self).valid(),
        ensures
            final(self).valid(),
            final(self)@ == old(self)@.insert(root@, contents_of(old(self)@, root@)),
            index < final(self).0@.len(),
            final(self).0@[index as int].state_root@ == root@,
            final(self).0@[index as int].contents() == contents_of(old(self)@, root@),
    {
        let mut i: usize = 0;
        while i < self.0.len()
            invariant
                self.valid(),
                *self == *old(self),
                i <= self.0@.len(),
                forall|j: int| 0 <= j < i ==> (#[trigger] self.0@[j]).state_root@ != root@,
            decreases self.0@.len() - i,
        {
            if self.0[i].state_root == root {
                proof {
                    assert(self.0@[i as int].state_root@ =~= root@);
                    lemma_root_index(*self, i as int);
                }
                return i;
            }
            i = i + 1;
        }
        let ghost before = *self;
        let level = KeyValueStorageLevel {
            state_root: root,
            parent_storage_keys: Vec::new(),
            key_values: Vec::new(),
        };
        self.0.push(level);
        proof {
            assert(level.contents().key_values =~= TrieContents::empty().key_values);
            assert(level.contents().parents =~= TrieContents::empty().parents);
            lemma_root_index(*self, i as int);
            assert forall|other: Seq<u8>| #![auto] self@.contains_key(other) == before@.insert(
                root@,
                TrieContents::empty(),
            ).contains_key(other) by {
                if has_root(before.0@, other) {
                    let j = root_index(before.0@, other);
                    assert(self.0@[j].state_root@ == other);
                }
            }
            assert forall|other: Seq<u8>| #![auto] before@.contains_key(other) implies self@[other]
                == before@[other] by {
                let j = root_index(before.0@, other);
                lemma_root_index(before, j);
                lemma_root_index(*self, j);
            }
        }
        i
    }

    /// Puts the entries of one trie that are kept behind those at `index`, and hands out those that
    /// name child tries, with the number of bytes imported by then.
    fn take_entries(
        &mut self,
        index: usize,
        entries: Vec<StateEntry>,
        imported_bytes: u64,
    ) -> (taken: (Vec<(Vec<u8>, Vec<u8>)>, u64))
        requires
            old(self).valid(),
            index < old(self).0@.len(),
            imported_bytes + entry_bytes(
                kept_entries(old(self).0@[index as int].state_root@, entries_view(entries@)),
            ) <= u64::MAX,
        ensures
            final(self).valid(),
            ({
                let root = old(self).0@[index as int].state_root@;
                let contents = old(self).0@[index as int].contents();
                let kept = kept_entries(root, entries_view(entries@));
                &&& final(self)@ == old(self)@.insert(
                    root,
                    TrieContents { key_values: contents.key_values + kept, ..contents },
                )
                &&& taken.0.deep_view() == child_entries(root, entries_view(entries@))
                &&& taken.1 == imported_bytes + entry_bytes(kept)
            }),
    {
        let ghost before = *self;
        let ghost root = self.0@[index as int].state_root@;
        let ghost contents = self.0@[index as int].contents();
        let ghost all = entries_view(entries@);
        let is_top = self.0[index].state_root.is_empty();
        let mut child_roots: Vec<(Vec<u8>, Vec<u8>)> = Vec::new();
        let mut imported: u64 = imported_bytes;
        proof {
            reveal(Seq::filter);
        }
        for entry in it: entries.into_iter()
            invariant
                it.seq() == entries@,
                all == entries_view(entries@),
                before == *old(self),
                before.valid(),
                index < before.0@.len(),
                root == before.0@[index as int].state_root@,
                contents == before.0@[index as int].contents(),
                is_top == (root.len() == 0),
                imported_bytes + entry_bytes(kept_entries(root, all)) <= u64::MAX,
                self.0@.len() == before.0@.len(),
                forall|j: int| 0 <= j < before.0@.len() && j != index ==> (#[trigger] self.0@[j])
                    == before.0@[j],
                self.0@[index as int].state_root@ == root,
                self.0@[index as int].contents() == (TrieContents {
                    key_values: contents.key_values + kept_entries(root, all.take(it.index())),
                    ..contents
                }),
                child_roots.deep_view() == child_entries(root, all.take(it.index())),
                imported == imported_bytes + entry_bytes(kept_entries(root, all.take(it.index()))),
        {
            let ghost i = it.index();
            proof {
                assert(entry.key.deep_view() =~= entry.key@);
                assert(entry.value.deep_view() =~= entry.value@);
                lemma_next_entry(root, all, i);
                lemma_kept_bytes_grow(root, all, i + 1);
            }
            if is_top && well_known_keys::is_child_storage_key(entry.key.as_slice()) {
                child_roots.push((entry.key, entry.value));
            } else {
                let ghost kept = self.0@[index as int].contents().key_values;
                imported = imported + entry.key.len() as u64 + entry.value.len() as u64;
                self.0[index].key_values.push((entry.key, entry.value));
                assert(self.0@[index as int].contents().key_values =~= kept.push(all[i]));
            }
        }
        proof {
            assert(all.take(all.len() as int) =~= all);
            lemma_update(before, *self, index as int);
        }
        (child_roots, imported)
    }

    /// Adds each key of `child_roots` to the parents of the child trie whose root is its value.
    fn add_parents(&mut self, child_roots: Vec<(Vec<u8>, Vec<u8>)>)
        requires
            old(self).valid(),
        ensures
            final(self).valid(),
            final(self)@ == with_parents(old(self)@, child_roots.deep_view()),
    {
        let ghost all = child_roots.deep_view();
        for child in it: child_roots.into_iter()
            invariant
                it.seq() == child_roots@,
                all == child_roots.deep_view(),
                self.valid(),
                self@ == with_parents(old(self)@, all.take(it.index())),
        {
            let ghost i = it.index();
            let (storage_key, root) = child;
            proof {
                assert(storage_key.deep_view() =~= storage_key@);
                assert(root.deep_view() =~= root@);
                assert(all.take(i + 1).drop_last() =~= all.take(i));
            }
            let ghost state = self@;
            let index: usize = self.entry(root);
            let ghost before = *self;
            self.0[index].parent_storage_keys.push(storage_key);
            proof {
                let contents = contents_of(state, root@);
                assert(self.0@[index as int].contents().parents =~= contents.parents.push(
                    storage_key@,
                ));
                lemma_update(before, *self, index as int);
            }
        }
        assert(all.take(all.len() as int) =~= all);
    }

    /// Adds the entries of one trie, and says how many bytes are imported with them.
    pub fn import(&mut self, level: KeyValueStateEntry, imported_bytes: u64) -> (imported: u64)
        requires
            old(self).valid(),
            imported_bytes + level_bytes(old(self)@, level@) <= u64::MAX,
        ensures
            final(self).valid(),
            final(self)@ == with_level(old(self)@, level@),
            imported == imported_bytes + level_bytes(old(self)@, level@),
    {
        let index: usize = self.entry(level.state_root);
        if self.0[index].key_values.len() > 0 && self.0[index].parent_storage_keys.len() > 1 {
            imported_bytes
        } else {
            let (child_roots, imported) = self.take_entries(index, level.entries, imported_bytes);
            proof {
                let root = level.state_root@;
                let contents = contents_of(old(self)@, root);
                let key_values = contents.key_values + kept_entries(root, level@.entries);
                let taken = TrieContents { key_values, ..contents };
                assert(old(self)@.insert(root, contents).insert(root, taken)
                    =~= old(self)@.insert(root, taken));
            }
            self.add_parents(child_roots);
            imported
        }
    }
}

} // verus!
