//! Syncs without proofs.

use state_sync::schema::{KeyValueStateEntry, StateEntry, StateResponse};
use state_sync::state_sync::{
    Block, ImportResult, ImportStep, ImportedState, StateSync, StateSyncPhase, StateSyncProgress,
    StateSyncProvider, TargetHeader,
};
use state_sync::storage::{add_total_bytes, KeyValueStates, KeyValueStorageLevel};

struct TestBlock;

impl Block for TestBlock {
    type Header = u32;
    type Number = u64;
    type Extrinsic = String;
    type Justifications = Vec<u8>;
}

fn new_sync() -> StateSync<TestBlock> {
    let header = TargetHeader { header: 7, hash: [9; 32], state_root: [8; 32], number: 42 };
    StateSync::new(header, None, None, true)
}

fn level(root: &[u8], entries: &[(&[u8], &[u8])], complete: bool) -> KeyValueStateEntry {
    KeyValueStateEntry {
        state_root: root.to_vec(),
        entries: entries
            .iter()
            .map(|(key, value)| StateEntry { key: key.to_vec(), value: value.to_vec() })
            .collect(),
        complete,
    }
}

fn import(
    sync: &mut StateSync<TestBlock>,
    entries: Vec<KeyValueStateEntry>,
) -> ImportResult<TestBlock> {
    match sync.import(StateResponse { entries, proof: Vec::new() }) {
        ImportStep::Done(result) => result,
        _ => panic!("entries need nothing of the client"),
    }
}

fn imported(result: ImportResult<TestBlock>) -> ImportedState {
    match result {
        ImportResult::Import(hash, header, state, body, justifications) => {
            assert_eq!(hash, [9; 32]);
            assert_eq!(header, 7);
            assert!(body.is_none());
            assert!(justifications.is_none());
            state
        },
        _ => panic!("the state should have arrived"),
    }
}

fn find<'a>(states: &'a KeyValueStates, root: &[u8]) -> &'a KeyValueStorageLevel {
    let mut found = states.0.iter().filter(|level| level.state_root == root);
    let level = found.next().unwrap();
    assert!(found.next().is_none());
    level
}

#[test]
fn entries_of_one_response() {
    let mut sync = new_sync();
    let top = level(&[], &[(b"a", b"1"), (b"bc", b"2")], true);
    let state = imported(import(&mut sync, vec![top]));
    assert_eq!(state.block, [9; 32]);
    assert!(!state.written);
    assert_eq!(state.state.0.len(), 1);
    let top = find(&state.state, &[]);
    assert!(top.parent_storage_keys.is_empty());
    assert_eq!(
        top.key_values,
        vec![(b"a".to_vec(), b"1".to_vec()), (b"bc".to_vec(), b"2".to_vec())]
    );
    assert_eq!(
        sync.progress(),
        StateSyncProgress { percentage: 0, size: 5, phase: StateSyncPhase::ImportingState }
    );
    assert!(sync.is_complete());
    assert!(sync.next_request().no_proof);
}

#[test]
fn entries_of_two_responses_add_up() {
    let mut sync = new_sync();
    let first = level(&[], &[(&[200, 1], b"1")], false);
    assert!(matches!(import(&mut sync, vec![first]), ImportResult::Continue));
    assert_eq!(sync.next_request().start, vec![vec![200, 1]]);
    assert_eq!(
        sync.progress(),
        StateSyncProgress { percentage: 78, size: 3, phase: StateSyncPhase::DownloadingState }
    );
    assert!(!sync.is_complete());
    let second = level(&[], &[(&[201], b"2")], true);
    let state = imported(import(&mut sync, vec![second]));
    let top = find(&state.state, &[]);
    assert_eq!(top.key_values, vec![(vec![200, 1], b"1".to_vec()), (vec![201], b"2".to_vec())]);
    assert!(sync.next_request().start.is_empty());
    assert_eq!(sync.progress().size, 5);
}

#[test]
fn highest_cursor_stays_below_a_hundred_percent() {
    let mut sync = new_sync();
    let top = level(&[], &[(&[255], b"1")], false);
    assert!(matches!(import(&mut sync, vec![top]), ImportResult::Continue));
    assert_eq!(sync.progress().percentage, 99);
}

#[test]
fn empty_key_gives_no_cursor() {
    let mut sync = new_sync();
    let top = level(&[], &[(&[], b"1")], false);
    assert!(matches!(import(&mut sync, vec![top]), ImportResult::Continue));
    assert_eq!(sync.next_request().start, vec![Vec::<u8>::new()]);
    assert_eq!(sync.progress().percentage, 0);
}

#[test]
fn incomplete_trie_without_entries_gives_no_key() {
    let mut sync = new_sync();
    assert!(matches!(import(&mut sync, vec![level(&[], &[], false)]), ImportResult::Continue));
    assert!(sync.next_request().start.is_empty());
}

#[test]
fn child_roots_become_parents() {
    let mut sync = new_sync();
    let key = b":child_storage:default:x";
    let other = b":child_storage:other:y";
    let top = level(&[], &[(b"a", b"1"), (key, b"root"), (other, b"root")], true);
    let child = level(b"root", &[(b"k", b"v")], true);
    let state = imported(import(&mut sync, vec![top, child]));
    assert_eq!(find(&state.state, &[]).key_values, vec![(b"a".to_vec(), b"1".to_vec())]);
    let child = find(&state.state, b"root");
    assert_eq!(child.parent_storage_keys, vec![key.to_vec(), other.to_vec()]);
    assert_eq!(child.key_values, vec![(b"k".to_vec(), b"v".to_vec())]);
    // Entries that name child tries do not count.
    assert_eq!(sync.progress().size, 4);
}

#[test]
fn child_storage_key_inside_a_child_trie_is_an_entry() {
    let mut sync = new_sync();
    let key = b":child_storage:default:x";
    let child = level(b"root", &[(key, b"v")], true);
    let state = imported(import(&mut sync, vec![child]));
    assert_eq!(state.state.0.len(), 1);
    assert_eq!(find(&state.state, b"root").key_values, vec![(key.to_vec(), b"v".to_vec())]);
    assert_eq!(sync.progress().size, key.len() as u64 + 1);
}

#[test]
fn shared_child_trie_is_taken_once() {
    let mut sync = new_sync();
    let first = b":child_storage:default:x";
    let second = b":child_storage:default:y";
    let top = level(&[], &[(first, b"root"), (second, b"root")], false);
    let child = level(b"root", &[(b"k", b"v")], true);
    assert!(matches!(import(&mut sync, vec![top, child]), ImportResult::Continue));
    assert_eq!(sync.progress().size, 2);
    // The same trie again, under its second key.
    let top = level(&[], &[], true);
    let child = level(b"root", &[(b"k", b"v")], true);
    let state = imported(import(&mut sync, vec![top, child]));
    let child = find(&state.state, b"root");
    assert_eq!(child.key_values, vec![(b"k".to_vec(), b"v".to_vec())]);
    assert_eq!(child.parent_storage_keys, vec![first.to_vec(), second.to_vec()]);
    assert_eq!(sync.progress().size, 2);
}

#[test]
fn child_trie_with_one_parent_goes_on() {
    let mut sync = new_sync();
    let key = b":child_storage:default:x";
    let top = level(&[], &[(key, b"root")], false);
    let child = level(b"root", &[(b"k", b"v")], false);
    assert!(matches!(import(&mut sync, vec![top, child]), ImportResult::Continue));
    assert_eq!(sync.next_request().start, vec![key.to_vec(), b"k".to_vec()]);
    assert_eq!(sync.progress().percentage, 58 * 100 / 256);
    // Only the child trie goes on: the position in the top trie stays.
    let top = level(&[], &[], true);
    let child = level(b"root", &[(b"l", b"w")], false);
    assert!(matches!(import(&mut sync, vec![top, child]), ImportResult::Continue));
    assert_eq!(sync.next_request().start, vec![key.to_vec(), b"l".to_vec()]);
    // The child trie ends, and the top trie goes on behind the key that it was at.
    let top = level(&[], &[], false);
    let child = level(b"root", &[(b"m", b"x")], true);
    assert!(matches!(import(&mut sync, vec![top, child]), ImportResult::Continue));
    assert_eq!(sync.next_request().start, vec![key.to_vec()]);
    let top = level(&[], &[(b"z", b"9")], true);
    let state = imported(import(&mut sync, vec![top]));
    assert_eq!(
        find(&state.state, b"root").key_values,
        vec![
            (b"k".to_vec(), b"v".to_vec()),
            (b"l".to_vec(), b"w".to_vec()),
            (b"m".to_vec(), b"x".to_vec()),
        ]
    );
}

#[test]
fn positions_are_dropped_when_the_top_trie_goes_on() {
    let mut sync = new_sync();
    let key = b":child_storage:default:x";
    let top = level(&[], &[(key, b"root")], false);
    let child = level(b"root", &[(b"k", b"v")], false);
    assert!(matches!(import(&mut sync, vec![top, child]), ImportResult::Continue));
    let top = level(&[], &[(b"z", b"9")], false);
    assert!(matches!(import(&mut sync, vec![top]), ImportResult::Continue));
    assert_eq!(sync.next_request().start, vec![b"z".to_vec()]);
}

#[test]
fn empty_response_is_bad() {
    let mut sync = new_sync();
    let first = level(&[], &[(b"a", b"1")], false);
    assert!(matches!(import(&mut sync, vec![first]), ImportResult::Continue));
    assert!(matches!(import(&mut sync, Vec::new()), ImportResult::BadResponse));
    assert_eq!(sync.next_request().start, vec![b"a".to_vec()]);
    assert_eq!(sync.progress().size, 2);
}

#[test]
fn size_counts_keys_and_values() {
    let mut sync = new_sync();
    let top = level(&[], &[(&[1, 2], &[3, 4, 5])], false);
    assert!(matches!(import(&mut sync, vec![top]), ImportResult::Continue));
    assert_eq!(sync.progress().size, 5);
}

#[test]
fn response_is_admitted_unless_it_has_no_entries_for_a_child_trie() {
    let mut sync = new_sync();
    let only_proof = || StateResponse { entries: Vec::new(), proof: vec![1] };
    assert!(sync.admits(&only_proof()));
    let key = b":child_storage:default:x";
    let top = level(&[], &[(key, b"root")], false);
    let child = level(b"root", &[(b"k", b"v")], false);
    assert!(sync.admits(&StateResponse { entries: vec![top], proof: Vec::new() }));
    let top = level(&[], &[(key, b"root")], false);
    assert!(matches!(import(&mut sync, vec![top, child]), ImportResult::Continue));
    assert!(!sync.admits(&only_proof()));
    assert!(sync.admits(&StateResponse { entries: Vec::new(), proof: Vec::new() }));
    let more = level(&[], &[], true);
    assert!(sync.admits(&StateResponse { entries: vec![more], proof: vec![1] }));
}

#[test]
fn bytes_of_tries_add_up_in_range() {
    let levels = vec![level(&[], &[(b"ab", b"cde"), (b"", b"f")], true), level(b"r", &[], true)];
    assert_eq!(add_total_bytes(&levels, 10), Some(16));
    assert_eq!(add_total_bytes(&levels, u64::MAX - 6), Some(u64::MAX));
    assert_eq!(add_total_bytes(&levels, u64::MAX - 5), None);
}

#[test]
fn chunks_of_a_trie_stand_one_behind_the_other() {
    let mut sync = new_sync();
    let first = b":child_storage:default:x";
    let second = b":child_storage:default:y";
    let state = imported(import(
        &mut sync,
        vec![
            level(&[], &[(b"a", b"1"), (first, b"root")], true),
            level(b"root", &[(b"k", b"v")], true),
            level(&[], &[(b"b", b"2"), (second, b"other")], true),
            level(b"root", &[(b"l", b"w")], true),
        ],
    ));
    let pair = |key: &[u8], value: &[u8]| (key.to_vec(), value.to_vec());
    assert_eq!(find(&state.state, &[]).key_values, vec![pair(b"a", b"1"), pair(b"b", b"2")]);
    assert_eq!(find(&state.state, b"root").key_values, vec![pair(b"k", b"v"), pair(b"l", b"w")]);
    assert_eq!(find(&state.state, b"root").parent_storage_keys, vec![first.to_vec()]);
    assert_eq!(find(&state.state, b"other").parent_storage_keys, vec![second.to_vec()]);
}

#[test]
fn proof_without_entries_ends_a_sync_that_asked_for_entries() {
    let mut sync = new_sync();
    let step = sync.import(StateResponse { entries: Vec::new(), proof: vec![1] });
    match step {
        ImportStep::Done(result) => assert!(imported(result).state.0.is_empty()),
        _ => panic!("entries need nothing of the client"),
    }
    assert_eq!(sync.progress().size, 0);
}

#[test]
fn state_is_handed_out_once() {
    let mut sync = new_sync();
    let state = imported(import(&mut sync, vec![level(&[], &[(b"a", b"1")], true)]));
    assert_eq!(state.state.0.len(), 1);
    let state = imported(import(&mut sync, vec![level(&[], &[], true)]));
    assert!(find(&state.state, &[]).key_values.is_empty());
    assert!(sync.is_complete());
}

#[test]
fn phases_in_words() {
    assert_eq!(StateSyncPhase::DownloadingState.to_string(), "Downloading state");
    assert_eq!(StateSyncPhase::ImportingState.to_string(), "Importing state");
}
