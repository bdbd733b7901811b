//! Syncs with proofs, against tries that `sp_trie` builds.

use std::collections::{BTreeMap, HashSet};

use hash_db::{HashDB, Hasher, EMPTY_PREFIX};
use parity_scale_codec::Encode;
use sp_core::{Blake2Hasher, H256};
use sp_trie::{LayoutV0, LayoutV1, MemoryDB, TrieConfiguration, TrieDBMutBuilder, TrieMut};
use state_sync::hash::HashBytes;
use state_sync::proof_db::read_proof;
use state_sync::schema::{KeyValueStateEntry, StateResponse};
use state_sync::state_sync::{
    Block, ImportResult, ImportStep, StateSync, StateSyncPhase, StateSyncProvider, TargetHeader,
};
use trie_db::node::{Node, NodeHandle, Value};
use trie_db::{NibbleVec, NodeCodec, TrieLayout};

struct TestBlock;

impl Block for TestBlock {
    type Header = u32;
    type Number = u64;
    type Extrinsic = String;
    type Justifications = Vec<u8>;
}

type Path = (Vec<u8>, Option<u8>);

fn path_of(path: &NibbleVec) -> Path {
    let (bytes, nibble) = path.as_prefix();
    (bytes.to_vec(), nibble)
}

/// A client's database, with a record of what it was asked for and what it was given.
#[derive(Default)]
struct Client {
    held: HashSet<(Path, HashBytes)>,
    asked: Vec<(Path, HashBytes)>,
    written: Vec<(Path, HashBytes, Vec<u8>)>,
    batches: usize,
}

impl Client {
    fn contains(&mut self, path: &NibbleVec, hash: HashBytes) -> bool {
        let at = (path_of(path), hash);
        self.asked.push(at.clone());
        self.held.contains(&at)
    }

    fn write(&mut self, batch: Vec<(NibbleVec, HashBytes, Vec<u8>)>) {
        self.batches += 1;
        for (path, hash, value) in batch {
            assert_eq!(Blake2Hasher::hash(&value).0, hash);
            self.held.insert((path_of(&path), hash));
            self.written.push((path_of(&path), hash, value));
        }
    }
}

fn sync_for(root: H256) -> StateSync<TestBlock> {
    let header = TargetHeader { header: 7, hash: [9; 32], state_root: root.0, number: 42 };
    StateSync::new(header, Some(vec!["tx".to_string()]), Some(vec![1, 2]), false)
}

fn proof_response(proof: Vec<u8>) -> StateResponse {
    StateResponse { entries: Vec::new(), proof }
}

/// Runs an import to its end. `None` where the proof is malformed.
fn run(
    sync: &mut StateSync<TestBlock>,
    client: &mut Client,
    proof: Vec<u8>,
) -> Option<ImportResult<TestBlock>> {
    let mut step = sync.import(proof_response(proof));
    loop {
        step = match step {
            ImportStep::Done(result) => return Some(result),
            ImportStep::Lookup(path, hash) => {
                let known = client.contains(&path, hash);
                sync.resume(known)
            },
            ImportStep::Write(batch) => {
                client.write(batch);
                sync.written()
            },
            ImportStep::Malformed => return None,
        }
    }
}

fn add_trie<L: TrieLayout<Hash = Blake2Hasher>>(
    db: &mut MemoryDB<Blake2Hasher>,
    entries: &[(Vec<u8>, Vec<u8>)],
) -> H256 {
    let mut root = H256::default();
    {
        let mut trie = TrieDBMutBuilder::<L>::new(db, &mut root).build();
        for (key, value) in entries {
            trie.insert(key, value).unwrap();
        }
    }
    root
}

fn nodes_of(db: &mut MemoryDB<Blake2Hasher>) -> BTreeMap<HashBytes, Vec<u8>> {
    db.drain()
        .into_iter()
        .filter(|(_, (_, count))| *count > 0)
        .map(|(hash, (value, _))| (hash.0, value))
        .collect()
}

/// A compact proof of the trie with root `root`, out of `nodes`.
fn proof_of<L: TrieConfiguration<Hash = Blake2Hasher>>(
    nodes: &BTreeMap<HashBytes, Vec<u8>>,
    root: H256,
) -> Vec<u8> {
    let mut db = MemoryDB::<Blake2Hasher>::new(&[]);
    for value in nodes.values() {
        db.insert(EMPTY_PREFIX, value);
    }
    sp_trie::encode_compact::<L, _>(&db, &root).unwrap().encode()
}

/// Sixteen by sixteen keys of two bytes, with values of 40 bytes.
fn wide_entries() -> Vec<(Vec<u8>, Vec<u8>)> {
    let mut entries = Vec::new();
    for i in 0..16u8 {
        for j in 0..16u8 {
            entries.push((vec![i * 16 + j, j], vec![i ^ j; 40]));
        }
    }
    entries
}

fn decode(value: &[u8]) -> Node<'_> {
    <LayoutV0<Blake2Hasher> as TrieLayout>::Codec::decode(value).unwrap()
}

fn hash_of(bytes: &[u8]) -> HashBytes {
    let mut hash = [0; 32];
    hash.copy_from_slice(bytes);
    hash
}

/// The hashes of a node's children and of its value.
fn references(value: &[u8]) -> Vec<HashBytes> {
    let mut hashes = Vec::new();
    let mut add_value = |value: &Value| {
        if let Value::Node(hash) = value {
            hashes.push(hash_of(hash));
        }
    };
    let children = match &decode(value) {
        Node::Leaf(_, value) => {
            add_value(value);
            Vec::new()
        },
        Node::NibbledBranch(_, children, value) => {
            if let Some(value) = value {
                add_value(value);
            }
            children.to_vec()
        },
        _ => Vec::new(),
    };
    for child in children {
        if let Some(NodeHandle::Hash(hash)) = child {
            hashes.push(hash_of(hash));
        }
    }
    hashes
}

fn child_key(name: &[u8]) -> Vec<u8> {
    [b":child_storage:default:".as_ref(), name].concat()
}

#[test]
fn whole_proof_completes_in_one_import() {
    let mut db = MemoryDB::default();
    let root = add_trie::<LayoutV0<Blake2Hasher>>(&mut db, &wide_entries());
    let nodes = nodes_of(&mut db);
    let proof = proof_of::<LayoutV0<Blake2Hasher>>(&nodes, root);
    let size = proof.len() as u64;
    let mut sync = sync_for(root);
    let mut client = Client::default();
    match run(&mut sync, &mut client, proof) {
        Some(ImportResult::Import(hash, header, state, body, justifications)) => {
            assert_eq!(hash, [9; 32]);
            assert_eq!(header, 7);
            assert_eq!(state.block, [9; 32]);
            assert!(state.written);
            assert!(state.state.0.is_empty());
            assert_eq!(body, Some(vec!["tx".to_string()]));
            assert_eq!(justifications, Some(vec![1, 2]));
        },
        _ => panic!("the state should have arrived"),
    }
    assert!(sync.is_complete());
    assert_eq!(sync.progress().size, size);
    assert_eq!(sync.progress().phase, StateSyncPhase::ImportingState);
    assert_eq!(sync.target_hash(), [9; 32]);
    assert_eq!(sync.target_number(), 42);
    assert!(!sync.next_request().no_proof);
    assert_eq!(client.batches, 1);
    let written: BTreeMap<HashBytes, Vec<u8>> =
        client.written.iter().map(|(_, hash, value)| (*hash, value.clone())).collect();
    assert_eq!(written, nodes);
    // The root comes last, at the empty path.
    let (path, hash, _) = client.written.last().unwrap();
    assert_eq!(path, &(Vec::new(), None));
    assert_eq!(hash, &root.0);
}

#[test]
fn nodes_are_written_after_what_they_refer_to() {
    let mut db = MemoryDB::default();
    let root = add_trie::<LayoutV1<Blake2Hasher>>(&mut db, &wide_entries());
    let nodes = nodes_of(&mut db);
    let proof = proof_of::<LayoutV1<Blake2Hasher>>(&nodes, root);
    let mut sync = sync_for(root);
    let mut client = Client::default();
    assert!(matches!(run(&mut sync, &mut client, proof), Some(ImportResult::Import(..))));
    let values: HashSet<Vec<u8>> = wide_entries().into_iter().map(|(_, value)| value).collect();
    let mut seen = HashSet::new();
    let mut seen_values = 0;
    for (_, hash, value) in &client.written {
        if values.contains(value) {
            seen_values += 1;
        } else {
            for reference in references(value) {
                assert!(seen.contains(&reference));
            }
        }
        seen.insert(*hash);
    }
    // Each key's value stands at the path of its own key.
    assert_eq!(seen_values, 256);
    for (key, value) in wide_entries() {
        let hash = Blake2Hasher::hash(&value).0;
        assert!(client.written.contains(&((key, None), hash, value)));
    }
}

#[test]
fn questions_come_along_ascending_paths() {
    let mut db = MemoryDB::default();
    let root = add_trie::<LayoutV1<Blake2Hasher>>(&mut db, &wide_entries());
    let nodes = nodes_of(&mut db);
    let proof = proof_of::<LayoutV1<Blake2Hasher>>(&nodes, root);
    let mut sync = sync_for(root);
    let mut client = Client::default();
    assert!(matches!(run(&mut sync, &mut client, proof), Some(ImportResult::Import(..))));
    let paths: Vec<Vec<u8>> = client
        .asked
        .iter()
        .map(|((bytes, nibble), _)| {
            let mut path: Vec<u8> = bytes.iter().flat_map(|byte| [byte >> 4, byte & 15]).collect();
            path.extend(nibble.map(|nibble| nibble >> 4));
            path
        })
        .collect();
    // Each branch below the root, each leaf below that, and each value.
    assert_eq!(paths.len(), 16 + 256 + 256);
    assert!(paths.windows(2).all(|pair| pair[0] <= pair[1]));
}

#[test]
fn parts_of_a_proof_add_up() {
    let mut db = MemoryDB::default();
    let root = add_trie::<LayoutV0<Blake2Hasher>>(&mut db, &wide_entries());
    let nodes = nodes_of(&mut db);
    let branches = references(&nodes[&root.0]);
    assert_eq!(branches.len(), 16);
    // The first part has the root and what is below its first five branches.
    let mut first = BTreeMap::new();
    first.insert(root.0, nodes[&root.0].clone());
    for branch in &branches[..5] {
        first.insert(*branch, nodes[branch].clone());
        for leaf in references(&nodes[branch]) {
            first.insert(leaf, nodes[&leaf].clone());
        }
    }
    let mut sync = sync_for(root);
    let mut client = Client::default();
    let proof = proof_of::<LayoutV0<Blake2Hasher>>(&first, root);
    let size = proof.len() as u64;
    assert!(matches!(run(&mut sync, &mut client, proof), Some(ImportResult::Continue)));
    assert!(!sync.is_complete());
    // The walk stands in front of the sixth branch: at nibble 5.
    assert_eq!(sync.next_request().start, vec![vec![0x50]]);
    let progress = sync.progress();
    assert_eq!(progress.percentage, 31);
    assert_eq!(progress.size, size);
    assert_eq!(progress.phase, StateSyncPhase::DownloadingState);
    // All but the root has been written of the first part.
    assert_eq!(client.written.len(), first.len() - 1);
    assert!(client.written.iter().all(|(_, hash, _)| hash != &root.0));
    // The second part has the rest, with the root again.
    let mut second = nodes.clone();
    for hash in first.keys() {
        if hash != &root.0 {
            second.remove(hash);
        }
    }
    let proof = proof_of::<LayoutV0<Blake2Hasher>>(&second, root);
    let size = size + proof.len() as u64;
    assert!(matches!(run(&mut sync, &mut client, proof), Some(ImportResult::Import(..))));
    assert_eq!(client.written.len(), nodes.len());
    assert_eq!(sync.progress().size, size);
    assert!(sync.next_request().start.is_empty());
}

#[test]
fn shorter_and_longer_proof_lead_where_the_longer_one_leads() {
    let mut db = MemoryDB::default();
    let root = add_trie::<LayoutV1<Blake2Hasher>>(&mut db, &wide_entries());
    let nodes = nodes_of(&mut db);
    let mut shorter = BTreeMap::new();
    shorter.insert(root.0, nodes[&root.0].clone());
    for branch in &references(&nodes[&root.0])[..3] {
        shorter.insert(*branch, nodes[branch].clone());
        for leaf in &references(&nodes[branch])[..7] {
            shorter.insert(*leaf, nodes[leaf].clone());
            for value in references(&nodes[leaf]) {
                shorter.insert(value, nodes[&value].clone());
            }
        }
    }
    let mut twice = sync_for(root);
    let mut twice_client = Client::default();
    let proof = proof_of::<LayoutV1<Blake2Hasher>>(&shorter, root);
    let result = run(&mut twice, &mut twice_client, proof);
    assert!(matches!(result, Some(ImportResult::Continue)));
    assert!(!twice_client.written.is_empty());
    let proof = proof_of::<LayoutV1<Blake2Hasher>>(&nodes, root);
    let result = run(&mut twice, &mut twice_client, proof.clone());
    assert!(matches!(result, Some(ImportResult::Import(..))));
    let mut once = sync_for(root);
    let mut once_client = Client::default();
    assert!(matches!(run(&mut once, &mut once_client, proof), Some(ImportResult::Import(..))));
    assert_eq!(twice_client.written, once_client.written);
    assert_eq!(twice.next_request().start, once.next_request().start);
}

#[test]
fn everything_written_is_reachable_from_the_root() {
    let mut db = MemoryDB::default();
    let root = add_trie::<LayoutV0<Blake2Hasher>>(&mut db, &wide_entries());
    let nodes = nodes_of(&mut db);
    let proof = proof_of::<LayoutV0<Blake2Hasher>>(&nodes, root);
    let mut sync = sync_for(root);
    let mut client = Client::default();
    assert!(matches!(run(&mut sync, &mut client, proof), Some(ImportResult::Import(..))));
    let mut reached = HashSet::from([root.0]);
    for (_, hash, value) in client.written.iter().rev() {
        assert!(reached.contains(hash));
        assert_eq!(&nodes[hash], value);
        reached.extend(references(value));
    }
}

#[test]
fn nothing_is_admitted_while_an_import_waits() {
    let mut db = MemoryDB::default();
    let root = add_trie::<LayoutV0<Blake2Hasher>>(&mut db, &wide_entries());
    let nodes = nodes_of(&mut db);
    let proof = proof_of::<LayoutV0<Blake2Hasher>>(&nodes, root);
    let mut sync = sync_for(root);
    assert!(sync.admits(&proof_response(proof.clone())));
    assert!(matches!(sync.import(proof_response(proof.clone())), ImportStep::Lookup(..)));
    assert!(!sync.admits(&proof_response(proof)));
}

#[test]
fn same_part_twice_changes_nothing_more() {
    let mut db = MemoryDB::default();
    let root = add_trie::<LayoutV0<Blake2Hasher>>(&mut db, &wide_entries());
    let nodes = nodes_of(&mut db);
    let mut first = BTreeMap::new();
    first.insert(root.0, nodes[&root.0].clone());
    let mut sync = sync_for(root);
    let mut client = Client::default();
    for _ in 0..2 {
        let proof = proof_of::<LayoutV0<Blake2Hasher>>(&first, root);
        assert!(matches!(run(&mut sync, &mut client, proof), Some(ImportResult::Continue)));
        assert_eq!(sync.next_request().start, vec![vec![0x00]]);
        assert!(client.written.is_empty());
    }
    assert_eq!(client.asked.len(), 2);
}

#[test]
fn what_the_client_has_is_left_out() {
    let mut db = MemoryDB::default();
    let root = add_trie::<LayoutV0<Blake2Hasher>>(&mut db, &wide_entries());
    let nodes = nodes_of(&mut db);
    let branches = references(&nodes[&root.0]);
    let mut client = Client::default();
    // The client has everything below the branches with an even nibble.
    for (i, branch) in branches.iter().enumerate() {
        if i % 2 == 0 {
            client.held.insert(((Vec::new(), Some(i as u8 * 16)), *branch));
        }
    }
    let proof = proof_of::<LayoutV0<Blake2Hasher>>(&nodes, root);
    let mut sync = sync_for(root);
    assert!(matches!(run(&mut sync, &mut client, proof), Some(ImportResult::Import(..))));
    assert_eq!(client.written.len(), 1 + 8 * 17);
    for (i, branch) in branches.iter().enumerate() {
        let written = client.written.iter().any(|(_, hash, _)| hash == branch);
        assert_eq!(written, i % 2 == 1);
    }
}

#[test]
fn child_trie_is_walked_at_its_own_path() {
    let mut db = MemoryDB::default();
    let child_root = add_trie::<LayoutV0<Blake2Hasher>>(&mut db, &wide_entries());
    let child_nodes = nodes_of(&mut db);
    let mut entries = vec![(child_key(b"\x12\x34"), child_root.0.to_vec())];
    for i in 0..4u8 {
        entries.push((vec![0x20 + i; 3], vec![i; 40]));
        entries.push((vec![0x80 + i; 3], vec![i; 40]));
    }
    let mut top_db = MemoryDB::default();
    let root = add_trie::<LayoutV0<Blake2Hasher>>(&mut top_db, &entries);
    let top_nodes = nodes_of(&mut top_db);
    let mut nodes = top_nodes.clone();
    nodes.extend(child_nodes.clone());
    let proof = proof_of::<LayoutV0<Blake2Hasher>>(&nodes, root);
    let mut sync = sync_for(root);
    let mut client = Client::default();
    assert!(matches!(run(&mut sync, &mut client, proof), Some(ImportResult::Import(..))));
    assert_eq!(client.written.len(), nodes.len());
    // The child trie's root stands at the name of the trie, and its nodes below that.
    assert!(client.held.contains(&((vec![0x12, 0x34], None), child_root.0)));
    for (path, hash, _) in &client.written {
        if child_nodes.contains_key(hash) && !top_nodes.contains_key(hash) {
            assert_eq!(&path.0[..2], &[0x12, 0x34]);
        }
    }
    // The root of the child trie is written before the node that names it.
    let place = |wanted: HashBytes| {
        client.written.iter().position(|(_, hash, _)| hash == &wanted).unwrap()
    };
    let named = client.written.iter().position(|(_, _, value)| match decode(value) {
        Node::Leaf(_, Value::Inline(value)) => value == &child_root.0[..],
        _ => false,
    });
    assert!(place(child_root.0) < named.unwrap());
}

#[test]
fn request_inside_a_child_trie_has_two_keys() {
    let mut db = MemoryDB::default();
    let child_root = add_trie::<LayoutV0<Blake2Hasher>>(&mut db, &wide_entries());
    let mut top_db = MemoryDB::default();
    let root = add_trie::<LayoutV0<Blake2Hasher>>(
        &mut top_db,
        &[(child_key(b"\x12\x34"), child_root.0.to_vec())],
    );
    let top_nodes = nodes_of(&mut top_db);
    let mut sync = sync_for(root);
    let mut client = Client::default();
    let proof = proof_of::<LayoutV0<Blake2Hasher>>(&top_nodes, root);
    assert!(matches!(run(&mut sync, &mut client, proof), Some(ImportResult::Continue)));
    // In the top trie the walk stands at the key of the child trie, and in the child trie at its
    // beginning.
    assert_eq!(sync.next_request().start, vec![child_key(b"\x12\x34"), Vec::new()]);
    assert_eq!(client.asked, vec![((vec![0x12, 0x34], None), child_root.0)]);
    assert!(client.written.is_empty());
    // With the child trie's root in the proof the walk goes on to its first branch.
    let mut nodes = top_nodes;
    let child_nodes = nodes_of(&mut db);
    nodes.insert(child_root.0, child_nodes[&child_root.0].clone());
    let proof = proof_of::<LayoutV0<Blake2Hasher>>(&nodes, root);
    assert!(matches!(run(&mut sync, &mut client, proof), Some(ImportResult::Continue)));
    assert_eq!(sync.next_request().start, vec![child_key(b"\x12\x34"), vec![0x00]]);
    assert_eq!(sync.progress().percentage, 58 * 100 / 256);
}

#[test]
fn child_trie_that_the_client_has_is_left_out() {
    let mut db = MemoryDB::default();
    let child_root = add_trie::<LayoutV0<Blake2Hasher>>(&mut db, &wide_entries());
    let mut top_db = MemoryDB::default();
    let root = add_trie::<LayoutV0<Blake2Hasher>>(
        &mut top_db,
        &[(child_key(b"\x12\x34"), child_root.0.to_vec())],
    );
    let top_nodes = nodes_of(&mut top_db);
    let mut sync = sync_for(root);
    let mut client = Client::default();
    client.held.insert(((vec![0x12, 0x34], None), child_root.0));
    let proof = proof_of::<LayoutV0<Blake2Hasher>>(&top_nodes, root);
    assert!(matches!(run(&mut sync, &mut client, proof), Some(ImportResult::Import(..))));
    assert_eq!(client.written.len(), 1);
}

#[test]
fn empty_child_trie_is_not_asked_for() {
    let empty = Blake2Hasher::hash(&[0]);
    let mut top_db = MemoryDB::default();
    let root = add_trie::<LayoutV0<Blake2Hasher>>(
        &mut top_db,
        &[(child_key(b"\x12\x34"), empty.0.to_vec())],
    );
    let top_nodes = nodes_of(&mut top_db);
    let mut sync = sync_for(root);
    let mut client = Client::default();
    let proof = proof_of::<LayoutV0<Blake2Hasher>>(&top_nodes, root);
    assert!(matches!(run(&mut sync, &mut client, proof), Some(ImportResult::Import(..))));
    assert!(client.asked.is_empty());
    assert_eq!(client.written.len(), 1);
}

#[test]
fn empty_state_completes() {
    let root = Blake2Hasher::hash(&[0]);
    let proof = vec![vec![0u8]].encode();
    let mut sync = sync_for(root);
    let mut client = Client::default();
    assert!(matches!(run(&mut sync, &mut client, proof), Some(ImportResult::Import(..))));
    assert_eq!(client.written, vec![((Vec::new(), None), root.0, vec![0])]);
}

#[test]
fn import_after_the_end_hands_the_state_out_again() {
    let root = Blake2Hasher::hash(&[0]);
    let proof = vec![vec![0u8]].encode();
    let mut sync = sync_for(root);
    let mut client = Client::default();
    assert!(matches!(run(&mut sync, &mut client, proof.clone()), Some(ImportResult::Import(..))));
    assert!(matches!(run(&mut sync, &mut client, proof), Some(ImportResult::Import(..))));
    assert!(sync.is_complete());
    assert_eq!(client.batches, 2);
    assert_eq!(client.written.len(), 1);
}

#[test]
fn child_storage_key_of_another_kind_is_malformed() {
    let mut db = MemoryDB::default();
    let root = add_trie::<LayoutV0<Blake2Hasher>>(
        &mut db,
        &[(b":child_storage:other:x".to_vec(), vec![5; 32])],
    );
    let nodes = nodes_of(&mut db);
    let mut sync = sync_for(root);
    let mut client = Client::default();
    let proof = proof_of::<LayoutV0<Blake2Hasher>>(&nodes, root);
    assert!(run(&mut sync, &mut client, proof).is_none());
    assert!(client.written.is_empty());
    assert!(!sync.is_complete());
}

#[test]
fn bad_proofs_change_nothing() {
    let mut db = MemoryDB::default();
    let root = add_trie::<LayoutV0<Blake2Hasher>>(&mut db, &wide_entries());
    let nodes = nodes_of(&mut db);
    let proof = proof_of::<LayoutV0<Blake2Hasher>>(&nodes, root);
    let mut other_db = MemoryDB::default();
    let other_root = add_trie::<LayoutV0<Blake2Hasher>>(&mut other_db, &[(vec![1], vec![2])]);
    let other_nodes = nodes_of(&mut other_db);
    let other_proof = proof_of::<LayoutV0<Blake2Hasher>>(&other_nodes, other_root);
    let mut sync = sync_for(root);
    let mut client = Client::default();
    // Nothing at all, bytes that are no proof, a proof of another trie, and no node at all.
    for bytes in [Vec::new(), vec![255; 3], other_proof, vec![0]] {
        let result = run(&mut sync, &mut client, bytes);
        assert!(matches!(result, Some(ImportResult::BadResponse)));
        assert_eq!(sync.progress().size, 0);
        assert!(!sync.is_complete());
        assert!(sync.next_request().start.is_empty());
    }
    assert_eq!(client.batches, 0);
    // Entries in place of a proof.
    let entries = vec![KeyValueStateEntry {
        state_root: Vec::new(),
        entries: Vec::new(),
        complete: true,
    }];
    let step = sync.import(StateResponse { entries, proof: Vec::new() });
    assert!(matches!(step, ImportStep::Done(ImportResult::BadResponse)));
    // The right proof still works.
    assert!(matches!(run(&mut sync, &mut client, proof), Some(ImportResult::Import(..))));
}

#[test]
fn proof_is_read_for_its_own_root_only() {
    let mut db = MemoryDB::default();
    let root = add_trie::<LayoutV0<Blake2Hasher>>(&mut db, &wide_entries());
    let nodes = nodes_of(&mut db);
    let proof = proof_of::<LayoutV0<Blake2Hasher>>(&nodes, root);
    assert!(read_proof(&proof, &root.0).is_some());
    assert!(read_proof(&proof, &[3; 32]).is_none());
    assert!(read_proof(&vec![255], &root.0).is_none());
}

#[test]
fn proof_walked_directly_asks_for_the_first_branch() {
    let mut db = MemoryDB::default();
    let root = add_trie::<LayoutV0<Blake2Hasher>>(&mut db, &wide_entries());
    let nodes = nodes_of(&mut db);
    let proof = proof_of::<LayoutV0<Blake2Hasher>>(&nodes, root);
    let db = read_proof(&proof, &root.0).unwrap();
    let mut sync = sync_for(root);
    match sync.on_proof_response(db) {
        ImportStep::Lookup(path, hash) => {
            assert_eq!(path_of(&path), (Vec::new(), Some(0)));
            assert_eq!(hash, references(&nodes[&root.0])[0]);
        },
        _ => panic!("the client should have been asked"),
    }
    assert_eq!(sync.progress().size, 0);
}

#[test]
fn request_names_the_block() {
    let sync = sync_for(H256::repeat_byte(4));
    let request = sync.next_request();
    assert_eq!(request.block, vec![9; 32]);
    assert!(request.start.is_empty());
    assert!(!request.no_proof);
    assert_eq!(sync.target_hash(), [9; 32]);
    assert_eq!(sync.target_number(), 42);
    assert!(!sync.is_complete());
    assert_eq!(sync.progress().percentage, 0);
}
