//! The walk through one trie, step by step.

use sp_core::Blake2Hasher;
use state_sync::hash::{as_hash, same_hash};
use state_sync::level::{Level, LevelState};
use state_sync::node::{ChildHandle, NodeValue, PartialKey, TrieNode};
use state_sync::walk::ask;
use trie_db::node::Value;
use trie_db::{ChildReference, NibbleSlice, NibbleVec, NodeCodec, TrieLayout};

type Codec = <sp_trie::LayoutV0<Blake2Hasher> as TrieLayout>::Codec;

fn leaf(partial: &[u8], value: Value) -> Vec<u8> {
    let partial = NibbleSlice::new(partial);
    Codec::leaf_node(partial.right_iter(), partial.len(), value)
}

/// A branch without nibbles of its own, with hashed children at the given nibbles.
fn branch(children: &[u8], value: Option<Value>) -> Vec<u8> {
    let children: Vec<_> = (0..16u8)
        .map(|i| {
            if children.contains(&i) {
                Some(ChildReference::Hash([i; 32].into()))
            } else {
                None
            }
        })
        .collect();
    let partial = NibbleSlice::new(&[]);
    Codec::branch_node_nibbled(partial.right_iter(), 0, children.iter(), value)
}

fn path(bytes: &[u8]) -> NibbleVec {
    NibbleVec::from(NibbleSlice::new(bytes))
}

#[test]
fn hashes_are_read_and_compared() {
    let bytes: Vec<u8> = (0..32).collect();
    let hash = as_hash(&bytes);
    assert_eq!(&hash[..], &bytes[..]);
    assert!(same_hash(&hash, &hash));
    assert!(!same_hash(&hash, &[0; 32]));
    let mut other = hash;
    other[31] = 0;
    assert!(!same_hash(&hash, &other));
}

#[test]
fn branches_are_visited_in_order() {
    let mut level = Level::new(true, NibbleVec::new(), [7; 32]);
    assert!(matches!(level.state, LevelState::Root(hash) if hash == [7; 32]));
    assert!(level.push(branch(&[3, 5, 12], None)));
    assert!(matches!(level.state, LevelState::Value));
    for nibble in [3u8, 5, 12] {
        level.next_branch();
        assert!(matches!(level.state, LevelState::Branch(hash) if hash == [nibble; 32]));
        assert_eq!(level.prefix.as_prefix(), (&[][..], Some(nibble * 16)));
        assert_eq!(level.stack.len(), 1);
    }
    level.next_branch();
    assert!(matches!(level.state, LevelState::End));
    assert_eq!(level.prefix.len(), 0);
    let node = level.pop();
    assert_eq!(node.hash, [7; 32]);
    assert_eq!(node.encoded, branch(&[3, 5, 12], None));
    assert!(level.stack.is_empty());
}

#[test]
fn leaving_a_leaf_goes_on_to_the_next_branch() {
    let mut level = Level::new(true, path(&[0xab]), [7; 32]);
    assert_eq!(level.initial_prefix_len, 1);
    assert!(level.push(branch(&[3, 5], None)));
    level.next_branch();
    assert!(level.push(leaf(&[0x12, 0x34], Value::Inline(b"value"))));
    assert!(matches!(level.state, LevelState::Value));
    assert_eq!(level.prefix.as_prefix(), (&[0xab, 0x31, 0x23][..], Some(0x40)));
    assert_eq!(level.stack[1].prefix_nibbles, 4);
    level.next_branch();
    assert!(matches!(level.state, LevelState::End));
    assert_eq!(level.prefix.as_prefix(), (&[0xab][..], Some(0x30)));
    let node = level.pop();
    assert_eq!(node.hash, [3; 32]);
    assert!(matches!(level.state, LevelState::Branch(hash) if hash == [5; 32]));
    assert_eq!(level.prefix.as_prefix(), (&[0xab][..], Some(0x50)));
}

#[test]
fn path_may_begin_with_half_a_byte() {
    let mut start = path(&[0xab]);
    start.push(0xc);
    let mut level = Level::new(true, start, [7; 32]);
    assert_eq!(level.initial_prefix_len, 2);
    assert!(level.push(branch(&[3], None)));
    level.next_branch();
    assert_eq!(level.prefix.as_prefix(), (&[0xab, 0xc3][..], None));
    level.next_branch();
    assert!(matches!(level.state, LevelState::End));
    assert_eq!(level.prefix.as_prefix(), (&[0xab][..], Some(0xc0)));
}

#[test]
fn decoded_nodes_fit_and_are_entered() {
    let mut level = Level::new(true, NibbleVec::new(), [7; 32]);
    let leaf = TrieNode::Leaf(PartialKey::new(&[0x12]), NodeValue::Node(&[6; 32]));
    assert!(level.fits(&leaf));
    assert!(!level.fits(&TrieNode::Extension));
    assert!(level.fits(&TrieNode::Empty));
    let short = TrieNode::Leaf(PartialKey::new(&[0x12]), NodeValue::Node(&[6; 31]));
    assert!(!level.fits(&short));
    let mut children: [Option<ChildHandle>; 16] = Default::default();
    children[4] = Some(ChildHandle::Inline(b"child"));
    children[9] = Some(ChildHandle::Hash(&[5; 31]));
    assert!(!level.fits(&TrieNode::Branch(children, None)));
    let (nibbles, _) = level.enter(&leaf);
    assert_eq!(nibbles, 2);
    assert_eq!(level.prefix.as_prefix(), (&[0x12][..], None));
    assert!(matches!(level.state, LevelState::ValueHash(hash) if hash == [6; 32]));
}

#[test]
fn value_under_its_hash_is_asked_for() {
    let mut level = Level::new(false, NibbleVec::new(), [7; 32]);
    assert!(ask(&level, &[0; 32]).is_none());
    assert!(level.push(leaf(&[0x12], Value::Node(&[6; 32]))));
    assert!(matches!(level.state, LevelState::ValueHash(hash) if hash == [6; 32]));
    let (at, hash) = ask(&level, &[0; 32]).unwrap();
    assert_eq!(at.as_prefix(), (&[0x12][..], None));
    assert_eq!(hash, [6; 32]);
    assert!(ask(&level, &[6; 32]).is_none());
}

#[test]
fn child_root_leads_to_the_name_of_the_trie() {
    let key = b":child_storage:default:\x12\x34";
    let mut level = Level::new(true, NibbleVec::new(), [7; 32]);
    assert!(level.push(leaf(key, Value::Inline(&[6; 32]))));
    match &level.state {
        LevelState::ChildHash(path, root) => {
            assert_eq!(path.as_prefix(), (&[0x12, 0x34][..], None));
            assert_eq!(root, &[6; 32]);
        },
        _ => panic!("the value is the root of a child trie"),
    }
    // Inside a child trie the same key has an ordinary value.
    let mut level = Level::new(false, NibbleVec::new(), [7; 32]);
    assert!(level.push(leaf(key, Value::Inline(&[6; 32]))));
    assert!(matches!(level.state, LevelState::Value));
}

#[test]
fn what_is_no_node_is_refused() {
    let default_key = b":child_storage:default:x";
    let refused = [
        // No header, and a header without what it announces.
        Vec::new(),
        vec![0x41],
        // A child trie's root of the wrong length, and one that is not in its place.
        leaf(default_key, Value::Inline(&[6; 31])),
        leaf(default_key, Value::Node(&[6; 32])),
        // A child storage key of another kind.
        leaf(b":child_storage:other:x", Value::Inline(&[6; 32])),
    ];
    for encoded in refused {
        let mut level = Level::new(true, NibbleVec::new(), [7; 32]);
        assert!(!level.push(encoded));
        assert!(matches!(level.state, LevelState::Root(hash) if hash == [7; 32]));
        assert!(level.stack.is_empty());
        assert_eq!(level.prefix.len(), 0);
    }
}

#[test]
fn empty_node_has_no_branches() {
    let mut level = Level::new(true, NibbleVec::new(), [7; 32]);
    assert!(level.push(vec![0]));
    assert!(matches!(level.state, LevelState::Value));
    level.next_branch();
    assert!(matches!(level.state, LevelState::End));
}
