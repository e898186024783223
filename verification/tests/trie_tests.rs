use slimchain_core::hash::H256;
use slimchain_core::nibbles::NibbleBuf;
use slimchain_core::trie::{prune_key, prune_unused_keys, PartialTrie, SubTree, TrieError};

fn nb(v: Vec<u8>) -> NibbleBuf {
    NibbleBuf::from_nibbles(v).unwrap()
}

fn h(b: u64) -> H256 {
    H256 { w0: b, w1: 0, w2: 0, w3: 0 }
}

fn empty_children() -> Vec<Option<SubTree>> {
    let mut cs: Vec<Option<SubTree>> = Vec::new();
    for _ in 0..16 {
        cs.push(None);
    }
    cs
}

/// The trie holding 0x1234 -> h(0xaa), 0x1255 -> h(0xbb), 0x99 -> h(0xcc).
fn sample_trie() -> PartialTrie {
    let leaf_1234 = SubTree::Leaf { nibbles: nb(vec![4]), value_hash: h(0xaa) };
    let leaf_1255 = SubTree::Leaf { nibbles: nb(vec![5]), value_hash: h(0xbb) };
    let mut inner = empty_children();
    inner[3] = Some(leaf_1234);
    inner[5] = Some(leaf_1255);
    let ext = SubTree::Extension {
        nibbles: nb(vec![2]),
        child: Box::new(SubTree::Branch { children: inner }),
    };
    let leaf_99 = SubTree::Leaf { nibbles: nb(vec![9]), value_hash: h(0xcc) };
    let mut root = empty_children();
    root[1] = Some(ext);
    root[9] = Some(leaf_99);
    PartialTrie::from_subtree(SubTree::Branch { children: root })
}

fn key(bytes: Vec<u8>) -> NibbleBuf {
    NibbleBuf::from_bytes(&bytes)
}

#[test]
fn trie_round_trip_reads() {
    let t = sample_trie();
    assert_eq!(t.read_key(&key(vec![0x12, 0x34])).unwrap(), h(0xaa));
    assert_eq!(t.read_key(&key(vec![0x12, 0x55])).unwrap(), h(0xbb));
    assert_eq!(t.read_key(&key(vec![0x99])).unwrap(), h(0xcc));
    // an absent key resolves to the zero digest
    assert_eq!(t.read_key(&key(vec![0x12, 0x99])).unwrap(), H256::zero());
    assert_eq!(t.read_key(&key(vec![0x77])).unwrap(), H256::zero());
}

#[test]
fn read_key_that_ends_on_branch_is_invalid() {
    let t = sample_trie();
    // one nibble: ends inside the root branch's child structure
    let r = t.read_key(&nb(vec![1, 2]));
    assert_eq!(r.unwrap_err(), TrieError::InvalidKey);
}

#[test]
fn empty_trie_reads_zero_and_has_zero_root() {
    let t = PartialTrie::new();
    assert_eq!(t.read_key(&key(vec![0x12])).unwrap(), H256::zero());
    assert_eq!(t.root_hash(), H256::zero());
}

#[test]
fn digest_is_stable_and_value_dependent() {
    let t1 = sample_trie();
    let t2 = sample_trie();
    assert_eq!(t1.root_hash(), t2.root_hash());
    // changing one stored value changes the root digest
    let mut other = empty_children();
    other[9] = Some(SubTree::Leaf { nibbles: nb(vec![9]), value_hash: h(0xdd) });
    let leaf_1234 = SubTree::Leaf { nibbles: nb(vec![4]), value_hash: h(0xaa) };
    let leaf_1255 = SubTree::Leaf { nibbles: nb(vec![5]), value_hash: h(0xbb) };
    let mut inner = empty_children();
    inner[3] = Some(leaf_1234);
    inner[5] = Some(leaf_1255);
    other[1] = Some(SubTree::Extension {
        nibbles: nb(vec![2]),
        child: Box::new(SubTree::Branch { children: inner }),
    });
    let t3 = PartialTrie::from_subtree(SubTree::Branch { children: other });
    assert_ne!(t1.root_hash(), t3.root_hash());
}

#[test]
fn prune_unused_keys_preserves_digest_and_prunes_reads() {
    let t = sample_trie();
    let pruned = prune_unused_keys(&t, &vec![key(vec![0x12, 0x34])]);
    assert_eq!(pruned.root_hash(), t.root_hash());
    // the used key still reads
    assert_eq!(pruned.read_key(&key(vec![0x12, 0x34])).unwrap(), h(0xaa));
    // an unused sibling is now a stub
    match pruned.read_key(&key(vec![0x12, 0x55])) {
        Err(TrieError::MissingTrieNode(_)) => {}
        other => panic!("expected a missing-node failure, got {:?}", other),
    }
}

#[test]
fn prune_unused_keys_with_no_keys_leaves_one_stub() {
    let t = sample_trie();
    let pruned = prune_unused_keys(&t, &Vec::new());
    assert_eq!(pruned.root_hash(), t.root_hash());
    // the whole trie collapsed into a root stub: any read needs a load
    match pruned.read_key(&key(vec![0x12, 0x34])) {
        Err(TrieError::MissingTrieNode(d)) => assert_eq!(d, t.root_hash()),
        other => panic!("expected a missing-node failure, got {:?}", other),
    }
    match pruned.root {
        Some(SubTree::Stub(d)) => assert_eq!(d, t.root_hash()),
        _ => panic!("expected a single root stub"),
    }
}

#[test]
fn prune_key_preserves_digest_at_every_depth() {
    let t = sample_trie();
    let k = key(vec![0x12, 0x34]);
    for kept in 0..5 {
        let pruned = prune_key(&t, &k, kept).unwrap();
        assert_eq!(pruned.root_hash(), t.root_hash());
    }
}

#[test]
fn prune_key_zero_keeps_only_the_root_stub() {
    let t = sample_trie();
    let pruned = prune_key(&t, &key(vec![0x99]), 0).unwrap();
    match pruned.root {
        Some(SubTree::Stub(d)) => assert_eq!(d, t.root_hash()),
        _ => panic!("expected a single root stub"),
    }
}

#[test]
fn prune_key_errors() {
    let empty = PartialTrie::new();
    assert_eq!(
        prune_key(&empty, &key(vec![0x12]), 1).unwrap_err(),
        TrieError::EmptyRoot
    );
    // a key that runs out at a branch
    let t = sample_trie();
    assert_eq!(
        prune_key(&t, &NibbleBuf::empty(), 1).unwrap_err(),
        TrieError::InvalidKey
    );
    // pruning through an already-pruned region fails
    let stubbed = prune_unused_keys(&t, &Vec::new());
    match prune_key(&stubbed, &key(vec![0x12, 0x34]), 2) {
        Err(TrieError::MissingTrieNode(_)) => {}
        other => panic!("expected a missing-node failure, got {:?}", other),
    }
}

#[test]
fn prune_key_off_path_leaves_trie_unchanged() {
    let t = sample_trie();
    // key diverges at the root branch: nothing to prune
    let pruned = prune_key(&t, &key(vec![0x77, 0x77]), 3).unwrap();
    assert_eq!(pruned.root_hash(), t.root_hash());
    assert_eq!(pruned.read_key(&key(vec![0x12, 0x55])).unwrap(), h(0xbb));
}
