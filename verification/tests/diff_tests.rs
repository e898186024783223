use slimchain_core::diff::{apply_diff, diff, diffs_compatible, merge_diff, PartialTrieDiff};
use slimchain_core::hash::data_hash;
use slimchain_core::hash::H256;
use slimchain_core::nibbles::NibbleBuf;
use slimchain_core::trie::{PartialTrie, SubTree};
use slimchain_core::tx_diff::{acc_diffs_compatible, merge_tx_trie_diff, tx_diffs_compatible, AccountTrieDiff, Address, TxTrieDiff};

fn nb(v: Vec<u8>) -> NibbleBuf {
    NibbleBuf::from_nibbles(v).unwrap()
}

fn h(b: u64) -> H256 {
    H256 { w0: b, w1: 0, w2: 0, w3: 0 }
}

fn empty_children() -> Vec<Option<SubTree>> {
    let mut cs: Vec<Option<SubTree>> = Vec::new();
    for _ in 0..16 {
        cs.push(None);
    }
    cs
}

/// A two-account trie with chosen leaf values under branch slots 1 and 9.
fn two_leaf_trie(v1: u64, v9: u64) -> PartialTrie {
    let mut root = empty_children();
    root[1] = Some(SubTree::Leaf { nibbles: nb(vec![2, 3, 4]), value_hash: h(v1) });
    root[9] = Some(SubTree::Leaf { nibbles: nb(vec![9]), value_hash: h(v9) });
    PartialTrie::from_subtree(SubTree::Branch { children: root })
}

#[test]
fn diff_apply_round_trip_restores_new_digest() {
    let t0 = two_leaf_trie(0xaa, 0xcc);
    let t1 = two_leaf_trie(0xdd, 0xcc);
    let d = diff(&t0, &t1);
    assert!(!d.is_empty());
    let rebuilt = apply_diff(&t0, &d).unwrap();
    assert_eq!(rebuilt.root_hash(), t1.root_hash());
    assert_ne!(rebuilt.root_hash(), t0.root_hash());
}

#[test]
fn diff_of_equal_tries_is_empty_and_applies_as_identity() {
    let t0 = two_leaf_trie(0xaa, 0xcc);
    let t1 = two_leaf_trie(0xaa, 0xcc);
    let d = diff(&t0, &t1);
    assert!(d.is_empty());
    let rebuilt = apply_diff(&t0, &d).unwrap();
    assert_eq!(rebuilt.root_hash(), t0.root_hash());
}

#[test]
fn diff_records_child_removal() {
    let t0 = two_leaf_trie(0xaa, 0xcc);
    let mut root = empty_children();
    root[1] = Some(SubTree::Leaf { nibbles: nb(vec![2, 3, 4]), value_hash: h(0xaa) });
    root[9] = Some(SubTree::Leaf { nibbles: nb(vec![9]), value_hash: h(0xee) });
    root[4] = Some(SubTree::Leaf { nibbles: nb(vec![0]), value_hash: h(0x11) });
    let t1 = PartialTrie::from_subtree(SubTree::Branch { children: root });
    let d = diff(&t0, &t1);
    let rebuilt = apply_diff(&t0, &d).unwrap();
    assert_eq!(rebuilt.root_hash(), t1.root_hash());
}

#[test]
fn apply_diff_fails_where_the_path_is_gone() {
    // a diff recorded against a deeper structure cannot apply to a leaf-only trie
    let t0 = two_leaf_trie(0xaa, 0xcc);
    let mut inner = empty_children();
    inner[3] = Some(SubTree::Leaf { nibbles: nb(vec![4]), value_hash: h(0xaa) });
    inner[7] = Some(SubTree::Leaf { nibbles: nb(vec![4]), value_hash: h(0xbb) });
    let mut root = empty_children();
    root[1] = Some(SubTree::Extension {
        nibbles: nb(vec![2]),
        child: Box::new(SubTree::Branch { children: inner.clone() }),
    });
    root[9] = Some(SubTree::Leaf { nibbles: nb(vec![9]), value_hash: h(0xcc) });
    let ta = PartialTrie::from_subtree(SubTree::Branch { children: root });
    let mut inner2 = empty_children();
    inner2[3] = Some(SubTree::Leaf { nibbles: nb(vec![4]), value_hash: h(0xaa) });
    inner2[7] = Some(SubTree::Leaf { nibbles: nb(vec![4]), value_hash: h(0xff) });
    let mut root2 = empty_children();
    root2[1] = Some(SubTree::Extension {
        nibbles: nb(vec![2]),
        child: Box::new(SubTree::Branch { children: inner2 }),
    });
    root2[9] = Some(SubTree::Leaf { nibbles: nb(vec![9]), value_hash: h(0xcc) });
    let tb = PartialTrie::from_subtree(SubTree::Branch { children: root2 });
    let d = diff(&ta, &tb);
    assert!(apply_diff(&ta, &d).is_ok());
    // the same deep diff against a shallower base fails
    assert!(apply_diff(&t0, &d).is_err());
}

#[test]
fn merge_diff_is_commutative_on_disjoint_paths() {
    let t0 = two_leaf_trie(0xaa, 0xcc);
    let t1 = two_leaf_trie(0xdd, 0xcc);
    let t2 = two_leaf_trie(0xaa, 0xee);
    let d1 = diff(&t0, &t1);
    let d2 = diff(&t0, &t2);
    let m12 = merge_diff(&d1, &d2);
    let m21 = merge_diff(&d2, &d1);
    let a12 = apply_diff(&t0, &m12).unwrap();
    let a21 = apply_diff(&t0, &m21).unwrap();
    assert_eq!(a12.root_hash(), a21.root_hash());
    // the merge carries both changes
    let both = two_leaf_trie(0xdd, 0xee);
    assert_eq!(a12.root_hash(), both.root_hash());
}

#[test]
fn merge_diff_left_bias_on_equal_overlap() {
    let t0 = two_leaf_trie(0xaa, 0xcc);
    let t1 = two_leaf_trie(0xdd, 0xcc);
    let d1 = diff(&t0, &t1);
    let d1b = diff(&t0, &t1);
    // identical replacements on the same path merge to the same diff
    let m = merge_diff(&d1, &d1b);
    let a = apply_diff(&t0, &m).unwrap();
    assert_eq!(a.root_hash(), t1.root_hash());
}

fn addr(a: u64) -> Address {
    Address { w0: a, w1: 0, w2: 0 }
}

fn acc_diff(nonce: u64, base: &PartialTrie, new: &PartialTrie) -> AccountTrieDiff {
    AccountTrieDiff {
        nonce: Some(nonce),
        code_hash: None,
        state_trie_diff: diff(base, new),
    }
}

#[test]
fn merge_tx_trie_diff_unites_accounts() {
    let base = two_leaf_trie(0xaa, 0xcc);
    let new1 = two_leaf_trie(0xdd, 0xcc);
    let new2 = two_leaf_trie(0xaa, 0xee);

    let lhs = TxTrieDiff::from_main(diff(&base, &new1)).add_account(
        addr(7),
        acc_diff(1, &base, &new1),
    );
    let rhs = TxTrieDiff::from_main(diff(&base, &new2)).add_account(
        addr(9),
        acc_diff(2, &base, &new2),
    );

    let merged = merge_tx_trie_diff(&lhs, &rhs);
    assert!(merged.account_diff(addr(7)).is_some());
    assert!(merged.account_diff(addr(9)).is_some());
    assert!(merged.account_diff(addr(8)).is_none());
    assert_eq!(merged.account_diff(addr(7)).unwrap().nonce, Some(1));
    assert_eq!(merged.account_diff(addr(9)).unwrap().nonce, Some(2));
    // the merged main diff carries both changes
    let both = two_leaf_trie(0xdd, 0xee);
    let a = apply_diff(&base, merged.main_diff()).unwrap();
    assert_eq!(a.root_hash(), both.root_hash());
}

#[test]
fn merge_tx_trie_diff_merges_shared_accounts() {
    let base = two_leaf_trie(0xaa, 0xcc);
    let new1 = two_leaf_trie(0xdd, 0xcc);
    let new2 = two_leaf_trie(0xaa, 0xee);
    let lhs = TxTrieDiff::from_main(PartialTrieDiff::new()).add_account(
        addr(7),
        acc_diff(3, &base, &new1),
    );
    let rhs = TxTrieDiff::from_main(PartialTrieDiff::new()).add_account(
        addr(7),
        acc_diff(3, &base, &new2),
    );
    let merged = merge_tx_trie_diff(&lhs, &rhs);
    let shared = merged.account_diff(addr(7)).unwrap();
    assert_eq!(shared.nonce, Some(3));
    let both = two_leaf_trie(0xdd, 0xee);
    let a = apply_diff(&base, &shared.state_trie_diff).unwrap();
    assert_eq!(a.root_hash(), both.root_hash());
}

#[test]
fn hashing_depends_on_the_input() {
    let a = data_hash(&vec![1, 2, 3]);
    let b = data_hash(&vec![1, 2, 4]);
    let a2 = data_hash(&vec![1, 2, 3]);
    assert_eq!(a, a2);
    assert_ne!(a, b);
    assert_ne!(a, H256::zero());
}

#[test]
fn compatibility_is_checkable() {
    let t0 = two_leaf_trie(0xaa, 0xcc);
    let t1 = two_leaf_trie(0xdd, 0xcc);
    let t2 = two_leaf_trie(0xaa, 0xee);
    let t1b = two_leaf_trie(0xee, 0xcc);
    let d1 = diff(&t0, &t1);
    let d2 = diff(&t0, &t2);
    // disjoint paths are compatible
    assert!(diffs_compatible(&d1, &d2));
    // the same replacement on a shared path is compatible
    assert!(diffs_compatible(&d1, &diff(&t0, &t1)));
    // different replacements on a shared path are not
    assert!(!diffs_compatible(&d1, &diff(&t0, &t1b)));

    let a_ok = acc_diff(1, &t0, &t1);
    let b_ok = acc_diff(1, &t0, &t2);
    let b_wrong_nonce = acc_diff(2, &t0, &t2);
    assert!(acc_diffs_compatible(&a_ok, &b_ok));
    assert!(!acc_diffs_compatible(&a_ok, &b_wrong_nonce));

    let lhs = TxTrieDiff::from_main(diff(&t0, &t1)).add_account(addr(7), acc_diff(1, &t0, &t1));
    let rhs = TxTrieDiff::from_main(diff(&t0, &t2)).add_account(addr(7), acc_diff(1, &t0, &t2));
    let rhs_bad = TxTrieDiff::from_main(diff(&t0, &t2)).add_account(
        addr(7),
        acc_diff(2, &t0, &t2),
    );
    assert!(tx_diffs_compatible(&lhs, &rhs));
    assert!(!tx_diffs_compatible(&lhs, &rhs_bad));
    // checked, the merge is permitted; commuting it reaches the same state
    let m12 = merge_tx_trie_diff(&lhs, &rhs);
    let m21 = merge_tx_trie_diff(&rhs, &lhs);
    let a12 = apply_diff(&t0, m12.main_diff()).unwrap();
    let a21 = apply_diff(&t0, m21.main_diff()).unwrap();
    assert_eq!(a12.root_hash(), a21.root_hash());
    let s12 = apply_diff(&t0, &m12.account_diff(addr(7)).unwrap().state_trie_diff).unwrap();
    let s21 = apply_diff(&t0, &m21.account_diff(addr(7)).unwrap().state_trie_diff).unwrap();
    assert_eq!(s12.root_hash(), s21.root_hash());
}
