use slimchain_core::commit::{commit_block, commit_ordering, CommitDecision, CommitError, BlockProposal, ChainState};
use slimchain_core::diff::{diff, PartialTrieDiff};
use slimchain_core::engine::ExecutedTx;
use slimchain_core::hash::H256;
use slimchain_core::nibbles::NibbleBuf;
use slimchain_core::pow::{compute_diff, create_new_block, genesis_block, verify_consensus, Block, BlockHeader, ConsensusError, PoWConfig};
use slimchain_core::trie::{PartialTrie, SubTree};
use slimchain_core::tx_diff::TxTrieDiff;

fn header(height: u64, prev: H256, ts: i64, state_root: H256) -> BlockHeader {
    BlockHeader { height, prev_blk_hash: prev, time_stamp: ts, tx_list: Vec::new(), state_root }
}

#[test]
fn compute_diff_follows_the_retarget_formula() {
    let cfg = PoWConfig::new(4096);
    let genesis = genesis_block(&cfg);
    let t0 = 1596240000i64;
    // found quickly: one upward step of prev/2048
    assert_eq!(compute_diff(t0 + 5, &genesis), 4098);
    // 25 seconds: two spans, coefficient -1
    assert_eq!(compute_diff(t0 + 25, &genesis), 4094);
    // very slow: coefficient floored at -99
    assert_eq!(compute_diff(t0 + 100_000, &genesis), 4096 - 99 * 2);
    // small difficulties never move (the step is zero)
    let small = PoWConfig::new(1000);
    let g2 = genesis_block(&small);
    assert_eq!(compute_diff(t0 + 5, &g2), 1000);
}

#[test]
fn mine_and_verify() {
    let cfg = PoWConfig::new(100_000);
    let genesis = genesis_block(&cfg);
    let hd = header(1, genesis.to_digest(), 1596240100, H256::zero());
    let blk = create_new_block(hd, &genesis, 10_000_000).expect("mining gave up");
    assert!(verify_consensus(&blk, &genesis).is_ok());

    // a difficulty off by one is rejected
    let mut wrong_diff = blk.duplicate();
    wrong_diff.diff = wrong_diff.diff - 1;
    assert_eq!(
        verify_consensus(&wrong_diff, &genesis).unwrap_err(),
        ConsensusError::InvalidDifficulty
    );

    // a flipped nonce almost surely misses the threshold
    let mut wrong_nonce = blk.duplicate();
    wrong_nonce.nonce = wrong_nonce.nonce ^ 0x5555_5555_5555_5555;
    assert_eq!(
        verify_consensus(&wrong_nonce, &genesis).unwrap_err(),
        ConsensusError::InvalidNonce
    );
}

#[test]
fn commit_ordering_decisions() {
    assert_eq!(commit_ordering(5, 6), CommitDecision::Apply);
    assert_eq!(commit_ordering(5, 8), CommitDecision::Buffer);
    assert_eq!(commit_ordering(5, 5), CommitDecision::Drop);
    assert_eq!(commit_ordering(5, 1), CommitDecision::Drop);
}

fn genesis_state() -> ChainState {
    let cfg = PoWConfig::new(1);
    ChainState { latest_block: genesis_block(&cfg), main_trie: PartialTrie::new() }
}

fn mined_proposal(state: &ChainState, state_update: TxTrieDiff, new_root: H256) -> BlockProposal {
    let hd = header(
        state.latest_block.header.height + 1,
        state.latest_block.to_digest(),
        state.latest_block.header.time_stamp + 10,
        new_root,
    );
    let block = create_new_block(hd, &state.latest_block, 10_000_000).expect("mining gave up");
    BlockProposal { block, txs: Vec::new(), state_update }
}

#[test]
fn commit_applies_the_declared_state() {
    let state = genesis_state();
    // with an empty update the root stays zero
    let p = mined_proposal(&state, TxTrieDiff::new(), H256::zero());
    let ns = commit_block(&state, &p).unwrap();
    assert_eq!(ns.latest_block.header.height, 1);
    assert_eq!(ns.main_trie.root_hash(), H256::zero());

    // re-submitting the same block is dropped by ordering
    assert_eq!(
        commit_block(&ns, &p).unwrap_err(),
        CommitError::HeightGap
    );
    assert_eq!(commit_ordering(ns.latest_block.header.height, p.block.header.height), CommitDecision::Drop);
}

#[test]
fn commit_moves_the_trie_root_across_a_real_diff() {
    // a state whose trie holds one leaf; the block replaces its value
    let leaf = SubTree::Leaf {
        nibbles: NibbleBuf::from_nibbles(vec![1, 2]).unwrap(),
        value_hash: H256 { w0: 0xaa, w1: 0, w2: 0, w3: 0 },
    };
    let t0 = PartialTrie::from_subtree(leaf);
    let root0 = t0.root_hash();
    let cfg = PoWConfig::new(1);
    let genesis = genesis_block(&cfg);
    let mut gblk = genesis.duplicate();
    gblk.header.state_root = root0;
    // the genesis header carries the trie's root so the chain state is coherent
    let state = ChainState { latest_block: gblk, main_trie: t0.duplicate() };

    let leaf2 = SubTree::Leaf {
        nibbles: NibbleBuf::from_nibbles(vec![1, 2]).unwrap(),
        value_hash: H256 { w0: 0xdd, w1: 0, w2: 0, w3: 0 },
    };
    let t1 = PartialTrie::from_subtree(leaf2);
    let d = diff(&t0, &t1);
    let p = mined_proposal(&state, TxTrieDiff::from_main(d), t1.root_hash());
    let ns = commit_block(&state, &p).unwrap();
    assert_eq!(ns.main_trie.root_hash(), t1.root_hash());
    assert_eq!(ns.latest_block.header.state_root, t1.root_hash());
}

#[test]
fn commit_rejects_each_bad_field() {
    let state = genesis_state();
    let good = mined_proposal(&state, TxTrieDiff::new(), H256::zero());

    // height gap
    let mut p = BlockProposal {
        block: good.block.duplicate(),
        txs: Vec::new(),
        state_update: TxTrieDiff::new(),
    };
    p.block.header.height = 3;
    assert_eq!(commit_block(&state, &p).unwrap_err(), CommitError::HeightGap);

    // wrong parent digest
    let mut p = BlockProposal {
        block: good.block.duplicate(),
        txs: Vec::new(),
        state_update: TxTrieDiff::new(),
    };
    p.block.header.prev_blk_hash = H256 { w0: 1, w1: 2, w2: 3, w3: 4 };
    assert_eq!(commit_block(&state, &p).unwrap_err(), CommitError::PrevHashMismatch);

    // regressed timestamp
    let mut p = BlockProposal {
        block: good.block.duplicate(),
        txs: Vec::new(),
        state_update: TxTrieDiff::new(),
    };
    p.block.header.time_stamp = state.latest_block.header.time_stamp - 1;
    assert_eq!(commit_block(&state, &p).unwrap_err(), CommitError::InvalidTimestamp);

    // header transaction list that no transaction backs
    let mut p = BlockProposal {
        block: good.block.duplicate(),
        txs: Vec::new(),
        state_update: TxTrieDiff::new(),
    };
    p.block.header.tx_list.push(H256::zero());
    // the header changed, so consensus fields no longer match its digest;
    // rebuild them by mining the altered header
    let remined = create_new_block(p.block.header, &state.latest_block, 10_000_000).unwrap();
    let p = BlockProposal { block: remined, txs: Vec::new(), state_update: TxTrieDiff::new() };
    assert_eq!(commit_block(&state, &p).unwrap_err(), CommitError::TxListMismatch);

    // a declared state root the update does not reach
    let hd = header(
        1,
        state.latest_block.to_digest(),
        state.latest_block.header.time_stamp + 10,
        H256 { w0: 9, w1: 9, w2: 9, w3: 9 },
    );
    let blk = create_new_block(hd, &state.latest_block, 10_000_000).unwrap();
    let p = BlockProposal { block: blk, txs: Vec::new(), state_update: TxTrieDiff::new() };
    assert_eq!(commit_block(&state, &p).unwrap_err(), CommitError::DiffApplyMismatch);

    // wrong difficulty
    let mut p = BlockProposal {
        block: good.block.duplicate(),
        txs: Vec::new(),
        state_update: TxTrieDiff::new(),
    };
    p.block.diff = p.block.diff + 1;
    match commit_block(&state, &p).unwrap_err() {
        CommitError::ConsensusInvalid(ConsensusError::InvalidDifficulty) => {}
        other => panic!("expected an invalid difficulty, got {:?}", other),
    }
}

#[test]
fn commit_accepts_matching_tx_list() {
    let state = genesis_state();
    let tx = ExecutedTx { tx_hash: H256 { w0: 42, w1: 0, w2: 0, w3: 0 }, touched_keys: Vec::new() };
    let mut hd = header(
        1,
        state.latest_block.to_digest(),
        state.latest_block.header.time_stamp + 10,
        H256::zero(),
    );
    hd.tx_list.push(tx.tx_hash);
    let blk = create_new_block(hd, &state.latest_block, 10_000_000).unwrap();
    let p = BlockProposal { block: blk, txs: vec![tx], state_update: TxTrieDiff::new() };
    let ns = commit_block(&state, &p).unwrap();
    assert_eq!(ns.latest_block.header.tx_list.len(), 1);
}

#[test]
fn empty_diff_is_empty() {
    assert!(PartialTrieDiff::new().is_empty());
}

#[test]
fn mining_succeeds_outright_when_the_first_candidate_passes() {
    // at difficulty one the threshold admits every digest, so the first
    // candidate wins and no retries are needed
    let cfg = PoWConfig::new(1);
    let genesis = genesis_block(&cfg);
    let hd = header(1, genesis.to_digest(), 1596240100, H256::zero());
    let blk = create_new_block(hd, &genesis, 0).expect("the first candidate must win");
    assert_eq!(blk.nonce, 0);
    assert!(verify_consensus(&blk, &genesis).is_ok());
}
