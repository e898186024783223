//! The block commit pipeline: ordering, validation, and state transition.
//!
//! Commits strictly follow block height. A proposal is validated against
//! the latest committed block — consensus fields, parent digest, the
//! transaction list, and the state diff — and only then does the chain
//! state advance: the diff applied to the local main trie must land exactly
//! on the proposal's declared state root.

use vstd::prelude::*;

use crate::diff::{apply_child, apply_diff};
use crate::engine::ExecutedTx;
use crate::hash::H256;
use crate::pow::{block_digest, diff_in_range, spec_compute_diff, spec_nonce_ok, ts_in_range, verify_consensus, Block, ConsensusError};
use crate::trie::{trie_digest, PartialTrie};
use crate::tx_diff::TxTrieDiff;

verus! {

/// What to do with a proposal at a given height.
#[derive(Clone, Copy, PartialEq, Eq, Structural, Debug)]
pub enum CommitDecision {
    /// The next height: validate and commit now.
    Apply,
    /// A future height: hold it until the gap closes.
    Buffer,
    /// At or below the latest height: discard it.
    Drop,
}

/// Where a proposal at height `h` goes when the latest committed height is
/// `latest`: the direct successor is applied, later heights are buffered,
/// and anything at or below the latest is dropped.
pub fn commit_ordering(latest: u64, h: u64) -> (r: CommitDecision)
    ensures
        r == CommitDecision::Apply <==> h == latest + 1,
        r == CommitDecision::Buffer <==> h > latest + 1,
        r == CommitDecision::Drop <==> h <= latest,
{
    if h <= latest {
        CommitDecision::Drop
    } else if h - latest == 1 {
        CommitDecision::Apply
    } else {
        CommitDecision::Buffer
    }
}

/// Why a proposal was rejected.
#[derive(Clone, Copy, PartialEq, Eq, Structural, Debug)]
pub enum CommitError {
    /// The proposal's height is not the successor of the latest block's.
    HeightGap,
    /// The proposal's parent digest is not the latest block's digest.
    PrevHashMismatch,
    /// The proposal's timestamp regressed or left the supported range.
    InvalidTimestamp,
    /// The consensus fields fail verification.
    ConsensusInvalid(ConsensusError),
    /// The block's difficulty leaves the range this node supports.
    DifficultyOutOfRange,
    /// The header's transaction list is not the transactions' digests.
    TxListMismatch,
    /// The state diff does not apply, or lands on the wrong root.
    DiffApplyMismatch,
}

/// A block, its transactions, and the state diff that lets any node
/// transition its local state.
#[derive(Debug)]
pub struct BlockProposal {
    pub block: Block,
    pub txs: Vec<ExecutedTx>,
    pub state_update: TxTrieDiff,
}

/// The digests of a list of executed transactions, in order.
pub open spec fn tx_digests(txs: Seq<ExecutedTx>) -> Seq<H256> {
    txs.map_values(|t: ExecutedTx| t.tx_hash)
}

/// The chain state one node holds: the latest committed block and the main
/// trie at that block.
#[derive(Debug)]
pub struct ChainState {
    pub latest_block: Block,
    pub main_trie: PartialTrie,
}

/// A chain state is coherent when its trie's digest is the committed root.
pub open spec fn chain_wf(s: ChainState) -> bool {
    &&& trie_digest(s.main_trie@) == s.latest_block@.header.state_root
    &&& diff_in_range(s.latest_block@.diff)
    &&& ts_in_range(s.latest_block@.header.time_stamp)
}

/// Does the proposal's header carry exactly its transactions' digests?
#[verifier::opaque]
pub open spec fn tx_list_ok(p: BlockProposal) -> bool {
    p.block@.header.tx_list == tx_digests(p.txs@)
}

/// The validation conditions of the commit pipeline, in the order they are
/// checked.
#[verifier::opaque]
pub open spec fn height_ok(s: ChainState, p: BlockProposal) -> bool {
    p.block@.header.height == s.latest_block@.header.height + 1
}

#[verifier::opaque]
pub open spec fn prev_hash_ok(s: ChainState, p: BlockProposal) -> bool {
    p.block@.header.prev_blk_hash == block_digest(s.latest_block@)
}

#[verifier::opaque]
pub open spec fn timestamp_ok(s: ChainState, p: BlockProposal) -> bool {
    &&& ts_in_range(p.block@.header.time_stamp)
    &&& s.latest_block@.header.time_stamp <= p.block@.header.time_stamp
}

#[verifier::opaque]
pub open spec fn consensus_ok(s: ChainState, p: BlockProposal) -> bool {
    &&& p.block@.diff == spec_compute_diff(
        p.block@.header.time_stamp,
        s.latest_block@.diff,
        s.latest_block@.header.time_stamp,
    )
    &&& spec_nonce_ok(p.block@)
}

/// Does the main-trie diff apply and land on the declared state root?
#[verifier::opaque]
pub open spec fn state_update_ok(s: ChainState, p: BlockProposal) -> bool {
    &&& apply_child(s.main_trie@, p.state_update@.main, Seq::<u8>::empty()) is Ok
    &&& trie_digest(apply_child(s.main_trie@, p.state_update@.main, Seq::<u8>::empty())->Ok_0)
        == p.block@.header.state_root
}

/// Validate a block proposal against the chain state and, if every check
/// passes, commit it: the new state holds the proposal's block, and its
/// main trie — the old one with the diff applied — has exactly the
/// proposal's declared state root. Any failure leaves the chain unchanged
/// and names the first check that failed.
/// The head of the pipeline: ordering, parent digest, timestamp and
/// consensus checks, in that order.
#[verifier::rlimit(100)]
#[verifier::spinoff_prover]
fn check_head(state: &ChainState, proposal: &BlockProposal) -> (r: Result<(), CommitError>)
    requires
        chain_wf(*state),
    ensures
        r is Ok <==> height_ok(*state, *proposal) && prev_hash_ok(*state, *proposal)
            && timestamp_ok(*state, *proposal) && consensus_ok(*state, *proposal),
        r == Err::<(), CommitError>(CommitError::HeightGap) <==> !height_ok(*state, *proposal),
        r == Err::<(), CommitError>(CommitError::PrevHashMismatch) <==> height_ok(
            *state,
            *proposal,
        ) && !prev_hash_ok(*state, *proposal),
        r == Err::<(), CommitError>(CommitError::InvalidTimestamp) <==> height_ok(
            *state,
            *proposal,
        ) && prev_hash_ok(*state, *proposal) && !timestamp_ok(*state, *proposal),
        r is Err && r->Err_0 is ConsensusInvalid <==> height_ok(*state, *proposal)
            && prev_hash_ok(*state, *proposal) && timestamp_ok(*state, *proposal)
            && !consensus_ok(*state, *proposal),
{
    // ordering: only the direct successor commits
    let c_height = proposal.block.header.height > state.latest_block.header.height
        && proposal.block.header.height - state.latest_block.header.height == 1;
    proof {
        assert(c_height == height_ok(*state, *proposal)) by {
            reveal(height_ok);
        }
    }
    if !c_height {
        return Err(CommitError::HeightGap);
    }
    // parent digest
    let latest_digest = state.latest_block.to_digest();
    let c_prev = proposal.block.header.prev_blk_hash == latest_digest;
    proof {
        assert(c_prev == prev_hash_ok(*state, *proposal)) by {
            reveal(prev_hash_ok);
        }
    }
    if !c_prev {
        return Err(CommitError::PrevHashMismatch);
    }
    // timestamps stay in range and never regress
    let ts = proposal.block.header.time_stamp;
    let c_ts = ts > -0x2000_0000_0000_0000i64 && ts < 0x2000_0000_0000_0000i64
        && state.latest_block.header.time_stamp <= ts;
    proof {
        assert(c_ts == timestamp_ok(*state, *proposal)) by {
            reveal(timestamp_ok);
        }
    }
    if !c_ts {
        return Err(CommitError::InvalidTimestamp);
    }
    // consensus fields
    match verify_consensus(&proposal.block, &state.latest_block) {
        Ok(()) => {
            proof {
                assert(consensus_ok(*state, *proposal)) by {
                    reveal(consensus_ok);
                }
            }
            Ok(())
        },
        Err(e) => {
            proof {
                assert(!consensus_ok(*state, *proposal)) by {
                    reveal(consensus_ok);
                }
            }
            Err(CommitError::ConsensusInvalid(e))
        },
    }
}

#[verifier::rlimit(100)]
#[verifier::spinoff_prover]
pub fn commit_block(state: &ChainState, proposal: &BlockProposal) -> (r: Result<
    ChainState,
    CommitError,
>)
    requires
        chain_wf(*state),
    ensures
        r is Ok ==> {
            let ns = r->Ok_0;
            &&& diff_in_range(proposal.block@.diff)
            &&& height_ok(*state, *proposal)
            &&& prev_hash_ok(*state, *proposal)
            &&& timestamp_ok(*state, *proposal)
            &&& consensus_ok(*state, *proposal)
            &&& tx_list_ok(*proposal)
            &&& state_update_ok(*state, *proposal)
            &&& ns.latest_block@ == proposal.block@
            &&& ns.main_trie@ == apply_child(
                state.main_trie@,
                proposal.state_update@.main,
                Seq::<u8>::empty(),
            )->Ok_0
            &&& trie_digest(ns.main_trie@) == proposal.block@.header.state_root
            &&& chain_wf(ns)
        },
        r == Err::<ChainState, CommitError>(CommitError::HeightGap) <==> !height_ok(
            *state,
            *proposal,
        ),
        r == Err::<ChainState, CommitError>(CommitError::PrevHashMismatch) <==> height_ok(
            *state,
            *proposal,
        ) && !prev_hash_ok(*state, *proposal),
        r == Err::<ChainState, CommitError>(CommitError::InvalidTimestamp) <==> height_ok(
            *state,
            *proposal,
        ) && prev_hash_ok(*state, *proposal) && !timestamp_ok(*state, *proposal),
        r is Ok <==> height_ok(*state, *proposal) && prev_hash_ok(*state, *proposal)
            && timestamp_ok(*state, *proposal) && consensus_ok(*state, *proposal) && diff_in_range(
            proposal.block@.diff,
        ) && tx_list_ok(*proposal) && state_update_ok(*state, *proposal),
{
    match check_head(state, proposal) {
        Ok(()) => {},
        Err(e) => {
            return Err(e);
        },
    }
    // the difficulty this node can keep computing with
    if !(proposal.block.diff >= 1 && proposal.block.diff <= 0x4000_0000_0000_0000u64) {
        return Err(CommitError::DifficultyOutOfRange);
    }
    // the header's transaction list is the transactions' digests, in order
    let n = proposal.txs.len();
    if proposal.block.header.tx_list.len() != n {
        proof {
            assert(!tx_list_ok(*proposal)) by {
                reveal(tx_list_ok);
                assert(proposal.block@.header.tx_list.len() != tx_digests(proposal.txs@).len());
            }
        }
        return Err(CommitError::TxListMismatch);
    }
    let mut i: usize = 0;
    while i < n
        invariant
            i <= n == proposal.txs@.len(),
            proposal.block@.header.tx_list.len() == n,
            chain_wf(*state),
            diff_in_range(proposal.block@.diff),
            height_ok(*state, *proposal),
            prev_hash_ok(*state, *proposal),
            timestamp_ok(*state, *proposal),
            consensus_ok(*state, *proposal),
            forall|j: int|
                0 <= j < i ==> proposal.block@.header.tx_list[j] == tx_digests(proposal.txs@)[j],
        decreases n - i,
    {
        if !(proposal.block.header.tx_list[i] == proposal.txs[i].tx_hash) {
            proof {
                assert(!tx_list_ok(*proposal)) by {
                    reveal(tx_list_ok);
                    let ii = i as int;
                    assert(proposal.block@.header.tx_list[ii] != tx_digests(proposal.txs@)[ii]);
                }
            }
            return Err(CommitError::TxListMismatch);
        }
        i += 1;
    }
    proof {
        assert(tx_list_ok(*proposal)) by {
            reveal(tx_list_ok);
            assert(proposal.block@.header.tx_list =~= tx_digests(proposal.txs@));
        }
    }
    // replay the state diff and check the root it lands on
    let new_trie = match apply_diff(&state.main_trie, proposal.state_update.main_diff()) {
        Ok(t) => t,
        Err(_) => {
            proof {
                assert(!state_update_ok(*state, *proposal)) by {
                    reveal(state_update_ok);
                }
            }
            return Err(CommitError::DiffApplyMismatch);
        },
    };
    let new_root = new_trie.root_hash();
    proof {
        assert((new_root == proposal.block@.header.state_root) == state_update_ok(
            *state,
            *proposal,
        )) by {
            reveal(state_update_ok);
        }
    }
    if !(new_root == proposal.block.header.state_root) {
        return Err(CommitError::DiffApplyMismatch);
    }
    proof {
        reveal(timestamp_ok);
    }
    Ok(ChainState { latest_block: proposal.block.duplicate(), main_trie: new_trie })
}

/// Across a committed block, validation and application agree: whenever the
/// pipeline accepts a proposal, the new state's root is the root the
/// proposal's block declared.
pub proof fn lemma_commit_reaches_declared_root(s: ChainState, p: BlockProposal, ns: ChainState)
    requires
        chain_wf(s),
        height_ok(s, p),
        prev_hash_ok(s, p),
        timestamp_ok(s, p),
        consensus_ok(s, p),
        tx_list_ok(p),
        state_update_ok(s, p),
        ns.latest_block@ == p.block@,
        ns.main_trie@ == apply_child(s.main_trie@, p.state_update@.main, Seq::<u8>::empty())->Ok_0,
    ensures
        trie_digest(ns.main_trie@) == p.block@.header.state_root,
{
    reveal(state_update_ok);
}

} // verus!
