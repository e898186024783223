use slimchain_core::engine::{ExecutedTx, SignedTxRequest, TxEngine, TxEngineWorker, TxTask, TxTaskIdGen};
use slimchain_core::hash::H256;
use slimchain_core::nibbles::NibbleBuf;
use slimchain_core::pubsub::{message_within_limit, PubSubTopic, MAX_MESSAGE_SIZE};
use slimchain_core::trie::{PartialTrie, SubTree};

fn nb(v: Vec<u8>) -> NibbleBuf {
    NibbleBuf::from_nibbles(v).unwrap()
}

fn h(b: u64) -> H256 {
    H256 { w0: b, w1: 0, w2: 0, w3: 0 }
}

fn snapshot() -> PartialTrie {
    PartialTrie::from_subtree(SubTree::Leaf { nibbles: nb(vec![1, 2]), value_hash: h(0xaa) })
}

/// Executes everything, touching the leaf's path; fails on an empty payload.
struct TestWorker;

impl TxEngineWorker for TestWorker {
    fn execute(&self, task: TxTask) -> Result<ExecutedTx, ()> {
        if task.signed_tx_req.payload.is_empty() {
            return Err(());
        }
        Ok(ExecutedTx {
            tx_hash: h(task.id + 100),
            touched_keys: vec![nb(vec![1, 2])],
        })
    }
}

fn task(gen: &mut TxTaskIdGen, payload: Vec<u8>) -> TxTask {
    let state = snapshot();
    let root = state.root_hash();
    TxTask::new(gen, 1, state, root, SignedTxRequest { payload })
}

#[test]
fn pushed_equals_popped_plus_remaining() {
    let mut gen = TxTaskIdGen::new();
    let mut engine = TxEngine::new(TestWorker);
    assert_eq!(engine.remaining_tasks(), 0);
    engine.push_task(task(&mut gen, vec![1]));
    engine.push_task(task(&mut gen, vec![2]));
    engine.push_task(task(&mut gen, vec![3]));
    assert_eq!(engine.remaining_tasks(), 3);

    let mut popped = 0;
    while let Some(_out) = engine.pop_or_wait_result() {
        popped += 1;
        // the counter always accounts for what is still queued or undrained
        assert_eq!(popped + engine.remaining_tasks(), 3);
    }
    assert_eq!(popped, 3);
    assert_eq!(engine.remaining_tasks(), 0);
}

#[test]
fn results_carry_the_pre_state_root() {
    let mut gen = TxTaskIdGen::new();
    let mut engine = TxEngine::new(TestWorker);
    let t = task(&mut gen, vec![7]);
    let expected_root = t.state_root;
    let expected_id = t.get_id();
    engine.push_task(t);
    let out = engine.pop_or_wait_result().unwrap();
    assert_eq!(out.task_id, expected_id);
    // the write-set trie is rooted at the pre-state root
    assert_eq!(out.tx_proposal.write_trie.trie.root_hash(), expected_root);
}

#[test]
fn failed_executions_release_their_counter_slot() {
    let mut gen = TxTaskIdGen::new();
    let mut engine = TxEngine::new(TestWorker);
    engine.push_task(task(&mut gen, Vec::new()));
    engine.push_task(task(&mut gen, vec![1]));
    assert_eq!(engine.remaining_tasks(), 2);
    // the failing task produces no result but gives back its slot
    let out = engine.pop_or_wait_result().unwrap();
    assert_eq!(out.task_id, 1);
    assert_eq!(engine.remaining_tasks(), 0);
    assert!(engine.pop_or_wait_result().is_none());
}

#[test]
fn task_ids_are_fresh_and_increasing() {
    let mut gen = TxTaskIdGen::new();
    let a = task(&mut gen, vec![1]);
    let b = task(&mut gen, vec![2]);
    let c = task(&mut gen, vec![3]);
    assert_eq!(a.get_id(), 0);
    assert_eq!(b.get_id(), 1);
    assert_eq!(c.get_id(), 2);
}

#[test]
fn topic_names_and_size_limit() {
    assert_eq!(PubSubTopic::TxProposal.topic_name(), "tx_proposal");
    assert_eq!(PubSubTopic::BlockProposal.topic_name(), "block_proposal");
    assert!(message_within_limit(MAX_MESSAGE_SIZE - 1));
    assert!(!message_within_limit(MAX_MESSAGE_SIZE));
    assert!(message_within_limit(0));
}
