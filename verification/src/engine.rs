//! The transaction engine's bookkeeping.
//!
//! Tasks go in, proposals come out, and an outstanding-task counter ties the
//! two: every pushed task is eventually popped as a result or dropped as a
//! failure, and the counter always equals what is still queued or undrained.
//! The engine executes against per-task state snapshots; a finished task's
//! write-set trie is the snapshot pruned to the paths the transaction
//! touched, so its root digest is the pre-state root.

use vstd::prelude::*;

use crate::hash::H256;
use crate::nibbles::NibbleBuf;
use crate::trie::{prune_unused_keys, trie_digest, PartialTrie};

verus! {

/// A signed transaction request, carried opaquely to the executor.
#[derive(Debug)]
pub struct SignedTxRequest {
    pub payload: Vec<u8>,
}

/// Hands out task identifiers, one more than the last each time.
pub struct TxTaskIdGen {
    next: u64,
}

impl TxTaskIdGen {
    pub closed spec fn spec_next(self) -> u64 {
        self.next
    }

    pub fn new() -> (r: TxTaskIdGen)
        ensures
            r.spec_next() == 0,
    {
        TxTaskIdGen { next: 0 }
    }

    /// A fresh identifier; later calls return strictly larger ones.
    pub fn fresh(&mut self) -> (r: u64)
        requires
            old(self).spec_next() < 0xffff_ffff_ffff_ffffu64,
        ensures
            r == old(self).spec_next(),
            final(self).spec_next() == old(self).spec_next() + 1,
    {
        let r = self.next;
        self.next = self.next + 1;
        r
    }
}

/// One unit of work: a request to execute against a state snapshot.
#[derive(Debug)]
pub struct TxTask {
    pub id: u64,
    pub block_height: u64,
    pub state: PartialTrie,
    pub state_root: H256,
    pub signed_tx_req: SignedTxRequest,
}

/// A task is coherent when its recorded root is its snapshot's digest.
pub open spec fn task_wf(t: TxTask) -> bool {
    t.state_root == trie_digest(t.state@)
}

impl TxTask {
    /// A new task with a fresh identifier.
    pub fn new(
        gen: &mut TxTaskIdGen,
        block_height: u64,
        state: PartialTrie,
        state_root: H256,
        signed_tx_req: SignedTxRequest,
    ) -> (r: TxTask)
        requires
            old(gen).spec_next() < 0xffff_ffff_ffff_ffffu64,
            state_root == trie_digest(state@),
        ensures
            r.id == old(gen).spec_next(),
            final(gen).spec_next() == old(gen).spec_next() + 1,
            r.block_height == block_height,
            r.state == state,
            r.state_root == state_root,
            r.signed_tx_req == signed_tx_req,
            task_wf(r),
    {
        let id = gen.fresh();
        TxTask { id, block_height, state, state_root, signed_tx_req }
    }

    pub fn get_id(&self) -> (r: u64)
        ensures
            r == self.id,
    {
        self.id
    }
}

/// What an executor returns: the executed transaction's digest and the keys
/// it read or wrote.
#[derive(Debug)]
pub struct ExecutedTx {
    pub tx_hash: H256,
    pub touched_keys: Vec<NibbleBuf>,
}

/// An executor of transaction tasks, supplied by the engine's user.
pub trait TxEngineWorker {
    /// Execute one task; an error drops the task.
    fn execute(&self, task: TxTask) -> Result<ExecutedTx, ()>;
}

/// A partial trie materialized along exactly the paths one transaction
/// touched, rooted at the pre-state root.
#[derive(Debug)]
pub struct TxWriteSetTrie {
    pub trie: PartialTrie,
}

/// An executed transaction and the write-set trie proving its effects.
#[derive(Debug)]
pub struct TxProposal {
    pub tx: ExecutedTx,
    pub write_trie: TxWriteSetTrie,
}

/// A finished task: its identifier and its proposal.
#[derive(Debug)]
pub struct TxTaskOutput {
    pub task_id: u64,
    pub tx_proposal: TxProposal,
}

/// The engine: queued tasks, finished results, and the outstanding counter,
/// with ghost tallies of everything ever pushed, popped and failed.
pub struct TxEngine<W> {
    worker: W,
    task_queue: Vec<TxTask>,
    result_queue: Vec<TxTaskOutput>,
    remaining: usize,
    pushed: Ghost<nat>,
    popped: Ghost<nat>,
    failed: Ghost<nat>,
}

impl<W> TxEngine<W> {
    pub closed spec fn tasks(self) -> Seq<TxTask> {
        self.task_queue@
    }

    pub closed spec fn results(self) -> Seq<TxTaskOutput> {
        self.result_queue@
    }

    pub closed spec fn spec_remaining(self) -> nat {
        self.remaining as nat
    }

    /// How many tasks were ever pushed.
    pub closed spec fn spec_pushed(self) -> nat {
        self.pushed@
    }

    /// How many results were ever popped.
    pub closed spec fn spec_popped(self) -> nat {
        self.popped@
    }

    /// How many tasks were dropped by a failing execution.
    pub closed spec fn spec_failed(self) -> nat {
        self.failed@
    }

    /// The accounting invariant: the counter equals what is queued plus what
    /// is undrained, and the ghost tallies balance.
    pub open spec fn wf(self) -> bool {
        &&& self.spec_remaining() == self.tasks().len() + self.results().len()
        &&& self.spec_pushed() == self.spec_popped() + self.spec_failed() + self.spec_remaining()
    }
}

impl<W: TxEngineWorker> TxEngine<W> {
    /// An engine around one executor, with nothing queued.
    pub fn new(worker: W) -> (r: TxEngine<W>)
        ensures
            r.wf(),
            r.tasks().len() == 0,
            r.results().len() == 0,
            r.spec_pushed() == 0,
            r.spec_popped() == 0,
            r.spec_failed() == 0,
    {
        TxEngine {
            worker,
            task_queue: Vec::new(),
            result_queue: Vec::new(),
            remaining: 0,
            pushed: Ghost(0),
            popped: Ghost(0),
            failed: Ghost(0),
        }
    }

    /// How many pushed tasks have not yet been popped or dropped.
    pub fn remaining_tasks(&self) -> (r: usize)
        ensures
            r == self.spec_remaining(),
    {
        self.remaining
    }

    /// Enqueue a task; the outstanding counter grows by one.
    pub fn push_task(&mut self, task: TxTask)
        requires
            old(self).wf(),
            old(self).spec_remaining() < usize::MAX,
        ensures
            final(self).wf(),
            final(self).tasks() == old(self).tasks().push(task),
            final(self).results() == old(self).results(),
            final(self).spec_remaining() == old(self).spec_remaining() + 1,
            final(self).spec_pushed() == old(self).spec_pushed() + 1,
            final(self).spec_popped() == old(self).spec_popped(),
            final(self).spec_failed() == old(self).spec_failed(),
    {
        self.remaining = self.remaining + 1;
        self.task_queue.push(task);
        proof {
            self.pushed@ = self.pushed@ + 1;
        }
    }

    /// Execute the oldest queued task, if any. A successful execution adds a
    /// result whose write-set trie is the task's snapshot pruned to the keys
    /// the transaction touched, so its root digest is the task's pre-state
    /// root. A failed execution drops the task and gives up its counter slot.
    pub fn execute_one(&mut self) -> (r: bool)
        requires
            old(self).wf(),
        ensures
            final(self).wf(),
            final(self).spec_pushed() == old(self).spec_pushed(),
            final(self).spec_popped() == old(self).spec_popped(),
            old(self).tasks().len() == 0 ==> !r && *final(self) == *old(self),
            old(self).tasks().len() > 0 ==> r && final(self).tasks() == old(self).tasks().drop_first()
                && {
                ||| (final(self).spec_failed() == old(self).spec_failed()
                    && final(self).spec_remaining() == old(self).spec_remaining()
                    && final(self).results().len() == old(self).results().len() + 1
                    && final(self).results().drop_last() == old(self).results()
                    && final(self).results().last().task_id == old(self).tasks()[0].id
                    && trie_digest(final(self).results().last().tx_proposal.write_trie.trie@)
                        == trie_digest(old(self).tasks()[0].state@))
                ||| (final(self).spec_failed() == old(self).spec_failed() + 1
                    && final(self).spec_remaining() + 1 == old(self).spec_remaining()
                    && final(self).results() == old(self).results())
            },
    {
        if self.task_queue.len() == 0 {
            return false;
        }
        let task = self.task_queue.remove(0);
        proof {
            assert(self.task_queue@ =~= old(self).tasks().drop_first());
        }
        let task_id = task.id;
        let ghost snapshot = task.state@;
        let state = task.state.duplicate();
        match self.worker.execute(task) {
            Ok(tx) => {
                let write_trie = TxWriteSetTrie {
                    trie: prune_unused_keys(&state, &tx.touched_keys),
                };
                let out = TxTaskOutput { task_id, tx_proposal: TxProposal { tx, write_trie } };
                let ghost old_results = self.result_queue@;
                self.result_queue.push(out);
                proof {
                    assert(self.result_queue@.drop_last() =~= old_results);
                }
                true
            },
            Err(_) => {
                self.remaining = self.remaining - 1;
                proof {
                    self.failed@ = self.failed@ + 1;
                }
                true
            },
        }
    }

    /// Dequeue one finished result; the outstanding counter shrinks by one.
    pub fn pop_result(&mut self) -> (r: Option<TxTaskOutput>)
        requires
            old(self).wf(),
        ensures
            final(self).wf(),
            final(self).spec_pushed() == old(self).spec_pushed(),
            final(self).spec_failed() == old(self).spec_failed(),
            final(self).tasks() == old(self).tasks(),
            old(self).results().len() == 0 ==> r is None && *final(self) == *old(self),
            old(self).results().len() > 0 ==> r is Some
                && final(self).results() == old(self).results().drop_first()
                && r->Some_0 == old(self).results()[0]
                && final(self).spec_popped() == old(self).spec_popped() + 1
                && final(self).spec_remaining() + 1 == old(self).spec_remaining(),
    {
        if self.result_queue.len() == 0 {
            return None;
        }
        let out = self.result_queue.remove(0);
        proof {
            assert(self.result_queue@ =~= old(self).results().drop_first());
        }
        self.remaining = self.remaining - 1;
        proof {
            self.popped@ = self.popped@ + 1;
        }
        Some(out)
    }

    /// Dequeue a result, running queued tasks until one is ready. An
    /// already-finished result returns at once, oldest first, and counts as
    /// one pop; otherwise queued tasks run until one yields a result, the
    /// failures among them giving up their counter slots. `None` only when
    /// nothing is queued or undrained.
    pub fn pop_or_wait_result(&mut self) -> (r: Option<TxTaskOutput>)
        requires
            old(self).wf(),
        ensures
            final(self).wf(),
            final(self).spec_pushed() == old(self).spec_pushed(),
            final(self).spec_failed() >= old(self).spec_failed(),
            r is Some ==> final(self).spec_popped() == old(self).spec_popped() + 1
                && final(self).spec_remaining() + 1 + (final(self).spec_failed() - old(
                self,
            ).spec_failed()) == old(self).spec_remaining(),
            r is None ==> final(self).spec_popped() == old(self).spec_popped()
                && final(self).tasks().len() == 0 && final(self).results().len() == 0,
            old(self).results().len() > 0 ==> r is Some && r->Some_0 == old(self).results()[0]
                && final(self).tasks() == old(self).tasks()
                && final(self).results() == old(self).results().drop_first()
                && final(self).spec_failed() == old(self).spec_failed(),
    {
        loop
            invariant
                self.wf(),
                self.spec_pushed() == old(self).spec_pushed(),
                self.spec_popped() == old(self).spec_popped(),
                self.spec_failed() >= old(self).spec_failed(),
                self.spec_remaining() + (self.spec_failed() - old(self).spec_failed())
                    == old(self).spec_remaining(),
                old(self).results().len() > 0 ==> *self == *old(self),
            decreases self.tasks().len(),
        {
            let got = self.pop_result();
            if got.is_some() {
                return got;
            }
            if self.task_queue.len() == 0 {
                return None;
            }
            self.execute_one();
        }
    }
}

/// What goes in comes out: while nothing has failed, every pushed task is
/// either already popped or still counted as outstanding.
pub proof fn lemma_task_accounting<W>(e: TxEngine<W>)
    requires
        e.wf(),
        e.spec_failed() == 0,
    ensures
        e.spec_popped() + e.spec_remaining() == e.spec_pushed(),
{
}

} // verus!
