//! The batch runtime: checks every transaction, validates every unlocker
//! and every distinct operator, writes the outputs, marks the inputs spent,
//! and commits — or leaves the storage exactly as it was.

use vstd::prelude::*;

use crate::checker::{register_outputs, CheckerError, TransactionChecker};
use crate::error::Error;
use crate::script::Script;
use crate::traits::{
    commit_map, CommittableStorage, LeafStorage, SandboxError, ScriptValidator, Storage,
    StorageError,
};
use crate::tx::{Transaction, TransactionView};
use crate::types::{LeafId, LeafIdView};
use crate::unsigned_tx::{spec_txid, FilledTransaction};

verus! {

/// Why a batch failed. Any failure leaves the storage untouched.
#[derive(Debug)]
pub enum BatchError {
    /// A resolved input's data does not parse as a script.
    Codec(Error),
    /// The checker rejected a transaction.
    Checker(CheckerError),
    /// A locking script failed for the input with this leaf id.
    Script(LeafId, SandboxError),
    /// An operator with this leaf id failed.
    Operator(LeafId, SandboxError),
    /// The storage backend failed.
    Storage(StorageError),
}

/// The leaves a batch produces, keyed by leaf id, in batch order: the
/// outputs of the first `n` transactions.
pub open spec fn batch_stores(txs: Seq<TransactionView>, n: int) -> Map<LeafIdView, crate::leaf::LeafView>
    decreases n,
{
    if n <= 0 {
        Map::empty()
    } else {
        register_outputs(
            batch_stores(txs, n - 1),
            spec_txid(txs[n - 1].unsigned),
            txs[n - 1].unsigned.outputs,
            txs[n - 1].unsigned.outputs.len() as int,
        )
    }
}

/// The leaf ids of an input list.
pub open spec fn inputs_set(inputs: Seq<LeafIdView>) -> Set<LeafIdView>
    decreases inputs.len(),
{
    if inputs.len() == 0 {
        Set::empty()
    } else {
        inputs_set(inputs.drop_last()).insert(inputs.last())
    }
}

/// The leaf ids a batch consumes: the inputs of the first `n` transactions.
pub open spec fn batch_spends(txs: Seq<TransactionView>, n: int) -> Set<LeafIdView>
    decreases n,
{
    if n <= 0 {
        Set::empty()
    } else {
        batch_spends(txs, n - 1).union(inputs_set(txs[n - 1].unsigned.inputs))
    }
}

/// Taking one more input inserts it.
proof fn lemma_inputs_set_take(inputs: Seq<LeafIdView>, i: int)
    requires
        0 <= i < inputs.len(),
    ensures
        inputs_set(inputs.take(i + 1)) == inputs_set(inputs.take(i)).insert(inputs[i]),
{
    assert(inputs.take(i + 1).drop_last() =~= inputs.take(i));
    assert(inputs.take(i + 1).last() == inputs[i]);
}

/// Orchestrates batches against a storage and a script engine.
pub struct Runtime<S> {
    storage: S,
}

impl<S> Runtime<S> where S: Storage, S::LeafStorage: CommittableStorage<Committed = S> {
    /// What the runtime currently holds as its durable storage.
    pub closed spec fn store(&self) -> S {
        self.storage
    }

    /// Wraps a storage.
    pub fn new(storage: S) -> (r: Self)
        ensures
            r.store() == storage,
    {
        Self { storage }
    }

    /// The durable storage, for reading.
    pub fn storage(&self) -> (r: &S)
        ensures
            *r == self.store(),
    {
        &self.storage
    }

    /// Runs one batch to completion: every transaction is checked in order,
    /// every input's locking script and every distinct operator is
    /// validated, then every output is stored, every input marked spent, and
    /// the batch commits under the next version. On any failure nothing is
    /// committed and the storage is exactly what it was.
    pub fn batch_execute_transaction<V: ScriptValidator>(
        &mut self,
        validator: &V,
        transactions: Vec<Transaction>,
    ) -> (r: Result<(), BatchError>)
        requires
            old(self).store().inv(),
            old(self).store().version() < u64::MAX,
            forall|k: int|
                0 <= k < transactions@.len() ==> (#[trigger] transactions@[k]).wf(),
        ensures
            r is Err ==> *final(self) == *old(self),
            r is Ok ==> final(self).store().inv() && final(self).store().version() == old(
                self,
            ).store().version() + 1 && final(self).store().committed() == commit_map(
                old(self).store().committed(),
                batch_stores(
                    transactions@.map_values(|t: Transaction| t@),
                    transactions@.len() as int,
                ),
                batch_spends(
                    transactions@.map_values(|t: Transaction| t@),
                    transactions@.len() as int,
                ),
                (old(self).store().version() + 1) as u64,
            ),
    {
        let ghost tvs = transactions@.map_values(|t: Transaction| t@);
        let n = transactions.len();

        let mut view = match self.storage.open_leaf_storage() {
            Ok(v) => v,
            Err(e) => {
                return Err(BatchError::Storage(e));
            },
        };

        let mut checker = TransactionChecker::new();
        let mut filled_txs: Vec<FilledTransaction> = Vec::new();
        let mut operator_jobs: Vec<(LeafId, crate::leaf::Leaf, usize)> = Vec::new();
        let mut seen_ops: usize = 0;
        let mut k: usize = 0;
        while k < n
            invariant
                k <= n,
                n == transactions@.len(),
                tvs == transactions@.map_values(|t: Transaction| t@),
                forall|j: int| 0 <= j < n ==> (#[trigger] transactions@[j]).wf(),
                view.inv(),
                checker.wf(),
                forall|j: int| 0 <= j < operator_jobs@.len() ==> (#[trigger] operator_jobs@[j]).2
                    < n,
                filled_txs@.len() == k,
                forall|j: int|
                    0 <= j < k ==> {
                        let f = #[trigger] filled_txs@[j];
                        &&& f@.inputs.len() == transactions@[j]@.unsigned.inputs.len()
                        &&& f@.unlockers == transactions@[j]@.unlockers
                        &&& f@.unlockers.len() == transactions@[j]@.unsigned.inputs.len()
                        &&& (forall|i: int| 0 <= i < f@.inputs.len() ==> (#[trigger] f@.inputs[i]).wf())
                        &&& f.inputs@.len() == f@.inputs.len()
                        &&& f.unlockers@.len() == f@.unlockers.len()
                    },
            decreases n - k,
        {
            let tx = transactions[k].clone();
            proof {
                assert(tx@ == transactions@[k as int]@);
                assert(tvs[k as int] == transactions@[k as int]@);
            }
            let ghost cst = checker@;
            let filled = match checker.check_leaf_id(&view, tx) {
                Ok(f) => f,
                Err(e) => {
                    return Err(BatchError::Checker(e));
                },
            };
            proof {
                crate::checker::lemma_check_filled_len(
                    cst,
                    view.leaves(),
                    view.spent(),
                    transactions@[k as int]@,
                );
            }
            filled_txs.push(filled);
            let collected = checker.operators();
            let mut j: usize = if seen_ops <= collected.len() {
                seen_ops
            } else {
                collected.len()
            };
            while j < collected.len()
                invariant
                    j <= collected@.len(),
                    k < n,
                    n == transactions@.len(),
                    forall|t: int| 0 <= t < operator_jobs@.len() ==> (
                    #[trigger] operator_jobs@[t]).2 < n,
                decreases collected@.len() - j,
            {
                let p = &collected[j];
                operator_jobs.push((p.0.clone(), p.1.clone(), k));
                j += 1;
            }
            seen_ops = collected.len();
            k += 1;
        }

        let mut k: usize = 0;
        while k < n
            invariant
                k <= n,
                n == transactions@.len(),
                forall|j: int| 0 <= j < n ==> (#[trigger] transactions@[j]).wf(),
                filled_txs@.len() == n,
                forall|j: int|
                    0 <= j < n ==> {
                        let f = #[trigger] filled_txs@[j];
                        &&& f@.inputs.len() == transactions@[j]@.unsigned.inputs.len()
                        &&& f@.unlockers == transactions@[j]@.unlockers
                        &&& f@.unlockers.len() == transactions@[j]@.unsigned.inputs.len()
                        &&& (forall|i: int| 0 <= i < f@.inputs.len() ==> (#[trigger] f@.inputs[i]).wf())
                        &&& f.inputs@.len() == f@.inputs.len()
                        &&& f.unlockers@.len() == f@.unlockers.len()
                    },
            decreases n - k,
        {
            let filled = &filled_txs[k];
            let tx = &transactions[k];
            let count = filled.inputs.len();
            proof {
                assert(filled_txs@[k as int]@.unlockers == transactions@[k as int]@.unlockers);
            }
            let mut i: usize = 0;
            while i < count
                invariant
                    i <= count,
                    k < n,
                    n == transactions@.len(),
                    forall|j: int| 0 <= j < n ==> (#[trigger] transactions@[j]).wf(),
                    filled_txs@.len() == n,
                    filled == filled_txs@[k as int],
                    tx == transactions@[k as int],
                    count == filled.inputs@.len(),
                    count == filled_txs@[k as int]@.inputs.len(),
                    count == transactions@[k as int]@.unsigned.inputs.len(),
                    filled.unlockers@.len() == filled_txs@[k as int]@.unlockers.len(),
                    filled.unlockers@.len() == count,
                    filled_txs@[k as int]@.unlockers == transactions@[k as int]@.unlockers,
                    forall|j: int|
                        0 <= j < count ==> (#[trigger] filled_txs@[k as int]@.inputs[j]).wf(),
                decreases count - i,
            {
                let input_leaf = &filled.inputs[i];
                proof {
                    assert(input_leaf@ == filled_txs@[k as int]@.inputs[i as int]);
                    assert(input_leaf.wf());
                }
                let script = match Script::from_slice(input_leaf.data.0.as_slice()) {
                    Ok(s) => s,
                    Err(e) => {
                        return Err(BatchError::Codec(e));
                    },
                };
                assert(i < filled.unlockers@.len());
                match validator.validate_script(&script, &tx.unsigned, &filled.unlockers[i]) {
                    Ok(()) => {
                    },
                    Err(e) => {
                        assert(i < tx.unsigned.inputs@.len());
                        return Err(BatchError::Script(tx.unsigned.inputs[i].clone(), e));
                    },
                }
                i += 1;
            }
            k += 1;
        }

        let mut j: usize = 0;
        while j < operator_jobs.len()
            invariant
                j <= operator_jobs@.len(),
                n == transactions@.len(),
                forall|t: int| 0 <= t < operator_jobs@.len() ==> (#[trigger] operator_jobs@[t]).2
                    < n,
                forall|t: int| 0 <= t < n ==> (#[trigger] transactions@[t]).wf(),
            decreases operator_jobs@.len() - j,
        {
            let p = &operator_jobs[j];
            match validator.validate_operator(&p.1.data, &p.0, &transactions[p.2].unsigned) {
                Ok(()) => {
                },
                Err(e) => {
                    return Err(BatchError::Operator(p.0.clone(), e));
                },
            }
            j += 1;
        }

        let ghost base0 = view.base();
        let ghost bver0 = view.base_version();
        let mut k: usize = 0;
        proof {
            assert(view.pending_stores() =~= batch_stores(tvs, 0));
        }
        while k < n
            invariant
                k <= n,
                n == transactions@.len(),
                tvs == transactions@.map_values(|t: Transaction| t@),
                forall|j: int| 0 <= j < n ==> (#[trigger] transactions@[j]).wf(),
                view.inv(),
                view.base() == base0,
                view.base_version() == bver0,
                view.pending_spends() == Set::<LeafIdView>::empty(),
                view.pending_stores() == batch_stores(tvs, k as int),
            decreases n - k,
        {
            let tx = &transactions[k];
            let txid = match tx.unsigned.hash() {
                Ok(t) => t,
                Err(_) => {
                    proof {
                        assert(false);
                    }
                    return Err(BatchError::Storage(StorageError::NotFound));
                },
            };
            let out_count = tx.unsigned.outputs.len();
            let mut i: usize = 0;
            while i < out_count
                invariant
                    i <= out_count,
                    k < n,
                    n == transactions@.len(),
                    tvs == transactions@.map_values(|t: Transaction| t@),
                    forall|j: int| 0 <= j < n ==> (#[trigger] transactions@[j]).wf(),
                    tx == transactions@[k as int],
                    txid.wf(),
                    txid@ == spec_txid(tvs[k as int].unsigned),
                    out_count == tx.unsigned.outputs@.len(),
                    out_count == tvs[k as int].unsigned.outputs.len(),
                    view.inv(),
                    view.base() == base0,
                    view.base_version() == bver0,
                    view.pending_spends() == Set::<LeafIdView>::empty(),
                    view.pending_stores() == register_outputs(
                        batch_stores(tvs, k as int),
                        txid@,
                        tvs[k as int].unsigned.outputs,
                        i as int,
                    ),
                decreases out_count - i,
            {
                let id = LeafId { txid: txid.clone(), index: i as u32 };
                proof {
                    assert(tx.unsigned.outputs@[i as int]@ == tvs[k as int].unsigned.outputs[i as int]);
                    assert(tvs[k as int].unsigned.outputs[i as int].wf());
                }
                let leaf = tx.unsigned.outputs[i].clone();
                match view.store_leaf(&id, leaf) {
                    Ok(()) => {
                    },
                    Err(e) => {
                        return Err(BatchError::Storage(e));
                    },
                }
                proof {
                    assert(id@ == LeafIdView { txid: txid@, index: i as u32 });
                }
                i += 1;
            }
            k += 1;
        }

        let ghost all_stores = view.pending_stores();
        let mut k: usize = 0;
        proof {
            assert(view.pending_spends() =~= Set::<LeafIdView>::empty().union(batch_spends(tvs, 0)));
        }
        while k < n
            invariant
                k <= n,
                n == transactions@.len(),
                tvs == transactions@.map_values(|t: Transaction| t@),
                forall|j: int| 0 <= j < n ==> (#[trigger] transactions@[j]).wf(),
                view.inv(),
                view.base() == base0,
                view.base_version() == bver0,
                view.pending_stores() == all_stores,
                view.pending_spends() == Set::<LeafIdView>::empty().union(batch_spends(tvs, k as int)),
            decreases n - k,
        {
            let tx = &transactions[k];
            let in_count = tx.unsigned.inputs.len();
            let mut i: usize = 0;
            proof {
                assert(tvs[k as int].unsigned.inputs.take(0) =~= Seq::<LeafIdView>::empty());
                assert(batch_spends(tvs, k as int).union(inputs_set(
                    tvs[k as int].unsigned.inputs.take(0),
                )) =~= batch_spends(tvs, k as int));
            }
            while i < in_count
                invariant
                    i <= in_count,
                    k < n,
                    n == transactions@.len(),
                    tvs == transactions@.map_values(|t: Transaction| t@),
                    forall|j: int| 0 <= j < n ==> (#[trigger] transactions@[j]).wf(),
                    tx == transactions@[k as int],
                    in_count == tx.unsigned.inputs@.len(),
                    in_count == tvs[k as int].unsigned.inputs.len(),
                    view.inv(),
                    view.base() == base0,
                    view.base_version() == bver0,
                    view.pending_stores() == all_stores,
                    view.pending_spends() == Set::<LeafIdView>::empty().union(
                        batch_spends(tvs, k as int).union(
                            inputs_set(tvs[k as int].unsigned.inputs.take(i as int)),
                        ),
                    ),
                decreases in_count - i,
            {
                proof {
                    assert(tx.unsigned.inputs@[i as int]@ == tvs[k as int].unsigned.inputs[i as int]);
                    assert(tvs[k as int].unsigned.inputs[i as int].wf());
                }
                match view.mark_leaf_as_spent(&tx.unsigned.inputs[i]) {
                    Ok(()) => {
                    },
                    Err(e) => {
                        return Err(BatchError::Storage(e));
                    },
                }
                proof {
                    lemma_inputs_set_take(tvs[k as int].unsigned.inputs, i as int);
                    assert(view.pending_spends() =~= Set::<LeafIdView>::empty().union(
                        batch_spends(tvs, k as int).union(
                            inputs_set(tvs[k as int].unsigned.inputs.take(i as int + 1)),
                        ),
                    ));
                }
                i += 1;
            }
            proof {
                assert(tvs[k as int].unsigned.inputs.take(in_count as int) =~= tvs[k
                    as int].unsigned.inputs);
                assert(view.pending_spends() =~= Set::<LeafIdView>::empty().union(
                    batch_spends(tvs, k as int + 1),
                ));
            }
            k += 1;
        }

        let next_version = self.storage.current_version() + 1;
        let committed = match view.commit(next_version) {
            Ok(s) => s,
            Err(e) => {
                return Err(BatchError::Storage(e));
            },
        };
        proof {
            assert(Set::<LeafIdView>::empty().union(batch_spends(tvs, n as int)) =~= batch_spends(
                tvs,
                n as int,
            ));
        }
        self.storage = committed;
        Ok(())
    }
}

} // verus!
