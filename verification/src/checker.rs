//! The batch transaction checker: stateful admission of transactions, with
//! intra-batch forward references, double-spend rejection, and operator
//! collection.

use vstd::prelude::*;

use crate::collect::{
    ids_set, lemma_ids_set_contains, lemma_ids_set_push, lemma_pairs_map_contains,
    lemma_pairs_map_push, lemma_pairs_map_update, lemma_pairs_map_value, pairs_map,
};
use crate::leaf::{Leaf, LeafView};
use crate::traits::{LeafStorage, StorageError};
use crate::tx::{Transaction, TransactionView};
use crate::types::{LeafId, LeafIdView, Txid};
use crate::unsigned_tx::{spec_txid, FilledTransaction, FilledTransactionView};

verus! {

/// Why the checker rejected a transaction.
#[derive(Debug)]
pub enum CheckerError {
    /// The transaction carries a different number of unlockers than inputs;
    /// carries the txid.
    InputLengthMismatch(Txid),
    /// The leaf id was already consumed within this batch.
    DoubleSpendInBatch(LeafId),
    /// The leaf id resolves neither in this batch nor in storage.
    InputNotFound(LeafId),
    /// The leaf is already marked spent in storage.
    InputAlreadySpent(LeafId),
    /// A resolved input names an operator leaf that storage does not hold.
    OperatorNotFound(LeafId),
    /// The storage backend failed.
    Storage(StorageError),
}

/// The mathematical value of a checker rejection.
pub enum CheckerErrorView {
    InputLengthMismatch(Seq<u8>),
    DoubleSpendInBatch(LeafIdView),
    InputNotFound(LeafIdView),
    InputAlreadySpent(LeafIdView),
    OperatorNotFound(LeafIdView),
}

/// A checker error other than a storage failure stands for its view.
pub open spec fn checker_err_matches(e: CheckerError, v: CheckerErrorView) -> bool {
    match e {
        CheckerError::InputLengthMismatch(t) => v == CheckerErrorView::InputLengthMismatch(t@),
        CheckerError::DoubleSpendInBatch(l) => v == CheckerErrorView::DoubleSpendInBatch(l@),
        CheckerError::InputNotFound(l) => v == CheckerErrorView::InputNotFound(l@),
        CheckerError::InputAlreadySpent(l) => v == CheckerErrorView::InputAlreadySpent(l@),
        CheckerError::OperatorNotFound(l) => v == CheckerErrorView::OperatorNotFound(l@),
        CheckerError::Storage(_) => false,
    }
}

/// The mathematical state of the checker across a batch.
pub struct CheckerView {
    /// Outputs produced by earlier transactions of the batch, available for
    /// forward reference.
    pub buffer: Map<LeafIdView, LeafView>,
    /// Leaf ids consumed so far in the batch.
    pub used: Set<LeafIdView>,
    /// The distinct operator leaves collected so far.
    pub operators: Map<LeafIdView, LeafView>,
}

/// One admitted transaction: the state after it and its filled form.
pub struct CheckResult {
    pub state: CheckerView,
    pub filled: FilledTransactionView,
}

/// The state after one admitted input list.
pub struct CheckStep {
    pub state: CheckerView,
    pub filled: Seq<LeafView>,
}

/// The buffer after registering the first `n` outputs of a transaction with
/// the given txid.
pub open spec fn register_outputs(
    buffer: Map<LeafIdView, LeafView>,
    txid: Seq<u8>,
    outputs: Seq<LeafView>,
    n: int,
) -> Map<LeafIdView, LeafView>
    decreases n,
{
    if n <= 0 {
        buffer
    } else {
        register_outputs(buffer, txid, outputs, n - 1).insert(
            LeafIdView { txid, index: (n - 1) as u32 },
            outputs[n - 1],
        )
    }
}

/// Checks one input list, in order, against the batch state and the visible
/// storage: a used id is a double spend; a buffered id is admitted by
/// forward reference; anything else must be an unspent leaf in storage,
/// whose operator, if it names one, must also resolve in storage and is
/// collected.
pub open spec fn spec_check_inputs(
    st: CheckerView,
    leaves: Map<LeafIdView, LeafView>,
    spent: Set<LeafIdView>,
    inputs: Seq<LeafIdView>,
) -> Result<CheckStep, CheckerErrorView>
    decreases inputs.len(),
{
    if inputs.len() == 0 {
        Result::Ok(CheckStep { state: st, filled: Seq::empty() })
    } else {
        let l = inputs[0];
        if st.used.contains(l) {
            Result::Err(CheckerErrorView::DoubleSpendInBatch(l))
        } else if st.buffer.contains_key(l) {
            let st1 = CheckerView { used: st.used.insert(l), ..st };
            match spec_check_inputs(st1, leaves, spent, inputs.drop_first()) {
                Result::Ok(step) => Result::Ok(
                    CheckStep { state: step.state, filled: seq![st.buffer[l]] + step.filled },
                ),
                Result::Err(e) => Result::Err(e),
            }
        } else if !leaves.contains_key(l) {
            Result::Err(CheckerErrorView::InputNotFound(l))
        } else if spent.contains(l) {
            Result::Err(CheckerErrorView::InputAlreadySpent(l))
        } else {
            let leaf = leaves[l];
            match leaf.operator {
                Option::Some(op) => if !leaves.contains_key(op) {
                    Result::Err(CheckerErrorView::OperatorNotFound(op))
                } else {
                    let st1 = CheckerView {
                        used: st.used.insert(l),
                        operators: st.operators.insert(op, leaves[op]),
                        ..st
                    };
                    match spec_check_inputs(st1, leaves, spent, inputs.drop_first()) {
                        Result::Ok(step) => Result::Ok(
                            CheckStep { state: step.state, filled: seq![leaf] + step.filled },
                        ),
                        Result::Err(e) => Result::Err(e),
                    }
                },
                Option::None => {
                    let st1 = CheckerView { used: st.used.insert(l), ..st };
                    match spec_check_inputs(st1, leaves, spent, inputs.drop_first()) {
                        Result::Ok(step) => Result::Ok(
                            CheckStep { state: step.state, filled: seq![leaf] + step.filled },
                        ),
                        Result::Err(e) => Result::Err(e),
                    }
                },
            }
        }
    }
}

/// Checks one transaction: the unlockers must match the inputs one for one;
/// the outputs enter the buffer before the inputs resolve, so that later
/// transactions of the batch may consume them; then every input is checked
/// in order.
pub open spec fn spec_check(
    st: CheckerView,
    leaves: Map<LeafIdView, LeafView>,
    spent: Set<LeafIdView>,
    t: TransactionView,
) -> Result<CheckResult, CheckerErrorView> {
    let txid = spec_txid(t.unsigned);
    if t.unsigned.inputs.len() != t.unlockers.len() {
        Result::Err(CheckerErrorView::InputLengthMismatch(txid))
    } else {
        let st0 = CheckerView {
            buffer: register_outputs(
                st.buffer,
                txid,
                t.unsigned.outputs,
                t.unsigned.outputs.len() as int,
            ),
            ..st
        };
        match spec_check_inputs(st0, leaves, spent, t.unsigned.inputs) {
            Result::Ok(step) => Result::Ok(
                CheckResult {
                    state: step.state,
                    filled: FilledTransactionView {
                        inputs: step.filled,
                        unlockers: t.unlockers,
                        outputs: t.unsigned.outputs,
                    },
                },
            ),
            Result::Err(e) => Result::Err(e),
        }
    }
}

/// How a partial run of the input check continues to the whole run: the
/// whole result is the current result with the already-filled prefix in
/// front.
pub open spec fn check_continues(
    whole: Result<CheckStep, CheckerErrorView>,
    cur: Result<CheckStep, CheckerErrorView>,
    prefix: Seq<LeafView>,
) -> bool {
    match cur {
        Result::Ok(step) => whole == Result::Ok::<CheckStep, CheckerErrorView>(
            CheckStep { state: step.state, filled: prefix + step.filled },
        ),
        Result::Err(e) => whole == Result::Err::<CheckStep, CheckerErrorView>(e),
    }
}

/// An admitted input list fills exactly one leaf per input.
pub proof fn lemma_check_inputs_len(
    st: CheckerView,
    leaves: Map<LeafIdView, LeafView>,
    spent: Set<LeafIdView>,
    inputs: Seq<LeafIdView>,
)
    ensures
        spec_check_inputs(st, leaves, spent, inputs) matches Result::Ok(step) ==> step.filled.len()
            == inputs.len(),
    decreases inputs.len(),
{
    if inputs.len() > 0 {
        let l = inputs[0];
        if !st.used.contains(l) {
            if st.buffer.contains_key(l) {
                let st1 = CheckerView { used: st.used.insert(l), ..st };
                lemma_check_inputs_len(st1, leaves, spent, inputs.drop_first());
            } else if leaves.contains_key(l) && !spent.contains(l) {
                match leaves[l].operator {
                    Option::Some(op) => {
                        if leaves.contains_key(op) {
                            let st1 = CheckerView {
                                used: st.used.insert(l),
                                operators: st.operators.insert(op, leaves[op]),
                                ..st
                            };
                            lemma_check_inputs_len(st1, leaves, spent, inputs.drop_first());
                        }
                    },
                    Option::None => {
                        let st1 = CheckerView { used: st.used.insert(l), ..st };
                        lemma_check_inputs_len(st1, leaves, spent, inputs.drop_first());
                    },
                }
            }
        }
    }
}

/// An admitted transaction's filled form carries one resolved leaf per
/// input, and as many unlockers as inputs.
pub proof fn lemma_check_filled_len(
    st: CheckerView,
    leaves: Map<LeafIdView, LeafView>,
    spent: Set<LeafIdView>,
    t: TransactionView,
)
    ensures
        spec_check(st, leaves, spent, t) matches Result::Ok(cr) ==> cr.filled.inputs.len()
            == t.unsigned.inputs.len() && cr.filled.unlockers.len() == t.unsigned.inputs.len()
            && cr.filled.outputs == t.unsigned.outputs,
{
    if t.unsigned.inputs.len() == t.unlockers.len() {
        let st0 = CheckerView {
            buffer: register_outputs(
                st.buffer,
                spec_txid(t.unsigned),
                t.unsigned.outputs,
                t.unsigned.outputs.len() as int,
            ),
            ..st
        };
        lemma_check_inputs_len(st0, leaves, spent, t.unsigned.inputs);
    }
}

/// An admitted input list consumed no leaf twice: it is duplicate-free and
/// disjoint from everything the batch used before it.
pub proof fn lemma_no_double_spend(
    st: CheckerView,
    leaves: Map<LeafIdView, LeafView>,
    spent: Set<LeafIdView>,
    inputs: Seq<LeafIdView>,
)
    requires
        spec_check_inputs(st, leaves, spent, inputs) is Ok,
    ensures
        forall|i: int, j: int| 0 <= i < j < inputs.len() ==> inputs[i] != inputs[j],
        forall|i: int| 0 <= i < inputs.len() ==> !st.used.contains(#[trigger] inputs[i]),
    decreases inputs.len(),
{
    if inputs.len() > 0 {
        let l = inputs[0];
        let rest = inputs.drop_first();
        assert(!st.used.contains(l));
        let st1 = if st.buffer.contains_key(l) {
            CheckerView { used: st.used.insert(l), ..st }
        } else {
            match leaves[l].operator {
                Option::Some(op) => CheckerView {
                    used: st.used.insert(l),
                    operators: st.operators.insert(op, leaves[op]),
                    ..st
                },
                Option::None => CheckerView { used: st.used.insert(l), ..st },
            }
        };
        lemma_no_double_spend(st1, leaves, spent, rest);
        assert forall|i: int, j: int| 0 <= i < j < inputs.len() implies inputs[i] != inputs[j] by {
            if i == 0 {
                assert(rest[j - 1] == inputs[j]);
                assert(!st1.used.contains(rest[j - 1]));
            } else {
                assert(rest[i - 1] == inputs[i] && rest[j - 1] == inputs[j]);
            }
        }
        assert forall|i: int| 0 <= i < inputs.len() implies !st.used.contains(
            #[trigger] inputs[i],
        ) by {
            if i > 0 {
                assert(rest[i - 1] == inputs[i]);
                assert(!st1.used.contains(rest[i - 1]));
            }
        }
    }
}

/// An input list resolved wholly by forward reference never consults
/// storage: over any two storage views, the check runs to the same result.
pub proof fn lemma_forward_reference_ignores_storage(
    st: CheckerView,
    leaves1: Map<LeafIdView, LeafView>,
    spent1: Set<LeafIdView>,
    leaves2: Map<LeafIdView, LeafView>,
    spent2: Set<LeafIdView>,
    inputs: Seq<LeafIdView>,
)
    requires
        forall|i: int| 0 <= i < inputs.len() ==> st.buffer.contains_key(#[trigger] inputs[i]),
    ensures
        spec_check_inputs(st, leaves1, spent1, inputs) == spec_check_inputs(
            st,
            leaves2,
            spent2,
            inputs,
        ),
    decreases inputs.len(),
{
    if inputs.len() > 0 {
        let l = inputs[0];
        if !st.used.contains(l) {
            let st1 = CheckerView { used: st.used.insert(l), ..st };
            assert(forall|i: int| 0 <= i < inputs.drop_first().len() ==> st1.buffer.contains_key(
                #[trigger] inputs.drop_first()[i],
            ));
            lemma_forward_reference_ignores_storage(
                st1,
                leaves1,
                spent1,
                leaves2,
                spent2,
                inputs.drop_first(),
            );
        }
    }
}

/// A transaction whose inputs all stand in the buffer, or among its own
/// registered outputs, is checked without consulting storage: any two
/// storage views give the same verdict.
pub proof fn lemma_forward_reference(
    st: CheckerView,
    leaves1: Map<LeafIdView, LeafView>,
    spent1: Set<LeafIdView>,
    leaves2: Map<LeafIdView, LeafView>,
    spent2: Set<LeafIdView>,
    t: TransactionView,
)
    requires
        forall|i: int|
            0 <= i < t.unsigned.inputs.len() ==> register_outputs(
                st.buffer,
                spec_txid(t.unsigned),
                t.unsigned.outputs,
                t.unsigned.outputs.len() as int,
            ).contains_key(#[trigger] t.unsigned.inputs[i]),
    ensures
        spec_check(st, leaves1, spent1, t) == spec_check(st, leaves2, spent2, t),
{
    if t.unsigned.inputs.len() == t.unlockers.len() {
        let st0 = CheckerView {
            buffer: register_outputs(
                st.buffer,
                spec_txid(t.unsigned),
                t.unsigned.outputs,
                t.unsigned.outputs.len() as int,
            ),
            ..st
        };
        lemma_forward_reference_ignores_storage(
            st0,
            leaves1,
            spent1,
            leaves2,
            spent2,
            t.unsigned.inputs,
        );
    }
}

/// An operator once collected with its storage leaf stays collected, with
/// that leaf, through the rest of the run: the check only ever inserts
/// operators, always paired with their own storage leaf.
pub proof fn lemma_operator_persists(
    st: CheckerView,
    leaves: Map<LeafIdView, LeafView>,
    spent: Set<LeafIdView>,
    inputs: Seq<LeafIdView>,
    op: LeafIdView,
)
    requires
        spec_check_inputs(st, leaves, spent, inputs) is Ok,
        st.operators.contains_key(op),
        st.operators[op] == leaves[op],
    ensures
        ({
            let fin = spec_check_inputs(st, leaves, spent, inputs)->Ok_0.state;
            fin.operators.contains_key(op) && fin.operators[op] == leaves[op]
        }),
    decreases inputs.len(),
{
    if inputs.len() > 0 {
        let l = inputs[0];
        if st.buffer.contains_key(l) {
            let st1 = CheckerView { used: st.used.insert(l), ..st };
            lemma_operator_persists(st1, leaves, spent, inputs.drop_first(), op);
        } else {
            match leaves[l].operator {
                Option::Some(o) => {
                    let st1 = CheckerView {
                        used: st.used.insert(l),
                        operators: st.operators.insert(o, leaves[o]),
                        ..st
                    };
                    lemma_operator_persists(st1, leaves, spent, inputs.drop_first(), op);
                },
                Option::None => {
                    let st1 = CheckerView { used: st.used.insert(l), ..st };
                    lemma_operator_persists(st1, leaves, spent, inputs.drop_first(), op);
                },
            }
        }
    }
}

/// A successful run collects the operator of every storage-resolved input:
/// the operator's id ends up in the collection — exactly once, the
/// collection being a map — bound to the operator's own leaf from storage,
/// however many inputs name it.
pub proof fn lemma_operator_collected(
    st: CheckerView,
    leaves: Map<LeafIdView, LeafView>,
    spent: Set<LeafIdView>,
    inputs: Seq<LeafIdView>,
    i: int,
)
    requires
        spec_check_inputs(st, leaves, spent, inputs) is Ok,
        0 <= i < inputs.len(),
        !st.buffer.contains_key(inputs[i]),
        leaves.contains_key(inputs[i]),
        leaves[inputs[i]].operator is Some,
        leaves[inputs[i]].operator matches Option::Some(op) ==> (st.operators.contains_key(op)
            ==> st.operators[op] == leaves[op]),
    ensures
        leaves[inputs[i]].operator matches Option::Some(op) ==> ({
            let fin = spec_check_inputs(st, leaves, spent, inputs)->Ok_0.state;
            fin.operators.contains_key(op) && fin.operators[op] == leaves[op]
        }),
    decreases inputs.len(),
{
    let l = inputs[0];
    if i == 0 {
        match leaves[l].operator {
            Option::Some(op) => {
                let st1 = CheckerView {
                    used: st.used.insert(l),
                    operators: st.operators.insert(op, leaves[op]),
                    ..st
                };
                lemma_operator_persists(st1, leaves, spent, inputs.drop_first(), op);
            },
            Option::None => {
            },
        }
    } else {
        assert(inputs.drop_first()[i - 1] == inputs[i]);
        if st.buffer.contains_key(l) {
            let st1 = CheckerView { used: st.used.insert(l), ..st };
            lemma_operator_collected(st1, leaves, spent, inputs.drop_first(), i - 1);
        } else {
            match leaves[l].operator {
                Option::Some(o) => {
                    let st1 = CheckerView {
                        used: st.used.insert(l),
                        operators: st.operators.insert(o, leaves[o]),
                        ..st
                    };
                    lemma_operator_collected(st1, leaves, spent, inputs.drop_first(), i - 1);
                },
                Option::None => {
                    let st1 = CheckerView { used: st.used.insert(l), ..st };
                    lemma_operator_collected(st1, leaves, spent, inputs.drop_first(), i - 1);
                },
            }
        }
    }
}

/// An admitted transaction collects the operator of every input it resolved
/// from storage: the operator's id maps — exactly once — to the operator's
/// leaf, no matter how many inputs reference it.
pub proof fn lemma_check_collects_operator(
    st: CheckerView,
    leaves: Map<LeafIdView, LeafView>,
    spent: Set<LeafIdView>,
    t: TransactionView,
    i: int,
)
    requires
        spec_check(st, leaves, spent, t) is Ok,
        0 <= i < t.unsigned.inputs.len(),
        !register_outputs(
            st.buffer,
            spec_txid(t.unsigned),
            t.unsigned.outputs,
            t.unsigned.outputs.len() as int,
        ).contains_key(t.unsigned.inputs[i]),
        leaves.contains_key(t.unsigned.inputs[i]),
        leaves[t.unsigned.inputs[i]].operator is Some,
        leaves[t.unsigned.inputs[i]].operator matches Option::Some(op) ==> (
        st.operators.contains_key(op) ==> st.operators[op] == leaves[op]),
    ensures
        leaves[t.unsigned.inputs[i]].operator matches Option::Some(op) ==> ({
            let fin = spec_check(st, leaves, spent, t)->Ok_0.state;
            fin.operators.contains_key(op) && fin.operators[op] == leaves[op]
        }),
{
    let st0 = CheckerView {
        buffer: register_outputs(
            st.buffer,
            spec_txid(t.unsigned),
            t.unsigned.outputs,
            t.unsigned.outputs.len() as int,
        ),
        ..st
    };
    lemma_operator_collected(st0, leaves, spent, t.unsigned.inputs, i);
}

/// Every input of the transaction resolves inside the batch itself, once the
/// transaction's own outputs are registered: nothing is owed to storage.
pub open spec fn all_inputs_buffered(st: CheckerView, t: TransactionView) -> bool {
    forall|i: int|
        0 <= i < t.unsigned.inputs.len() ==> register_outputs(
            st.buffer,
            spec_txid(t.unsigned),
            t.unsigned.outputs,
            t.unsigned.outputs.len() as int,
        ).contains_key(#[trigger] t.unsigned.inputs[i])
}

/// The stateful admission of one batch's transactions. Single use: state is
/// cleared by discarding the instance.
pub struct TransactionChecker {
    buffer_leaf_ids: Vec<(LeafId, Leaf)>,
    used_buffer_leaf_ids: Vec<LeafId>,
    operators: Vec<(LeafId, Leaf)>,
}

impl View for TransactionChecker {
    type V = CheckerView;

    closed spec fn view(&self) -> CheckerView {
        CheckerView {
            buffer: pairs_map(self.buffer_leaf_ids@),
            used: ids_set(self.used_buffer_leaf_ids@),
            operators: pairs_map(self.operators@),
        }
    }
}

impl TransactionChecker {
    /// Everything held is well formed, and each collected operator id is
    /// held exactly once.
    pub closed spec fn wf(&self) -> bool {
        &&& (forall|i: int|
            0 <= i < self.buffer_leaf_ids@.len() ==> (#[trigger] self.buffer_leaf_ids@[i]).0.wf()
                && self.buffer_leaf_ids@[i].1.wf())
        &&& (forall|i: int|
            0 <= i < self.used_buffer_leaf_ids@.len() ==> (
            #[trigger] self.used_buffer_leaf_ids@[i]).wf())
        &&& (forall|i: int|
            0 <= i < self.operators@.len() ==> (#[trigger] self.operators@[i]).0.wf()
                && self.operators@[i].1.wf())
        &&& (forall|i: int, j: int|
            0 <= i < j < self.operators@.len() ==> (#[trigger] self.operators@[i]).0@ != (
            #[trigger] self.operators@[j]).0@)
    }

    /// A fresh checker: nothing buffered, nothing used, no operators.
    pub fn new() -> (r: Self)
        ensures
            r.wf(),
            r@.buffer == Map::<LeafIdView, LeafView>::empty(),
            r@.used == Set::<LeafIdView>::empty(),
            r@.operators == Map::<LeafIdView, LeafView>::empty(),
    {
        Self { buffer_leaf_ids: Vec::new(), used_buffer_leaf_ids: Vec::new(), operators: Vec::new() }
    }

    /// True when the id was consumed earlier in the batch.
    fn used_contains(&self, id: &LeafId) -> (r: bool)
        requires
            self.wf(),
            id.wf(),
        ensures
            r == self@.used.contains(id@),
    {
        let n = self.used_buffer_leaf_ids.len();
        let mut i: usize = 0;
        while i < n
            invariant
                i <= n,
                self.wf(),
                id.wf(),
                n == self.used_buffer_leaf_ids@.len(),
                forall|j: int| 0 <= j < i ==> (#[trigger] self.used_buffer_leaf_ids@[j])@ != id@,
            decreases n - i,
        {
            if &self.used_buffer_leaf_ids[i] == id {
                proof {
                    lemma_ids_set_contains(self.used_buffer_leaf_ids@, id@);
                }
                return true;
            }
            i += 1;
        }
        proof {
            lemma_ids_set_contains(self.used_buffer_leaf_ids@, id@);
        }
        false
    }

    /// The buffered leaf under the id, if the batch produced one.
    fn buffer_lookup(&self, id: &LeafId) -> (r: Option<Leaf>)
        requires
            self.wf(),
            id.wf(),
        ensures
            r matches Option::Some(l) ==> self@.buffer.contains_key(id@) && l.wf() && l@
                == self@.buffer[id@],
            r is None ==> !self@.buffer.contains_key(id@),
    {
        let n = self.buffer_leaf_ids.len();
        let mut i: usize = n;
        while i > 0
            invariant
                i <= n,
                self.wf(),
                id.wf(),
                n == self.buffer_leaf_ids@.len(),
                forall|j: int| i <= j < n ==> (#[trigger] self.buffer_leaf_ids@[j]).0@ != id@,
            decreases i,
        {
            i -= 1;
            if &self.buffer_leaf_ids[i].0 == id {
                proof {
                    lemma_pairs_map_value(self.buffer_leaf_ids@, i as int);
                }
                return Option::Some(self.buffer_leaf_ids[i].1.clone());
            }
        }
        proof {
            lemma_pairs_map_contains(self.buffer_leaf_ids@, id@);
        }
        Option::None
    }

    /// Collects an operator leaf, keeping each operator id exactly once.
    fn insert_operator(&mut self, id: &LeafId, leaf: Leaf)
        requires
            old(self).wf(),
            id.wf(),
            leaf.wf(),
        ensures
            final(self).wf(),
            final(self)@.operators == old(self)@.operators.insert(id@, leaf@),
            final(self)@.buffer == old(self)@.buffer,
            final(self)@.used == old(self)@.used,
    {
        let n = self.operators.len();
        let mut i: usize = 0;
        while i < n
            invariant
                i <= n,
                self.wf(),
                id.wf(),
                leaf.wf(),
                n == self.operators@.len(),
                self == old(self),
                forall|j: int| 0 <= j < i ==> (#[trigger] self.operators@[j]).0@ != id@,
            decreases n - i,
        {
            if &self.operators[i].0 == id {
                let ghost before = self.operators@;
                self.operators[i] = (id.clone(), leaf);
                proof {
                    lemma_pairs_map_update(before, i as int, self.operators@[i as int]);
                }
                return ;
            }
            i += 1;
        }
        self.operators.push((id.clone(), leaf));
        proof {
            lemma_pairs_map_push(old(self).operators@, self.operators@.last());
            assert(self.operators@.drop_last() =~= old(self).operators@);
        }
    }

    /// The collected operator leaves: each distinct operator id exactly
    /// once, with its leaf, in collection order.
    pub fn operators(&self) -> (r: Vec<(LeafId, Leaf)>)
        requires
            self.wf(),
        ensures
            forall|j: int|
                0 <= j < r@.len() ==> (#[trigger] r@[j]).0.wf() && r@[j].1.wf()
                    && self@.operators.contains_key(r@[j].0@) && self@.operators[r@[j].0@]
                    == r@[j].1@,
            forall|j1: int, j2: int|
                0 <= j1 < j2 < r@.len() ==> (#[trigger] r@[j1]).0@ != (#[trigger] r@[j2]).0@,
            forall|id: LeafIdView|
                self@.operators.contains_key(id) ==> exists|j: int|
                    0 <= j < r@.len() && (#[trigger] r@[j]).0@ == id,
    {
        let n = self.operators.len();
        let mut r: Vec<(LeafId, Leaf)> = Vec::new();
        let mut i: usize = 0;
        while i < n
            invariant
                i <= n,
                self.wf(),
                n == self.operators@.len(),
                r@.len() == i,
                forall|j: int|
                    0 <= j < i ==> (#[trigger] r@[j]).0@ == self.operators@[j].0@ && r@[j].1@
                        == self.operators@[j].1@ && r@[j].0.wf() && r@[j].1.wf(),
            decreases n - i,
        {
            let p = &self.operators[i];
            r.push((p.0.clone(), p.1.clone()));
            i += 1;
        }
        proof {
            assert forall|j: int| 0 <= j < r@.len() implies (#[trigger] r@[j]).0.wf() && r@[j].1.wf()
                && self@.operators.contains_key(r@[j].0@) && self@.operators[r@[j].0@]
                == r@[j].1@ by {
                assert(forall|k: int| j < k < self.operators@.len() ==> (
                #[trigger] self.operators@[k]).0@ != self.operators@[j].0@);
                lemma_pairs_map_value(self.operators@, j);
            }
            assert forall|id: LeafIdView| self@.operators.contains_key(id) implies exists|j: int|
                0 <= j < r@.len() && (#[trigger] r@[j]).0@ == id by {
                lemma_pairs_map_contains(self.operators@, id);
                let j = choose|j: int|
                    0 <= j < self.operators@.len() && (#[trigger] self.operators@[j]).0@ == id;
                assert(r@[j].0@ == id);
            }
        }
        r
    }

    /// Checks one transaction against the batch state and the storage view,
    /// and hands back its filled form. Exactly `spec_check`, except that a
    /// storage failure surfaces as `CheckerError::Storage`.
    pub fn check_leaf_id<S: LeafStorage>(
        &mut self,
        leaf_storage: &S,
        transaction: Transaction,
    ) -> (r: Result<FilledTransaction, CheckerError>)
        requires
            old(self).wf(),
            transaction.wf(),
            leaf_storage.inv(),
        ensures
            final(self).wf(),
            r matches Ok(f) ==> (spec_check(
                old(self)@,
                leaf_storage.leaves(),
                leaf_storage.spent(),
                transaction@,
            ) matches Result::Ok(cr) && final(self)@ == cr.state && f@ == cr.filled && (forall|
                j: int,
            |
                0 <= j < f@.inputs.len() ==> (#[trigger] f@.inputs[j]).wf())),
            r matches Err(e) ==> (e is Storage || (spec_check(
                old(self)@,
                leaf_storage.leaves(),
                leaf_storage.spent(),
                transaction@,
            ) matches Result::Err(v) && checker_err_matches(e, v))),
            r matches Ok(f) ==> (forall|i: int, j: int|
                0 <= i < j < transaction@.unsigned.inputs.len()
                    ==> transaction@.unsigned.inputs[i] != transaction@.unsigned.inputs[j]),
            r matches Ok(f) ==> (forall|i: int|
                0 <= i < transaction@.unsigned.inputs.len() ==> !old(self)@.used.contains(
                    #[trigger] transaction@.unsigned.inputs[i],
                )),
            transaction@.unsigned.inputs.len() != transaction@.unlockers.len() ==> (r matches Err(
                e,
            ) && checker_err_matches(
                e,
                CheckerErrorView::InputLengthMismatch(spec_txid(transaction@.unsigned)),
            )),
            all_inputs_buffered(old(self)@, transaction@) ==> !(r matches Err(e) && e is Storage),
    {
        let ghost st_old = self@;
        let ghost leaves = leaf_storage.leaves();
        let ghost spent = leaf_storage.spent();
        let ghost tv = transaction@;

        let txid = match transaction.unsigned.hash() {
            Ok(t) => t,
            Err(_) => {
                proof {
                    assert(false);
                }
                return Err(CheckerError::Storage(StorageError::NotFound));
            },
        };

        if transaction.unsigned.inputs.len() != transaction.unlockers.len() {
            return Err(CheckerError::InputLengthMismatch(txid));
        }

        let out_count = transaction.unsigned.outputs.len();
        let mut k: usize = 0;
        while k < out_count
            invariant
                k <= out_count,
                self.wf(),
                transaction.wf(),
                tv == transaction@,
                txid.wf(),
                txid@ == spec_txid(tv.unsigned),
                out_count == transaction.unsigned.outputs@.len(),
                self@.buffer == register_outputs(st_old.buffer, txid@, tv.unsigned.outputs, k as int),
                self@.used == st_old.used,
                self@.operators == st_old.operators,
            decreases out_count - k,
        {
            let id = LeafId { txid: txid.clone(), index: k as u32 };
            proof {
                assert(transaction.unsigned.outputs@[k as int]@ == tv.unsigned.outputs[k as int]);
                assert(tv.unsigned.outputs[k as int].wf());
            }
            let leaf = transaction.unsigned.outputs[k].clone();
            let ghost before = self.buffer_leaf_ids@;
            self.buffer_leaf_ids.push((id, leaf));
            proof {
                lemma_pairs_map_push(before, self.buffer_leaf_ids@.last());
                assert(self.buffer_leaf_ids@.drop_last() =~= before);
                assert(self.buffer_leaf_ids@.last().0@ == LeafIdView { txid: txid@, index: k as u32 });
            }
            k += 1;
        }
        let ghost st0 = self@;
        proof {
            assert(st0 == CheckerView {
                buffer: register_outputs(
                    st_old.buffer,
                    spec_txid(tv.unsigned),
                    tv.unsigned.outputs,
                    tv.unsigned.outputs.len() as int,
                ),
                ..st_old
            });
        }

        let ghost whole = spec_check_inputs(st0, leaves, spent, tv.unsigned.inputs);
        proof {
            assert(tv.unsigned.inputs.len() == transaction.unsigned.inputs@.len());
            assert(tv.unlockers.len() == transaction.unlockers@.len());
            if whole is Ok {
                let step = whole->Ok_0;
                assert(spec_check(st_old, leaves, spent, tv) == Result::Ok::<
                    CheckResult,
                    CheckerErrorView,
                >(
                    CheckResult {
                        state: step.state,
                        filled: FilledTransactionView {
                            inputs: step.filled,
                            unlockers: tv.unlockers,
                            outputs: tv.unsigned.outputs,
                        },
                    },
                ));
            } else {
                assert(spec_check(st_old, leaves, spent, tv) == Result::Err::<
                    CheckResult,
                    CheckerErrorView,
                >(whole->Err_0));
            }
        }
        let in_count = transaction.unsigned.inputs.len();
        let mut filled_inputs: Vec<Leaf> = Vec::new();
        proof {
            assert(tv.unsigned.inputs.skip(0) =~= tv.unsigned.inputs);
            assert(filled_inputs@.map_values(|l: Leaf| l@) =~= Seq::<LeafView>::empty());
            if whole is Ok {
                let step = whole->Ok_0;
                assert(Seq::<LeafView>::empty() + step.filled =~= step.filled);
            }
        }
        let mut i: usize = 0;
        while i < in_count
            invariant
                i <= in_count,
                self.wf(),
                transaction.wf(),
                tv == transaction@,
                leaf_storage.inv(),
                leaves == leaf_storage.leaves(),
                spent == leaf_storage.spent(),
                in_count == transaction.unsigned.inputs@.len(),
                whole == spec_check_inputs(st0, leaves, spent, tv.unsigned.inputs),
                self@.buffer == st0.buffer,
                st0.buffer == register_outputs(
                    st_old.buffer,
                    spec_txid(tv.unsigned),
                    tv.unsigned.outputs,
                    tv.unsigned.outputs.len() as int,
                ),
                tv.unsigned.inputs.len() == tv.unlockers.len(),
                st_old == old(self)@,
                whole is Ok ==> spec_check(st_old, leaves, spent, tv) == Result::Ok::<
                    CheckResult,
                    CheckerErrorView,
                >(
                    CheckResult {
                        state: whole->Ok_0.state,
                        filled: FilledTransactionView {
                            inputs: whole->Ok_0.filled,
                            unlockers: tv.unlockers,
                            outputs: tv.unsigned.outputs,
                        },
                    },
                ),
                whole is Err ==> spec_check(st_old, leaves, spent, tv) == Result::Err::<
                    CheckResult,
                    CheckerErrorView,
                >(whole->Err_0),
                filled_inputs@.len() == i,
                forall|j: int| 0 <= j < i ==> (#[trigger] filled_inputs@[j]).wf(),
                check_continues(
                    whole,
                    spec_check_inputs(self@, leaves, spent, tv.unsigned.inputs.skip(i as int)),
                    filled_inputs@.map_values(|l: Leaf| l@),
                ),
            decreases in_count - i,
        {
            let ghost remaining = tv.unsigned.inputs.skip(i as int);
            proof {
                assert(remaining[0] == tv.unsigned.inputs[i as int]);
                assert(remaining.drop_first() =~= tv.unsigned.inputs.skip(i as int + 1));
            }
            let input = &transaction.unsigned.inputs[i];
            assert(input@ == remaining[0]);

            if self.used_contains(input) {
                proof {
                    assert(spec_check_inputs(self@, leaves, spent, remaining) == Result::Err::<
                        CheckStep,
                        CheckerErrorView,
                    >(CheckerErrorView::DoubleSpendInBatch(remaining[0])));
                }
                return Err(CheckerError::DoubleSpendInBatch(input.clone()));
            }
            let ghost st_i = self@;
            let resolved: Leaf;
            match self.buffer_lookup(input) {
                Option::Some(leaf) => {
                    self.push_used(input);
                    proof {
                        assert(self@ == (CheckerView { used: st_i.used.insert(input@), ..st_i }));
                    }
                    resolved = leaf;
                },
                Option::None => {
                    proof {
                        if all_inputs_buffered(st_old, tv) {
                            assert(st0.buffer.contains_key(tv.unsigned.inputs[i as int]));
                            assert(false);
                        }
                    }
                    let found = match leaf_storage.get_leaf(input) {
                        Ok(f) => f,
                        Err(e) => {
                            return Err(CheckerError::Storage(e));
                        },
                    };
                    let leaf = match found {
                        Option::Some(l) => l,
                        Option::None => {
                            proof {
                                assert(spec_check_inputs(self@, leaves, spent, remaining)
                                    == Result::Err::<CheckStep, CheckerErrorView>(
                                    CheckerErrorView::InputNotFound(remaining[0]),
                                ));
                            }
                            return Err(CheckerError::InputNotFound(input.clone()));
                        },
                    };
                    let spent_flag = match leaf_storage.is_leaf_spent(input) {
                        Ok(b) => b,
                        Err(e) => {
                            return Err(CheckerError::Storage(e));
                        },
                    };
                    if spent_flag {
                        proof {
                            assert(spec_check_inputs(self@, leaves, spent, remaining)
                                == Result::Err::<CheckStep, CheckerErrorView>(
                                CheckerErrorView::InputAlreadySpent(remaining[0]),
                            ));
                        }
                        return Err(CheckerError::InputAlreadySpent(input.clone()));
                    }
                    match &leaf.operator {
                        Option::Some(op) => {
                            let op_found = match leaf_storage.get_leaf(op) {
                                Ok(f) => f,
                                Err(e) => {
                                    return Err(CheckerError::Storage(e));
                                },
                            };
                            match op_found {
                                Option::Some(op_leaf) => {
                                    let ghost olv = op_leaf@;
                                    self.insert_operator(op, op_leaf);
                                    self.push_used(input);
                                    proof {
                                        assert(leaves[input@].operator == Option::Some(op@));
                                        assert(leaves[op@] == olv);
                                        assert(self@ == (CheckerView {
                                            used: st_i.used.insert(input@),
                                            operators: st_i.operators.insert(op@, olv),
                                            ..st_i
                                        }));
                                    }
                                },
                                Option::None => {
                                    proof {
                                        assert(leaves[input@].operator == Option::Some(op@));
                                        assert(spec_check_inputs(self@, leaves, spent, remaining)
                                            == Result::Err::<CheckStep, CheckerErrorView>(
                                            CheckerErrorView::OperatorNotFound(op@),
                                        ));
                                    }
                                    return Err(CheckerError::OperatorNotFound(op.clone()));
                                },
                            }
                        },
                        Option::None => {
                            self.push_used(input);
                            proof {
                                assert(leaves[input@].operator is None);
                                assert(self@ == (CheckerView {
                                    used: st_i.used.insert(input@),
                                    ..st_i
                                }));
                            }
                        },
                    }
                    resolved = leaf;
                },
            }
            let ghost fi_before = filled_inputs@;
            assert(resolved.wf());
            filled_inputs.push(resolved);
            proof {
                assert forall|j: int| 0 <= j < filled_inputs@.len() implies (
                #[trigger] filled_inputs@[j]).wf() by {
                    if j < fi_before.len() {
                        assert(filled_inputs@[j] == fi_before[j]);
                    } else {
                        assert(filled_inputs@[j] == resolved);
                    }
                }
                assert(filled_inputs@.map_values(|l: Leaf| l@) =~= fi_before.map_values(
                    |l: Leaf| l@,
                ).push(resolved@));
                assert(fi_before.map_values(|l: Leaf| l@).push(resolved@) =~= fi_before.map_values(
                    |l: Leaf| l@,
                ) + seq![resolved@]);
                lemma_continues_step(
                    whole,
                    st_i,
                    self@,
                    leaves,
                    spent,
                    remaining,
                    fi_before.map_values(|l: Leaf| l@),
                    resolved@,
                );
            }
            i += 1;
        }
        proof {
            assert(tv.unsigned.inputs.skip(in_count as int) =~= Seq::<LeafIdView>::empty());
            assert(spec_check_inputs(self@, leaves, spent, tv.unsigned.inputs.skip(in_count as int))
                == Result::Ok::<CheckStep, CheckerErrorView>(
                CheckStep { state: self@, filled: Seq::empty() },
            ));
            assert(whole is Ok);
            lemma_no_double_spend(st0, leaves, spent, tv.unsigned.inputs);
            assert(st0.used == st_old.used);
        }
        let ghost prefix = filled_inputs@.map_values(|l: Leaf| l@);
        let ghost cr = spec_check(st_old, leaves, spent, tv)->Ok_0;
        proof {
            assert(whole->Ok_0.state == self@);
            assert(whole->Ok_0.filled == prefix + Seq::<LeafView>::empty());
            assert(cr.state == self@);
            assert(cr.filled.inputs == prefix + Seq::<LeafView>::empty());
        }
        let f = FilledTransaction {
            inputs: filled_inputs,
            unlockers: transaction.unlockers,
            outputs: transaction.unsigned.outputs,
        };
        proof {
            assert(f@.inputs =~= prefix + Seq::<LeafView>::empty());
            assert(f@.unlockers == tv.unlockers);
            assert(f@.outputs == tv.unsigned.outputs);
            assert(f@ == cr.filled);
            assert forall|j: int| 0 <= j < f@.inputs.len() implies (
            #[trigger] f@.inputs[j]).wf() by {
                assert(f@.inputs[j] == f.inputs@[j]@);
                assert(f.inputs@[j].wf());
            }
        }
        Ok(f)
    }

    /// Records that a leaf id was consumed.
    fn push_used(&mut self, id: &LeafId)
        requires
            old(self).wf(),
            id.wf(),
        ensures
            final(self).wf(),
            final(self)@.used == old(self)@.used.insert(id@),
            final(self)@.buffer == old(self)@.buffer,
            final(self)@.operators == old(self)@.operators,
    {
        self.used_buffer_leaf_ids.push(id.clone());
        proof {
            lemma_ids_set_push(old(self).used_buffer_leaf_ids@, self.used_buffer_leaf_ids@.last());
            assert(self.used_buffer_leaf_ids@.drop_last() =~= old(self).used_buffer_leaf_ids@);
        }
    }
}

/// One exec step of the input loop matches one unfolding of the spec check:
/// the continuation relation carries over.
proof fn lemma_continues_step(
    whole: Result<CheckStep, CheckerErrorView>,
    st_before: CheckerView,
    st_after: CheckerView,
    leaves: Map<LeafIdView, LeafView>,
    spent: Set<LeafIdView>,
    remaining: Seq<LeafIdView>,
    prefix: Seq<LeafView>,
    resolved: LeafView,
)
    requires
        remaining.len() > 0,
        check_continues(whole, spec_check_inputs(st_before, leaves, spent, remaining), prefix),
        !st_before.used.contains(remaining[0]),
        ({
            let l = remaining[0];
            if st_before.buffer.contains_key(l) {
                st_after == CheckerView { used: st_before.used.insert(l), ..st_before }
                    && resolved == st_before.buffer[l]
            } else {
                leaves.contains_key(l) && !spent.contains(l) && resolved == leaves[l] && (match leaves[l].operator {
                    Option::Some(op) => leaves.contains_key(op) && st_after == CheckerView {
                        used: st_before.used.insert(l),
                        operators: st_before.operators.insert(op, leaves[op]),
                        ..st_before
                    },
                    Option::None => st_after == CheckerView {
                        used: st_before.used.insert(l),
                        ..st_before
                    },
                })
            }
        }),
    ensures
        check_continues(
            whole,
            spec_check_inputs(st_after, leaves, spent, remaining.drop_first()),
            prefix + seq![resolved],
        ),
{
    let l = remaining[0];
    let cur = spec_check_inputs(st_before, leaves, spent, remaining);
    let next = spec_check_inputs(st_after, leaves, spent, remaining.drop_first());
    match next {
        Result::Ok(step) => {
            assert(cur == Result::Ok::<CheckStep, CheckerErrorView>(
                CheckStep { state: step.state, filled: seq![resolved] + step.filled },
            ));
            assert(prefix + (seq![resolved] + step.filled) =~= (prefix + seq![resolved])
                + step.filled);
        },
        Result::Err(e) => {
            assert(cur == Result::Err::<CheckStep, CheckerErrorView>(e));
        },
    }
}

} // verus!
