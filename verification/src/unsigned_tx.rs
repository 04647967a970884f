//! Unsigned transactions: the hashed core of a transaction, its canonical
//! wire form, and the filled transaction the checker produces.

use vstd::prelude::*;
use vstd::slice::slice_subrange;

use crate::error::Error;
use crate::hashing::{sha3_256, sha3_256_of};
use crate::leaf::{Leaf, LeafView};
use crate::types::{
    leaf_id_at, leaf_id_bytes, zero_bytes, Address, Bytes, FixedBytes, IndexKey, LeafId,
    LeafIdView, Txid,
};
use crate::wire::{
    read_u32_be, read_u64_be, u32_be_bytes, u32_of_be, u64_be_bytes, u64_of_be,
};

verus! {

/// The mathematical value of an unsigned transaction.
pub struct UnsignedTransactionView {
    pub version: u8,
    pub nonce: u64,
    pub inputs: Seq<LeafIdView>,
    pub outputs: Seq<LeafView>,
}

impl UnsignedTransactionView {
    /// Counts fit their u32 wire fields and every input and output is
    /// well formed.
    pub open spec fn wf(self) -> bool {
        &&& self.inputs.len() <= u32::MAX
        &&& self.outputs.len() <= u32::MAX
        &&& (forall|i: int| 0 <= i < self.inputs.len() ==> (#[trigger] self.inputs[i]).wf())
        &&& (forall|k: int| 0 <= k < self.outputs.len() ==> (#[trigger] self.outputs[k]).wf())
    }
}

/// The operator field of a transaction output: txid then big-endian index;
/// all zeros when there is no operator.
pub open spec fn operator_out_bytes(op: Option<LeafIdView>) -> Seq<u8> {
    match op {
        Option::None => zero_bytes(36),
        Option::Some(l) => l.txid + u32_be_bytes(l.index),
    }
}

/// The operator field of a transaction output read back.
pub open spec fn operator_out_of(s: Seq<u8>) -> Option<LeafIdView>
    recommends
        s.len() == 36,
{
    if s == zero_bytes(36) {
        Option::None
    } else {
        Option::Some(LeafIdView { txid: s.subrange(0, 32), index: u32_of_be(s.subrange(32, 36)) })
    }
}

/// An output body inside an unsigned transaction: version, owner, index key,
/// operator field, data. The data length stands in the table at the front of
/// the transaction, not here.
pub open spec fn output_body_bytes(l: LeafView) -> Seq<u8> {
    seq![l.version] + l.owner + l.index_key + operator_out_bytes(l.operator) + l.data
}

/// The table of big-endian output data lengths.
pub open spec fn lens_table(outs: Seq<LeafView>) -> Seq<u8>
    decreases outs.len(),
{
    if outs.len() == 0 {
        Seq::empty()
    } else {
        u32_be_bytes(outs[0].data.len() as u32) + lens_table(outs.drop_first())
    }
}

/// The concatenation of input leaf ids.
pub open spec fn inputs_bytes(ins: Seq<LeafIdView>) -> Seq<u8>
    decreases ins.len(),
{
    if ins.len() == 0 {
        Seq::empty()
    } else {
        leaf_id_bytes(ins[0]) + inputs_bytes(ins.drop_first())
    }
}

/// The concatenation of output bodies.
pub open spec fn outputs_bytes(outs: Seq<LeafView>) -> Seq<u8>
    decreases outs.len(),
{
    if outs.len() == 0 {
        Seq::empty()
    } else {
        output_body_bytes(outs[0]) + outputs_bytes(outs.drop_first())
    }
}

/// The byte length of the first `k` output bodies.
pub open spec fn bodies_len_of(outs: Seq<LeafView>, k: int) -> int
    decreases k,
{
    if k <= 0 {
        0
    } else {
        bodies_len_of(outs, k - 1) + 89 + outs[k - 1].data.len()
    }
}

/// The canonical wire form of an unsigned transaction: version, nonce,
/// counts, the output length table, the inputs, then the output bodies.
pub open spec fn unsigned_tx_bytes(t: UnsignedTransactionView) -> Seq<u8> {
    seq![t.version] + u64_be_bytes(t.nonce) + u32_be_bytes(t.inputs.len() as u32) + u32_be_bytes(
        t.outputs.len() as u32,
    ) + lens_table(t.outputs) + inputs_bytes(t.inputs) + outputs_bytes(t.outputs)
}

/// The transaction identifier: the SHA3-256 digest of the canonical wire
/// form of the unsigned transaction. Unlockers take no part in it.
pub open spec fn spec_txid(t: UnsignedTransactionView) -> Seq<u8> {
    sha3_256_of(unsigned_tx_bytes(t))
}

/// Length and contents of the output length table.
pub proof fn lemma_lens_table_props(outs: Seq<LeafView>)
    ensures
        lens_table(outs).len() == 4 * outs.len(),
        forall|k: int|
            0 <= k < outs.len() ==> #[trigger] lens_table(outs).subrange(4 * k, 4 * k + 4)
                == u32_be_bytes(outs[k].data.len() as u32),
    decreases outs.len(),
{
    if outs.len() == 0 {
    } else {
        let rest = outs.drop_first();
        lemma_lens_table_props(rest);
        let t = lens_table(outs);
        let head = u32_be_bytes(outs[0].data.len() as u32);
        assert forall|k: int| 0 <= k < outs.len() implies #[trigger] t.subrange(4 * k, 4 * k + 4)
            == u32_be_bytes(outs[k].data.len() as u32) by {
            if k == 0 {
                assert(t.subrange(0, 4) =~= head);
            } else {
                assert(t.subrange(4 * k, 4 * k + 4) =~= lens_table(rest).subrange(
                    4 * (k - 1),
                    4 * (k - 1) + 4,
                ));
                assert(rest[k - 1] == outs[k]);
            }
        }
    }
}

/// Length and contents of the inputs region.
pub proof fn lemma_inputs_bytes_props(ins: Seq<LeafIdView>)
    requires
        forall|i: int| 0 <= i < ins.len() ==> (#[trigger] ins[i]).wf(),
    ensures
        inputs_bytes(ins).len() == 36 * ins.len(),
        forall|i: int|
            0 <= i < ins.len() ==> #[trigger] inputs_bytes(ins).subrange(36 * i, 36 * i + 36)
                == leaf_id_bytes(ins[i]),
    decreases ins.len(),
{
    if ins.len() == 0 {
    } else {
        let rest = ins.drop_first();
        lemma_inputs_bytes_props(rest);
        let t = inputs_bytes(ins);
        assert forall|i: int| 0 <= i < ins.len() implies #[trigger] t.subrange(36 * i, 36 * i + 36)
            == leaf_id_bytes(ins[i]) by {
            if i == 0 {
                assert(t.subrange(0, 36) =~= leaf_id_bytes(ins[0]));
            } else {
                assert(t.subrange(36 * i, 36 * i + 36) =~= inputs_bytes(rest).subrange(
                    36 * (i - 1),
                    36 * (i - 1) + 36,
                ));
                assert(rest[i - 1] == ins[i]);
            }
        }
    }
}

/// The first `k` bodies never outgrow all the bodies.
pub proof fn lemma_bodies_len_monotone(outs: Seq<LeafView>, j: int, k: int)
    requires
        0 <= j <= k,
    ensures
        bodies_len_of(outs, j) <= bodies_len_of(outs, k),
    decreases k - j,
{
    if j < k {
        lemma_bodies_len_monotone(outs, j, k - 1);
    }
}

/// Length and contents of the output bodies region.
pub proof fn lemma_outputs_bytes_props(outs: Seq<LeafView>)
    requires
        forall|k: int| 0 <= k < outs.len() ==> (#[trigger] outs[k]).wf(),
    ensures
        outputs_bytes(outs).len() == bodies_len_of(outs, outs.len() as int),
        forall|k: int|
            0 <= k < outs.len() ==> #[trigger] outputs_bytes(outs).subrange(
                bodies_len_of(outs, k),
                bodies_len_of(outs, k) + 89 + outs[k].data.len(),
            ) == output_body_bytes(outs[k]),
    decreases outs.len(),
{
    if outs.len() == 0 {
    } else {
        let rest = outs.drop_first();
        lemma_outputs_bytes_props(rest);
        let t = outputs_bytes(outs);
        let head = output_body_bytes(outs[0]);
        assert(head.len() == 89 + outs[0].data.len());
        assert forall|k: int| 0 <= k < rest.len() implies bodies_len_of(rest, k) + head.len()
            == bodies_len_of(outs, k + 1) by {
            lemma_bodies_shift(outs, k);
        }
        assert(t.len() == bodies_len_of(outs, outs.len() as int)) by {
            lemma_bodies_shift(outs, rest.len() as int);
        }
        assert forall|k: int| 0 <= k < outs.len() implies #[trigger] t.subrange(
            bodies_len_of(outs, k),
            bodies_len_of(outs, k) + 89 + outs[k].data.len(),
        ) == output_body_bytes(outs[k]) by {
            if k == 0 {
                assert(t.subrange(0, head.len() as int) =~= head);
            } else {
                lemma_bodies_shift(outs, k - 1);
                lemma_bodies_shift(outs, k);
                assert(rest[k - 1] == outs[k]);
                lemma_bodies_len_nonneg(rest, k - 1);
                lemma_bodies_len_monotone(rest, k, rest.len() as int);
                lemma_bodies_len_monotone(outs, k + 1, outs.len() as int);
                assert(bodies_len_of(rest, k) == bodies_len_of(rest, k - 1) + 89 + rest[k
                    - 1].data.len());
                assert(bodies_len_of(outs, k + 1) == bodies_len_of(outs, k) + 89
                    + outs[k].data.len());
                assert(t.subrange(
                    bodies_len_of(outs, k),
                    bodies_len_of(outs, k) + 89 + outs[k].data.len(),
                ) =~= outputs_bytes(rest).subrange(
                    bodies_len_of(rest, k - 1),
                    bodies_len_of(rest, k - 1) + 89 + rest[k - 1].data.len(),
                ));
            }
        }
    }
}

/// Dropping the first output shifts body offsets by the first body's length.
proof fn lemma_bodies_shift(outs: Seq<LeafView>, k: int)
    requires
        outs.len() > 0,
        0 <= k,
        k + 1 <= outs.len(),
    ensures
        bodies_len_of(outs.drop_first(), k) + 89 + outs[0].data.len() == bodies_len_of(
            outs,
            k + 1,
        ),
    decreases k,
{
    let rest = outs.drop_first();
    if k == 0 {
        assert(bodies_len_of(rest, 0) == 0);
        assert(bodies_len_of(outs, 0) == 0);
        assert(bodies_len_of(outs, 1) == bodies_len_of(outs, 0) + 89 + outs[0].data.len());
    } else {
        lemma_bodies_shift(outs, k - 1);
        assert(rest[k - 1] == outs[k]);
        assert(bodies_len_of(rest, k) == bodies_len_of(rest, k - 1) + 89 + rest[k - 1].data.len());
        assert(bodies_len_of(outs, k + 1) == bodies_len_of(outs, k) + 89 + outs[k].data.len());
    }
}

/// Body lengths are never negative.
pub proof fn lemma_bodies_len_nonneg(outs: Seq<LeafView>, k: int)
    ensures
        bodies_len_of(outs, k) >= 0,
    decreases k,
{
    if k > 0 {
        lemma_bodies_len_nonneg(outs, k - 1);
    }
}

/// The input count announced at the front of a serialized transaction.
pub open spec fn tx_inputs_count(b: Seq<u8>) -> u32
    recommends
        b.len() >= 17,
{
    u32_of_be(b.subrange(9, 13))
}

/// The output count announced at the front of a serialized transaction.
pub open spec fn tx_outputs_count(b: Seq<u8>) -> u32
    recommends
        b.len() >= 17,
{
    u32_of_be(b.subrange(13, 17))
}

/// The announced data length of output `k`.
pub open spec fn tx_len_at(b: Seq<u8>, k: int) -> u32
    recommends
        b.len() >= 17 + 4 * k + 4,
{
    u32_of_be(b.subrange(17 + 4 * k, 21 + 4 * k))
}

/// Where the inputs region starts: after the header and the length table.
pub open spec fn tx_inputs_start(b: Seq<u8>) -> int {
    17 + 4 * tx_outputs_count(b)
}

/// Where the output bodies start: after the inputs region.
pub open spec fn tx_outputs_start(b: Seq<u8>) -> int {
    tx_inputs_start(b) + 36 * tx_inputs_count(b)
}

/// The byte length of the first `n` announced output bodies.
pub open spec fn tx_bodies_len(b: Seq<u8>, n: int) -> int
    decreases n,
{
    if n <= 0 {
        0
    } else {
        tx_bodies_len(b, n - 1) + 89 + tx_len_at(b, n - 1)
    }
}

/// Where output body `k` starts.
pub open spec fn tx_body_pos(b: Seq<u8>, k: int) -> int {
    tx_outputs_start(b) + tx_bodies_len(b, k)
}

/// How many bytes the whole announced transaction needs.
pub open spec fn tx_required_len(b: Seq<u8>) -> int {
    tx_body_pos(b, tx_outputs_count(b) as int)
}

/// A serialized transaction is long enough for everything it announces.
pub open spec fn unsigned_len_ok(b: Seq<u8>) -> bool {
    &&& b.len() >= 17
    &&& b.len() >= tx_outputs_start(b)
    &&& b.len() >= tx_required_len(b)
}

/// `x` capped at the largest usize.
pub open spec fn cap_usize(x: int) -> usize {
    if x > usize::MAX {
        usize::MAX
    } else {
        x as usize
    }
}

/// Input `i` of the serialized transaction.
pub open spec fn parsed_input(b: Seq<u8>, i: int) -> LeafIdView {
    leaf_id_at(b, tx_inputs_start(b) + 36 * i)
}

/// Output `k` of the serialized transaction.
pub open spec fn parsed_output(b: Seq<u8>, k: int) -> LeafView {
    let pos = tx_body_pos(b, k);
    LeafView {
        version: b[pos],
        owner: b.subrange(pos + 1, pos + 21),
        index_key: b.subrange(pos + 21, pos + 53),
        operator: operator_out_of(b.subrange(pos + 53, pos + 89)),
        data: b.subrange(pos + 89, pos + 89 + tx_len_at(b, k)),
    }
}

/// The whole unsigned transaction read from the front of `b`.
pub open spec fn parsed_unsigned(b: Seq<u8>) -> UnsignedTransactionView
    recommends
        unsigned_len_ok(b),
{
    UnsignedTransactionView {
        version: b[0],
        nonce: u64_of_be(b.subrange(1, 9)),
        inputs: Seq::new(tx_inputs_count(b) as nat, |i: int| parsed_input(b, i)),
        outputs: Seq::new(tx_outputs_count(b) as nat, |k: int| parsed_output(b, k)),
    }
}

/// Announced body lengths are never negative.
pub proof fn lemma_tx_bodies_len_nonneg(b: Seq<u8>, k: int)
    ensures
        tx_bodies_len(b, k) >= 0,
    decreases k,
{
    if k > 0 {
        lemma_tx_bodies_len_nonneg(b, k - 1);
    }
}

/// Caps a count at the largest usize.
fn cap_to_usize(x: u128) -> (r: usize)
    ensures
        r == cap_usize(x as int),
{
    if x > usize::MAX as u128 {
        usize::MAX
    } else {
        x as usize
    }
}

/// Body prefixes grow with their count.
pub proof fn lemma_tx_bodies_len_monotone(b: Seq<u8>, j: int, k: int)
    requires
        0 <= j <= k,
    ensures
        tx_bodies_len(b, j) <= tx_bodies_len(b, k),
    decreases k - j,
{
    if j < k {
        lemma_tx_bodies_len_monotone(b, j, k - 1);
    }
}

/// The hashed core of a transaction: version, nonce, the leaf ids it
/// consumes and the leaves it produces.
#[derive(Debug)]
pub struct UnsignedTransaction {
    pub version: u8,
    pub nonce: u64,
    pub inputs: Vec<LeafId>,
    pub outputs: Vec<Leaf>,
}

impl View for UnsignedTransaction {
    type V = UnsignedTransactionView;

    open spec fn view(&self) -> UnsignedTransactionView {
        UnsignedTransactionView {
            version: self.version,
            nonce: self.nonce,
            inputs: self.inputs@.map_values(|id: LeafId| id@),
            outputs: self.outputs@.map_values(|l: Leaf| l@),
        }
    }
}

impl UnsignedTransaction {
    pub open spec fn wf(&self) -> bool {
        self@.wf()
    }

    /// Appends the canonical wire form of the transaction.
    pub fn append_to_vec(&self, v: &mut Vec<u8>) -> (r: Result<(), Error>)
        requires
            self.wf(),
        ensures
            r is Ok,
            final(v)@ == old(v)@ + unsigned_tx_bytes(self@),
    {
        let ghost t = self@;
        v.push(self.version);
        crate::wire::push_u64_be(v, self.nonce);
        crate::wire::push_u32_be(v, self.inputs.len() as u32);
        crate::wire::push_u32_be(v, self.outputs.len() as u32);
        let ghost head = v@;

        let mut k: usize = 0;
        while k < self.outputs.len()
            invariant
                k <= self.outputs.len(),
                self.wf(),
                t == self@,
                v@ == head + lens_table(t.outputs.take(k as int)),
            decreases self.outputs.len() - k,
        {
            proof {
                lemma_lens_snoc(t.outputs, k as int);
            }
            crate::wire::push_u32_be(v, self.outputs[k].data.0.len() as u32);
            assert(v@ =~= head + lens_table(t.outputs.take(k as int + 1)));
            k += 1;
        }
        assert(t.outputs.take(t.outputs.len() as int) =~= t.outputs);
        let ghost head2 = v@;

        let mut i: usize = 0;
        while i < self.inputs.len()
            invariant
                i <= self.inputs.len(),
                self.wf(),
                t == self@,
                v@ == head2 + inputs_bytes(t.inputs.take(i as int)),
            decreases self.inputs.len() - i,
        {
            proof {
                lemma_inputs_snoc(t.inputs, i as int);
                assert(self.inputs[i as int]@ == t.inputs[i as int]);
            }
            self.inputs[i].append_to_vec(v);
            assert(v@ =~= head2 + inputs_bytes(t.inputs.take(i as int + 1)));
            i += 1;
        }
        assert(t.inputs.take(t.inputs.len() as int) =~= t.inputs);
        let ghost head3 = v@;

        let mut k: usize = 0;
        while k < self.outputs.len()
            invariant
                k <= self.outputs.len(),
                self.wf(),
                t == self@,
                v@ == head3 + outputs_bytes(t.outputs.take(k as int)),
            decreases self.outputs.len() - k,
        {
            proof {
                lemma_outputs_snoc(t.outputs, k as int);
                assert(self.outputs[k as int]@ == t.outputs[k as int]);
            }
            let ghost before = v@;
            let out = &self.outputs[k];
            v.push(out.version);
            v.extend_from_slice(out.owner.as_slice());
            v.extend_from_slice(out.index_key.as_slice());
            match &out.operator {
                Option::Some(id) => {
                    v.extend_from_slice(id.txid.as_slice());
                    crate::wire::push_u32_be(v, id.index);
                },
                Option::None => {
                    let zeros = vec![0u8; 36];
                    assert(zeros@ =~= zero_bytes(36));
                    v.extend_from_slice(zeros.as_slice());
                },
            }
            v.extend_from_slice(out.data.0.as_slice());
            assert(v@ =~= before + output_body_bytes(t.outputs[k as int]));
            assert(v@ =~= head3 + outputs_bytes(t.outputs.take(k as int + 1)));
            k += 1;
        }
        assert(v@ =~= old(v)@ + unsigned_tx_bytes(t));
        Ok(())
    }

    /// Reads a transaction from the front of `slice`; bytes after the
    /// announced regions are left alone (the signed form stores unlockers
    /// there). A buffer too short for its header, its input region or its
    /// announced output bodies is rejected.
    pub fn from_slice(slice: &[u8]) -> (r: Result<Self, Error>)
        ensures
            slice@.len() < 17 ==> r == Err::<Self, Error>(
                Error::WrongLengthForTx(slice@.len() as usize, 17),
            ),
            slice@.len() >= 17 && slice@.len() < tx_outputs_start(slice@) ==> r == Err::<
                Self,
                Error,
            >(Error::WrongLengthForTx(slice@.len() as usize, cap_usize(tx_outputs_start(slice@)))),
            slice@.len() >= tx_outputs_start(slice@) && slice@.len() >= 17 && slice@.len()
                < tx_required_len(slice@) ==> r == Err::<Self, Error>(
                Error::WrongLengthForTx(slice@.len() as usize, cap_usize(tx_required_len(slice@))),
            ),
            unsigned_len_ok(slice@) ==> (r matches Ok(t) && t.wf() && t@ == parsed_unsigned(
                slice@,
            )),
    {
        let ghost b = slice@;
        let len = slice.len();
        if len < 17 {
            return Err(Error::WrongLengthForTx(len, 17));
        }
        let version = *vstd::slice::slice_index_get(slice, 0);
        let nonce = read_u64_be(slice, 1);
        let icount = read_u32_be(slice, 9);
        let ocount = read_u32_be(slice, 13);
        assert(icount == tx_inputs_count(b) && ocount == tx_outputs_count(b));

        let fixed: u128 = 17u128 + 4u128 * (ocount as u128) + 36u128 * (icount as u128);
        assert(fixed as int == tx_outputs_start(b));
        if (len as u128) < fixed {
            return Err(Error::WrongLengthForTx(len, cap_to_usize(fixed)));
        }
        assert(17 + 4 * (ocount as int) + 36 * (icount as int) <= len as int);
        let inputs_start: usize = 17 + 4 * (ocount as usize);
        let outputs_start: usize = inputs_start + 36 * (icount as usize);

        let mut lens: Vec<u32> = Vec::new();
        let mut required: u128 = fixed;
        let mut k: usize = 0;
        while k < ocount as usize
            invariant
                k <= ocount as usize,
                b == slice@,
                b.len() == len,
                len >= 17,
                icount == tx_inputs_count(b),
                ocount == tx_outputs_count(b),
                17 + 4 * (ocount as int) + 36 * (icount as int) <= len as int,
                lens@.len() == k,
                forall|j: int| 0 <= j < k ==> lens@[j] == tx_len_at(b, j),
                required as int == tx_outputs_start(b) + tx_bodies_len(b, k as int),
                required as int <= tx_outputs_start(b) + (k as int) * (89 + u32::MAX as int),
            decreases ocount as usize - k,
        {
            assert(17 + 4 * (k as int) + 4 <= 17 + 4 * (ocount as int));
            let lk = read_u32_be(slice, 17 + 4 * k);
            assert(lk == tx_len_at(b, k as int));
            lens.push(lk);
            required = required + 89 + (lk as u128);
            k += 1;
        }
        if (len as u128) < required {
            return Err(Error::WrongLengthForTx(len, cap_to_usize(required)));
        }
        assert(tx_required_len(b) <= len as int);
        assert(unsigned_len_ok(b));

        let mut inputs: Vec<LeafId> = Vec::new();
        let mut i: usize = 0;
        while i < icount as usize
            invariant
                i <= icount as usize,
                b == slice@,
                b.len() == len,
                icount == tx_inputs_count(b),
                ocount == tx_outputs_count(b),
                inputs_start as int == 17 + 4 * (ocount as int),
                outputs_start as int == tx_outputs_start(b),
                outputs_start <= len,
                inputs@.len() == i,
                forall|j: int|
                    0 <= j < i ==> (#[trigger] inputs@[j])@ == parsed_input(b, j) && inputs@[j].wf(),
            decreases icount as usize - i,
        {
            assert(inputs_start as int + 36 * (i as int) + 36 <= outputs_start as int);
            let pos = inputs_start + 36 * i;
            let sub = slice_subrange(slice, pos, pos + 36);
            let id = match LeafId::from_slice(sub) {
                Ok(id) => id,
                Err(e) => {
                    proof {
                        assert(false);
                    }
                    return Err(e);
                },
            };
            proof {
                assert(sub@.subrange(0, 32) =~= b.subrange(pos as int, pos as int + 32));
                assert(sub@.subrange(32, 36) =~= b.subrange(pos as int + 32, pos as int + 36));
                assert(id@ == parsed_input(b, i as int));
            }
            inputs.push(id);
            i += 1;
        }

        let mut outputs: Vec<Leaf> = Vec::new();
        let mut pos: usize = outputs_start;
        let mut k: usize = 0;
        while k < ocount as usize
            invariant
                k <= ocount as usize,
                b == slice@,
                b.len() == len,
                icount == tx_inputs_count(b),
                ocount == tx_outputs_count(b),
                outputs_start as int == tx_outputs_start(b),
                tx_required_len(b) <= len as int,
                lens@.len() == ocount as usize,
                forall|j: int| 0 <= j < ocount as usize ==> lens@[j] == tx_len_at(b, j),
                pos as int == tx_body_pos(b, k as int),
                outputs@.len() == k,
                forall|j: int|
                    0 <= j < k ==> (#[trigger] outputs@[j])@ == parsed_output(b, j)
                        && outputs@[j].wf(),
            decreases ocount as usize - k,
        {
            proof {
                lemma_tx_bodies_len_monotone(b, k as int + 1, ocount as int);
                assert(tx_body_pos(b, k as int) + 89 + tx_len_at(b, k as int) == tx_body_pos(
                    b,
                    k as int + 1,
                ));
                lemma_tx_bodies_len_nonneg(b, k as int);
            }
            let dlen = lens[k] as usize;
            assert(pos as int + 89 + dlen as int <= len as int);
            let oversion = *vstd::slice::slice_index_get(slice, pos);
            let owner = match Address::from_slice(slice_subrange(slice, pos + 1, pos + 21)) {
                Ok(a) => a,
                Err(e) => {
                    proof {
                        assert(false);
                    }
                    return Err(e);
                },
            };
            let index_key = match IndexKey::from_slice(slice_subrange(slice, pos + 21, pos + 53)) {
                Ok(x) => x,
                Err(e) => {
                    proof {
                        assert(false);
                    }
                    return Err(e);
                },
            };
            let op_txid = match FixedBytes::<32>::from_slice(
                slice_subrange(slice, pos + 53, pos + 85),
            ) {
                Ok(x) => x,
                Err(e) => {
                    proof {
                        assert(false);
                    }
                    return Err(e);
                },
            };
            let op_index = read_u32_be(slice, pos + 85);
            let operator = if op_txid.is_none() && op_index == 0 {
                Option::None
            } else {
                Option::Some(LeafId { txid: op_txid, index: op_index })
            };
            let data = Bytes::from_slice(slice_subrange(slice, pos + 89, pos + 89 + dlen));
            let out = Leaf { version: oversion, owner, index_key, operator, data };
            proof {
                let p = pos as int;
                let s = b.subrange(p + 53, p + 89);
                assert(s.subrange(0, 32) =~= b.subrange(p + 53, p + 85));
                assert(s.subrange(32, 36) =~= b.subrange(p + 85, p + 89));
                crate::types::lemma_u32_be_bytes_zero();
                crate::wire::lemma_u32_be_round_trip(0u32);
                if op_txid@ == zero_bytes(32) && op_index == 0 {
                    crate::wire::lemma_u32_be_inverse(s.subrange(32, 36));
                    assert(s =~= zero_bytes(36));
                } else {
                    if s == zero_bytes(36) {
                        assert(s.subrange(0, 32) =~= zero_bytes(32));
                        assert(s.subrange(32, 36) =~= zero_bytes(4));
                        assert(u32_of_be(zero_bytes(4)) == 0);
                        assert(false);
                    }
                }
                assert(out@ == parsed_output(b, k as int));
                assert(out.wf());
            }
            outputs.push(out);
            pos = pos + 89 + dlen;
            k += 1;
        }

        let t = UnsignedTransaction { version, nonce, inputs, outputs };
        proof {
            let p = parsed_unsigned(b);
            assert(t@.inputs =~= p.inputs);
            assert(t@.outputs =~= p.outputs);
            assert(t@ == p);
        }
        Ok(t)
    }

    /// The canonical wire form of the transaction as a fresh vector.
    pub fn to_vec(&self) -> (r: Result<Vec<u8>, Error>)
        requires
            self.wf(),
        ensures
            r matches Ok(v) && v@ == unsigned_tx_bytes(self@),
    {
        let mut v = Vec::new();
        match self.append_to_vec(&mut v) {
            Ok(()) => Ok(v),
            Err(e) => Err(e),
        }
    }

    /// The transaction identifier: the SHA3-256 digest of the canonical
    /// wire form. Unlockers take no part, so witness changes never move the
    /// txid.
    pub fn hash(&self) -> (r: Result<Txid, Error>)
        requires
            self.wf(),
        ensures
            r matches Ok(t) && t.wf() && t@ == spec_txid(self@),
    {
        let bytes = match self.to_vec() {
            Ok(b) => b,
            Err(e) => {
                proof {
                    assert(false);
                }
                return Err(e);
            },
        };
        let digest = sha3_256(bytes.as_slice());
        match Txid::from_slice(digest.as_slice()) {
            Ok(t) => Ok(t),
            Err(e) => {
                proof {
                    assert(false);
                }
                Err(e)
            },
        }
    }
}

/// Taking one more output extends the length table by one entry.
proof fn lemma_lens_snoc(outs: Seq<LeafView>, k: int)
    requires
        0 <= k < outs.len(),
    ensures
        lens_table(outs.take(k + 1)) == lens_table(outs.take(k)) + u32_be_bytes(
            outs[k].data.len() as u32,
        ),
    decreases k,
{
    let a = outs.take(k + 1);
    if k == 0 {
        assert(a.drop_first() =~= outs.take(0));
        assert(lens_table(outs.take(0)) =~= Seq::<u8>::empty());
        assert(lens_table(a) =~= u32_be_bytes(outs[0].data.len() as u32));
    } else {
        lemma_lens_snoc(outs.drop_first(), k - 1);
        assert(a.drop_first() =~= outs.drop_first().take(k));
        assert(outs.take(k).drop_first() =~= outs.drop_first().take(k - 1));
        assert(outs.drop_first()[k - 1] == outs[k]);
        assert(lens_table(a) == u32_be_bytes(outs[0].data.len() as u32) + lens_table(
            outs.drop_first().take(k),
        ));
        assert(lens_table(outs.take(k + 1)) =~= lens_table(outs.take(k)) + u32_be_bytes(
            outs[k].data.len() as u32,
        ));
    }
}

/// Taking one more input extends the inputs region by one leaf id.
proof fn lemma_inputs_snoc(ins: Seq<LeafIdView>, i: int)
    requires
        0 <= i < ins.len(),
    ensures
        inputs_bytes(ins.take(i + 1)) == inputs_bytes(ins.take(i)) + leaf_id_bytes(ins[i]),
    decreases i,
{
    let a = ins.take(i + 1);
    if i == 0 {
        assert(a.drop_first() =~= ins.take(0));
        assert(inputs_bytes(ins.take(0)) =~= Seq::<u8>::empty());
        assert(inputs_bytes(a) =~= leaf_id_bytes(ins[0]));
    } else {
        lemma_inputs_snoc(ins.drop_first(), i - 1);
        assert(a.drop_first() =~= ins.drop_first().take(i));
        assert(ins.take(i).drop_first() =~= ins.drop_first().take(i - 1));
        assert(ins.drop_first()[i - 1] == ins[i]);
        assert(inputs_bytes(ins.take(i + 1)) =~= inputs_bytes(ins.take(i)) + leaf_id_bytes(
            ins[i],
        ));
    }
}

/// Taking one more output extends the bodies region by one body.
proof fn lemma_outputs_snoc(outs: Seq<LeafView>, k: int)
    requires
        0 <= k < outs.len(),
    ensures
        outputs_bytes(outs.take(k + 1)) == outputs_bytes(outs.take(k)) + output_body_bytes(
            outs[k],
        ),
    decreases k,
{
    let a = outs.take(k + 1);
    if k == 0 {
        assert(a.drop_first() =~= outs.take(0));
        assert(outputs_bytes(outs.take(0)) =~= Seq::<u8>::empty());
        assert(outputs_bytes(a) =~= output_body_bytes(outs[0]));
    } else {
        lemma_outputs_snoc(outs.drop_first(), k - 1);
        assert(a.drop_first() =~= outs.drop_first().take(k));
        assert(outs.take(k).drop_first() =~= outs.drop_first().take(k - 1));
        assert(outs.drop_first()[k - 1] == outs[k]);
        assert(outputs_bytes(outs.take(k + 1)) =~= outputs_bytes(outs.take(k))
            + output_body_bytes(outs[k]));
    }
}

/// A well-formed, non-absent operator never gives an all-zero output field.
pub proof fn lemma_operator_out_bytes_nonzero(l: LeafIdView)
    requires
        l.wf(),
        !l.is_absent(),
    ensures
        l.txid + u32_be_bytes(l.index) != zero_bytes(36),
{
    let s = l.txid + u32_be_bytes(l.index);
    if l.txid != zero_bytes(32) {
        if forall|k: int| 0 <= k < 32 ==> l.txid[k] == #[trigger] zero_bytes(32)[k] {
            assert(l.txid =~= zero_bytes(32));
        }
        let k = choose|k: int| 0 <= k < 32 && l.txid[k] != zero_bytes(32)[k];
        assert(s[k] == l.txid[k]);
        assert(zero_bytes(36)[k] == 0);
    } else {
        let x = l.index;
        assert(((x >> 24) & 0xff) as u8 != 0 || ((x >> 16) & 0xff) as u8 != 0 || ((x >> 8)
            & 0xff) as u8 != 0 || (x & 0xff) as u8 != 0) by (bit_vector)
            requires
                x != 0,
        ;
        if ((x >> 24) & 0xff) as u8 != 0 {
            assert(s[32] == u32_be_bytes(x)[0]);
            assert(zero_bytes(36)[32] == 0);
        } else if ((x >> 16) & 0xff) as u8 != 0 {
            assert(s[33] == u32_be_bytes(x)[1]);
            assert(zero_bytes(36)[33] == 0);
        } else if ((x >> 8) & 0xff) as u8 != 0 {
            assert(s[34] == u32_be_bytes(x)[2]);
            assert(zero_bytes(36)[34] == 0);
        } else {
            assert(s[35] == u32_be_bytes(x)[3]);
            assert(zero_bytes(36)[35] == 0);
        }
    }
}

/// Reading back an output's operator field yields the operator again.
pub proof fn lemma_operator_out_round_trip(op: Option<LeafIdView>)
    requires
        op matches Option::Some(l) ==> l.wf() && !l.is_absent(),
    ensures
        operator_out_of(operator_out_bytes(op)) == op,
{
    match op {
        Option::None => {
        },
        Option::Some(l) => {
            lemma_operator_out_bytes_nonzero(l);
            let s = operator_out_bytes(op);
            assert(s.subrange(0, 32) =~= l.txid);
            assert(s.subrange(32, 36) =~= u32_be_bytes(l.index));
            crate::wire::lemma_u32_be_round_trip(l.index);
        },
    }
}

/// The length table of the outputs parsed back from `b` re-encodes to the
/// table region of `b`.
proof fn lemma_lens_region_inverse(b: Seq<u8>, outs: Seq<LeafView>, n: int)
    requires
        0 <= n <= outs.len(),
        17 + 4 * outs.len() <= b.len(),
        forall|k: int|
            0 <= k < outs.len() ==> (#[trigger] outs[k]).data.len() == tx_len_at(b, k),
    ensures
        lens_table(outs.take(n)) == b.subrange(17, 17 + 4 * n),
    decreases n,
{
    if n == 0 {
        assert(lens_table(outs.take(0)) =~= b.subrange(17, 17));
    } else {
        lemma_lens_region_inverse(b, outs, n - 1);
        lemma_lens_snoc(outs, n - 1);
        crate::wire::lemma_u32_be_inverse(b.subrange(17 + 4 * (n - 1), 21 + 4 * (n - 1)));
        assert(u32_be_bytes(outs[n - 1].data.len() as u32) == b.subrange(
            17 + 4 * (n - 1),
            21 + 4 * (n - 1),
        ));
        assert(lens_table(outs.take(n)) =~= b.subrange(17, 17 + 4 * n));
    }
}

/// The inputs parsed back from `b` re-encode to the inputs region of `b`.
proof fn lemma_inputs_region_inverse(b: Seq<u8>, ins: Seq<LeafIdView>, n: int, start: int)
    requires
        0 <= n <= ins.len(),
        0 <= start,
        start + 36 * ins.len() <= b.len(),
        forall|i: int| 0 <= i < ins.len() ==> (#[trigger] ins[i]) == leaf_id_at(b, start + 36 * i),
    ensures
        inputs_bytes(ins.take(n)) == b.subrange(start, start + 36 * n),
    decreases n,
{
    if n == 0 {
        assert(inputs_bytes(ins.take(0)) =~= b.subrange(start, start));
    } else {
        lemma_inputs_region_inverse(b, ins, n - 1, start);
        lemma_inputs_snoc(ins, n - 1);
        crate::types::lemma_leaf_id_inverse(b, start + 36 * (n - 1));
        assert(inputs_bytes(ins.take(n)) =~= b.subrange(start, start + 36 * n));
    }
}

/// One parsed output body re-encodes to its region of `b`.
proof fn lemma_output_body_inverse(b: Seq<u8>, k: int)
    requires
        unsigned_len_ok(b),
        0 <= k < tx_outputs_count(b),
    ensures
        parsed_output(b, k).wf(),
        output_body_bytes(parsed_output(b, k)) == b.subrange(
            tx_body_pos(b, k),
            tx_body_pos(b, k) + 89 + tx_len_at(b, k),
        ),
{
    let pos = tx_body_pos(b, k);
    let l = parsed_output(b, k);
    lemma_tx_bodies_len_nonneg(b, k);
    lemma_tx_bodies_len_monotone(b, k + 1, tx_outputs_count(b) as int);
    let s = b.subrange(pos + 53, pos + 89);
    crate::types::lemma_u32_be_bytes_zero();
    crate::wire::lemma_u32_be_round_trip(0u32);
    assert(l.operator matches Option::Some(id) ==> id.wf() && !id.is_absent()) by {
        if s != zero_bytes(36) {
            let id = LeafIdView { txid: s.subrange(0, 32), index: u32_of_be(s.subrange(32, 36)) };
            if id.is_absent() {
                crate::wire::lemma_u32_be_inverse(s.subrange(32, 36));
                assert(s.subrange(32, 36) == zero_bytes(4));
                assert(s.subrange(0, 32) == zero_bytes(32));
                assert forall|j: int| 0 <= j < 36 implies s[j] == 0 by {
                    if j < 32 {
                        assert(s[j] == s.subrange(0, 32)[j]);
                    } else {
                        assert(s[j] == s.subrange(32, 36)[j - 32]);
                    }
                }
                assert(s =~= zero_bytes(36));
            }
        }
    }
    assert(operator_out_bytes(l.operator) == s) by {
        if s == zero_bytes(36) {
        } else {
            crate::wire::lemma_u32_be_inverse(s.subrange(32, 36));
            assert(operator_out_bytes(l.operator) =~= s);
        }
    }
    assert(output_body_bytes(l) =~= b.subrange(pos, pos + 89 + tx_len_at(b, k)));
}

/// The outputs parsed back from `b` re-encode to the bodies region of `b`.
proof fn lemma_outputs_region_inverse(b: Seq<u8>, outs: Seq<LeafView>, n: int)
    requires
        unsigned_len_ok(b),
        outs.len() == tx_outputs_count(b),
        0 <= n <= outs.len(),
        forall|k: int| 0 <= k < outs.len() ==> (#[trigger] outs[k]) == parsed_output(b, k),
    ensures
        outputs_bytes(outs.take(n)) == b.subrange(tx_outputs_start(b), tx_body_pos(b, n)),
    decreases n,
{
    if n == 0 {
        assert(outputs_bytes(outs.take(0)) =~= b.subrange(
            tx_outputs_start(b),
            tx_outputs_start(b),
        ));
    } else {
        lemma_outputs_region_inverse(b, outs, n - 1);
        lemma_outputs_snoc(outs, n - 1);
        lemma_output_body_inverse(b, n - 1);
        lemma_tx_bodies_len_nonneg(b, n - 1);
        lemma_tx_bodies_len_monotone(b, n, tx_outputs_count(b) as int);
        assert(outputs_bytes(outs.take(n)) =~= b.subrange(tx_outputs_start(b), tx_body_pos(b, n)));
    }
}

/// A transaction parsed from canonical bytes re-encodes to exactly those
/// bytes: the front of `b`, up to what the transaction announces.
pub proof fn lemma_unsigned_inverse(b: Seq<u8>)
    requires
        unsigned_len_ok(b),
    ensures
        parsed_unsigned(b).wf(),
        tx_required_len(b) >= 17,
        unsigned_tx_bytes(parsed_unsigned(b)) == b.subrange(0, tx_required_len(b)),
{
    let t = parsed_unsigned(b);
    let icount = tx_inputs_count(b) as int;
    let ocount = tx_outputs_count(b) as int;
    lemma_tx_bodies_len_nonneg(b, ocount);
    assert(t.wf()) by {
        assert forall|k: int| 0 <= k < ocount implies (#[trigger] t.outputs[k]).wf() by {
            lemma_output_body_inverse(b, k);
        }
    }
    crate::wire::lemma_u32_be_inverse(b.subrange(9, 13));
    crate::wire::lemma_u32_be_inverse(b.subrange(13, 17));
    crate::wire::lemma_u64_be_inverse(b.subrange(1, 9));
    assert forall|k: int| 0 <= k < ocount implies (#[trigger] t.outputs[k]).data.len()
        == tx_len_at(b, k) by {
        lemma_tx_bodies_len_nonneg(b, k);
        lemma_tx_bodies_len_monotone(b, k + 1, ocount);
    }
    lemma_lens_region_inverse(b, t.outputs, ocount);
    assert(t.outputs.take(ocount) =~= t.outputs);
    lemma_inputs_region_inverse(b, t.inputs, icount, tx_inputs_start(b));
    assert(t.inputs.take(icount) =~= t.inputs);
    lemma_outputs_region_inverse(b, t.outputs, ocount);
    assert(unsigned_tx_bytes(t) =~= b.subrange(0, tx_required_len(b)));
}

/// Round trip: a well-formed transaction decodes from its own canonical
/// bytes, whose announced length is exactly their length.
#[verifier::rlimit(100)]
pub proof fn lemma_unsigned_round_trip(t: UnsignedTransactionView)
    requires
        t.wf(),
    ensures
        unsigned_len_ok(unsigned_tx_bytes(t)),
        tx_required_len(unsigned_tx_bytes(t)) == unsigned_tx_bytes(t).len(),
        parsed_unsigned(unsigned_tx_bytes(t)) == t,
{
    let b = unsigned_tx_bytes(t);
    let icount = t.inputs.len() as int;
    let ocount = t.outputs.len() as int;
    lemma_lens_table_props(t.outputs);
    lemma_inputs_bytes_props(t.inputs);
    lemma_outputs_bytes_props(t.outputs);
    assert(b.subrange(9, 13) =~= u32_be_bytes(t.inputs.len() as u32));
    assert(b.subrange(13, 17) =~= u32_be_bytes(t.outputs.len() as u32));
    crate::wire::lemma_u32_be_round_trip(t.inputs.len() as u32);
    crate::wire::lemma_u32_be_round_trip(t.outputs.len() as u32);
    assert(tx_inputs_count(b) == icount && tx_outputs_count(b) == ocount);
    assert(b.subrange(1, 9) =~= u64_be_bytes(t.nonce));
    crate::wire::lemma_u64_be_round_trip(t.nonce);

    let inputs_start: int = 17 + 4 * ocount;
    let outputs_start: int = inputs_start + 36 * icount;
    assert(tx_inputs_start(b) == inputs_start);
    assert(tx_outputs_start(b) == outputs_start);

    assert forall|k: int| 0 <= k < ocount implies tx_len_at(b, k) == (#[trigger] t.outputs[k]).data.len() by {
        assert(b.subrange(17 + 4 * k, 21 + 4 * k) =~= lens_table(t.outputs).subrange(
            4 * k,
            4 * k + 4,
        ));
        crate::wire::lemma_u32_be_round_trip(t.outputs[k].data.len() as u32);
    }
    assert forall|k: int| 0 <= k <= ocount implies tx_bodies_len(b, k) == #[trigger] bodies_len_of(
        t.outputs,
        k,
    ) by {
        lemma_bodies_match(b, t.outputs, k);
    }
    assert(b.len() == outputs_start + bodies_len_of(t.outputs, ocount));
    assert(tx_required_len(b) == b.len());
    assert(unsigned_len_ok(b));

    assert forall|i: int| 0 <= i < icount implies parsed_input(b, i) == #[trigger] t.inputs[i] by {
        assert(b.subrange(inputs_start + 36 * i, inputs_start + 36 * i + 36) =~= inputs_bytes(
            t.inputs,
        ).subrange(36 * i, 36 * i + 36));
        let pos = inputs_start + 36 * i;
        assert(b.subrange(pos, pos + 32) =~= leaf_id_bytes(t.inputs[i]).subrange(0, 32));
        assert(b.subrange(pos + 32, pos + 36) =~= leaf_id_bytes(t.inputs[i]).subrange(32, 36));
        assert(leaf_id_bytes(t.inputs[i]).subrange(0, 32) =~= t.inputs[i].txid);
        assert(leaf_id_bytes(t.inputs[i]).subrange(32, 36) =~= crate::wire::u32_le_bytes(
            t.inputs[i].index,
        ));
        crate::wire::lemma_u32_le_round_trip(t.inputs[i].index);
    }
    assert forall|k: int| 0 <= k < ocount implies parsed_output(b, k) == #[trigger] t.outputs[k] by {
        lemma_bodies_len_nonneg(t.outputs, k);
        lemma_bodies_len_monotone(t.outputs, k + 1, ocount);
        let l = t.outputs[k];
        let pos = outputs_start + bodies_len_of(t.outputs, k);
        assert(tx_body_pos(b, k) == pos);
        let body = output_body_bytes(l);
        assert(b.subrange(pos, pos + 89 + l.data.len() as int) =~= outputs_bytes(
            t.outputs,
        ).subrange(
            bodies_len_of(t.outputs, k),
            bodies_len_of(t.outputs, k) + 89 + l.data.len() as int,
        ));
        assert(b.subrange(pos, pos + 89 + l.data.len() as int) == body);
        assert(b[pos] == body[0]);
        assert(b.subrange(pos + 1, pos + 21) =~= body.subrange(1, 21));
        assert(b.subrange(pos + 21, pos + 53) =~= body.subrange(21, 53));
        assert(b.subrange(pos + 53, pos + 89) =~= body.subrange(53, 89));
        assert(b.subrange(pos + 89, pos + 89 + l.data.len() as int) =~= body.subrange(
            89,
            89 + l.data.len() as int,
        ));
        assert(body.subrange(1, 21) =~= l.owner);
        assert(body.subrange(21, 53) =~= l.index_key);
        assert(body.subrange(53, 89) =~= operator_out_bytes(l.operator));
        assert(body.subrange(89, 89 + l.data.len() as int) =~= l.data);
        lemma_operator_out_round_trip(l.operator);
    }
    assert(parsed_unsigned(b).inputs =~= t.inputs);
    assert(parsed_unsigned(b).outputs =~= t.outputs);
}

/// Announced and actual body prefix lengths agree when every announced
/// length matches its output.
proof fn lemma_bodies_match(b: Seq<u8>, outs: Seq<LeafView>, k: int)
    requires
        forall|j: int| 0 <= j < k ==> tx_len_at(b, j) == (#[trigger] outs[j]).data.len(),
    ensures
        tx_bodies_len(b, k) == bodies_len_of(outs, k),
    decreases k,
{
    if k > 0 {
        lemma_bodies_match(b, outs, k - 1);
    }
}

/// The txid is a pure function of the canonical bytes: transactions with
/// the same canonical encoding have the same txid.
pub proof fn lemma_txid_depends_on_bytes_alone(t1: UnsignedTransactionView, t2: UnsignedTransactionView)
    requires
        unsigned_tx_bytes(t1) == unsigned_tx_bytes(t2),
    ensures
        spec_txid(t1) == spec_txid(t2),
{
}

/// The mathematical value of a filled transaction.
pub struct FilledTransactionView {
    pub inputs: Seq<LeafView>,
    pub unlockers: Seq<Seq<u8>>,
    pub outputs: Seq<LeafView>,
}

/// The checker's product: a transaction with its resolved inputs carried as
/// full leaves, aligned with the unlockers by position.
#[derive(Debug)]
pub struct FilledTransaction {
    pub inputs: Vec<Leaf>,
    pub unlockers: Vec<Bytes>,
    pub outputs: Vec<Leaf>,
}

impl View for FilledTransaction {
    type V = FilledTransactionView;

    open spec fn view(&self) -> FilledTransactionView {
        FilledTransactionView {
            inputs: self.inputs@.map_values(|l: Leaf| l@),
            unlockers: self.unlockers@.map_values(|u: Bytes| u@),
            outputs: self.outputs@.map_values(|l: Leaf| l@),
        }
    }
}

impl Clone for UnsignedTransaction {
    /// The clone has the same value.
    fn clone(&self) -> (r: Self)
        ensures
            r@ == self@,
    {
        let mut inputs: Vec<LeafId> = Vec::new();
        let mut i: usize = 0;
        while i < self.inputs.len()
            invariant
                i <= self.inputs@.len(),
                inputs@.len() == i,
                forall|j: int| 0 <= j < i ==> (#[trigger] inputs@[j])@ == self.inputs@[j]@,
            decreases self.inputs@.len() - i,
        {
            inputs.push(self.inputs[i].clone());
            i += 1;
        }
        let mut outputs: Vec<Leaf> = Vec::new();
        let mut k: usize = 0;
        while k < self.outputs.len()
            invariant
                k <= self.outputs@.len(),
                outputs@.len() == k,
                forall|j: int| 0 <= j < k ==> (#[trigger] outputs@[j])@ == self.outputs@[j]@,
            decreases self.outputs@.len() - k,
        {
            outputs.push(self.outputs[k].clone());
            k += 1;
        }
        let r = Self { version: self.version, nonce: self.nonce, inputs, outputs };
        proof {
            assert(r@.inputs =~= self@.inputs);
            assert(r@.outputs =~= self@.outputs);
        }
        r
    }
}

impl PartialEq for UnsignedTransaction {
    fn eq(&self, other: &Self) -> (r: bool)
        ensures
            r == (self@ == other@),
    {
        if self.version != other.version || self.nonce != other.nonce {
            proof {
                assert(self@ != other@);
            }
            return false;
        }
        if self.inputs.len() != other.inputs.len() || self.outputs.len() != other.outputs.len() {
            proof {
                assert(self@.inputs.len() != other@.inputs.len() || self@.outputs.len()
                    != other@.outputs.len());
            }
            return false;
        }
        let n = self.inputs.len();
        let mut i: usize = 0;
        while i < n
            invariant
                i <= n,
                n == self.inputs@.len(),
                n == other.inputs@.len(),
                forall|j: int| 0 <= j < i ==> self.inputs@[j]@ == #[trigger] other.inputs@[j]@,
            decreases n - i,
        {
            if !(self.inputs[i] == other.inputs[i]) {
                proof {
                    assert(self@.inputs[i as int] != other@.inputs[i as int]);
                }
                return false;
            }
            i += 1;
        }
        let m = self.outputs.len();
        let mut k: usize = 0;
        while k < m
            invariant
                k <= m,
                m == self.outputs@.len(),
                m == other.outputs@.len(),
                forall|j: int| 0 <= j < k ==> self.outputs@[j]@ == #[trigger] other.outputs@[j]@,
            decreases m - k,
        {
            if !(self.outputs[k] == other.outputs[k]) {
                proof {
                    assert(self@.outputs[k as int] != other@.outputs[k as int]);
                }
                return false;
            }
            k += 1;
        }
        proof {
            assert(self@.inputs =~= other@.inputs);
            assert(self@.outputs =~= other@.outputs);
        }
        true
    }
}

impl vstd::std_specs::cmp::PartialEqSpecImpl for UnsignedTransaction {
    open spec fn obeys_eq_spec() -> bool {
        true
    }

    open spec fn eq_spec(&self, other: &Self) -> bool {
        self@ == other@
    }
}

} // verus!
