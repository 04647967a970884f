//! Signed transactions: the unsigned core followed by a trailer of
//! unlockers.
//!
//! The trailer stores the unlocker bodies in reverse order, then their
//! lengths in reverse order, then the unlocker count, so a consumer can
//! locate the unlockers from the end of the buffer without parsing the
//! prefix, and the hashed unsigned prefix stays byte-identical.

use vstd::prelude::*;
use vstd::slice::slice_subrange;

use crate::error::Error;
use crate::types::Bytes;
use crate::unsigned_tx::{
    cap_usize, parsed_unsigned, tx_outputs_start, tx_required_len, unsigned_len_ok,
    unsigned_tx_bytes, UnsignedTransaction, UnsignedTransactionView,
};
use crate::wire::{read_u32_be, u32_be_bytes, u32_of_be};

verus! {

/// The mathematical value of a signed transaction.
pub struct TransactionView {
    pub unsigned: UnsignedTransactionView,
    pub unlockers: Seq<Seq<u8>>,
}

impl TransactionView {
    /// The unsigned core is well formed and the unlockers fit their u32
    /// length fields.
    pub open spec fn wf(self) -> bool {
        &&& self.unsigned.wf()
        &&& self.unlockers.len() <= u32::MAX
        &&& (forall|i: int|
            0 <= i < self.unlockers.len() ==> (#[trigger] self.unlockers[i]).len() <= u32::MAX)
    }
}

/// The unlocker bodies, written in reverse order: the last unlocker first.
pub open spec fn rev_bodies(us: Seq<Seq<u8>>) -> Seq<u8>
    decreases us.len(),
{
    if us.len() == 0 {
        Seq::empty()
    } else {
        us.last() + rev_bodies(us.drop_last())
    }
}

/// The unlocker lengths, written in reverse order.
pub open spec fn rev_lens(us: Seq<Seq<u8>>) -> Seq<u8>
    decreases us.len(),
{
    if us.len() == 0 {
        Seq::empty()
    } else {
        u32_be_bytes(us.last().len() as u32) + rev_lens(us.drop_last())
    }
}

/// The total byte length of unlockers `i`, `i+1`, ... to the end.
pub open spec fn tail_sum(us: Seq<Seq<u8>>, i: int) -> int
    decreases us.len() - i,
{
    if i >= us.len() || i < 0 {
        0
    } else {
        us[i].len() + tail_sum(us, i + 1)
    }
}

/// The wire form of a signed transaction: the unsigned core, the unlocker
/// bodies in reverse, the length table in reverse, the count.
pub open spec fn tx_bytes(t: TransactionView) -> Seq<u8> {
    unsigned_tx_bytes(t.unsigned) + rev_bodies(t.unlockers) + rev_lens(t.unlockers) + u32_be_bytes(
        t.unlockers.len() as u32,
    )
}

/// The unlocker count stored in the last four bytes.
pub open spec fn tr_count(b: Seq<u8>) -> u32
    recommends
        b.len() >= 4,
{
    u32_of_be(b.subrange(b.len() - 4, b.len() as int))
}

/// The length of unlocker `i`, read from the reverse length table.
pub open spec fn tr_len_at(b: Seq<u8>, i: int) -> u32
    recommends
        b.len() >= 8 + 4 * i,
{
    u32_of_be(b.subrange(b.len() - 8 - 4 * i, b.len() - 4 - 4 * i))
}

/// The total length of unlockers `0` to `n-1` as announced by the table.
pub open spec fn tr_lens_sum(b: Seq<u8>, n: int) -> int
    decreases n,
{
    if n <= 0 {
        0
    } else {
        tr_lens_sum(b, n - 1) + tr_len_at(b, n - 1)
    }
}

/// Where the body of unlocker `i` ends.
pub open spec fn tr_body_end(b: Seq<u8>, i: int) -> int {
    b.len() - 4 - 4 * tr_count(b) - tr_lens_sum(b, i)
}

/// The body of unlocker `i`.
pub open spec fn parsed_unlocker(b: Seq<u8>, i: int) -> Seq<u8> {
    b.subrange(tr_body_end(b, i) - tr_len_at(b, i), tr_body_end(b, i))
}

/// A serialized signed transaction has a well-formed unsigned core and then
/// exactly the trailer it announces: count, length table, and bodies filling
/// the space in between.
pub open spec fn tx_len_ok(b: Seq<u8>) -> bool {
    &&& unsigned_len_ok(b)
    &&& b.len() >= tx_required_len(b) + 4
    &&& b.len() - 4 - tx_required_len(b) >= 4 * tr_count(b)
    &&& b.len() == tx_required_len(b) + 4 + 4 * tr_count(b) + tr_lens_sum(b, tr_count(b) as int)
}

/// The signed transaction read from `b`.
pub open spec fn parsed_tx(b: Seq<u8>) -> TransactionView
    recommends
        tx_len_ok(b),
{
    TransactionView {
        unsigned: parsed_unsigned(b),
        unlockers: Seq::new(tr_count(b) as nat, |i: int| parsed_unlocker(b, i)),
    }
}

/// Announced lengths accumulate without ever shrinking.
pub proof fn lemma_tr_lens_sum_nonneg(b: Seq<u8>, n: int)
    ensures
        tr_lens_sum(b, n) >= 0,
    decreases n,
{
    if n > 0 {
        lemma_tr_lens_sum_nonneg(b, n - 1);
    }
}

/// Announced lengths accumulate monotonically.
pub proof fn lemma_tr_lens_sum_monotone(b: Seq<u8>, j: int, k: int)
    requires
        0 <= j <= k,
    ensures
        tr_lens_sum(b, j) <= tr_lens_sum(b, k),
    decreases k - j,
{
    if j < k {
        lemma_tr_lens_sum_monotone(b, j, k - 1);
    }
}

/// The total byte length of unlockers `0` to `i-1`.
pub open spec fn head_sum(us: Seq<Seq<u8>>, i: int) -> int
    decreases i,
{
    if i <= 0 {
        0
    } else {
        head_sum(us, i - 1) + us[i - 1].len()
    }
}

/// The lengths before and after a cut add up to the whole.
proof fn lemma_head_plus_tail(us: Seq<Seq<u8>>, i: int)
    requires
        0 <= i <= us.len(),
    ensures
        head_sum(us, i) + tail_sum(us, i) == tail_sum(us, 0),
    decreases i,
{
    if i > 0 {
        lemma_head_plus_tail(us, i - 1);
        lemma_tail_sum_step(us, i - 1);
    }
}

/// One step of the tail sum.
proof fn lemma_tail_sum_step(us: Seq<Seq<u8>>, i: int)
    requires
        0 <= i < us.len(),
    ensures
        tail_sum(us, i) == us[i].len() + tail_sum(us, i + 1),
{
}

/// Tail sums are never negative.
proof fn lemma_tail_sum_nonneg(us: Seq<Seq<u8>>, i: int)
    ensures
        tail_sum(us, i) >= 0,
    decreases us.len() - i,
{
    if 0 <= i < us.len() {
        lemma_tail_sum_nonneg(us, i + 1);
    }
}

/// An earlier tail sum covers a later one.
proof fn lemma_tail_sum_antitone(us: Seq<Seq<u8>>, j: int, k: int)
    requires
        0 <= j <= k,
    ensures
        tail_sum(us, j) >= tail_sum(us, k),
    decreases k - j,
{
    if j < k {
        lemma_tail_sum_antitone(us, j + 1, k);
    }
}

/// Dropping the last unlocker leaves earlier tail sums short by its length.
proof fn lemma_tail_sum_drop_last(us: Seq<Seq<u8>>, i: int)
    requires
        us.len() > 0,
        0 <= i <= us.len() - 1,
    ensures
        tail_sum(us, i) == tail_sum(us.drop_last(), i) + us.last().len(),
    decreases us.len() - i,
{
    if i == us.len() - 1 {
        assert(tail_sum(us.drop_last(), i) == 0);
        assert(tail_sum(us, i) == us[i].len() + tail_sum(us, i + 1));
        assert(tail_sum(us, i + 1) == 0);
        assert(us[i] == us.last());
    } else {
        lemma_tail_sum_drop_last(us, i + 1);
        assert(us.drop_last()[i] == us[i]);
        assert(tail_sum(us, i) == us[i].len() + tail_sum(us, i + 1));
        assert(tail_sum(us.drop_last(), i) == us[i].len() + tail_sum(us.drop_last(), i + 1));
    }
}

/// Length and contents of the reverse body region: unlocker `i` occupies
/// the slice between the tail sums at `i + 1` and `i`.
proof fn lemma_rev_bodies_props(us: Seq<Seq<u8>>)
    ensures
        rev_bodies(us).len() == tail_sum(us, 0),
        forall|i: int|
            0 <= i < us.len() ==> #[trigger] rev_bodies(us).subrange(
                tail_sum(us, i + 1),
                tail_sum(us, i),
            ) == us[i],
    decreases us.len(),
{
    if us.len() == 0 {
    } else {
        let rest = us.drop_last();
        lemma_rev_bodies_props(rest);
        let t = rev_bodies(us);
        let n = us.len() as int;
        assert(tail_sum(us, n) == 0);
        lemma_tail_sum_drop_last(us, 0);
        assert(t.len() == tail_sum(us, 0));
        assert forall|i: int| 0 <= i < n implies #[trigger] t.subrange(
            tail_sum(us, i + 1),
            tail_sum(us, i),
        ) == us[i] by {
            lemma_tail_sum_nonneg(us, i + 1);
            lemma_tail_sum_step(us, i);
            if i == n - 1 {
                assert(t.subrange(0, us[i].len() as int) =~= us.last());
            } else {
                lemma_tail_sum_drop_last(us, i);
                lemma_tail_sum_drop_last(us, i + 1);
                lemma_tail_sum_nonneg(rest, i + 1);
                lemma_tail_sum_nonneg(rest, i);
                lemma_tail_sum_step(rest, i);
                lemma_tail_sum_antitone(us, 0, i);
                lemma_tail_sum_antitone(rest, 0, i);
                assert(rest[i] == us[i]);
                assert(t.subrange(tail_sum(us, i + 1), tail_sum(us, i)) =~= rev_bodies(
                    rest,
                ).subrange(tail_sum(rest, i + 1), tail_sum(rest, i)));
            }
        }
    }
}

/// Length and contents of the reverse length table: unlocker `i`'s length
/// stands `4 * (i + 1)` bytes before the table's end.
proof fn lemma_rev_lens_props(us: Seq<Seq<u8>>)
    ensures
        rev_lens(us).len() == 4 * us.len(),
        forall|i: int|
            0 <= i < us.len() ==> #[trigger] rev_lens(us).subrange(
                4 * (us.len() - 1 - i),
                4 * (us.len() - 1 - i) + 4,
            ) == u32_be_bytes(us[i].len() as u32),
    decreases us.len(),
{
    if us.len() == 0 {
    } else {
        let rest = us.drop_last();
        lemma_rev_lens_props(rest);
        let t = rev_lens(us);
        let n = us.len() as int;
        assert forall|i: int| 0 <= i < n implies #[trigger] t.subrange(
            4 * (n - 1 - i),
            4 * (n - 1 - i) + 4,
        ) == u32_be_bytes(us[i].len() as u32) by {
            if i == n - 1 {
                assert(t.subrange(0, 4) =~= u32_be_bytes(us.last().len() as u32));
            } else {
                assert(rest[i] == us[i]);
                assert(t.subrange(4 * (n - 1 - i), 4 * (n - 1 - i) + 4) =~= rev_lens(
                    rest,
                ).subrange(4 * ((n - 1) - 1 - i), 4 * ((n - 1) - 1 - i) + 4));
            }
        }
    }
}

/// A subrange of a concatenation that stays inside the first part reads the
/// first part.
proof fn lemma_prefix_subrange(u: Seq<u8>, ext: Seq<u8>, x: int, y: int)
    requires
        0 <= x <= y <= u.len(),
    ensures
        (u + ext).subrange(x, y) == u.subrange(x, y),
{
    assert((u + ext).subrange(x, y) =~= u.subrange(x, y));
}

/// Announced body prefix lengths agree on two buffers whose announced
/// lengths agree.
proof fn lemma_tx_bodies_agree(b: Seq<u8>, c: Seq<u8>, k: int)
    requires
        forall|j: int|
            0 <= j < k ==> crate::unsigned_tx::tx_len_at(b, j) == crate::unsigned_tx::tx_len_at(
                c,
                j,
            ),
    ensures
        crate::unsigned_tx::tx_bodies_len(b, k) == crate::unsigned_tx::tx_bodies_len(c, k),
    decreases k,
{
    if k > 0 {
        lemma_tx_bodies_agree(b, c, k - 1);
    }
}

/// Bytes after a whole unsigned core never change how its front parses.
pub proof fn lemma_unsigned_prefix_stable(u: Seq<u8>, ext: Seq<u8>)
    requires
        unsigned_len_ok(u),
        u.len() == tx_required_len(u),
    ensures
        unsigned_len_ok(u + ext),
        tx_required_len(u + ext) == tx_required_len(u),
        parsed_unsigned(u + ext) == parsed_unsigned(u),
{
    let c = u + ext;
    lemma_prefix_subrange(u, ext, 9, 13);
    lemma_prefix_subrange(u, ext, 13, 17);
    lemma_prefix_subrange(u, ext, 1, 9);
    let icount = crate::unsigned_tx::tx_inputs_count(u) as int;
    let ocount = crate::unsigned_tx::tx_outputs_count(u) as int;
    assert(crate::unsigned_tx::tx_inputs_count(c) == icount);
    assert(crate::unsigned_tx::tx_outputs_count(c) == ocount);
    assert forall|k: int| 0 <= k < ocount implies crate::unsigned_tx::tx_len_at(c, k)
        == #[trigger] crate::unsigned_tx::tx_len_at(u, k) by {
        lemma_prefix_subrange(u, ext, 17 + 4 * k, 21 + 4 * k);
    }
    assert forall|k: int| 0 <= k <= ocount implies #[trigger] crate::unsigned_tx::tx_bodies_len(
        c,
        k,
    ) == crate::unsigned_tx::tx_bodies_len(u, k) by {
        lemma_tx_bodies_agree(c, u, k);
    }
    assert(tx_required_len(c) == tx_required_len(u));
    assert(unsigned_len_ok(c));
    let pu = parsed_unsigned(u);
    let pc = parsed_unsigned(c);
    assert(pc.version == pu.version);
    assert(pc.nonce == pu.nonce);
    assert forall|i: int| 0 <= i < icount implies #[trigger] crate::unsigned_tx::parsed_input(c, i)
        == crate::unsigned_tx::parsed_input(u, i) by {
        let pos = crate::unsigned_tx::tx_inputs_start(u) + 36 * i;
        lemma_prefix_subrange(u, ext, pos, pos + 32);
        lemma_prefix_subrange(u, ext, pos + 32, pos + 36);
    }
    assert forall|k: int| 0 <= k < ocount implies #[trigger] crate::unsigned_tx::parsed_output(
        c,
        k,
    ) == crate::unsigned_tx::parsed_output(u, k) by {
        crate::unsigned_tx::lemma_tx_bodies_len_nonneg(u, k);
        crate::unsigned_tx::lemma_tx_bodies_len_monotone(u, k + 1, ocount);
        let pos = crate::unsigned_tx::tx_body_pos(u, k);
        assert(crate::unsigned_tx::tx_body_pos(c, k) == pos);
        assert(pos + 89 + crate::unsigned_tx::tx_len_at(u, k) <= u.len());
        assert(c[pos] == u[pos]);
        lemma_prefix_subrange(u, ext, pos + 1, pos + 21);
        lemma_prefix_subrange(u, ext, pos + 21, pos + 53);
        lemma_prefix_subrange(u, ext, pos + 53, pos + 89);
        lemma_prefix_subrange(
            u,
            ext,
            pos + 89,
            pos + 89 + crate::unsigned_tx::tx_len_at(u, k),
        );
    }
    assert(pc.inputs =~= pu.inputs);
    assert(pc.outputs =~= pu.outputs);
}

/// Round trip: a well-formed signed transaction decodes from its own wire
/// bytes.
#[verifier::rlimit(100)]
pub proof fn lemma_tx_round_trip(t: TransactionView)
    requires
        t.wf(),
    ensures
        tx_len_ok(tx_bytes(t)),
        parsed_tx(tx_bytes(t)) == t,
{
    let us = t.unlockers;
    let n = us.len() as int;
    let u = unsigned_tx_bytes(t.unsigned);
    let rb = rev_bodies(us);
    let rl = rev_lens(us);
    let cf = u32_be_bytes(us.len() as u32);
    let b = tx_bytes(t);
    crate::unsigned_tx::lemma_unsigned_round_trip(t.unsigned);
    lemma_rev_bodies_props(us);
    lemma_rev_lens_props(us);
    lemma_tail_sum_nonneg(us, 0);
    assert(b =~= u + (rb + rl + cf));
    lemma_unsigned_prefix_stable(u, rb + rl + cf);
    assert(parsed_unsigned(b) == t.unsigned);
    assert(tx_required_len(b) == u.len());
    assert(b.len() == u.len() + tail_sum(us, 0) + 4 * n + 4);

    assert(b.subrange(b.len() - 4, b.len() as int) =~= cf);
    crate::wire::lemma_u32_be_round_trip(us.len() as u32);
    assert(tr_count(b) == n);

    assert forall|i: int| 0 <= i < n implies tr_len_at(b, i) == #[trigger] us[i].len() by {
        assert(b.subrange(b.len() - 8 - 4 * i, b.len() - 4 - 4 * i) =~= rl.subrange(
            4 * (n - 1 - i),
            4 * (n - 1 - i) + 4,
        ));
        crate::wire::lemma_u32_be_round_trip(us[i].len() as u32);
    }
    assert forall|i: int| 0 <= i <= n implies #[trigger] tr_lens_sum(b, i) == head_sum(us, i) by {
        lemma_sum_agree(b, us, i);
    }
    lemma_head_plus_tail(us, n);
    assert(tail_sum(us, n) == 0);
    assert(head_sum(us, n) == tail_sum(us, 0));
    assert(tx_len_ok(b));

    assert forall|i: int| 0 <= i < n implies #[trigger] parsed_unlocker(b, i) == us[i] by {
        lemma_head_plus_tail(us, i);
        lemma_head_plus_tail(us, i + 1);
        lemma_tail_sum_step(us, i);
        lemma_tail_sum_nonneg(us, i + 1);
        lemma_tail_sum_antitone(us, 0, i);
        lemma_tail_sum_antitone(us, 0, i + 1);
        assert(tr_body_end(b, i) == u.len() + tail_sum(us, i));
        assert(tr_body_end(b, i) - tr_len_at(b, i) == u.len() + tail_sum(us, i + 1));
        assert(b.subrange(u.len() + tail_sum(us, i + 1), u.len() + tail_sum(us, i)) =~= rb.subrange(
            tail_sum(us, i + 1),
            tail_sum(us, i),
        ));
    }
    assert(parsed_tx(b).unlockers =~= us);
}

/// The announced trailer length sums equal the unlockers' own.
proof fn lemma_sum_agree(b: Seq<u8>, us: Seq<Seq<u8>>, i: int)
    requires
        forall|j: int| 0 <= j < i ==> tr_len_at(b, j) == (#[trigger] us[j]).len(),
    ensures
        tr_lens_sum(b, i) == head_sum(us, i),
    decreases i,
{
    if i > 0 {
        lemma_sum_agree(b, us, i - 1);
    }
}

/// Where a trailer unlocker lies inside a well-framed buffer.
proof fn lemma_trailer_bounds(b: Seq<u8>, i: int)
    requires
        tx_len_ok(b),
        0 <= i < tr_count(b),
    ensures
        tx_required_len(b) >= 17,
        b.len() >= 8 + 4 * i + 4,
        tr_body_end(b, i) <= b.len() - 4 - 4 * tr_count(b),
        tx_required_len(b) <= tr_body_end(b, i) - tr_len_at(b, i),
        tr_body_end(b, i) - tr_len_at(b, i) >= 0,
        parsed_unlocker(b, i).len() == tr_len_at(b, i),
{
    let n = tr_count(b) as int;
    crate::unsigned_tx::lemma_tx_bodies_len_nonneg(
        b,
        crate::unsigned_tx::tx_outputs_count(b) as int,
    );
    assert(tx_required_len(b) >= 17);
    lemma_tr_lens_sum_nonneg(b, i);
    lemma_tr_lens_sum_monotone(b, i + 1, n);
    assert(tr_lens_sum(b, i + 1) == tr_lens_sum(b, i) + tr_len_at(b, i));
}

/// A signed transaction parsed from canonical bytes re-encodes to exactly
/// those bytes.
#[verifier::rlimit(100)]
pub proof fn lemma_tx_inverse(b: Seq<u8>)
    requires
        tx_len_ok(b),
    ensures
        parsed_tx(b).wf(),
        tx_bytes(parsed_tx(b)) == b,
{
    let t = parsed_tx(b);
    let us = t.unlockers;
    let n = tr_count(b) as int;
    crate::unsigned_tx::lemma_unsigned_inverse(b);
    assert(t.wf()) by {
        assert forall|j: int| 0 <= j < n implies (#[trigger] us[j]).len() <= u32::MAX by {
            lemma_trailer_bounds(b, j);
            assert(us[j] == parsed_unlocker(b, j));
        }
    }
    assert forall|j: int| 0 <= j <= n implies #[trigger] tr_lens_sum(b, j) >= 0 by {
        lemma_tr_lens_sum_nonneg(b, j);
    }
    lemma_rev_lens_take(b, us, n);
    lemma_rev_bodies_take(b, us, n);
    assert(us.take(n) =~= us);
    assert(tr_body_end(b, 0) == b.len() - 4 - 4 * n);
    crate::wire::lemma_u32_be_inverse(b.subrange(b.len() - 4, b.len() as int));
    assert(u32_be_bytes(tr_count(b)) == b.subrange(b.len() - 4, b.len() as int));
    assert(tx_bytes(t) =~= b);
}

/// The reverse length table of the first `m` parsed unlockers is the last
/// `4 * m` bytes before the count.
proof fn lemma_rev_lens_take(b: Seq<u8>, us: Seq<Seq<u8>>, m: int)
    requires
        tx_len_ok(b),
        us == parsed_tx(b).unlockers,
        0 <= m <= tr_count(b),
    ensures
        rev_lens(us.take(m)) == b.subrange(b.len() - 4 - 4 * m, b.len() - 4),
    decreases m,
{
    if m == 0 {
        assert(rev_lens(us.take(0)) =~= b.subrange(b.len() - 4, b.len() - 4));
    } else {
        lemma_rev_lens_take(b, us, m - 1);
        let a = us.take(m);
        assert(a.last() == us[m - 1]);
        assert(a.drop_last() =~= us.take(m - 1));
        lemma_tr_lens_sum_nonneg(b, m - 1);
        lemma_tr_lens_sum_monotone(b, m, tr_count(b) as int);
        lemma_trailer_bounds(b, m - 1);
        assert(us[m - 1] == parsed_unlocker(b, m - 1));
        assert(us[m - 1].len() == tr_len_at(b, m - 1));
        crate::wire::lemma_u32_be_inverse(
            b.subrange(b.len() - 8 - 4 * (m - 1), b.len() - 4 - 4 * (m - 1)),
        );
        assert(u32_be_bytes(tr_len_at(b, m - 1)) == b.subrange(
            b.len() - 4 - 4 * m,
            b.len() - 4 * m,
        ));
        assert(rev_lens(a) =~= b.subrange(b.len() - 4 - 4 * m, b.len() - 4));
    }
}

/// The reverse body region of the first `m` parsed unlockers is the slice
/// between their body ends.
proof fn lemma_rev_bodies_take(b: Seq<u8>, us: Seq<Seq<u8>>, m: int)
    requires
        tx_len_ok(b),
        us == parsed_tx(b).unlockers,
        0 <= m <= tr_count(b),
    ensures
        rev_bodies(us.take(m)) == b.subrange(tr_body_end(b, m), tr_body_end(b, 0)),
    decreases m,
{
    lemma_tr_lens_sum_nonneg(b, m);
    lemma_tr_lens_sum_monotone(b, m, tr_count(b) as int);
    crate::unsigned_tx::lemma_tx_bodies_len_nonneg(
        b,
        crate::unsigned_tx::tx_outputs_count(b) as int,
    );
    assert(tx_required_len(b) >= 17);
    if m == 0 {
        assert(rev_bodies(us.take(0)) =~= b.subrange(tr_body_end(b, 0), tr_body_end(b, 0)));
    } else {
        lemma_rev_bodies_take(b, us, m - 1);
        let a = us.take(m);
        assert(a.last() == us[m - 1]);
        assert(a.drop_last() =~= us.take(m - 1));
        lemma_tr_lens_sum_nonneg(b, m - 1);
        lemma_trailer_bounds(b, m - 1);
        assert(us[m - 1] == parsed_unlocker(b, m - 1));
        assert(tr_body_end(b, m) == tr_body_end(b, m - 1) - tr_len_at(b, m - 1));
        assert(rev_bodies(a) =~= b.subrange(tr_body_end(b, m), tr_body_end(b, 0)));
    }
}

/// Unlockers never move the txid: signed transactions that agree on their
/// unsigned core have the same txid, whatever their unlockers hold and in
/// whatever order.
pub proof fn lemma_txid_ignores_unlockers(t1: TransactionView, t2: TransactionView)
    requires
        t1.unsigned == t2.unsigned,
    ensures
        crate::unsigned_tx::spec_txid(t1.unsigned) == crate::unsigned_tx::spec_txid(t2.unsigned),
{
}

/// A signed transaction: the hashed unsigned core plus one witness per
/// input, excluded from the txid.
#[derive(Debug)]
pub struct Transaction {
    pub unsigned: UnsignedTransaction,
    pub unlockers: Vec<Bytes>,
}

impl View for Transaction {
    type V = TransactionView;

    open spec fn view(&self) -> TransactionView {
        TransactionView {
            unsigned: self.unsigned@,
            unlockers: self.unlockers@.map_values(|u: Bytes| u@),
        }
    }
}

impl Transaction {
    pub open spec fn wf(&self) -> bool {
        self@.wf()
    }

    /// Appends the wire form: unsigned core, then the unlocker trailer.
    pub fn append_to_vec(&self, v: &mut Vec<u8>) -> (r: Result<(), Error>)
        requires
            self.wf(),
        ensures
            r is Ok,
            final(v)@ == old(v)@ + tx_bytes(self@),
    {
        let ghost t = self@;
        match self.unsigned.append_to_vec(v) {
            Ok(()) => {
            },
            Err(e) => {
                proof {
                    assert(false);
                }
                return Err(e);
            },
        }
        let ghost head = v@;
        let n = self.unlockers.len();

        let mut j: usize = 0;
        while j < n
            invariant
                j <= n,
                t == self@,
                self.wf(),
                n == self.unlockers@.len(),
                v@ == head + rev_bodies(t.unlockers.skip(n - j)),
            decreases n - j,
        {
            let i = n - 1 - j;
            proof {
                lemma_rev_first(t.unlockers.skip(n - j - 1));
                assert(t.unlockers.skip(n - j - 1).drop_first() =~= t.unlockers.skip(n - j));
                assert(t.unlockers.skip(n - j - 1)[0] == t.unlockers[i as int]);
            }
            v.extend_from_slice(self.unlockers[i].0.as_slice());
            assert(v@ =~= head + rev_bodies(t.unlockers.skip(n - j - 1)));
            j += 1;
        }
        assert(t.unlockers.skip(0) =~= t.unlockers);
        let ghost head2 = v@;

        let mut j: usize = 0;
        while j < n
            invariant
                j <= n,
                t == self@,
                self.wf(),
                n == self.unlockers@.len(),
                v@ == head2 + rev_lens(t.unlockers.skip(n - j)),
            decreases n - j,
        {
            let i = n - 1 - j;
            proof {
                lemma_rev_lens_first(t.unlockers.skip(n - j - 1));
                assert(t.unlockers.skip(n - j - 1).drop_first() =~= t.unlockers.skip(n - j));
                assert(t.unlockers.skip(n - j - 1)[0] == t.unlockers[i as int]);
            }
            crate::wire::push_u32_be(v, self.unlockers[i].0.len() as u32);
            assert(v@ =~= head2 + rev_lens(t.unlockers.skip(n - j - 1)));
            j += 1;
        }

        crate::wire::push_u32_be(v, n as u32);
        assert(v@ =~= old(v)@ + tx_bytes(t));
        Ok(())
    }

    /// The wire form of the transaction as a fresh vector.
    pub fn to_vec(&self) -> (r: Result<Vec<u8>, Error>)
        requires
            self.wf(),
        ensures
            r matches Ok(v) && v@ == tx_bytes(self@),
    {
        let mut v = Vec::new();
        match self.append_to_vec(&mut v) {
            Ok(()) => Ok(v),
            Err(e) => Err(e),
        }
    }

    /// Reads a signed transaction from `b`. The unsigned core is read from
    /// the front, the trailer from the end; the buffer must hold exactly the
    /// core and the announced trailer.
    pub fn from_slice(slice: &[u8]) -> (r: Result<Self, Error>)
        ensures
            slice@.len() < 17 ==> r == Err::<Self, Error>(
                Error::WrongLengthForTx(slice@.len() as usize, 17),
            ),
            slice@.len() >= 17 && slice@.len() < tx_outputs_start(slice@) ==> r == Err::<
                Self,
                Error,
            >(Error::WrongLengthForTx(slice@.len() as usize, cap_usize(tx_outputs_start(slice@)))),
            slice@.len() >= tx_outputs_start(slice@) && slice@.len() >= 17 && slice@.len()
                < tx_required_len(slice@) ==> r == Err::<Self, Error>(
                Error::WrongLengthForTx(slice@.len() as usize, cap_usize(tx_required_len(slice@))),
            ),
            unsigned_len_ok(slice@) && slice@.len() < tx_required_len(slice@) + 4 ==> r == Err::<
                Self,
                Error,
            >(
                Error::WrongLengthForTx(
                    slice@.len() as usize,
                    cap_usize(tx_required_len(slice@) + 4),
                ),
            ),
            unsigned_len_ok(slice@) && slice@.len() >= tx_required_len(slice@) + 4 && slice@.len()
                - 4 - tx_required_len(slice@) < 4 * tr_count(slice@) ==> r == Err::<Self, Error>(
                Error::WrongLengthForTx(
                    slice@.len() as usize,
                    cap_usize(tx_required_len(slice@) + 4 + 4 * tr_count(slice@)),
                ),
            ),
            unsigned_len_ok(slice@) && slice@.len() >= tx_required_len(slice@) + 4 && slice@.len()
                - 4 - tx_required_len(slice@) >= 4 * tr_count(slice@) && slice@.len()
                != tx_required_len(slice@) + 4 + 4 * tr_count(slice@) + tr_lens_sum(
                slice@,
                tr_count(slice@) as int,
            ) ==> r == Err::<Self, Error>(
                Error::WrongLengthForTx(
                    slice@.len() as usize,
                    cap_usize(
                        tx_required_len(slice@) + 4 + 4 * tr_count(slice@) + tr_lens_sum(
                            slice@,
                            tr_count(slice@) as int,
                        ),
                    ),
                ),
            ),
            tx_len_ok(slice@) ==> (r matches Ok(t) && t.wf() && t@ == parsed_tx(slice@)),
    {
        let ghost b = slice@;
        let len = slice.len();
        let unsigned = match UnsignedTransaction::from_slice(slice) {
            Ok(u) => u,
            Err(e) => {
                return Err(e);
            },
        };
        proof {
            crate::unsigned_tx::lemma_unsigned_inverse(b);
        }
        let core = match unsigned.to_vec() {
            Ok(c) => c,
            Err(e) => {
                proof {
                    assert(false);
                }
                return Err(e);
            },
        };
        let core_len = core.len();
        assert(core_len as int == tx_required_len(b));
        assert(core_len <= len);
        if len - core_len < 4 {
            return Err(Error::WrongLengthForTx(len, crate::wire::usize_sat_add(core_len, 4)));
        }
        let count = read_u32_be(slice, len - 4);
        assert(count == tr_count(b));
        let rest: usize = len - 4 - core_len;
        if (rest as u128) < 4u128 * (count as u128) {
            let fixed: u128 = (core_len as u128) + 4u128 + 4u128 * (count as u128);
            assert(fixed as int == tx_required_len(b) + 4 + 4 * tr_count(b));
            return Err(Error::WrongLengthForTx(len, cap_to_usize(fixed)));
        }
        assert(4 * (count as int) <= rest as int);

        let mut lens: Vec<u32> = Vec::new();
        let mut total: u128 = 0;
        let mut i: usize = 0;
        while i < count as usize
            invariant
                i <= count as usize,
                b == slice@,
                b.len() == len,
                count == tr_count(b),
                core_len as int == tx_required_len(b),
                len >= core_len + 4,
                4 * (count as int) <= len - 4 - core_len,
                lens@.len() == i,
                forall|j: int| 0 <= j < i ==> lens@[j] == tr_len_at(b, j),
                total as int == tr_lens_sum(b, i as int),
                total as int <= (i as int) * (u32::MAX as int),
            decreases count as usize - i,
        {
            assert(4 * (i as int) + 4 <= 4 * (count as int));
            let pos = len - 8 - 4 * i;
            let li = read_u32_be(slice, pos);
            assert(li == tr_len_at(b, i as int));
            lens.push(li);
            total = total + (li as u128);
            i += 1;
        }

        let exact: u128 = (core_len as u128) + 4u128 + 4u128 * (count as u128) + total;
        assert(exact as int == tx_required_len(b) + 4 + 4 * tr_count(b) + tr_lens_sum(
            b,
            tr_count(b) as int,
        ));
        if (len as u128) != exact {
            return Err(Error::WrongLengthForTx(len, cap_to_usize(exact)));
        }
        assert(tx_len_ok(b));

        let mut unlockers: Vec<Bytes> = Vec::new();
        let mut end: usize = len - 4 - 4 * (count as usize);
        let mut i: usize = 0;
        while i < count as usize
            invariant
                i <= count as usize,
                b == slice@,
                b.len() == len,
                count == tr_count(b),
                core_len as int == tx_required_len(b),
                tx_len_ok(b),
                lens@.len() == count as usize,
                forall|j: int| 0 <= j < count as usize ==> lens@[j] == tr_len_at(b, j),
                end as int == tr_body_end(b, i as int),
                unlockers@.len() == i,
                forall|j: int|
                    0 <= j < i ==> (#[trigger] unlockers@[j])@ == parsed_unlocker(b, j),
            decreases count as usize - i,
        {
            proof {
                lemma_tr_lens_sum_monotone(b, i as int + 1, count as int);
                lemma_tr_lens_sum_nonneg(b, i as int);
                assert(tr_lens_sum(b, i as int + 1) == tr_lens_sum(b, i as int) + tr_len_at(
                    b,
                    i as int,
                ));
            }
            let li = lens[i] as usize;
            assert(end as int - li as int >= tx_required_len(b));
            assert(tx_required_len(b) >= 0);
            assert(end <= len);
            let start = end - li;
            let u = Bytes::from_slice(slice_subrange(slice, start, end));
            unlockers.push(u);
            end = start;
            i += 1;
        }

        let t = Transaction { unsigned, unlockers };
        proof {
            assert(t@.unlockers =~= parsed_tx(b).unlockers);
            assert(t@ == parsed_tx(b));
            assert forall|j: int| 0 <= j < t@.unlockers.len() implies (
            #[trigger] t@.unlockers[j]).len() <= u32::MAX by {
                assert(t@.unlockers[j] == parsed_unlocker(b, j));
                lemma_tr_lens_sum_nonneg(b, j);
                lemma_tr_lens_sum_monotone(b, j + 1, count as int);
                assert(tr_lens_sum(b, j + 1) == tr_lens_sum(b, j) + tr_len_at(b, j));
                assert(parsed_unlocker(b, j).len() == tr_len_at(b, j));
            }
        }
        Ok(t)
    }
}

/// Caps a count at the largest usize.
fn cap_to_usize(x: u128) -> (r: usize)
    ensures
        r == cap_usize(x as int),
{
    if x > usize::MAX as u128 {
        usize::MAX
    } else {
        x as usize
    }
}

/// Peeling the first unlocker moves its body to the back of the reverse
/// region.
proof fn lemma_rev_first(us: Seq<Seq<u8>>)
    requires
        us.len() > 0,
    ensures
        rev_bodies(us) == rev_bodies(us.drop_first()) + us[0],
    decreases us.len(),
{
    if us.len() == 1 {
        assert(us.drop_first() =~= Seq::<Seq<u8>>::empty());
        assert(rev_bodies(us.drop_first()) =~= Seq::<u8>::empty());
        assert(us.last() == us[0]);
        assert(us.drop_last() =~= Seq::<Seq<u8>>::empty());
        assert(rev_bodies(us) =~= us[0]);
        assert(rev_bodies(us) =~= rev_bodies(us.drop_first()) + us[0]);
    } else {
        lemma_rev_first(us.drop_last());
        assert(us.drop_last().drop_first() =~= us.drop_first().drop_last());
        assert(us.drop_first().last() == us.last());
        assert(us.drop_last()[0] == us[0]);
        assert(rev_bodies(us) == us.last() + rev_bodies(us.drop_last()));
        assert(rev_bodies(us.drop_last()) == rev_bodies(us.drop_first().drop_last()) + us[0]);
        assert(rev_bodies(us.drop_first()) == us.last() + rev_bodies(us.drop_first().drop_last()));
        assert(rev_bodies(us) =~= rev_bodies(us.drop_first()) + us[0]);
    }
}

/// Peeling the first unlocker moves its length to the back of the reverse
/// table.
proof fn lemma_rev_lens_first(us: Seq<Seq<u8>>)
    requires
        us.len() > 0,
    ensures
        rev_lens(us) == rev_lens(us.drop_first()) + u32_be_bytes(us[0].len() as u32),
    decreases us.len(),
{
    if us.len() == 1 {
        assert(us.drop_first() =~= Seq::<Seq<u8>>::empty());
        assert(rev_lens(us.drop_first()) =~= Seq::<u8>::empty());
        assert(us.last() == us[0]);
        assert(us.drop_last() =~= Seq::<Seq<u8>>::empty());
        assert(rev_lens(us) =~= u32_be_bytes(us[0].len() as u32));
        assert(rev_lens(us) =~= rev_lens(us.drop_first()) + u32_be_bytes(us[0].len() as u32));
    } else {
        lemma_rev_lens_first(us.drop_last());
        assert(us.drop_last().drop_first() =~= us.drop_first().drop_last());
        assert(us.drop_first().last() == us.last());
        assert(us.drop_last()[0] == us[0]);
        assert(rev_lens(us) =~= rev_lens(us.drop_first()) + u32_be_bytes(us[0].len() as u32));
    }
}

impl Clone for Transaction {
    /// The clone has the same value.
    fn clone(&self) -> (r: Self)
        ensures
            r@ == self@,
    {
        let mut unlockers: Vec<Bytes> = Vec::new();
        let mut i: usize = 0;
        while i < self.unlockers.len()
            invariant
                i <= self.unlockers@.len(),
                unlockers@.len() == i,
                forall|j: int| 0 <= j < i ==> (#[trigger] unlockers@[j])@ == self.unlockers@[j]@,
            decreases self.unlockers@.len() - i,
        {
            unlockers.push(self.unlockers[i].clone());
            i += 1;
        }
        let r = Self { unsigned: self.unsigned.clone(), unlockers };
        proof {
            assert(r@.unlockers =~= self@.unlockers);
        }
        r
    }
}

impl PartialEq for Transaction {
    fn eq(&self, other: &Self) -> (r: bool)
        ensures
            r == (self@ == other@),
    {
        if !(self.unsigned == other.unsigned) {
            return false;
        }
        if self.unlockers.len() != other.unlockers.len() {
            proof {
                assert(self@.unlockers.len() != other@.unlockers.len());
            }
            return false;
        }
        let n = self.unlockers.len();
        let mut i: usize = 0;
        while i < n
            invariant
                i <= n,
                n == self.unlockers@.len(),
                n == other.unlockers@.len(),
                forall|j: int| 0 <= j < i ==> self.unlockers@[j]@ == #[trigger] other.unlockers@[j]@,
            decreases n - i,
        {
            if !(self.unlockers[i] == other.unlockers[i]) {
                proof {
                    assert(self@.unlockers[i as int] != other@.unlockers[i as int]);
                }
                return false;
            }
            i += 1;
        }
        proof {
            assert(self@.unlockers =~= other@.unlockers);
        }
        true
    }
}

impl vstd::std_specs::cmp::PartialEqSpecImpl for Transaction {
    open spec fn obeys_eq_spec() -> bool {
        true
    }

    open spec fn eq_spec(&self, other: &Self) -> bool {
        self@ == other@
    }
}

} // verus!
