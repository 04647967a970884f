//! Fixed-width byte strings, variable-width byte strings, and leaf ids.

use vstd::prelude::*;
use vstd::slice::{slice_index_get, slice_subrange, slice_to_vec};

use crate::error::Error;
use crate::wire::{push_u32_le, read_u32_le, u32_le_bytes, u32_of_le};

verus! {

/// A transaction identifier: the 32-byte SHA3-256 digest of an unsigned
/// transaction's canonical encoding. The all-zero value is reserved as
/// "absent".
pub type Txid = FixedBytes<32>;

/// A 32-byte secondary-index key chosen by a leaf's producer.
pub type IndexKey = FixedBytes<32>;

/// A 20-byte script address: the truncated SHA3-256 digest of the script's
/// public fields.
pub type Address = FixedBytes<20>;

/// The all-zero byte sequence of length `n`.
pub open spec fn zero_bytes(n: nat) -> Seq<u8> {
    Seq::new(n, |i: int| 0u8)
}

/// The big-endian bytes of zero are all zero.
pub proof fn lemma_u32_be_bytes_zero()
    ensures
        crate::wire::u32_be_bytes(0u32) == zero_bytes(4),
{
    assert(0u32 & 0xff == 0 && (0u32 >> 8) & 0xff == 0 && (0u32 >> 16) & 0xff == 0 && (0u32 >> 24)
        & 0xff == 0) by (bit_vector);
    assert(crate::wire::u32_be_bytes(0u32) =~= zero_bytes(4));
}

/// The little-endian bytes of zero are all zero.
pub proof fn lemma_u32_le_bytes_zero()
    ensures
        u32_le_bytes(0u32) == zero_bytes(4),
{
    assert(0u32 & 0xff == 0 && (0u32 >> 8) & 0xff == 0 && (0u32 >> 16) & 0xff == 0 && (0u32 >> 24)
        & 0xff == 0) by (bit_vector);
    assert(u32_le_bytes(0u32) =~= zero_bytes(4));
}

/// True exactly when two byte slices hold the same bytes.
pub fn bytes_eq(a: &[u8], b: &[u8]) -> (r: bool)
    ensures
        r == (a@ == b@),
{
    if a.len() != b.len() {
        proof {
            assert(a@ != b@);
        }
        return false;
    }
    let n = a.len();
    let mut i: usize = 0;
    while i < n
        invariant
            i <= n,
            n == a@.len(),
            n == b@.len(),
            forall|j: int| 0 <= j < i ==> a@[j] == b@[j],
        decreases n - i,
    {
        if *slice_index_get(a, i) != *slice_index_get(b, i) {
            proof {
                assert(a@[i as int] != b@[i as int]);
            }
            return false;
        }
        i += 1;
    }
    proof {
        assert(a@ =~= b@);
    }
    true
}

/// A byte string of exactly `N` bytes.
#[derive(Debug)]
pub struct FixedBytes<const N: usize> {
    bytes: Vec<u8>,
}

impl<const N: usize> View for FixedBytes<N> {
    type V = Seq<u8>;

    closed spec fn view(&self) -> Seq<u8> {
        self.bytes@
    }
}

impl<const N: usize> FixedBytes<N> {
    /// The byte vector has exactly the advertised width.
    pub open spec fn wf(&self) -> bool {
        self@.len() == N
    }

    /// Reads exactly `N` bytes; any other width is rejected.
    pub fn from_slice(slice: &[u8]) -> (r: Result<Self, Error>)
        ensures
            slice@.len() == N ==> (r matches Ok(b) && b.wf() && b@ == slice@),
            slice@.len() != N ==> r == Err::<Self, Error>(
                Error::WrongLengthForFixedBytes(slice@.len() as usize, N),
            ),
    {
        if slice.len() != N {
            return Err(Error::WrongLengthForFixedBytes(slice.len(), N));
        }
        Ok(Self { bytes: slice_to_vec(slice) })
    }

    /// True exactly when every byte is zero; the all-zero value stands for
    /// "absent".
    pub fn is_none(&self) -> (r: bool)
        requires
            self.wf(),
        ensures
            r == (self@ == zero_bytes(N as nat)),
    {
        let mut i: usize = 0;
        while i < N
            invariant
                i <= N,
                self.wf(),
                forall|j: int| 0 <= j < i ==> self@[j] == 0u8,
            decreases N - i,
        {
            if *slice_index_get(self.bytes.as_slice(), i) != 0u8 {
                proof {
                    assert(self@[i as int] != zero_bytes(N as nat)[i as int]);
                }
                return false;
            }
            i += 1;
        }
        proof {
            assert(self@ =~= zero_bytes(N as nat));
        }
        true
    }

    /// The bytes as a slice.
    pub fn as_slice(&self) -> (r: &[u8])
        ensures
            r@ == self@,
    {
        self.bytes.as_slice()
    }
}

impl<const N: usize> Default for FixedBytes<N> {
    /// The default value is all zeros: the reserved "absent" value.
    fn default() -> (r: Self)
        ensures
            r.wf(),
            r@ == zero_bytes(N as nat),
    {
        let bytes = vec![0u8; N];
        proof {
            assert(bytes@ =~= zero_bytes(N as nat));
        }
        Self { bytes }
    }
}

impl<const N: usize> Clone for FixedBytes<N> {
    /// The clone holds the same bytes.
    fn clone(&self) -> (r: Self)
        ensures
            r@ == self@,
            r.wf() == self.wf(),
    {
        Self { bytes: slice_to_vec(self.bytes.as_slice()) }
    }
}

impl<const N: usize> PartialEq for FixedBytes<N> {
    fn eq(&self, other: &Self) -> (r: bool)
        ensures
            r == (self@ == other@),
    {
        bytes_eq(self.bytes.as_slice(), other.bytes.as_slice())
    }
}

impl<const N: usize> vstd::std_specs::cmp::PartialEqSpecImpl for FixedBytes<N> {
    open spec fn obeys_eq_spec() -> bool {
        true
    }

    open spec fn eq_spec(&self, other: &Self) -> bool {
        self@ == other@
    }
}

/// A length-prefixed variable-width byte string.
#[derive(Debug)]
pub struct Bytes(pub Vec<u8>);

impl View for Bytes {
    type V = Seq<u8>;

    open spec fn view(&self) -> Seq<u8> {
        self.0@
    }
}

impl Bytes {
    /// Copies a slice into an owned byte string.
    pub fn from_slice(slice: &[u8]) -> (r: Self)
        ensures
            r@ == slice@,
    {
        Self(slice_to_vec(slice))
    }
}

impl Clone for Bytes {
    /// The clone holds the same bytes.
    fn clone(&self) -> (r: Self)
        ensures
            r@ == self@,
    {
        Self(slice_to_vec(self.0.as_slice()))
    }
}

impl Default for Bytes {
    /// The default byte string is empty.
    fn default() -> (r: Self)
        ensures
            r@ == Seq::<u8>::empty(),
    {
        Self(Vec::new())
    }
}

impl PartialEq for Bytes {
    fn eq(&self, other: &Self) -> (r: bool)
        ensures
            r == (self@ == other@),
    {
        bytes_eq(self.0.as_slice(), other.0.as_slice())
    }
}

impl vstd::std_specs::cmp::PartialEqSpecImpl for Bytes {
    open spec fn obeys_eq_spec() -> bool {
        true
    }

    open spec fn eq_spec(&self, other: &Self) -> bool {
        self@ == other@
    }
}

/// The mathematical value of a leaf id: the producing transaction's 32-byte
/// txid and the output position within that transaction.
pub struct LeafIdView {
    pub txid: Seq<u8>,
    pub index: u32,
}

impl LeafIdView {
    /// The txid has its full width.
    pub open spec fn wf(self) -> bool {
        self.txid.len() == 32
    }

    /// The reserved all-zero value, standing for "no operator".
    pub open spec fn is_absent(self) -> bool {
        self.txid == zero_bytes(32) && self.index == 0
    }
}

/// The 36-byte wire form of a leaf id: the txid, then the index as a
/// little-endian u32.
pub open spec fn leaf_id_bytes(l: LeafIdView) -> Seq<u8> {
    l.txid + u32_le_bytes(l.index)
}

/// The leaf id read from the 36 bytes of `b` starting at `pos`.
pub open spec fn leaf_id_at(b: Seq<u8>, pos: int) -> LeafIdView
    recommends
        0 <= pos,
        pos + 36 <= b.len(),
{
    LeafIdView {
        txid: b.subrange(pos, pos + 32),
        index: u32_of_le(b.subrange(pos + 32, pos + 36)),
    }
}

/// Reading back the wire form of a leaf id yields the leaf id again.
pub proof fn lemma_leaf_id_round_trip(l: LeafIdView)
    requires
        l.wf(),
    ensures
        leaf_id_at(leaf_id_bytes(l), 0) == l,
{
    let b = leaf_id_bytes(l);
    assert(b.subrange(0, 32) =~= l.txid);
    assert(b.subrange(32, 36) =~= u32_le_bytes(l.index));
    crate::wire::lemma_u32_le_round_trip(l.index);
}

/// The wire form of the leaf id read from 36 bytes is those bytes again.
pub proof fn lemma_leaf_id_inverse(b: Seq<u8>, pos: int)
    requires
        0 <= pos,
        pos + 36 <= b.len(),
    ensures
        leaf_id_bytes(leaf_id_at(b, pos)) == b.subrange(pos, pos + 36),
{
    crate::wire::lemma_u32_le_inverse(b.subrange(pos + 32, pos + 36));
    assert(leaf_id_bytes(leaf_id_at(b, pos)) =~= b.subrange(pos, pos + 36));
}

/// A leaf id: an output of a transaction, addressed by the txid of its
/// producing transaction and its 0-based position in that transaction's
/// output list.
#[derive(Debug)]
pub struct LeafId {
    pub txid: Txid,
    pub index: u32,
}

impl View for LeafId {
    type V = LeafIdView;

    open spec fn view(&self) -> LeafIdView {
        LeafIdView { txid: self.txid@, index: self.index }
    }
}

impl LeafId {
    pub open spec fn wf(&self) -> bool {
        self@.wf()
    }

    /// Appends the 36-byte wire form: the txid, then the index as a
    /// little-endian u32.
    pub fn append_to_vec(&self, v: &mut Vec<u8>)
        requires
            self.wf(),
        ensures
            final(v)@ == old(v)@ + leaf_id_bytes(self@),
    {
        v.extend_from_slice(self.txid.as_slice());
        push_u32_le(v, self.index);
        assert(v@ =~= old(v)@ + leaf_id_bytes(self@));
    }

    /// Reads the 36-byte wire form from the front of `slice`; fails when
    /// fewer than 36 bytes are available.
    pub fn from_slice(slice: &[u8]) -> (r: Result<Self, Error>)
        ensures
            slice@.len() >= 36 ==> (r matches Ok(id) && id.wf() && id@ == leaf_id_at(slice@, 0)),
            slice@.len() < 36 ==> r == Err::<Self, Error>(
                Error::WrongLengthForLeafId(slice@.len() as usize, 36),
            ),
    {
        if slice.len() < 36 {
            return Err(Error::WrongLengthForLeafId(slice.len(), 36));
        }
        let txid = match Txid::from_slice(slice_subrange(slice, 0, 32)) {
            Ok(t) => t,
            Err(e) => {
                proof {
                    assert(false);
                }
                return Err(e);
            },
        };
        let index = read_u32_le(slice, 32);
        Ok(Self { txid, index })
    }
}

impl Clone for LeafId {
    /// The clone holds the same id.
    fn clone(&self) -> (r: Self)
        ensures
            r@ == self@,
            r.wf() == self.wf(),
    {
        Self { txid: self.txid.clone(), index: self.index }
    }
}

impl PartialEq for LeafId {
    fn eq(&self, other: &Self) -> (r: bool)
        ensures
            r == (self@ == other@),
    {
        let r = self.txid == other.txid && self.index == other.index;
        proof {
            if self@ == other@ {
                assert(self.txid@ == other.txid@ && self.index == other.index);
            }
        }
        r
    }
}

impl vstd::std_specs::cmp::PartialEqSpecImpl for LeafId {
    open spec fn obeys_eq_spec() -> bool {
        true
    }

    open spec fn eq_spec(&self, other: &Self) -> bool {
        self@ == other@
    }
}

} // verus!
