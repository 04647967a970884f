//! Leaves: the unspent entries of the ledger, their canonical wire form,
//! and a parser over that form.

use vstd::prelude::*;
use vstd::slice::{slice_index_get, slice_subrange};

use crate::error::Error;
use crate::types::{
    leaf_id_at, leaf_id_bytes, lemma_leaf_id_inverse, zero_bytes, Address, Bytes, IndexKey,
    LeafId, LeafIdView,
};
use crate::wire::{
    lemma_u32_le_inverse, push_u32_be, read_u32_be, u32_be_bytes, u32_le_bytes, u32_of_be,
    u32_of_le,
};

verus! {

/// Width of the fixed part of a serialized leaf: version (1), owner (20),
/// index key (32), operator leaf id (36), data length (4).
pub const LEAF_HEADER_LENGTH: usize = 93;

/// The mathematical value of a leaf.
pub struct LeafView {
    pub version: u8,
    pub owner: Seq<u8>,
    pub index_key: Seq<u8>,
    pub operator: Option<LeafIdView>,
    pub data: Seq<u8>,
}

impl LeafView {
    /// Fixed-width fields have their widths, a present operator is not the
    /// reserved absent id, and the data fits its length prefix.
    pub open spec fn wf(self) -> bool {
        &&& self.owner.len() == 20
        &&& self.index_key.len() == 32
        &&& (self.operator matches Option::Some(l) ==> l.wf() && !l.is_absent())
        &&& self.data.len() <= u32::MAX
    }
}

/// The 36-byte operator field: the operator's leaf id, or all zeros when
/// there is none.
pub open spec fn operator_field_bytes(op: Option<LeafIdView>) -> Seq<u8> {
    match op {
        Option::None => zero_bytes(36),
        Option::Some(l) => leaf_id_bytes(l),
    }
}

/// The operator field read back: all zeros stand for "none".
pub open spec fn operator_of_field(s: Seq<u8>) -> Option<LeafIdView>
    recommends
        s.len() == 36,
{
    if s == zero_bytes(36) {
        Option::None
    } else {
        Option::Some(leaf_id_at(s, 0))
    }
}

/// The canonical serialized form of a leaf: version, owner, index key,
/// operator field, big-endian data length, data.
pub open spec fn leaf_bytes(l: LeafView) -> Seq<u8> {
    seq![l.version] + l.owner + l.index_key + operator_field_bytes(l.operator) + u32_be_bytes(
        l.data.len() as u32,
    ) + l.data
}

/// The data length prefix of the serialized leaf at `pos`.
pub open spec fn leaf_data_len_at(b: Seq<u8>, pos: int) -> u32
    recommends
        pos + 93 <= b.len(),
{
    u32_of_be(b.subrange(pos + 89, pos + 93))
}

/// The leaf read from `b` at `pos`.
pub open spec fn leaf_at(b: Seq<u8>, pos: int) -> LeafView
    recommends
        pos + 93 + leaf_data_len_at(b, pos) <= b.len(),
{
    LeafView {
        version: b[pos],
        owner: b.subrange(pos + 1, pos + 21),
        index_key: b.subrange(pos + 21, pos + 53),
        operator: operator_of_field(b.subrange(pos + 53, pos + 89)),
        data: b.subrange(pos + 93, pos + 93 + leaf_data_len_at(b, pos)),
    }
}

/// A well-formed, non-absent leaf id never serializes to all zeros.
pub proof fn lemma_leaf_id_bytes_nonzero(l: LeafIdView)
    requires
        l.wf(),
        !l.is_absent(),
    ensures
        leaf_id_bytes(l) != zero_bytes(36),
{
    if l.txid != zero_bytes(32) {
        if forall|k: int| 0 <= k < 32 ==> l.txid[k] == #[trigger] zero_bytes(32)[k] {
            assert(l.txid =~= zero_bytes(32));
        }
        let k = choose|k: int| 0 <= k < 32 && l.txid[k] != zero_bytes(32)[k];
        assert(leaf_id_bytes(l)[k] == l.txid[k]);
        assert(zero_bytes(36)[k] == 0);
    } else {
        let x = l.index;
        assert(x != 0);
        assert(((x & 0xff) as u8) != 0 || (((x >> 8) & 0xff) as u8) != 0 || (((x >> 16)
            & 0xff) as u8) != 0 || (((x >> 24) & 0xff) as u8) != 0) by (bit_vector)
            requires
                x != 0,
        ;
        if ((x & 0xff) as u8) != 0 {
            assert(leaf_id_bytes(l)[32] == u32_le_bytes(x)[0]);
            assert(zero_bytes(36)[32] == 0);
        } else if (((x >> 8) & 0xff) as u8) != 0 {
            assert(leaf_id_bytes(l)[33] == u32_le_bytes(x)[1]);
            assert(zero_bytes(36)[33] == 0);
        } else if (((x >> 16) & 0xff) as u8) != 0 {
            assert(leaf_id_bytes(l)[34] == u32_le_bytes(x)[2]);
            assert(zero_bytes(36)[34] == 0);
        } else {
            assert(leaf_id_bytes(l)[35] == u32_le_bytes(x)[3]);
            assert(zero_bytes(36)[35] == 0);
        }
    }
}

/// Reading back the operator field of an operator yields the operator again.
pub proof fn lemma_operator_field_round_trip(op: Option<LeafIdView>)
    requires
        op matches Option::Some(l) ==> l.wf() && !l.is_absent(),
    ensures
        operator_of_field(operator_field_bytes(op)) == op,
{
    match op {
        Option::None => {
        },
        Option::Some(l) => {
            lemma_leaf_id_bytes_nonzero(l);
            crate::types::lemma_leaf_id_round_trip(l);
        },
    }
}

/// The operator field written back from its reading is the field again.
pub proof fn lemma_operator_field_inverse(s: Seq<u8>)
    requires
        s.len() == 36,
    ensures
        operator_field_bytes(operator_of_field(s)) == s,
{
    if s == zero_bytes(36) {
    } else {
        lemma_leaf_id_inverse(s, 0);
        assert(s.subrange(0, 36) =~= s);
    }
}

/// Reading back the canonical form of a leaf yields the leaf again.
pub proof fn lemma_leaf_round_trip(l: LeafView)
    requires
        l.wf(),
    ensures
        leaf_bytes(l).len() == 93 + l.data.len(),
        leaf_data_len_at(leaf_bytes(l), 0) == l.data.len(),
        leaf_at(leaf_bytes(l), 0) == l,
{
    let b = leaf_bytes(l);
    assert(b.len() == 93 + l.data.len());
    assert(b.subrange(89, 93) =~= u32_be_bytes(l.data.len() as u32));
    crate::wire::lemma_u32_be_round_trip(l.data.len() as u32);
    assert(leaf_data_len_at(b, 0) == l.data.len());
    assert(b[0] == l.version);
    assert(b.subrange(1, 21) =~= l.owner);
    assert(b.subrange(21, 53) =~= l.index_key);
    assert(b.subrange(53, 89) =~= operator_field_bytes(l.operator));
    lemma_operator_field_round_trip(l.operator);
    assert(b.subrange(93, 93 + l.data.len() as int) =~= l.data);
}

/// The canonical form of the leaf read from a region is that region again.
pub proof fn lemma_leaf_inverse(b: Seq<u8>, pos: int)
    requires
        0 <= pos,
        pos + 93 + leaf_data_len_at(b, pos) <= b.len(),
    ensures
        leaf_at(b, pos).wf(),
        leaf_bytes(leaf_at(b, pos)) == b.subrange(pos, pos + 93 + leaf_data_len_at(b, pos)),
{
    let l = leaf_at(b, pos);
    let d = leaf_data_len_at(b, pos) as int;
    assert(l.operator matches Option::Some(id) ==> id.wf() && !id.is_absent()) by {
        let s = b.subrange(pos + 53, pos + 89);
        if s != zero_bytes(36) {
            let id = leaf_id_at(s, 0);
            lemma_leaf_id_inverse(s, 0);
            assert(s.subrange(0, 36) =~= s);
            if id.is_absent() {
                lemma_u32_le_inverse(s.subrange(32, 36));
                crate::types::lemma_u32_le_bytes_zero();
                assert(s =~= zero_bytes(36));
            }
        }
    }
    lemma_operator_field_inverse(b.subrange(pos + 53, pos + 89));
    assert(l.data.len() == d);
    crate::wire::lemma_u32_be_inverse(b.subrange(pos + 89, pos + 93));
    assert(u32_be_bytes(leaf_data_len_at(b, pos)) == b.subrange(pos + 89, pos + 93));
    assert(leaf_bytes(l) =~= b.subrange(pos, pos + 93 + d));
}

/// An unspent ledger entry, bound to its owning script by address.
#[derive(Debug)]
pub struct Leaf {
    pub version: u8,
    pub owner: Address,
    pub index_key: IndexKey,
    pub operator: Option<LeafId>,
    pub data: Bytes,
}

impl View for Leaf {
    type V = LeafView;

    open spec fn view(&self) -> LeafView {
        LeafView {
            version: self.version,
            owner: self.owner@,
            index_key: self.index_key@,
            operator: match self.operator {
                Option::None => Option::None,
                Option::Some(id) => Option::Some(id@),
            },
            data: self.data@,
        }
    }
}

impl Leaf {
    pub open spec fn wf(&self) -> bool {
        self@.wf()
    }

    /// Appends the canonical serialized form of the leaf.
    pub fn append_to_vec(&self, v: &mut Vec<u8>) -> (r: Result<(), Error>)
        requires
            self.wf(),
        ensures
            r is Ok,
            final(v)@ == old(v)@ + leaf_bytes(self@),
    {
        v.push(self.version);
        v.extend_from_slice(self.owner.as_slice());
        v.extend_from_slice(self.index_key.as_slice());
        match &self.operator {
            Option::Some(id) => {
                id.append_to_vec(v);
            },
            Option::None => {
                let zeros = vec![0u8; 36];
                assert(zeros@ =~= zero_bytes(36));
                v.extend_from_slice(zeros.as_slice());
            },
        }
        push_u32_be(v, self.data.0.len() as u32);
        v.extend_from_slice(self.data.0.as_slice());
        assert(v@ =~= old(v)@ + leaf_bytes(self@));
        Ok(())
    }
}

impl Clone for Leaf {
    /// The clone has the same value.
    fn clone(&self) -> (r: Self)
        ensures
            r@ == self@,
            r.wf() == self.wf(),
    {
        let r = Self {
            version: self.version,
            owner: self.owner.clone(),
            index_key: self.index_key.clone(),
            operator: match &self.operator {
                Option::Some(id) => Option::Some(id.clone()),
                Option::None => Option::None,
            },
            data: self.data.clone(),
        };
        assert(r@ == self@);
        r
    }
}

impl PartialEq for Leaf {
    fn eq(&self, other: &Self) -> (r: bool)
        ensures
            r == (self@ == other@),
    {
        let fields = self.version == other.version && self.owner == other.owner && self.index_key
            == other.index_key && self.data == other.data;
        let ops = match (&self.operator, &other.operator) {
            (Option::None, Option::None) => true,
            (Option::Some(a), Option::Some(b)) => *a == *b,
            _ => false,
        };
        proof {
            if self@ == other@ {
                assert(self.version == other.version && self.owner@ == other.owner@
                    && self.index_key@ == other.index_key@ && self.data@ == other.data@);
            }
        }
        fields && ops
    }
}

impl vstd::std_specs::cmp::PartialEqSpecImpl for Leaf {
    open spec fn obeys_eq_spec() -> bool {
        true
    }

    open spec fn eq_spec(&self, other: &Self) -> bool {
        self@ == other@
    }
}

/// Serialized-leaf length demand: the header must be present, and then the
/// data length it announces must be present too.
pub open spec fn leaf_len_ok(b: Seq<u8>) -> bool {
    b.len() >= 93 && b.len() >= 93 + leaf_data_len_at(b, 0)
}

/// Checks that `slice` is long enough to hold the leaf it announces.
pub fn check_leaf_length(slice: &[u8]) -> (r: Result<(), Error>)
    ensures
        slice@.len() < 93 ==> r == Err::<(), Error>(
            Error::WrongLengthForLeaf(slice@.len() as usize, 93),
        ),
        slice@.len() >= 93 && slice@.len() < 93 + leaf_data_len_at(slice@, 0) ==> r == Err::<
            (),
            Error,
        >(
            Error::WrongLengthForLeaf(
                slice@.len() as usize,
                crate::wire::sat_add(93, leaf_data_len_at(slice@, 0) as int) as usize,
            ),
        ),
        leaf_len_ok(slice@) ==> r is Ok,
{
    let len = slice.len();
    if len < LEAF_HEADER_LENGTH {
        return Err(Error::WrongLengthForLeaf(len, 93));
    }
    let data_len = read_u32_be(slice, 89) as usize;
    if len - LEAF_HEADER_LENGTH < data_len {
        return Err(
            Error::WrongLengthForLeaf(len, crate::wire::usize_sat_add(LEAF_HEADER_LENGTH, data_len)),
        );
    }
    Ok(())
}

/// A zero-copy reader and writer over the canonical serialized form of a
/// leaf.
#[derive(Debug)]
pub struct LeafParser {
    inner: Vec<u8>,
}

impl View for LeafParser {
    type V = Seq<u8>;

    closed spec fn view(&self) -> Seq<u8> {
        self.inner@
    }
}

impl LeafParser {
    /// The buffer is long enough for the leaf it announces.
    pub open spec fn wf(&self) -> bool {
        leaf_len_ok(self@)
    }

    /// Takes a serialized leaf; rejects a buffer too short for its announced
    /// length, exactly as `check_leaf_length` does.
    pub fn new(inner: Vec<u8>) -> (r: Result<Self, Error>)
        ensures
            leaf_len_ok(inner@) ==> (r matches Ok(p) && p.wf() && p@ == inner@),
            inner@.len() < 93 ==> r == Err::<Self, Error>(
                Error::WrongLengthForLeaf(inner@.len() as usize, 93),
            ),
            inner@.len() >= 93 && inner@.len() < 93 + leaf_data_len_at(inner@, 0) ==> r == Err::<
                Self,
                Error,
            >(
                Error::WrongLengthForLeaf(
                    inner@.len() as usize,
                    crate::wire::sat_add(93, leaf_data_len_at(inner@, 0) as int) as usize,
                ),
            ),
    {
        match check_leaf_length(inner.as_slice()) {
            Ok(()) => Ok(Self { inner }),
            Err(e) => Err(e),
        }
    }

    /// The leaf's version byte.
    pub fn version(&self) -> (r: u8)
        requires
            self.wf(),
        ensures
            r == self@[0],
    {
        *slice_index_get(self.inner.as_slice(), 0)
    }

    /// The announced data length.
    pub fn data_len(&self) -> (r: u32)
        requires
            self.wf(),
        ensures
            r == leaf_data_len_at(self@, 0),
    {
        read_u32_be(self.inner.as_slice(), 89)
    }

    /// The full serialized length: header plus data.
    pub fn leaf_len(&self) -> (r: usize)
        requires
            self.wf(),
        ensures
            r == 93 + leaf_data_len_at(self@, 0),
    {
        let n = self.inner.len();
        let dl = self.data_len() as usize;
        assert(93 + (dl as int) <= n as int);
        LEAF_HEADER_LENGTH + dl
    }

    /// The owner address bytes.
    pub fn owner(&self) -> (r: &[u8])
        requires
            self.wf(),
        ensures
            r@ == self@.subrange(1, 21),
    {
        slice_subrange(self.inner.as_slice(), 1, 21)
    }

    /// The index key bytes.
    pub fn index(&self) -> (r: &[u8])
        requires
            self.wf(),
        ensures
            r@ == self@.subrange(21, 53),
    {
        slice_subrange(self.inner.as_slice(), 21, 53)
    }

    /// The 36-byte operator field.
    pub fn operator(&self) -> (r: &[u8])
        requires
            self.wf(),
        ensures
            r@ == self@.subrange(53, 89),
    {
        slice_subrange(self.inner.as_slice(), 53, 89)
    }

    /// The data bytes.
    pub fn data(&self) -> (r: &[u8])
        requires
            self.wf(),
        ensures
            r@ == self@.subrange(93, 93 + leaf_data_len_at(self@, 0)),
    {
        let n = self.inner.len();
        let data_len = self.data_len() as usize;
        assert(93 + (data_len as int) <= n as int);
        slice_subrange(self.inner.as_slice(), 93, 93 + data_len)
    }

    /// Reads the whole leaf out of the buffer.
    pub fn to_leaf(&self) -> (r: Result<Leaf, Error>)
        requires
            self.wf(),
        ensures
            r matches Ok(leaf) && leaf.wf() && leaf@ == leaf_at(self@, 0),
    {
        proof {
            lemma_leaf_inverse(self@, 0);
        }
        let owner = match Address::from_slice(self.owner()) {
            Ok(a) => a,
            Err(e) => {
                proof {
                    assert(false);
                }
                return Err(e);
            },
        };
        let index_key = match IndexKey::from_slice(self.index()) {
            Ok(k) => k,
            Err(e) => {
                proof {
                    assert(false);
                }
                return Err(e);
            },
        };
        let op_field = self.operator();
        let op_id = match LeafId::from_slice(op_field) {
            Ok(id) => id,
            Err(e) => {
                proof {
                    assert(false);
                }
                return Err(e);
            },
        };
        let operator = if op_id.txid.is_none() && op_id.index == 0 {
            Option::None
        } else {
            Option::Some(op_id)
        };
        proof {
            let s = self@.subrange(53, 89);
            assert(op_field@ == s);
            assert(s.subrange(0, 32) =~= leaf_id_at(s, 0).txid);
            crate::types::lemma_u32_le_bytes_zero();
            crate::wire::lemma_u32_le_round_trip(0u32);
            if s == zero_bytes(36) {
                assert(leaf_id_at(s, 0).txid =~= zero_bytes(32));
                assert(s.subrange(32, 36) =~= zero_bytes(4));
                assert(u32_of_le(zero_bytes(4)) == 0);
                assert(leaf_id_at(s, 0).is_absent());
            } else {
                if leaf_id_at(s, 0).is_absent() {
                    lemma_u32_le_inverse(s.subrange(32, 36));
                    assert(s =~= zero_bytes(36));
                }
            }
        }
        Ok(
            Leaf {
                version: self.version(),
                owner,
                index_key,
                operator,
                data: Bytes::from_slice(self.data()),
            },
        )
    }
    /// Overwrites the version byte.
    pub fn set_version(&mut self, version: u8)
        requires
            old(self).wf(),
        ensures
            final(self).wf(),
            final(self)@ == splice(old(self)@, 0, seq![version]),
    {
        self.inner[0] = version;
        proof {
            assert(self@ =~= splice(old(self)@, 0, seq![version]));
            assert(self@.subrange(89, 93) =~= old(self)@.subrange(89, 93));
        }
    }

    /// Overwrites the data length prefix. The buffer must already be long
    /// enough for the new length.
    pub fn set_data_len(&mut self, data_len: u32)
        requires
            old(self).wf(),
            93 + data_len <= old(self)@.len(),
        ensures
            final(self).wf(),
            final(self)@ == splice(old(self)@, 89, u32_be_bytes(data_len)),
            leaf_data_len_at(final(self)@, 0) == data_len,
    {
        let mut four: Vec<u8> = Vec::new();
        push_u32_be(&mut four, data_len);
        write_bytes(&mut self.inner, 89, four.as_slice());
        proof {
            assert(self@.subrange(89, 93) =~= u32_be_bytes(data_len));
            crate::wire::lemma_u32_be_round_trip(data_len);
        }
    }

    /// Overwrites the owner address.
    pub fn set_owner(&mut self, owner: &Address)
        requires
            old(self).wf(),
            owner.wf(),
        ensures
            final(self).wf(),
            final(self)@ == splice(old(self)@, 1, owner@),
    {
        write_bytes(&mut self.inner, 1, owner.as_slice());
        proof {
            assert(self@.subrange(89, 93) =~= old(self)@.subrange(89, 93));
        }
    }

    /// Overwrites the index key.
    pub fn set_index(&mut self, index: &IndexKey)
        requires
            old(self).wf(),
            index.wf(),
        ensures
            final(self).wf(),
            final(self)@ == splice(old(self)@, 21, index@),
    {
        write_bytes(&mut self.inner, 21, index.as_slice());
        proof {
            assert(self@.subrange(89, 93) =~= old(self)@.subrange(89, 93));
        }
    }

    /// Overwrites the operator field with a leaf id, or with the reserved
    /// all-zero field for "none".
    pub fn set_operator(&mut self, operator: &Option<LeafId>)
        requires
            old(self).wf(),
            operator matches Option::Some(id) ==> id.wf(),
        ensures
            final(self).wf(),
            final(self)@ == splice(
                old(self)@,
                53,
                operator_field_bytes(
                    match *operator {
                        Option::None => Option::None,
                        Option::Some(id) => Option::Some(id@),
                    },
                ),
            ),
    {
        let mut field: Vec<u8> = Vec::new();
        match operator {
            Option::Some(id) => {
                id.append_to_vec(&mut field);
            },
            Option::None => {
                field = vec![0u8; 36];
                assert(field@ =~= zero_bytes(36));
            },
        }
        write_bytes(&mut self.inner, 53, field.as_slice());
        proof {
            assert(self@.subrange(89, 93) =~= old(self)@.subrange(89, 93));
        }
    }

    /// Overwrites part of the data region, starting `offset` bytes into it.
    pub fn write_data(&mut self, offset: usize, src: &[u8])
        requires
            old(self).wf(),
            offset + src@.len() <= leaf_data_len_at(old(self)@, 0),
        ensures
            final(self).wf(),
            final(self)@ == splice(old(self)@, 93 + offset, src@),
    {
        let n = self.inner.len();
        assert(93 + offset as int + src@.len() <= n as int);
        write_bytes(&mut self.inner, 93 + offset, src);
        proof {
            assert(self@.subrange(89, 93) =~= old(self)@.subrange(89, 93));
        }
    }
}

/// `b` with the bytes starting at `pos` replaced by `repl`.
pub open spec fn splice(b: Seq<u8>, pos: int, repl: Seq<u8>) -> Seq<u8> {
    b.take(pos) + repl + b.skip(pos + repl.len())
}

/// Overwrites `src.len()` bytes of `v` starting at `pos`.
pub fn write_bytes(v: &mut Vec<u8>, pos: usize, src: &[u8])
    requires
        pos + src@.len() <= old(v)@.len(),
    ensures
        final(v)@ == splice(old(v)@, pos as int, src@),
        final(v)@.len() == old(v)@.len(),
{
    let n = src.len();
    let vlen = v.len();
    assert(pos + n <= vlen);
    let mut i: usize = 0;
    while i < n
        invariant
            i <= n,
            n == src@.len(),
            pos + n <= v@.len(),
            pos + n <= usize::MAX,
            v@.len() == old(v)@.len(),
            forall|j: int| 0 <= j < i ==> v@[pos + j] == src@[j],
            forall|j: int| 0 <= j < v@.len() && !(pos <= j < pos + i) ==> v@[j] == old(v)@[j],
        decreases n - i,
    {
        self_write(v, pos + i, *slice_index_get(src, i));
        i += 1;
    }
    proof {
        assert(v@ =~= splice(old(v)@, pos as int, src@));
    }
}

/// Overwrites one byte of `v`.
fn self_write(v: &mut Vec<u8>, i: usize, b: u8)
    requires
        i < old(v)@.len(),
    ensures
        final(v)@ == old(v)@.update(i as int, b),
{
    v[i] = b;
}

} // verus!
