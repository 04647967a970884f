//! Locking and operator scripts, and their content addressing.
//!
//! An `UnlockScript` names its code by the 32-byte id of a code-carrying
//! leaf; a `Script` is the logical view of a leaf's data when the leaf is
//! used as a script carrier, with the code inline. Both are content-addressed
//! by the first 20 bytes of the SHA3-256 digest over their public fields;
//! a script's private `data` never takes part in the address.

use vstd::prelude::*;
use vstd::slice::slice_subrange;

use crate::error::Error;
use crate::hashing::{sha3_256, sha3_256_of};
use crate::types::{bytes_eq, Address, Bytes, FixedBytes};
use crate::wire::{read_u32_be, sat_add, u32_be_bytes, usize_sat_add};

verus! {

/// The kind of a script: empty (always passes) or wasm bytecode.
#[derive(Debug, Clone, Copy, PartialEq, Eq, Structural)]
pub enum UnlockScriptType {
    Empty,
    Wasm,
}

/// The wire tag of a script type.
pub open spec fn type_tag(t: UnlockScriptType) -> u8 {
    match t {
        UnlockScriptType::Empty => 0,
        UnlockScriptType::Wasm => 1,
    }
}

impl UnlockScriptType {
    /// Reads a script type from its wire tag; unknown tags give none.
    pub fn from_u8(value: u8) -> (r: Option<Self>)
        ensures
            value == 0 ==> r == Option::Some(UnlockScriptType::Empty),
            value == 1 ==> r == Option::Some(UnlockScriptType::Wasm),
            value > 1 ==> r is None,
    {
        match value {
            0 => Option::Some(Self::Empty),
            1 => Option::Some(Self::Wasm),
            _ => Option::None,
        }
    }

    /// The wire tag of this script type.
    pub fn to_u8(&self) -> (r: u8)
        ensures
            r == type_tag(*self),
    {
        match self {
            Self::Empty => 0,
            Self::Wasm => 1,
        }
    }
}

/// The mathematical value of an unlock script.
pub struct UnlockScriptView {
    pub version: u8,
    pub ty: UnlockScriptType,
    pub code_leaf: Seq<u8>,
    pub args: Seq<u8>,
}

impl UnlockScriptView {
    pub open spec fn wf(self) -> bool {
        self.code_leaf.len() == 32 && self.args.len() <= u32::MAX
    }
}

/// The serialized form of an unlock script: version, big-endian argument
/// length, type tag, code leaf id, arguments.
pub open spec fn unlock_script_bytes(s: UnlockScriptView) -> Seq<u8> {
    seq![s.version] + u32_be_bytes(s.args.len() as u32) + seq![type_tag(s.ty)] + s.code_leaf
        + s.args
}

/// The argument length announced by a serialized unlock script.
pub open spec fn unlock_args_len_at(b: Seq<u8>) -> u32
    recommends
        b.len() >= 5,
{
    crate::wire::u32_of_be(b.subrange(1, 5))
}

/// A serialized unlock script is long enough for the arguments it announces.
pub open spec fn unlock_script_len_ok(b: Seq<u8>) -> bool {
    b.len() >= 38 && b.len() >= 38 + unlock_args_len_at(b)
}

/// The unlock script read from the front of `b`.
pub open spec fn unlock_script_at(b: Seq<u8>) -> UnlockScriptView
    recommends
        unlock_script_len_ok(b),
{
    UnlockScriptView {
        version: b[0],
        ty: if b[5] == 1 {
            UnlockScriptType::Wasm
        } else {
            UnlockScriptType::Empty
        },
        code_leaf: b.subrange(6, 38),
        args: b.subrange(38, 38 + unlock_args_len_at(b)),
    }
}

/// A script that locks a leaf: versioned, typed, naming its code by a leaf
/// id, and carrying arguments for that code.
#[derive(Debug)]
pub struct UnlockScript {
    pub version: u8,
    pub ty: UnlockScriptType,
    pub code_leaf: FixedBytes<32>,
    pub args: Vec<u8>,
}

impl View for UnlockScript {
    type V = UnlockScriptView;

    open spec fn view(&self) -> UnlockScriptView {
        UnlockScriptView {
            version: self.version,
            ty: self.ty,
            code_leaf: self.code_leaf@,
            args: self.args@,
        }
    }
}

impl UnlockScript {
    pub open spec fn wf(&self) -> bool {
        self@.wf()
    }

    /// Appends the serialized form of the script.
    pub fn append_to_vec(&self, v: &mut Vec<u8>) -> (r: Result<(), Error>)
        requires
            self.wf(),
        ensures
            r is Ok,
            final(v)@ == old(v)@ + unlock_script_bytes(self@),
    {
        v.push(self.version);
        crate::wire::push_u32_be(v, self.args.len() as u32);
        v.push(self.ty.to_u8());
        v.extend_from_slice(self.code_leaf.as_slice());
        v.extend_from_slice(self.args.as_slice());
        assert(v@ =~= old(v)@ + unlock_script_bytes(self@));
        Ok(())
    }

    /// Reads a script from the front of `slice`. A buffer shorter than the
    /// fixed part, or than the announced arguments, is rejected, as is an
    /// unknown type tag.
    pub fn from_slice(slice: &[u8]) -> (r: Result<Self, Error>)
        ensures
            slice@.len() < 38 ==> r == Err::<Self, Error>(
                Error::WrongLengthForUnlockScript(slice@.len() as usize, 38),
            ),
            slice@.len() >= 38 && slice@.len() < 38 + unlock_args_len_at(slice@) ==> r == Err::<
                Self,
                Error,
            >(
                Error::WrongLengthForUnlockScript(
                    slice@.len() as usize,
                    sat_add(38, unlock_args_len_at(slice@) as int) as usize,
                ),
            ),
            unlock_script_len_ok(slice@) && slice@[5] > 1 ==> r == Err::<Self, Error>(
                Error::InvalidScriptType(slice@[5]),
            ),
            unlock_script_len_ok(slice@) && slice@[5] <= 1 ==> (r matches Ok(s) && s.wf() && s@
                == unlock_script_at(slice@)),
    {
        if slice.len() < 38 {
            return Err(Error::WrongLengthForUnlockScript(slice.len(), 38));
        }
        let args_len = read_u32_be(slice, 1) as usize;
        if slice.len() - 38 < args_len {
            return Err(
                Error::WrongLengthForUnlockScript(slice.len(), usize_sat_add(38, args_len)),
            );
        }
        let tag = *vstd::slice::slice_index_get(slice, 5);
        let ty = match UnlockScriptType::from_u8(tag) {
            Option::Some(t) => t,
            Option::None => {
                return Err(Error::InvalidScriptType(tag));
            },
        };
        let code_leaf = match FixedBytes::<32>::from_slice(slice_subrange(slice, 6, 38)) {
            Ok(c) => c,
            Err(e) => {
                proof {
                    assert(false);
                }
                return Err(e);
            },
        };
        let args = vstd::slice::slice_to_vec(slice_subrange(slice, 38, 38 + args_len));
        Ok(Self { version: *vstd::slice::slice_index_get(slice, 0), ty, code_leaf, args })
    }

    /// The address that binds a leaf to this script: the first 20 bytes of
    /// the SHA3-256 digest over version, type tag, code leaf id and
    /// arguments.
    pub fn address(&self) -> (r: Result<Address, Error>)
        requires
            self.wf(),
        ensures
            r matches Ok(a) && a.wf() && a@ == unlock_script_address(self@),
    {
        let mut preimage: Vec<u8> = Vec::new();
        preimage.push(self.version);
        preimage.push(self.ty.to_u8());
        preimage.extend_from_slice(self.code_leaf.as_slice());
        preimage.extend_from_slice(self.args.as_slice());
        assert(preimage@ =~= unlock_script_preimage(self@));
        let digest = sha3_256(preimage.as_slice());
        match Address::from_slice(slice_subrange(digest.as_slice(), 0, 20)) {
            Ok(a) => Ok(a),
            Err(e) => {
                proof {
                    assert(false);
                }
                Err(e)
            },
        }
    }
}

impl Clone for UnlockScript {
    /// The clone has the same value.
    fn clone(&self) -> (r: Self)
        ensures
            r@ == self@,
    {
        Self {
            version: self.version,
            ty: self.ty,
            code_leaf: self.code_leaf.clone(),
            args: vstd::slice::slice_to_vec(self.args.as_slice()),
        }
    }
}

impl PartialEq for UnlockScript {
    fn eq(&self, other: &Self) -> (r: bool)
        ensures
            r == (self@ == other@),
    {
        let r = self.version == other.version && self.ty.to_u8() == other.ty.to_u8()
            && self.code_leaf == other.code_leaf && bytes_eq(
            self.args.as_slice(),
            other.args.as_slice(),
        );
        proof {
            if type_tag(self.ty) == type_tag(other.ty) {
                assert(self.ty == other.ty);
            }
            if self@ == other@ {
                assert(self.version == other.version && self.ty == other.ty && self.code_leaf@
                    == other.code_leaf@ && self.args@ == other.args@);
            }
        }
        r
    }
}

impl vstd::std_specs::cmp::PartialEqSpecImpl for UnlockScript {
    open spec fn obeys_eq_spec() -> bool {
        true
    }

    open spec fn eq_spec(&self, other: &Self) -> bool {
        self@ == other@
    }
}

/// What the address digest of an unlock script is taken over: version, type
/// tag, code leaf id, arguments.
pub open spec fn unlock_script_preimage(s: UnlockScriptView) -> Seq<u8> {
    seq![s.version, type_tag(s.ty)] + s.code_leaf + s.args
}

/// The address of an unlock script.
pub open spec fn unlock_script_address(s: UnlockScriptView) -> Seq<u8> {
    sha3_256_of(unlock_script_preimage(s)).subrange(0, 20)
}

/// Reading back the serialized form of an unlock script yields the script
/// again.
pub proof fn lemma_unlock_script_round_trip(s: UnlockScriptView)
    requires
        s.wf(),
    ensures
        unlock_script_len_ok(unlock_script_bytes(s)),
        unlock_script_bytes(s)[5] == type_tag(s.ty),
        unlock_script_at(unlock_script_bytes(s)) == s,
{
    let b = unlock_script_bytes(s);
    assert(b.len() == 38 + s.args.len());
    assert(b.subrange(1, 5) =~= u32_be_bytes(s.args.len() as u32));
    crate::wire::lemma_u32_be_round_trip(s.args.len() as u32);
    assert(unlock_args_len_at(b) == s.args.len());
    assert(b[0] == s.version);
    assert(b[5] == type_tag(s.ty));
    assert(b.subrange(6, 38) =~= s.code_leaf);
    assert(b.subrange(38, 38 + unlock_args_len_at(b)) =~= s.args);
}

/// The mathematical value of a script.
pub struct ScriptView {
    pub version: u8,
    pub ty: UnlockScriptType,
    pub code: Seq<u8>,
    pub args: Seq<u8>,
    pub data: Seq<u8>,
}

impl ScriptView {
    pub open spec fn wf(self) -> bool {
        self.code.len() <= u32::MAX && self.args.len() <= u32::MAX
    }
}

/// The serialized form of a script, as carried in a leaf's data: version,
/// type tag, big-endian code and argument lengths, code, arguments, then the
/// script's private data as the rest of the buffer.
pub open spec fn script_bytes(s: ScriptView) -> Seq<u8> {
    seq![s.version, type_tag(s.ty)] + u32_be_bytes(s.code.len() as u32) + u32_be_bytes(
        s.args.len() as u32,
    ) + s.code + s.args + s.data
}

/// The code length announced by a serialized script.
pub open spec fn script_code_len_at(b: Seq<u8>) -> u32
    recommends
        b.len() >= 10,
{
    crate::wire::u32_of_be(b.subrange(2, 6))
}

/// The argument length announced by a serialized script.
pub open spec fn script_args_len_at(b: Seq<u8>) -> u32
    recommends
        b.len() >= 10,
{
    crate::wire::u32_of_be(b.subrange(6, 10))
}

/// A serialized script is long enough for the code and arguments it
/// announces.
pub open spec fn script_len_ok(b: Seq<u8>) -> bool {
    b.len() >= 10 && b.len() >= 10 + script_code_len_at(b) + script_args_len_at(b)
}

/// The script read from `b`; its private data is everything after the
/// arguments.
pub open spec fn script_at(b: Seq<u8>) -> ScriptView
    recommends
        script_len_ok(b),
{
    let c = script_code_len_at(b) as int;
    let a = script_args_len_at(b) as int;
    ScriptView {
        version: b[0],
        ty: if b[1] == 1 {
            UnlockScriptType::Wasm
        } else {
            UnlockScriptType::Empty
        },
        code: b.subrange(10, 10 + c),
        args: b.subrange(10 + c, 10 + c + a),
        data: b.subrange(10 + c + a, b.len() as int),
    }
}

/// The logical view of a leaf's data when the leaf carries a locking or
/// operator script: the code stands inline, and `data` is script-private
/// state.
#[derive(Debug)]
pub struct Script {
    pub version: u8,
    pub ty: UnlockScriptType,
    pub code: Bytes,
    pub args: Bytes,
    pub data: Bytes,
}

impl View for Script {
    type V = ScriptView;

    open spec fn view(&self) -> ScriptView {
        ScriptView {
            version: self.version,
            ty: self.ty,
            code: self.code@,
            args: self.args@,
            data: self.data@,
        }
    }
}

impl Script {
    pub open spec fn wf(&self) -> bool {
        self@.wf()
    }

    /// Appends the serialized form of the script.
    pub fn append_to_vec(&self, v: &mut Vec<u8>) -> (r: Result<(), Error>)
        requires
            self.wf(),
        ensures
            r is Ok,
            final(v)@ == old(v)@ + script_bytes(self@),
    {
        v.push(self.version);
        v.push(self.ty.to_u8());
        crate::wire::push_u32_be(v, self.code.0.len() as u32);
        crate::wire::push_u32_be(v, self.args.0.len() as u32);
        v.extend_from_slice(self.code.0.as_slice());
        v.extend_from_slice(self.args.0.as_slice());
        v.extend_from_slice(self.data.0.as_slice());
        assert(v@ =~= old(v)@ + script_bytes(self@));
        Ok(())
    }

    /// Reads a script out of a leaf's data. A buffer shorter than the fixed
    /// part, or than the announced code and arguments, is rejected, as is an
    /// unknown type tag.
    pub fn from_slice(slice: &[u8]) -> (r: Result<Self, Error>)
        ensures
            slice@.len() < 10 ==> r == Err::<Self, Error>(
                Error::WrongLengthForScript(slice@.len() as usize, 10),
            ),
            slice@.len() >= 10 && slice@.len() < 10 + script_code_len_at(slice@)
                + script_args_len_at(slice@) ==> r == Err::<Self, Error>(
                Error::WrongLengthForScript(
                    slice@.len() as usize,
                    sat_add(
                        10,
                        script_code_len_at(slice@) as int + script_args_len_at(slice@) as int,
                    ) as usize,
                ),
            ),
            script_len_ok(slice@) && slice@[1] > 1 ==> r == Err::<Self, Error>(
                Error::InvalidScriptType(slice@[1]),
            ),
            script_len_ok(slice@) && slice@[1] <= 1 ==> (r matches Ok(s) && s.wf() && s@
                == script_at(slice@)),
    {
        if slice.len() < 10 {
            return Err(Error::WrongLengthForScript(slice.len(), 10));
        }
        let code_len = read_u32_be(slice, 2) as usize;
        let args_len = read_u32_be(slice, 6) as usize;
        if slice.len() - 10 < code_len || (slice.len() - 10) - code_len < args_len {
            return Err(
                Error::WrongLengthForScript(
                    slice.len(),
                    usize_sat_add(10, usize_sat_add(code_len, args_len)),
                ),
            );
        }
        let tag = *vstd::slice::slice_index_get(slice, 1);
        let ty = match UnlockScriptType::from_u8(tag) {
            Option::Some(t) => t,
            Option::None => {
                return Err(Error::InvalidScriptType(tag));
            },
        };
        let code = Bytes::from_slice(slice_subrange(slice, 10, 10 + code_len));
        let args = Bytes::from_slice(slice_subrange(slice, 10 + code_len, 10 + code_len + args_len));
        let data = Bytes::from_slice(
            slice_subrange(slice, 10 + code_len + args_len, slice.len()),
        );
        Ok(Self { version: *vstd::slice::slice_index_get(slice, 0), ty, code, args, data })
    }

    /// The script's address: the first 20 bytes of the SHA3-256 digest over
    /// version, type tag, code and arguments. The private `data` takes no
    /// part.
    pub fn address(&self) -> (r: Result<Address, Error>)
        requires
            self.wf(),
        ensures
            r matches Ok(a) && a.wf() && a@ == script_address(self@),
    {
        let mut preimage: Vec<u8> = Vec::new();
        preimage.push(self.version);
        preimage.push(self.ty.to_u8());
        preimage.extend_from_slice(self.code.0.as_slice());
        preimage.extend_from_slice(self.args.0.as_slice());
        assert(preimage@ =~= script_preimage(self@));
        let digest = sha3_256(preimage.as_slice());
        match Address::from_slice(slice_subrange(digest.as_slice(), 0, 20)) {
            Ok(a) => Ok(a),
            Err(e) => {
                proof {
                    assert(false);
                }
                Err(e)
            },
        }
    }
}

impl Clone for Script {
    /// The clone has the same value.
    fn clone(&self) -> (r: Self)
        ensures
            r@ == self@,
    {
        Self {
            version: self.version,
            ty: self.ty,
            code: self.code.clone(),
            args: self.args.clone(),
            data: self.data.clone(),
        }
    }
}

impl PartialEq for Script {
    fn eq(&self, other: &Self) -> (r: bool)
        ensures
            r == (self@ == other@),
    {
        let r = self.version == other.version && self.ty.to_u8() == other.ty.to_u8() && self.code
            == other.code && self.args == other.args && self.data == other.data;
        proof {
            if type_tag(self.ty) == type_tag(other.ty) {
                assert(self.ty == other.ty);
            }
            if self@ == other@ {
                assert(self.version == other.version && self.ty == other.ty && self.code@
                    == other.code@ && self.args@ == other.args@ && self.data@ == other.data@);
            }
        }
        r
    }
}

impl vstd::std_specs::cmp::PartialEqSpecImpl for Script {
    open spec fn obeys_eq_spec() -> bool {
        true
    }

    open spec fn eq_spec(&self, other: &Self) -> bool {
        self@ == other@
    }
}

/// What the address digest of a script is taken over: version, type tag,
/// code, arguments — and never the private data.
pub open spec fn script_preimage(s: ScriptView) -> Seq<u8> {
    seq![s.version, type_tag(s.ty)] + s.code + s.args
}

/// The address of a script.
pub open spec fn script_address(s: ScriptView) -> Seq<u8> {
    sha3_256_of(script_preimage(s)).subrange(0, 20)
}

/// Two scripts that agree on version, type, code and arguments have the same
/// address, whatever their private data holds.
pub proof fn lemma_address_ignores_data(s1: ScriptView, s2: ScriptView)
    requires
        s1.version == s2.version,
        s1.ty == s2.ty,
        s1.code == s2.code,
        s1.args == s2.args,
    ensures
        script_address(s1) == script_address(s2),
{
    assert(script_preimage(s1) == script_preimage(s2));
}

/// Reading back the serialized form of a script yields the script again.
pub proof fn lemma_script_round_trip(s: ScriptView)
    requires
        s.wf(),
    ensures
        script_len_ok(script_bytes(s)),
        script_bytes(s)[1] == type_tag(s.ty),
        script_at(script_bytes(s)) == s,
{
    let b = script_bytes(s);
    let c = s.code.len() as int;
    let a = s.args.len() as int;
    assert(b.len() == 10 + c + a + s.data.len());
    assert(b.subrange(2, 6) =~= u32_be_bytes(s.code.len() as u32));
    assert(b.subrange(6, 10) =~= u32_be_bytes(s.args.len() as u32));
    crate::wire::lemma_u32_be_round_trip(s.code.len() as u32);
    crate::wire::lemma_u32_be_round_trip(s.args.len() as u32);
    assert(script_code_len_at(b) == c);
    assert(script_args_len_at(b) == a);
    assert(b[0] == s.version);
    assert(b[1] == type_tag(s.ty));
    assert(b.subrange(10, 10 + c) =~= s.code);
    assert(b.subrange(10 + c, 10 + c + a) =~= s.args);
    assert(b.subrange(10 + c + a, b.len() as int) =~= s.data);
}

/// The serialized form of the script read from a whole buffer is that buffer
/// again.
pub proof fn lemma_script_inverse(b: Seq<u8>)
    requires
        script_len_ok(b),
        b[1] <= 1,
    ensures
        script_at(b).wf(),
        script_bytes(script_at(b)) == b,
{
    let s = script_at(b);
    crate::wire::lemma_u32_be_inverse(b.subrange(2, 6));
    crate::wire::lemma_u32_be_inverse(b.subrange(6, 10));
    assert(script_bytes(s) =~= b);
}

} // verus!
