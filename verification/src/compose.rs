//! The composition algorithm: derives size, zero value and sequential
//! decode/encode for composite types from a static description, with
//! ordered-field products, fixed-length arrays and embedded tagged
//! unions, delegating leaf work to the primitive codec library.
//!
//! A composite type is described by a [`TypeDesc`]; its values are carried
//! by the dynamic [`Value`].  A float-typed leaf is carried as its
//! IEEE-754 bit pattern: converting between the machine float and its bits
//! is the caller's step.

use vstd::prelude::*;

use crate::pod::{Pod, PodError};
use crate::zeroable::Zeroable;
use crate::tagged::{UnionLayout, spec_first_match, lemma_first_match_is_match};
use crate::wire::{
    le_nat, be_nat, nat_to_le, nat_to_be, ibits, sint_of, pow256, lemma_pow256_values,
    lemma_le_nat_bound, lemma_be_nat_bound, lemma_le_nat_of_nat_to_le, lemma_be_nat_of_nat_to_be,
    lemma_nat_to_le_of_le_nat, lemma_nat_to_be_of_be_nat, lemma_sint_of_ibits,
    lemma_ibits_of_sint_of,
};

verus! {

/// A primitive leaf type of a composite layout.
#[derive(Clone, Copy, Debug, PartialEq, Eq, Structural)]
pub enum Prim {
    Bool,
    U8,
    U16,
    U32,
    U64,
    U128,
    I8,
    I16,
    I32,
    I64,
    I128,
    F32,
    F64,
}

/// A dynamic value of a composite layout.
///
/// Aggregate values carry their parts in declaration order in `List`; a
/// tagged-union value is its declaration-order variant index; a float
/// value is its IEEE-754 bit pattern.
#[derive(Debug, PartialEq)]
pub enum Value {
    Bool(bool),
    U8(u8),
    U16(u16),
    U32(u32),
    U64(u64),
    U128(u128),
    I8(i8),
    I16(i16),
    I32(i32),
    I64(i64),
    I128(i128),
    F32Bits(u32),
    F64Bits(u64),
    List(Vec<Value>),
    Variant(usize),
}

/// Wire size of a primitive leaf, in bytes.
pub open spec fn spec_prim_size(p: Prim) -> nat {
    match p {
        Prim::Bool | Prim::U8 | Prim::I8 => 1,
        Prim::U16 | Prim::I16 => 2,
        Prim::U32 | Prim::I32 | Prim::F32 => 4,
        Prim::U64 | Prim::I64 | Prim::F64 => 8,
        Prim::U128 | Prim::I128 => 16,
    }
}

/// Whether `v` is a value of the primitive leaf type `p`.
pub open spec fn spec_prim_fits(p: Prim, v: Value) -> bool {
    match p {
        Prim::Bool => v is Bool,
        Prim::U8 => v is U8,
        Prim::U16 => v is U16,
        Prim::U32 => v is U32,
        Prim::U64 => v is U64,
        Prim::U128 => v is U128,
        Prim::I8 => v is I8,
        Prim::I16 => v is I16,
        Prim::I32 => v is I32,
        Prim::I64 => v is I64,
        Prim::I128 => v is I128,
        Prim::F32 => v is F32Bits,
        Prim::F64 => v is F64Bits,
    }
}

/// The zero value of a primitive leaf.
pub open spec fn spec_prim_zero(p: Prim) -> Value {
    match p {
        Prim::Bool => Value::Bool(false),
        Prim::U8 => Value::U8(0),
        Prim::U16 => Value::U16(0),
        Prim::U32 => Value::U32(0),
        Prim::U64 => Value::U64(0),
        Prim::U128 => Value::U128(0),
        Prim::I8 => Value::I8(0),
        Prim::I16 => Value::I16(0),
        Prim::I32 => Value::I32(0),
        Prim::I64 => Value::I64(0),
        Prim::I128 => Value::I128(0),
        Prim::F32 => Value::F32Bits(0),
        Prim::F64 => Value::F64Bits(0),
    }
}

/// The little-endian byte image of a primitive leaf value: the image the
/// primitive codec library gives it.
pub open spec fn spec_prim_to_le(p: Prim, v: Value) -> Seq<u8>
    recommends
        spec_prim_fits(p, v),
{
    match v {
        Value::Bool(x) => x.spec_to_le(),
        Value::U8(x) => x.spec_to_le(),
        Value::U16(x) => x.spec_to_le(),
        Value::U32(x) => x.spec_to_le(),
        Value::U64(x) => x.spec_to_le(),
        Value::U128(x) => x.spec_to_le(),
        Value::I8(x) => x.spec_to_le(),
        Value::I16(x) => x.spec_to_le(),
        Value::I32(x) => x.spec_to_le(),
        Value::I64(x) => x.spec_to_le(),
        Value::I128(x) => x.spec_to_le(),
        Value::F32Bits(x) => x.spec_to_le(),
        Value::F64Bits(x) => x.spec_to_le(),
        Value::List(_) | Value::Variant(_) => Seq::empty(),
    }
}

/// The big-endian byte image of a primitive leaf value.
pub open spec fn spec_prim_to_be(p: Prim, v: Value) -> Seq<u8>
    recommends
        spec_prim_fits(p, v),
{
    match v {
        Value::Bool(x) => x.spec_to_be(),
        Value::U8(x) => x.spec_to_be(),
        Value::U16(x) => x.spec_to_be(),
        Value::U32(x) => x.spec_to_be(),
        Value::U64(x) => x.spec_to_be(),
        Value::U128(x) => x.spec_to_be(),
        Value::I8(x) => x.spec_to_be(),
        Value::I16(x) => x.spec_to_be(),
        Value::I32(x) => x.spec_to_be(),
        Value::I64(x) => x.spec_to_be(),
        Value::I128(x) => x.spec_to_be(),
        Value::F32Bits(x) => x.spec_to_be(),
        Value::F64Bits(x) => x.spec_to_be(),
        Value::List(_) | Value::Variant(_) => Seq::empty(),
    }
}

/// The primitive leaf value held by the `spec_prim_size(p)`-byte string
/// `s`, read little-endian; `None` exactly for a boolean byte outside
/// `{0, 1}`.
pub open spec fn spec_prim_from_le(p: Prim, s: Seq<u8>) -> Option<Value>
    recommends
        s.len() == spec_prim_size(p),
{
    match p {
        Prim::Bool => if s[0] == 0 {
            Some(Value::Bool(false))
        } else if s[0] == 1 {
            Some(Value::Bool(true))
        } else {
            None
        },
        Prim::U8 => Some(Value::U8(le_nat(s) as u8)),
        Prim::U16 => Some(Value::U16(le_nat(s) as u16)),
        Prim::U32 => Some(Value::U32(le_nat(s) as u32)),
        Prim::U64 => Some(Value::U64(le_nat(s) as u64)),
        Prim::U128 => Some(Value::U128(le_nat(s) as u128)),
        Prim::I8 => Some(Value::I8(sint_of(le_nat(s), 1) as i8)),
        Prim::I16 => Some(Value::I16(sint_of(le_nat(s), 2) as i16)),
        Prim::I32 => Some(Value::I32(sint_of(le_nat(s), 4) as i32)),
        Prim::I64 => Some(Value::I64(sint_of(le_nat(s), 8) as i64)),
        Prim::I128 => Some(Value::I128(sint_of(le_nat(s), 16) as i128)),
        Prim::F32 => Some(Value::F32Bits(le_nat(s) as u32)),
        Prim::F64 => Some(Value::F64Bits(le_nat(s) as u64)),
    }
}

/// The primitive leaf value held by `s`, read big-endian.
pub open spec fn spec_prim_from_be(p: Prim, s: Seq<u8>) -> Option<Value>
    recommends
        s.len() == spec_prim_size(p),
{
    match p {
        Prim::Bool => if s[0] == 0 {
            Some(Value::Bool(false))
        } else if s[0] == 1 {
            Some(Value::Bool(true))
        } else {
            None
        },
        Prim::U8 => Some(Value::U8(be_nat(s) as u8)),
        Prim::U16 => Some(Value::U16(be_nat(s) as u16)),
        Prim::U32 => Some(Value::U32(be_nat(s) as u32)),
        Prim::U64 => Some(Value::U64(be_nat(s) as u64)),
        Prim::U128 => Some(Value::U128(be_nat(s) as u128)),
        Prim::I8 => Some(Value::I8(sint_of(be_nat(s), 1) as i8)),
        Prim::I16 => Some(Value::I16(sint_of(be_nat(s), 2) as i16)),
        Prim::I32 => Some(Value::I32(sint_of(be_nat(s), 4) as i32)),
        Prim::I64 => Some(Value::I64(sint_of(be_nat(s), 8) as i64)),
        Prim::I128 => Some(Value::I128(sint_of(be_nat(s), 16) as i128)),
        Prim::F32 => Some(Value::F32Bits(be_nat(s) as u32)),
        Prim::F64 => Some(Value::F64Bits(be_nat(s) as u64)),
    }
}


/// A primitive leaf image is exactly `spec_prim_size(p)` bytes.
pub proof fn lemma_prim_to_le_len(p: Prim, v: Value)
    requires
        spec_prim_fits(p, v),
    ensures
        spec_prim_to_le(p, v).len() == spec_prim_size(p),
{
    match v {
        Value::Bool(x) => x.lemma_to_le_len(),
        Value::U8(x) => x.lemma_to_le_len(),
        Value::U16(x) => x.lemma_to_le_len(),
        Value::U32(x) => x.lemma_to_le_len(),
        Value::U64(x) => x.lemma_to_le_len(),
        Value::U128(x) => x.lemma_to_le_len(),
        Value::I8(x) => x.lemma_to_le_len(),
        Value::I16(x) => x.lemma_to_le_len(),
        Value::I32(x) => x.lemma_to_le_len(),
        Value::I64(x) => x.lemma_to_le_len(),
        Value::I128(x) => x.lemma_to_le_len(),
        Value::F32Bits(x) => x.lemma_to_le_len(),
        Value::F64Bits(x) => x.lemma_to_le_len(),
        Value::List(_) | Value::Variant(_) => {},
    }
}

/// Decoding the image of a primitive leaf value yields the value again.
pub proof fn lemma_prim_round_trip_le(p: Prim, v: Value)
    requires
        spec_prim_fits(p, v),
    ensures
        spec_prim_from_le(p, spec_prim_to_le(p, v)) == Some(v),
{
    lemma_pow256_values();
    match v {
        Value::Bool(x) => {
            assert(spec_prim_to_le(p, v)[0] == (if x { 1u8 } else { 0u8 }));
        },
        Value::U8(x) => {
            lemma_le_nat_of_nat_to_le(x as nat, 1);
        },
        Value::U16(x) => {
            lemma_le_nat_of_nat_to_le(x as nat, 2);
        },
        Value::U32(x) => {
            lemma_le_nat_of_nat_to_le(x as nat, 4);
        },
        Value::U64(x) => {
            lemma_le_nat_of_nat_to_le(x as nat, 8);
        },
        Value::U128(x) => {
            lemma_le_nat_of_nat_to_le(x as nat, 16);
        },
        Value::I8(x) => {
            lemma_le_nat_of_nat_to_le(ibits(x as int, 1), 1);
            lemma_sint_of_ibits(x as int, 1);
        },
        Value::I16(x) => {
            lemma_le_nat_of_nat_to_le(ibits(x as int, 2), 2);
            lemma_sint_of_ibits(x as int, 2);
        },
        Value::I32(x) => {
            lemma_le_nat_of_nat_to_le(ibits(x as int, 4), 4);
            lemma_sint_of_ibits(x as int, 4);
        },
        Value::I64(x) => {
            lemma_le_nat_of_nat_to_le(ibits(x as int, 8), 8);
            lemma_sint_of_ibits(x as int, 8);
        },
        Value::I128(x) => {
            lemma_le_nat_of_nat_to_le(ibits(x as int, 16), 16);
            lemma_sint_of_ibits(x as int, 16);
        },
        Value::F32Bits(x) => {
            lemma_le_nat_of_nat_to_le(x as nat, 4);
        },
        Value::F64Bits(x) => {
            lemma_le_nat_of_nat_to_le(x as nat, 8);
        },
        Value::List(_) | Value::Variant(_) => {},
    }
}

/// What a decoded primitive leaf value looks like: a successful decode
/// yields a fitting value whose image is the input, and a failed one
/// means no fitting value has that image.
pub proof fn lemma_prim_enc_dec_le(p: Prim, s: Seq<u8>)
    requires
        s.len() == spec_prim_size(p),
    ensures
        (match spec_prim_from_le(p, s) {
            Some(v) => spec_prim_fits(p, v) && spec_prim_to_le(p, v) == s,
            None => forall|v: Value|
                spec_prim_fits(p, v) ==> (#[trigger] spec_prim_to_le(p, v)) != s,
        }),
{
    lemma_pow256_values();
    lemma_le_nat_bound(s);
    match p {
        Prim::Bool => {
            if s[0] == 0 {
                assert(spec_prim_to_le(p, Value::Bool(false)) =~= s);
            } else if s[0] == 1 {
                assert(spec_prim_to_le(p, Value::Bool(true)) =~= s);
            } else {
                assert forall|v: Value| spec_prim_fits(p, v) implies (#[trigger] spec_prim_to_le(
                    p,
                    v,
                )) != s by {
                    let x = v->Bool_0;
                    assert(spec_prim_to_le(p, v)[0] == (if x { 1u8 } else { 0u8 }));
                }
            }
        },
        Prim::U8 => {
            lemma_nat_to_le_of_le_nat(s);
        },
        Prim::U16 => {
            lemma_nat_to_le_of_le_nat(s);
        },
        Prim::U32 => {
            lemma_nat_to_le_of_le_nat(s);
        },
        Prim::U64 => {
            lemma_nat_to_le_of_le_nat(s);
        },
        Prim::U128 => {
            lemma_nat_to_le_of_le_nat(s);
        },
        Prim::I8 => {
            lemma_ibits_of_sint_of(le_nat(s), 1);
            lemma_nat_to_le_of_le_nat(s);
        },
        Prim::I16 => {
            lemma_ibits_of_sint_of(le_nat(s), 2);
            lemma_nat_to_le_of_le_nat(s);
        },
        Prim::I32 => {
            lemma_ibits_of_sint_of(le_nat(s), 4);
            lemma_nat_to_le_of_le_nat(s);
        },
        Prim::I64 => {
            lemma_ibits_of_sint_of(le_nat(s), 8);
            lemma_nat_to_le_of_le_nat(s);
        },
        Prim::I128 => {
            lemma_ibits_of_sint_of(le_nat(s), 16);
            lemma_nat_to_le_of_le_nat(s);
        },
        Prim::F32 => {
            lemma_nat_to_le_of_le_nat(s);
        },
        Prim::F64 => {
            lemma_nat_to_le_of_le_nat(s);
        },
    }
}

/// A primitive leaf image is exactly `spec_prim_size(p)` bytes.
pub proof fn lemma_prim_to_be_len(p: Prim, v: Value)
    requires
        spec_prim_fits(p, v),
    ensures
        spec_prim_to_be(p, v).len() == spec_prim_size(p),
{
    match v {
        Value::Bool(x) => x.lemma_to_be_len(),
        Value::U8(x) => x.lemma_to_be_len(),
        Value::U16(x) => x.lemma_to_be_len(),
        Value::U32(x) => x.lemma_to_be_len(),
        Value::U64(x) => x.lemma_to_be_len(),
        Value::U128(x) => x.lemma_to_be_len(),
        Value::I8(x) => x.lemma_to_be_len(),
        Value::I16(x) => x.lemma_to_be_len(),
        Value::I32(x) => x.lemma_to_be_len(),
        Value::I64(x) => x.lemma_to_be_len(),
        Value::I128(x) => x.lemma_to_be_len(),
        Value::F32Bits(x) => x.lemma_to_be_len(),
        Value::F64Bits(x) => x.lemma_to_be_len(),
        Value::List(_) | Value::Variant(_) => {},
    }
}

/// Decoding the image of a primitive leaf value yields the value again.
pub proof fn lemma_prim_round_trip_be(p: Prim, v: Value)
    requires
        spec_prim_fits(p, v),
    ensures
        spec_prim_from_be(p, spec_prim_to_be(p, v)) == Some(v),
{
    lemma_pow256_values();
    match v {
        Value::Bool(x) => {
            assert(spec_prim_to_be(p, v)[0] == (if x { 1u8 } else { 0u8 }));
        },
        Value::U8(x) => {
            lemma_be_nat_of_nat_to_be(x as nat, 1);
        },
        Value::U16(x) => {
            lemma_be_nat_of_nat_to_be(x as nat, 2);
        },
        Value::U32(x) => {
            lemma_be_nat_of_nat_to_be(x as nat, 4);
        },
        Value::U64(x) => {
            lemma_be_nat_of_nat_to_be(x as nat, 8);
        },
        Value::U128(x) => {
            lemma_be_nat_of_nat_to_be(x as nat, 16);
        },
        Value::I8(x) => {
            lemma_be_nat_of_nat_to_be(ibits(x as int, 1), 1);
            lemma_sint_of_ibits(x as int, 1);
        },
        Value::I16(x) => {
            lemma_be_nat_of_nat_to_be(ibits(x as int, 2), 2);
            lemma_sint_of_ibits(x as int, 2);
        },
        Value::I32(x) => {
            lemma_be_nat_of_nat_to_be(ibits(x as int, 4), 4);
            lemma_sint_of_ibits(x as int, 4);
        },
        Value::I64(x) => {
            lemma_be_nat_of_nat_to_be(ibits(x as int, 8), 8);
            lemma_sint_of_ibits(x as int, 8);
        },
        Value::I128(x) => {
            lemma_be_nat_of_nat_to_be(ibits(x as int, 16), 16);
            lemma_sint_of_ibits(x as int, 16);
        },
        Value::F32Bits(x) => {
            lemma_be_nat_of_nat_to_be(x as nat, 4);
        },
        Value::F64Bits(x) => {
            lemma_be_nat_of_nat_to_be(x as nat, 8);
        },
        Value::List(_) | Value::Variant(_) => {},
    }
}

/// What a decoded primitive leaf value looks like: a successful decode
/// yields a fitting value whose image is the input, and a failed one
/// means no fitting value has that image.
pub proof fn lemma_prim_enc_dec_be(p: Prim, s: Seq<u8>)
    requires
        s.len() == spec_prim_size(p),
    ensures
        (match spec_prim_from_be(p, s) {
            Some(v) => spec_prim_fits(p, v) && spec_prim_to_be(p, v) == s,
            None => forall|v: Value|
                spec_prim_fits(p, v) ==> (#[trigger] spec_prim_to_be(p, v)) != s,
        }),
{
    lemma_pow256_values();
    lemma_be_nat_bound(s);
    match p {
        Prim::Bool => {
            if s[0] == 0 {
                assert(spec_prim_to_be(p, Value::Bool(false)) =~= s);
            } else if s[0] == 1 {
                assert(spec_prim_to_be(p, Value::Bool(true)) =~= s);
            } else {
                assert forall|v: Value| spec_prim_fits(p, v) implies (#[trigger] spec_prim_to_be(
                    p,
                    v,
                )) != s by {
                    let x = v->Bool_0;
                    assert(spec_prim_to_be(p, v)[0] == (if x { 1u8 } else { 0u8 }));
                }
            }
        },
        Prim::U8 => {
            lemma_nat_to_be_of_be_nat(s);
        },
        Prim::U16 => {
            lemma_nat_to_be_of_be_nat(s);
        },
        Prim::U32 => {
            lemma_nat_to_be_of_be_nat(s);
        },
        Prim::U64 => {
            lemma_nat_to_be_of_be_nat(s);
        },
        Prim::U128 => {
            lemma_nat_to_be_of_be_nat(s);
        },
        Prim::I8 => {
            lemma_ibits_of_sint_of(be_nat(s), 1);
            lemma_nat_to_be_of_be_nat(s);
        },
        Prim::I16 => {
            lemma_ibits_of_sint_of(be_nat(s), 2);
            lemma_nat_to_be_of_be_nat(s);
        },
        Prim::I32 => {
            lemma_ibits_of_sint_of(be_nat(s), 4);
            lemma_nat_to_be_of_be_nat(s);
        },
        Prim::I64 => {
            lemma_ibits_of_sint_of(be_nat(s), 8);
            lemma_nat_to_be_of_be_nat(s);
        },
        Prim::I128 => {
            lemma_ibits_of_sint_of(be_nat(s), 16);
            lemma_nat_to_be_of_be_nat(s);
        },
        Prim::F32 => {
            lemma_nat_to_be_of_be_nat(s);
        },
        Prim::F64 => {
            lemma_nat_to_be_of_be_nat(s);
        },
    }
}

/// Wire size of a primitive leaf, in bytes.
fn prim_size(p: &Prim) -> (s: usize)
    ensures
        s == spec_prim_size(*p),
{
    match p {
        Prim::Bool | Prim::U8 | Prim::I8 => 1,
        Prim::U16 | Prim::I16 => 2,
        Prim::U32 | Prim::I32 | Prim::F32 => 4,
        Prim::U64 | Prim::I64 | Prim::F64 => 8,
        Prim::U128 | Prim::I128 => 16,
    }
}

/// The zero value of a primitive leaf, through the zero-value contract.
fn prim_zeroed(p: &Prim) -> (v: Value)
    ensures
        v == spec_prim_zero(*p),
{
    match p {
        Prim::Bool => Value::Bool(bool::zeroed()),
        Prim::U8 => Value::U8(u8::zeroed()),
        Prim::U16 => Value::U16(u16::zeroed()),
        Prim::U32 => Value::U32(u32::zeroed()),
        Prim::U64 => Value::U64(u64::zeroed()),
        Prim::U128 => Value::U128(u128::zeroed()),
        Prim::I8 => Value::I8(i8::zeroed()),
        Prim::I16 => Value::I16(i16::zeroed()),
        Prim::I32 => Value::I32(i32::zeroed()),
        Prim::I64 => Value::I64(i64::zeroed()),
        Prim::I128 => Value::I128(i128::zeroed()),
        Prim::F32 => Value::F32Bits(u32::zeroed()),
        Prim::F64 => Value::F64Bits(u64::zeroed()),
    }
}

/// Decode one primitive leaf from the front of `buffer`, little-endian,
/// through the primitive codec library.
#[verifier::rlimit(80)]
#[verifier::spinoff_prover]
fn prim_from_le(p: &Prim, buffer: &[u8]) -> (r: Result<Value, PodError>)
    requires
        buffer@.len() >= spec_prim_size(*p),
    ensures
        (match r {
            Ok(v) => spec_prim_from_le(*p, buffer@.take(spec_prim_size(*p) as int)) == Some(v),
            Err(e) => e == PodError::OutOfRange && spec_prim_from_le(
                *p,
                buffer@.take(spec_prim_size(*p) as int),
            ) is None,
        }),
{
    let ghost s = buffer@.take(spec_prim_size(*p) as int);
    proof {
        lemma_prim_enc_dec_le(*p, s);
        lemma_pow256_values();
        lemma_le_nat_bound(s);
    }
    match p {
        Prim::Bool => match <bool as Pod>::from_le_bytes(buffer) {
            Ok(x) => {
                proof {
                    assert(x.spec_to_le()[0] == s[0]);
                }
                Ok(Value::Bool(x))
            },
            Err(_) => {
                proof {
                    if s[0] == 0 {
                        assert(false.spec_to_le() =~= s);
                    } else if s[0] == 1 {
                        assert(true.spec_to_le() =~= s);
                    }
                }
                Err(PodError::OutOfRange)
            },
        },
        Prim::U8 => match <u8 as Pod>::from_le_bytes(buffer) {
            Ok(x) => {
                proof {
                    lemma_le_nat_of_nat_to_le(x as nat, 1);
                }
                Ok(Value::U8(x))
            },
            Err(_) => {
                proof {
                    assert((le_nat(s) as u8).spec_to_le() == s);
                }
                Err(PodError::OutOfRange)
            },
        },
        Prim::U16 => match <u16 as Pod>::from_le_bytes(buffer) {
            Ok(x) => {
                proof {
                    lemma_le_nat_of_nat_to_le(x as nat, 2);
                }
                Ok(Value::U16(x))
            },
            Err(_) => {
                proof {
                    assert((le_nat(s) as u16).spec_to_le() == s);
                }
                Err(PodError::OutOfRange)
            },
        },
        Prim::U32 => match <u32 as Pod>::from_le_bytes(buffer) {
            Ok(x) => {
                proof {
                    lemma_le_nat_of_nat_to_le(x as nat, 4);
                }
                Ok(Value::U32(x))
            },
            Err(_) => {
                proof {
                    assert((le_nat(s) as u32).spec_to_le() == s);
                }
                Err(PodError::OutOfRange)
            },
        },
        Prim::U64 => match <u64 as Pod>::from_le_bytes(buffer) {
            Ok(x) => {
                proof {
                    lemma_le_nat_of_nat_to_le(x as nat, 8);
                }
                Ok(Value::U64(x))
            },
            Err(_) => {
                proof {
                    assert((le_nat(s) as u64).spec_to_le() == s);
                }
                Err(PodError::OutOfRange)
            },
        },
        Prim::U128 => match <u128 as Pod>::from_le_bytes(buffer) {
            Ok(x) => {
                proof {
                    lemma_le_nat_of_nat_to_le(x as nat, 16);
                }
                Ok(Value::U128(x))
            },
            Err(_) => {
                proof {
                    assert((le_nat(s) as u128).spec_to_le() == s);
                }
                Err(PodError::OutOfRange)
            },
        },
        Prim::I8 => match <i8 as Pod>::from_le_bytes(buffer) {
            Ok(x) => {
                proof {
                    lemma_le_nat_of_nat_to_le(ibits(x as int, 1), 1);
                    lemma_sint_of_ibits(x as int, 1);
                }
                Ok(Value::I8(x))
            },
            Err(_) => {
                proof {
                    assert((sint_of(le_nat(s), 1) as i8).spec_to_le() == s);
                }
                Err(PodError::OutOfRange)
            },
        },
        Prim::I16 => match <i16 as Pod>::from_le_bytes(buffer) {
            Ok(x) => {
                proof {
                    lemma_le_nat_of_nat_to_le(ibits(x as int, 2), 2);
                    lemma_sint_of_ibits(x as int, 2);
                }
                Ok(Value::I16(x))
            },
            Err(_) => {
                proof {
                    assert((sint_of(le_nat(s), 2) as i16).spec_to_le() == s);
                }
                Err(PodError::OutOfRange)
            },
        },
        Prim::I32 => match <i32 as Pod>::from_le_bytes(buffer) {
            Ok(x) => {
                proof {
                    lemma_le_nat_of_nat_to_le(ibits(x as int, 4), 4);
                    lemma_sint_of_ibits(x as int, 4);
                }
                Ok(Value::I32(x))
            },
            Err(_) => {
                proof {
                    assert((sint_of(le_nat(s), 4) as i32).spec_to_le() == s);
                }
                Err(PodError::OutOfRange)
            },
        },
        Prim::I64 => match <i64 as Pod>::from_le_bytes(buffer) {
            Ok(x) => {
                proof {
                    lemma_le_nat_of_nat_to_le(ibits(x as int, 8), 8);
                    lemma_sint_of_ibits(x as int, 8);
                }
                Ok(Value::I64(x))
            },
            Err(_) => {
                proof {
                    assert((sint_of(le_nat(s), 8) as i64).spec_to_le() == s);
                }
                Err(PodError::OutOfRange)
            },
        },
        Prim::I128 => match <i128 as Pod>::from_le_bytes(buffer) {
            Ok(x) => {
                proof {
                    lemma_le_nat_of_nat_to_le(ibits(x as int, 16), 16);
                    lemma_sint_of_ibits(x as int, 16);
                }
                Ok(Value::I128(x))
            },
            Err(_) => {
                proof {
                    assert((sint_of(le_nat(s), 16) as i128).spec_to_le() == s);
                }
                Err(PodError::OutOfRange)
            },
        },
        Prim::F32 => match <u32 as Pod>::from_le_bytes(buffer) {
            Ok(x) => {
                proof {
                    lemma_le_nat_of_nat_to_le(x as nat, 4);
                }
                Ok(Value::F32Bits(x))
            },
            Err(_) => {
                proof {
                    assert((le_nat(s) as u32).spec_to_le() == s);
                }
                Err(PodError::OutOfRange)
            },
        },
        Prim::F64 => match <u64 as Pod>::from_le_bytes(buffer) {
            Ok(x) => {
                proof {
                    lemma_le_nat_of_nat_to_le(x as nat, 8);
                }
                Ok(Value::F64Bits(x))
            },
            Err(_) => {
                proof {
                    assert((le_nat(s) as u64).spec_to_le() == s);
                }
                Err(PodError::OutOfRange)
            },
        },
    }
}

/// Write one primitive leaf value over the front of `buffer`,
/// little-endian, through the primitive codec library.
fn prim_to_le(p: &Prim, v: &Value, buffer: &mut [u8])
    requires
        spec_prim_fits(*p, *v),
        old(buffer)@.len() >= spec_prim_size(*p),
    ensures
        final(buffer)@ == spec_prim_to_le(*p, *v) + old(buffer)@.skip(
            spec_prim_size(*p) as int,
        ),
{
    match v {
        Value::Bool(x) => {
            let _r = Pod::to_le_bytes(x, buffer);
        },
        Value::U8(x) => {
            let _r = Pod::to_le_bytes(x, buffer);
        },
        Value::U16(x) => {
            let _r = Pod::to_le_bytes(x, buffer);
        },
        Value::U32(x) => {
            let _r = Pod::to_le_bytes(x, buffer);
        },
        Value::U64(x) => {
            let _r = Pod::to_le_bytes(x, buffer);
        },
        Value::U128(x) => {
            let _r = Pod::to_le_bytes(x, buffer);
        },
        Value::I8(x) => {
            let _r = Pod::to_le_bytes(x, buffer);
        },
        Value::I16(x) => {
            let _r = Pod::to_le_bytes(x, buffer);
        },
        Value::I32(x) => {
            let _r = Pod::to_le_bytes(x, buffer);
        },
        Value::I64(x) => {
            let _r = Pod::to_le_bytes(x, buffer);
        },
        Value::I128(x) => {
            let _r = Pod::to_le_bytes(x, buffer);
        },
        Value::F32Bits(x) => {
            let _r = Pod::to_le_bytes(x, buffer);
        },
        Value::F64Bits(x) => {
            let _r = Pod::to_le_bytes(x, buffer);
        },
        Value::List(_) | Value::Variant(_) => {
            proof {
                assert(false);
            }
        },
    }
}

/// Decode one primitive leaf from the front of `buffer`, big-endian,
/// through the primitive codec library.
#[verifier::rlimit(80)]
#[verifier::spinoff_prover]
fn prim_from_be(p: &Prim, buffer: &[u8]) -> (r: Result<Value, PodError>)
    requires
        buffer@.len() >= spec_prim_size(*p),
    ensures
        (match r {
            Ok(v) => spec_prim_from_be(*p, buffer@.take(spec_prim_size(*p) as int)) == Some(v),
            Err(e) => e == PodError::OutOfRange && spec_prim_from_be(
                *p,
                buffer@.take(spec_prim_size(*p) as int),
            ) is None,
        }),
{
    let ghost s = buffer@.take(spec_prim_size(*p) as int);
    proof {
        lemma_prim_enc_dec_be(*p, s);
        lemma_pow256_values();
        lemma_be_nat_bound(s);
    }
    match p {
        Prim::Bool => match <bool as Pod>::from_be_bytes(buffer) {
            Ok(x) => {
                proof {
                    assert(x.spec_to_be()[0] == s[0]);
                }
                Ok(Value::Bool(x))
            },
            Err(_) => {
                proof {
                    if s[0] == 0 {
                        assert(false.spec_to_be() =~= s);
                    } else if s[0] == 1 {
                        assert(true.spec_to_be() =~= s);
                    }
                }
                Err(PodError::OutOfRange)
            },
        },
        Prim::U8 => match <u8 as Pod>::from_be_bytes(buffer) {
            Ok(x) => {
                proof {
                    lemma_be_nat_of_nat_to_be(x as nat, 1);
                }
                Ok(Value::U8(x))
            },
            Err(_) => {
                proof {
                    assert((be_nat(s) as u8).spec_to_be() == s);
                }
                Err(PodError::OutOfRange)
            },
        },
        Prim::U16 => match <u16 as Pod>::from_be_bytes(buffer) {
            Ok(x) => {
                proof {
                    lemma_be_nat_of_nat_to_be(x as nat, 2);
                }
                Ok(Value::U16(x))
            },
            Err(_) => {
                proof {
                    assert((be_nat(s) as u16).spec_to_be() == s);
                }
                Err(PodError::OutOfRange)
            },
        },
        Prim::U32 => match <u32 as Pod>::from_be_bytes(buffer) {
            Ok(x) => {
                proof {
                    lemma_be_nat_of_nat_to_be(x as nat, 4);
                }
                Ok(Value::U32(x))
            },
            Err(_) => {
                proof {
                    assert((be_nat(s) as u32).spec_to_be() == s);
                }
                Err(PodError::OutOfRange)
            },
        },
        Prim::U64 => match <u64 as Pod>::from_be_bytes(buffer) {
            Ok(x) => {
                proof {
                    lemma_be_nat_of_nat_to_be(x as nat, 8);
                }
                Ok(Value::U64(x))
            },
            Err(_) => {
                proof {
                    assert((be_nat(s) as u64).spec_to_be() == s);
                }
                Err(PodError::OutOfRange)
            },
        },
        Prim::U128 => match <u128 as Pod>::from_be_bytes(buffer) {
            Ok(x) => {
                proof {
                    lemma_be_nat_of_nat_to_be(x as nat, 16);
                }
                Ok(Value::U128(x))
            },
            Err(_) => {
                proof {
                    assert((be_nat(s) as u128).spec_to_be() == s);
                }
                Err(PodError::OutOfRange)
            },
        },
        Prim::I8 => match <i8 as Pod>::from_be_bytes(buffer) {
            Ok(x) => {
                proof {
                    lemma_be_nat_of_nat_to_be(ibits(x as int, 1), 1);
                    lemma_sint_of_ibits(x as int, 1);
                }
                Ok(Value::I8(x))
            },
            Err(_) => {
                proof {
                    assert((sint_of(be_nat(s), 1) as i8).spec_to_be() == s);
                }
                Err(PodError::OutOfRange)
            },
        },
        Prim::I16 => match <i16 as Pod>::from_be_bytes(buffer) {
            Ok(x) => {
                proof {
                    lemma_be_nat_of_nat_to_be(ibits(x as int, 2), 2);
                    lemma_sint_of_ibits(x as int, 2);
                }
                Ok(Value::I16(x))
            },
            Err(_) => {
                proof {
                    assert((sint_of(be_nat(s), 2) as i16).spec_to_be() == s);
                }
                Err(PodError::OutOfRange)
            },
        },
        Prim::I32 => match <i32 as Pod>::from_be_bytes(buffer) {
            Ok(x) => {
                proof {
                    lemma_be_nat_of_nat_to_be(ibits(x as int, 4), 4);
                    lemma_sint_of_ibits(x as int, 4);
                }
                Ok(Value::I32(x))
            },
            Err(_) => {
                proof {
                    assert((sint_of(be_nat(s), 4) as i32).spec_to_be() == s);
                }
                Err(PodError::OutOfRange)
            },
        },
        Prim::I64 => match <i64 as Pod>::from_be_bytes(buffer) {
            Ok(x) => {
                proof {
                    lemma_be_nat_of_nat_to_be(ibits(x as int, 8), 8);
                    lemma_sint_of_ibits(x as int, 8);
                }
                Ok(Value::I64(x))
            },
            Err(_) => {
                proof {
                    assert((sint_of(be_nat(s), 8) as i64).spec_to_be() == s);
                }
                Err(PodError::OutOfRange)
            },
        },
        Prim::I128 => match <i128 as Pod>::from_be_bytes(buffer) {
            Ok(x) => {
                proof {
                    lemma_be_nat_of_nat_to_be(ibits(x as int, 16), 16);
                    lemma_sint_of_ibits(x as int, 16);
                }
                Ok(Value::I128(x))
            },
            Err(_) => {
                proof {
                    assert((sint_of(be_nat(s), 16) as i128).spec_to_be() == s);
                }
                Err(PodError::OutOfRange)
            },
        },
        Prim::F32 => match <u32 as Pod>::from_be_bytes(buffer) {
            Ok(x) => {
                proof {
                    lemma_be_nat_of_nat_to_be(x as nat, 4);
                }
                Ok(Value::F32Bits(x))
            },
            Err(_) => {
                proof {
                    assert((be_nat(s) as u32).spec_to_be() == s);
                }
                Err(PodError::OutOfRange)
            },
        },
        Prim::F64 => match <u64 as Pod>::from_be_bytes(buffer) {
            Ok(x) => {
                proof {
                    lemma_be_nat_of_nat_to_be(x as nat, 8);
                }
                Ok(Value::F64Bits(x))
            },
            Err(_) => {
                proof {
                    assert((be_nat(s) as u64).spec_to_be() == s);
                }
                Err(PodError::OutOfRange)
            },
        },
    }
}

/// Write one primitive leaf value over the front of `buffer`,
/// big-endian, through the primitive codec library.
fn prim_to_be(p: &Prim, v: &Value, buffer: &mut [u8])
    requires
        spec_prim_fits(*p, *v),
        old(buffer)@.len() >= spec_prim_size(*p),
    ensures
        final(buffer)@ == spec_prim_to_be(*p, *v) + old(buffer)@.skip(
            spec_prim_size(*p) as int,
        ),
{
    match v {
        Value::Bool(x) => {
            let _r = Pod::to_be_bytes(x, buffer);
        },
        Value::U8(x) => {
            let _r = Pod::to_be_bytes(x, buffer);
        },
        Value::U16(x) => {
            let _r = Pod::to_be_bytes(x, buffer);
        },
        Value::U32(x) => {
            let _r = Pod::to_be_bytes(x, buffer);
        },
        Value::U64(x) => {
            let _r = Pod::to_be_bytes(x, buffer);
        },
        Value::U128(x) => {
            let _r = Pod::to_be_bytes(x, buffer);
        },
        Value::I8(x) => {
            let _r = Pod::to_be_bytes(x, buffer);
        },
        Value::I16(x) => {
            let _r = Pod::to_be_bytes(x, buffer);
        },
        Value::I32(x) => {
            let _r = Pod::to_be_bytes(x, buffer);
        },
        Value::I64(x) => {
            let _r = Pod::to_be_bytes(x, buffer);
        },
        Value::I128(x) => {
            let _r = Pod::to_be_bytes(x, buffer);
        },
        Value::F32Bits(x) => {
            let _r = Pod::to_be_bytes(x, buffer);
        },
        Value::F64Bits(x) => {
            let _r = Pod::to_be_bytes(x, buffer);
        },
        Value::List(_) | Value::Variant(_) => {
            proof {
                assert(false);
            }
        },
    }
}


/// A static description of a codecable composite type: the resolved
/// configuration that the composers consume.
pub enum TypeDesc {
    /// A primitive leaf, encoded by the primitive codec library.
    Prim(Prim),
    /// A fixed-length homogeneous array of a codecable element type.
    Array(Box<TypeDesc>, usize),
    /// An ordered-field product (a struct): the field types in
    /// declaration order.  The field-less shapes are the empty list.
    Product(Vec<TypeDesc>),
    /// A closed tagged union of field-less variants.
    Union(UnionLayout),
}

/// Total wire size of a described type: field sizes sum, in declared
/// order, with no padding; an array is its element count times the
/// element size; a union is exactly its representation.
pub open spec fn spec_size_of(t: TypeDesc) -> nat
    decreases t,
{
    match t {
        TypeDesc::Prim(p) => spec_prim_size(p),
        TypeDesc::Array(e, n) => (n as nat) * spec_size_of(*e),
        TypeDesc::Product(fields) => spec_sum_sizes(fields@),
        TypeDesc::Union(u) => u.spec_size(),
    }
}

/// The sum of the sizes of a list of field types.
pub open spec fn spec_sum_sizes(fields: Seq<TypeDesc>) -> nat
    decreases fields,
{
    if fields.len() == 0 {
        0
    } else {
        spec_size_of(fields[0]) + spec_sum_sizes(fields.drop_first())
    }
}

/// A description is well formed when every union in it carries a valid
/// configuration.
pub open spec fn spec_wf(t: TypeDesc) -> bool
    decreases t,
{
    match t {
        TypeDesc::Prim(_) => true,
        TypeDesc::Array(e, _) => spec_wf(*e),
        TypeDesc::Product(fields) => forall|i: int|
            0 <= i < fields@.len() ==> spec_wf(#[trigger] fields@[i]),
        TypeDesc::Union(u) => u.wf(),
    }
}

/// Whether `v` is a validly constructible value of the described type.
pub open spec fn spec_fits(t: TypeDesc, v: Value) -> bool
    decreases t,
{
    match t {
        TypeDesc::Prim(p) => spec_prim_fits(p, v),
        TypeDesc::Array(e, n) => match v {
            Value::List(xs) => xs@.len() == n && (forall|i: int|
                0 <= i < xs@.len() ==> spec_fits(*e, #[trigger] xs@[i])),
            _ => false,
        },
        TypeDesc::Product(fields) => match v {
            Value::List(xs) => xs@.len() == fields@.len() && (forall|i: int|
                0 <= i < fields@.len() ==> spec_fits(#[trigger] fields@[i], xs@[i])),
            _ => false,
        },
        TypeDesc::Union(u) => match v {
            Value::Variant(k) => k < u.spec_tags().len(),
            _ => false,
        },
    }
}

/// Whether `v` is the zero value of the described type: the aggregate of
/// the parts' zero values for a product or array, the zero variant for a
/// union.
pub open spec fn spec_is_zero(t: TypeDesc, v: Value) -> bool
    decreases t,
{
    match t {
        TypeDesc::Prim(p) => v == spec_prim_zero(p),
        TypeDesc::Array(e, n) => match v {
            Value::List(xs) => xs@.len() == n && (forall|i: int|
                0 <= i < xs@.len() ==> spec_is_zero(*e, #[trigger] xs@[i])),
            _ => false,
        },
        TypeDesc::Product(fields) => match v {
            Value::List(xs) => xs@.len() == fields@.len() && (forall|i: int|
                0 <= i < fields@.len() ==> spec_is_zero(#[trigger] fields@[i], xs@[i])),
            _ => false,
        },
        TypeDesc::Union(u) => match v {
            Value::Variant(k) => k as int == u.spec_zero_variant(),
            _ => false,
        },
    }
}

/// The little-endian byte image of `v` under the described layout: part
/// images concatenated in declaration or index order; a union value's
/// tag image.
pub open spec fn spec_enc_le(t: TypeDesc, v: Value) -> Seq<u8>
    decreases t, v,
{
    match t {
        TypeDesc::Prim(p) => spec_prim_to_le(p, v),
        TypeDesc::Array(e, _) => match v {
            Value::List(xs) => spec_enc_list_le(*e, xs@),
            _ => Seq::empty(),
        },
        TypeDesc::Product(fields) => match v {
            Value::List(xs) => spec_enc_fields_le(fields@, xs@),
            _ => Seq::empty(),
        },
        TypeDesc::Union(u) => match v {
            Value::Variant(k) => if k < u.spec_tags().len() {
                u.spec_repr().spec_tag_to_le(u.spec_tags()[k as int] as int)
            } else {
                Seq::empty()
            },
            _ => Seq::empty(),
        },
    }
}

/// The concatenated little-endian images of an array's elements,
/// in index order.
pub open spec fn spec_enc_list_le(e: TypeDesc, xs: Seq<Value>) -> Seq<u8>
    decreases e, xs,
{
    if xs.len() == 0 {
        Seq::empty()
    } else {
        spec_enc_le(e, xs[0]) + spec_enc_list_le(e, xs.drop_first())
    }
}

/// The concatenated little-endian images of a product's fields.
pub open spec fn spec_enc_fields_le(fields: Seq<TypeDesc>, xs: Seq<Value>) -> Seq<u8>
    decreases fields, xs,
{
    if fields.len() == 0 || xs.len() == 0 {
        Seq::empty()
    } else {
        spec_enc_le(fields[0], xs[0]) + spec_enc_fields_le(fields.drop_first(), xs.drop_first())
    }
}

/// The big-endian byte image of `v` under the described layout.
pub open spec fn spec_enc_be(t: TypeDesc, v: Value) -> Seq<u8>
    decreases t, v,
{
    match t {
        TypeDesc::Prim(p) => spec_prim_to_be(p, v),
        TypeDesc::Array(e, _) => match v {
            Value::List(xs) => spec_enc_list_be(*e, xs@),
            _ => Seq::empty(),
        },
        TypeDesc::Product(fields) => match v {
            Value::List(xs) => spec_enc_fields_be(fields@, xs@),
            _ => Seq::empty(),
        },
        TypeDesc::Union(u) => match v {
            Value::Variant(k) => if k < u.spec_tags().len() {
                u.spec_repr().spec_tag_to_be(u.spec_tags()[k as int] as int)
            } else {
                Seq::empty()
            },
            _ => Seq::empty(),
        },
    }
}

/// The concatenated big-endian images of an array's elements,
/// in index order.
pub open spec fn spec_enc_list_be(e: TypeDesc, xs: Seq<Value>) -> Seq<u8>
    decreases e, xs,
{
    if xs.len() == 0 {
        Seq::empty()
    } else {
        spec_enc_be(e, xs[0]) + spec_enc_list_be(e, xs.drop_first())
    }
}

/// The concatenated big-endian images of a product's fields.
pub open spec fn spec_enc_fields_be(fields: Seq<TypeDesc>, xs: Seq<Value>) -> Seq<u8>
    decreases fields, xs,
{
    if fields.len() == 0 || xs.len() == 0 {
        Seq::empty()
    } else {
        spec_enc_be(fields[0], xs[0]) + spec_enc_fields_be(fields.drop_first(), xs.drop_first())
    }
}


/// Appending an element appends its image.
pub proof fn lemma_enc_list_le_push(e: TypeDesc, xs: Seq<Value>, v: Value)
    ensures
        spec_enc_list_le(e, xs.push(v)) == spec_enc_list_le(e, xs) + spec_enc_le(e, v),
    decreases xs.len(),
{
    if xs.len() == 0 {
        assert(xs.push(v).drop_first() =~= Seq::<Value>::empty());
        assert(xs.push(v)[0] == v);
        assert(spec_enc_list_le(e, Seq::<Value>::empty()) =~= Seq::<u8>::empty());
        assert(spec_enc_list_le(e, xs.push(v)) =~= spec_enc_list_le(e, xs) + spec_enc_le(e, v));
    } else {
        assert(xs.push(v).drop_first() =~= xs.drop_first().push(v));
        lemma_enc_list_le_push(e, xs.drop_first(), v);
        assert(spec_enc_list_le(e, xs.push(v)) =~= spec_enc_list_le(e, xs) + spec_enc_le(e, v));
    }
}

/// The concatenated element images are the element count times the
/// element size.
pub proof fn lemma_enc_list_le_len(e: TypeDesc, xs: Seq<Value>)
    requires
        spec_wf(e),
        forall|i: int| 0 <= i < xs.len() ==> spec_fits(e, #[trigger] xs[i]),
    ensures
        spec_enc_list_le(e, xs).len() == xs.len() * spec_size_of(e),
    decreases e, xs,
{
    if xs.len() == 0 {
        assert(xs.len() * spec_size_of(e) == 0) by (nonlinear_arith)
            requires
                xs.len() == 0,
        ;
    } else {
        lemma_enc_le_len(e, xs[0]);
        lemma_enc_list_le_len(e, xs.drop_first());
        assert(spec_size_of(e) + (xs.len() - 1) * spec_size_of(e) == xs.len() * spec_size_of(e))
            by (nonlinear_arith);
    }
}

/// The `i`th element's image is the `i`th window of the flat image.
pub proof fn lemma_enc_list_le_window(e: TypeDesc, xs: Seq<Value>, i: int)
    requires
        spec_wf(e),
        forall|j: int| 0 <= j < xs.len() ==> spec_fits(e, #[trigger] xs[j]),
        0 <= i < xs.len(),
    ensures
        spec_enc_list_le(e, xs).subrange(
            i * (spec_size_of(e) as int),
            (i + 1) * (spec_size_of(e) as int),
        ) == spec_enc_le(e, xs[i]),
    decreases i,
{
    let z = spec_size_of(e) as int;
    lemma_enc_list_le_len(e, xs);
    assert((i + 1) * z <= xs.len() * z && 0 <= i * z && i * z + z == (i + 1) * z)
        by (nonlinear_arith)
        requires
            0 <= i < xs.len(),
            z >= 0,
    ;
    lemma_enc_le_len(e, xs[0]);
    lemma_enc_list_le_len(e, xs.drop_first());
    if i == 0 {
        assert(i * z == 0 && (i + 1) * z == z) by (nonlinear_arith)
            requires
                i == 0,
        ;
        assert(spec_enc_list_le(e, xs).subrange(0, z) =~= spec_enc_le(e, xs[0]));
    } else {
        lemma_enc_list_le_window(e, xs.drop_first(), i - 1);
        assert((i - 1) * z == i * z - z && i * z == (i - 1) * z + z) by (nonlinear_arith);
        assert(spec_enc_list_le(e, xs).subrange(i * z, (i + 1) * z) =~= spec_enc_list_le(
            e,
            xs.drop_first(),
        ).subrange((i - 1) * z, i * z));
    }
}

/// Appending an element appends its image.
pub proof fn lemma_enc_list_be_push(e: TypeDesc, xs: Seq<Value>, v: Value)
    ensures
        spec_enc_list_be(e, xs.push(v)) == spec_enc_list_be(e, xs) + spec_enc_be(e, v),
    decreases xs.len(),
{
    if xs.len() == 0 {
        assert(xs.push(v).drop_first() =~= Seq::<Value>::empty());
        assert(xs.push(v)[0] == v);
        assert(spec_enc_list_be(e, Seq::<Value>::empty()) =~= Seq::<u8>::empty());
        assert(spec_enc_list_be(e, xs.push(v)) =~= spec_enc_list_be(e, xs) + spec_enc_be(e, v));
    } else {
        assert(xs.push(v).drop_first() =~= xs.drop_first().push(v));
        lemma_enc_list_be_push(e, xs.drop_first(), v);
        assert(spec_enc_list_be(e, xs.push(v)) =~= spec_enc_list_be(e, xs) + spec_enc_be(e, v));
    }
}

/// The concatenated element images are the element count times the
/// element size.
pub proof fn lemma_enc_list_be_len(e: TypeDesc, xs: Seq<Value>)
    requires
        spec_wf(e),
        forall|i: int| 0 <= i < xs.len() ==> spec_fits(e, #[trigger] xs[i]),
    ensures
        spec_enc_list_be(e, xs).len() == xs.len() * spec_size_of(e),
    decreases e, xs,
{
    if xs.len() == 0 {
        assert(xs.len() * spec_size_of(e) == 0) by (nonlinear_arith)
            requires
                xs.len() == 0,
        ;
    } else {
        lemma_enc_be_len(e, xs[0]);
        lemma_enc_list_be_len(e, xs.drop_first());
        assert(spec_size_of(e) + (xs.len() - 1) * spec_size_of(e) == xs.len() * spec_size_of(e))
            by (nonlinear_arith);
    }
}

/// The `i`th element's image is the `i`th window of the flat image.
pub proof fn lemma_enc_list_be_window(e: TypeDesc, xs: Seq<Value>, i: int)
    requires
        spec_wf(e),
        forall|j: int| 0 <= j < xs.len() ==> spec_fits(e, #[trigger] xs[j]),
        0 <= i < xs.len(),
    ensures
        spec_enc_list_be(e, xs).subrange(
            i * (spec_size_of(e) as int),
            (i + 1) * (spec_size_of(e) as int),
        ) == spec_enc_be(e, xs[i]),
    decreases i,
{
    let z = spec_size_of(e) as int;
    lemma_enc_list_be_len(e, xs);
    assert((i + 1) * z <= xs.len() * z && 0 <= i * z && i * z + z == (i + 1) * z)
        by (nonlinear_arith)
        requires
            0 <= i < xs.len(),
            z >= 0,
    ;
    lemma_enc_be_len(e, xs[0]);
    lemma_enc_list_be_len(e, xs.drop_first());
    if i == 0 {
        assert(i * z == 0 && (i + 1) * z == z) by (nonlinear_arith)
            requires
                i == 0,
        ;
        assert(spec_enc_list_be(e, xs).subrange(0, z) =~= spec_enc_be(e, xs[0]));
    } else {
        lemma_enc_list_be_window(e, xs.drop_first(), i - 1);
        assert((i - 1) * z == i * z - z && i * z == (i - 1) * z + z) by (nonlinear_arith);
        assert(spec_enc_list_be(e, xs).subrange(i * z, (i + 1) * z) =~= spec_enc_list_be(
            e,
            xs.drop_first(),
        ).subrange((i - 1) * z, i * z));
    }
}

/// Appending a field appends its size.
pub proof fn lemma_sum_sizes_push(fields: Seq<TypeDesc>, f: TypeDesc)
    ensures
        spec_sum_sizes(fields.push(f)) == spec_sum_sizes(fields) + spec_size_of(f),
    decreases fields.len(),
{
    if fields.len() == 0 {
        assert(fields.push(f).drop_first() =~= Seq::<TypeDesc>::empty());
        assert(fields.push(f)[0] == f);
        assert(spec_sum_sizes(Seq::<TypeDesc>::empty()) == 0);
        assert(spec_sum_sizes(fields) == 0);
    } else {
        assert(fields.push(f).drop_first() =~= fields.drop_first().push(f));
        lemma_sum_sizes_push(fields.drop_first(), f);
    }
}

/// The sum over one more field.
pub proof fn lemma_sum_sizes_take_succ(fields: Seq<TypeDesc>, i: int)
    requires
        0 <= i < fields.len(),
    ensures
        spec_sum_sizes(fields.take(i + 1)) == spec_sum_sizes(fields.take(i)) + spec_size_of(
            fields[i],
        ),
{
    assert(fields.take(i + 1) =~= fields.take(i).push(fields[i]));
    lemma_sum_sizes_push(fields.take(i), fields[i]);
}

/// A prefix sum never exceeds the whole sum.
pub proof fn lemma_sum_sizes_take_le(fields: Seq<TypeDesc>, i: int)
    requires
        0 <= i <= fields.len(),
    ensures
        spec_sum_sizes(fields.take(i)) <= spec_sum_sizes(fields),
    decreases fields.len() - i,
{
    if i == fields.len() {
        assert(fields.take(i) =~= fields);
    } else {
        lemma_sum_sizes_take_succ(fields, i);
        lemma_sum_sizes_take_le(fields, i + 1);
    }
}

impl TypeDesc {
    /// Total wire size of the described type, in bytes: the sum of the
    /// field sizes in declared order, an `N`-element array being `N`
    /// times its element, and a union its representation's size.
    #[verifier::loop_isolation(false)]
    pub fn size(&self) -> (s: usize)
        requires
            spec_size_of(*self) <= usize::MAX,
        ensures
            s == spec_size_of(*self),
        decreases *self,
    {
        match self {
            TypeDesc::Prim(p) => prim_size(p),
            TypeDesc::Array(e, n) => {
                if *n == 0 {
                    proof {
                        assert((*n as nat) * spec_size_of(**e) == 0) by (nonlinear_arith)
                            requires
                                *n == 0,
                        ;
                    }
                    0
                } else {
                    proof {
                        assert(spec_size_of(**e) <= (*n as nat) * spec_size_of(**e))
                            by (nonlinear_arith)
                            requires
                                *n >= 1,
                        ;
                    }
                    let es = e.size();
                    *n * es
                }
            },
            TypeDesc::Product(fields) => {
                let mut total: usize = 0;
                let mut i: usize = 0;
                proof {
                    assert(fields@.take(0) =~= Seq::<TypeDesc>::empty());
                }
                while i < fields.len()
                    invariant
                        i <= fields@.len(),
                        total == spec_sum_sizes(fields@.take(i as int)),
                    decreases fields@.len() - i,
                {
                    proof {
                        lemma_sum_sizes_take_succ(fields@, i as int);
                        lemma_sum_sizes_take_le(fields@, i + 1);
                    }
                    let fsize = fields[i].size();
                    total = total + fsize;
                    i = i + 1;
                }
                proof {
                    assert(fields@.take(fields@.len() as int) =~= fields@);
                }
                total
            },
            TypeDesc::Union(u) => u.size(),
        }
    }

    /// The zero value of the described type: the aggregate of each
    /// part's zero value for a product or array, and exactly one
    /// designated variant for a union.
    #[verifier::loop_isolation(false)]
    pub fn zeroed(&self) -> (v: Value)
        ensures
            spec_is_zero(*self, v),
            spec_fits(*self, v),
        decreases *self,
    {
        match self {
            TypeDesc::Prim(p) => prim_zeroed(p),
            TypeDesc::Array(e, n) => {
                let mut xs: Vec<Value> = Vec::new();
                let mut i: usize = 0;
                while i < *n
                    invariant
                        i <= *n,
                        xs@.len() == i,
                        forall|j: int| 0 <= j < i ==> spec_is_zero(**e, #[trigger] xs@[j])
                            && spec_fits(**e, xs@[j]),
                    decreases *n - i,
                {
                    let z = e.zeroed();
                    xs.push(z);
                    i = i + 1;
                }
                Value::List(xs)
            },
            TypeDesc::Product(fields) => {
                let mut xs: Vec<Value> = Vec::new();
                let mut i: usize = 0;
                while i < fields.len()
                    invariant
                        i <= fields@.len(),
                        xs@.len() == i,
                        forall|j: int| 0 <= j < i ==> spec_is_zero(
                            #[trigger] fields@[j],
                            xs@[j],
                        ) && spec_fits(fields@[j], xs@[j]),
                    decreases fields@.len() - i,
                {
                    let z = fields[i].zeroed();
                    xs.push(z);
                    i = i + 1;
                }
                Value::List(xs)
            },
            TypeDesc::Union(u) => Value::Variant(u.zero_variant_index()),
        }
    }
}


/// Appending a field appends its image.
pub proof fn lemma_enc_fields_le_push(fields: Seq<TypeDesc>, xs: Seq<Value>, f: TypeDesc, v: Value)
    requires
        fields.len() == xs.len(),
    ensures
        spec_enc_fields_le(fields.push(f), xs.push(v)) == spec_enc_fields_le(fields, xs)
            + spec_enc_le(f, v),
    decreases fields.len(),
{
    if fields.len() == 0 {
        assert(fields.push(f).drop_first() =~= Seq::<TypeDesc>::empty());
        assert(xs.push(v).drop_first() =~= Seq::<Value>::empty());
        assert(fields.push(f)[0] == f);
        assert(xs.push(v)[0] == v);
        assert(spec_enc_fields_le(Seq::<TypeDesc>::empty(), Seq::<Value>::empty())
            =~= Seq::<u8>::empty());
        assert(spec_enc_fields_le(fields.push(f), xs.push(v)) =~= spec_enc_fields_le(fields, xs)
            + spec_enc_le(f, v));
    } else {
        assert(fields.push(f).drop_first() =~= fields.drop_first().push(f));
        assert(xs.push(v).drop_first() =~= xs.drop_first().push(v));
        lemma_enc_fields_le_push(fields.drop_first(), xs.drop_first(), f, v);
        assert(spec_enc_fields_le(fields.push(f), xs.push(v)) =~= spec_enc_fields_le(fields, xs)
            + spec_enc_le(f, v));
    }
}

/// A composite image is exactly `spec_size_of(t)` bytes.
pub proof fn lemma_enc_le_len(t: TypeDesc, v: Value)
    requires
        spec_wf(t),
        spec_fits(t, v),
    ensures
        spec_enc_le(t, v).len() == spec_size_of(t),
    decreases t, v,
{
    match t {
        TypeDesc::Prim(p) => lemma_prim_to_le_len(p, v),
        TypeDesc::Array(e, _) => match v {
            Value::List(xs) => lemma_enc_list_le_len(*e, xs@),
            _ => {},
        },
        TypeDesc::Product(fields) => match v {
            Value::List(xs) => lemma_enc_fields_le_len(fields@, xs@),
            _ => {},
        },
        TypeDesc::Union(u) => match v {
            Value::Variant(k) => {
                u.spec_repr().lemma_tag_round_trip(u.spec_tags()[k as int] as int);
            },
            _ => {},
        },
    }
}

/// The concatenated field images are exactly the summed field sizes.
pub proof fn lemma_enc_fields_le_len(fields: Seq<TypeDesc>, xs: Seq<Value>)
    requires
        fields.len() == xs.len(),
        forall|i: int| 0 <= i < fields.len() ==> spec_wf(#[trigger] fields[i]),
        forall|i: int| 0 <= i < fields.len() ==> spec_fits(#[trigger] fields[i], xs[i]),
    ensures
        spec_enc_fields_le(fields, xs).len() == spec_sum_sizes(fields),
    decreases fields, xs,
{
    if fields.len() > 0 {
        lemma_enc_le_len(fields[0], xs[0]);
        lemma_enc_fields_le_len(fields.drop_first(), xs.drop_first());
    }
}

/// Field byte ranges are contiguous, non-overlapping, and appear in
/// declaration order: the `i`th field's image is the window starting at
/// the sum of the earlier field sizes.
pub proof fn lemma_enc_fields_le_window(fields: Seq<TypeDesc>, xs: Seq<Value>, i: int)
    requires
        fields.len() == xs.len(),
        forall|j: int| 0 <= j < fields.len() ==> spec_wf(#[trigger] fields[j]),
        forall|j: int| 0 <= j < fields.len() ==> spec_fits(#[trigger] fields[j], xs[j]),
        0 <= i < fields.len(),
    ensures
        spec_enc_fields_le(fields, xs).subrange(
            spec_sum_sizes(fields.take(i)) as int,
            spec_sum_sizes(fields.take(i)) as int + spec_size_of(fields[i]) as int,
        ) == spec_enc_le(fields[i], xs[i]),
    decreases i,
{
    lemma_enc_fields_le_len(fields, xs);
    lemma_enc_le_len(fields[0], xs[0]);
    lemma_enc_fields_le_len(fields.drop_first(), xs.drop_first());
    lemma_enc_le_len(fields[i], xs[i]);
    lemma_sum_sizes_take_le(fields, i);
    lemma_sum_sizes_take_succ(fields, i);
    lemma_sum_sizes_take_le(fields, i + 1);
    if i == 0 {
        assert(fields.take(0) =~= Seq::<TypeDesc>::empty());
        assert(spec_sum_sizes(Seq::<TypeDesc>::empty()) == 0);
        assert(spec_enc_fields_le(fields, xs).subrange(0, spec_size_of(fields[0]) as int)
            =~= spec_enc_le(fields[0], xs[0]));
    } else {
        lemma_enc_fields_le_window(fields.drop_first(), xs.drop_first(), i - 1);
        assert(fields.take(i).drop_first() =~= fields.drop_first().take(i - 1));
        assert(fields.take(i)[0] == fields[0]);
        assert(spec_sum_sizes(fields.take(i)) == spec_size_of(fields[0]) + spec_sum_sizes(
            fields.drop_first().take(i - 1),
        ));
        assert(spec_enc_fields_le(fields, xs).subrange(
            spec_sum_sizes(fields.take(i)) as int,
            spec_sum_sizes(fields.take(i)) as int + spec_size_of(fields[i]) as int,
        ) =~= spec_enc_fields_le(fields.drop_first(), xs.drop_first()).subrange(
            spec_sum_sizes(fields.drop_first().take(i - 1)) as int,
            spec_sum_sizes(fields.drop_first().take(i - 1)) as int + spec_size_of(
                fields[i],
            ) as int,
        ));
    }
}

/// Appending a field appends its image.
pub proof fn lemma_enc_fields_be_push(fields: Seq<TypeDesc>, xs: Seq<Value>, f: TypeDesc, v: Value)
    requires
        fields.len() == xs.len(),
    ensures
        spec_enc_fields_be(fields.push(f), xs.push(v)) == spec_enc_fields_be(fields, xs)
            + spec_enc_be(f, v),
    decreases fields.len(),
{
    if fields.len() == 0 {
        assert(fields.push(f).drop_first() =~= Seq::<TypeDesc>::empty());
        assert(xs.push(v).drop_first() =~= Seq::<Value>::empty());
        assert(fields.push(f)[0] == f);
        assert(xs.push(v)[0] == v);
        assert(spec_enc_fields_be(Seq::<TypeDesc>::empty(), Seq::<Value>::empty())
            =~= Seq::<u8>::empty());
        assert(spec_enc_fields_be(fields.push(f), xs.push(v)) =~= spec_enc_fields_be(fields, xs)
            + spec_enc_be(f, v));
    } else {
        assert(fields.push(f).drop_first() =~= fields.drop_first().push(f));
        assert(xs.push(v).drop_first() =~= xs.drop_first().push(v));
        lemma_enc_fields_be_push(fields.drop_first(), xs.drop_first(), f, v);
        assert(spec_enc_fields_be(fields.push(f), xs.push(v)) =~= spec_enc_fields_be(fields, xs)
            + spec_enc_be(f, v));
    }
}

/// A composite image is exactly `spec_size_of(t)` bytes.
pub proof fn lemma_enc_be_len(t: TypeDesc, v: Value)
    requires
        spec_wf(t),
        spec_fits(t, v),
    ensures
        spec_enc_be(t, v).len() == spec_size_of(t),
    decreases t, v,
{
    match t {
        TypeDesc::Prim(p) => lemma_prim_to_be_len(p, v),
        TypeDesc::Array(e, _) => match v {
            Value::List(xs) => lemma_enc_list_be_len(*e, xs@),
            _ => {},
        },
        TypeDesc::Product(fields) => match v {
            Value::List(xs) => lemma_enc_fields_be_len(fields@, xs@),
            _ => {},
        },
        TypeDesc::Union(u) => match v {
            Value::Variant(k) => {
                u.spec_repr().lemma_tag_round_trip(u.spec_tags()[k as int] as int);
            },
            _ => {},
        },
    }
}

/// The concatenated field images are exactly the summed field sizes.
pub proof fn lemma_enc_fields_be_len(fields: Seq<TypeDesc>, xs: Seq<Value>)
    requires
        fields.len() == xs.len(),
        forall|i: int| 0 <= i < fields.len() ==> spec_wf(#[trigger] fields[i]),
        forall|i: int| 0 <= i < fields.len() ==> spec_fits(#[trigger] fields[i], xs[i]),
    ensures
        spec_enc_fields_be(fields, xs).len() == spec_sum_sizes(fields),
    decreases fields, xs,
{
    if fields.len() > 0 {
        lemma_enc_be_len(fields[0], xs[0]);
        lemma_enc_fields_be_len(fields.drop_first(), xs.drop_first());
    }
}

/// Field byte ranges are contiguous, non-overlapping, and appear in
/// declaration order: the `i`th field's image is the window starting at
/// the sum of the earlier field sizes.
pub proof fn lemma_enc_fields_be_window(fields: Seq<TypeDesc>, xs: Seq<Value>, i: int)
    requires
        fields.len() == xs.len(),
        forall|j: int| 0 <= j < fields.len() ==> spec_wf(#[trigger] fields[j]),
        forall|j: int| 0 <= j < fields.len() ==> spec_fits(#[trigger] fields[j], xs[j]),
        0 <= i < fields.len(),
    ensures
        spec_enc_fields_be(fields, xs).subrange(
            spec_sum_sizes(fields.take(i)) as int,
            spec_sum_sizes(fields.take(i)) as int + spec_size_of(fields[i]) as int,
        ) == spec_enc_be(fields[i], xs[i]),
    decreases i,
{
    lemma_enc_fields_be_len(fields, xs);
    lemma_enc_be_len(fields[0], xs[0]);
    lemma_enc_fields_be_len(fields.drop_first(), xs.drop_first());
    lemma_enc_be_len(fields[i], xs[i]);
    lemma_sum_sizes_take_le(fields, i);
    lemma_sum_sizes_take_succ(fields, i);
    lemma_sum_sizes_take_le(fields, i + 1);
    if i == 0 {
        assert(fields.take(0) =~= Seq::<TypeDesc>::empty());
        assert(spec_sum_sizes(Seq::<TypeDesc>::empty()) == 0);
        assert(spec_enc_fields_be(fields, xs).subrange(0, spec_size_of(fields[0]) as int)
            =~= spec_enc_be(fields[0], xs[0]));
    } else {
        lemma_enc_fields_be_window(fields.drop_first(), xs.drop_first(), i - 1);
        assert(fields.take(i).drop_first() =~= fields.drop_first().take(i - 1));
        assert(fields.take(i)[0] == fields[0]);
        assert(spec_sum_sizes(fields.take(i)) == spec_size_of(fields[0]) + spec_sum_sizes(
            fields.drop_first().take(i - 1),
        ));
        assert(spec_enc_fields_be(fields, xs).subrange(
            spec_sum_sizes(fields.take(i)) as int,
            spec_sum_sizes(fields.take(i)) as int + spec_size_of(fields[i]) as int,
        ) =~= spec_enc_fields_be(fields.drop_first(), xs.drop_first()).subrange(
            spec_sum_sizes(fields.drop_first().take(i - 1)) as int,
            spec_sum_sizes(fields.drop_first().take(i - 1)) as int + spec_size_of(
                fields[i],
            ) as int,
        ));
    }
}

impl TypeDesc {
    /// Decode a value of the described type from little-endian bytes.
    ///
    /// Fails with `OutOfSpace` when the buffer is shorter than the total
    /// size; once that check passes, decodes each field from its window
    /// in order, and the only remaining failure is a field-level
    /// `OutOfRange`, which aborts the whole decode.
    #[verifier::loop_isolation(false)]
    #[verifier::rlimit(80)]
    pub fn decode_le(&self, buffer: &[u8]) -> (r: Result<Value, PodError>)
        requires
            spec_wf(*self),
            spec_size_of(*self) <= usize::MAX,
        ensures
            buffer@.len() < spec_size_of(*self) ==> r == Err::<Value, PodError>(
                PodError::OutOfSpace,
            ),
            buffer@.len() >= spec_size_of(*self) ==> (match r {
                Ok(v) => spec_fits(*self, v) && spec_enc_le(*self, v) == buffer@.take(
                    spec_size_of(*self) as int,
                ),
                Err(e) => e == PodError::OutOfRange && (forall|v: Value|
                    spec_fits(*self, v) ==> (#[trigger] spec_enc_le(*self, v)) != buffer@.take(
                        spec_size_of(*self) as int,
                    )),
            }),
        decreases *self,
    {
        let total = self.size();
        if buffer.len() < total {
            return Err(PodError::OutOfSpace);
        }
        let ghost s = buffer@.take(spec_size_of(*self) as int);
        match self {
            TypeDesc::Prim(p) => {
                proof {
                    lemma_prim_enc_dec_le(*p, s);
                }
                match prim_from_le(p, buffer) {
                    Ok(v) => Ok(v),
                    Err(_) => Err(PodError::OutOfRange),
                }
            },
            TypeDesc::Array(e, n) => {
                let mut xs: Vec<Value> = Vec::new();
                if *n == 0 {
                    proof {
                        assert((*n as nat) * spec_size_of(**e) == 0) by (nonlinear_arith)
                            requires
                                *n == 0,
                        ;
                        assert(spec_enc_le(*self, Value::List(xs)) =~= s);
                    }
                    return Ok(Value::List(xs));
                }
                proof {
                    assert(spec_size_of(**e) <= (*n as nat) * spec_size_of(**e))
                        by (nonlinear_arith)
                        requires
                            *n >= 1,
                    ;
                }
                let es = e.size();
                let mut i: usize = 0;
                proof {
                    assert(spec_enc_list_le(**e, xs@) =~= buffer@.subrange(0, 0));
                }
                while i < *n
                    invariant
                        i <= *n,
                        xs@.len() == i,
                        es == spec_size_of(**e),
                        forall|j: int| 0 <= j < i ==> spec_fits(**e, #[trigger] xs@[j]),
                        spec_enc_list_le(**e, xs@) == buffer@.subrange(0, i * (es as int)),
                    decreases *n - i,
                {
                    proof {
                        assert(i * (es as int) + es == (i + 1) * (es as int) && (i + 1) * (
                        es as int) <= (*n as int) * (es as int) && 0 <= i * (es as int))
                            by (nonlinear_arith)
                            requires
                                0 <= i < *n,
                                es >= 0,
                        ;
                    }
                    let start = i * es;
                    let w = vstd::slice::slice_subrange(buffer, start, start + es);
                    match e.decode_le(w) {
                        Ok(v) => {
                            proof {
                                assert(w@.take(spec_size_of(**e) as int) =~= w@);
                            }
                            let ghost xspre = xs@;
                            xs.push(v);
                            proof {
                                lemma_enc_list_le_push(**e, xspre, v);
                                assert(xs@ =~= xspre.push(v));
                                assert(spec_enc_list_le(**e, xs@) =~= buffer@.subrange(
                                    0,
                                    (i + 1) * (es as int),
                                ));
                            }
                            i = i + 1;
                        },
                        Err(_) => {
                            proof {
                                assert(w@.take(spec_size_of(**e) as int) =~= w@);
                                assert forall|v: Value| spec_fits(*self, v) implies (
                                #[trigger] spec_enc_le(*self, v)) != s by {
                                    if spec_enc_le(*self, v) == s {
                                        let ys = v->List_0;
                                        lemma_enc_list_le_window(**e, ys@, i as int);
                                        lemma_enc_list_le_len(**e, ys@);
                                        assert(spec_enc_le(**e, ys@[i as int]) =~= w@);
                                        assert(false);
                                    }
                                }
                            }
                            return Err(PodError::OutOfRange);
                        },
                    }
                }
                proof {
                    assert(spec_enc_le(*self, Value::List(xs)) =~= s);
                }
                Ok(Value::List(xs))
            },
            TypeDesc::Union(u) => {
                let ghost raw = u.spec_repr().spec_tag_of_le(s);
                proof {
                    assert(spec_size_of(*self) == u.spec_size());
                    assert(s == buffer@.take(u.spec_size() as int));
                    lemma_first_match_is_match(u.spec_tags(), raw);
                    u.spec_repr().lemma_tag_enc_dec_le(s);
                }
                match u.decode_le(buffer) {
                    Ok(k) => {
                        proof {
                            assert(spec_first_match(u.spec_tags(), raw) == Some(k as int));
                            assert(u.spec_tags()[k as int] as int == raw);
                        }
                        Ok(Value::Variant(k))
                    },
                    Err(_) => {
                        proof {
                            assert forall|v: Value| spec_fits(*self, v) implies (
                            #[trigger] spec_enc_le(*self, v)) != s by {
                                if spec_enc_le(*self, v) == s {
                                    let k = v->Variant_0;
                                    u.spec_repr().lemma_tag_round_trip(
                                        u.spec_tags()[k as int] as int,
                                    );
                                    assert(false);
                                }
                            }
                        }
                        Err(PodError::OutOfRange)
                    },
                }
            },
            TypeDesc::Product(fields) => {
                let mut xs: Vec<Value> = Vec::new();
                let mut offset: usize = 0;
                let mut i: usize = 0;
                proof {
                    assert(fields@.take(0) =~= Seq::<TypeDesc>::empty());
                    assert(spec_enc_fields_le(fields@.take(0), xs@) =~= buffer@.subrange(0, 0));
                }
                while i < fields.len()
                    invariant
                        i <= fields@.len(),
                        xs@.len() == i,
                        offset == spec_sum_sizes(fields@.take(i as int)),
                        forall|j: int| 0 <= j < i ==> spec_fits(
                            #[trigger] fields@[j],
                            xs@[j],
                        ),
                        spec_enc_fields_le(fields@.take(i as int), xs@) == buffer@.subrange(
                            0,
                            offset as int,
                        ),
                    decreases fields@.len() - i,
                {
                    proof {
                        lemma_sum_sizes_take_succ(fields@, i as int);
                        lemma_sum_sizes_take_le(fields@, i + 1);
                    }
                    let f = &fields[i];
                    let fsize = f.size();
                    let w = vstd::slice::slice_subrange(buffer, offset, offset + fsize);
                    match f.decode_le(w) {
                        Ok(v) => {
                            proof {
                                assert(w@.take(spec_size_of(fields@[i as int]) as int) =~= w@);
                            }
                            let ghost xspre = xs@;
                            xs.push(v);
                            proof {
                                lemma_enc_fields_le_push(
                                    fields@.take(i as int),
                                    xspre,
                                    fields@[i as int],
                                    v,
                                );
                                assert(fields@.take(i + 1) =~= fields@.take(i as int).push(
                                    fields@[i as int],
                                ));
                                assert(xs@ =~= xspre.push(v));
                                assert(spec_enc_fields_le(fields@.take(i + 1), xs@)
                                    =~= buffer@.subrange(0, offset + fsize));
                            }
                            offset = offset + fsize;
                            i = i + 1;
                        },
                        Err(_) => {
                            proof {
                                assert(w@.take(spec_size_of(fields@[i as int]) as int) =~= w@);
                                assert forall|v: Value| spec_fits(*self, v) implies (
                                #[trigger] spec_enc_le(*self, v)) != s by {
                                    if spec_enc_le(*self, v) == s {
                                        let ys = v->List_0;
                                        lemma_enc_fields_le_window(fields@, ys@, i as int);
                                        lemma_enc_fields_le_len(fields@, ys@);
                                        assert(spec_enc_le(fields@[i as int], ys@[i as int])
                                            =~= w@);
                                        assert(false);
                                    }
                                }
                            }
                            return Err(PodError::OutOfRange);
                        },
                    }
                }
                proof {
                    assert(fields@.take(fields@.len() as int) =~= fields@);
                    assert(spec_enc_le(*self, Value::List(xs)) =~= s);
                }
                Ok(Value::List(xs))
            },
        }
    }

    /// Encode a value of the described type as little-endian bytes,
    /// writing each field's image into its window in declaration order.
    ///
    /// Fails with `OutOfSpace`, leaving the buffer untouched, when the
    /// buffer is shorter than the total size; once that check passes the
    /// write cannot fail, and returns the total bytes written.
    #[verifier::loop_isolation(false)]
    #[verifier::rlimit(80)]
    pub fn encode_le(&self, v: &Value, buffer: &mut [u8]) -> (r: Result<usize, PodError>)
        requires
            spec_wf(*self),
            spec_fits(*self, *v),
            spec_size_of(*self) <= usize::MAX,
        ensures
            old(buffer)@.len() < spec_size_of(*self) ==> r == Err::<usize, PodError>(
                PodError::OutOfSpace,
            ) && final(buffer)@ == old(buffer)@,
            old(buffer)@.len() >= spec_size_of(*self) ==> r == Ok::<usize, PodError>(
                spec_size_of(*self) as usize,
            ) && final(buffer)@ == spec_enc_le(*self, *v) + old(buffer)@.skip(
                spec_size_of(*self) as int,
            ),
        decreases *self,
    {
        let total = self.size();
        if buffer.len() < total {
            return Err(PodError::OutOfSpace);
        }
        match self {
            TypeDesc::Prim(p) => {
                prim_to_le(p, v, buffer);
                Ok(total)
            },
            TypeDesc::Array(e, n) => match v {
                Value::List(xs) => {
                    if *n == 0 {
                        proof {
                            assert((*n as nat) * spec_size_of(**e) == 0) by (nonlinear_arith)
                                requires
                                    *n == 0,
                            ;
                            assert(spec_enc_le(*self, *v) =~= Seq::<u8>::empty());
                            assert(buffer@ =~= spec_enc_le(*self, *v) + old(buffer)@.skip(
                                spec_size_of(*self) as int,
                            ));
                        }
                        return Ok(total);
                    }
                    proof {
                        assert(spec_size_of(**e) <= (*n as nat) * spec_size_of(**e))
                            by (nonlinear_arith)
                            requires
                                *n >= 1,
                        ;
                    }
                    let es = e.size();
                    let mut offset: usize = 0;
                    let mut i: usize = 0;
                    proof {
                        assert(xs@.take(0) =~= Seq::<Value>::empty());
                        assert(buffer@ =~= spec_enc_list_le(**e, xs@.take(0)) + old(
                            buffer,
                        )@.skip(0));
                    }
                    while i < *n
                        invariant
                            i <= *n,
                            es == spec_size_of(**e),
                            offset == i * (es as int),
                            buffer@.len() == old(buffer)@.len(),
                            buffer@ == spec_enc_list_le(**e, xs@.take(i as int)) + old(
                                buffer,
                            )@.skip(offset as int),
                        decreases *n - i,
                    {
                        proof {
                            assert(i * (es as int) + es == (i + 1) * (es as int) && (i + 1) * (
                            es as int) <= (*n as int) * (es as int) && 0 <= i * (es as int))
                                by (nonlinear_arith)
                                requires
                                    0 <= i < *n,
                                    es >= 0,
                            ;
                            lemma_enc_list_le_len(**e, xs@.take(i as int));
                            assert(xs@.take(i as int).len() * spec_size_of(**e) == i * (
                            es as int)) by (nonlinear_arith)
                                requires
                                    xs@.take(i as int).len() == i,
                                    es == spec_size_of(**e),
                            ;
                            lemma_enc_le_len(**e, xs@[i as int]);
                        }
                        let pair = buffer.split_at_mut(offset);
                        let rest = pair.1;
                        let r = e.encode_le(&xs[i], rest);
                        if r.is_err() {
                            proof {
                                assert(false);
                            }
                            return Err(PodError::OutOfSpace);
                        }
                        i = i + 1;
                        offset = offset + es;
                        proof {
                            lemma_enc_list_le_push(**e, xs@.take(i - 1), xs@[i - 1]);
                            assert(xs@.take(i as int) =~= xs@.take(i - 1).push(xs@[i - 1]));
                            assert(buffer@ =~= spec_enc_list_le(**e, xs@.take(i as int)) + old(
                                buffer,
                            )@.skip(offset as int));
                        }
                    }
                    proof {
                        assert(xs@.take(*n as int) =~= xs@);
                        assert(buffer@ =~= spec_enc_le(*self, *v) + old(buffer)@.skip(
                            spec_size_of(*self) as int,
                        ));
                    }
                    Ok(total)
                },
                _ => {
                    proof {
                        assert(false);
                    }
                    Err(PodError::OutOfSpace)
                },
            },
            TypeDesc::Union(u) => match v {
                Value::Variant(k) => {
                    let r = u.encode_le(*k, buffer);
                    if r.is_err() {
                        proof {
                            assert(false);
                        }
                        return Err(PodError::OutOfSpace);
                    }
                    Ok(total)
                },
                _ => {
                    proof {
                        assert(false);
                    }
                    Err(PodError::OutOfSpace)
                },
            },
            TypeDesc::Product(fields) => match v {
                Value::List(xs) => {
                    let mut offset: usize = 0;
                    let mut i: usize = 0;
                    proof {
                        assert(fields@.take(0) =~= Seq::<TypeDesc>::empty());
                        assert(xs@.take(0) =~= Seq::<Value>::empty());
                        assert(buffer@ =~= spec_enc_fields_le(fields@.take(0), xs@.take(0))
                            + old(buffer)@.skip(0));
                    }
                    while i < fields.len()
                        invariant
                            i <= fields@.len(),
                            offset == spec_sum_sizes(fields@.take(i as int)),
                            buffer@.len() == old(buffer)@.len(),
                            buffer@ == spec_enc_fields_le(fields@.take(i as int), xs@.take(
                                i as int,
                            )) + old(buffer)@.skip(offset as int),
                        decreases fields@.len() - i,
                    {
                        proof {
                            lemma_sum_sizes_take_succ(fields@, i as int);
                            lemma_sum_sizes_take_le(fields@, i + 1);
                            lemma_enc_fields_le_len(fields@.take(i as int), xs@.take(i as int));
                            lemma_enc_le_len(fields@[i as int], xs@[i as int]);
                        }
                        let f = &fields[i];
                        let fsize = f.size();
                        let pair = buffer.split_at_mut(offset);
                        let rest = pair.1;
                        let r = f.encode_le(&xs[i], rest);
                        if r.is_err() {
                            proof {
                                assert(false);
                            }
                            return Err(PodError::OutOfSpace);
                        }
                        i = i + 1;
                        offset = offset + fsize;
                        proof {
                            lemma_enc_fields_le_push(
                                fields@.take(i - 1),
                                xs@.take(i - 1),
                                fields@[i - 1],
                                xs@[i - 1],
                            );
                            assert(fields@.take(i as int) =~= fields@.take(i - 1).push(
                                fields@[i - 1],
                            ));
                            assert(xs@.take(i as int) =~= xs@.take(i - 1).push(xs@[i - 1]));
                            assert(buffer@ =~= spec_enc_fields_le(fields@.take(i as int),
                                xs@.take(i as int)) + old(buffer)@.skip(offset as int));
                        }
                    }
                    proof {
                        assert(fields@.take(fields@.len() as int) =~= fields@);
                        assert(xs@.take(fields@.len() as int) =~= xs@);
                        assert(buffer@ =~= spec_enc_le(*self, *v) + old(buffer)@.skip(
                            spec_size_of(*self) as int,
                        ));
                    }
                    Ok(total)
                },
                _ => {
                    proof {
                        assert(false);
                    }
                    Err(PodError::OutOfSpace)
                },
            },
        }
    }
}

impl TypeDesc {
    /// Decode a value of the described type from big-endian bytes.
    ///
    /// Fails with `OutOfSpace` when the buffer is shorter than the total
    /// size; once that check passes, decodes each field from its window
    /// in order, and the only remaining failure is a field-level
    /// `OutOfRange`, which aborts the whole decode.
    #[verifier::loop_isolation(false)]
    #[verifier::rlimit(80)]
    pub fn decode_be(&self, buffer: &[u8]) -> (r: Result<Value, PodError>)
        requires
            spec_wf(*self),
            spec_size_of(*self) <= usize::MAX,
        ensures
            buffer@.len() < spec_size_of(*self) ==> r == Err::<Value, PodError>(
                PodError::OutOfSpace,
            ),
            buffer@.len() >= spec_size_of(*self) ==> (match r {
                Ok(v) => spec_fits(*self, v) && spec_enc_be(*self, v) == buffer@.take(
                    spec_size_of(*self) as int,
                ),
                Err(e) => e == PodError::OutOfRange && (forall|v: Value|
                    spec_fits(*self, v) ==> (#[trigger] spec_enc_be(*self, v)) != buffer@.take(
                        spec_size_of(*self) as int,
                    )),
            }),
        decreases *self,
    {
        let total = self.size();
        if buffer.len() < total {
            return Err(PodError::OutOfSpace);
        }
        let ghost s = buffer@.take(spec_size_of(*self) as int);
        match self {
            TypeDesc::Prim(p) => {
                proof {
                    lemma_prim_enc_dec_be(*p, s);
                }
                match prim_from_be(p, buffer) {
                    Ok(v) => Ok(v),
                    Err(_) => Err(PodError::OutOfRange),
                }
            },
            TypeDesc::Array(e, n) => {
                let mut xs: Vec<Value> = Vec::new();
                if *n == 0 {
                    proof {
                        assert((*n as nat) * spec_size_of(**e) == 0) by (nonlinear_arith)
                            requires
                                *n == 0,
                        ;
                        assert(spec_enc_be(*self, Value::List(xs)) =~= s);
                    }
                    return Ok(Value::List(xs));
                }
                proof {
                    assert(spec_size_of(**e) <= (*n as nat) * spec_size_of(**e))
                        by (nonlinear_arith)
                        requires
                            *n >= 1,
                    ;
                }
                let es = e.size();
                let mut i: usize = 0;
                proof {
                    assert(spec_enc_list_be(**e, xs@) =~= buffer@.subrange(0, 0));
                }
                while i < *n
                    invariant
                        i <= *n,
                        xs@.len() == i,
                        es == spec_size_of(**e),
                        forall|j: int| 0 <= j < i ==> spec_fits(**e, #[trigger] xs@[j]),
                        spec_enc_list_be(**e, xs@) == buffer@.subrange(0, i * (es as int)),
                    decreases *n - i,
                {
                    proof {
                        assert(i * (es as int) + es == (i + 1) * (es as int) && (i + 1) * (
                        es as int) <= (*n as int) * (es as int) && 0 <= i * (es as int))
                            by (nonlinear_arith)
                            requires
                                0 <= i < *n,
                                es >= 0,
                        ;
                    }
                    let start = i * es;
                    let w = vstd::slice::slice_subrange(buffer, start, start + es);
                    match e.decode_be(w) {
                        Ok(v) => {
                            proof {
                                assert(w@.take(spec_size_of(**e) as int) =~= w@);
                            }
                            let ghost xspre = xs@;
                            xs.push(v);
                            proof {
                                lemma_enc_list_be_push(**e, xspre, v);
                                assert(xs@ =~= xspre.push(v));
                                assert(spec_enc_list_be(**e, xs@) =~= buffer@.subrange(
                                    0,
                                    (i + 1) * (es as int),
                                ));
                            }
                            i = i + 1;
                        },
                        Err(_) => {
                            proof {
                                assert(w@.take(spec_size_of(**e) as int) =~= w@);
                                assert forall|v: Value| spec_fits(*self, v) implies (
                                #[trigger] spec_enc_be(*self, v)) != s by {
                                    if spec_enc_be(*self, v) == s {
                                        let ys = v->List_0;
                                        lemma_enc_list_be_window(**e, ys@, i as int);
                                        lemma_enc_list_be_len(**e, ys@);
                                        assert(spec_enc_be(**e, ys@[i as int]) =~= w@);
                                        assert(false);
                                    }
                                }
                            }
                            return Err(PodError::OutOfRange);
                        },
                    }
                }
                proof {
                    assert(spec_enc_be(*self, Value::List(xs)) =~= s);
                }
                Ok(Value::List(xs))
            },
            TypeDesc::Union(u) => {
                let ghost raw = u.spec_repr().spec_tag_of_be(s);
                proof {
                    assert(spec_size_of(*self) == u.spec_size());
                    assert(s == buffer@.take(u.spec_size() as int));
                    lemma_first_match_is_match(u.spec_tags(), raw);
                    u.spec_repr().lemma_tag_enc_dec_be(s);
                }
                match u.decode_be(buffer) {
                    Ok(k) => {
                        proof {
                            assert(spec_first_match(u.spec_tags(), raw) == Some(k as int));
                            assert(u.spec_tags()[k as int] as int == raw);
                        }
                        Ok(Value::Variant(k))
                    },
                    Err(_) => {
                        proof {
                            assert forall|v: Value| spec_fits(*self, v) implies (
                            #[trigger] spec_enc_be(*self, v)) != s by {
                                if spec_enc_be(*self, v) == s {
                                    let k = v->Variant_0;
                                    u.spec_repr().lemma_tag_round_trip(
                                        u.spec_tags()[k as int] as int,
                                    );
                                    assert(false);
                                }
                            }
                        }
                        Err(PodError::OutOfRange)
                    },
                }
            },
            TypeDesc::Product(fields) => {
                let mut xs: Vec<Value> = Vec::new();
                let mut offset: usize = 0;
                let mut i: usize = 0;
                proof {
                    assert(fields@.take(0) =~= Seq::<TypeDesc>::empty());
                    assert(spec_enc_fields_be(fields@.take(0), xs@) =~= buffer@.subrange(0, 0));
                }
                while i < fields.len()
                    invariant
                        i <= fields@.len(),
                        xs@.len() == i,
                        offset == spec_sum_sizes(fields@.take(i as int)),
                        forall|j: int| 0 <= j < i ==> spec_fits(
                            #[trigger] fields@[j],
                            xs@[j],
                        ),
                        spec_enc_fields_be(fields@.take(i as int), xs@) == buffer@.subrange(
                            0,
                            offset as int,
                        ),
                    decreases fields@.len() - i,
                {
                    proof {
                        lemma_sum_sizes_take_succ(fields@, i as int);
                        lemma_sum_sizes_take_le(fields@, i + 1);
                    }
                    let f = &fields[i];
                    let fsize = f.size();
                    let w = vstd::slice::slice_subrange(buffer, offset, offset + fsize);
                    match f.decode_be(w) {
                        Ok(v) => {
                            proof {
                                assert(w@.take(spec_size_of(fields@[i as int]) as int) =~= w@);
                            }
                            let ghost xspre = xs@;
                            xs.push(v);
                            proof {
                                lemma_enc_fields_be_push(
                                    fields@.take(i as int),
                                    xspre,
                                    fields@[i as int],
                                    v,
                                );
                                assert(fields@.take(i + 1) =~= fields@.take(i as int).push(
                                    fields@[i as int],
                                ));
                                assert(xs@ =~= xspre.push(v));
                                assert(spec_enc_fields_be(fields@.take(i + 1), xs@)
                                    =~= buffer@.subrange(0, offset + fsize));
                            }
                            offset = offset + fsize;
                            i = i + 1;
                        },
                        Err(_) => {
                            proof {
                                assert(w@.take(spec_size_of(fields@[i as int]) as int) =~= w@);
                                assert forall|v: Value| spec_fits(*self, v) implies (
                                #[trigger] spec_enc_be(*self, v)) != s by {
                                    if spec_enc_be(*self, v) == s {
                                        let ys = v->List_0;
                                        lemma_enc_fields_be_window(fields@, ys@, i as int);
                                        lemma_enc_fields_be_len(fields@, ys@);
                                        assert(spec_enc_be(fields@[i as int], ys@[i as int])
                                            =~= w@);
                                        assert(false);
                                    }
                                }
                            }
                            return Err(PodError::OutOfRange);
                        },
                    }
                }
                proof {
                    assert(fields@.take(fields@.len() as int) =~= fields@);
                    assert(spec_enc_be(*self, Value::List(xs)) =~= s);
                }
                Ok(Value::List(xs))
            },
        }
    }

    /// Encode a value of the described type as big-endian bytes,
    /// writing each field's image into its window in declaration order.
    ///
    /// Fails with `OutOfSpace`, leaving the buffer untouched, when the
    /// buffer is shorter than the total size; once that check passes the
    /// write cannot fail, and returns the total bytes written.
    #[verifier::loop_isolation(false)]
    #[verifier::rlimit(80)]
    pub fn encode_be(&self, v: &Value, buffer: &mut [u8]) -> (r: Result<usize, PodError>)
        requires
            spec_wf(*self),
            spec_fits(*self, *v),
            spec_size_of(*self) <= usize::MAX,
        ensures
            old(buffer)@.len() < spec_size_of(*self) ==> r == Err::<usize, PodError>(
                PodError::OutOfSpace,
            ) && final(buffer)@ == old(buffer)@,
            old(buffer)@.len() >= spec_size_of(*self) ==> r == Ok::<usize, PodError>(
                spec_size_of(*self) as usize,
            ) && final(buffer)@ == spec_enc_be(*self, *v) + old(buffer)@.skip(
                spec_size_of(*self) as int,
            ),
        decreases *self,
    {
        let total = self.size();
        if buffer.len() < total {
            return Err(PodError::OutOfSpace);
        }
        match self {
            TypeDesc::Prim(p) => {
                prim_to_be(p, v, buffer);
                Ok(total)
            },
            TypeDesc::Array(e, n) => match v {
                Value::List(xs) => {
                    if *n == 0 {
                        proof {
                            assert((*n as nat) * spec_size_of(**e) == 0) by (nonlinear_arith)
                                requires
                                    *n == 0,
                            ;
                            assert(spec_enc_be(*self, *v) =~= Seq::<u8>::empty());
                            assert(buffer@ =~= spec_enc_be(*self, *v) + old(buffer)@.skip(
                                spec_size_of(*self) as int,
                            ));
                        }
                        return Ok(total);
                    }
                    proof {
                        assert(spec_size_of(**e) <= (*n as nat) * spec_size_of(**e))
                            by (nonlinear_arith)
                            requires
                                *n >= 1,
                        ;
                    }
                    let es = e.size();
                    let mut offset: usize = 0;
                    let mut i: usize = 0;
                    proof {
                        assert(xs@.take(0) =~= Seq::<Value>::empty());
                        assert(buffer@ =~= spec_enc_list_be(**e, xs@.take(0)) + old(
                            buffer,
                        )@.skip(0));
                    }
                    while i < *n
                        invariant
                            i <= *n,
                            es == spec_size_of(**e),
                            offset == i * (es as int),
                            buffer@.len() == old(buffer)@.len(),
                            buffer@ == spec_enc_list_be(**e, xs@.take(i as int)) + old(
                                buffer,
                            )@.skip(offset as int),
                        decreases *n - i,
                    {
                        proof {
                            assert(i * (es as int) + es == (i + 1) * (es as int) && (i + 1) * (
                            es as int) <= (*n as int) * (es as int) && 0 <= i * (es as int))
                                by (nonlinear_arith)
                                requires
                                    0 <= i < *n,
                                    es >= 0,
                            ;
                            lemma_enc_list_be_len(**e, xs@.take(i as int));
                            assert(xs@.take(i as int).len() * spec_size_of(**e) == i * (
                            es as int)) by (nonlinear_arith)
                                requires
                                    xs@.take(i as int).len() == i,
                                    es == spec_size_of(**e),
                            ;
                            lemma_enc_be_len(**e, xs@[i as int]);
                        }
                        let pair = buffer.split_at_mut(offset);
                        let rest = pair.1;
                        let r = e.encode_be(&xs[i], rest);
                        if r.is_err() {
                            proof {
                                assert(false);
                            }
                            return Err(PodError::OutOfSpace);
                        }
                        i = i + 1;
                        offset = offset + es;
                        proof {
                            lemma_enc_list_be_push(**e, xs@.take(i - 1), xs@[i - 1]);
                            assert(xs@.take(i as int) =~= xs@.take(i - 1).push(xs@[i - 1]));
                            assert(buffer@ =~= spec_enc_list_be(**e, xs@.take(i as int)) + old(
                                buffer,
                            )@.skip(offset as int));
                        }
                    }
                    proof {
                        assert(xs@.take(*n as int) =~= xs@);
                        assert(buffer@ =~= spec_enc_be(*self, *v) + old(buffer)@.skip(
                            spec_size_of(*self) as int,
                        ));
                    }
                    Ok(total)
                },
                _ => {
                    proof {
                        assert(false);
                    }
                    Err(PodError::OutOfSpace)
                },
            },
            TypeDesc::Union(u) => match v {
                Value::Variant(k) => {
                    let r = u.encode_be(*k, buffer);
                    if r.is_err() {
                        proof {
                            assert(false);
                        }
                        return Err(PodError::OutOfSpace);
                    }
                    Ok(total)
                },
                _ => {
                    proof {
                        assert(false);
                    }
                    Err(PodError::OutOfSpace)
                },
            },
            TypeDesc::Product(fields) => match v {
                Value::List(xs) => {
                    let mut offset: usize = 0;
                    let mut i: usize = 0;
                    proof {
                        assert(fields@.take(0) =~= Seq::<TypeDesc>::empty());
                        assert(xs@.take(0) =~= Seq::<Value>::empty());
                        assert(buffer@ =~= spec_enc_fields_be(fields@.take(0), xs@.take(0))
                            + old(buffer)@.skip(0));
                    }
                    while i < fields.len()
                        invariant
                            i <= fields@.len(),
                            offset == spec_sum_sizes(fields@.take(i as int)),
                            buffer@.len() == old(buffer)@.len(),
                            buffer@ == spec_enc_fields_be(fields@.take(i as int), xs@.take(
                                i as int,
                            )) + old(buffer)@.skip(offset as int),
                        decreases fields@.len() - i,
                    {
                        proof {
                            lemma_sum_sizes_take_succ(fields@, i as int);
                            lemma_sum_sizes_take_le(fields@, i + 1);
                            lemma_enc_fields_be_len(fields@.take(i as int), xs@.take(i as int));
                            lemma_enc_be_len(fields@[i as int], xs@[i as int]);
                        }
                        let f = &fields[i];
                        let fsize = f.size();
                        let pair = buffer.split_at_mut(offset);
                        let rest = pair.1;
                        let r = f.encode_be(&xs[i], rest);
                        if r.is_err() {
                            proof {
                                assert(false);
                            }
                            return Err(PodError::OutOfSpace);
                        }
                        i = i + 1;
                        offset = offset + fsize;
                        proof {
                            lemma_enc_fields_be_push(
                                fields@.take(i - 1),
                                xs@.take(i - 1),
                                fields@[i - 1],
                                xs@[i - 1],
                            );
                            assert(fields@.take(i as int) =~= fields@.take(i - 1).push(
                                fields@[i - 1],
                            ));
                            assert(xs@.take(i as int) =~= xs@.take(i - 1).push(xs@[i - 1]));
                            assert(buffer@ =~= spec_enc_fields_be(fields@.take(i as int),
                                xs@.take(i as int)) + old(buffer)@.skip(offset as int));
                        }
                    }
                    proof {
                        assert(fields@.take(fields@.len() as int) =~= fields@);
                        assert(xs@.take(fields@.len() as int) =~= xs@);
                        assert(buffer@ =~= spec_enc_be(*self, *v) + old(buffer)@.skip(
                            spec_size_of(*self) as int,
                        ));
                    }
                    Ok(total)
                },
                _ => {
                    proof {
                        assert(false);
                    }
                    Err(PodError::OutOfSpace)
                },
            },
        }
    }
}


/// Structural equality of dynamic values, with aggregates compared
/// element by element.
pub open spec fn spec_value_eq(a: Value, b: Value) -> bool
    decreases a,
{
    match (a, b) {
        (Value::List(xs), Value::List(ys)) => xs@.len() == ys@.len() && (forall|i: int|
            0 <= i < xs@.len() ==> spec_value_eq(#[trigger] xs@[i], ys@[i])),
        _ => a == b,
    }
}

/// Round trip, little-endian: two validly constructible values of one
/// layout with the same byte image are the same value (aggregates
/// compared element by element), so a decode of the bytes that `v`
/// encodes to can only yield `v` itself.
pub proof fn lemma_enc_le_injective(t: TypeDesc, a: Value, b: Value)
    requires
        spec_wf(t),
        spec_fits(t, a),
        spec_fits(t, b),
        spec_enc_le(t, a) == spec_enc_le(t, b),
    ensures
        spec_value_eq(a, b),
    decreases t,
{
    match t {
        TypeDesc::Prim(p) => {
            lemma_prim_round_trip_le(p, a);
            lemma_prim_round_trip_le(p, b);
        },
        TypeDesc::Array(e, _) => {
            let xs = a->List_0;
            let ys = b->List_0;
            assert forall|i: int| 0 <= i < xs@.len() implies spec_value_eq(
                #[trigger] xs@[i],
                ys@[i],
            ) by {
                lemma_enc_list_le_window(*e, xs@, i);
                lemma_enc_list_le_window(*e, ys@, i);
                lemma_enc_le_injective(*e, xs@[i], ys@[i]);
            }
        },
        TypeDesc::Union(u) => {
            let j = a->Variant_0;
            let k = b->Variant_0;
            u.spec_repr().lemma_tag_round_trip(u.spec_tags()[j as int] as int);
            u.spec_repr().lemma_tag_round_trip(u.spec_tags()[k as int] as int);
            assert(u.spec_tags()[j as int] == u.spec_tags()[k as int]);
        },
        TypeDesc::Product(fields) => {
            let xs = a->List_0;
            let ys = b->List_0;
            assert forall|i: int| 0 <= i < xs@.len() implies spec_value_eq(
                #[trigger] xs@[i],
                ys@[i],
            ) by {
                lemma_enc_fields_le_window(fields@, xs@, i);
                lemma_enc_fields_le_window(fields@, ys@, i);
                lemma_enc_le_injective(fields@[i], xs@[i], ys@[i]);
            }
        },
    }
}

/// Round trip, big-endian: two validly constructible values of one
/// layout with the same byte image are the same value.
pub proof fn lemma_enc_be_injective(t: TypeDesc, a: Value, b: Value)
    requires
        spec_wf(t),
        spec_fits(t, a),
        spec_fits(t, b),
        spec_enc_be(t, a) == spec_enc_be(t, b),
    ensures
        spec_value_eq(a, b),
    decreases t,
{
    match t {
        TypeDesc::Prim(p) => {
            lemma_prim_round_trip_be(p, a);
            lemma_prim_round_trip_be(p, b);
        },
        TypeDesc::Array(e, _) => {
            let xs = a->List_0;
            let ys = b->List_0;
            assert forall|i: int| 0 <= i < xs@.len() implies spec_value_eq(
                #[trigger] xs@[i],
                ys@[i],
            ) by {
                lemma_enc_list_be_window(*e, xs@, i);
                lemma_enc_list_be_window(*e, ys@, i);
                lemma_enc_be_injective(*e, xs@[i], ys@[i]);
            }
        },
        TypeDesc::Union(u) => {
            let j = a->Variant_0;
            let k = b->Variant_0;
            u.spec_repr().lemma_tag_round_trip(u.spec_tags()[j as int] as int);
            u.spec_repr().lemma_tag_round_trip(u.spec_tags()[k as int] as int);
            assert(u.spec_tags()[j as int] == u.spec_tags()[k as int]);
        },
        TypeDesc::Product(fields) => {
            let xs = a->List_0;
            let ys = b->List_0;
            assert forall|i: int| 0 <= i < xs@.len() implies spec_value_eq(
                #[trigger] xs@[i],
                ys@[i],
            ) by {
                lemma_enc_fields_be_window(fields@, xs@, i);
                lemma_enc_fields_be_window(fields@, ys@, i);
                lemma_enc_be_injective(fields@[i], xs@[i], ys@[i]);
            }
        },
    }
}

/// The zero value is a single designated instance: any two zero values
/// of one layout are the same value, aggregates compared element by
/// element.
pub proof fn lemma_zero_unique(t: TypeDesc, a: Value, b: Value)
    requires
        spec_is_zero(t, a),
        spec_is_zero(t, b),
    ensures
        spec_value_eq(a, b),
    decreases t,
{
    match t {
        TypeDesc::Prim(_) => {},
        TypeDesc::Array(e, _) => {
            let xs = a->List_0;
            let ys = b->List_0;
            assert forall|i: int| 0 <= i < xs@.len() implies spec_value_eq(
                #[trigger] xs@[i],
                ys@[i],
            ) by {
                lemma_zero_unique(*e, xs@[i], ys@[i]);
            }
        },
        TypeDesc::Product(fields) => {
            let xs = a->List_0;
            let ys = b->List_0;
            assert forall|i: int| 0 <= i < xs@.len() implies spec_value_eq(
                #[trigger] xs@[i],
                ys@[i],
            ) by {
                lemma_zero_unique(fields@[i], xs@[i], ys@[i]);
            }
        },
        TypeDesc::Union(_) => {},
    }
}

/// Size additivity for products: the size of an ordered-field product is
/// the sum of its field sizes, in declared order.
pub proof fn lemma_product_size(fields: Vec<TypeDesc>)
    ensures
        spec_size_of(TypeDesc::Product(fields)) == spec_sum_sizes(fields@),
{
}

} // verus!
