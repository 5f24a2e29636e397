//! The codec contract: fixed-size decode and encode in both byte orders.

use vstd::prelude::*;

use crate::zeroable::Zeroable;

verus! {

/// Errors for decoding and encoding [`Pod`] types to and from byte buffers.
#[derive(Debug, PartialEq, Eq, Structural)]
#[non_exhaustive]
pub enum PodError {
    /// Not enough bytes in the buffer to perform the operation.
    OutOfSpace,
    /// The bytes in the buffer are not in the permitted range for the type.
    OutOfRange,
}

impl PodError {
    /// What the error means, as text.
    pub fn message(&self) -> (s: String)
        ensures
            *self is OutOfSpace ==> s@ == "NotEnughSpace"@,
            *self is OutOfRange ==> s@ == "NotInRange"@,
    {
        match self {
            PodError::OutOfSpace => "NotEnughSpace".to_owned(),
            PodError::OutOfRange => "NotInRange".to_owned(),
        }
    }
}

/// A type that can be created from and turned into a byte buffer.
///
/// Every implementation fixes a byte size [`Pod::spec_size`] and two byte
/// images, [`Pod::spec_to_le`] and [`Pod::spec_to_be`], each `spec_size()` bytes
/// long and injective.  Decoding succeeds exactly on the byte strings that
/// some value encodes to, and returns that value: the layouts are
/// byte-exact and reversible.
pub trait Pod: Zeroable {
    /// Size of the byte representation.
    spec fn spec_size() -> nat;

    /// Size of the byte representation, as a machine integer.
    fn size() -> (s: usize)
        requires
            Self::spec_size() <= usize::MAX,
        ensures
            s == Self::spec_size(),
    ;

    /// The little-endian byte image of `self`: `spec_size()` bytes long.
    spec fn spec_to_le(self) -> Seq<u8>;

    /// The big-endian byte image of `self`: `spec_size()` bytes long.
    spec fn spec_to_be(self) -> Seq<u8>;

    /// The little-endian image is always exactly `spec_size()` bytes.
    proof fn lemma_to_le_len(self)
        ensures
            self.spec_to_le().len() == Self::spec_size(),
    ;

    /// The big-endian image is always exactly `spec_size()` bytes.
    proof fn lemma_to_be_len(self)
        ensures
            self.spec_to_be().len() == Self::spec_size(),
    ;

    /// Distinct values have distinct little-endian images.
    proof fn lemma_to_le_injective(a: Self, b: Self)
        requires
            a.spec_to_le() == b.spec_to_le(),
        ensures
            a == b,
    ;

    /// Distinct values have distinct big-endian images.
    proof fn lemma_to_be_injective(a: Self, b: Self)
        requires
            a.spec_to_be() == b.spec_to_be(),
        ensures
            a == b,
    ;

    /// Create an instance from little-endian bytes.
    ///
    /// Fails with `OutOfSpace` when the buffer is shorter than `spec_size()`;
    /// otherwise decodes the first `spec_size()` bytes and ignores the rest.
    fn from_le_bytes(buffer: &[u8]) -> (r: Result<Self, PodError>)
        requires
            Self::spec_size() <= usize::MAX,
        ensures
            buffer@.len() < Self::spec_size() ==> r == Err::<Self, PodError>(PodError::OutOfSpace),
            buffer@.len() >= Self::spec_size() ==> (match r {
                Ok(v) => v.spec_to_le() == buffer@.take(Self::spec_size() as int),
                Err(e) => e == PodError::OutOfRange && (forall|v: Self|
                    (#[trigger] v.spec_to_le()) != buffer@.take(Self::spec_size() as int)),
            }),
    ;

    /// Create an instance from big-endian bytes.
    ///
    /// Fails with `OutOfSpace` when the buffer is shorter than `spec_size()`;
    /// otherwise decodes the first `spec_size()` bytes and ignores the rest.
    fn from_be_bytes(buffer: &[u8]) -> (r: Result<Self, PodError>)
        requires
            Self::spec_size() <= usize::MAX,
        ensures
            buffer@.len() < Self::spec_size() ==> r == Err::<Self, PodError>(PodError::OutOfSpace),
            buffer@.len() >= Self::spec_size() ==> (match r {
                Ok(v) => v.spec_to_be() == buffer@.take(Self::spec_size() as int),
                Err(e) => e == PodError::OutOfRange && (forall|v: Self|
                    (#[trigger] v.spec_to_be()) != buffer@.take(Self::spec_size() as int)),
            }),
    ;

    /// Write the little-endian image of `self` over the front of `buffer`.
    ///
    /// Fails with `OutOfSpace`, leaving the buffer untouched, when the
    /// buffer is shorter than `spec_size()`; otherwise writes exactly `spec_size()`
    /// bytes, leaves the rest untouched, and returns the size.
    fn to_le_bytes(&self, buffer: &mut [u8]) -> (r: Result<usize, PodError>)
        requires
            Self::spec_size() <= usize::MAX,
        ensures
            old(buffer)@.len() < Self::spec_size() ==> r == Err::<usize, PodError>(
                PodError::OutOfSpace,
            ) && final(buffer)@ == old(buffer)@,
            old(buffer)@.len() >= Self::spec_size() ==> r == Ok::<usize, PodError>(
                Self::spec_size() as usize,
            ) && final(buffer)@ == self.spec_to_le() + old(buffer)@.skip(
                Self::spec_size() as int,
            ),
    ;

    /// Write the big-endian image of `self` over the front of `buffer`.
    ///
    /// Fails with `OutOfSpace`, leaving the buffer untouched, when the
    /// buffer is shorter than `spec_size()`; otherwise writes exactly `spec_size()`
    /// bytes, leaves the rest untouched, and returns the size.
    fn to_be_bytes(&self, buffer: &mut [u8]) -> (r: Result<usize, PodError>)
        requires
            Self::spec_size() <= usize::MAX,
        ensures
            old(buffer)@.len() < Self::spec_size() ==> r == Err::<usize, PodError>(
                PodError::OutOfSpace,
            ) && final(buffer)@ == old(buffer)@,
            old(buffer)@.len() >= Self::spec_size() ==> r == Ok::<usize, PodError>(
                Self::spec_size() as usize,
            ) && final(buffer)@ == self.spec_to_be() + old(buffer)@.skip(
                Self::spec_size() as int,
            ),
    ;
}

/// The value whose little-endian image is `s`, if any.
///
/// Decoding succeeds exactly on the image of the (injective) encoding, so
/// this is the full decoding function of the codec.
pub open spec fn spec_from_le<T: Pod>(s: Seq<u8>) -> Option<T> {
    if exists|v: T| (#[trigger] v.spec_to_le()) == s {
        Some(choose|v: T| v.spec_to_le() == s)
    } else {
        None
    }
}

/// The value whose big-endian image is `s`, if any.
pub open spec fn spec_from_be<T: Pod>(s: Seq<u8>) -> Option<T> {
    if exists|v: T| (#[trigger] v.spec_to_be()) == s {
        Some(choose|v: T| v.spec_to_be() == s)
    } else {
        None
    }
}

/// A byte string that `v` encodes to decodes back to `v`.
pub proof fn lemma_from_le_of_to_le<T: Pod>(v: T, s: Seq<u8>)
    requires
        v.spec_to_le() == s,
    ensures
        spec_from_le::<T>(s) == Some(v),
{
    assert(v.spec_to_le() == s);
    assert(exists|v: T| (#[trigger] v.spec_to_le()) == s);
    let r = spec_from_le::<T>(s);
    assert(r is Some);
    let w: T = match r {
        Some(w) => w,
        None => v,
    };
    assert(w.spec_to_le() == s);
    T::lemma_to_le_injective(w, v);
}

/// A byte string that `v` encodes to decodes back to `v`.
pub proof fn lemma_from_be_of_to_be<T: Pod>(v: T, s: Seq<u8>)
    requires
        v.spec_to_be() == s,
    ensures
        spec_from_be::<T>(s) == Some(v),
{
    assert(v.spec_to_be() == s);
    assert(exists|v: T| (#[trigger] v.spec_to_be()) == s);
    let r = spec_from_be::<T>(s);
    assert(r is Some);
    let w: T = match r {
        Some(w) => w,
        None => v,
    };
    assert(w.spec_to_be() == s);
    T::lemma_to_be_injective(w, v);
}

/// Round trip, little-endian: for every codecable type and every value
/// `v`, decoding the bytes that `v` encodes to yields `v` again.
pub proof fn lemma_le_round_trip<T: Pod>(v: T)
    ensures
        spec_from_le::<T>(v.spec_to_le()) == Some(v),
{
    lemma_from_le_of_to_le::<T>(v, v.spec_to_le());
}

/// Round trip, big-endian: for every codecable type and every value `v`,
/// decoding the bytes that `v` encodes to yields `v` again.
pub proof fn lemma_be_round_trip<T: Pod>(v: T)
    ensures
        spec_from_be::<T>(v.spec_to_be()) == Some(v),
{
    lemma_from_be_of_to_be::<T>(v, v.spec_to_be());
}

} // verus!
