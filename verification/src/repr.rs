//! Representation types for composite layouts: the primitive integer type
//! that carries a tagged union's tag on the wire.

use vstd::prelude::*;
use vstd::string::StringSliceAdditionalSpecFns;

use crate::wire::{
    pow256, le_nat, be_nat, nat_to_le, nat_to_be, ibits, sint_of, lemma_pow256_values,
    lemma_ibits_of_sint_of,
    lemma_le_nat_bound, lemma_be_nat_bound, lemma_nat_to_le_len, lemma_nat_to_be_len,
    lemma_le_nat_of_nat_to_le, lemma_be_nat_of_nat_to_be, lemma_nat_to_le_of_le_nat,
    lemma_nat_to_be_of_be_nat, read_le_chunk, read_be_chunk,
    write_le_chunk, write_be_chunk,
};

verus! {

/// A struct or enum representation.
#[derive(Clone, Copy, Debug, PartialEq, Eq, Structural)]
#[non_exhaustive]
pub enum Repr {
    U8,
    U16,
    U32,
    U64,
    U128,
    Usize,
    I8,
    I16,
    I32,
    I64,
    I128,
    Isize,
    NotSupported,
}

/// Whether two byte strings are equal.
fn bytes_eq(a: &[u8], b: &[u8]) -> (r: bool)
    ensures
        r == (a@ == b@),
{
    if a.len() != b.len() {
        return false;
    }
    let mut i: usize = 0;
    while i < a.len()
        invariant
            i <= a@.len(),
            a@.len() == b@.len(),
            forall|j: int| 0 <= j < i ==> a@[j] == b@[j],
        decreases a@.len() - i,
    {
        if a[i] != b[i] {
            return false;
        }
        i = i + 1;
    }
    proof {
        assert(a@ =~= b@);
    }
    true
}

/// The representation named by a textual type path, as its UTF-8 bytes.
pub open spec fn spec_from_path(s: Seq<u8>) -> Repr {
    if s == "u8".spec_bytes() {
        Repr::U8
    } else if s == "u16".spec_bytes() {
        Repr::U16
    } else if s == "u32".spec_bytes() {
        Repr::U32
    } else if s == "u64".spec_bytes() {
        Repr::U64
    } else if s == "u128".spec_bytes() {
        Repr::U128
    } else if s == "usize".spec_bytes() {
        Repr::Usize
    } else if s == "i8".spec_bytes() {
        Repr::I8
    } else if s == "i16".spec_bytes() {
        Repr::I16
    } else if s == "i32".spec_bytes() {
        Repr::I32
    } else if s == "i64".spec_bytes() {
        Repr::I64
    } else if s == "i128".spec_bytes() {
        Repr::I128
    } else if s == "isize".spec_bytes() {
        Repr::Isize
    } else {
        Repr::NotSupported
    }
}

impl Repr {
    /// Get the representation from a textual type path.
    pub fn from_path(path: &str) -> (r: Repr)
        ensures
            r == spec_from_path(path.spec_bytes()),
    {
        let b = path.as_bytes();
        if bytes_eq(b, "u8".as_bytes()) {
            return Repr::U8;
        }
        if bytes_eq(b, "u16".as_bytes()) {
            return Repr::U16;
        }
        if bytes_eq(b, "u32".as_bytes()) {
            return Repr::U32;
        }
        if bytes_eq(b, "u64".as_bytes()) {
            return Repr::U64;
        }
        if bytes_eq(b, "u128".as_bytes()) {
            return Repr::U128;
        }
        if bytes_eq(b, "usize".as_bytes()) {
            return Repr::Usize;
        }
        if bytes_eq(b, "i8".as_bytes()) {
            return Repr::I8;
        }
        if bytes_eq(b, "i16".as_bytes()) {
            return Repr::I16;
        }
        if bytes_eq(b, "i32".as_bytes()) {
            return Repr::I32;
        }
        if bytes_eq(b, "i64".as_bytes()) {
            return Repr::I64;
        }
        if bytes_eq(b, "i128".as_bytes()) {
            return Repr::I128;
        }
        if bytes_eq(b, "isize".as_bytes()) {
            return Repr::Isize;
        }
        Repr::NotSupported
    }

    /// Returns true if the representation is supported by `Zeroable`.
    pub fn is_zeroable(&self) -> (r: bool)
        ensures
            r == !(*self is NotSupported),
    {
        match self {
            Self::NotSupported => false,
            _ => true,
        }
    }

    /// Returns true if the representation is supported by `Pod`: it then
    /// has a fixed wire size and can carry a tag.
    pub fn is_pod(&self) -> (r: bool)
        ensures
            r == self.spec_is_pod(),
    {
        match self {
            Self::Usize | Self::Isize | Self::NotSupported => false,
            _ => true,
        }
    }

    /// Whether the representation is a fixed-width codecable integer.
    pub open spec fn spec_is_pod(self) -> bool {
        !(self is Usize || self is Isize || self is NotSupported)
    }

    /// Whether the representation is a signed integer type.
    pub open spec fn spec_is_signed(self) -> bool {
        self is I8 || self is I16 || self is I32 || self is I64 || self is I128
    }

    /// Wire size of the representation, in bytes (`0` for the types that
    /// are not codecable).
    pub open spec fn spec_size(self) -> nat {
        match self {
            Repr::U8 | Repr::I8 => 1,
            Repr::U16 | Repr::I16 => 2,
            Repr::U32 | Repr::I32 => 4,
            Repr::U64 | Repr::I64 => 8,
            Repr::U128 | Repr::I128 => 16,
            Repr::Usize | Repr::Isize | Repr::NotSupported => 0,
        }
    }

    /// Wire size of the representation, in bytes.
    pub fn size(&self) -> (s: usize)
        ensures
            s == self.spec_size(),
    {
        match self {
            Repr::U8 | Repr::I8 => 1,
            Repr::U16 | Repr::I16 => 2,
            Repr::U32 | Repr::I32 => 4,
            Repr::U64 | Repr::I64 => 8,
            Repr::U128 | Repr::I128 => 16,
            Repr::Usize | Repr::Isize | Repr::NotSupported => 0,
        }
    }

    /// Whether `t` is a value of the representation type.  For `U128` this
    /// covers the tags a signed 128-bit literal can spell; larger values
    /// cannot be configured as tags.
    pub open spec fn spec_in_range(self, t: int) -> bool {
        self.spec_is_pod() && (if self.spec_is_signed() {
            -(pow256(self.spec_size()) as int) <= 2 * t < pow256(self.spec_size()) as int
        } else {
            0 <= t < pow256(self.spec_size()) as int
        })
    }

    /// Whether `t` is a value of the representation type.
    pub fn tag_in_range(&self, t: i128) -> (r: bool)
        ensures
            r == self.spec_in_range(t as int),
    {
        proof {
            lemma_pow256_values();
        }
        match self {
            Repr::U8 => 0 <= t && t <= 255,
            Repr::U16 => 0 <= t && t <= 65535,
            Repr::U32 => 0 <= t && t <= 4294967295,
            Repr::U64 => 0 <= t && t <= 18446744073709551615,
            Repr::U128 => 0 <= t,
            Repr::I8 => -128 <= t && t <= 127,
            Repr::I16 => -32768 <= t && t <= 32767,
            Repr::I32 => -2147483648 <= t && t <= 2147483647,
            Repr::I64 => -9223372036854775808 <= t && t <= 9223372036854775807,
            Repr::I128 => true,
            Repr::Usize | Repr::Isize | Repr::NotSupported => false,
        }
    }

    /// The two's-complement bit pattern of the tag `t`, as a natural
    /// number below `256^spec_size()`.
    pub open spec fn spec_tag_bits(self, t: int) -> nat {
        if self.spec_is_signed() {
            ibits(t, self.spec_size())
        } else if t >= 0 {
            t as nat
        } else {
            0
        }
    }

    /// The little-endian byte image of the tag `t`.
    pub open spec fn spec_tag_to_le(self, t: int) -> Seq<u8> {
        nat_to_le(self.spec_tag_bits(t), self.spec_size())
    }

    /// The big-endian byte image of the tag `t`.
    pub open spec fn spec_tag_to_be(self, t: int) -> Seq<u8> {
        nat_to_be(self.spec_tag_bits(t), self.spec_size())
    }

    /// The tag value held by the little-endian bytes `s`.
    pub open spec fn spec_tag_of_le(self, s: Seq<u8>) -> int {
        if self.spec_is_signed() {
            sint_of(le_nat(s), self.spec_size())
        } else {
            le_nat(s) as int
        }
    }

    /// The tag value held by the big-endian bytes `s`.
    pub open spec fn spec_tag_of_be(self, s: Seq<u8>) -> int {
        if self.spec_is_signed() {
            sint_of(be_nat(s), self.spec_size())
        } else {
            be_nat(s) as int
        }
    }

    /// Reading back an encoded tag recovers the tag: the representation's
    /// wire image is reversible.
    pub proof fn lemma_tag_round_trip(self, t: int)
        requires
            self.spec_is_pod(),
            self.spec_in_range(t),
        ensures
            self.spec_tag_to_le(t).len() == self.spec_size(),
            self.spec_tag_to_be(t).len() == self.spec_size(),
            self.spec_tag_of_le(self.spec_tag_to_le(t)) == t,
            self.spec_tag_of_be(self.spec_tag_to_be(t)) == t,
    {
        let n = self.spec_size();
        let b = self.spec_tag_bits(t);
        lemma_pow256_values();
        lemma_nat_to_le_len(b, n);
        lemma_nat_to_be_len(b, n);
        assert(b < pow256(n));
        lemma_le_nat_of_nat_to_le(b, n);
        lemma_be_nat_of_nat_to_be(b, n);
    }

    /// Encoding the tag read from a representation-sized byte string
    /// reproduces the byte string, and the read tag is a representation
    /// value: the tag layer is byte-exact and reversible.
    pub proof fn lemma_tag_enc_dec_le(self, s: Seq<u8>)
        requires
            self.spec_is_pod(),
            s.len() == self.spec_size(),
        ensures
            self.spec_in_range(self.spec_tag_of_le(s)),
            self.spec_tag_to_le(self.spec_tag_of_le(s)) == s,
    {
        lemma_le_nat_bound(s);
        if self.spec_is_signed() {
            lemma_ibits_of_sint_of(le_nat(s), self.spec_size());
        }
        lemma_nat_to_le_of_le_nat(s);
    }

    /// Encoding the tag read from a representation-sized byte string
    /// reproduces the byte string, big-endian.
    pub proof fn lemma_tag_enc_dec_be(self, s: Seq<u8>)
        requires
            self.spec_is_pod(),
            s.len() == self.spec_size(),
        ensures
            self.spec_in_range(self.spec_tag_of_be(s)),
            self.spec_tag_to_be(self.spec_tag_of_be(s)) == s,
    {
        lemma_be_nat_bound(s);
        if self.spec_is_signed() {
            lemma_ibits_of_sint_of(be_nat(s), self.spec_size());
        }
        lemma_nat_to_be_of_be_nat(s);
    }

    /// Decode a tag of this representation from the front of `buffer`.
    ///
    /// `None` when the wire value exceeds what a tag literal can spell,
    /// which only a `U128` representation can produce.
    pub fn decode_tag_le(&self, buffer: &[u8]) -> (r: Option<i128>)
        requires
            self.spec_is_pod(),
            buffer@.len() >= self.spec_size(),
        ensures
            (match r {
                Some(t) => self.spec_tag_of_le(buffer@.take(self.spec_size() as int)) == t as int,
                None => self.spec_tag_of_le(buffer@.take(self.spec_size() as int)) > i128::MAX
                    as int,
            }),
    {
        let n = self.size();
        let x = read_le_chunk(buffer, n);
        proof {
            lemma_le_nat_bound(buffer@.take(n as int));
            lemma_pow256_values();
        }
        match self {
            Repr::U8 | Repr::U16 | Repr::U32 | Repr::U64 => Some(x as i128),
            Repr::U128 => {
                if x <= i128::MAX as u128 {
                    Some(x as i128)
                } else {
                    None
                }
            },
            Repr::I8 => Some(
                if x < 128 {
                    x as i128
                } else {
                    x as i128 - 256
                },
            ),
            Repr::I16 => Some(
                if x < 32768 {
                    x as i128
                } else {
                    x as i128 - 65536
                },
            ),
            Repr::I32 => Some(
                if x < 2147483648 {
                    x as i128
                } else {
                    x as i128 - 4294967296
                },
            ),
            Repr::I64 => Some(
                if x < 9223372036854775808 {
                    x as i128
                } else {
                    x as i128 - 18446744073709551616
                },
            ),
            Repr::I128 => Some(
                if x < 170141183460469231731687303715884105728 {
                    x as i128
                } else {
                    ((x - 170141183460469231731687303715884105728) as i128) + i128::MIN
                },
            ),
            Repr::Usize | Repr::Isize | Repr::NotSupported => {
                proof {
                    assert(false);
                }
                None
            },
        }
    }

    /// Decode a tag of this representation from the front of `buffer`,
    /// big-endian.
    pub fn decode_tag_be(&self, buffer: &[u8]) -> (r: Option<i128>)
        requires
            self.spec_is_pod(),
            buffer@.len() >= self.spec_size(),
        ensures
            (match r {
                Some(t) => self.spec_tag_of_be(buffer@.take(self.spec_size() as int)) == t as int,
                None => self.spec_tag_of_be(buffer@.take(self.spec_size() as int)) > i128::MAX
                    as int,
            }),
    {
        let n = self.size();
        let x = read_be_chunk(buffer, n);
        proof {
            lemma_be_nat_bound(buffer@.take(n as int));
            lemma_pow256_values();
        }
        match self {
            Repr::U8 | Repr::U16 | Repr::U32 | Repr::U64 => Some(x as i128),
            Repr::U128 => {
                if x <= i128::MAX as u128 {
                    Some(x as i128)
                } else {
                    None
                }
            },
            Repr::I8 => Some(
                if x < 128 {
                    x as i128
                } else {
                    x as i128 - 256
                },
            ),
            Repr::I16 => Some(
                if x < 32768 {
                    x as i128
                } else {
                    x as i128 - 65536
                },
            ),
            Repr::I32 => Some(
                if x < 2147483648 {
                    x as i128
                } else {
                    x as i128 - 4294967296
                },
            ),
            Repr::I64 => Some(
                if x < 9223372036854775808 {
                    x as i128
                } else {
                    x as i128 - 18446744073709551616
                },
            ),
            Repr::I128 => Some(
                if x < 170141183460469231731687303715884105728 {
                    x as i128
                } else {
                    ((x - 170141183460469231731687303715884105728) as i128) + i128::MIN
                },
            ),
            Repr::Usize | Repr::Isize | Repr::NotSupported => {
                proof {
                    assert(false);
                }
                None
            },
        }
    }

    /// Write the little-endian image of the tag `t` over the front of
    /// `buffer`; bytes past `spec_size()` are untouched.
    pub fn encode_tag_le(&self, t: i128, buffer: &mut [u8])
        requires
            self.spec_is_pod(),
            self.spec_in_range(t as int),
            old(buffer)@.len() >= self.spec_size(),
        ensures
            final(buffer)@ == self.spec_tag_to_le(t as int) + old(buffer)@.skip(
                self.spec_size() as int,
            ),
    {
        let n = self.size();
        proof {
            lemma_pow256_values();
        }
        let bits: u128 = match self {
            Repr::U8 | Repr::U16 | Repr::U32 | Repr::U64 | Repr::U128 => t as u128,
            Repr::I8 => (if t >= 0 {
                t
            } else {
                t + 256
            }) as u128,
            Repr::I16 => (if t >= 0 {
                t
            } else {
                t + 65536
            }) as u128,
            Repr::I32 => (if t >= 0 {
                t
            } else {
                t + 4294967296
            }) as u128,
            Repr::I64 => (if t >= 0 {
                t
            } else {
                t + 18446744073709551616
            }) as u128,
            Repr::I128 => if t >= 0 {
                t as u128
            } else {
                u128::MAX - ((-(t + 1)) as u128)
            },
            Repr::Usize | Repr::Isize | Repr::NotSupported => {
                proof {
                    assert(false);
                }
                0
            },
        };
        proof {
            assert(bits as nat == self.spec_tag_bits(t as int));
        }
        write_le_chunk(bits, n, buffer);
    }

    /// Write the big-endian image of the tag `t` over the front of
    /// `buffer`; bytes past `spec_size()` are untouched.
    pub fn encode_tag_be(&self, t: i128, buffer: &mut [u8])
        requires
            self.spec_is_pod(),
            self.spec_in_range(t as int),
            old(buffer)@.len() >= self.spec_size(),
        ensures
            final(buffer)@ == self.spec_tag_to_be(t as int) + old(buffer)@.skip(
                self.spec_size() as int,
            ),
    {
        let n = self.size();
        proof {
            lemma_pow256_values();
        }
        let bits: u128 = match self {
            Repr::U8 | Repr::U16 | Repr::U32 | Repr::U64 | Repr::U128 => t as u128,
            Repr::I8 => (if t >= 0 {
                t
            } else {
                t + 256
            }) as u128,
            Repr::I16 => (if t >= 0 {
                t
            } else {
                t + 65536
            }) as u128,
            Repr::I32 => (if t >= 0 {
                t
            } else {
                t + 4294967296
            }) as u128,
            Repr::I64 => (if t >= 0 {
                t
            } else {
                t + 18446744073709551616
            }) as u128,
            Repr::I128 => if t >= 0 {
                t as u128
            } else {
                u128::MAX - ((-(t + 1)) as u128)
            },
            Repr::Usize | Repr::Isize | Repr::NotSupported => {
                proof {
                    assert(false);
                }
                0
            },
        };
        proof {
            assert(bits as nat == self.spec_tag_bits(t as int));
        }
        write_be_chunk(bits, n, buffer);
    }
}

} // verus!
