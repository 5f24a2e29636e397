//! The primitive codec library: [`Pod`] for `bool` and the fixed-width
//! integers, built on the byte-level model in [`crate::wire`].

use vstd::prelude::*;

use crate::pod::{Pod, PodError};
use crate::wire::{
    pow256, le_nat, be_nat, nat_to_le, nat_to_be, ibits, lemma_pow256_values, lemma_le_nat_bound,
    lemma_be_nat_bound, lemma_nat_to_le_len, lemma_nat_to_be_len, lemma_nat_to_le_of_le_nat,
    lemma_nat_to_be_of_be_nat, lemma_nat_to_le_injective, lemma_nat_to_be_injective,
    lemma_ibits_injective, lemma_sint_of_ibits, read_le_chunk, read_be_chunk, write_le_chunk,
    write_be_chunk,
};

verus! {

impl Pod for bool {
    open spec fn spec_size() -> nat {
        1
    }

    fn size() -> usize {
        1
    }

    open spec fn spec_to_le(self) -> Seq<u8> {
        seq![if self { 1u8 } else { 0u8 }]
    }

    open spec fn spec_to_be(self) -> Seq<u8> {
        seq![if self { 1u8 } else { 0u8 }]
    }

    proof fn lemma_to_le_len(self) {
    }

    proof fn lemma_to_be_len(self) {
    }

    proof fn lemma_to_le_injective(a: bool, b: bool) {
        if a != b {
            let sa = a.spec_to_le();
            let sb = b.spec_to_le();
            assert(sa[0] == (if a { 1u8 } else { 0u8 }));
            assert(sb[0] == (if b { 1u8 } else { 0u8 }));
            assert(sa[0] == sb[0]);
            assert(false);
        }
    }

    proof fn lemma_to_be_injective(a: bool, b: bool) {
        if a != b {
            let sa = a.spec_to_be();
            let sb = b.spec_to_be();
            assert(sa[0] == (if a { 1u8 } else { 0u8 }));
            assert(sb[0] == (if b { 1u8 } else { 0u8 }));
            assert(sa[0] == sb[0]);
            assert(false);
        }
    }

    fn from_le_bytes(buffer: &[u8]) -> (r: Result<bool, PodError>) {
        if buffer.len() < 1 {
            return Err(PodError::OutOfSpace);
        }
        let ghost s = buffer@.take(1);
        let b = buffer[0];
        if b == 0 {
            proof {
                assert(false.spec_to_le() =~= s);
            }
            Ok(false)
        } else if b == 1 {
            proof {
                assert(true.spec_to_le() =~= s);
            }
            Ok(true)
        } else {
            proof {
                assert forall|v: bool| (#[trigger] v.spec_to_le()) != s by {
                    assert(v.spec_to_le()[0] != s[0]);
                }
            }
            Err(PodError::OutOfRange)
        }
    }

    fn from_be_bytes(buffer: &[u8]) -> (r: Result<bool, PodError>) {
        if buffer.len() < 1 {
            return Err(PodError::OutOfSpace);
        }
        let ghost s = buffer@.take(1);
        let b = buffer[0];
        if b == 0 {
            proof {
                assert(false.spec_to_be() =~= s);
            }
            Ok(false)
        } else if b == 1 {
            proof {
                assert(true.spec_to_be() =~= s);
            }
            Ok(true)
        } else {
            proof {
                assert forall|v: bool| (#[trigger] v.spec_to_be()) != s by {
                    assert(v.spec_to_be()[0] != s[0]);
                }
            }
            Err(PodError::OutOfRange)
        }
    }

    fn to_le_bytes(&self, buffer: &mut [u8]) -> (r: Result<usize, PodError>) {
        if buffer.len() < 1 {
            return Err(PodError::OutOfSpace);
        }
        if *self {
            buffer[0] = 1;
        } else {
            buffer[0] = 0;
        }
        proof {
            assert(buffer@ =~= self.spec_to_le() + old(buffer)@.skip(1));
        }
        Ok(1)
    }

    fn to_be_bytes(&self, buffer: &mut [u8]) -> (r: Result<usize, PodError>) {
        if buffer.len() < 1 {
            return Err(PodError::OutOfSpace);
        }
        if *self {
            buffer[0] = 1;
        } else {
            buffer[0] = 0;
        }
        proof {
            assert(buffer@ =~= self.spec_to_be() + old(buffer)@.skip(1));
        }
        Ok(1)
    }
}

impl Pod for u16 {
    open spec fn spec_size() -> nat {
        2
    }

    fn size() -> usize {
        2
    }

    open spec fn spec_to_le(self) -> Seq<u8> {
        nat_to_le(self as nat, 2)
    }

    open spec fn spec_to_be(self) -> Seq<u8> {
        nat_to_be(self as nat, 2)
    }

    proof fn lemma_to_le_len(self) {
        lemma_nat_to_le_len(self as nat, 2);
    }

    proof fn lemma_to_be_len(self) {
        lemma_nat_to_be_len(self as nat, 2);
    }

    proof fn lemma_to_le_injective(a: u16, b: u16) {
        lemma_pow256_values();
        lemma_nat_to_le_injective(a as nat, b as nat, 2);
    }

    proof fn lemma_to_be_injective(a: u16, b: u16) {
        lemma_pow256_values();
        lemma_nat_to_be_injective(a as nat, b as nat, 2);
    }

    fn from_le_bytes(buffer: &[u8]) -> (r: Result<u16, PodError>) {
        if buffer.len() < 2 {
            return Err(PodError::OutOfSpace);
        }
        let ghost s = buffer@.take(2);
        let x = read_le_chunk(buffer, 2);
        proof {
            lemma_le_nat_bound(s);
            lemma_pow256_values();
        }
        let v = x as u16;
        proof {
            lemma_nat_to_le_of_le_nat(s);
        }
        Ok(v)
    }

    fn from_be_bytes(buffer: &[u8]) -> (r: Result<u16, PodError>) {
        if buffer.len() < 2 {
            return Err(PodError::OutOfSpace);
        }
        let ghost s = buffer@.take(2);
        let x = read_be_chunk(buffer, 2);
        proof {
            lemma_be_nat_bound(s);
            lemma_pow256_values();
        }
        let v = x as u16;
        proof {
            lemma_nat_to_be_of_be_nat(s);
        }
        Ok(v)
    }

    fn to_le_bytes(&self, buffer: &mut [u8]) -> (r: Result<usize, PodError>) {
        if buffer.len() < 2 {
            return Err(PodError::OutOfSpace);
        }
        write_le_chunk(*self as u128, 2, buffer);
        Ok(2)
    }

    fn to_be_bytes(&self, buffer: &mut [u8]) -> (r: Result<usize, PodError>) {
        if buffer.len() < 2 {
            return Err(PodError::OutOfSpace);
        }
        write_be_chunk(*self as u128, 2, buffer);
        Ok(2)
    }
}


impl Pod for u8 {
    open spec fn spec_size() -> nat {
        1
    }

    fn size() -> usize {
        1
    }

    open spec fn spec_to_le(self) -> Seq<u8> {
        nat_to_le(self as nat, 1)
    }

    open spec fn spec_to_be(self) -> Seq<u8> {
        nat_to_be(self as nat, 1)
    }

    proof fn lemma_to_le_len(self) {
        lemma_nat_to_le_len(self as nat, 1);
    }

    proof fn lemma_to_be_len(self) {
        lemma_nat_to_be_len(self as nat, 1);
    }

    proof fn lemma_to_le_injective(a: u8, b: u8) {
        lemma_pow256_values();
        lemma_nat_to_le_injective(a as nat, b as nat, 1);
    }

    proof fn lemma_to_be_injective(a: u8, b: u8) {
        lemma_pow256_values();
        lemma_nat_to_be_injective(a as nat, b as nat, 1);
    }

    fn from_le_bytes(buffer: &[u8]) -> (r: Result<u8, PodError>) {
        if buffer.len() < 1 {
            return Err(PodError::OutOfSpace);
        }
        let ghost s = buffer@.take(1);
        let x = read_le_chunk(buffer, 1);
        proof {
            lemma_le_nat_bound(s);
            lemma_pow256_values();
        }
        let v = x as u8;
        proof {
            lemma_nat_to_le_of_le_nat(s);
        }
        Ok(v)
    }

    fn from_be_bytes(buffer: &[u8]) -> (r: Result<u8, PodError>) {
        if buffer.len() < 1 {
            return Err(PodError::OutOfSpace);
        }
        let ghost s = buffer@.take(1);
        let x = read_be_chunk(buffer, 1);
        proof {
            lemma_be_nat_bound(s);
            lemma_pow256_values();
        }
        let v = x as u8;
        proof {
            lemma_nat_to_be_of_be_nat(s);
        }
        Ok(v)
    }

    fn to_le_bytes(&self, buffer: &mut [u8]) -> (r: Result<usize, PodError>) {
        if buffer.len() < 1 {
            return Err(PodError::OutOfSpace);
        }
        write_le_chunk(*self as u128, 1, buffer);
        Ok(1)
    }

    fn to_be_bytes(&self, buffer: &mut [u8]) -> (r: Result<usize, PodError>) {
        if buffer.len() < 1 {
            return Err(PodError::OutOfSpace);
        }
        write_be_chunk(*self as u128, 1, buffer);
        Ok(1)
    }
}

impl Pod for u32 {
    open spec fn spec_size() -> nat {
        4
    }

    fn size() -> usize {
        4
    }

    open spec fn spec_to_le(self) -> Seq<u8> {
        nat_to_le(self as nat, 4)
    }

    open spec fn spec_to_be(self) -> Seq<u8> {
        nat_to_be(self as nat, 4)
    }

    proof fn lemma_to_le_len(self) {
        lemma_nat_to_le_len(self as nat, 4);
    }

    proof fn lemma_to_be_len(self) {
        lemma_nat_to_be_len(self as nat, 4);
    }

    proof fn lemma_to_le_injective(a: u32, b: u32) {
        lemma_pow256_values();
        lemma_nat_to_le_injective(a as nat, b as nat, 4);
    }

    proof fn lemma_to_be_injective(a: u32, b: u32) {
        lemma_pow256_values();
        lemma_nat_to_be_injective(a as nat, b as nat, 4);
    }

    fn from_le_bytes(buffer: &[u8]) -> (r: Result<u32, PodError>) {
        if buffer.len() < 4 {
            return Err(PodError::OutOfSpace);
        }
        let ghost s = buffer@.take(4);
        let x = read_le_chunk(buffer, 4);
        proof {
            lemma_le_nat_bound(s);
            lemma_pow256_values();
        }
        let v = x as u32;
        proof {
            lemma_nat_to_le_of_le_nat(s);
        }
        Ok(v)
    }

    fn from_be_bytes(buffer: &[u8]) -> (r: Result<u32, PodError>) {
        if buffer.len() < 4 {
            return Err(PodError::OutOfSpace);
        }
        let ghost s = buffer@.take(4);
        let x = read_be_chunk(buffer, 4);
        proof {
            lemma_be_nat_bound(s);
            lemma_pow256_values();
        }
        let v = x as u32;
        proof {
            lemma_nat_to_be_of_be_nat(s);
        }
        Ok(v)
    }

    fn to_le_bytes(&self, buffer: &mut [u8]) -> (r: Result<usize, PodError>) {
        if buffer.len() < 4 {
            return Err(PodError::OutOfSpace);
        }
        write_le_chunk(*self as u128, 4, buffer);
        Ok(4)
    }

    fn to_be_bytes(&self, buffer: &mut [u8]) -> (r: Result<usize, PodError>) {
        if buffer.len() < 4 {
            return Err(PodError::OutOfSpace);
        }
        write_be_chunk(*self as u128, 4, buffer);
        Ok(4)
    }
}

impl Pod for u64 {
    open spec fn spec_size() -> nat {
        8
    }

    fn size() -> usize {
        8
    }

    open spec fn spec_to_le(self) -> Seq<u8> {
        nat_to_le(self as nat, 8)
    }

    open spec fn spec_to_be(self) -> Seq<u8> {
        nat_to_be(self as nat, 8)
    }

    proof fn lemma_to_le_len(self) {
        lemma_nat_to_le_len(self as nat, 8);
    }

    proof fn lemma_to_be_len(self) {
        lemma_nat_to_be_len(self as nat, 8);
    }

    proof fn lemma_to_le_injective(a: u64, b: u64) {
        lemma_pow256_values();
        lemma_nat_to_le_injective(a as nat, b as nat, 8);
    }

    proof fn lemma_to_be_injective(a: u64, b: u64) {
        lemma_pow256_values();
        lemma_nat_to_be_injective(a as nat, b as nat, 8);
    }

    fn from_le_bytes(buffer: &[u8]) -> (r: Result<u64, PodError>) {
        if buffer.len() < 8 {
            return Err(PodError::OutOfSpace);
        }
        let ghost s = buffer@.take(8);
        let x = read_le_chunk(buffer, 8);
        proof {
            lemma_le_nat_bound(s);
            lemma_pow256_values();
        }
        let v = x as u64;
        proof {
            lemma_nat_to_le_of_le_nat(s);
        }
        Ok(v)
    }

    fn from_be_bytes(buffer: &[u8]) -> (r: Result<u64, PodError>) {
        if buffer.len() < 8 {
            return Err(PodError::OutOfSpace);
        }
        let ghost s = buffer@.take(8);
        let x = read_be_chunk(buffer, 8);
        proof {
            lemma_be_nat_bound(s);
            lemma_pow256_values();
        }
        let v = x as u64;
        proof {
            lemma_nat_to_be_of_be_nat(s);
        }
        Ok(v)
    }

    fn to_le_bytes(&self, buffer: &mut [u8]) -> (r: Result<usize, PodError>) {
        if buffer.len() < 8 {
            return Err(PodError::OutOfSpace);
        }
        write_le_chunk(*self as u128, 8, buffer);
        Ok(8)
    }

    fn to_be_bytes(&self, buffer: &mut [u8]) -> (r: Result<usize, PodError>) {
        if buffer.len() < 8 {
            return Err(PodError::OutOfSpace);
        }
        write_be_chunk(*self as u128, 8, buffer);
        Ok(8)
    }
}

impl Pod for u128 {
    open spec fn spec_size() -> nat {
        16
    }

    fn size() -> usize {
        16
    }

    open spec fn spec_to_le(self) -> Seq<u8> {
        nat_to_le(self as nat, 16)
    }

    open spec fn spec_to_be(self) -> Seq<u8> {
        nat_to_be(self as nat, 16)
    }

    proof fn lemma_to_le_len(self) {
        lemma_nat_to_le_len(self as nat, 16);
    }

    proof fn lemma_to_be_len(self) {
        lemma_nat_to_be_len(self as nat, 16);
    }

    proof fn lemma_to_le_injective(a: u128, b: u128) {
        lemma_pow256_values();
        lemma_nat_to_le_injective(a as nat, b as nat, 16);
    }

    proof fn lemma_to_be_injective(a: u128, b: u128) {
        lemma_pow256_values();
        lemma_nat_to_be_injective(a as nat, b as nat, 16);
    }

    fn from_le_bytes(buffer: &[u8]) -> (r: Result<u128, PodError>) {
        if buffer.len() < 16 {
            return Err(PodError::OutOfSpace);
        }
        let ghost s = buffer@.take(16);
        let x = read_le_chunk(buffer, 16);
        proof {
            lemma_le_nat_bound(s);
            lemma_pow256_values();
        }
        let v = x;
        proof {
            lemma_nat_to_le_of_le_nat(s);
        }
        Ok(v)
    }

    fn from_be_bytes(buffer: &[u8]) -> (r: Result<u128, PodError>) {
        if buffer.len() < 16 {
            return Err(PodError::OutOfSpace);
        }
        let ghost s = buffer@.take(16);
        let x = read_be_chunk(buffer, 16);
        proof {
            lemma_be_nat_bound(s);
            lemma_pow256_values();
        }
        let v = x;
        proof {
            lemma_nat_to_be_of_be_nat(s);
        }
        Ok(v)
    }

    fn to_le_bytes(&self, buffer: &mut [u8]) -> (r: Result<usize, PodError>) {
        if buffer.len() < 16 {
            return Err(PodError::OutOfSpace);
        }
        write_le_chunk(*self as u128, 16, buffer);
        Ok(16)
    }

    fn to_be_bytes(&self, buffer: &mut [u8]) -> (r: Result<usize, PodError>) {
        if buffer.len() < 16 {
            return Err(PodError::OutOfSpace);
        }
        write_be_chunk(*self as u128, 16, buffer);
        Ok(16)
    }
}

impl Pod for i8 {
    open spec fn spec_size() -> nat {
        1
    }

    fn size() -> usize {
        1
    }

    open spec fn spec_to_le(self) -> Seq<u8> {
        nat_to_le(ibits(self as int, 1), 1)
    }

    open spec fn spec_to_be(self) -> Seq<u8> {
        nat_to_be(ibits(self as int, 1), 1)
    }

    proof fn lemma_to_le_len(self) {
        lemma_nat_to_le_len(ibits(self as int, 1), 1);
    }

    proof fn lemma_to_be_len(self) {
        lemma_nat_to_be_len(ibits(self as int, 1), 1);
    }

    proof fn lemma_to_le_injective(a: i8, b: i8) {
        lemma_pow256_values();
        lemma_sint_of_ibits(a as int, 1);
        lemma_sint_of_ibits(b as int, 1);
        lemma_nat_to_le_injective(ibits(a as int, 1), ibits(b as int, 1), 1);
        lemma_ibits_injective(a as int, b as int, 1);
    }

    proof fn lemma_to_be_injective(a: i8, b: i8) {
        lemma_pow256_values();
        lemma_sint_of_ibits(a as int, 1);
        lemma_sint_of_ibits(b as int, 1);
        lemma_nat_to_be_injective(ibits(a as int, 1), ibits(b as int, 1), 1);
        lemma_ibits_injective(a as int, b as int, 1);
    }

    fn from_le_bytes(buffer: &[u8]) -> (r: Result<i8, PodError>) {
        if buffer.len() < 1 {
            return Err(PodError::OutOfSpace);
        }
        let ghost s = buffer@.take(1);
        let x = read_le_chunk(buffer, 1);
        proof {
            lemma_le_nat_bound(s);
            lemma_pow256_values();
        }
        let v: i8 = if x < 128 {
            x as i8
        } else {
            ((x - 128) as i8) + i8::MIN
        };
        proof {
            assert(ibits(v as int, 1) == x as nat);
            lemma_nat_to_le_of_le_nat(s);
        }
        Ok(v)
    }

    fn from_be_bytes(buffer: &[u8]) -> (r: Result<i8, PodError>) {
        if buffer.len() < 1 {
            return Err(PodError::OutOfSpace);
        }
        let ghost s = buffer@.take(1);
        let x = read_be_chunk(buffer, 1);
        proof {
            lemma_be_nat_bound(s);
            lemma_pow256_values();
        }
        let v: i8 = if x < 128 {
            x as i8
        } else {
            ((x - 128) as i8) + i8::MIN
        };
        proof {
            assert(ibits(v as int, 1) == x as nat);
            lemma_nat_to_be_of_be_nat(s);
        }
        Ok(v)
    }

    fn to_le_bytes(&self, buffer: &mut [u8]) -> (r: Result<usize, PodError>) {
        if buffer.len() < 1 {
            return Err(PodError::OutOfSpace);
        }
        let bits: u128 = {
            let w: i16 = *self as i16;
            if w >= 0 {
                w as u128
            } else {
                (w + 256) as u128
            }
        };
        proof {
            lemma_pow256_values();
            assert(bits as nat == ibits(*self as int, 1));
        }
        write_le_chunk(bits, 1, buffer);
        Ok(1)
    }

    fn to_be_bytes(&self, buffer: &mut [u8]) -> (r: Result<usize, PodError>) {
        if buffer.len() < 1 {
            return Err(PodError::OutOfSpace);
        }
        let bits: u128 = {
            let w: i16 = *self as i16;
            if w >= 0 {
                w as u128
            } else {
                (w + 256) as u128
            }
        };
        proof {
            lemma_pow256_values();
            assert(bits as nat == ibits(*self as int, 1));
        }
        write_be_chunk(bits, 1, buffer);
        Ok(1)
    }
}

impl Pod for i16 {
    open spec fn spec_size() -> nat {
        2
    }

    fn size() -> usize {
        2
    }

    open spec fn spec_to_le(self) -> Seq<u8> {
        nat_to_le(ibits(self as int, 2), 2)
    }

    open spec fn spec_to_be(self) -> Seq<u8> {
        nat_to_be(ibits(self as int, 2), 2)
    }

    proof fn lemma_to_le_len(self) {
        lemma_nat_to_le_len(ibits(self as int, 2), 2);
    }

    proof fn lemma_to_be_len(self) {
        lemma_nat_to_be_len(ibits(self as int, 2), 2);
    }

    proof fn lemma_to_le_injective(a: i16, b: i16) {
        lemma_pow256_values();
        lemma_sint_of_ibits(a as int, 2);
        lemma_sint_of_ibits(b as int, 2);
        lemma_nat_to_le_injective(ibits(a as int, 2), ibits(b as int, 2), 2);
        lemma_ibits_injective(a as int, b as int, 2);
    }

    proof fn lemma_to_be_injective(a: i16, b: i16) {
        lemma_pow256_values();
        lemma_sint_of_ibits(a as int, 2);
        lemma_sint_of_ibits(b as int, 2);
        lemma_nat_to_be_injective(ibits(a as int, 2), ibits(b as int, 2), 2);
        lemma_ibits_injective(a as int, b as int, 2);
    }

    fn from_le_bytes(buffer: &[u8]) -> (r: Result<i16, PodError>) {
        if buffer.len() < 2 {
            return Err(PodError::OutOfSpace);
        }
        let ghost s = buffer@.take(2);
        let x = read_le_chunk(buffer, 2);
        proof {
            lemma_le_nat_bound(s);
            lemma_pow256_values();
        }
        let v: i16 = if x < 32768 {
            x as i16
        } else {
            ((x - 32768) as i16) + i16::MIN
        };
        proof {
            assert(ibits(v as int, 2) == x as nat);
            lemma_nat_to_le_of_le_nat(s);
        }
        Ok(v)
    }

    fn from_be_bytes(buffer: &[u8]) -> (r: Result<i16, PodError>) {
        if buffer.len() < 2 {
            return Err(PodError::OutOfSpace);
        }
        let ghost s = buffer@.take(2);
        let x = read_be_chunk(buffer, 2);
        proof {
            lemma_be_nat_bound(s);
            lemma_pow256_values();
        }
        let v: i16 = if x < 32768 {
            x as i16
        } else {
            ((x - 32768) as i16) + i16::MIN
        };
        proof {
            assert(ibits(v as int, 2) == x as nat);
            lemma_nat_to_be_of_be_nat(s);
        }
        Ok(v)
    }

    fn to_le_bytes(&self, buffer: &mut [u8]) -> (r: Result<usize, PodError>) {
        if buffer.len() < 2 {
            return Err(PodError::OutOfSpace);
        }
        let bits: u128 = {
            let w: i32 = *self as i32;
            if w >= 0 {
                w as u128
            } else {
                (w + 65536) as u128
            }
        };
        proof {
            lemma_pow256_values();
            assert(bits as nat == ibits(*self as int, 2));
        }
        write_le_chunk(bits, 2, buffer);
        Ok(2)
    }

    fn to_be_bytes(&self, buffer: &mut [u8]) -> (r: Result<usize, PodError>) {
        if buffer.len() < 2 {
            return Err(PodError::OutOfSpace);
        }
        let bits: u128 = {
            let w: i32 = *self as i32;
            if w >= 0 {
                w as u128
            } else {
                (w + 65536) as u128
            }
        };
        proof {
            lemma_pow256_values();
            assert(bits as nat == ibits(*self as int, 2));
        }
        write_be_chunk(bits, 2, buffer);
        Ok(2)
    }
}

impl Pod for i32 {
    open spec fn spec_size() -> nat {
        4
    }

    fn size() -> usize {
        4
    }

    open spec fn spec_to_le(self) -> Seq<u8> {
        nat_to_le(ibits(self as int, 4), 4)
    }

    open spec fn spec_to_be(self) -> Seq<u8> {
        nat_to_be(ibits(self as int, 4), 4)
    }

    proof fn lemma_to_le_len(self) {
        lemma_nat_to_le_len(ibits(self as int, 4), 4);
    }

    proof fn lemma_to_be_len(self) {
        lemma_nat_to_be_len(ibits(self as int, 4), 4);
    }

    proof fn lemma_to_le_injective(a: i32, b: i32) {
        lemma_pow256_values();
        lemma_sint_of_ibits(a as int, 4);
        lemma_sint_of_ibits(b as int, 4);
        lemma_nat_to_le_injective(ibits(a as int, 4), ibits(b as int, 4), 4);
        lemma_ibits_injective(a as int, b as int, 4);
    }

    proof fn lemma_to_be_injective(a: i32, b: i32) {
        lemma_pow256_values();
        lemma_sint_of_ibits(a as int, 4);
        lemma_sint_of_ibits(b as int, 4);
        lemma_nat_to_be_injective(ibits(a as int, 4), ibits(b as int, 4), 4);
        lemma_ibits_injective(a as int, b as int, 4);
    }

    fn from_le_bytes(buffer: &[u8]) -> (r: Result<i32, PodError>) {
        if buffer.len() < 4 {
            return Err(PodError::OutOfSpace);
        }
        let ghost s = buffer@.take(4);
        let x = read_le_chunk(buffer, 4);
        proof {
            lemma_le_nat_bound(s);
            lemma_pow256_values();
        }
        let v: i32 = if x < 2147483648 {
            x as i32
        } else {
            ((x - 2147483648) as i32) + i32::MIN
        };
        proof {
            assert(ibits(v as int, 4) == x as nat);
            lemma_nat_to_le_of_le_nat(s);
        }
        Ok(v)
    }

    fn from_be_bytes(buffer: &[u8]) -> (r: Result<i32, PodError>) {
        if buffer.len() < 4 {
            return Err(PodError::OutOfSpace);
        }
        let ghost s = buffer@.take(4);
        let x = read_be_chunk(buffer, 4);
        proof {
            lemma_be_nat_bound(s);
            lemma_pow256_values();
        }
        let v: i32 = if x < 2147483648 {
            x as i32
        } else {
            ((x - 2147483648) as i32) + i32::MIN
        };
        proof {
            assert(ibits(v as int, 4) == x as nat);
            lemma_nat_to_be_of_be_nat(s);
        }
        Ok(v)
    }

    fn to_le_bytes(&self, buffer: &mut [u8]) -> (r: Result<usize, PodError>) {
        if buffer.len() < 4 {
            return Err(PodError::OutOfSpace);
        }
        let bits: u128 = {
            let w: i64 = *self as i64;
            if w >= 0 {
                w as u128
            } else {
                (w + 4294967296) as u128
            }
        };
        proof {
            lemma_pow256_values();
            assert(bits as nat == ibits(*self as int, 4));
        }
        write_le_chunk(bits, 4, buffer);
        Ok(4)
    }

    fn to_be_bytes(&self, buffer: &mut [u8]) -> (r: Result<usize, PodError>) {
        if buffer.len() < 4 {
            return Err(PodError::OutOfSpace);
        }
        let bits: u128 = {
            let w: i64 = *self as i64;
            if w >= 0 {
                w as u128
            } else {
                (w + 4294967296) as u128
            }
        };
        proof {
            lemma_pow256_values();
            assert(bits as nat == ibits(*self as int, 4));
        }
        write_be_chunk(bits, 4, buffer);
        Ok(4)
    }
}

impl Pod for i64 {
    open spec fn spec_size() -> nat {
        8
    }

    fn size() -> usize {
        8
    }

    open spec fn spec_to_le(self) -> Seq<u8> {
        nat_to_le(ibits(self as int, 8), 8)
    }

    open spec fn spec_to_be(self) -> Seq<u8> {
        nat_to_be(ibits(self as int, 8), 8)
    }

    proof fn lemma_to_le_len(self) {
        lemma_nat_to_le_len(ibits(self as int, 8), 8);
    }

    proof fn lemma_to_be_len(self) {
        lemma_nat_to_be_len(ibits(self as int, 8), 8);
    }

    proof fn lemma_to_le_injective(a: i64, b: i64) {
        lemma_pow256_values();
        lemma_sint_of_ibits(a as int, 8);
        lemma_sint_of_ibits(b as int, 8);
        lemma_nat_to_le_injective(ibits(a as int, 8), ibits(b as int, 8), 8);
        lemma_ibits_injective(a as int, b as int, 8);
    }

    proof fn lemma_to_be_injective(a: i64, b: i64) {
        lemma_pow256_values();
        lemma_sint_of_ibits(a as int, 8);
        lemma_sint_of_ibits(b as int, 8);
        lemma_nat_to_be_injective(ibits(a as int, 8), ibits(b as int, 8), 8);
        lemma_ibits_injective(a as int, b as int, 8);
    }

    fn from_le_bytes(buffer: &[u8]) -> (r: Result<i64, PodError>) {
        if buffer.len() < 8 {
            return Err(PodError::OutOfSpace);
        }
        let ghost s = buffer@.take(8);
        let x = read_le_chunk(buffer, 8);
        proof {
            lemma_le_nat_bound(s);
            lemma_pow256_values();
        }
        let v: i64 = if x < 9223372036854775808 {
            x as i64
        } else {
            ((x - 9223372036854775808) as i64) + i64::MIN
        };
        proof {
            assert(ibits(v as int, 8) == x as nat);
            lemma_nat_to_le_of_le_nat(s);
        }
        Ok(v)
    }

    fn from_be_bytes(buffer: &[u8]) -> (r: Result<i64, PodError>) {
        if buffer.len() < 8 {
            return Err(PodError::OutOfSpace);
        }
        let ghost s = buffer@.take(8);
        let x = read_be_chunk(buffer, 8);
        proof {
            lemma_be_nat_bound(s);
            lemma_pow256_values();
        }
        let v: i64 = if x < 9223372036854775808 {
            x as i64
        } else {
            ((x - 9223372036854775808) as i64) + i64::MIN
        };
        proof {
            assert(ibits(v as int, 8) == x as nat);
            lemma_nat_to_be_of_be_nat(s);
        }
        Ok(v)
    }

    fn to_le_bytes(&self, buffer: &mut [u8]) -> (r: Result<usize, PodError>) {
        if buffer.len() < 8 {
            return Err(PodError::OutOfSpace);
        }
        let bits: u128 = {
            let w: i128 = *self as i128;
            if w >= 0 {
                w as u128
            } else {
                (w + 18446744073709551616) as u128
            }
        };
        proof {
            lemma_pow256_values();
            assert(bits as nat == ibits(*self as int, 8));
        }
        write_le_chunk(bits, 8, buffer);
        Ok(8)
    }

    fn to_be_bytes(&self, buffer: &mut [u8]) -> (r: Result<usize, PodError>) {
        if buffer.len() < 8 {
            return Err(PodError::OutOfSpace);
        }
        let bits: u128 = {
            let w: i128 = *self as i128;
            if w >= 0 {
                w as u128
            } else {
                (w + 18446744073709551616) as u128
            }
        };
        proof {
            lemma_pow256_values();
            assert(bits as nat == ibits(*self as int, 8));
        }
        write_be_chunk(bits, 8, buffer);
        Ok(8)
    }
}

impl Pod for i128 {
    open spec fn spec_size() -> nat {
        16
    }

    fn size() -> usize {
        16
    }

    open spec fn spec_to_le(self) -> Seq<u8> {
        nat_to_le(ibits(self as int, 16), 16)
    }

    open spec fn spec_to_be(self) -> Seq<u8> {
        nat_to_be(ibits(self as int, 16), 16)
    }

    proof fn lemma_to_le_len(self) {
        lemma_nat_to_le_len(ibits(self as int, 16), 16);
    }

    proof fn lemma_to_be_len(self) {
        lemma_nat_to_be_len(ibits(self as int, 16), 16);
    }

    proof fn lemma_to_le_injective(a: i128, b: i128) {
        lemma_pow256_values();
        lemma_sint_of_ibits(a as int, 16);
        lemma_sint_of_ibits(b as int, 16);
        lemma_nat_to_le_injective(ibits(a as int, 16), ibits(b as int, 16), 16);
        lemma_ibits_injective(a as int, b as int, 16);
    }

    proof fn lemma_to_be_injective(a: i128, b: i128) {
        lemma_pow256_values();
        lemma_sint_of_ibits(a as int, 16);
        lemma_sint_of_ibits(b as int, 16);
        lemma_nat_to_be_injective(ibits(a as int, 16), ibits(b as int, 16), 16);
        lemma_ibits_injective(a as int, b as int, 16);
    }

    fn from_le_bytes(buffer: &[u8]) -> (r: Result<i128, PodError>) {
        if buffer.len() < 16 {
            return Err(PodError::OutOfSpace);
        }
        let ghost s = buffer@.take(16);
        let x = read_le_chunk(buffer, 16);
        proof {
            lemma_le_nat_bound(s);
            lemma_pow256_values();
        }
        let v: i128 = if x < 170141183460469231731687303715884105728 {
            x as i128
        } else {
            ((x - 170141183460469231731687303715884105728) as i128) + i128::MIN
        };
        proof {
            assert(ibits(v as int, 16) == x as nat);
            lemma_nat_to_le_of_le_nat(s);
        }
        Ok(v)
    }

    fn from_be_bytes(buffer: &[u8]) -> (r: Result<i128, PodError>) {
        if buffer.len() < 16 {
            return Err(PodError::OutOfSpace);
        }
        let ghost s = buffer@.take(16);
        let x = read_be_chunk(buffer, 16);
        proof {
            lemma_be_nat_bound(s);
            lemma_pow256_values();
        }
        let v: i128 = if x < 170141183460469231731687303715884105728 {
            x as i128
        } else {
            ((x - 170141183460469231731687303715884105728) as i128) + i128::MIN
        };
        proof {
            assert(ibits(v as int, 16) == x as nat);
            lemma_nat_to_be_of_be_nat(s);
        }
        Ok(v)
    }

    fn to_le_bytes(&self, buffer: &mut [u8]) -> (r: Result<usize, PodError>) {
        if buffer.len() < 16 {
            return Err(PodError::OutOfSpace);
        }
        let bits: u128 = if *self >= 0 {
            *self as u128
        } else {
            u128::MAX - ((-(*self + 1)) as u128)
        };
        proof {
            lemma_pow256_values();
            assert(bits as nat == ibits(*self as int, 16));
        }
        write_le_chunk(bits, 16, buffer);
        Ok(16)
    }

    fn to_be_bytes(&self, buffer: &mut [u8]) -> (r: Result<usize, PodError>) {
        if buffer.len() < 16 {
            return Err(PodError::OutOfSpace);
        }
        let bits: u128 = if *self >= 0 {
            *self as u128
        } else {
            u128::MAX - ((-(*self + 1)) as u128)
        };
        proof {
            lemma_pow256_values();
            assert(bits as nat == ibits(*self as int, 16));
        }
        write_be_chunk(bits, 16, buffer);
        Ok(16)
    }
}

} // verus!
