//! [`Pod`] and [`Zeroable`] for fixed-length arrays of codecable,
//! copyable elements: the byte size is `N` times the element size, and the
//! byte image is the concatenation of the element images in index order.

use vstd::prelude::*;

use crate::pod::{Pod, PodError};
use crate::zeroable::Zeroable;

verus! {

broadcast use vstd::array::group_array_axioms;

/// Flat little-endian image of a sequence of elements, in index order.
pub open spec fn seq_to_le<T: Pod>(s: Seq<T>) -> Seq<u8>
    decreases s.len(),
{
    if s.len() == 0 {
        Seq::empty()
    } else {
        s[0].spec_to_le() + seq_to_le(s.drop_first())
    }
}

/// Flat big-endian image of a sequence of elements, in index order.
pub open spec fn seq_to_be<T: Pod>(s: Seq<T>) -> Seq<u8>
    decreases s.len(),
{
    if s.len() == 0 {
        Seq::empty()
    } else {
        s[0].spec_to_be() + seq_to_be(s.drop_first())
    }
}

pub proof fn lemma_seq_to_le_len<T: Pod>(s: Seq<T>)
    ensures
        seq_to_le(s).len() == s.len() * T::spec_size(),
    decreases s.len(),
{
    if s.len() == 0 {
        assert(s.len() * T::spec_size() == 0) by (nonlinear_arith)
            requires
                s.len() == 0,
        ;
    } else {
        s[0].lemma_to_le_len();
        lemma_seq_to_le_len::<T>(s.drop_first());
        assert(T::spec_size() + (s.len() - 1) * T::spec_size() == s.len() * T::spec_size())
            by (nonlinear_arith);
    }
}

pub proof fn lemma_seq_to_be_len<T: Pod>(s: Seq<T>)
    ensures
        seq_to_be(s).len() == s.len() * T::spec_size(),
    decreases s.len(),
{
    if s.len() == 0 {
        assert(s.len() * T::spec_size() == 0) by (nonlinear_arith)
            requires
                s.len() == 0,
        ;
    } else {
        s[0].lemma_to_be_len();
        lemma_seq_to_be_len::<T>(s.drop_first());
        assert(T::spec_size() + (s.len() - 1) * T::spec_size() == s.len() * T::spec_size())
            by (nonlinear_arith);
    }
}

/// Appending an element appends its image.
pub proof fn lemma_seq_to_le_push<T: Pod>(s: Seq<T>, x: T)
    ensures
        seq_to_le(s.push(x)) == seq_to_le(s) + x.spec_to_le(),
    decreases s.len(),
{
    if s.len() == 0 {
        assert(s.push(x).drop_first() =~= Seq::<T>::empty());
        assert(s.push(x)[0] == x);
        assert(seq_to_le(Seq::<T>::empty()) =~= Seq::<u8>::empty());
        assert(seq_to_le(s.push(x)) =~= seq_to_le(s) + x.spec_to_le());
    } else {
        assert(s.push(x).drop_first() =~= s.drop_first().push(x));
        lemma_seq_to_le_push::<T>(s.drop_first(), x);
        assert(seq_to_le(s.push(x)) =~= seq_to_le(s) + x.spec_to_le());
    }
}

/// Appending an element appends its image.
pub proof fn lemma_seq_to_be_push<T: Pod>(s: Seq<T>, x: T)
    ensures
        seq_to_be(s.push(x)) == seq_to_be(s) + x.spec_to_be(),
    decreases s.len(),
{
    if s.len() == 0 {
        assert(s.push(x).drop_first() =~= Seq::<T>::empty());
        assert(s.push(x)[0] == x);
        assert(seq_to_be(Seq::<T>::empty()) =~= Seq::<u8>::empty());
        assert(seq_to_be(s.push(x)) =~= seq_to_be(s) + x.spec_to_be());
    } else {
        assert(s.push(x).drop_first() =~= s.drop_first().push(x));
        lemma_seq_to_be_push::<T>(s.drop_first(), x);
        assert(seq_to_be(s.push(x)) =~= seq_to_be(s) + x.spec_to_be());
    }
}

/// The `i`th element's image is the `i`th window of the flat image.
pub proof fn lemma_seq_to_le_windows<T: Pod>(s: Seq<T>, i: int)
    requires
        0 <= i < s.len(),
    ensures
        seq_to_le(s).subrange(i * T::spec_size(), (i + 1) * T::spec_size()) == s[i].spec_to_le(),
    decreases i,
{
    let z = T::spec_size() as int;
    lemma_seq_to_le_len::<T>(s);
    assert((i + 1) * z <= s.len() * z && 0 <= i * z && i * z + z == (i + 1) * z)
        by (nonlinear_arith)
        requires
            0 <= i < s.len(),
            z >= 0,
    ;
    s[0].lemma_to_le_len();
    lemma_seq_to_le_len::<T>(s.drop_first());
    if i == 0 {
        assert(i * z == 0 && (i + 1) * z == z) by (nonlinear_arith)
            requires
                i == 0,
        ;
        assert(seq_to_le(s).subrange(0, z) =~= s[0].spec_to_le());
    } else {
        lemma_seq_to_le_windows::<T>(s.drop_first(), i - 1);
        assert((i - 1) * z == i * z - z && i * z == (i - 1) * z + z) by (nonlinear_arith);
        assert(seq_to_le(s).subrange(i * z, (i + 1) * z) =~= seq_to_le(s.drop_first()).subrange(
            (i - 1) * z,
            i * z,
        ));
    }
}

/// The `i`th element's image is the `i`th window of the flat image.
pub proof fn lemma_seq_to_be_windows<T: Pod>(s: Seq<T>, i: int)
    requires
        0 <= i < s.len(),
    ensures
        seq_to_be(s).subrange(i * T::spec_size(), (i + 1) * T::spec_size()) == s[i].spec_to_be(),
    decreases i,
{
    let z = T::spec_size() as int;
    lemma_seq_to_be_len::<T>(s);
    assert((i + 1) * z <= s.len() * z && 0 <= i * z && i * z + z == (i + 1) * z)
        by (nonlinear_arith)
        requires
            0 <= i < s.len(),
            z >= 0,
    ;
    s[0].lemma_to_be_len();
    lemma_seq_to_be_len::<T>(s.drop_first());
    if i == 0 {
        assert(i * z == 0 && (i + 1) * z == z) by (nonlinear_arith)
            requires
                i == 0,
        ;
        assert(seq_to_be(s).subrange(0, z) =~= s[0].spec_to_be());
    } else {
        lemma_seq_to_be_windows::<T>(s.drop_first(), i - 1);
        assert((i - 1) * z == i * z - z && i * z == (i - 1) * z + z) by (nonlinear_arith);
        assert(seq_to_be(s).subrange(i * z, (i + 1) * z) =~= seq_to_be(s.drop_first()).subrange(
            (i - 1) * z,
            i * z,
        ));
    }
}

impl<T: Zeroable + Copy, const N: usize> Zeroable for [T; N] {
    open spec fn spec_zeroed() -> [T; N] {
        vstd::array::spec_array_fill_for_copy_type::<T, N>(T::spec_zeroed())
    }

    fn zeroed() -> (r: [T; N]) {
        vstd::array::array_fill_for_copy_types::<T, N>(T::zeroed())
    }
}

impl<T: Pod + Copy, const N: usize> Pod for [T; N] {
    open spec fn spec_size() -> nat {
        (N as nat) * T::spec_size()
    }

    fn size() -> (s: usize) {
        if N == 0 {
            proof {
                assert(N * T::spec_size() == 0) by (nonlinear_arith)
                    requires
                        N == 0,
                ;
            }
            0
        } else {
            proof {
                assert(T::spec_size() <= N * T::spec_size()) by (nonlinear_arith)
                    requires
                        N >= 1,
                ;
            }
            let z = T::size();
            N * z
        }
    }

    open spec fn spec_to_le(self) -> Seq<u8> {
        seq_to_le(self@)
    }

    open spec fn spec_to_be(self) -> Seq<u8> {
        seq_to_be(self@)
    }

    proof fn lemma_to_le_len(self) {
        lemma_seq_to_le_len::<T>(self@);
    }

    proof fn lemma_to_be_len(self) {
        lemma_seq_to_be_len::<T>(self@);
    }

    proof fn lemma_to_le_injective(a: [T; N], b: [T; N]) {
        assert forall|i: int| 0 <= i < N implies a@[i] == b@[i] by {
            lemma_seq_to_le_windows::<T>(a@, i);
            lemma_seq_to_le_windows::<T>(b@, i);
            T::lemma_to_le_injective(a@[i], b@[i]);
        }
        assert(a =~= b);
    }

    proof fn lemma_to_be_injective(a: [T; N], b: [T; N]) {
        assert forall|i: int| 0 <= i < N implies a@[i] == b@[i] by {
            lemma_seq_to_be_windows::<T>(a@, i);
            lemma_seq_to_be_windows::<T>(b@, i);
            T::lemma_to_be_injective(a@[i], b@[i]);
        }
        assert(a =~= b);
    }

    #[verifier::loop_isolation(false)]
    fn from_le_bytes(buffer: &[u8]) -> (r: Result<[T; N], PodError>) {
        let total = Self::size();
        if buffer.len() < total {
            return Err(PodError::OutOfSpace);
        }
        let ghost s = buffer@.take(Self::spec_size() as int);
        let mut a: [T; N] = vstd::array::array_fill_for_copy_types::<T, N>(T::zeroed());
        if N == 0 {
            proof {
                assert(a.spec_to_le() =~= s);
            }
            return Ok(a);
        }
        proof {
            assert(T::spec_size() <= N * T::spec_size()) by (nonlinear_arith)
                requires
                    N >= 1,
            ;
        }
        let z = T::size();
        let mut i: usize = 0;
        proof {
            assert(seq_to_le::<T>(a@.take(0)) =~= buffer@.subrange(0, 0));
        }
        while i < N
            invariant
                i <= N,
                N >= 1,
                z == T::spec_size(),
                N * T::spec_size() <= usize::MAX,
                buffer@.len() >= N * T::spec_size(),
                a@.len() == N,
                seq_to_le::<T>(a@.take(i as int)) == buffer@.subrange(0, i * (z as int)),
            decreases N - i,
        {
            proof {
                assert(i * (z as int) + z == (i + 1) * (z as int) && (i + 1) * (z as int) <= N * (
                z as int) && 0 <= i * (z as int)) by (nonlinear_arith)
                    requires
                        0 <= i < N,
                        z >= 0,
                ;
            }
            let start = i * z;
            let w = vstd::slice::slice_subrange(buffer, start, start + z);
            let ghost apre = a@;
            match T::from_le_bytes(w) {
                Ok(v) => {
                    a[i] = v;
                    proof {
                        assert(w@.take(z as int) =~= w@);
                        assert(a@.take(i + 1) =~= apre.take(i as int).push(v));
                        assert(a@.take(i as int) =~= apre.take(i as int));
                        lemma_seq_to_le_push::<T>(apre.take(i as int), v);
                        assert(seq_to_le::<T>(a@.take(i + 1)) =~= buffer@.subrange(
                            0,
                            (i + 1) * (z as int),
                        ));
                    }
                    i = i + 1;
                },
                Err(_) => {
                    proof {
                        assert(w@.take(z as int) =~= w@);
                        assert(s.subrange((i as int) * (z as int), (i + 1) * (z as int)) =~= w@);
                        assert forall|b: [T; N]| (#[trigger] b.spec_to_le()) != s by {
                            if b.spec_to_le() == s {
                                lemma_seq_to_le_windows::<T>(b@, i as int);
                                assert(b@[i as int].spec_to_le() =~= w@);
                                assert(false);
                            }
                        }
                    }
                    return Err(PodError::OutOfRange);
                },
            }
        }
        proof {
            assert(a@.take(N as int) =~= a@);
            assert(a.spec_to_le() =~= s);
        }
        Ok(a)
    }

    #[verifier::loop_isolation(false)]
    fn from_be_bytes(buffer: &[u8]) -> (r: Result<[T; N], PodError>) {
        let total = Self::size();
        if buffer.len() < total {
            return Err(PodError::OutOfSpace);
        }
        let ghost s = buffer@.take(Self::spec_size() as int);
        let mut a: [T; N] = vstd::array::array_fill_for_copy_types::<T, N>(T::zeroed());
        if N == 0 {
            proof {
                assert(a.spec_to_be() =~= s);
            }
            return Ok(a);
        }
        proof {
            assert(T::spec_size() <= N * T::spec_size()) by (nonlinear_arith)
                requires
                    N >= 1,
            ;
        }
        let z = T::size();
        let mut i: usize = 0;
        proof {
            assert(seq_to_be::<T>(a@.take(0)) =~= buffer@.subrange(0, 0));
        }
        while i < N
            invariant
                i <= N,
                N >= 1,
                z == T::spec_size(),
                N * T::spec_size() <= usize::MAX,
                buffer@.len() >= N * T::spec_size(),
                a@.len() == N,
                seq_to_be::<T>(a@.take(i as int)) == buffer@.subrange(0, i * (z as int)),
            decreases N - i,
        {
            proof {
                assert(i * (z as int) + z == (i + 1) * (z as int) && (i + 1) * (z as int) <= N * (
                z as int) && 0 <= i * (z as int)) by (nonlinear_arith)
                    requires
                        0 <= i < N,
                        z >= 0,
                ;
            }
            let start = i * z;
            let w = vstd::slice::slice_subrange(buffer, start, start + z);
            let ghost apre = a@;
            match T::from_be_bytes(w) {
                Ok(v) => {
                    a[i] = v;
                    proof {
                        assert(w@.take(z as int) =~= w@);
                        assert(a@.take(i + 1) =~= apre.take(i as int).push(v));
                        assert(a@.take(i as int) =~= apre.take(i as int));
                        lemma_seq_to_be_push::<T>(apre.take(i as int), v);
                        assert(seq_to_be::<T>(a@.take(i + 1)) =~= buffer@.subrange(
                            0,
                            (i + 1) * (z as int),
                        ));
                    }
                    i = i + 1;
                },
                Err(_) => {
                    proof {
                        assert(w@.take(z as int) =~= w@);
                        assert forall|b: [T; N]| (#[trigger] b.spec_to_be()) != s by {
                            if b.spec_to_be() == s {
                                lemma_seq_to_be_windows::<T>(b@, i as int);
                                assert(b@[i as int].spec_to_be() =~= w@);
                                assert(false);
                            }
                        }
                    }
                    return Err(PodError::OutOfRange);
                },
            }
        }
        proof {
            assert(a@.take(N as int) =~= a@);
            assert(a.spec_to_be() =~= s);
        }
        Ok(a)
    }

    #[verifier::loop_isolation(false)]
    fn to_le_bytes(&self, buffer: &mut [u8]) -> (r: Result<usize, PodError>) {
        let total = Self::size();
        if buffer.len() < total {
            return Err(PodError::OutOfSpace);
        }
        if N == 0 {
            proof {
                assert(buffer@ =~= self.spec_to_le() + old(buffer)@.skip(0));
            }
            return Ok(total);
        }
        proof {
            assert(T::spec_size() <= N * T::spec_size()) by (nonlinear_arith)
                requires
                    N >= 1,
            ;
        }
        let z = T::size();
        let mut i: usize = 0;
        proof {
            assert(buffer@ =~= seq_to_le::<T>(self@.take(0)) + old(buffer)@.skip(0));
        }
        while i < N
            invariant
                i <= N,
                N >= 1,
                z == T::spec_size(),
                N * T::spec_size() <= usize::MAX,
                old(buffer)@.len() >= N * T::spec_size(),
                buffer@.len() == old(buffer)@.len(),
                self@.len() == N,
                buffer@ == seq_to_le::<T>(self@.take(i as int)) + old(buffer)@.skip(
                    i * (z as int),
                ),
            decreases N - i,
        {
            proof {
                assert(i * (z as int) + z == (i + 1) * (z as int) && (i + 1) * (z as int) <= N * (
                z as int) && 0 <= i * (z as int)) by (nonlinear_arith)
                    requires
                        0 <= i < N,
                        z >= 0,
                ;
                lemma_seq_to_le_len::<T>(self@.take(i as int));
                assert(self@.take(i as int).len() * T::spec_size() == i * (z as int))
                    by (nonlinear_arith)
                    requires
                        self@.take(i as int).len() == i,
                        z == T::spec_size(),
                ;
            }
            let start = i * z;
            let ghost elem = self@[i as int];
            let pair = buffer.split_at_mut(start);
            let rest = pair.1;
            let res = self[i].to_le_bytes(rest);
            proof {
                elem.lemma_to_le_len();
            }
            if res.is_err() {
                proof {
                    assert(false);
                }
                return Err(PodError::OutOfSpace);
            }
            i = i + 1;
            proof {
                lemma_seq_to_le_push::<T>(self@.take(i - 1), self@[i - 1]);
                assert(self@.take(i as int) =~= self@.take(i - 1).push(self@[i - 1]));
                assert(buffer@ =~= seq_to_le::<T>(self@.take(i as int)) + old(buffer)@.skip(
                    i * (z as int),
                ));
            }
        }
        proof {
            assert(self@.take(N as int) =~= self@);
            assert(buffer@ =~= self.spec_to_le() + old(buffer)@.skip(Self::spec_size() as int));
        }
        Ok(total)
    }

    #[verifier::loop_isolation(false)]
    fn to_be_bytes(&self, buffer: &mut [u8]) -> (r: Result<usize, PodError>) {
        let total = Self::size();
        if buffer.len() < total {
            return Err(PodError::OutOfSpace);
        }
        if N == 0 {
            proof {
                assert(buffer@ =~= self.spec_to_be() + old(buffer)@.skip(0));
            }
            return Ok(total);
        }
        proof {
            assert(T::spec_size() <= N * T::spec_size()) by (nonlinear_arith)
                requires
                    N >= 1,
            ;
        }
        let z = T::size();
        let mut i: usize = 0;
        proof {
            assert(buffer@ =~= seq_to_be::<T>(self@.take(0)) + old(buffer)@.skip(0));
        }
        while i < N
            invariant
                i <= N,
                N >= 1,
                z == T::spec_size(),
                N * T::spec_size() <= usize::MAX,
                old(buffer)@.len() >= N * T::spec_size(),
                buffer@.len() == old(buffer)@.len(),
                self@.len() == N,
                buffer@ == seq_to_be::<T>(self@.take(i as int)) + old(buffer)@.skip(
                    i * (z as int),
                ),
            decreases N - i,
        {
            proof {
                assert(i * (z as int) + z == (i + 1) * (z as int) && (i + 1) * (z as int) <= N * (
                z as int) && 0 <= i * (z as int)) by (nonlinear_arith)
                    requires
                        0 <= i < N,
                        z >= 0,
                ;
                lemma_seq_to_be_len::<T>(self@.take(i as int));
                assert(self@.take(i as int).len() * T::spec_size() == i * (z as int))
                    by (nonlinear_arith)
                    requires
                        self@.take(i as int).len() == i,
                        z == T::spec_size(),
                ;
            }
            let start = i * z;
            let ghost elem = self@[i as int];
            let pair = buffer.split_at_mut(start);
            let rest = pair.1;
            let res = self[i].to_be_bytes(rest);
            proof {
                elem.lemma_to_be_len();
            }
            if res.is_err() {
                proof {
                    assert(false);
                }
                return Err(PodError::OutOfSpace);
            }
            i = i + 1;
            proof {
                lemma_seq_to_be_push::<T>(self@.take(i - 1), self@[i - 1]);
                assert(self@.take(i as int) =~= self@.take(i - 1).push(self@[i - 1]));
                assert(buffer@ =~= seq_to_be::<T>(self@.take(i as int)) + old(buffer)@.skip(
                    i * (z as int),
                ));
            }
        }
        proof {
            assert(self@.take(N as int) =~= self@);
            assert(buffer@ =~= self.spec_to_be() + old(buffer)@.skip(Self::spec_size() as int));
        }
        Ok(total)
    }
}

/// Size additivity for arrays: an `N`-element array of a codecable
/// element type is `N` times the element size.
pub proof fn lemma_array_size<T: Pod + Copy, const N: usize>()
    ensures
        <[T; N] as Pod>::spec_size() == N * T::spec_size(),
{
}

} // verus!
