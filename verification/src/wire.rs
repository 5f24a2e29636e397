//! Byte-level model of fixed-size base-256 numbers, in both byte orders,
//! with verified readers and writers for byte buffers.

use vstd::prelude::*;
use vstd::arithmetic::div_mod::{lemma_fundamental_div_mod, lemma_div_denominator, lemma_mod_bound};

verus! {

/// `256^n`.
pub open spec fn pow256(n: nat) -> nat
    decreases n,
{
    if n == 0 {
        1
    } else {
        256 * pow256((n - 1) as nat)
    }
}

/// The natural number held by `s` read as little-endian base-256 digits:
/// the first byte is the least significant.
pub open spec fn le_nat(s: Seq<u8>) -> nat
    decreases s.len(),
{
    if s.len() == 0 {
        0
    } else {
        (s[0] as nat) + 256 * le_nat(s.drop_first())
    }
}

/// The natural number held by `s` read as big-endian base-256 digits:
/// the last byte is the least significant.
pub open spec fn be_nat(s: Seq<u8>) -> nat
    decreases s.len(),
{
    if s.len() == 0 {
        0
    } else {
        256 * be_nat(s.drop_last()) + (s.last() as nat)
    }
}

/// The `n`-byte little-endian encoding of `v` (`v`'s digits beyond the
/// `n`th are discarded).
pub open spec fn nat_to_le(v: nat, n: nat) -> Seq<u8>
    decreases n,
{
    if n == 0 {
        Seq::empty()
    } else {
        seq![(v % 256) as u8] + nat_to_le(v / 256, (n - 1) as nat)
    }
}

/// The `n`-byte big-endian encoding of `v`: the least significant digit
/// comes last.
pub open spec fn nat_to_be(v: nat, n: nat) -> Seq<u8>
    decreases n,
{
    if n == 0 {
        Seq::empty()
    } else {
        nat_to_be(v / 256, (n - 1) as nat) + seq![(v % 256) as u8]
    }
}

/// The two's-complement bit pattern of `v` in `n` bytes, as a natural number.
pub open spec fn ibits(v: int, n: nat) -> nat
    recommends
        -(pow256(n) as int) <= 2 * v < pow256(n) as int,
{
    if v >= 0 {
        v as nat
    } else {
        (v + pow256(n)) as nat
    }
}

/// The signed value whose two's-complement bit pattern in `n` bytes is `u`.
pub open spec fn sint_of(u: nat, n: nat) -> int
    recommends
        u < pow256(n),
{
    if 2 * u < pow256(n) {
        u as int
    } else {
        u - pow256(n)
    }
}

pub proof fn lemma_pow256_values()
    ensures
        pow256(0) == 1,
        pow256(1) == 256,
        pow256(2) == 0x10000,
        pow256(4) == 0x1_0000_0000,
        pow256(8) == 0x1_0000_0000_0000_0000,
        pow256(16) == 0x1_0000_0000_0000_0000_0000_0000_0000_0000,
{
    reveal_with_fuel(pow256, 17);
}

pub proof fn lemma_pow256_pos(n: nat)
    ensures
        pow256(n) >= 1,
    decreases n,
{
    if n > 0 {
        lemma_pow256_pos((n - 1) as nat);
    }
}

pub proof fn lemma_pow256_nondecreasing(i: nat, j: nat)
    requires
        i <= j,
    ensures
        pow256(i) <= pow256(j),
    decreases j,
{
    if i < j {
        lemma_pow256_nondecreasing(i, (j - 1) as nat);
        assert(pow256(j) == 256 * pow256((j - 1) as nat));
    }
}

pub proof fn lemma_pow256_adds(i: nat, j: nat)
    ensures
        pow256(i + j) == pow256(i) * pow256(j),
    decreases i,
{
    if i == 0 {
        assert(pow256(0 + j) == 1 * pow256(j));
    } else {
        lemma_pow256_adds((i - 1) as nat, j);
        assert(pow256(i + j) == 256 * pow256((i - 1 + j) as nat));
        assert(256 * (pow256((i - 1) as nat) * pow256(j)) == (256 * pow256((i - 1) as nat))
            * pow256(j)) by (nonlinear_arith);
    }
}

/// Every `n`-byte value is below `256^n`.
pub proof fn lemma_le_nat_bound(s: Seq<u8>)
    ensures
        le_nat(s) < pow256(s.len()),
    decreases s.len(),
{
    if s.len() > 0 {
        lemma_le_nat_bound(s.drop_first());
    }
}

pub proof fn lemma_be_nat_bound(s: Seq<u8>)
    ensures
        be_nat(s) < pow256(s.len()),
    decreases s.len(),
{
    if s.len() > 0 {
        lemma_be_nat_bound(s.drop_last());
    }
}

pub proof fn lemma_nat_to_le_len(v: nat, n: nat)
    ensures
        nat_to_le(v, n).len() == n,
    decreases n,
{
    if n > 0 {
        lemma_nat_to_le_len(v / 256, (n - 1) as nat);
    }
}

pub proof fn lemma_nat_to_be_len(v: nat, n: nat)
    ensures
        nat_to_be(v, n).len() == n,
    decreases n,
{
    if n > 0 {
        lemma_nat_to_be_len(v / 256, (n - 1) as nat);
    }
}

/// Reading back an `n`-byte little-endian encoding recovers the value.
pub proof fn lemma_le_nat_of_nat_to_le(v: nat, n: nat)
    requires
        v < pow256(n),
    ensures
        le_nat(nat_to_le(v, n)) == v,
    decreases n,
{
    if n == 0 {
        assert(v == 0);
    } else {
        let rest = nat_to_le(v / 256, (n - 1) as nat);
        assert(nat_to_le(v, n).drop_first() =~= rest);
        assert(v / 256 < pow256((n - 1) as nat)) by {
            lemma_fundamental_div_mod(v as int, 256);
        };
        lemma_le_nat_of_nat_to_le(v / 256, (n - 1) as nat);
        lemma_fundamental_div_mod(v as int, 256);
    }
}

/// Encoding the value read from an `n`-byte buffer reproduces the buffer.
pub proof fn lemma_nat_to_le_of_le_nat(s: Seq<u8>)
    ensures
        nat_to_le(le_nat(s), s.len()) == s,
    decreases s.len(),
{
    if s.len() > 0 {
        let v = le_nat(s);
        assert(v == s[0] + 256 * le_nat(s.drop_first()));
        assert(v % 256 == s[0] && v / 256 == le_nat(s.drop_first())) by {
            lemma_fundamental_div_mod(v as int, 256);
            lemma_mod_bound(v as int, 256);
            assert((s[0] + 256 * le_nat(s.drop_first())) % 256 == s[0]
                && (s[0] + 256 * le_nat(s.drop_first())) / 256 == le_nat(s.drop_first()))
                by (nonlinear_arith)
                requires 0 <= s[0] < 256;
        };
        lemma_nat_to_le_of_le_nat(s.drop_first());
        assert(nat_to_le(v, s.len()) =~= s);
    }
}

/// Reading back an `n`-byte big-endian encoding recovers the value.
pub proof fn lemma_be_nat_of_nat_to_be(v: nat, n: nat)
    requires
        v < pow256(n),
    ensures
        be_nat(nat_to_be(v, n)) == v,
    decreases n,
{
    if n == 0 {
        assert(v == 0);
    } else {
        let high = nat_to_be(v / 256, (n - 1) as nat);
        lemma_nat_to_be_len(v / 256, (n - 1) as nat);
        assert(nat_to_be(v, n).drop_last() =~= high);
        assert(nat_to_be(v, n).last() == (v % 256) as u8);
        assert(v / 256 < pow256((n - 1) as nat)) by {
            lemma_fundamental_div_mod(v as int, 256);
        };
        lemma_be_nat_of_nat_to_be(v / 256, (n - 1) as nat);
        lemma_fundamental_div_mod(v as int, 256);
    }
}

/// Encoding the value read from an `n`-byte big-endian buffer reproduces
/// the buffer.
pub proof fn lemma_nat_to_be_of_be_nat(s: Seq<u8>)
    ensures
        nat_to_be(be_nat(s), s.len()) == s,
    decreases s.len(),
{
    if s.len() > 0 {
        let v = be_nat(s);
        assert(v == 256 * be_nat(s.drop_last()) + s.last());
        assert(v % 256 == s.last() && v / 256 == be_nat(s.drop_last())) by {
            lemma_fundamental_div_mod(v as int, 256);
            lemma_mod_bound(v as int, 256);
            assert((256 * be_nat(s.drop_last()) + s.last()) % 256 == s.last()
                && (256 * be_nat(s.drop_last()) + s.last()) / 256 == be_nat(s.drop_last()))
                by (nonlinear_arith)
                requires 0 <= s.last() < 256;
        };
        lemma_nat_to_be_of_be_nat(s.drop_last());
        lemma_nat_to_be_len(be_nat(s.drop_last()), (s.len() - 1) as nat);
        assert(nat_to_be(v, s.len()) =~= s);
    }
}

/// `nat_to_le` encodings are injective below `256^n`.
pub proof fn lemma_nat_to_le_injective(a: nat, b: nat, n: nat)
    requires
        a < pow256(n),
        b < pow256(n),
        nat_to_le(a, n) == nat_to_le(b, n),
    ensures
        a == b,
{
    lemma_le_nat_of_nat_to_le(a, n);
    lemma_le_nat_of_nat_to_le(b, n);
}

/// `nat_to_be` encodings are injective below `256^n`.
pub proof fn lemma_nat_to_be_injective(a: nat, b: nat, n: nat)
    requires
        a < pow256(n),
        b < pow256(n),
        nat_to_be(a, n) == nat_to_be(b, n),
    ensures
        a == b,
{
    lemma_be_nat_of_nat_to_be(a, n);
    lemma_be_nat_of_nat_to_be(b, n);
}

/// The two's-complement bit pattern determines the signed value.
pub proof fn lemma_ibits_injective(a: int, b: int, n: nat)
    requires
        -(pow256(n) as int) <= 2 * a < pow256(n) as int,
        -(pow256(n) as int) <= 2 * b < pow256(n) as int,
        ibits(a, n) == ibits(b, n),
    ensures
        a == b,
{
}

/// `ibits` and `sint_of` invert each other on the signed range.
pub proof fn lemma_sint_of_ibits(v: int, n: nat)
    requires
        -(pow256(n) as int) <= 2 * v < pow256(n) as int,
    ensures
        ibits(v, n) < pow256(n),
        sint_of(ibits(v, n), n) == v,
{
}

/// `sint_of` and `ibits` invert each other on the unsigned range.
pub proof fn lemma_ibits_of_sint_of(u: nat, n: nat)
    requires
        u < pow256(n),
    ensures
        -(pow256(n) as int) <= 2 * sint_of(u, n) < pow256(n) as int,
        ibits(sint_of(u, n), n) == u,
{
}

/// Splitting a little-endian encoding: the first `i` bytes encode `v`'s
/// low digits, the rest encode `v / 256^i`.
pub proof fn lemma_nat_to_le_split(v: nat, i: nat, n: nat)
    requires
        i <= n,
    ensures
        nat_to_le(v, n) == nat_to_le(v, i) + nat_to_le(v / pow256(i), (n - i) as nat),
    decreases i,
{
    if i == 0 {
        assert(v / 1 == v) by {
            lemma_fundamental_div_mod(v as int, 1);
        };
        assert(nat_to_le(v, n) =~= nat_to_le(v, 0) + nat_to_le(v / pow256(0), n));
    } else {
        lemma_nat_to_le_split(v / 256, (i - 1) as nat, (n - 1) as nat);
        assert((v / 256) / pow256((i - 1) as nat) == v / pow256(i)) by {
            lemma_pow256_pos((i - 1) as nat);
            lemma_div_denominator(v as int, 256, pow256((i - 1) as nat) as int);
            assert(256 * pow256((i - 1) as nat) == pow256(i));
        };
        assert(nat_to_le(v, n) =~= nat_to_le(v, i) + nat_to_le(
            v / pow256(i),
            (n - i) as nat,
        ));
    }
}

/// Splitting a big-endian encoding: the first `n - i` bytes encode
/// `v / 256^i`, the last `i` bytes encode `v`'s low digits.
pub proof fn lemma_nat_to_be_split(v: nat, i: nat, n: nat)
    requires
        i <= n,
    ensures
        nat_to_be(v, n) == nat_to_be(v / pow256(i), (n - i) as nat) + nat_to_be(v, i),
    decreases i,
{
    if i == 0 {
        assert(v / 1 == v) by {
            lemma_fundamental_div_mod(v as int, 1);
        };
        assert(nat_to_be(v, n) =~= nat_to_be(v / pow256(0), n) + nat_to_be(v, 0));
    } else {
        lemma_nat_to_be_split(v / 256, (i - 1) as nat, (n - 1) as nat);
        assert((v / 256) / pow256((i - 1) as nat) == v / pow256(i)) by {
            lemma_pow256_pos((i - 1) as nat);
            lemma_div_denominator(v as int, 256, pow256((i - 1) as nat) as int);
            assert(256 * pow256((i - 1) as nat) == pow256(i));
        };
        assert(nat_to_be(v, n) =~= nat_to_be(v / pow256(i), (n - i) as nat) + nat_to_be(
            v,
            i,
        ));
    }
}

/// Read `n` little-endian bytes from the front of `buffer` as a number.
pub fn read_le_chunk(buffer: &[u8], n: usize) -> (x: u128)
    requires
        n <= 16,
        buffer@.len() >= n,
    ensures
        x as nat == le_nat(buffer@.take(n as int)),
{
    let mut x: u128 = 0;
    let mut i: usize = n;
    proof {
        assert(buffer@.subrange(n as int, n as int) =~= Seq::<u8>::empty());
    }
    while i > 0
        invariant
            i <= n,
            n <= 16,
            buffer@.len() >= n,
            x as nat == le_nat(buffer@.subrange(i as int, n as int)),
        decreases i,
    {
        let sub = Ghost(buffer@.subrange(i - 1, n as int));
        proof {
            assert(sub@.drop_first() =~= buffer@.subrange(i as int, n as int));
            lemma_le_nat_bound(sub@);
            lemma_pow256_nondecreasing(sub@.len(), 16);
            lemma_pow256_values();
        }
        x = x * 256 + (buffer[i - 1] as u128);
        i = i - 1;
    }
    proof {
        assert(buffer@.subrange(0, n as int) =~= buffer@.take(n as int));
    }
    x
}

/// Read `n` big-endian bytes from the front of `buffer` as a number.
pub fn read_be_chunk(buffer: &[u8], n: usize) -> (x: u128)
    requires
        n <= 16,
        buffer@.len() >= n,
    ensures
        x as nat == be_nat(buffer@.take(n as int)),
{
    let mut x: u128 = 0;
    let mut i: usize = 0;
    proof {
        assert(buffer@.take(0) =~= Seq::<u8>::empty());
    }
    while i < n
        invariant
            i <= n,
            n <= 16,
            buffer@.len() >= n,
            x as nat == be_nat(buffer@.take(i as int)),
        decreases n - i,
    {
        let sub = Ghost(buffer@.take(i + 1));
        proof {
            assert(sub@.drop_last() =~= buffer@.take(i as int));
            lemma_be_nat_bound(sub@);
            lemma_pow256_nondecreasing(sub@.len(), 16);
            lemma_pow256_values();
        }
        x = x * 256 + (buffer[i] as u128);
        i = i + 1;
    }
    x
}

/// Write the `n`-byte little-endian encoding of `x` over the front of
/// `buffer`; bytes past the first `n` are untouched.
pub fn write_le_chunk(x: u128, n: usize, buffer: &mut [u8])
    requires
        n <= 16,
        old(buffer)@.len() >= n,
    ensures
        final(buffer)@ == nat_to_le(x as nat, n as nat) + old(buffer)@.skip(n as int),
{
    let ghost x0 = x as nat;
    let mut cur: u128 = x;
    let mut i: usize = 0;
    proof {
        lemma_fundamental_div_mod(x as int, 1);
        assert(buffer@.subrange(0, 0) =~= nat_to_le(x0, 0));
        assert(buffer@.skip(0) =~= old(buffer)@.skip(0));
    }
    while i < n
        invariant
            i <= n,
            n <= 16,
            buffer@.len() == old(buffer)@.len() >= n,
            cur as nat == x0 / pow256(i as nat),
            buffer@.subrange(0, i as int) == nat_to_le(x0, i as nat),
            buffer@.skip(i as int) == old(buffer)@.skip(i as int),
        decreases n - i,
    {
        let ghost iold = i as nat;
        let ghost bpre = buffer@;
        proof {
            lemma_pow256_pos(iold);
            lemma_nat_to_le_split(x0, iold, iold + 1);
            lemma_nat_to_le_len(x0, iold);
            lemma_nat_to_le_len(x0, iold + 1);
            lemma_div_denominator(x0 as int, pow256(iold) as int, 256);
            lemma_pow256_adds(iold, 1);
            assert(pow256(1) == 256) by {
                reveal_with_fuel(pow256, 2);
            };
            assert(nat_to_le(x0 / pow256(iold), 1) =~= seq![((x0 / pow256(iold)) % 256) as u8])
                by {
                reveal_with_fuel(nat_to_le, 2);
            };
        }
        buffer[i] = (cur % 256) as u8;
        cur = cur / 256;
        i = i + 1;
        proof {
            assert(buffer@ == bpre.update(iold as int, (((x0 / pow256(iold)) % 256) as u8)));
            assert(buffer@.subrange(0, i as int) =~= nat_to_le(x0, i as nat));
            assert forall|j: int| 0 <= j < buffer@.len() - i implies buffer@.skip(
                i as int,
            )[j] == old(buffer)@.skip(i as int)[j] by {
                assert(bpre.skip(iold as int)[j + 1] == old(buffer)@.skip(iold as int)[j + 1]);
            }
            assert(buffer@.skip(i as int) =~= old(buffer)@.skip(i as int));
        }
    }
    proof {
        assert(buffer@ =~= nat_to_le(x0, n as nat) + old(buffer)@.skip(n as int)) by {
            lemma_nat_to_le_len(x0, n as nat);
        };
    }
}

/// Write the `n`-byte big-endian encoding of `x` over the front of
/// `buffer`; bytes past the first `n` are untouched.
pub fn write_be_chunk(x: u128, n: usize, buffer: &mut [u8])
    requires
        n <= 16,
        old(buffer)@.len() >= n,
    ensures
        final(buffer)@ == nat_to_be(x as nat, n as nat) + old(buffer)@.skip(n as int),
{
    let ghost x0 = x as nat;
    let mut cur: u128 = x;
    let mut i: usize = 0;
    proof {
        lemma_fundamental_div_mod(x as int, 1);
        assert(buffer@.subrange(n as int, n as int) =~= nat_to_be(x0, 0));
        assert(buffer@.subrange(0, n as int) =~= old(buffer)@.subrange(0, n as int));
    }
    while i < n
        invariant
            i <= n,
            n <= 16,
            buffer@.len() == old(buffer)@.len() >= n,
            cur as nat == x0 / pow256(i as nat),
            buffer@.subrange(n - i, n as int) == nat_to_be(x0, i as nat),
            buffer@.subrange(0, n - i) == old(buffer)@.subrange(0, n - i),
            buffer@.skip(n as int) == old(buffer)@.skip(n as int),
        decreases n - i,
    {
        let ghost iold = i as nat;
        let ghost bpre = buffer@;
        proof {
            lemma_pow256_pos(iold);
            lemma_nat_to_be_split(x0, iold, iold + 1);
            lemma_nat_to_be_len(x0, iold);
            lemma_nat_to_be_len(x0, iold + 1);
            lemma_div_denominator(x0 as int, pow256(iold) as int, 256);
            lemma_pow256_adds(iold, 1);
            assert(pow256(1) == 256) by {
                reveal_with_fuel(pow256, 2);
            };
            assert(nat_to_be(x0 / pow256(iold), 1) =~= seq![((x0 / pow256(iold)) % 256) as u8])
                by {
                reveal_with_fuel(nat_to_be, 2);
            };
        }
        buffer[n - 1 - i] = (cur % 256) as u8;
        cur = cur / 256;
        i = i + 1;
        proof {
            assert(buffer@ == bpre.update(
                n - i,
                (((x0 / pow256(iold)) % 256) as u8),
            ));
            assert(buffer@.subrange(n - i, n as int) =~= nat_to_be(x0, i as nat));
            assert(buffer@.subrange(0, n - i) =~= old(buffer)@.subrange(0, n - i));
            assert(buffer@.skip(n as int) =~= old(buffer)@.skip(n as int));
        }
    }
    proof {
        assert(buffer@ =~= nat_to_be(x0, n as nat) + old(buffer)@.skip(n as int)) by {
            lemma_nat_to_be_len(x0, n as nat);
        };
    }
}

} // verus!
