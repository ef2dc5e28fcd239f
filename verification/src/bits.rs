//! Bit strings, least significant bit first.
//!
//! DEFLATE packs its elements into bytes starting with the least significant
//! bit. This module says what a number, and what a string of bytes, looks like
//! as a sequence of bits in that order.

use vstd::arithmetic::div_mod::{
    lemma_div_denominator, lemma_fundamental_div_mod, lemma_fundamental_div_mod_converse,
    lemma_mod_breakdown,
};
use vstd::arithmetic::mul::{lemma_mul_is_associative, lemma_mul_is_commutative};
use vstd::arithmetic::power2::{lemma_pow2_pos, lemma_pow2_unfold, pow2};
use vstd::prelude::*;

verus! {

/// The low `n` bits of `v`, least significant first.
pub open spec fn to_bits(v: nat, n: nat) -> Seq<bool>
    decreases n,
{
    if n == 0 {
        Seq::empty()
    } else {
        seq![v % 2 == 1] + to_bits(v / 2, (n - 1) as nat)
    }
}

/// The number whose bits, least significant first, are `s`.
pub open spec fn from_bits(s: Seq<bool>) -> nat
    decreases s.len(),
{
    if s.len() == 0 {
        0
    } else {
        (if s[0] {
            1nat
        } else {
            0nat
        }) + 2 * from_bits(s.skip(1))
    }
}

/// The bits of a string of bytes, eight for each byte.
pub open spec fn byte_bits(b: Seq<u8>) -> Seq<bool>
    decreases b.len(),
{
    if b.len() == 0 {
        Seq::empty()
    } else {
        to_bits(b[0] as nat, 8) + byte_bits(b.skip(1))
    }
}

/// `n` zero bits.
pub open spec fn zeros(n: nat) -> Seq<bool> {
    Seq::new(n, |i: int| false)
}

/// How many bits are missing to the next byte boundary after `len` bits.
pub open spec fn padding(len: nat) -> nat {
    ((8 - len % 8) % 8) as nat
}

/// `s` followed by zero bits up to the next byte boundary.
pub open spec fn padded(s: Seq<bool>) -> Seq<bool> {
    s + zeros(padding(s.len()))
}

/// As many bits as were asked for.
pub broadcast proof fn lemma_to_bits_len(v: nat, n: nat)
    ensures
        #[trigger] to_bits(v, n).len() == n,
    decreases n,
{
    if n > 0 {
        lemma_to_bits_len(v / 2, (n - 1) as nat);
    }
}

/// Each byte has eight bits.
pub broadcast proof fn lemma_byte_bits_len(b: Seq<u8>)
    ensures
        #[trigger] byte_bits(b).len() == 8 * b.len(),
    decreases b.len(),
{
    if b.len() > 0 {
        lemma_to_bits_len(b[0] as nat, 8);
        lemma_byte_bits_len(b.skip(1));
    }
}

/// Halving and dividing by a power of two, in one step.
pub proof fn lemma_halve(v: nat, n: nat)
    ensures
        (v / 2) / pow2(n) == v / pow2(n + 1),
{
    lemma_pow2_pos(n);
    lemma_pow2_unfold(n + 1);
    lemma_div_denominator(v as int, 2, pow2(n) as int);
}

/// The bits of a number are its low ones and those of its quotient.
pub proof fn lemma_to_bits_split(v: nat, n: nat, m: nat)
    ensures
        to_bits(v, n + m) == to_bits(v, n) + to_bits(v / pow2(n), m),
    decreases n,
{
    if n == 0 {
        lemma_pow2_zero();
        assert(v / 1 == v);
        assert(to_bits(v, 0) + to_bits(v, m) =~= to_bits(v, m));
    } else {
        lemma_to_bits_split(v / 2, (n - 1) as nat, m);
        lemma_halve(v, (n - 1) as nat);
        assert(to_bits(v, n + m) =~= to_bits(v, n) + to_bits(v / pow2(n), m));
    }
}

/// The zeroth power of two.
pub proof fn lemma_pow2_zero()
    ensures
        pow2(0) == 1,
{
    vstd::arithmetic::power2::lemma2_to64();
}

/// Only the low `n` bits of `v` matter to `to_bits(v, n)`.
pub proof fn lemma_to_bits_add(v: nat, w: nat, n: nat)
    ensures
        to_bits(v + w * pow2(n), n) == to_bits(v, n),
    decreases n,
{
    if n > 0 {
        let k = (n - 1) as nat;
        lemma_pow2_unfold(n);
        let h = w * pow2(k);
        assert(w * pow2(n) == 2 * h) by {
            lemma_mul_is_associative(w as int, 2, pow2(k) as int);
            lemma_mul_is_commutative(w as int, 2);
            lemma_mul_is_associative(2, w as int, pow2(k) as int);
        }
        assert((v + 2 * h) / 2 == v / 2 + h);
        assert((v + 2 * h) % 2 == v % 2);
        lemma_to_bits_add(v / 2, w, k);
    }
}

/// A number put together from a low and a high part has the bits of the low
/// part followed by the bits of the high part.
pub proof fn lemma_to_bits_concat(v: nat, n: nat, w: nat, m: nat)
    requires
        v < pow2(n),
    ensures
        to_bits(v + w * pow2(n), n + m) == to_bits(v, n) + to_bits(w, m),
{
    let x = v + w * pow2(n);
    lemma_to_bits_split(x, n, m);
    lemma_to_bits_add(v, w, n);
    lemma_fundamental_div_mod_converse(x as int, pow2(n) as int, w as int, v as int);
}

/// Only the low bits of a number count.
pub proof fn lemma_to_bits_mod(v: nat, n: nat)
    ensures
        to_bits(v % pow2(n), n) == to_bits(v, n),
{
    lemma_pow2_pos(n);
    lemma_fundamental_div_mod(v as int, pow2(n) as int);
    lemma_mul_is_commutative(pow2(n) as int, (v / pow2(n)) as int);
    lemma_to_bits_add(v % pow2(n), v / pow2(n), n);
}

/// A number of some bits is below the power of two that comes behind them.
pub proof fn lemma_from_bits_bound(s: Seq<bool>)
    ensures
        from_bits(s) < pow2(s.len()),
    decreases s.len(),
{
    if s.len() == 0 {
        lemma_pow2_zero();
    } else {
        lemma_from_bits_bound(s.skip(1));
        lemma_pow2_unfold(s.len());
    }
}

/// Bits are those of the number that they make.
pub proof fn lemma_to_from_bits(s: Seq<bool>)
    ensures
        to_bits(from_bits(s), s.len()) == s,
    decreases s.len(),
{
    if s.len() > 0 {
        lemma_to_from_bits(s.skip(1));
        let rest = from_bits(s.skip(1));
        let v = from_bits(s);
        assert(v / 2 == rest && (v % 2 == 1) == s[0]);
        assert(s =~= seq![s[0]] + s.skip(1));
    } else {
        assert(s =~= Seq::<bool>::empty());
    }
}

/// The low bits of a number make its remainder.
pub proof fn lemma_from_to_bits(v: nat, n: nat)
    ensures
        from_bits(to_bits(v, n)) == v % pow2(n),
    decreases n,
{
    lemma_pow2_pos(n);
    if n == 0 {
        lemma_pow2_zero();
    } else {
        let k = (n - 1) as nat;
        let s = to_bits(v, n);
        lemma_from_to_bits(v / 2, k);
        assert(s.skip(1) =~= to_bits(v / 2, k));
        lemma_pow2_unfold(n);
        lemma_pow2_pos(k);
        lemma_mod_breakdown(v as int, 2, pow2(k) as int);
    }
}

/// A number that fits into `n` bits is given back by its `n` bits.
pub proof fn lemma_from_to_bits_fit(v: nat, n: nat)
    requires
        v < pow2(n),
    ensures
        from_bits(to_bits(v, n)) == v,
{
    lemma_from_to_bits(v, n);
    vstd::arithmetic::div_mod::lemma_small_mod(v, pow2(n));
}

/// The number that bits in two parts make.
pub proof fn lemma_from_bits_concat(a: Seq<bool>, b: Seq<bool>)
    ensures
        from_bits(a + b) == from_bits(a) + pow2(a.len()) * from_bits(b),
    decreases a.len(),
{
    if a.len() == 0 {
        assert(a + b =~= b);
        lemma_pow2_zero();
    } else {
        assert((a + b).skip(1) =~= a.skip(1) + b);
        lemma_from_bits_concat(a.skip(1), b);
        lemma_pow2_unfold(a.len());
        lemma_mul_is_associative(2, pow2((a.len() - 1) as nat) as int, from_bits(b) as int);
    }
}

/// The bits of bytes in two parts.
pub proof fn lemma_byte_bits_concat(a: Seq<u8>, b: Seq<u8>)
    ensures
        byte_bits(a + b) == byte_bits(a) + byte_bits(b),
    decreases a.len(),
{
    if a.len() == 0 {
        assert(a + b =~= b);
        assert(byte_bits(a) + byte_bits(b) =~= byte_bits(b));
    } else {
        assert((a + b).skip(1) =~= a.skip(1) + b);
        lemma_byte_bits_concat(a.skip(1), b);
        assert(byte_bits(a + b) =~= byte_bits(a) + byte_bits(b));
    }
}

/// The bits of one byte more.
pub proof fn lemma_byte_bits_push(a: Seq<u8>, b: u8)
    ensures
        byte_bits(a.push(b)) == byte_bits(a) + to_bits(b as nat, 8),
{
    assert(a.push(b) =~= a + seq![b]);
    lemma_byte_bits_concat(a, seq![b]);
    lemma_byte_bits_one(b);
}

/// The bits of a single byte.
pub proof fn lemma_byte_bits_one(b: u8)
    ensures
        byte_bits(seq![b]) == to_bits(b as nat, 8),
{
    assert(seq![b].skip(1) =~= Seq::<u8>::empty());
    assert(to_bits(b as nat, 8) + byte_bits(Seq::<u8>::empty()) =~= to_bits(b as nat, 8));
}

/// Dropping whole bytes drops eight bits for each.
pub proof fn lemma_byte_bits_skip(b: Seq<u8>, k: nat)
    requires
        k <= b.len(),
    ensures
        byte_bits(b).skip(8 * k as int) == byte_bits(b.skip(k as int)),
        byte_bits(b).take(8 * k as int) == byte_bits(b.take(k as int)),
{
    assert(b =~= b.take(k as int) + b.skip(k as int));
    lemma_byte_bits_concat(b.take(k as int), b.skip(k as int));
    lemma_byte_bits_len(b.take(k as int));
    lemma_byte_bits_len(b);
    assert(byte_bits(b).skip(8 * k as int) =~= byte_bits(b.skip(k as int)));
    assert(byte_bits(b).take(8 * k as int) =~= byte_bits(b.take(k as int)));
}

/// Two strings of bytes with the same bits are the same.
pub proof fn lemma_byte_bits_injective(a: Seq<u8>, b: Seq<u8>)
    requires
        byte_bits(a) == byte_bits(b),
    ensures
        a == b,
    decreases a.len(),
{
    lemma_byte_bits_len(a);
    lemma_byte_bits_len(b);
    if a.len() > 0 {
        lemma_byte_bits_skip(a, 1);
        lemma_byte_bits_skip(b, 1);
        lemma_first_byte(a);
        lemma_first_byte(b);
        lemma_byte_bits_injective(a.skip(1), b.skip(1));
        assert(a =~= seq![a[0]] + a.skip(1));
        assert(b =~= seq![b[0]] + b.skip(1));
    } else {
        assert(a =~= b);
    }
}

/// The first eight bits of a string of bytes are its first byte.
pub proof fn lemma_first_byte(b: Seq<u8>)
    requires
        b.len() > 0,
    ensures
        byte_bits(b).take(8) == to_bits(b[0] as nat, 8),
        from_bits(byte_bits(b).take(8)) == b[0],
{
    lemma_to_bits_len(b[0] as nat, 8);
    assert(byte_bits(b).take(8) =~= to_bits(b[0] as nat, 8));
    lemma_pow2_8();
    lemma_from_to_bits_fit(b[0] as nat, 8);
}

/// The eighth power of two.
pub proof fn lemma_pow2_8()
    ensures
        pow2(8) == 256,
{
    vstd::arithmetic::power2::lemma2_to64();
}

/// A zero is all zero bits.
pub proof fn lemma_to_bits_zero(n: nat)
    ensures
        to_bits(0, n) == zeros(n),
    decreases n,
{
    if n > 0 {
        lemma_to_bits_zero((n - 1) as nat);
        assert(0nat / 2 == 0 && 0nat % 2 == 0);
    }
    assert(to_bits(0, n) =~= zeros(n));
}

/// The number that a string of bytes makes, least significant byte first.
pub open spec fn le_value(b: Seq<u8>) -> nat
    decreases b.len(),
{
    if b.len() == 0 {
        0
    } else {
        b[0] as nat + 256 * le_value(b.skip(1))
    }
}

/// Reading the bits of a string of bytes as a number takes the bytes as its
/// digits.
pub proof fn lemma_le_value(b: Seq<u8>)
    ensures
        from_bits(byte_bits(b)) == le_value(b),
    decreases b.len(),
{
    if b.len() > 0 {
        lemma_le_value(b.skip(1));
        lemma_to_bits_len(b[0] as nat, 8);
        lemma_from_bits_concat(to_bits(b[0] as nat, 8), byte_bits(b.skip(1)));
        lemma_pow2_8();
        lemma_from_to_bits_fit(b[0] as nat, 8);
    }
}

/// The number that two bytes make.
pub proof fn lemma_le_value_2(b: Seq<u8>)
    requires
        b.len() == 2,
    ensures
        le_value(b) == b[0] + 256 * b[1],
{
    reveal_with_fuel(le_value, 3);
}

/// Skipping twice is skipping once.
pub proof fn lemma_skip_skip(s: Seq<bool>, a: int, b: int)
    requires
        0 <= a,
        0 <= b,
        a + b <= s.len(),
    ensures
        s.skip(a).skip(b) == s.skip(a + b),
{
    assert(s.skip(a).skip(b) =~= s.skip(a + b));
}

/// The whole bytes that a string of bits makes.
pub open spec fn bytes_of(s: Seq<bool>) -> Seq<u8> {
    Seq::new(s.len() / 8, |i: int| from_bits(s.subrange(8 * i, 8 * i + 8)) as u8)
}

/// The bits of bytes make these bytes again, also if bits that do not fill a
/// byte follow.
pub proof fn lemma_bytes_of(b: Seq<u8>, rest: Seq<bool>)
    requires
        rest.len() < 8,
    ensures
        bytes_of(byte_bits(b)) == b,
        bytes_of(byte_bits(b) + rest) == b,
{
    lemma_byte_bits_len(b);
    let s = byte_bits(b) + rest;
    assert forall|i: int| 0 <= i < b.len() implies #[trigger] bytes_of(s)[i] == b[i]
        && bytes_of(byte_bits(b))[i] == b[i] by {
        lemma_byte_bits_skip(b, i as nat);
        lemma_first_byte(b.skip(i));
        lemma_byte_bits_len(b.skip(i));
        assert(s.subrange(8 * i, 8 * i + 8) =~= byte_bits(b).skip(8 * i).take(8));
        assert(byte_bits(b).subrange(8 * i, 8 * i + 8) =~= byte_bits(b).skip(8 * i).take(8));
        assert(b.skip(i)[0] == b[i]);
    }
    assert(bytes_of(s) =~= b);
    assert(bytes_of(byte_bits(b)) =~= b);
}

/// Whole bytes have the bits that they were made of.
pub proof fn lemma_bits_of_bytes(s: Seq<bool>)
    requires
        s.len() % 8 == 0,
    ensures
        byte_bits(bytes_of(s)) == s,
    decreases s.len(),
{
    let b = bytes_of(s);
    if s.len() == 0 {
        assert(s =~= Seq::<bool>::empty());
    } else {
        let rest = s.skip(8);
        lemma_bits_of_bytes(rest);
        assert forall|i: int| 0 <= i < rest.len() / 8 implies #[trigger] bytes_of(rest)[i]
            == b[i + 1] by {
            assert(rest.subrange(8 * i, 8 * i + 8) =~= s.subrange(8 * (i + 1), 8 * (i + 1) + 8));
        }
        assert(b.skip(1) =~= bytes_of(rest));
        let first = s.subrange(0, 8);
        lemma_from_bits_bound(first);
        lemma_pow2_8();
        lemma_to_from_bits(first);
        assert(s =~= first + rest);
    }
}

} // verus!
