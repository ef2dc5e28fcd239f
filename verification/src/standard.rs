//! What RFC 1951 says of bits and codes, in its own terms.
//!
//! Numbers are packed with their least significant bit first, and codes with
//! their most significant bit first. The codes of an alphabet follow from their
//! widths, and those of a fixed block are numbers that the standard lists.

use crate::bit::end_of_stream;
use crate::bits::{
    byte_bits, lemma_byte_bits_len, lemma_halve, lemma_pow2_zero, lemma_to_bits_concat,
    lemma_to_bits_len, padded, to_bits,
};
use crate::canonical::{
    code, code_bits, count, first_code, lemma_rev_bound, rev, used, widths_ok, word,
};
use crate::error::Fault;
use crate::symbol::{fixed_distance_lengths, fixed_literal_lengths, lemma_fixed_widths};
use vstd::arithmetic::power2::{lemma_pow2_unfold, pow2};
use vstd::prelude::*;

verus! {

// ---------------------------------------------------------------------------
// Bits
// ---------------------------------------------------------------------------

/// Bit `k` of a packed number is worth `2^k`.
pub proof fn lemma_number_bit(v: nat, n: nat, k: nat)
    requires
        k < n,
    ensures
        to_bits(v, n).len() == n,
        to_bits(v, n)[k as int] == (v / pow2(k) % 2 == 1),
    decreases n,
{
    lemma_to_bits_len(v, n);
    lemma_to_bits_len(v / 2, (n - 1) as nat);
    if k == 0 {
        lemma_pow2_zero();
        assert(v / 1 == v);
    } else {
        lemma_number_bit(v / 2, (n - 1) as nat, (k - 1) as nat);
        lemma_halve(v, (k - 1) as nat);
        assert(to_bits(v, n)[k as int] == to_bits(v / 2, (n - 1) as nat)[k - 1]);
    }
}

/// Bit `k` of byte `i` is bit `8 * i + k` of the stream.
pub proof fn lemma_byte_bit(b: Seq<u8>, i: int, k: nat)
    requires
        0 <= i < b.len(),
        k < 8,
    ensures
        byte_bits(b).len() == 8 * b.len(),
        byte_bits(b)[8 * i + k] == (b[i] as nat / pow2(k) % 2 == 1),
    decreases b.len(),
{
    lemma_byte_bits_len(b);
    lemma_to_bits_len(b[0] as nat, 8);
    if i == 0 {
        lemma_number_bit(b[0] as nat, 8, k);
    } else {
        lemma_byte_bit(b.skip(1), i - 1, k);
        assert(byte_bits(b)[8 * i + k] == byte_bits(b.skip(1))[8 * (i - 1) + k]);
    }
}

/// Bits are padded with zeros up to the next byte boundary, and not at all if they
/// end at one.
pub proof fn lemma_padded(s: Seq<bool>)
    ensures
        padded(s).len() % 8 == 0,
        s.len() <= padded(s).len() < s.len() + 8,
        padded(s).take(s.len() as int) == s,
        forall|i: int| s.len() <= i < padded(s).len() ==> !#[trigger] padded(s)[i],
{
    assert(padded(s).take(s.len() as int) =~= s);
}

/// A read beyond the last bit is an error of its own.
pub proof fn lemma_end_of_input()
    ensures
        end_of_stream() == Fault::InvalidData("unexpected end of deflate stream"@),
{
}

/// Reversing the low `n` bits of a number puts bit `n - 1 - k` in place `k`.
pub proof fn lemma_reversed_bit(v: nat, n: nat, k: nat)
    requires
        k < n,
    ensures
        rev(v, n) < pow2(n),
        to_bits(rev(v, n), n)[k as int] == (v / pow2((n - 1 - k) as nat) % 2 == 1),
    decreases n,
{
    let m = (n - 1) as nat;
    let low = rev(v / 2, m);
    lemma_rev_bound(v, n);
    lemma_rev_bound(v / 2, m);
    lemma_to_bits_concat(low, m, v % 2, 1);
    lemma_to_bits_len(low, m);
    assert(to_bits(rev(v, n), n) == to_bits(low, m) + to_bits(v % 2, 1));
    if k == m {
        lemma_pow2_zero();
        assert(v / 1 == v);
        lemma_number_bit(v % 2, 1, 0);
        assert(v % 2 / 1 == v % 2);
    } else {
        lemma_reversed_bit(v / 2, m, k);
        lemma_halve(v, (m - 1 - k) as nat);
    }
}

/// A code is sent with its most significant bit first, in as many bits as its
/// width says.
pub proof fn lemma_code_bit(l: Seq<u8>, s: nat, k: nat)
    requires
        s < l.len(),
        k < l[s as int],
    ensures
        code_bits(l, s).len() == l[s as int],
        code_bits(l, s)[k as int] == (code(l, s) / pow2((l[s as int] - 1 - k) as nat) % 2 == 1),
{
    lemma_to_bits_len(word(l, s), l[s as int] as nat);
    lemma_reversed_bit(code(l, s), l[s as int] as nat, k);
}

// ---------------------------------------------------------------------------
// Codes
// ---------------------------------------------------------------------------

/// No code is wider than fifteen bits.
pub proof fn lemma_widths(l: Seq<u8>)
    ensures
        widths_ok(l) <==> forall|i: int| 0 <= i < l.len() ==> #[trigger] l[i] <= 15,
{
}

proof fn lemma_count_none(l: Seq<u8>, w: nat, a: nat, b: nat)
    requires
        a <= b <= l.len(),
        forall|i: int| a <= i < b ==> #[trigger] l[i] != w,
    ensures
        count(l, w, b) == count(l, w, a),
    decreases b,
{
    if a < b {
        lemma_count_none(l, w, a, (b - 1) as nat);
    }
}

proof fn lemma_first_code_none(l: Seq<u8>, w: nat)
    requires
        forall|i: int| 0 <= i < l.len() && l[i] > 0 ==> #[trigger] l[i] >= w,
    ensures
        first_code(l, w) == 0,
    decreases w,
{
    if w > 1 {
        let v = (w - 1) as nat;
        lemma_first_code_none(l, v);
        assert forall|i: int| 0 <= i < l.len() implies #[trigger] l[i] != v by {}
        lemma_count_none(l, v, 0, l.len());
    }
}

proof fn lemma_first_code_gap(l: Seq<u8>, w: nat, d: nat)
    requires
        w >= 1,
        d >= 1,
        forall|i: int| 0 <= i < l.len() ==> #[trigger] l[i] <= w || l[i] >= w + d,
    ensures
        first_code(l, w + d) == used(l, w) * pow2(d),
    decreases d,
{
    lemma_pow2_unfold(d);
    if d == 1 {
        lemma_pow2_zero();
        assert(first_code(l, w + 1) == 2 * used(l, w));
        let total = used(l, w);
        assert(total * pow2(1) == 2 * total) by (nonlinear_arith)
            requires
                pow2(1) == 2,
        ;
    } else {
        let e = (d - 1) as nat;
        lemma_first_code_gap(l, w, e);
        assert forall|i: int| 0 <= i < l.len() implies #[trigger] l[i] != w + e by {}
        lemma_count_none(l, w + e, 0, l.len());
        assert((w + d - 1) as nat == w + e);
        assert(first_code(l, w + d) == 2 * first_code(l, w + e));
        assert(2 * (used(l, w) * pow2(e)) == used(l, w) * pow2(d)) by (nonlinear_arith)
            requires
                pow2(d) == 2 * pow2(e),
        ;
    }
}

/// The first code, that of the first symbol of the least width, is zero.
pub proof fn lemma_first_code(l: Seq<u8>, s: nat)
    requires
        s < l.len(),
        l[s as int] > 0,
        forall|i: int| 0 <= i < l.len() && l[i] > 0 ==> #[trigger] l[i] >= l[s as int],
        forall|i: int| 0 <= i < s ==> #[trigger] l[i] != l[s as int],
    ensures
        code(l, s) == 0,
{
    let w = l[s as int] as nat;
    lemma_first_code_none(l, w);
    lemma_count_none(l, w, 0, s);
}

/// The next code is one more, with as many zero bits behind it as it is wider.
/// The order is that of the widths, and among equal widths that of the symbols.
pub proof fn lemma_next_code(l: Seq<u8>, a: nat, b: nat)
    requires
        a < l.len(),
        b < l.len(),
        0 < l[a as int] <= l[b as int],
        l[a as int] == l[b as int] ==> a < b,
        forall|i: int|
            0 <= i < l.len() ==> {
                ||| #[trigger] l[i] < l[a as int]
                ||| l[i] == l[a as int] && i <= a
                ||| l[i] == l[b as int] && i >= b
                ||| l[i] > l[b as int]
            },
    ensures
        code(l, b) == (code(l, a) + 1) * pow2((l[b as int] - l[a as int]) as nat),
{
    let u = l[a as int] as nat;
    let w = l[b as int] as nat;
    assert(count(l, u, a + 1) == count(l, u, a) + 1);
    if u == w {
        lemma_pow2_zero();
        lemma_count_none(l, u, a + 1, b);
        assert((code(l, a) + 1) * 1 == code(l, a) + 1);
    } else {
        lemma_count_none(l, u, a + 1, l.len());
        lemma_count_none(l, w, 0, b);
        lemma_first_code_gap(l, u, (w - u) as nat);
        assert(used(l, u) == code(l, a) + 1);
    }
}

// ---------------------------------------------------------------------------
// The codes of a fixed block
// ---------------------------------------------------------------------------

proof fn lemma_count_same(l: Seq<u8>, w: nat, a: nat, b: nat)
    requires
        a <= b <= l.len(),
        forall|i: int| a <= i < b ==> #[trigger] l[i] == w,
    ensures
        count(l, w, b) == count(l, w, a) + (b - a),
    decreases b,
{
    if a < b {
        lemma_count_same(l, w, a, (b - 1) as nat);
    }
}

proof fn lemma_fixed_starts()
    ensures
        first_code(fixed_literal_lengths(), 7) == 0,
        first_code(fixed_literal_lengths(), 8) == 48,
        first_code(fixed_literal_lengths(), 9) == 400,
        first_code(fixed_distance_lengths(), 5) == 0,
{
    let l = fixed_literal_lengths();
    lemma_fixed_widths();
    lemma_first_code_none(l, 7);
    lemma_count_none(l, 7, 0, 256);
    lemma_count_same(l, 7, 256, 280);
    lemma_count_none(l, 7, 280, 288);
    lemma_count_same(l, 8, 0, 144);
    lemma_count_none(l, 8, 144, 280);
    lemma_count_same(l, 8, 280, 288);
    assert(count(l, 7, 0) == 0 && count(l, 8, 0) == 0);
    assert(count(l, 7, 288) == 24);
    assert(count(l, 8, 288) == 152);
    assert(first_code(l, 8) == 2 * (first_code(l, 7) + count(l, 7, l.len())));
    assert(first_code(l, 9) == 2 * (first_code(l, 8) + count(l, 8, l.len())));
    lemma_first_code_none(fixed_distance_lengths(), 5);
}

/// The codes of the literal/length symbols of a fixed block: from 48 on with
/// eight bits for 0 to 143, from 400 on with nine bits for 144 to 255, from zero
/// on with seven bits for 256 to 279, and from 192 on with eight bits for 280 to
/// 287. Those of the distances are their own numbers with five bits.
pub proof fn lemma_fixed_codes(s: nat)
    ensures
        s < 144 ==> code(fixed_literal_lengths(), s) == 0x30 + s,
        144 <= s < 256 ==> code(fixed_literal_lengths(), s) == 0x190 + (s - 144),
        256 <= s < 280 ==> code(fixed_literal_lengths(), s) == s - 256,
        280 <= s < 288 ==> code(fixed_literal_lengths(), s) == 0xc0 + (s - 280),
        s < 30 ==> code(fixed_distance_lengths(), s) == s,
{
    let l = fixed_literal_lengths();
    lemma_fixed_widths();
    lemma_fixed_starts();
    if s < 144 {
        lemma_count_same(l, 8, 0, s);
    } else if s < 256 {
        lemma_count_none(l, 9, 0, 144);
        lemma_count_same(l, 9, 144, s);
    } else if s < 280 {
        lemma_count_none(l, 7, 0, 256);
        lemma_count_same(l, 7, 256, s);
    } else if s < 288 {
        lemma_count_same(l, 8, 0, 144);
        lemma_count_none(l, 8, 144, 280);
        lemma_count_same(l, 8, 280, s);
    }
    if s < 30 {
        lemma_count_same(fixed_distance_lengths(), 5, 0, s);
    }
}

} // verus!
