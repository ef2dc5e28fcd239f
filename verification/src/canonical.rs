//! Canonical Huffman codes (RFC 1951, section 3.2.2).
//!
//! A canonical code is given by one width for each symbol, zero for a symbol
//! that is not used. Codes of the same width are consecutive numbers in the
//! order of their symbols, and shorter codes come before longer ones. A code
//! is sent with its most significant bit first.

use crate::bits::{
    from_bits, lemma_from_bits_bound, lemma_from_bits_concat, lemma_from_to_bits_fit,
    lemma_pow2_zero, lemma_to_from_bits, to_bits,
};
use vstd::arithmetic::div_mod::{
    lemma_fundamental_div_mod, lemma_fundamental_div_mod_converse, lemma_mod_mod, lemma_small_mod,
};
use vstd::arithmetic::mul::{
    lemma_mul_inequality, lemma_mul_is_associative, lemma_mul_is_commutative,
    lemma_mul_is_distributive_add_other_way,
};
use vstd::arithmetic::power2::{
    lemma_pow2_adds, lemma_pow2_pos, lemma_pow2_strictly_increases, lemma_pow2_unfold, pow2,
};
use vstd::prelude::*;

verus! {

/// How many of the first `n` symbols have a code of width `w`.
pub open spec fn count(l: Seq<u8>, w: nat, n: nat) -> nat
    decreases n,
{
    if n == 0 {
        0
    } else {
        count(l, w, (n - 1) as nat) + (if l[n - 1] == w {
            1nat
        } else {
            0nat
        })
    }
}

/// The first code of width `w`.
pub open spec fn first_code(l: Seq<u8>, w: nat) -> nat
    decreases w,
{
    if w <= 1 {
        0
    } else {
        2 * (first_code(l, (w - 1) as nat) + count(l, (w - 1) as nat, l.len()))
    }
}

/// One more than the last code of width `w`, counted in codes of that width.
pub open spec fn used(l: Seq<u8>, w: nat) -> nat {
    first_code(l, w) + count(l, w, l.len())
}

/// The code of symbol `s`.
pub open spec fn code(l: Seq<u8>, s: nat) -> nat {
    first_code(l, l[s as int] as nat) + count(l, l[s as int] as nat, s)
}

/// The low `n` bits of `v` in reverse order.
pub open spec fn rev(v: nat, n: nat) -> nat
    decreases n,
{
    if n == 0 {
        0
    } else {
        (v % 2) * pow2((n - 1) as nat) + rev(v / 2, (n - 1) as nat)
    }
}

/// The code of symbol `s` as the number that its bits make in the order in
/// which they are sent.
pub open spec fn word(l: Seq<u8>, s: nat) -> nat {
    rev(code(l, s), l[s as int] as nat)
}

/// The bits that are sent for symbol `s`.
pub open spec fn code_bits(l: Seq<u8>, s: nat) -> Seq<bool> {
    to_bits(word(l, s), l[s as int] as nat)
}

/// No code is wider than DEFLATE allows.
pub open spec fn widths_ok(l: Seq<u8>) -> bool {
    forall|i: int| 0 <= i < l.len() ==> #[trigger] l[i] <= 15
}

/// There is room for all codes: no code is the beginning of another.
pub open spec fn prefix_free(l: Seq<u8>) -> bool {
    &&& widths_ok(l)
    &&& used(l, 15) <= pow2(15)
}

/// Symbol `s` is used, and the bits of `x` begin with its code.
pub open spec fn begins_with(l: Seq<u8>, s: nat, x: nat) -> bool {
    &&& s < l.len()
    &&& l[s as int] > 0
    &&& x % pow2(l[s as int] as nat) == word(l, s)
}

/// The symbol with whose code the bits of `x` begin, if there is one.
pub open spec fn lookup(l: Seq<u8>, x: nat) -> Option<nat> {
    if exists|s: nat| begins_with(l, s, x) {
        Some(choose|s: nat| begins_with(l, s, x))
    } else {
        None
    }
}

/// What the front of a bit string says about the next symbol.
pub enum Decoded {
    /// Too few bits to tell.
    NeedMore,
    /// No code begins this way.
    Invalid,
    /// The next symbol.
    Symbol(nat),
}

/// Read the next symbol from `bits` by looking at its first `peek` bits, and at
/// as many as the code that these could begin needs if that is more.
pub open spec fn decode_symbol(l: Seq<u8>, peek: nat, bits: Seq<bool>) -> Decoded
    decreases 256 - peek,
{
    if bits.len() < peek || peek > 15 {
        Decoded::NeedMore
    } else {
        match lookup(l, from_bits(bits.take(peek as int))) {
            None => Decoded::Invalid,
            Some(s) => if l[s as int] <= peek {
                Decoded::Symbol(s)
            } else {
                decode_symbol(l, l[s as int] as nat, bits)
            },
        }
    }
}

/// How many bits [`decode_symbol`] looks at in the end.
pub open spec fn decode_peek(l: Seq<u8>, peek: nat, bits: Seq<bool>) -> nat
    decreases 256 - peek,
{
    if bits.len() < peek || peek > 15 {
        peek
    } else {
        match lookup(l, from_bits(bits.take(peek as int))) {
            Some(s) if l[s as int] > peek => decode_peek(l, l[s as int] as nat, bits),
            _ => peek,
        }
    }
}

/// The greatest width in `l`.
pub open spec fn max_width(l: Seq<u8>) -> nat
    decreases l.len(),
{
    if l.len() == 0 {
        0
    } else {
        let before = max_width(l.drop_last());
        if l.last() > before {
            l.last() as nat
        } else {
            before
        }
    }
}

/// How many bits may be looked at safely before a symbol: as many as the code
/// of the symbol `end`, which ends every stream, has. Without such a symbol it
/// is the given hint, and without a hint the greatest width.
pub open spec fn peek_width(l: Seq<u8>, hint: Option<nat>, end: Option<nat>) -> nat {
    let max = max_width(l);
    let wanted = match end {
        Some(e) if e < l.len() && l[e as int] > 0 => l[e as int] as nat,
        _ => match hint {
            Some(h) => h,
            None => max,
        },
    };
    let positive = if wanted < 1 {
        1
    } else {
        wanted
    };
    if positive < max {
        positive
    } else {
        max
    }
}

// ---------------------------------------------------------------------------
// Reversal
// ---------------------------------------------------------------------------

/// A reversed number has no more bits.
pub proof fn lemma_rev_bound(v: nat, n: nat)
    ensures
        rev(v, n) < pow2(n),
    decreases n,
{
    if n == 0 {
        lemma_pow2_zero();
    } else {
        let k = (n - 1) as nat;
        lemma_rev_bound(v / 2, k);
        lemma_pow2_unfold(n);
        assert((v % 2) * pow2(k) <= pow2(k)) by (nonlinear_arith)
            requires
                0 <= v % 2 <= 1,
                pow2(k) >= 0,
        ;
    }
}

/// Reversing two parts reverses each and swaps them.
pub proof fn lemma_rev_concat(a: nat, n: nat, b: nat, m: nat)
    requires
        a < pow2(n),
    ensures
        rev(a + b * pow2(n), n + m) == rev(a, n) * pow2(m) + rev(b, m),
    decreases n,
{
    if n == 0 {
        lemma_pow2_zero();
        assert(b * 1 == b);
        assert(0 * pow2(m) == 0);
        assert(a == 0 && rev(a, 0) == 0);
    } else {
        let k = (n - 1) as nat;
        lemma_pow2_unfold(n);
        let h = b * pow2(k);
        assert(b * pow2(n) == 2 * h) by {
            lemma_mul_is_associative(b as int, 2, pow2(k) as int);
            lemma_mul_is_commutative(b as int, 2);
            lemma_mul_is_associative(2, b as int, pow2(k) as int);
        }
        let v = a + b * pow2(n);
        assert(v / 2 == a / 2 + h && v % 2 == a % 2);
        assert(a / 2 < pow2(k));
        lemma_rev_concat(a / 2, k, b, m);
        lemma_pow2_adds(k, m);
        let low = a % 2;
        assert(rev(v, n + m) == low * pow2((n + m - 1) as nat) + rev(v / 2, (n + m - 1) as nat));
        assert((n + m - 1) as nat == k + m);
        assert(low * pow2(k + m) == (low * pow2(k)) * pow2(m)) by {
            lemma_mul_is_associative(low as int, pow2(k) as int, pow2(m) as int);
        }
        lemma_mul_is_distributive_add_other_way(
            pow2(m) as int,
            (low * pow2(k)) as int,
            rev(a / 2, k) as int,
        );
    }
}

/// Zero reversed is zero.
pub proof fn lemma_rev_zero(n: nat)
    ensures
        rev(0, n) == 0,
    decreases n,
{
    if n > 0 {
        lemma_rev_zero((n - 1) as nat);
        assert(0nat / 2 == 0 && 0nat % 2 == 0);
        assert(0 * pow2((n - 1) as nat) == 0);
    }
}

/// Reversing twice gives a number back.
pub proof fn lemma_rev_rev(v: nat, n: nat)
    requires
        v < pow2(n),
    ensures
        rev(rev(v, n), n) == v,
    decreases n,
{
    if n == 0 {
        lemma_pow2_zero();
    } else {
        let k = (n - 1) as nat;
        lemma_pow2_unfold(n);
        let r = rev(v / 2, k);
        let low = v % 2;
        lemma_rev_bound(v / 2, k);
        lemma_rev_concat(r, k, low, 1);
        lemma_rev_rev(v / 2, k);
        lemma_pow2_zero();
        lemma_pow2_unfold(1);
        assert(rev(low, 1) == low) by {
            assert(rev(low / 2, 0) == 0);
            assert(low % 2 == low);
            assert((1 - 1) as nat == 0);
            assert(low * pow2(0) == low);
        }
        assert(k + 1 == n);
        assert(rev(v, n) == r + low * pow2(k));
        assert(v == (v / 2) * 2 + low);
    }
}

/// The first `w` of `big` reversed bits are the first `w` bits reversed.
pub proof fn lemma_rev_prefix(x: nat, w: nat, big: nat)
    requires
        w <= big,
    ensures
        rev(x % pow2(big), big) / pow2((big - w) as nat) == rev(x % pow2(w), w),
        (x % pow2(big)) % pow2(w) == x % pow2(w),
{
    let m = (big - w) as nat;
    lemma_pow2_pos(w);
    lemma_pow2_pos(m);
    lemma_pow2_pos(big);
    lemma_pow2_adds(w, m);
    let y = x % pow2(big);
    lemma_mod_mod(x as int, pow2(w) as int, pow2(m) as int);
    let a = y % pow2(w);
    let b = y / pow2(w);
    lemma_fundamental_div_mod(y as int, pow2(w) as int);
    lemma_mul_is_commutative(pow2(w) as int, b as int);
    lemma_rev_concat(a, w, b, m);
    lemma_rev_bound(b, m);
    lemma_fundamental_div_mod_converse(
        rev(y, big) as int,
        pow2(m) as int,
        rev(a, w) as int,
        rev(b, m) as int,
    );
}

// ---------------------------------------------------------------------------
// The order of the codes
// ---------------------------------------------------------------------------

/// More symbols have no fewer codes of a width.
pub proof fn lemma_count_monotonic(l: Seq<u8>, w: nat, a: nat, b: nat)
    requires
        a <= b <= l.len(),
    ensures
        count(l, w, a) <= count(l, w, b),
        a < b && l[a as int] == w ==> count(l, w, a) + 1 <= count(l, w, b),
    decreases b,
{
    if a < b {
        lemma_count_monotonic(l, w, a, (b - 1) as nat);
    }
}

/// What is used of one width is a lower bound for all greater widths.
pub proof fn lemma_used_grows(l: Seq<u8>, w: nat, d: nat)
    requires
        w >= 1,
    ensures
        d > 0 ==> used(l, w) * pow2(d) <= first_code(l, w + d),
        used(l, w) * pow2(d) <= used(l, w + d),
    decreases d,
{
    if d == 0 {
        lemma_pow2_zero();
    } else {
        let e = (d - 1) as nat;
        lemma_used_grows(l, w, e);
        lemma_pow2_unfold(d);
        assert(used(l, w) * pow2(d) == 2 * (used(l, w) * pow2(e))) by (nonlinear_arith)
            requires
                pow2(d) == 2 * pow2(e),
        ;
        assert(first_code(l, w + d) == 2 * used(l, (w + d - 1) as nat));
        assert((w + d - 1) as nat == w + e);
    }
}

/// There are at most `2^w` codes up to width `w`.
pub proof fn lemma_used_bound(l: Seq<u8>, w: nat)
    requires
        prefix_free(l),
        1 <= w <= 15,
    ensures
        used(l, w) <= pow2(w),
        used(l, w) * pow2((15 - w) as nat) <= used(l, 15),
{
    let d = (15 - w) as nat;
    lemma_used_grows(l, w, d);
    lemma_pow2_adds(w, d);
    lemma_pow2_pos(d);
    assert(used(l, w) <= pow2(w)) by (nonlinear_arith)
        requires
            used(l, w) * pow2(d) <= pow2(w) * pow2(d),
            pow2(d) > 0,
    ;
}

/// A code fits into its width.
pub proof fn lemma_code_bound(l: Seq<u8>, s: nat)
    requires
        prefix_free(l),
        s < l.len(),
        l[s as int] > 0,
    ensures
        code(l, s) < used(l, l[s as int] as nat) <= pow2(l[s as int] as nat),
        word(l, s) < pow2(l[s as int] as nat),
        rev(word(l, s), l[s as int] as nat) == code(l, s),
{
    let w = l[s as int] as nat;
    lemma_used_bound(l, w);
    lemma_count_monotonic(l, w, s, l.len());
    lemma_rev_bound(code(l, s), w);
    lemma_rev_rev(code(l, s), w);
}

/// Symbol `a` comes before symbol `b` in the order of the codes.
pub open spec fn precedes(l: Seq<u8>, a: nat, b: nat) -> bool {
    l[a as int] < l[b as int] || (l[a as int] == l[b as int] && a < b)
}

/// A later code lies beyond all continuations of an earlier one.
pub proof fn lemma_code_order(l: Seq<u8>, a: nat, b: nat)
    requires
        a < l.len(),
        b < l.len(),
        l[a as int] > 0,
        precedes(l, a, b),
    ensures
        (code(l, a) + 1) * pow2((l[b as int] - l[a as int]) as nat) <= code(l, b),
{
    let wa = l[a as int] as nat;
    let wb = l[b as int] as nat;
    let d = (wb - wa) as nat;
    lemma_count_monotonic(l, wa, a, l.len());
    if d == 0 {
        lemma_count_monotonic(l, wa, a, b);
        lemma_pow2_zero();
    } else {
        lemma_used_grows(l, wa, d);
        lemma_mul_inequality((code(l, a) + 1) as int, used(l, wa) as int, pow2(d) as int);
    }
}

/// No bit string begins with the codes of two symbols.
pub proof fn lemma_unique(l: Seq<u8>, a: nat, b: nat, x: nat)
    requires
        prefix_free(l),
        begins_with(l, a, x),
        begins_with(l, b, x),
    ensures
        a == b,
{
    lemma_not_precedes(l, a, b, x);
    lemma_not_precedes(l, b, a, x);
}

proof fn lemma_not_precedes(l: Seq<u8>, a: nat, b: nat, x: nat)
    requires
        prefix_free(l),
        begins_with(l, a, x),
        begins_with(l, b, x),
    ensures
        !precedes(l, a, b),
{
    if precedes(l, a, b) {
        let wa = l[a as int] as nat;
        let wb = l[b as int] as nat;
        let d = (wb - wa) as nat;
        lemma_code_bound(l, a);
        lemma_code_bound(l, b);
        lemma_rev_prefix(x, wa, wb);
        lemma_pow2_pos(d);
        assert(code(l, b) / pow2(d) == code(l, a));
        lemma_code_order(l, a, b);
        lemma_fundamental_div_mod(code(l, b) as int, pow2(d) as int);
        lemma_mul_is_commutative(pow2(d) as int, code(l, a) as int);
        lemma_mul_is_distributive_add_other_way(pow2(d) as int, code(l, a) as int, 1);
    }
}

/// The one symbol with whose code `x` begins is the one that is found.
pub proof fn lemma_lookup(l: Seq<u8>, s: nat, x: nat)
    requires
        prefix_free(l),
        begins_with(l, s, x),
    ensures
        lookup(l, x) == Some(s),
{
    let t = choose|t: nat| begins_with(l, t, x);
    lemma_unique(l, s, t, x);
}

// ---------------------------------------------------------------------------
// Decoding
// ---------------------------------------------------------------------------

proof fn lemma_rank(l: Seq<u8>, w: nat, q: nat, n: nat) -> (s: nat)
    requires
        n <= l.len(),
        q < count(l, w, n),
    ensures
        s < n,
        l[s as int] == w,
        count(l, w, s) == q,
    decreases n,
{
    if n == 0 {
        0
    } else if q < count(l, w, (n - 1) as nat) {
        lemma_rank(l, w, q, (n - 1) as nat)
    } else {
        (n - 1) as nat
    }
}

/// Every number below what is used begins with a code, when both are read as
/// fifteen bits with the most significant bit first.
proof fn lemma_cover(l: Seq<u8>, z: nat, w: nat) -> (s: nat)
    requires
        1 <= w <= 15,
        z < used(l, w) * pow2((15 - w) as nat),
    ensures
        s < l.len(),
        1 <= l[s as int] <= w,
        z / pow2((15 - l[s as int]) as nat) == code(l, s),
    decreases w,
{
    let d = (15 - w) as nat;
    lemma_pow2_pos(d);
    assert(0 * pow2(d) == 0);
    if first_code(l, w) * pow2(d) <= z {
        let q = z / pow2(d);
        lemma_fundamental_div_mod(z as int, pow2(d) as int);
        let r = z % pow2(d);
        assert(first_code(l, w) <= q < used(l, w)) by (nonlinear_arith)
            requires
                z == pow2(d) * q + r,
                0 <= r < pow2(d),
                first_code(l, w) * pow2(d) <= z,
                z < used(l, w) * pow2(d),
        ;
        lemma_rank(l, w, (q - first_code(l, w)) as nat, l.len())
    } else {
        assert(w > 1);
        lemma_pow2_unfold(d + 1);
        let v = (w - 1) as nat;
        assert(used(l, v) * pow2(d + 1) == first_code(l, w) * pow2(d)) by (nonlinear_arith)
            requires
                pow2(d + 1) == 2 * pow2(d),
                first_code(l, w) == 2 * used(l, v),
        ;
        assert((15 - v) as nat == d + 1);
        lemma_cover(l, z, v)
    }
}

/// The first `k` bits of a bit string as a number are the low bits of any
/// longer front of it.
pub proof fn lemma_front(bits: Seq<bool>, k: nat, n: nat)
    requires
        k <= n <= bits.len(),
    ensures
        from_bits(bits.take(n as int)) % pow2(k) == from_bits(bits.take(k as int)),
{
    let a = bits.take(k as int);
    let b = bits.subrange(k as int, n as int);
    assert(bits.take(n as int) =~= a + b);
    lemma_from_bits_concat(a, b);
    lemma_from_bits_bound(a);
    lemma_mul_is_commutative(pow2(k) as int, from_bits(b) as int);
    lemma_fundamental_div_mod_converse(
        from_bits(bits.take(n as int)) as int,
        pow2(k) as int,
        from_bits(b) as int,
        from_bits(a) as int,
    );
}

/// A bit string that begins with the code of a symbol decodes to that symbol.
pub proof fn lemma_decode_symbol(l: Seq<u8>, peek: nat, bits: Seq<bool>, s: nat)
    requires
        prefix_free(l),
        s < l.len(),
        l[s as int] > 0,
        1 <= peek <= 15,
        bits.len() >= peek,
        bits.len() >= l[s as int],
        bits.take(l[s as int] as int) == code_bits(l, s),
    ensures
        decode_symbol(l, peek, bits) == Decoded::Symbol(s),
        decode_peek(l, peek, bits) == if l[s as int] <= peek {
            peek
        } else {
            l[s as int] as nat
        },
    decreases 256 - peek,
{
    let w = l[s as int] as nat;
    let y = word(l, s);
    lemma_code_bound(l, s);
    lemma_from_to_bits_fit(y, w);
    let x = from_bits(bits.take(peek as int));
    lemma_from_bits_bound(bits.take(peek as int));
    if w <= peek {
        lemma_front(bits, w, peek);
        lemma_lookup(l, s, x);
    } else {
        lemma_front(bits, peek, w);
        assert(y % pow2(peek) == x);
        // The fifteen bits that begin like `x` and go on with zeros.
        let z = rev(x, 15);
        let d = (15 - peek) as nat;
        let e = (w - peek) as nat;
        let f = (15 - w) as nat;
        lemma_rev_concat(x, peek, 0, d);
        lemma_rev_zero(d);
        assert(0 * pow2(peek) == 0);
        assert(peek + d == 15);
        assert(z == rev(x, peek) * pow2(d));
        lemma_rev_prefix(y, peek, w);
        lemma_small_mod(y, pow2(w));
        lemma_pow2_pos(e);
        lemma_pow2_pos(f);
        assert(code(l, s) / pow2(e) == rev(x, peek)) by {
            lemma_rev_rev(code(l, s), w);
        }
        lemma_fundamental_div_mod(code(l, s) as int, pow2(e) as int);
        lemma_pow2_adds(e, f);
        assert(e + f == d);
        let top = rev(x, peek);
        let cs = code(l, s);
        assert(z <= cs * pow2(f)) by (nonlinear_arith)
            requires
                z == top * pow2(d),
                pow2(d) == pow2(e) * pow2(f),
                cs >= pow2(e) * top,
                pow2(f) > 0,
        ;
        lemma_used_bound(l, w);
        assert(cs * pow2(f) < used(l, w) * pow2(f)) by (nonlinear_arith)
            requires
                cs < used(l, w),
                pow2(f) > 0,
        ;
        lemma_used_bound(l, 15);
        lemma_pow2_zero();
        assert(used(l, 15) * pow2((15 - 15) as nat) == used(l, 15));
        let t = lemma_cover(l, z, 15);
        let wt = l[t as int] as nat;
        lemma_code_bound(l, t);
        lemma_rev_prefix(x, wt, 15);
        if peek < 15 {
            lemma_pow2_strictly_increases(peek, 15);
        }
        lemma_small_mod(x, pow2(15));
        assert(rev(x % pow2(wt), wt) == code(l, t));
        lemma_pow2_pos(wt);
        lemma_rev_rev(x % pow2(wt), wt);
        assert(begins_with(l, t, x));
        lemma_lookup(l, t, x);
        // Its code is not complete within `peek` bits.
        if wt <= peek {
            lemma_rev_prefix(y, wt, peek);
            assert(begins_with(l, t, y));
            assert(begins_with(l, s, y));
            lemma_unique(l, s, t, y);
        }
        // And it is no longer than that of `s`.

        if wt > w {
            lemma_code_order(l, s, t);
            let g = (wt - w) as nat;
            let h = (15 - wt) as nat;
            let ct = code(l, t);
            lemma_pow2_adds(g, h);
            lemma_pow2_pos(h);
            lemma_fundamental_div_mod(z as int, pow2(h) as int);
            assert(z >= (cs + 1) * pow2(f)) by (nonlinear_arith)
                requires
                    z >= pow2(h) * ct,
                    ct >= (cs + 1) * pow2(g),
                    pow2(f) == pow2(g) * pow2(h),
                    pow2(h) > 0,
            ;
            assert((cs + 1) * pow2(f) == cs * pow2(f) + pow2(f)) by (nonlinear_arith);
        }
        lemma_decode_symbol(l, wt, bits, s);
    }
}

/// More bits behind do not change a decision that was reached without them.
pub proof fn lemma_decode_symbol_extend(l: Seq<u8>, peek: nat, bits: Seq<bool>, more: Seq<bool>)
    requires
        !(decode_symbol(l, peek, bits) is NeedMore),
    ensures
        decode_symbol(l, peek, bits + more) == decode_symbol(l, peek, bits),
    decreases 256 - peek,
{
    assert((bits + more).take(peek as int) =~= bits.take(peek as int));
    if let Some(s) = lookup(l, from_bits(bits.take(peek as int))) {
        if l[s as int] > peek {
            lemma_decode_symbol_extend(l, l[s as int] as nat, bits, more);
        }
    }
}

/// A decoded symbol is used, and the bits begin with its code.
pub proof fn lemma_decoded(l: Seq<u8>, peek: nat, bits: Seq<bool>)
    requires
        decode_symbol(l, peek, bits) is Symbol,
    ensures
        ({
            let s = decode_symbol(l, peek, bits)->Symbol_0;
            &&& s < l.len()
            &&& 0 < l[s as int] <= 15
            &&& l[s as int] <= bits.len()
            &&& peek <= bits.len()
            &&& from_bits(bits.take(l[s as int] as int)) == word(l, s)
            &&& bits.take(l[s as int] as int) == code_bits(l, s)
        }),
    decreases 256 - peek,
{
    let x = from_bits(bits.take(peek as int));
    let s = lookup(l, x)->0;
    assert(begins_with(l, s, x));
    if l[s as int] > peek {
        lemma_decoded(l, l[s as int] as nat, bits);
    } else {
        lemma_front(bits, l[s as int] as nat, peek);
        lemma_to_from_bits(bits.take(l[s as int] as int));
    }
}

// ---------------------------------------------------------------------------
// Widths
// ---------------------------------------------------------------------------

/// The largest width is one of the widths, and none is larger.
pub proof fn lemma_max_width(l: Seq<u8>)
    ensures
        forall|i: int| 0 <= i < l.len() ==> #[trigger] l[i] <= max_width(l),
        max_width(l) > 0 ==> exists|i: int| 0 <= i < l.len() && #[trigger] l[i] == max_width(l),
        max_width(l) <= 255,
        widths_ok(l) <==> max_width(l) <= 15,
    decreases l.len(),
{
    if l.len() > 0 {
        let before = l.drop_last();
        lemma_max_width(before);
        assert forall|i: int| 0 <= i < l.len() implies #[trigger] l[i] <= max_width(l) by {
            if i < l.len() - 1 {
                assert(l[i] == before[i]);
            }
        }
        if l.last() > max_width(before) {
            assert(l[l.len() - 1] == max_width(l));
        } else if max_width(before) > 0 {
            let i = choose|i: int|
                0 <= i < before.len() && #[trigger] before[i] == max_width(before);
            assert(l[i] == max_width(l));
        }
    }
}

} // verus!
