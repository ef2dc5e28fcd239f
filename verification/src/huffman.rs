//! Canonical Huffman encoder and decoder.

use crate::bit::{end_of_stream, loaded, BitReader, BitWriter};
use crate::bits::{lemma_from_bits_bound, lemma_pow2_zero, lemma_to_bits_len, to_bits};
use crate::canonical::{
    begins_with, code, code_bits, count, decode_peek, decode_symbol, first_code, lemma_code_bound,
    lemma_count_monotonic, lemma_decode_symbol, lemma_decoded, lemma_lookup, lemma_max_width,
    lemma_rev_bound, lemma_rev_concat, lemma_rev_prefix, lemma_rev_rev, lemma_rev_zero,
    lemma_used_bound, lemma_used_grows, lookup, max_width, peek_width, prefix_free, rev, used,
    widths_ok, word, Decoded,
};
use crate::error::{invalid, invalid_data, Error, Fault};
pub use crate::package_merge::length_limited_code_lengths;
use crate::symbol::MAX_BITS;
use vstd::arithmetic::div_mod::{
    lemma_fundamental_div_mod, lemma_fundamental_div_mod_converse, lemma_small_mod,
};
use vstd::arithmetic::mul::{lemma_mul_inequality, lemma_mul_is_commutative};
use vstd::arithmetic::power2::{
    lemma2_to64, lemma_pow2_adds, lemma_pow2_pos, lemma_pow2_strictly_increases,
    lemma_pow2_unfold, pow2,
};
use vstd::prelude::*;

verus! {

/// Only the low `n` bits matter to a reversal of `n` bits.
proof fn lemma_rev_low(v: nat, n: nat)
    ensures
        rev(v % pow2(n), n) == rev(v, n),
{
    lemma_pow2_pos(n);
    lemma_pow2_zero();
    lemma_fundamental_div_mod(v as int, pow2(n) as int);
    lemma_mul_is_commutative(pow2(n) as int, (v / pow2(n)) as int);
    lemma_rev_concat(v % pow2(n), n, v / pow2(n), 0);
}

/// Reversing one more bit.
proof fn lemma_rev_step(v: nat, n: nat)
    ensures
        rev(v, n + 1) == 2 * rev(v, n) + (v / pow2(n)) % 2,
{
    let q = v / pow2(n);
    lemma_pow2_pos(n);
    lemma_pow2_zero();
    lemma_pow2_unfold(1);
    lemma_fundamental_div_mod(v as int, pow2(n) as int);
    lemma_mul_is_commutative(pow2(n) as int, q as int);
    lemma_rev_concat(v % pow2(n), n, q, 1);
    lemma_rev_low(v, n);
    assert(rev(q, 1) == q % 2) by {
        assert((1 - 1) as nat == 0);
        assert((q % 2) * pow2(0) == q % 2);
        assert(rev(q / 2, 0) == 0);
    }
    let r = rev(v, n);
    assert(r * 2 == 2 * r);
}

/// The low `width` bits of `bits` in reverse order.
pub fn reverse_bits(bits: u16, width: u8) -> (reversed: u16)
    requires
        width <= 16,
    ensures
        reversed == rev(bits as nat, width as nat),
{
    let mut from: u16 = bits;
    let mut to: u16 = 0;
    let mut i: u8 = 0;
    proof {
        lemma_pow2_zero();
    }
    while i < width
        invariant
            i <= width <= 16,
            to == rev(bits as nat, i as nat),
            from == bits as nat / pow2(i as nat),
        decreases width - i,
    {
        proof {
            let t = to;
            let f = from;
            lemma_rev_step(bits as nat, i as nat);
            lemma_rev_bound(bits as nat, i as nat + 1);
            lemma2_to64();
            if i + 1 < 16 {
                lemma_pow2_strictly_increases(i as nat + 1, 16);
            }
            assert(t < 32768 ==> (t << 1) | (f & 1) == 2 * t + f % 2) by (bit_vector);
            assert(f >> 1 == f / 2) by (bit_vector);
            lemma_pow2_unfold(i as nat + 1);
            lemma_pow2_pos(i as nat);
            vstd::arithmetic::div_mod::lemma_div_denominator(
                bits as int,
                pow2(i as nat) as int,
                2,
            );
            lemma_mul_is_commutative(pow2(i as nat) as int, 2);
        }
        to = (to << 1) | (from & 1);
        from = from >> 1;
        i += 1;
    }
    to
}

/// A code as it is written: its width, and its bits in the order in which they
/// are sent.
#[derive(Debug, Clone, Copy, PartialEq, Eq)]
pub struct Code {
    /// The number of bits.
    pub width: u8,
    /// The bits, first one lowest.
    pub bits: u16,
}

/// Encoder side of a canonical Huffman table built from per-symbol code
/// lengths.
#[derive(Debug)]
pub struct HuffmanEncoder {
    codes: Vec<Code>,
}

/// There are fewer than `2^w` codes of width `w` for each symbol.
proof fn lemma_used_total(l: Seq<u8>, w: nat)
    requires
        w >= 1,
    ensures
        used(l, w) + l.len() <= l.len() * pow2(w),
    decreases w,
{
    let n = l.len();
    lemma_pow2_unfold(w);
    lemma_count_total(l, w, n);
    if w == 1 {
        lemma_pow2_zero();
        assert(n * 2 == 2 * n);
    } else {
        let v = (w - 1) as nat;
        lemma_used_total(l, v);
        assert(n * pow2(w) == 2 * (n * pow2(v))) by (nonlinear_arith)
            requires
                pow2(w) == 2 * pow2(v),
        ;
    }
}

proof fn lemma_count_total(l: Seq<u8>, w: nat, n: nat)
    requires
        n <= l.len(),
    ensures
        count(l, w, n) <= n,
    decreases n,
{
    if n > 0 {
        lemma_count_total(l, w, (n - 1) as nat);
    }
}

impl HuffmanEncoder {
    /// The code widths that the table was built from.
    pub closed spec fn lengths(self) -> Seq<u8> {
        Seq::new(self.codes@.len(), |i: int| self.codes@[i].width)
    }

    /// Each symbol has the code that its width and the canonical order give it.
    pub closed spec fn wf(self) -> bool {
        &&& widths_ok(self.lengths())
        &&& self.codes@.len() <= 65536
        &&& forall|s: int|
            0 <= s < self.codes@.len() && self.codes@[s].width > 0 ==> (
            #[trigger] self.codes@[s]).bits == word(self.lengths(), s as nat)
        &&& forall|s: int|
            0 <= s < self.codes@.len() && self.codes@[s].width == 0 ==> (
            #[trigger] self.codes@[s]).bits == 0
    }

    /// Assign canonical codes to the symbols with a width. No width may exceed
    /// fifteen bits.
    pub fn from_code_lengths(lengths: &[u8]) -> (r: Result<Self, Error>)
        requires
            lengths@.len() <= 65536,
        ensures
            widths_ok(lengths@) ==> (r matches Ok(e) && e.wf() && e.lengths() == lengths@),
            !widths_ok(lengths@) ==> (r matches Err(e) && e@ == invalid(
                "huffman code length exceeds 15 bits",
            )),
    {
        let n: usize = lengths.len();
        let ghost l = lengths@;
        let mut k: usize = 0;
        let mut codes: Vec<Code> = Vec::with_capacity(n);
        while k < n
            invariant
                k <= n == l.len(),
                l == lengths@,
                codes@.len() == k,
                forall|i: int| 0 <= i < k ==> #[trigger] l[i] <= 15,
                forall|i: int|
                    0 <= i < k ==> #[trigger] codes@[i] == (Code { width: 0, bits: 0 }),
            decreases n - k,
        {
            if lengths[k] > MAX_BITS {
                assert(l[k as int] > 15);
                return Err(invalid_data("huffman code length exceeds 15 bits"));
            }
            codes.push(Code { width: 0, bits: 0 });
            k += 1;
        }
        let mut code_value: u32 = 0;
        let mut width: u8 = 1;
        while width <= 15
            invariant
                1 <= width <= 16,
                n == l.len() <= 65536,
                l == lengths@,
                widths_ok(l),
                codes@.len() == n,
                width <= 15 ==> code_value == first_code(l, width as nat),
                forall|i: int|
                    0 <= i < n && 0 < l[i] < width ==> #[trigger] codes@[i] == (Code {
                        width: l[i],
                        bits: word(l, i as nat) as u16,
                    }),
                forall|i: int|
                    0 <= i < n && (l[i] == 0 || l[i] >= width) ==> #[trigger] codes@[i] == (Code {
                        width: 0,
                        bits: 0,
                    }),
            decreases 16 - width,
        {
            let mut symbol: usize = 0;
            proof {
                lemma_used_total(l, width as nat);
                lemma2_to64();
                if width < 15 {
                    lemma_pow2_strictly_increases(width as nat, 15);
                }
                let total = used(l, width as nat);
                assert(total <= 65536 * 32767) by (nonlinear_arith)
                    requires
                        0 <= n <= 65536,
                        total + n <= n * pow2(width as nat),
                        pow2(width as nat) <= 32768,
                ;
            }
            while symbol < n
                invariant
                    1 <= width <= 15,
                    symbol <= n == l.len() <= 65536,
                    l == lengths@,
                    widths_ok(l),
                    codes@.len() == n,
                    code_value == first_code(l, width as nat) + count(
                        l,
                        width as nat,
                        symbol as nat,
                    ),
                    used(l, width as nat) <= 65536 * 32767,
                    forall|i: int|
                        0 <= i < n && (0 < l[i] < width || (l[i] == width && i < symbol))
                            ==> #[trigger] codes@[i] == (Code {
                            width: l[i],
                            bits: word(l, i as nat) as u16,
                        }),
                    forall|i: int|
                        0 <= i < n && (l[i] == 0 || l[i] > width || (l[i] == width && i >= symbol))
                            ==> #[trigger] codes@[i] == (Code { width: 0, bits: 0 }),
                decreases n - symbol,
            {
                if lengths[symbol] == width {
                    let low: u16 = (code_value & 0xffff) as u16;
                    proof {
                        let c = code_value;
                        assert((c & 0xffff) == c % 65536) by (bit_vector);
                        lemma2_to64();
                        let d = (16 - width) as nat;
                        lemma_rev_prefix(c as nat, width as nat, 16);
                        lemma_rev_low(c as nat, width as nat);
                        lemma_rev_low(low as nat, width as nat);
                        lemma_rev_bound(c as nat, width as nat);
                        if width < 16 {
                            lemma_pow2_strictly_increases(width as nat, 16);
                        }
                        lemma_count_monotonic(l, width as nat, symbol as nat, l.len());
                        assert(code(l, symbol as nat) == code_value);
                    }
                    codes.set(symbol, Code { width, bits: reverse_bits(low, width) });
                    code_value += 1;
                }
                symbol += 1;
            }
            assert(code_value == used(l, width as nat));
            code_value = code_value * 2;
            width += 1;
        }
        let encoder = HuffmanEncoder { codes };
        proof {
            assert(encoder.lengths() =~= l);
            assert forall|s: int| 0 <= s < n && encoder.codes@[s].width > 0 implies (
            #[trigger] encoder.codes@[s]).bits == word(l, s as nat) by {
                lemma_rev_bound(code(l, s as nat), l[s] as nat);
                lemma2_to64();
                lemma_pow2_strictly_increases(l[s] as nat, 16);
            }
        }
        Ok(encoder)
    }

    /// Write the code of `symbol`.
    pub fn encode(&self, writer: &mut BitWriter<'_>, symbol: u16)
        requires
            self.wf(),
            symbol < self.lengths().len(),
            old(writer).wf(),
        ensures
            final(writer).wf(),
            final(writer).bits() == old(writer).bits() + code_bits(self.lengths(), symbol as nat),
            final(final(writer).output)@ == final(old(writer).output)@,
            exists|more: Seq<u8>| final(writer).bytes() == #[trigger] (old(writer).bytes() + more),
    {
        let code: Code = self.codes[symbol as usize];
        proof {
            let l = self.lengths();
            assert(l[symbol as int] == code.width);
            lemma_rev_bound(crate::canonical::code(l, symbol as nat), code.width as nat);
            lemma_pow2_zero();
            assert(self.codes@[symbol as int] == code);
            assert(to_bits(0, 0) =~= to_bits(word(l, symbol as nat), 0));
        }
        writer.write_bits(code.width, code.bits);
    }

    /// The width of the code of `symbol`, zero if it has none.
    pub fn code_width(&self, symbol: u16) -> (width: u8)
        ensures
            width == if symbol < self.lengths().len() {
                self.lengths()[symbol as int]
            } else {
                0
            },
    {
        if (symbol as usize) < self.codes.len() {
            self.codes[symbol as usize].width
        } else {
            0
        }
    }

    /// The last symbol that has a code.
    pub fn used_max_symbol(&self) -> (last: Option<u16>)
        requires
            self.wf(),
        ensures
            match last {
                Some(s) => {
                    &&& s < self.lengths().len()
                    &&& self.lengths()[s as int] > 0
                    &&& forall|i: int|
                        s < i < self.lengths().len() ==> #[trigger] self.lengths()[i] == 0
                },
                None => forall|i: int|
                    0 <= i < self.lengths().len() ==> #[trigger] self.lengths()[i] == 0,
            },
    {
        let mut n: usize = self.codes.len();
        while n > 0
            invariant
                n <= self.codes@.len() <= 65536,
                forall|i: int| n <= i < self.codes@.len() ==> #[trigger] self.lengths()[i] == 0,
            decreases n,
        {
            if self.codes[n - 1].width > 0 {
                assert(self.lengths()[n - 1] > 0);
                return Some((n - 1) as u16);
            }
            n -= 1;
        }
        None
    }
}

/// What a table entry holds for symbol `s` with a code of width `w`. There is
/// room for eleven bits of the symbol.
pub open spec fn packed(s: nat, w: nat) -> nat {
    32 * (s % 2048) + w
}

/// What a table tells of symbol `s`.
pub open spec fn told(s: nat) -> u16 {
    if s < 2048 {
        s as u16
    } else {
        (s % 2048) as u16
    }
}

/// The entry `v` holds the symbol with whose code the index `i` begins.
spec fn names_symbol(l: Seq<u8>, i: nat, v: u16) -> bool {
    exists|s: nat| #[trigger] begins_with(l, s, i) && v == packed(s, l[s as int] as nat)
}

/// The entries that read, with their bits reversed, as a number below `limit`
/// hold the symbol with whose code they begin. The others are empty.
spec fn filled(l: Seq<u8>, table: Seq<u16>, max: nat, limit: nat) -> bool {
    &&& table.len() == pow2(max)
    &&& forall|i: nat|
        #![trigger table[i as int]]
        i < pow2(max) ==> {
            &&& rev(i, max) < limit ==> names_symbol(l, i, table[i as int])
            &&& rev(i, max) >= limit ==> table[i as int] == u16::MAX
        }
}

/// The reason why no table can be built from the widths `l`, if there is one.
pub open spec fn table_fault(l: Seq<u8>) -> Option<Fault> {
    if max_width(l) == 0 {
        Some(invalid("huffman table is empty"))
    } else if max_width(l) > 15 {
        Some(invalid("huffman table uses too many bits"))
    } else if !prefix_free(l) {
        Some(invalid("conflicting huffman codes"))
    } else {
        None
    }
}

/// The fault that a bit string gives which begins with no code.
pub open spec fn no_such_code() -> Fault {
    invalid("invalid huffman coded stream")
}

/// Decoder side: a flat lookup table with `2^max_bits` entries. Each entry
/// packs `(symbol << 5) | width`; `u16::MAX` is the empty sentinel.
pub struct HuffmanDecoder {
    table: Vec<u16>,
    safely_peek_bits: u8,
    max_bits: u8,
    widths: Ghost<Seq<u8>>,
}

/// Above the greatest width there are no codes.
proof fn lemma_no_count(l: Seq<u8>, w: nat, n: nat)
    requires
        max_width(l) < w,
        n <= l.len(),
    ensures
        count(l, w, n) == 0,
    decreases n,
{
    if n > 0 {
        lemma_max_width(l);
        lemma_no_count(l, w, (n - 1) as nat);
    }
}

proof fn lemma_used_above(l: Seq<u8>, max: nat, d: nat)
    requires
        max_width(l) <= max,
        max >= 1,
    ensures
        used(l, max + d) == used(l, max) * pow2(d),
    decreases d,
{
    if d == 0 {
        lemma_pow2_zero();
    } else {
        let e = (d - 1) as nat;
        lemma_used_above(l, max, e);
        lemma_no_count(l, max + d, l.len());
        lemma_pow2_unfold(d);
        assert((max + d - 1) as nat == max + e);
        assert(used(l, max) * pow2(d) == 2 * (used(l, max) * pow2(e))) by (nonlinear_arith)
            requires
                pow2(d) == 2 * pow2(e),
        ;
    }
}

/// The codes fit if they fit into the greatest width.
proof fn lemma_prefix_free_max(l: Seq<u8>, max: nat)
    requires
        max_width(l) == max,
        1 <= max <= 15,
        used(l, max) <= pow2(max),
    ensures
        prefix_free(l),
{
    let d = (15 - max) as nat;
    lemma_max_width(l);
    lemma_used_above(l, max, d);
    lemma_pow2_adds(max, d);
    lemma_mul_inequality(used(l, max) as int, pow2(max) as int, pow2(d) as int);
}

/// An index begins with the code of a symbol exactly if its reversed bits lie
/// in the range of that code.
proof fn lemma_range(l: Seq<u8>, s: nat, i: nat, max: nat)
    requires
        s < l.len(),
        0 < l[s as int] <= max,
        code(l, s) < pow2(l[s as int] as nat),
        i < pow2(max),
    ensures
        begins_with(l, s, i) <==> code(l, s) * pow2((max - l[s as int]) as nat) <= rev(i, max) < (
        code(l, s) + 1) * pow2((max - l[s as int]) as nat),
{
    let w = l[s as int] as nat;
    let d = (max - w) as nat;
    let c = code(l, s);
    let z = rev(i, max);
    lemma_pow2_pos(d);
    lemma_pow2_pos(w);
    lemma_small_mod(i, pow2(max));
    lemma_rev_prefix(i, w, max);
    lemma_rev_rev(c, w);
    lemma_rev_rev(i % pow2(w), w);
    lemma_fundamental_div_mod(z as int, pow2(d) as int);
    let q = z / pow2(d);
    let r = z % pow2(d);
    assert((q == c) == (c * pow2(d) <= z < (c + 1) * pow2(d))) by (nonlinear_arith)
        requires
            z == pow2(d) * q + r,
            0 <= r < pow2(d),
            c >= 0,
            q >= 0,
    ;
}

proof fn lemma_loaded_twice(h: nat, a: nat, b: nat)
    requires
        a <= b,
    ensures
        loaded(loaded(h, a), b) == loaded(h, b),
        loaded(loaded(h, b), a) == loaded(h, b),
{
    reveal(loaded);
}

impl HuffmanDecoder {
    /// The code widths that the table was built from.
    pub closed spec fn lengths(self) -> Seq<u8> {
        self.widths@
    }

    /// How many bits are looked at first.
    pub closed spec fn peek(self) -> nat {
        self.safely_peek_bits as nat
    }

    /// The table holds each symbol wherever the index begins with its code.
    pub closed spec fn wf(self) -> bool {
        let l = self.widths@;
        &&& prefix_free(l)
        &&& l.len() <= 65536
        &&& self.max_bits == max_width(l)
        &&& 1 <= self.safely_peek_bits <= self.max_bits <= 15
        &&& filled(l, self.table@, self.max_bits as nat, used(l, self.max_bits as nat))
    }

    /// What follows from a well-formed table about the widths.
    pub proof fn lemma_wf(self)
        requires
            self.wf(),
        ensures
            prefix_free(self.lengths()),
            self.lengths().len() <= 65536,
            1 <= self.peek() <= 15,
    {
    }

    /// Build the table for the given widths, of at most 65536 symbols.
    ///
    /// Fails if no symbol has a code, if a code is too wide, or if two codes
    /// conflict.
    pub fn from_code_lengths(
        lengths: &[u8],
        safely_peek_bits: Option<u8>,
        eob_symbol: Option<u16>,
    ) -> (r: Result<Self, Error>)
        requires
            lengths@.len() <= 65536,
        ensures
            match table_fault(lengths@) {
                Some(fault) => r matches Err(e) && e@ == fault,
                None => {
                    &&& r matches Ok(d)
                    &&& d.wf()
                    &&& d.lengths() == lengths@
                    &&& d.peek() == peek_width(
                        lengths@,
                        match safely_peek_bits {
                            Some(h) => Some(h as nat),
                            None => None,
                        },
                        match eob_symbol {
                            Some(e) => Some(e as nat),
                            None => None,
                        },
                    )
                },
            },
    {
        let ghost l = lengths@;
        let n: usize = lengths.len();
        let mut max_bits: u8 = 0;
        let mut k: usize = 0;
        while k < n
            invariant
                k <= n == l.len(),
                l == lengths@,
                max_bits == max_width(l.take(k as int)),
            decreases n - k,
        {
            proof {
                assert(l.take(k + 1).drop_last() =~= l.take(k as int));
            }
            if lengths[k] > max_bits {
                max_bits = lengths[k];
            }
            k += 1;
        }
        proof {
            assert(l.take(n as int) =~= l);
            lemma_max_width(l);
        }
        if max_bits == 0 {
            return Err(invalid_data("huffman table is empty"));
        }
        if max_bits > MAX_BITS {
            return Err(invalid_data("huffman table uses too many bits"));
        }
        let ghost max = max_bits as nat;
        proof {
            lemma2_to64();
            if max_bits < 15 {
                lemma_pow2_strictly_increases(max, 15);
            }
            lemma_pow2_pos(max);
            lemma_shl_one(max_bits);
        }
        let table_len: usize = (1u32 << (max_bits as u32)) as usize;
        let mut table: Vec<u16> = vec![u16::MAX;table_len];
        let mut code_value: u16 = 0;
        let mut width: u8 = 1;
        proof {
            assert(0 * pow2((max - 1) as nat) == 0);
            assert(filled(l, table@, max, 0));
        }
        while width <= max_bits
            invariant
                1 <= width <= max_bits + 1,
                1 <= max_bits <= 15,
                max == max_bits,
                max == max_width(l),
                pow2(max) <= 32768,
                n == l.len() <= 65536,
                l == lengths@,
                widths_ok(l),
                width <= max_bits ==> {
                    &&& code_value == first_code(l, width as nat)
                    &&& code_value <= pow2(width as nat)
                    &&& filled(l, table@, max, code_value as nat * pow2((max - width) as nat))
                },
                width > max_bits ==> {
                    &&& used(l, max) <= pow2(max)
                    &&& filled(l, table@, max, used(l, max))
                },
            decreases max_bits + 1 - width,
        {
            let mut symbol: usize = 0;
            let ghost d = (max - width) as nat;
            let ghost w = width as nat;
            proof {
                lemma2_to64();
                if width < 15 {
                    lemma_pow2_strictly_increases(w, 15);
                }
            }
            while symbol < n
                invariant
                    1 <= width <= max_bits <= 15,
                    max == max_bits,
                    w == width,
                    max == max_width(l),
                    pow2(max) <= 32768,
                    pow2(w) <= 32768,
                    d == max - width,
                    symbol <= n == l.len() <= 65536,
                    l == lengths@,
                    widths_ok(l),
                    code_value == first_code(l, w) + count(l, w, symbol as nat),
                    code_value <= pow2(w),
                    filled(l, table@, max, code_value as nat * pow2(d)),
                decreases n - symbol,
            {
                if lengths[symbol] == width {
                    let ghost c = code_value as nat;
                    let reversed: u16 = reverse_bits(code_value, width);
                    proof {
                        lemma_pow2_pos(d);
                        lemma_pow2_adds(w, d);
                        lemma_rev_bound(c, w);
                        assert(code(l, symbol as nat) == c);
                        lemma_count_monotonic(l, w, symbol as nat, l.len());
                        if c == pow2(w) {
                            // The codes up to here fill the table.
                            lemma_full(l, table@, max, w, d, c);
                            if prefix_free(l) {
                                lemma_used_bound(l, w);
                            }
                        }
                    }
                    let value: u16 = ((symbol as u16) << 5) | (width as u16);
                    proof {
                        lemma_pack(symbol as u16, width as u16);
                        lemma_shl_one((max_bits - width) as u8);
                    }
                    let fill_count: usize = (1u32 << ((max_bits - width) as u32)) as usize;
                    let mut padding: usize = 0;
                    let ghost before = table@;
                    while padding < fill_count
                        invariant
                            1 <= width <= max_bits <= 15,
                            max == max_bits,
                            w == width,
                            d == max - width,
                            padding <= fill_count == pow2(d),
                            pow2(max) <= 32768,
                            pow2(max) == pow2(w) * pow2(d),
                            symbol < n == l.len() <= 65536,
                            l == lengths@,
                            l[symbol as int] == width,
                            code(l, symbol as nat) == c,
                            c <= pow2(w),
                            c == pow2(w) ==> !prefix_free(l) && padding == 0 && before[0]
                                != u16::MAX,
                            reversed == rev(c, w),
                            reversed < pow2(w),
                            value == packed(symbol as nat, w),
                            table@.len() == before.len() == pow2(max),
                            max_width(l) == max,
                            filled(l, before, max, c * pow2(d)),
                            forall|i: nat|
                                #![trigger table@[i as int]]
                                i < pow2(max) ==> table@[i as int] == if i % pow2(w) == reversed
                                    && i / pow2(w) < padding {
                                    value
                                } else {
                                    before[i as int]
                                },
                        decreases fill_count - padding,
                    {
                        proof {
                            lemma_index(padding as nat, reversed as nat, w, d);
                        }
                        let index: usize = ((padding as u32) << (width as u32) | (reversed as u32))
                            as usize;
                        proof {
                            lemma_shift_or(padding as u32, reversed as u32, width as u32, d);
                            let i = index as nat;
                            assert(i == padding as nat * pow2(w) + reversed);
                            if c < pow2(w) {
                                lemma_range(l, symbol as nat, i, max);
                                assert(begins_with(l, symbol as nat, i));
                                assert(before[i as int] == u16::MAX);
                            } else {
                                lemma_full_code(w);
                                assert(index == 0);
                            }
                            assert(table@[i as int] == before[i as int]);
                        }
                        if table[index] != u16::MAX {
                            return Err(invalid_data("conflicting huffman codes"));
                        }
                        let ghost prev = table@;
                        table.set(index, value);
                        proof {
                            assert forall|i: nat| #![trigger table@[i as int]] i < pow2(
                                max,
                            ) implies table@[i as int] == if i % pow2(w) == reversed && i / pow2(w)
                                < padding + 1 {
                                value
                            } else {
                                before[i as int]
                            } by {
                                assert(prev[i as int] == if i % pow2(w) == reversed && i / pow2(w)
                                    < padding {
                                    value
                                } else {
                                    before[i as int]
                                });
                                lemma_pow2_pos(w);
                                lemma_fundamental_div_mod(i as int, pow2(w) as int);
                                lemma_mul_is_commutative(
                                    pow2(w) as int,
                                    (i / pow2(w)) as int,
                                );
                            }
                        }
                        padding += 1;
                    }
                    proof {
                        assert(fill_count >= 1);
                        assert(c < pow2(w));
                        lemma_fill_step(l, before, table@, max, symbol as nat, value);
                    }
                    code_value += 1;
                }
                symbol += 1;
            }
            proof {
                if width < max_bits {
                    let e = (d - 1) as nat;
                    lemma_pow2_unfold(d);
                    lemma_pow2_unfold(w + 1);
                    let c = code_value as nat;
                    assert(c * pow2(d) == (2 * c) * pow2(e)) by (nonlinear_arith)
                        requires
                            pow2(d) == 2 * pow2(e),
                    ;
                    assert((max - (width + 1)) as nat == e);
                    lemma2_to64();
                    if w + 1 < 15 {
                        lemma_pow2_strictly_increases(w + 1, 15);
                    }
                } else {
                    lemma_pow2_zero();
                    assert(d == 0);
                    assert(code_value as nat * pow2(0) == code_value);
                }
            }
            if width < max_bits {
                code_value = code_value * 2;
            }
            width += 1;
        }
        proof {
            lemma_prefix_free_max(l, max);
        }
        let mut wanted: u8 = match safely_peek_bits {
            Some(bits) => bits,
            None => max_bits,
        };
        if let Some(end) = eob_symbol {
            if (end as usize) < n && lengths[end as usize] > 0 {
                wanted = lengths[end as usize];
            }
        }
        if wanted < 1 {
            wanted = 1;
        }
        if wanted > max_bits {
            wanted = max_bits;
        }
        Ok(HuffmanDecoder { table, safely_peek_bits: wanted, max_bits, widths: Ghost(l) })
    }

    /// How many bits are looked at first when a symbol is decoded.
    pub fn safely_peek_bits(&self) -> (bits: u8)
        ensures
            bits == self.peek(),
    {
        self.safely_peek_bits
    }

    /// Decode the next symbol. Fails, without consuming anything, if the bits
    /// at hand are too few or begin with no code.
    ///
    /// Symbols from 2048 on have no room in the table: of these, the low eleven
    /// bits are returned.
    pub fn decode(&self, reader: &mut BitReader<'_>) -> (r: Result<u16, Error>)
        requires
            self.wf(),
            old(reader).wf(),
        ensures
            final(reader).wf(),
            final(reader).source() == old(reader).source(),
            match decode_symbol(self.lengths(), self.peek(), old(reader).bits()) {
                Decoded::Symbol(s) => {
                    let w = self.lengths()[s as int] as nat;
                    &&& r == Ok::<u16, Error>(told(s))
                    &&& s < self.lengths().len()
                    &&& final(reader).bits() == old(reader).bits().skip(w as int)
                    &&& final(reader).held() == loaded(
                        old(reader).held(),
                        if w <= self.peek() {
                            self.peek()
                        } else {
                            w
                        },
                    ) - w
                },
                Decoded::Invalid => {
                    &&& r matches Err(e) && e@ == no_such_code()
                    &&& final(reader).bits() == old(reader).bits()
                },
                Decoded::NeedMore => {
                    &&& r matches Err(e) && e@ == end_of_stream()
                    &&& final(reader).bits() == old(reader).bits()
                },
            },
    {
        let ghost l = self.widths@;
        let ghost bits0 = reader.bits();
        let ghost h0 = reader.held();
        let mut peek_bits: u8 = self.safely_peek_bits;
        loop
            invariant
                self.wf(),
                l == self.widths@,
                reader.wf(),
                reader.source() == old(reader).source(),
                reader.bits() == bits0,
                bits0 == old(reader).bits(),
                h0 == old(reader).held(),
                1 <= peek_bits <= self.max_bits,
                loaded(reader.held(), peek_bits as nat) == loaded(h0, peek_bits as nat),
                decode_symbol(l, peek_bits as nat, bits0) == decode_symbol(l, self.peek(), bits0),
                decode_peek(l, peek_bits as nat, bits0) == decode_peek(l, self.peek(), bits0),
            decreases 256 - peek_bits,
        {
            let bits: u16 = match reader.peek_bits(peek_bits) {
                Ok(bits) => bits,
                Err(e) => {
                    return Err(e);
                },
            };
            let ghost x = bits as nat;
            proof {
                lemma_from_bits_bound(bits0.take(peek_bits as int));
                if peek_bits < self.max_bits {
                    lemma_pow2_strictly_increases(peek_bits as nat, self.max_bits as nat);
                }
                self.lemma_table(x);
            }
            let value: u16 = self.table[bits as usize];
            if value == u16::MAX {
                return Err(invalid_data("invalid huffman coded stream"));
            }
            let width: u8 = (value & 0b1_1111) as u8;
            proof {
                let s = lookup(l, x)->0;
                lemma_max_width(l);
                assert(l[s as int] <= 15);
                lemma_unpack(value, s, l[s as int] as nat);
            }
            if width <= peek_bits {
                proof {
                    let s = lookup(l, x)->0;
                    lemma_decoded(l, self.peek(), bits0);
                    lemma_decode_symbol(l, self.peek(), bits0, s);
                    lemma_loaded_twice(h0, width as nat, peek_bits as nat);
                }
                match reader.skip_bits(width) {
                    Ok(()) => {},
                    Err(e) => {
                        return Err(e);
                    },
                }
                return Ok(value >> 5);
            }
            proof {
                lemma_loaded_twice(h0, peek_bits as nat, width as nat);
            }
            peek_bits = width;
        }
    }

    /// What the table says about an index.
    proof fn lemma_table(self, i: nat)
        requires
            self.wf(),
            i < pow2(self.max_bits as nat),
        ensures
            i < self.table@.len(),
            match lookup(self.widths@, i) {
                Some(s) => {
                    &&& begins_with(self.widths@, s, i)
                    &&& self.table@[i as int] == packed(s, self.widths@[s as int] as nat)
                    &&& self.table@[i as int] != u16::MAX
                    &&& self.widths@[s as int] <= self.max_bits
                },
                None => self.table@[i as int] == u16::MAX,
            },
    {
        let l = self.widths@;
        let max = self.max_bits as nat;
        lemma_max_width(l);
        let v = self.table@[i as int];
        if rev(i, max) < used(l, max) {
            let s = choose|s: nat| #[trigger]
                begins_with(l, s, i) && v == packed(s, l[s as int] as nat);
            lemma_lookup(l, s, i);
        } else {
            if let Some(s) = lookup(l, i) {
                assert(begins_with(l, s, i));
                lemma_code_bound(l, s);
                lemma_range(l, s, i, max);
                let w = l[s as int] as nat;
                let d = (max - w) as nat;
                lemma_used_grows(l, w, d);
                lemma_mul_inequality((code(l, s) + 1) as int, used(l, w) as int, pow2(d) as int);
            }
        }
    }
}

proof fn lemma_shl_one(n: u8)
    requires
        n <= 15,
    ensures
        (1u32 << (n as u32)) == pow2(n as nat),
{
    lemma2_to64();
    if n < 15 {
        lemma_pow2_strictly_increases(n as nat, 15);
    }
    vstd::bits::lemma_u32_shl_is_mul(1, n as u32);
}

proof fn lemma_pack(s: u16, w: u16)
    requires
        w < 32,
    ensures
        (s << 5) | w == packed(s as nat, w as nat),
{
    assert((s << 5) | w == 32 * (s % 2048) + w) by (bit_vector)
        requires
            w < 32,
    ;
}

proof fn lemma_unpack(v: u16, s: nat, w: nat)
    requires
        v == packed(s, w),
        w < 32,
    ensures
        v & 0b1_1111 == w,
        v >> 5 == s % 2048,
{
    assert(v & 0b1_1111 == v % 32) by (bit_vector);
    assert(v >> 5 == v / 32) by (bit_vector);
}

proof fn lemma_index(padding: nat, reversed: nat, w: nat, d: nat)
    requires
        padding < pow2(d),
        reversed < pow2(w),
    ensures
        padding * pow2(w) + reversed < pow2(w + d),
        (padding * pow2(w) + reversed) % pow2(w) == reversed,
        (padding * pow2(w) + reversed) / pow2(w) == padding,
{
    lemma_pow2_adds(w, d);
    assert(padding * pow2(w) + reversed < pow2(w) * pow2(d)) by (nonlinear_arith)
        requires
            padding < pow2(d),
            reversed < pow2(w),
    ;
    lemma_fundamental_div_mod_converse(
        (padding * pow2(w) + reversed) as int,
        pow2(w) as int,
        padding as int,
        reversed as int,
    );
}

proof fn lemma_shift_or(padding: u32, reversed: u32, width: u32, d: nat)
    requires
        1 <= width <= 15,
        width + d <= 15,
        padding < pow2(d),
        reversed < pow2(width as nat),
    ensures
        (padding << width | reversed) == padding as nat * pow2(width as nat) + reversed,
{
    let w = width as nat;
    lemma_index(padding as nat, reversed as nat, w, d);
    lemma2_to64();
    if w + d < 15 {
        lemma_pow2_strictly_increases(w + d, 15);
    }
    if d < 15 {
        lemma_pow2_strictly_increases(d, 15);
    }
    if w < 15 {
        lemma_pow2_strictly_increases(w, 15);
    }
    vstd::bits::lemma_u32_shl_is_mul(padding, width);
    vstd::bits::lemma_u32_shl_is_mul(1, width);
    assert(padding << width | reversed == (padding << width) + reversed) by (bit_vector)
        requires
            reversed < (1u32 << width),
            width <= 15,
            padding < 32768,
    ;
}

proof fn lemma_full_code(w: nat)
    ensures
        rev(pow2(w), w) == 0,
{
    lemma_pow2_pos(w);
    lemma_rev_concat(0, w, 1, 0);
    lemma_pow2_zero();
    lemma_rev_zero(w);
    assert(1 * pow2(w) == pow2(w));
}

/// When the codes so far take up everything, the first entry is taken.
proof fn lemma_full(l: Seq<u8>, table: Seq<u16>, max: nat, w: nat, d: nat, c: nat)
    requires
        filled(l, table, max, c * pow2(d)),
        c == pow2(w),
        l.len() <= 65536,
        widths_ok(l),
    ensures
        table[0] != u16::MAX,
{
    lemma_pow2_pos(w);
    lemma_pow2_pos(d);
    lemma_pow2_pos(max);
    lemma_rev_zero(max);
    assert(c * pow2(d) > 0) by (nonlinear_arith)
        requires
            c > 0,
            pow2(d) > 0,
    ;
    let i = 0nat;
    assert(table[i as int] == table[0]);
    assert(rev(i, max) < c * pow2(d));
    let s = choose|s: nat| #[trigger]
        begins_with(l, s, i) && table[i as int] == packed(s, l[s as int] as nat);
    assert(begins_with(l, s, i));
}

/// Filling in one symbol takes the filled range on by the range of its code.
proof fn lemma_fill_step(
    l: Seq<u8>,
    before: Seq<u16>,
    table: Seq<u16>,
    max: nat,
    s: nat,
    value: u16,
)
    requires
        s < l.len() <= 65536,
        0 < l[s as int] <= max,
        code(l, s) < pow2(l[s as int] as nat),
        value == packed(s, l[s as int] as nat),
        filled(l, before, max, code(l, s) * pow2((max - l[s as int]) as nat)),
        table.len() == before.len(),
        forall|i: nat|
            #![trigger table[i as int]]
            i < pow2(max) ==> table[i as int] == if i % pow2(l[s as int] as nat) == word(l, s) && i
                / pow2(l[s as int] as nat) < pow2((max - l[s as int]) as nat) {
                value
            } else {
                before[i as int]
            },
    ensures
        filled(l, table, max, (code(l, s) + 1) * pow2((max - l[s as int]) as nat)),
{
    let w = l[s as int] as nat;
    let d = (max - w) as nat;
    let c = code(l, s);
    lemma_pow2_adds(w, d);
    lemma_pow2_pos(w);
    let limit: nat = (c + 1) * pow2(d);
    assert((c + 1) * pow2(d) == c * pow2(d) + pow2(d)) by (nonlinear_arith);
    assert(c * pow2(d) >= 0) by (nonlinear_arith)
        requires
            c >= 0,
            pow2(d) >= 0,
    ;
    assert forall|i: nat| #![trigger table[i as int]] i < pow2(max) implies {
        &&& rev(i, max) < limit ==> names_symbol(l, i, table[i as int])
        &&& rev(i, max) >= limit ==> table[i as int] == u16::MAX
    } by {
        lemma_range(l, s, i, max);
        assert(i / pow2(w) < pow2(d)) by {
            vstd::arithmetic::div_mod::lemma_multiply_divide_lt(
                i as int,
                pow2(w) as int,
                pow2(d) as int,
            );
        }
        assert(before[i as int] == before[i as int]);
        if begins_with(l, s, i) {
            assert(table[i as int] == value);
        } else {
            assert(table[i as int] == before[i as int]);
        }
    }
}

// ---------------------------------------------------------------------------
// Encoder and decoder
// ---------------------------------------------------------------------------

/// What an encoder writes for `symbols`, one after the other.
pub open spec fn encoded(l: Seq<u8>, symbols: Seq<u16>) -> Seq<bool>
    decreases symbols.len(),
{
    if symbols.len() == 0 {
        Seq::empty()
    } else {
        encoded(l, symbols.drop_last()) + code_bits(l, symbols.last() as nat)
    }
}

/// Symbols after others are written behind them.
pub proof fn lemma_encoded_concat(l: Seq<u8>, first: Seq<u16>, second: Seq<u16>)
    ensures
        encoded(l, first + second) == encoded(l, first) + encoded(l, second),
    decreases second.len(),
{
    if second.len() == 0 {
        assert(first + second =~= first);
        assert(encoded(l, first) + encoded(l, second) =~= encoded(l, first));
    } else {
        let all = first + second;
        assert(all.drop_last() =~= first + second.drop_last());
        assert(all.last() == second.last());
        lemma_encoded_concat(l, first, second.drop_last());
        assert(encoded(l, first) + encoded(l, second) =~= encoded(l, first) + encoded(
            l,
            second.drop_last(),
        ) + code_bits(l, second.last() as nat));
    }
}

/// What an encoder writes, a decoder with the same widths reads back. After the
/// symbols before number `i`, the next one is `symbols[i]`, and the bits of just
/// its code are consumed. Behind the symbols there must be as many bits as the
/// decoder may look at beyond the last code. A symbol below 2048 is returned as
/// it is.
pub proof fn lemma_read_back(
    l: Seq<u8>,
    hint: Option<nat>,
    end: Option<nat>,
    symbols: Seq<u16>,
    rest: Seq<bool>,
    i: int,
)
    requires
        table_fault(l) is None,
        forall|k: int|
            0 <= k < symbols.len() ==> #[trigger] symbols[k] < l.len() && l[symbols[k] as int] > 0,
        0 <= i < symbols.len(),
        rest.len() + l[symbols.last() as int] >= peek_width(l, hint, end),
    ensures
        ({
            let s = symbols[i] as nat;
            let bits = encoded(l, symbols.skip(i)) + rest;
            &&& decode_symbol(l, peek_width(l, hint, end), bits) == Decoded::Symbol(s)
            &&& bits.skip(l[s as int] as int) == encoded(l, symbols.skip(i + 1)) + rest
            &&& code_bits(l, s).len() == l[s as int]
            &&& s < 2048 ==> told(s) == symbols[i]
        }),
{
    let peek = peek_width(l, hint, end);
    let s = symbols[i] as nat;
    let w = l[s as int] as nat;
    let one = seq![symbols[i]];
    let after = symbols.skip(i + 1);
    let bits = encoded(l, symbols.skip(i)) + rest;
    lemma_max_width(l);
    assert(symbols.skip(i) =~= one + after);
    lemma_encoded_concat(l, one, after);
    assert(one.drop_last() =~= Seq::<u16>::empty());
    assert(encoded(l, one.drop_last()) =~= Seq::<bool>::empty());
    assert(encoded(l, one) =~= code_bits(l, s));
    lemma_to_bits_len(word(l, s), w);
    assert(bits =~= code_bits(l, s) + (encoded(l, after) + rest));
    assert(bits.take(w as int) =~= code_bits(l, s));
    assert(bits.skip(w as int) =~= encoded(l, after) + rest);
    if after.len() > 0 {
        assert(after.last() == symbols.last());
        lemma_to_bits_len(word(l, symbols.last() as nat), l[symbols.last() as int] as nat);
        assert(encoded(l, after).len() >= l[symbols.last() as int]);
    }
    lemma_decode_symbol(l, peek, bits, s);
}

/// How many bits a decoder may look at before it knows a symbol: as many as the
/// code of the symbol that ends a stream has, or else as many as is asked for,
/// but at least one and at most those of the widest code.
pub proof fn lemma_peek(l: Seq<u8>, hint: Option<nat>, end: Option<nat>, widest: int)
    requires
        table_fault(l) is None,
        0 <= widest < l.len(),
        forall|s: int| 0 <= s < l.len() ==> #[trigger] l[s] <= l[widest],
    ensures
        1 <= peek_width(l, hint, end) <= l[widest] <= 15,
        end is Some && end->0 < l.len() && l[end->0 as int] > 0 ==> peek_width(l, hint, end)
            == l[end->0 as int],
        end is None && hint is None ==> peek_width(l, hint, end) == l[widest],
        end is None && hint is Some && 1 <= hint->0 <= l[widest] ==> peek_width(l, hint, end)
            == hint->0,
{
    lemma_max_width(l);
    assert(l[widest] <= max_width(l));
}

/// A decoder tells the low eleven bits of a symbol.
pub proof fn lemma_told(s: nat)
    ensures
        told(s) == s % 2048,
{
}

} // verus!
