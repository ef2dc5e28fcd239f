//! What the blocks that an encoder writes are.
//!
//! A block is given as the bits that a stream has after it, in terms of the
//! bits that the stream had before it: a stored block goes on at the next byte
//! boundary of the whole stream, and so does whatever follows the last block.

use crate::bits::{byte_bits, padded, to_bits};
use crate::canonical::code_bits;
use crate::lz77::{tokens, Lz77Code};
use crate::package_merge::limited_widths;
use crate::symbol::{
    distance_index, encoded, fixed_distance_lengths, fixed_literal_lengths, length_index,
    EncodedSymbol, BITWIDTH_CODE_ORDER, DISTANCE_TABLE, LENGTH_TABLE,
};
use vstd::prelude::*;

verus! {

/// Which DEFLATE block encoding strategy to use.
#[derive(Debug, Clone, Copy, PartialEq, Eq, Structural)]
pub enum BlockKind {
    Stored,
    Fixed,
    Dynamic,
}

// ---------------------------------------------------------------------------
// Symbols
// ---------------------------------------------------------------------------

/// The symbol and extra bits of a match length.
pub open spec fn length_symbol(length: nat) -> EncodedSymbol {
    encoded(LENGTH_TABLE@, 257, length_index(length), length)
}

/// The symbol and extra bits of a distance.
pub open spec fn distance_symbol(distance: nat) -> EncodedSymbol {
    encoded(DISTANCE_TABLE@, 0, distance_index(distance), distance)
}

/// The extra bits that follow a symbol.
pub open spec fn extra_bits(extra: Option<(u8, u16)>) -> Seq<bool> {
    match extra {
        None => Seq::empty(),
        Some((n, value)) => to_bits(value as nat, n as nat),
    }
}

/// The bits of a symbol and its extra bits, under the code with the widths `l`.
pub open spec fn symbol_bits(symbol: EncodedSymbol, l: Seq<u8>) -> Seq<bool> {
    code_bits(l, symbol.code as nat) + extra_bits(symbol.extra)
}

/// The bits of a token.
pub open spec fn token_bits(code: Lz77Code, literal: Seq<u8>, distance: Seq<u8>) -> Seq<bool> {
    match code {
        Lz77Code::Literal(byte) => code_bits(literal, byte as nat),
        Lz77Code::Pointer { length, distance: far } => symbol_bits(
            length_symbol(length as nat),
            literal,
        ) + symbol_bits(distance_symbol(far as nat), distance),
    }
}

/// The bits of tokens and of the symbol that ends a block.
pub open spec fn symbols_bits(
    codes: Seq<Lz77Code>,
    literal: Seq<u8>,
    distance: Seq<u8>,
) -> Seq<bool>
    decreases codes.len(),
{
    if codes.len() == 0 {
        code_bits(literal, 256)
    } else {
        token_bits(codes[0], literal, distance) + symbols_bits(codes.skip(1), literal, distance)
    }
}

// ---------------------------------------------------------------------------
// Stored and fixed blocks
// ---------------------------------------------------------------------------

/// The two bytes of a 16-bit number, the lower one first.
pub open spec fn le16(v: nat) -> Seq<u8> {
    seq![(v % 256) as u8, (v / 256 % 256) as u8]
}

/// The bits that begin a block: whether it is the last one, and its type.
pub open spec fn header_bits(last: bool, kind: nat) -> Seq<bool> {
    seq![last] + to_bits(kind, 2)
}

/// A stream with one more stored block, of at most 65535 bytes.
pub open spec fn stored_piece(stream: Seq<bool>, piece: Seq<u8>, last: bool) -> Seq<bool> {
    padded(stream + header_bits(last, 0)) + byte_bits(
        le16(piece.len()) + le16((0xffff - piece.len()) as nat) + piece,
    )
}

/// A stream with a chunk in as many stored blocks as are needed.
pub open spec fn stored(stream: Seq<bool>, chunk: Seq<u8>, last: bool) -> Seq<bool>
    decreases chunk.len(),
{
    if chunk.len() <= 0xffff {
        stored_piece(stream, chunk, last)
    } else {
        stored(stored_piece(stream, chunk.take(0xffff), false), chunk.skip(0xffff), last)
    }
}

/// Whatever follows the last block starts at a byte boundary.
pub open spec fn closed(stream: Seq<bool>, last: bool) -> Seq<bool> {
    if last {
        padded(stream)
    } else {
        stream
    }
}

/// The bits of a block with the fixed codes.
pub open spec fn fixed_bits(codes: Seq<Lz77Code>, last: bool) -> Seq<bool> {
    header_bits(last, 1) + symbols_bits(codes, fixed_literal_lengths(), fixed_distance_lengths())
}

// ---------------------------------------------------------------------------
// Dynamic blocks
// ---------------------------------------------------------------------------

/// The literal/length symbol of a token.
pub open spec fn literal_symbol_of(code: Lz77Code) -> nat {
    match code {
        Lz77Code::Literal(byte) => byte as nat,
        Lz77Code::Pointer { length, .. } => length_symbol(length as nat).code as nat,
    }
}

/// How many of the first `n` tokens have the literal/length symbol `s`.
pub open spec fn literal_count(codes: Seq<Lz77Code>, s: nat, n: nat) -> nat
    decreases n,
{
    if n == 0 {
        0
    } else {
        literal_count(codes, s, (n - 1) as nat) + (if literal_symbol_of(codes[n - 1]) == s {
            1nat
        } else {
            0nat
        })
    }
}

/// Whether a token has the distance symbol `s`.
pub open spec fn has_distance(code: Lz77Code, s: nat) -> bool {
    match code {
        Lz77Code::Literal(byte) => false,
        Lz77Code::Pointer { distance, .. } => distance_symbol(distance as nat).code == s,
    }
}

/// How many of the first `n` tokens have the distance symbol `s`.
pub open spec fn distance_count(codes: Seq<Lz77Code>, s: nat, n: nat) -> nat
    decreases n,
{
    if n == 0 {
        0
    } else {
        distance_count(codes, s, (n - 1) as nat) + (if has_distance(codes[n - 1], s) {
            1nat
        } else {
            0nat
        })
    }
}

/// One of the first `n` tokens is a back-reference.
pub open spec fn has_pointer(codes: Seq<Lz77Code>, n: nat) -> bool {
    exists|i: int| 0 <= i < n && #[trigger] codes[i] is Pointer
}

/// How often each literal/length symbol is needed. The end of the block is
/// needed once.
pub open spec fn literal_frequencies(codes: Seq<Lz77Code>) -> Seq<usize> {
    Seq::new(
        286,
        |s: int|
            if s == 256 {
                1usize
            } else {
                literal_count(codes, s as nat, codes.len()) as usize
            },
    )
}

/// How often each distance symbol is needed. There is always at least one.
pub open spec fn distance_frequencies(codes: Seq<Lz77Code>) -> Seq<usize> {
    Seq::new(
        30,
        |s: int|
            if s == 0 && !has_pointer(codes, codes.len()) {
                1usize
            } else {
                distance_count(codes, s as nat, codes.len()) as usize
            },
    )
}

/// How many symbols there are up to the last one that has a code.
pub open spec fn used_len(l: Seq<u8>) -> nat
    decreases l.len(),
{
    if l.len() == 0 || l.last() > 0 {
        l.len()
    } else {
        used_len(l.drop_last())
    }
}

/// Where the last used symbol is.
pub proof fn lemma_used_len(l: Seq<u8>, n: nat)
    requires
        n <= l.len(),
        n > 0 ==> l[n - 1] > 0,
        forall|i: int| n <= i < l.len() ==> #[trigger] l[i] == 0,
    ensures
        used_len(l) == n,
    decreases l.len(),
{
    if n < l.len() {
        assert(l.last() == l[l.len() - 1]);
        let shorter = l.drop_last();
        assert forall|i: int| n <= i < shorter.len() implies #[trigger] shorter[i] == 0 by {
            assert(shorter[i] == l[i]);
        }
        lemma_used_len(shorter, n);
    } else {
        assert(l.len() > 0 ==> l.last() == l[n - 1]);
    }
}

/// The greater of two numbers.
pub open spec fn at_least(least: nat, n: nat) -> nat {
    if n < least {
        least
    } else {
        n
    }
}

/// An element of the run-length encoding of code lengths: a symbol of the
/// code-length alphabet, how many extra bits it has, and their value.
pub struct RunCode {
    pub symbol: u8,
    pub extra_bits: u8,
    pub extra: u8,
}

/// `n` zeros.
pub open spec fn zero_run(n: nat) -> Seq<RunCode>
    decreases n,
{
    if n >= 138 {
        seq![RunCode { symbol: 18, extra_bits: 7, extra: 127 }] + zero_run((n - 138) as nat)
    } else if n >= 11 {
        seq![RunCode { symbol: 18, extra_bits: 7, extra: (n - 11) as u8 }]
    } else if n >= 3 {
        seq![RunCode { symbol: 17, extra_bits: 3, extra: (n - 3) as u8 }]
    } else {
        plain_run(0, n)
    }
}

/// `n` times the same length, each on its own.
pub open spec fn plain_run(value: u8, n: nat) -> Seq<RunCode> {
    Seq::new(n, |i: int| RunCode { symbol: value, extra_bits: 0, extra: 0 })
}

/// `n` times the length that came before.
pub open spec fn repeat_run(value: u8, n: nat) -> Seq<RunCode>
    decreases n,
{
    if n >= 6 {
        seq![RunCode { symbol: 16, extra_bits: 2, extra: 3 }] + repeat_run(value, (n - 6) as nat)
    } else if n >= 3 {
        seq![RunCode { symbol: 16, extra_bits: 2, extra: (n - 3) as u8 }]
    } else {
        plain_run(value, n)
    }
}

/// `n` times the same length.
pub open spec fn run_codes(value: u8, n: nat) -> Seq<RunCode> {
    if value == 0 {
        zero_run(n)
    } else {
        plain_run(value, 1) + repeat_run(value, (n - 1) as nat)
    }
}

/// How many of the lengths, from the first one on, are the same as `value`.
pub open spec fn front_run(l: Seq<u8>, value: u8) -> nat
    decreases l.len(),
{
    if l.len() == 0 || l[0] != value {
        0
    } else {
        1 + front_run(l.skip(1), value)
    }
}

/// A run at the front is not longer than the whole, and consists of the value.
pub proof fn lemma_front_run(l: Seq<u8>, value: u8)
    ensures
        front_run(l, value) <= l.len(),
        l.len() > 0 && l[0] == value ==> front_run(l, value) >= 1,
        forall|i: int| 0 <= i < front_run(l, value) ==> #[trigger] l[i] == value,
        front_run(l, value) < l.len() ==> l[front_run(l, value) as int] != value,
    decreases l.len(),
{
    if l.len() > 0 && l[0] == value {
        lemma_front_run(l.skip(1), value);
        assert forall|i: int| 0 <= i < front_run(l, value) implies #[trigger] l[i] == value by {
            if i > 0 {
                assert(l.skip(1)[i - 1] == l[i]);
            }
        }
    }
}

/// The run-length encoding of code lengths.
pub open spec fn runs(l: Seq<u8>) -> Seq<RunCode>
    decreases l.len(),
{
    if l.len() == 0 {
        Seq::empty()
    } else {
        proof {
            lemma_front_run(l, l[0]);
        }
        let n = front_run(l, l[0]);
        run_codes(l[0], n) + runs(l.skip(n as int))
    }
}

/// An element that the format has room for.
pub open spec fn run_ok(element: RunCode) -> bool {
    &&& element.symbol <= 18
    &&& element.symbol <= 15 ==> element.extra_bits == 0 && element.extra == 0
    &&& element.symbol == 16 ==> element.extra_bits == 2 && element.extra < 4
    &&& element.symbol == 17 ==> element.extra_bits == 3 && element.extra < 8
    &&& element.symbol == 18 ==> element.extra_bits == 7 && element.extra < 128
}

/// Each element can be written.
pub open spec fn all_runs_ok(elements: Seq<RunCode>) -> bool {
    forall|i: int| 0 <= i < elements.len() ==> run_ok(#[trigger] elements[i])
}

proof fn lemma_runs_ok_concat(a: Seq<RunCode>, b: Seq<RunCode>)
    requires
        all_runs_ok(a),
        all_runs_ok(b),
    ensures
        all_runs_ok(a + b),
{
    assert forall|i: int| 0 <= i < (a + b).len() implies run_ok(#[trigger] (a + b)[i]) by {
        if i < a.len() {
            assert((a + b)[i] == a[i]);
        } else {
            assert((a + b)[i] == b[i - a.len()]);
        }
    }
}

proof fn lemma_run_codes_ok(value: u8, n: nat)
    requires
        value <= 15,
    ensures
        all_runs_ok(zero_run(n)),
        all_runs_ok(repeat_run(value, n)),
        n >= 1 ==> all_runs_ok(run_codes(value, n)),
    decreases n,
{
    assert(all_runs_ok(plain_run(value, 1)));
    if n >= 138 {
        lemma_run_codes_ok(value, (n - 138) as nat);
        lemma_runs_ok_concat(
            seq![RunCode { symbol: 18, extra_bits: 7, extra: 127 }],
            zero_run((n - 138) as nat),
        );
    }
    if n >= 6 {
        lemma_run_codes_ok(value, (n - 6) as nat);
        lemma_runs_ok_concat(
            seq![RunCode { symbol: 16, extra_bits: 2, extra: 3 }],
            repeat_run(value, (n - 6) as nat),
        );
    }
    if n >= 1 {
        lemma_run_codes_ok(value, (n - 1) as nat);
        lemma_runs_ok_concat(plain_run(value, 1), repeat_run(value, (n - 1) as nat));
    }
}

/// The run-length encoding of code lengths up to fifteen is within the format.
pub proof fn lemma_runs_ok(l: Seq<u8>)
    requires
        forall|i: int| 0 <= i < l.len() ==> #[trigger] l[i] <= 15,
    ensures
        all_runs_ok(runs(l)),
    decreases l.len(),
{
    if l.len() > 0 {
        lemma_front_run(l, l[0]);
        let n = front_run(l, l[0]);
        let rest = l.skip(n as int);
        assert forall|i: int| 0 <= i < rest.len() implies #[trigger] rest[i] <= 15 by {
            assert(rest[i] == l[n + i]);
        }
        lemma_runs_ok(rest);
        lemma_run_codes_ok(l[0], n);
        lemma_runs_ok_concat(run_codes(l[0], n), runs(rest));
    }
}

/// How many of the first `n` elements have the symbol `s`.
pub open spec fn run_count(elements: Seq<RunCode>, s: nat, n: nat) -> nat
    decreases n,
{
    if n == 0 {
        0
    } else {
        run_count(elements, s, (n - 1) as nat) + (if elements[n - 1].symbol == s {
            1nat
        } else {
            0nat
        })
    }
}

/// How often each symbol of the code-length alphabet occurs.
pub open spec fn run_frequencies(elements: Seq<RunCode>) -> Seq<usize> {
    Seq::new(19, |s: int| run_count(elements, s as nat, elements.len()) as usize)
}

/// How many widths of the code-length alphabet, in the order in which they are
/// sent, there are up to the last one that is not zero.
pub open spec fn order_len(widths: Seq<u8>, n: nat) -> nat
    decreases n,
{
    if n == 0 || widths[BITWIDTH_CODE_ORDER@[n - 1] as int] > 0 {
        n
    } else {
        order_len(widths, (n - 1) as nat)
    }
}

/// The widths of the code-length alphabet from place `from` to place `to` of
/// the order in which they are sent.
pub open spec fn width_bits(widths: Seq<u8>, from: nat, to: nat) -> Seq<bool>
    decreases to - from,
{
    if from >= to {
        Seq::empty()
    } else {
        to_bits(widths[BITWIDTH_CODE_ORDER@[from as int] as int] as nat, 3) + width_bits(
            widths,
            from + 1,
            to,
        )
    }
}

/// The bits of an element.
pub open spec fn element_bits(element: RunCode, widths: Seq<u8>) -> Seq<bool> {
    code_bits(widths, element.symbol as nat) + to_bits(
        element.extra as nat,
        element.extra_bits as nat,
    )
}

/// The bits of the elements, one behind the other.
pub open spec fn elements_bits(elements: Seq<RunCode>, widths: Seq<u8>) -> Seq<bool>
    decreases elements.len(),
{
    if elements.len() == 0 {
        Seq::empty()
    } else {
        element_bits(elements[0], widths) + elements_bits(elements.skip(1), widths)
    }
}

/// The code widths of the literal/length symbols.
pub open spec fn dynamic_literal(codes: Seq<Lz77Code>) -> Seq<u8> {
    limited_widths(literal_frequencies(codes), 15)
}

/// The code widths of the distance symbols.
pub open spec fn dynamic_distance(codes: Seq<Lz77Code>) -> Seq<u8> {
    limited_widths(distance_frequencies(codes), 15)
}

/// How many literal/length code widths are sent.
pub open spec fn literal_len(literal: Seq<u8>) -> nat {
    at_least(257, used_len(literal))
}

/// How many distance code widths are sent.
pub open spec fn distance_len(distance: Seq<u8>) -> nat {
    at_least(1, used_len(distance))
}

/// The elements that the code widths are sent as.
pub open spec fn table_runs(literal: Seq<u8>, distance: Seq<u8>) -> Seq<RunCode> {
    runs(
        literal.take(literal_len(literal) as int) + distance.take(distance_len(distance) as int),
    )
}

/// The code widths of the code-length alphabet.
pub open spec fn run_widths(elements: Seq<RunCode>) -> Seq<u8> {
    limited_widths(run_frequencies(elements), 7)
}

/// The bits of the tables of a block with these code widths.
pub open spec fn tables_bits(literal: Seq<u8>, distance: Seq<u8>) -> Seq<bool> {
    let elements = table_runs(literal, distance);
    let widths = run_widths(elements);
    let n = at_least(4, order_len(widths, 19));
    to_bits((literal_len(literal) - 257) as nat, 5) + to_bits(
        (distance_len(distance) - 1) as nat,
        5,
    ) + to_bits((n - 4) as nat, 4) + width_bits(widths, 0, n) + elements_bits(elements, widths)
}

/// The bits of a block with codes of its own.
pub open spec fn dynamic_bits(codes: Seq<Lz77Code>, last: bool) -> Seq<bool> {
    let literal = dynamic_literal(codes);
    let distance = dynamic_distance(codes);
    header_bits(last, 2) + tables_bits(literal, distance) + symbols_bits(codes, literal, distance)
}

/// A stream with one more chunk.
pub open spec fn block(
    stream: Seq<bool>,
    kind: BlockKind,
    chunk: Seq<u8>,
    last: bool,
) -> Seq<bool> {
    match kind {
        BlockKind::Stored => stored(stream, chunk, last),
        BlockKind::Fixed => closed(stream + fixed_bits(tokens(chunk, 0), last), last),
        BlockKind::Dynamic => closed(stream + dynamic_bits(tokens(chunk, 0), last), last),
    }
}

/// No more tokens are counted than there are.
pub proof fn lemma_literal_count(codes: Seq<Lz77Code>, s: nat, n: nat)
    requires
        n <= codes.len(),
    ensures
        literal_count(codes, s, n) <= n,
    decreases n,
{
    if n > 0 {
        lemma_literal_count(codes, s, (n - 1) as nat);
    }
}

/// No more tokens are counted than there are, and only back-references.
pub proof fn lemma_distance_count(codes: Seq<Lz77Code>, s: nat, n: nat)
    requires
        n <= codes.len(),
    ensures
        distance_count(codes, s, n) <= n,
        !has_pointer(codes, n) ==> distance_count(codes, s, n) == 0,
    decreases n,
{
    if n > 0 {
        lemma_distance_count(codes, s, (n - 1) as nat);
        assert(codes[n - 1] is Pointer ==> has_pointer(codes, n));
        if has_pointer(codes, (n - 1) as nat) {
            let i = choose|i: int| 0 <= i < n - 1 && #[trigger] codes[i] is Pointer;
            assert(codes[i] is Pointer);
        }
    }
}

/// No more elements are counted than there are.
pub proof fn lemma_run_count(elements: Seq<RunCode>, s: nat, n: nat)
    requires
        n <= elements.len(),
    ensures
        run_count(elements, s, n) <= n,
    decreases n,
{
    if n > 0 {
        lemma_run_count(elements, s, (n - 1) as nat);
    }
}

/// No more widths are sent than there are.
pub proof fn lemma_order_len(widths: Seq<u8>, n: nat)
    ensures
        order_len(widths, n) <= n,
    decreases n,
{
    if n > 0 {
        lemma_order_len(widths, (n - 1) as nat);
    }
}

/// Behind the last used symbol no symbol is used.
pub proof fn lemma_used_len_rest(l: Seq<u8>)
    ensures
        used_len(l) <= l.len(),
        forall|i: int| used_len(l) <= i < l.len() ==> #[trigger] l[i] == 0,
    decreases l.len(),
{
    if l.len() > 0 && l.last() == 0 {
        let shorter = l.drop_last();
        lemma_used_len_rest(shorter);
        assert forall|i: int| used_len(l) <= i < l.len() implies #[trigger] l[i] == 0 by {
            if i < shorter.len() {
                assert(shorter[i] == l[i]);
            } else {
                assert(l.last() == l[i]);
            }
        }
    }
}

} // verus!
