//! What an encoder writes, in terms of bits, bytes and numbers.

use crate::bits::{byte_bits, lemma_to_bits_len, padding, to_bits, zeros};
use crate::block::{
    at_least, block, distance_count, distance_frequencies, distance_len, distance_symbol,
    dynamic_distance, dynamic_literal, elements_bits, extra_bits, front_run, has_pointer,
    header_bits, le16, lemma_front_run, lemma_used_len_rest, length_symbol, literal_count,
    literal_frequencies, literal_len, literal_symbol_of, order_len, plain_run, repeat_run,
    run_count, run_frequencies, run_widths, runs, stored_piece, symbols_bits, table_runs,
    tables_bits, token_bits, used_len, width_bits, zero_run, BlockKind, RunCode,
};
use crate::canonical::{code_bits, prefix_free, word};
use crate::encode::{fed, finished, flushed, fresh, EncoderState};
use crate::huffman::table_fault;
use crate::lz77::{encodable, tokens, Lz77Code};
use crate::package_merge::{
    lemma_limited_widths, lemma_used_count, limited_widths, used_count,
};
use crate::shortest::{cost, lemma_narrow_code, lemma_shortest, widths_of};
use crate::symbol::{
    fixed_distance_lengths, fixed_literal_lengths, lemma_distance_symbol, lemma_length_symbol,
    BITWIDTH_CODE_ORDER, DISTANCE_TABLE, LENGTH_TABLE,
};
use vstd::arithmetic::power2::{lemma2_to64, pow2};
use vstd::prelude::*;

verus! {

// ---------------------------------------------------------------------------
// Blocks
// ---------------------------------------------------------------------------

/// A stored block of up to 65535 bytes: its header, zeros up to the next byte
/// boundary, its length and the complement of it, the lower byte first, and the
/// bytes. More bytes take more blocks, of which all but the last are full.
pub proof fn lemma_stored_block(stream: Seq<bool>, chunk: Seq<u8>, last: bool)
    ensures
        chunk.len() <= 65535 ==> block(stream, BlockKind::Stored, chunk, last) == stream + seq![
            last,
            false,
            false,
        ] + Seq::new(((8 - (stream.len() + 3) % 8) % 8) as nat, |i: int| false) + byte_bits(
            seq![
                (chunk.len() % 256) as u8,
                (chunk.len() / 256) as u8,
                (255 - chunk.len() % 256) as u8,
                (255 - chunk.len() / 256) as u8,
            ] + chunk,
        ),
        chunk.len() > 65535 ==> block(stream, BlockKind::Stored, chunk, last) == block(
            block(stream, BlockKind::Stored, chunk.take(65535), false),
            BlockKind::Stored,
            chunk.skip(65535),
            last,
        ),
{
    if chunk.len() <= 65535 {
        let n = chunk.len();
        lemma_header(last, 0);
        let front = stream + header_bits(last, 0);
        assert(front =~= stream + seq![last, false, false]);
        assert(zeros(padding(front.len())) =~= Seq::new(
            ((8 - (stream.len() + 3) % 8) % 8) as nat,
            |i: int| false,
        ));
        assert((0xffff - n) % 256 == 255 - n % 256);
        assert((0xffff - n) / 256 == 255 - n / 256);
        assert(le16(n) + le16((0xffff - n) as nat) + chunk =~= seq![
            (n % 256) as u8,
            (n / 256) as u8,
            (255 - n % 256) as u8,
            (255 - n / 256) as u8,
        ] + chunk);
    }
}

proof fn lemma_header(last: bool, kind: nat)
    requires
        kind <= 2,
    ensures
        header_bits(last, kind) == seq![last, kind == 1, kind == 2],
{
    let high = to_bits(kind / 2, 1);
    assert(to_bits(kind / 2 / 2, 0) =~= Seq::<bool>::empty());
    assert(high =~= seq![kind / 2 % 2 == 1]);
    assert(to_bits(kind, 2) =~= seq![kind % 2 == 1] + high);
    assert(header_bits(last, kind) =~= seq![last, kind == 1, kind == 2]);
}

/// A block with the fixed codes: its header and its symbols, and zeros up to the
/// next byte boundary behind the last block.
pub proof fn lemma_fixed_block(stream: Seq<bool>, chunk: Seq<u8>, last: bool)
    ensures
        ({
            let all = stream + seq![last, true, false] + symbols_bits(
                tokens(chunk, 0),
                fixed_literal_lengths(),
                fixed_distance_lengths(),
            );
            block(stream, BlockKind::Fixed, chunk, last) == if last {
                all + Seq::new(((8 - all.len() % 8) % 8) as nat, |i: int| false)
            } else {
                all
            }
        }),
{
    lemma_header(last, 1);
    let symbols = symbols_bits(
        tokens(chunk, 0),
        fixed_literal_lengths(),
        fixed_distance_lengths(),
    );
    let all = stream + seq![last, true, false] + symbols;
    assert(stream + (header_bits(last, 1) + symbols) =~= all);
    assert(zeros(padding(all.len())) =~= Seq::new(
        ((8 - all.len() % 8) % 8) as nat,
        |i: int| false,
    ));
}

/// A block with codes of its own: its header, its tables and its symbols, and
/// zeros up to the next byte boundary behind the last block.
pub proof fn lemma_dynamic_block(stream: Seq<bool>, chunk: Seq<u8>, last: bool)
    ensures
        ({
            let codes = tokens(chunk, 0);
            let literal = dynamic_literal(codes);
            let distance = dynamic_distance(codes);
            let all = stream + seq![last, false, true] + tables_bits(literal, distance)
                + symbols_bits(codes, literal, distance);
            block(stream, BlockKind::Dynamic, chunk, last) == if last {
                all + Seq::new(((8 - all.len() % 8) % 8) as nat, |i: int| false)
            } else {
                all
            }
        }),
{
    lemma_header(last, 2);
    let codes = tokens(chunk, 0);
    let literal = dynamic_literal(codes);
    let distance = dynamic_distance(codes);
    let tables = tables_bits(literal, distance);
    let symbols = symbols_bits(codes, literal, distance);
    let all = stream + seq![last, false, true] + tables + symbols;
    assert(stream + (header_bits(last, 2) + tables + symbols) =~= all);
    assert(zeros(padding(all.len())) =~= Seq::new(
        ((8 - all.len() % 8) % 8) as nat,
        |i: int| false,
    ));
}

// ---------------------------------------------------------------------------
// Symbols
// ---------------------------------------------------------------------------

/// Behind all tokens comes symbol 256. A literal byte is the symbol of its own
/// number.
pub proof fn lemma_symbols_written(codes: Seq<Lz77Code>, literal: Seq<u8>, distance: Seq<u8>)
    ensures
        codes.len() == 0 ==> symbols_bits(codes, literal, distance) == code_bits(literal, 256),
        codes.len() > 0 && codes[0] is Literal ==> symbols_bits(codes, literal, distance)
            == code_bits(literal, codes[0]->Literal_0 as nat) + symbols_bits(
            codes.skip(1),
            literal,
            distance,
        ),
{
}

/// A match is a length symbol `257 + i` with the extra bits `e` and a distance
/// symbol `d` with the extra bits `f`. The base of a symbol and its extra bits
/// make up the number, and a match of 258 bytes has the last length symbol.
pub proof fn lemma_match_written(codes: Seq<Lz77Code>, literal: Seq<u8>, distance: Seq<u8>) -> (r: (
    nat,
    nat,
    nat,
    nat,
))
    requires
        codes.len() > 0,
        codes[0] matches Lz77Code::Pointer { length, distance: far } && 3 <= length <= 258 && 1
            <= far <= 32768,
    ensures
        ({
            let (i, e, d, f) = r;
            let (length_base, length_bits) = LENGTH_TABLE@[i as int];
            let (distance_base, distance_bits) = DISTANCE_TABLE@[d as int];
            &&& i < 29
            &&& d < 30
            &&& codes[0]->length == length_base + e
            &&& e < pow2(length_bits as nat)
            &&& i == 28 <==> codes[0]->length == 258
            &&& codes[0]->distance == distance_base + f
            &&& f < pow2(distance_bits as nat)
            &&& symbols_bits(codes, literal, distance) == code_bits(literal, 257 + i) + to_bits(
                e,
                length_bits as nat,
            ) + code_bits(distance, d) + to_bits(f, distance_bits as nat) + symbols_bits(
                codes.skip(1),
                literal,
                distance,
            )
        }),
{
    let length = codes[0]->length as nat;
    let far = codes[0]->distance as nat;
    lemma_length_symbol(length);
    lemma_distance_symbol(far);
    crate::symbol::lemma_length_index(length);
    lemma2_to64();
    let i = (length_symbol(length).code - 257) as nat;
    let d = distance_symbol(far).code as nat;
    let e = (length - LENGTH_TABLE@[i as int].0) as nat;
    let f = (far - DISTANCE_TABLE@[d as int].0) as nat;
    let rest = symbols_bits(codes.skip(1), literal, distance);
    assert(extra_bits(length_symbol(length).extra) =~= to_bits(
        e,
        LENGTH_TABLE@[i as int].1 as nat,
    ));
    assert(extra_bits(distance_symbol(far).extra) =~= to_bits(
        f,
        DISTANCE_TABLE@[d as int].1 as nat,
    ));
    assert(symbols_bits(codes, literal, distance) =~= code_bits(literal, 257 + i) + to_bits(
        e,
        LENGTH_TABLE@[i as int].1 as nat,
    ) + code_bits(distance, d) + to_bits(f, DISTANCE_TABLE@[d as int].1 as nat) + rest);
    (i, e, d, f)
}

// ---------------------------------------------------------------------------
// Tables
// ---------------------------------------------------------------------------

/// The tables of a dynamic block: how many widths of each alphabet are sent, the
/// widths of the code-length alphabet, and the other widths in the run-length
/// encoding that they are sent in. No more widths are sent than up to the last
/// one that is not zero, but at least 257, one and four.
pub proof fn lemma_tables_written(literal: Seq<u8>, distance: Seq<u8>) -> (r: (nat, nat, nat))
    ensures
        ({
            let (hlit, hdist, hclen) = r;
            let elements = runs(literal.take(hlit as int) + distance.take(hdist as int));
            let widths = run_widths(elements);
            &&& tables_bits(literal, distance) == to_bits((hlit - 257) as nat, 5) + to_bits(
                (hdist - 1) as nat,
                5,
            ) + to_bits((hclen - 4) as nat, 4) + width_bits(widths, 0, hclen) + elements_bits(
                elements,
                widths,
            )
            &&& hlit >= 257
            &&& hlit > 257 ==> hlit <= literal.len() && literal[hlit - 1] > 0
            &&& forall|i: int| hlit <= i < literal.len() ==> #[trigger] literal[i] == 0
            &&& hdist >= 1
            &&& hdist > 1 ==> hdist <= distance.len() && distance[hdist - 1] > 0
            &&& forall|i: int| hdist <= i < distance.len() ==> #[trigger] distance[i] == 0
            &&& 4 <= hclen <= 19
            &&& hclen > 4 ==> widths[BITWIDTH_CODE_ORDER@[hclen - 1] as int] > 0
            &&& forall|k: int|
                hclen <= k < 19 ==> widths[#[trigger] BITWIDTH_CODE_ORDER@[k] as int] == 0
        }),
{
    let hlit = literal_len(literal);
    let hdist = distance_len(distance);
    let elements = table_runs(literal, distance);
    let widths = run_widths(elements);
    let hclen = at_least(4, order_len(widths, 19));
    lemma_used_len_rest(literal);
    lemma_used_len_rest(distance);
    lemma_used_last(literal);
    lemma_used_last(distance);
    lemma_order_last(widths, 19);
    (hlit, hdist, hclen)
}

proof fn lemma_used_last(l: Seq<u8>)
    ensures
        used_len(l) > 0 ==> l[used_len(l) - 1] > 0,
        used_len(l) <= l.len(),
    decreases l.len(),
{
    if l.len() > 0 && l.last() == 0 {
        lemma_used_last(l.drop_last());
    }
}

proof fn lemma_order_last(widths: Seq<u8>, n: nat)
    ensures
        order_len(widths, n) <= n,
        order_len(widths, n) > 0 ==> widths[BITWIDTH_CODE_ORDER@[order_len(widths, n)
            - 1] as int] > 0,
        forall|k: int|
            order_len(widths, n) <= k < n ==> widths[#[trigger] BITWIDTH_CODE_ORDER@[k] as int]
                == 0,
    decreases n,
{
    if n > 0 && widths[BITWIDTH_CODE_ORDER@[n - 1] as int] == 0 {
        lemma_order_last(widths, (n - 1) as nat);
    }
}

/// The widths of the code-length alphabet take three bits each, and an element
/// is the code of its symbol and its extra bits.
pub proof fn lemma_elements_written(
    widths: Seq<u8>,
    from: nat,
    to: nat,
    elements: Seq<RunCode>,
)
    ensures
        from >= to ==> width_bits(widths, from, to).len() == 0,
        from < to ==> width_bits(widths, from, to) == to_bits(
            widths[BITWIDTH_CODE_ORDER@[from as int] as int] as nat,
            3,
        ) + width_bits(widths, from + 1, to),
        elements.len() == 0 ==> elements_bits(elements, widths).len() == 0,
        elements.len() > 0 ==> elements_bits(elements, widths) == code_bits(
            widths,
            elements[0].symbol as nat,
        ) + to_bits(elements[0].extra as nat, elements[0].extra_bits as nat) + elements_bits(
            elements.skip(1),
            widths,
        ),
{
}

proof fn lemma_zero_run_form(n: nat)
    ensures
        ({
            let q = n / 138;
            let rest = n % 138;
            zero_run(n) == Seq::new(q, |i: int| RunCode { symbol: 18, extra_bits: 7, extra: 127 })
                + if rest >= 11 {
                seq![RunCode { symbol: 18, extra_bits: 7, extra: (rest - 11) as u8 }]
            } else if rest >= 3 {
                seq![RunCode { symbol: 17, extra_bits: 3, extra: (rest - 3) as u8 }]
            } else {
                Seq::new(rest, |i: int| RunCode { symbol: 0, extra_bits: 0, extra: 0 })
            }
        }),
    decreases n,
{
    let full = RunCode { symbol: 18, extra_bits: 7, extra: 127 };
    let q = n / 138;
    let rest = n % 138;
    let tail = if rest >= 11 {
        seq![RunCode { symbol: 18, extra_bits: 7, extra: (rest - 11) as u8 }]
    } else if rest >= 3 {
        seq![RunCode { symbol: 17, extra_bits: 3, extra: (rest - 3) as u8 }]
    } else {
        Seq::new(rest, |i: int| RunCode { symbol: 0, extra_bits: 0, extra: 0 })
    };
    if n >= 138 {
        let m = (n - 138) as nat;
        lemma_zero_run_form(m);
        assert(m / 138 == q - 1 && m % 138 == rest);
        assert(seq![full] + Seq::new((q - 1) as nat, |i: int| full) =~= Seq::new(q, |i: int| full));
        assert(zero_run(n) =~= Seq::new(q, |i: int| full) + tail);
    } else {
        assert(zero_run(n) =~= Seq::new(q, |i: int| full) + tail);
    }
}

proof fn lemma_repeat_run_form(value: u8, n: nat)
    ensures
        ({
            let q = n / 6;
            let rest = n % 6;
            repeat_run(value, n) == Seq::new(
                q,
                |i: int| RunCode { symbol: 16, extra_bits: 2, extra: 3 },
            ) + if rest >= 3 {
                seq![RunCode { symbol: 16, extra_bits: 2, extra: (rest - 3) as u8 }]
            } else {
                Seq::new(rest, |i: int| RunCode { symbol: value, extra_bits: 0, extra: 0 })
            }
        }),
    decreases n,
{
    let full = RunCode { symbol: 16, extra_bits: 2, extra: 3 };
    let q = n / 6;
    let rest = n % 6;
    let tail = if rest >= 3 {
        seq![RunCode { symbol: 16, extra_bits: 2, extra: (rest - 3) as u8 }]
    } else {
        Seq::new(rest, |i: int| RunCode { symbol: value, extra_bits: 0, extra: 0 })
    };
    if n >= 6 {
        let m = (n - 6) as nat;
        lemma_repeat_run_form(value, m);
        assert(m / 6 == q - 1 && m % 6 == rest);
        assert(seq![full] + Seq::new((q - 1) as nat, |i: int| full) =~= Seq::new(q, |i: int| full));
        assert(repeat_run(value, n) =~= Seq::new(q, |i: int| full) + tail);
    } else {
        assert(repeat_run(value, n) =~= Seq::new(q, |i: int| full) + tail);
    }
}

/// The run-length encoding of widths, from one change of value to the next.
///
/// A run of `n` zeros is as many repetitions of 138 zeros as it has room for. Of
/// the rest, three and more are one repetition, and fewer are single widths. A
/// run of another value is that value and repetitions of six of it, and of the
/// rest three and more are one repetition, and fewer are single widths.
pub proof fn lemma_run_written(l: Seq<u8>, n: nat)
    requires
        1 <= n <= l.len(),
        forall|i: int| 0 <= i < n ==> #[trigger] l[i] == l[0],
        n < l.len() ==> l[n as int] != l[0],
    ensures
        runs(Seq::empty()).len() == 0,
        l[0] == 0 ==> runs(l) == Seq::new(
            n / 138,
            |i: int| RunCode { symbol: 18, extra_bits: 7, extra: 127 },
        ) + (if n % 138 >= 11 {
            seq![RunCode { symbol: 18, extra_bits: 7, extra: (n % 138 - 11) as u8 }]
        } else if n % 138 >= 3 {
            seq![RunCode { symbol: 17, extra_bits: 3, extra: (n % 138 - 3) as u8 }]
        } else {
            Seq::new(n % 138, |i: int| RunCode { symbol: 0, extra_bits: 0, extra: 0 })
        }) + runs(l.skip(n as int)),
        l[0] != 0 ==> runs(l) == seq![RunCode { symbol: l[0], extra_bits: 0, extra: 0 }]
            + Seq::new(
            ((n - 1) / 6) as nat,
            |i: int| RunCode { symbol: 16, extra_bits: 2, extra: 3 },
        ) + (if (n - 1) % 6 >= 3 {
            seq![RunCode { symbol: 16, extra_bits: 2, extra: ((n - 1) % 6 - 3) as u8 }]
        } else {
            Seq::new(
                ((n - 1) % 6) as nat,
                |i: int| RunCode { symbol: l[0], extra_bits: 0, extra: 0 },
            )
        }) + runs(l.skip(n as int)),
{
    lemma_front_run(l, l[0]);
    let k = front_run(l, l[0]);
    if k < n {
        assert(l[k as int] == l[0]);
    }
    if n < k {
        assert(l[n as int] == l[0]);
    }
    if l[0] == 0 {
        lemma_zero_run_form(n);
    } else {
        let m = (n - 1) as nat;
        lemma_repeat_run_form(l[0], m);
        assert(plain_run(l[0], 1) =~= seq![RunCode { symbol: l[0], extra_bits: 0, extra: 0 }]);
        let first = seq![RunCode { symbol: l[0], extra_bits: 0, extra: 0 }];
        let full = Seq::new(m / 6, |i: int| RunCode { symbol: 16, extra_bits: 2, extra: 3 });
        let tail = if m % 6 >= 3 {
            seq![RunCode { symbol: 16, extra_bits: 2, extra: (m % 6 - 3) as u8 }]
        } else {
            Seq::new(m % 6, |i: int| RunCode { symbol: l[0], extra_bits: 0, extra: 0 })
        };
        assert(first + (full + tail) =~= first + full + tail);
    }
}

// ---------------------------------------------------------------------------
// No other codes take fewer bits
// ---------------------------------------------------------------------------

/// How many of the first `n` symbols are `s`.
spec fn tally(symbols: Seq<nat>, s: nat, n: nat) -> nat
    decreases n,
{
    if n == 0 {
        0
    } else {
        tally(symbols, s, (n - 1) as nat) + (if symbols[n - 1] == s {
            1nat
        } else {
            0nat
        })
    }
}

/// The widths of the codes of the first `n` symbols, those from `k` on left out.
spec fn spent(symbols: Seq<nat>, l: Seq<u8>, k: nat, n: nat) -> nat
    decreases n,
{
    if n == 0 {
        0
    } else {
        spent(symbols, l, k, (n - 1) as nat) + (if symbols[n - 1] < k {
            l[symbols[n - 1] as int] as nat
        } else {
            0nat
        })
    }
}

/// The same, symbol by symbol.
spec fn spent_each(symbols: Seq<nat>, l: Seq<u8>, k: nat, n: nat) -> nat
    decreases k,
{
    if k == 0 {
        0
    } else {
        spent_each(symbols, l, (k - 1) as nat, n) + tally(symbols, (k - 1) as nat, n) * l[k
            - 1] as nat
    }
}

proof fn lemma_spent_one_more(symbols: Seq<nat>, l: Seq<u8>, k: nat, n: nat)
    requires
        n > 0,
    ensures
        spent_each(symbols, l, k, n) == spent_each(symbols, l, k, (n - 1) as nat) + if symbols[n
            - 1] < k {
            l[symbols[n - 1] as int] as nat
        } else {
            0nat
        },
    decreases k,
{
    if k > 0 {
        let j = (k - 1) as nat;
        let m = (n - 1) as nat;
        lemma_spent_one_more(symbols, l, j, n);
        let w = l[k - 1] as nat;
        let before = tally(symbols, j, m);
        if symbols[n - 1] == j {
            assert((before + 1) * w == before * w + w) by (nonlinear_arith);
        }
    }
}

proof fn lemma_spent(symbols: Seq<nat>, l: Seq<u8>, k: nat, n: nat)
    ensures
        spent(symbols, l, k, n) == spent_each(symbols, l, k, n),
    decreases n,
{
    if n == 0 {
        lemma_spent_none(symbols, l, k);
    } else {
        lemma_spent(symbols, l, k, (n - 1) as nat);
        lemma_spent_one_more(symbols, l, k, n);
    }
}

proof fn lemma_spent_none(symbols: Seq<nat>, l: Seq<u8>, k: nat)
    ensures
        spent_each(symbols, l, k, 0) == 0,
    decreases k,
{
    if k > 0 {
        lemma_spent_none(symbols, l, (k - 1) as nat);
        assert(0 * l[k - 1] as nat == 0);
    }
}

/// What symbols cost is what their codes take.
proof fn lemma_cost_spent(symbols: Seq<nat>, f: Seq<usize>, l: Seq<u8>, k: nat)
    requires
        k <= f.len() == l.len(),
        forall|s: nat| s < k ==> #[trigger] tally(symbols, s, symbols.len()) == f[s as int],
    ensures
        cost(f, widths_of(l), k) == spent_each(symbols, l, k, symbols.len()),
    decreases k,
{
    if k > 0 {
        lemma_cost_spent(symbols, f, l, (k - 1) as nat);
        assert(tally(symbols, (k - 1) as nat, symbols.len()) == f[k - 1]);
    }
}

proof fn lemma_tally_found(symbols: Seq<nat>, s: nat, n: nat) -> (i: int)
    requires
        tally(symbols, s, n) > 0,
    ensures
        0 <= i < n,
        symbols[i] == s,
    decreases n,
{
    if symbols[n - 1] == s {
        n - 1
    } else {
        lemma_tally_found(symbols, s, (n - 1) as nat)
    }
}

proof fn lemma_tally_bound(symbols: Seq<nat>, s: nat, n: nat)
    ensures
        tally(symbols, s, n) <= n,
    decreases n,
{
    if n > 0 {
        lemma_tally_bound(symbols, s, (n - 1) as nat);
    }
}

/// The shortest code of at most `max` bits takes no more bits for symbols than
/// any other.
proof fn lemma_no_shorter(symbols: Seq<nat>, f: Seq<usize>, max: nat, other: Seq<u8>)
    requires
        f.len() == other.len(),
        f.len() <= 65536,
        1 <= max <= 15,
        forall|s: nat|
            s < f.len() ==> #[trigger] tally(symbols, s, symbols.len()) == f[s as int],
        used_count(f, f.len()) <= pow2(max),
        prefix_free(other),
        forall|s: int| 0 <= s < other.len() ==> #[trigger] other[s] <= max,
        forall|s: int| 0 <= s < f.len() && f[s] > 0 ==> #[trigger] other[s] > 0,
    ensures
        spent(symbols, limited_widths(f, max), f.len(), symbols.len()) <= spent(
            symbols,
            other,
            f.len(),
            symbols.len(),
        ),
{
    let k = f.len();
    let l = limited_widths(f, max);
    lemma_limited_widths(f, max);
    lemma_cost_spent(symbols, f, l, k);
    lemma_cost_spent(symbols, f, other, k);
    lemma_spent(symbols, l, k, symbols.len());
    lemma_spent(symbols, other, k, symbols.len());
    lemma_narrow_code(f, other, max);
    lemma_shortest(f, max, widths_of(other));
}

/// The literal/length symbols of tokens and the end of the block.
spec fn literal_symbols(codes: Seq<Lz77Code>) -> Seq<nat> {
    Seq::new(codes.len(), |i: int| literal_symbol_of(codes[i])).push(256)
}

/// The distance symbols of tokens, 30 where there is none.
spec fn distance_symbols(codes: Seq<Lz77Code>) -> Seq<nat> {
    Seq::new(
        codes.len(),
        |i: int|
            match codes[i] {
                Lz77Code::Literal(byte) => 30nat,
                Lz77Code::Pointer { distance, .. } => distance_symbol(
                    distance as nat,
                ).code as nat,
            },
    )
}

/// The extra bits of the first `n` tokens.
spec fn extra_spent(codes: Seq<Lz77Code>, n: nat) -> nat
    decreases n,
{
    if n == 0 {
        0
    } else {
        extra_spent(codes, (n - 1) as nat) + match codes[n - 1] {
            Lz77Code::Literal(byte) => 0nat,
            Lz77Code::Pointer { length, distance } => extra_bits(
                length_symbol(length as nat).extra,
            ).len() + extra_bits(distance_symbol(distance as nat).extra).len(),
        }
    }
}

/// What the first `n` tokens take.
spec fn tokens_spent(codes: Seq<Lz77Code>, l: Seq<u8>, d: Seq<u8>, n: nat) -> nat
    decreases n,
{
    if n == 0 {
        0
    } else {
        tokens_spent(codes, l, d, (n - 1) as nat) + token_bits(codes[n - 1], l, d).len()
    }
}

proof fn lemma_tokens_front(codes: Seq<Lz77Code>, l: Seq<u8>, d: Seq<u8>, n: nat)
    requires
        1 <= n <= codes.len(),
    ensures
        tokens_spent(codes, l, d, n) == token_bits(codes[0], l, d).len() + tokens_spent(
            codes.skip(1),
            l,
            d,
            (n - 1) as nat,
        ),
    decreases n,
{
    if n > 1 {
        lemma_tokens_front(codes, l, d, (n - 1) as nat);
        assert(codes.skip(1)[n - 2] == codes[n - 1]);
    } else {
        assert(tokens_spent(codes, l, d, 0) == 0);
        assert(tokens_spent(codes.skip(1), l, d, 0) == 0);
    }
}

proof fn lemma_symbols_spent(codes: Seq<Lz77Code>, l: Seq<u8>, d: Seq<u8>)
    ensures
        symbols_bits(codes, l, d).len() == tokens_spent(codes, l, d, codes.len()) + l[256],
    decreases codes.len(),
{
    if codes.len() == 0 {
        lemma_to_bits_len(word(l, 256), l[256] as nat);
    } else {
        lemma_symbols_spent(codes.skip(1), l, d);
        lemma_tokens_front(codes, l, d, codes.len());
    }
}

proof fn lemma_tokens_spent(codes: Seq<Lz77Code>, l: Seq<u8>, d: Seq<u8>, n: nat)
    requires
        n <= codes.len(),
        forall|i: int| 0 <= i < codes.len() ==> encodable(#[trigger] codes[i]),
    ensures
        tokens_spent(codes, l, d, n) == spent(literal_symbols(codes), l, 286, n) + spent(
            distance_symbols(codes),
            d,
            30,
            n,
        ) + extra_spent(codes, n),
    decreases n,
{
    if n > 0 {
        lemma_tokens_spent(codes, l, d, (n - 1) as nat);
        let code = codes[n - 1];
        assert(encodable(code));
        assert(literal_symbols(codes)[n - 1] == literal_symbol_of(code));
        match code {
            Lz77Code::Literal(byte) => {
                lemma_to_bits_len(word(l, byte as nat), l[byte as int] as nat);
            },
            Lz77Code::Pointer { length, distance } => {
                lemma_length_symbol(length as nat);
                lemma_distance_symbol(distance as nat);
                let s = length_symbol(length as nat).code;
                let t = distance_symbol(distance as nat).code;
                lemma_to_bits_len(word(l, s as nat), l[s as int] as nat);
                lemma_to_bits_len(word(d, t as nat), d[t as int] as nat);
            },
        }
    }
}

proof fn lemma_literal_tally(codes: Seq<Lz77Code>, s: nat, n: nat)
    requires
        n <= codes.len(),
    ensures
        tally(literal_symbols(codes), s, n) == literal_count(codes, s, n),
    decreases n,
{
    if n > 0 {
        lemma_literal_tally(codes, s, (n - 1) as nat);
        assert(literal_symbols(codes)[n - 1] == literal_symbol_of(codes[n - 1]));
    }
}

proof fn lemma_distance_tally(codes: Seq<Lz77Code>, s: nat, n: nat)
    requires
        n <= codes.len(),
        s < 30,
    ensures
        tally(distance_symbols(codes), s, n) == distance_count(codes, s, n),
    decreases n,
{
    if n > 0 {
        lemma_distance_tally(codes, s, (n - 1) as nat);
    }
}

proof fn lemma_no_end_symbol(codes: Seq<Lz77Code>, n: nat)
    requires
        n <= codes.len(),
        forall|i: int| 0 <= i < codes.len() ==> encodable(#[trigger] codes[i]),
    ensures
        literal_count(codes, 256, n) == 0,
    decreases n,
{
    if n > 0 {
        lemma_no_end_symbol(codes, (n - 1) as nat);
        assert(encodable(codes[n - 1]));
        if let Lz77Code::Pointer { length, distance } = codes[n - 1] {
            lemma_length_symbol(length as nat);
        }
    }
}

proof fn lemma_literal_no_shorter(codes: Seq<Lz77Code>, other: Seq<u8>)
    requires
        codes.len() <= usize::MAX,
        forall|i: int| 0 <= i < codes.len() ==> encodable(#[trigger] codes[i]),
        other.len() == 286,
        prefix_free(other),
        other[256] > 0,
        forall|i: int|
            0 <= i < codes.len() ==> other[literal_symbol_of(#[trigger] codes[i]) as int] > 0,
    ensures
        spent(literal_symbols(codes), dynamic_literal(codes), 286, codes.len())
            + dynamic_literal(codes)[256] <= spent(
            literal_symbols(codes),
            other,
            286,
            codes.len(),
        ) + other[256],
{
    let n = codes.len();
    let symbols = literal_symbols(codes);
    let f = literal_frequencies(codes);
    assert forall|s: nat| s < f.len() implies #[trigger] tally(symbols, s, symbols.len())
        == f[s as int] by {
        lemma_literal_tally(codes, s, n);
        lemma_tally_bound(symbols, s, n);
        lemma_no_end_symbol(codes, n);
        assert(symbols[n as int] == 256);
        assert(tally(symbols, s, n + 1) == tally(symbols, s, n) + if s == 256 {
            1nat
        } else {
            0nat
        });
    }
    assert forall|s: int| 0 <= s < f.len() && f[s] > 0 implies #[trigger] other[s] > 0 by {
        if s != 256 {
            assert(tally(symbols, s as nat, symbols.len()) == f[s]);
            let i = lemma_tally_found(symbols, s as nat, symbols.len());
            assert(i < n);
            assert(symbols[i] == literal_symbol_of(codes[i]));
            assert(other[literal_symbol_of(codes[i]) as int] > 0);
        }
    }
    lemma2_to64();
    lemma_used_count(f, f.len());
    lemma_no_shorter(symbols, f, 15, other);
    assert(symbols[n as int] == 256);
}

proof fn lemma_distance_no_shorter(codes: Seq<Lz77Code>, other: Seq<u8>)
    requires
        codes.len() <= usize::MAX,
        forall|i: int| 0 <= i < codes.len() ==> encodable(#[trigger] codes[i]),
        other.len() == 30,
        prefix_free(other),
        forall|i: int|
            0 <= i < codes.len() && codes[i] is Pointer ==> other[distance_symbol(
                (#[trigger] codes[i])->distance as nat,
            ).code as int] > 0,
    ensures
        spent(distance_symbols(codes), dynamic_distance(codes), 30, codes.len()) <= spent(
            distance_symbols(codes),
            other,
            30,
            codes.len(),
        ),
{
    let n = codes.len();
    let symbols = distance_symbols(codes);
    let f = distance_frequencies(codes);
    if has_pointer(codes, n) {
        assert forall|s: nat| s < f.len() implies #[trigger] tally(symbols, s, symbols.len())
            == f[s as int] by {
            lemma_distance_tally(codes, s, n);
            lemma_tally_bound(symbols, s, n);
        }
        assert forall|s: int| 0 <= s < f.len() && f[s] > 0 implies #[trigger] other[s] > 0 by {
            assert(tally(symbols, s as nat, symbols.len()) == f[s]);
            let i = lemma_tally_found(symbols, s as nat, symbols.len());
            assert(codes[i] is Pointer);
        }
        lemma2_to64();
        lemma_used_count(f, f.len());
        lemma_no_shorter(symbols, f, 15, other);
    } else {
        lemma_no_distances(codes, dynamic_distance(codes), n);
    }
}

proof fn lemma_no_distances(codes: Seq<Lz77Code>, d: Seq<u8>, n: nat)
    requires
        n <= codes.len(),
        !has_pointer(codes, codes.len()),
    ensures
        spent(distance_symbols(codes), d, 30, n) == 0,
    decreases n,
{
    if n > 0 {
        lemma_no_distances(codes, d, (n - 1) as nat);
        assert(codes[n - 1] is Literal) by {
            if codes[n - 1] is Pointer {
                assert(has_pointer(codes, codes.len()));
            }
        }
    }
}

/// With the codes of a dynamic block, its symbols take no more bits than with
/// any other codes that a decoder accepts and that have a code for each symbol.
#[verifier::spinoff_prover]
#[verifier::rlimit(60)]
pub proof fn lemma_no_shorter_block(codes: Seq<Lz77Code>, literal: Seq<u8>, distance: Seq<u8>)
    requires
        codes.len() <= usize::MAX,
        forall|i: int|
            0 <= i < codes.len() ==> (#[trigger] codes[i] matches Lz77Code::Pointer {
                length,
                distance: far,
            } ==> 3 <= length <= 258 && 1 <= far <= 32768),
        literal.len() == 286,
        distance.len() == 30,
        table_fault(literal) is None,
        table_fault(distance) is None,
        literal[256] > 0,
        forall|i: int|
            0 <= i < codes.len() ==> match #[trigger] codes[i] {
                Lz77Code::Literal(byte) => literal[byte as int] > 0,
                Lz77Code::Pointer { length, distance: far } => {
                    &&& literal[length_symbol(length as nat).code as int] > 0
                    &&& distance[distance_symbol(far as nat).code as int] > 0
                },
            },
    ensures
        symbols_bits(codes, dynamic_literal(codes), dynamic_distance(codes)).len()
            <= symbols_bits(codes, literal, distance).len(),
{
    let n = codes.len();
    let l = dynamic_literal(codes);
    let d = dynamic_distance(codes);
    assert forall|i: int| 0 <= i < codes.len() implies encodable(#[trigger] codes[i]) by {}
    assert forall|i: int| 0 <= i < codes.len() implies literal[literal_symbol_of(
        #[trigger] codes[i],
    ) as int] > 0 by {}
    assert forall|i: int|
        0 <= i < codes.len() && codes[i] is Pointer implies distance[distance_symbol(
        (#[trigger] codes[i])->distance as nat,
    ).code as int] > 0 by {}
    lemma_symbols_spent(codes, l, d);
    lemma_symbols_spent(codes, literal, distance);
    lemma_tokens_spent(codes, l, d, n);
    lemma_tokens_spent(codes, literal, distance, n);
    lemma_literal_no_shorter(codes, literal);
    lemma_distance_no_shorter(codes, distance);
}

/// What the first `n` elements take beyond their codes.
spec fn element_extra(elements: Seq<RunCode>, n: nat) -> nat
    decreases n,
{
    if n == 0 {
        0
    } else {
        element_extra(elements, (n - 1) as nat) + elements[n - 1].extra_bits as nat
    }
}

proof fn lemma_extra_front(elements: Seq<RunCode>, n: nat)
    requires
        1 <= n <= elements.len(),
    ensures
        element_extra(elements, n) == elements[0].extra_bits + element_extra(
            elements.skip(1),
            (n - 1) as nat,
        ),
    decreases n,
{
    if n > 1 {
        lemma_extra_front(elements, (n - 1) as nat);
        assert(elements.skip(1)[n - 2] == elements[n - 1]);
    } else {
        assert(element_extra(elements, 0) == 0);
        assert(element_extra(elements.skip(1), 0) == 0);
    }
}

spec fn element_symbols(elements: Seq<RunCode>) -> Seq<nat> {
    Seq::new(elements.len(), |i: int| elements[i].symbol as nat)
}

proof fn lemma_spent_front(symbols: Seq<nat>, l: Seq<u8>, k: nat, n: nat)
    requires
        1 <= n <= symbols.len(),
    ensures
        spent(symbols, l, k, n) == (if symbols[0] < k {
            l[symbols[0] as int] as nat
        } else {
            0nat
        }) + spent(symbols.skip(1), l, k, (n - 1) as nat),
    decreases n,
{
    if n > 1 {
        lemma_spent_front(symbols, l, k, (n - 1) as nat);
        assert(symbols.skip(1)[n - 2] == symbols[n - 1]);
    } else {
        assert(spent(symbols, l, k, 0) == 0);
        assert(spent(symbols.skip(1), l, k, 0) == 0);
    }
}

proof fn lemma_elements_spent(elements: Seq<RunCode>, widths: Seq<u8>)
    requires
        forall|i: int| 0 <= i < elements.len() ==> (#[trigger] elements[i]).symbol <= 18,
    ensures
        elements_bits(elements, widths).len() == spent(
            element_symbols(elements),
            widths,
            19,
            elements.len(),
        ) + element_extra(elements, elements.len()),
    decreases elements.len(),
{
    if elements.len() > 0 {
        let first = elements[0];
        let rest = elements.skip(1);
        let symbols = element_symbols(elements);
        assert forall|i: int| 0 <= i < rest.len() implies (#[trigger] rest[i]).symbol <= 18 by {
            assert(rest[i] == elements[i + 1]);
        }
        lemma_elements_spent(rest, widths);
        lemma_extra_front(elements, elements.len());
        lemma_spent_front(symbols, widths, 19, elements.len());
        assert(symbols.skip(1) =~= element_symbols(rest));
        assert(symbols[0] == first.symbol);
        lemma_to_bits_len(
            word(widths, first.symbol as nat),
            widths[first.symbol as int] as nat,
        );
        lemma_to_bits_len(first.extra as nat, first.extra_bits as nat);
    }
}

proof fn lemma_element_tally(elements: Seq<RunCode>, s: nat, n: nat)
    requires
        n <= elements.len(),
    ensures
        tally(element_symbols(elements), s, n) == run_count(elements, s, n),
    decreases n,
{
    if n > 0 {
        lemma_element_tally(elements, s, (n - 1) as nat);
        assert(element_symbols(elements)[n - 1] == elements[n - 1].symbol);
    }
}

/// With the codes that they get, the elements that code widths are sent as take
/// no more bits than with any other codes of up to seven bits.
pub proof fn lemma_no_shorter_elements(elements: Seq<RunCode>, other: Seq<u8>)
    requires
        elements.len() <= usize::MAX,
        other.len() == 19,
        table_fault(other) is None,
        forall|s: int| 0 <= s < 19 ==> #[trigger] other[s] <= 7,
        forall|i: int|
            0 <= i < elements.len() ==> (#[trigger] elements[i]).symbol <= 18
                && other[elements[i].symbol as int] > 0,
    ensures
        elements_bits(elements, run_widths(elements)).len() <= elements_bits(elements, other).len(),
{
    let n = elements.len();
    let symbols = element_symbols(elements);
    let f = run_frequencies(elements);
    assert forall|s: nat| s < f.len() implies #[trigger] tally(symbols, s, symbols.len())
        == f[s as int] by {
        lemma_element_tally(elements, s, n);
        lemma_tally_bound(symbols, s, n);
    }
    assert forall|s: int| 0 <= s < f.len() && f[s] > 0 implies #[trigger] other[s] > 0 by {
        assert(tally(symbols, s as nat, symbols.len()) == f[s]);
        let i = lemma_tally_found(symbols, s as nat, symbols.len());
        assert(elements[i].symbol == s);
    }
    lemma2_to64();
    lemma_used_count(f, f.len());
    lemma_no_shorter(symbols, f, 7, other);
    lemma_elements_spent(elements, run_widths(elements));
    lemma_elements_spent(elements, other);
}

// ---------------------------------------------------------------------------
// Encoders
// ---------------------------------------------------------------------------

/// A new encoder has been given nothing and has written nothing.
pub proof fn lemma_new_encoder(kind: BlockKind, limit: Option<nat>)
    ensures
        fresh(kind, limit).kind == kind,
        fresh(kind, limit).limit == limit,
        fresh(kind, limit).input.len() == 0,
        fresh(kind, limit).stream.len() == 0,
        !fresh(kind, limit).finished,
{
}

/// Input is kept until there is enough for a block of the greatest size. Then a
/// block of that size is written, and it goes on with the rest. Without a limit
/// nothing is written before the end.
pub proof fn lemma_input_kept(s: EncoderState, data: Seq<u8>)
    requires
        s.limit != Some(0nat),
    ensures
        s.limit is None || s.input.len() + data.len() < s.limit->0 ==> fed(s, data) == (
        EncoderState { input: s.input + data, ..s }),
        s.limit matches Some(limit) && s.input.len() + data.len() >= limit ==> fed(s, data) == fed(
            EncoderState {
                input: Seq::empty(),
                stream: block(s.stream, s.kind, (s.input + data).take(s.limit->0 as int), false),
                ..s
            },
            (s.input + data).skip(s.limit->0 as int),
        ),
{
    let all = s.input + data;
    if let Some(limit) = s.limit {
        if all.len() >= limit {
            assert(Seq::<u8>::empty() + all.skip(limit as int) =~= all.skip(limit as int));
        }
    }
}

/// A flush writes what there is of input as a block, and an empty stored block
/// behind it that ends with `00 00 ff ff`.
pub proof fn lemma_flush_written(s: EncoderState)
    ensures
        ({
            let front = if s.input.len() > 0 {
                block(s.stream, s.kind, s.input, false)
            } else {
                s.stream
            };
            flushed(s) == EncoderState {
                input: Seq::empty(),
                stream: front + seq![false, false, false] + Seq::new(
                    ((8 - (front.len() + 3) % 8) % 8) as nat,
                    |i: int| false,
                ) + byte_bits(seq![0u8, 0u8, 0xffu8, 0xffu8]),
                ..s
            }
        }),
{
    let front = if s.input.len() > 0 {
        block(s.stream, s.kind, s.input, false)
    } else {
        s.stream
    };
    let nothing = Seq::<u8>::empty();
    lemma_stored_block(front, nothing, false);
    assert(block(front, BlockKind::Stored, nothing, false) == stored_piece(front, nothing, false));
    assert(seq![0u8, 0u8, 0xffu8, 0xffu8] + nothing =~= seq![0u8, 0u8, 0xffu8, 0xffu8]);
}

/// The end of a stream is a last block with what there is of input, also if that
/// is nothing.
pub proof fn lemma_end_written(s: EncoderState)
    ensures
        finished(s) == (EncoderState {
            input: Seq::empty(),
            stream: block(s.stream, s.kind, s.input, true),
            finished: true,
            ..s
        }),
{
}

} // verus!
