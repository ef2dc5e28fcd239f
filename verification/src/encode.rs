//! Streaming DEFLATE encoder.
//!
//! The caller feeds uncompressed bytes via [`Encoder::feed`], then calls
//! [`Encoder::finish`] to emit the final block. Compressed bytes are
//! borrowed via [`Encoder::output`] and acknowledged via [`Encoder::advance`].
//!
//! By default the encoder splits input into 64 KiB blocks, emitting each
//! as a fixed- or dynamic-Huffman block (or a sequence of stored sub-blocks)
//! during [`Encoder::feed`]. This keeps memory usage bounded for streaming
//! workloads. For one-shot compression use [`EncodeOptions::buffer_all_input`]
//! to gather all input into a single block.

use crate::bit::BitWriter;
use crate::bits::{
    byte_bits, bytes_of, lemma_byte_bits_concat, lemma_byte_bits_injective, lemma_byte_bits_len,
    lemma_byte_bits_skip, lemma_bytes_of, lemma_pow2_zero, lemma_to_bits_len, padded, to_bits,
};
use crate::block::{
    all_runs_ok, at_least, block, closed, distance_count, distance_frequencies, dynamic_bits,
    dynamic_distance, dynamic_literal, element_bits, elements_bits, extra_bits, fixed_bits,
    front_run, has_pointer, header_bits, le16, lemma_distance_count, lemma_front_run,
    lemma_literal_count, lemma_order_len, lemma_run_count, lemma_runs_ok, lemma_used_len,
    lemma_used_len_rest, literal_count, literal_frequencies, order_len, plain_run, repeat_run,
    run_codes, run_count, run_frequencies, run_ok, run_widths, runs, stored, stored_piece,
    symbol_bits, symbols_bits, table_runs, tables_bits, token_bits, used_len, width_bits, zero_run,
    BlockKind, RunCode,
};
use crate::canonical::widths_ok;
use crate::error::{invalid, invalid_data, Error};
use crate::huffman::HuffmanEncoder;
use crate::inflate::lemma_fixed_tables;
use crate::lz77::{encodable, lemma_encodable, tokens, Lz77Code, MatchFinder};
use crate::package_merge::{
    lemma_limited_widths, lemma_used_count, length_limited_code_lengths,
};
use crate::roundtrip::lemma_block_adds;
use crate::symbol::{
    distance_to_symbol, fixed_distance_code_lengths, fixed_literal_code_lengths,
    lemma_distance_index, lemma_length_index, length_to_symbol, EncodedSymbol, BITWIDTH_CODE_ORDER,
    END_OF_BLOCK, MAX_BITS, MAX_STORED_BLOCK,
};
use vstd::arithmetic::power2::{lemma2_to64, pow2};
use vstd::prelude::*;

verus! {

// ---------------------------------------------------------------------------
// The symbols of a block
// ---------------------------------------------------------------------------

/// Write a symbol and its extra bits.
fn write_symbol(w: &mut BitWriter<'_>, symbol: EncodedSymbol, encoder: &HuffmanEncoder)
    requires
        old(w).wf(),
        encoder.wf(),
        symbol.code < encoder.lengths().len(),
        symbol.extra matches Some((bits, extra)) ==> bits <= 16 && extra < pow2(bits as nat),
    ensures
        final(w).wf(),
        final(w).bits() == old(w).bits() + symbol_bits(symbol, encoder.lengths()),
        final(final(w).output)@ == final(old(w).output)@,
{
    let ghost before = w.bits();
    encoder.encode(w, symbol.code);
    if let Some((bits, extra)) = symbol.extra {
        w.write_bits(bits, extra);
    }
    assert(w.bits() =~= before + symbol_bits(symbol, encoder.lengths()));
}

fn write_symbols(
    w: &mut BitWriter<'_>,
    symbols: &Vec<Lz77Code>,
    literal_encoder: &HuffmanEncoder,
    distance_encoder: &HuffmanEncoder,
)
    requires
        old(w).wf(),
        literal_encoder.wf(),
        distance_encoder.wf(),
        literal_encoder.lengths().len() >= 286,
        distance_encoder.lengths().len() >= 30,
        forall|i: int| 0 <= i < symbols@.len() ==> encodable(#[trigger] symbols@[i]),
    ensures
        final(w).wf(),
        final(w).bits() == old(w).bits() + symbols_bits(
            symbols@,
            literal_encoder.lengths(),
            distance_encoder.lengths(),
        ),
        final(final(w).output)@ == final(old(w).output)@,
{
    let ghost literal = literal_encoder.lengths();
    let ghost distance = distance_encoder.lengths();
    let ghost all = old(w).bits() + symbols_bits(symbols@, literal, distance);
    let mut i: usize = 0;
    assert(symbols@.skip(0) =~= symbols@);
    while i < symbols.len()
        invariant
            i <= symbols@.len(),
            w.wf(),
            literal_encoder.wf(),
            distance_encoder.wf(),
            literal == literal_encoder.lengths(),
            distance == distance_encoder.lengths(),
            literal.len() >= 286,
            distance.len() >= 30,
            forall|k: int| 0 <= k < symbols@.len() ==> encodable(#[trigger] symbols@[k]),
            w.bits() + symbols_bits(symbols@.skip(i as int), literal, distance) == all,
            final(w.output)@ == final(old(w).output)@,
        decreases symbols@.len() - i,
    {
        let ghost before = w.bits();
        let code: Lz77Code = symbols[i];
        assert(encodable(symbols@[i as int]));
        match code {
            Lz77Code::Literal(byte) => {
                literal_encoder.encode(w, byte as u16);
            },
            Lz77Code::Pointer { length, distance: far } => {
                proof {
                    lemma_length_index(length as nat);
                    lemma_distance_index(far as nat);
                }
                let len_sym: EncodedSymbol = length_to_symbol(length as u16);
                write_symbol(w, len_sym, literal_encoder);
                let dist_sym: EncodedSymbol = distance_to_symbol(far as u16);
                write_symbol(w, dist_sym, distance_encoder);
            },
        }
        proof {
            assert(w.bits() =~= before + token_bits(code, literal, distance));
            assert(symbols@.skip(i as int).skip(1) =~= symbols@.skip(i as int + 1));
            assert(w.bits() + symbols_bits(symbols@.skip(i as int + 1), literal, distance)
                =~= before + symbols_bits(symbols@.skip(i as int), literal, distance));
        }
        i += 1;
    }
    assert(symbols@.skip(i as int) =~= Seq::<Lz77Code>::empty());
    literal_encoder.encode(w, END_OF_BLOCK);
}

/// Count how often each literal/length symbol and each distance symbol is
/// needed.
fn count_frequencies(symbols: &Vec<Lz77Code>) -> (r: ([usize; 286], [usize; 30]))
    requires
        forall|i: int| 0 <= i < symbols@.len() ==> encodable(#[trigger] symbols@[i]),
    ensures
        r.0@ == literal_frequencies(symbols@),
        r.1@ == distance_frequencies(symbols@),
{
    let mut literal_counts: [usize; 286] = [0usize; 286];
    let mut distance_counts: [usize; 30] = [0usize; 30];
    let mut pointer_seen: bool = false;
    let mut i: usize = 0;
    let n: usize = symbols.len();
    let ghost codes = symbols@;
    while i < n
        invariant
            i <= n == codes.len(),
            codes == symbols@,
            forall|k: int| 0 <= k < codes.len() ==> encodable(#[trigger] codes[k]),
            forall|s: int|
                0 <= s < 286 ==> #[trigger] literal_counts@[s] == literal_count(
                    codes,
                    s as nat,
                    i as nat,
                ),
            forall|s: int|
                0 <= s < 30 ==> #[trigger] distance_counts@[s] == distance_count(
                    codes,
                    s as nat,
                    i as nat,
                ),
            pointer_seen == has_pointer(codes, i as nat),
        decreases n - i,
    {
        let code: Lz77Code = symbols[i];
        assert(encodable(codes[i as int]));
        match code {
            Lz77Code::Literal(byte) => {
                proof {
                    lemma_literal_count(codes, byte as nat, i as nat);
                }
                let seen: usize = literal_counts[byte as usize];
                literal_counts[byte as usize] = seen + 1;
            },
            Lz77Code::Pointer { length, distance } => {
                let len_sym: EncodedSymbol = length_to_symbol(length as u16);
                let dist_sym: EncodedSymbol = distance_to_symbol(distance as u16);
                proof {
                    lemma_literal_count(codes, len_sym.code as nat, i as nat);
                    lemma_distance_count(codes, dist_sym.code as nat, i as nat);
                }
                let seen: usize = literal_counts[len_sym.code as usize];
                literal_counts[len_sym.code as usize] = seen + 1;
                let far_seen: usize = distance_counts[dist_sym.code as usize];
                distance_counts[dist_sym.code as usize] = far_seen + 1;
                pointer_seen = true;
            },
        }
        proof {
            let next = i as nat + 1;
            if has_pointer(codes, i as nat) {
                let k = choose|k: int| 0 <= k < i && #[trigger] codes[k] is Pointer;
                assert(0 <= k < next && codes[k] is Pointer);
            }
            if has_pointer(codes, next) && !(codes[i as int] is Pointer) {
                let k = choose|k: int| 0 <= k < next && #[trigger] codes[k] is Pointer;
                assert(0 <= k < i && codes[k] is Pointer);
            }
        }
        i += 1;
    }
    literal_counts[END_OF_BLOCK as usize] = 1;
    if !pointer_seen {
        proof {
            assert forall|s: int| 0 <= s < 30 implies #[trigger] distance_counts@[s] == 0 by {
                lemma_distance_count(codes, s as nat, n as nat);
            }
        }
        distance_counts[0] = 1;
    }
    assert(literal_counts@ =~= literal_frequencies(codes));
    assert(distance_counts@ =~= distance_frequencies(codes));
    (literal_counts, distance_counts)
}

// ---------------------------------------------------------------------------
// The tables of a block
// ---------------------------------------------------------------------------

/// The elements that a vector of triples stands for.
spec fn run_codes_of(codes: Seq<(u8, u8, u8)>) -> Seq<RunCode> {
    Seq::new(
        codes.len(),
        |i: int| RunCode { symbol: codes[i].0, extra_bits: codes[i].1, extra: codes[i].2 },
    )
}

fn push_code(codes: &mut Vec<(u8, u8, u8)>, symbol: u8, extra_bits: u8, extra: u8)
    ensures
        run_codes_of(final(codes)@) == run_codes_of(old(codes)@).push(
            RunCode { symbol, extra_bits, extra },
        ),
{
    codes.push((symbol, extra_bits, extra));
    assert(run_codes_of(codes@) =~= run_codes_of(old(codes)@).push(
        RunCode { symbol, extra_bits, extra },
    ));
}

fn push_plain_run(codes: &mut Vec<(u8, u8, u8)>, value: u8, n: usize)
    ensures
        run_codes_of(final(codes)@) == run_codes_of(old(codes)@) + plain_run(value, n as nat),
{
    let mut i: usize = 0;
    assert(run_codes_of(codes@) =~= run_codes_of(old(codes)@) + plain_run(value, 0));
    while i < n
        invariant
            i <= n,
            run_codes_of(codes@) == run_codes_of(old(codes)@) + plain_run(value, i as nat),
        decreases n - i,
    {
        push_code(codes, value, 0, 0);
        i += 1;
        assert(run_codes_of(codes@) =~= run_codes_of(old(codes)@) + plain_run(value, i as nat));
    }
}

fn push_zero_run(codes: &mut Vec<(u8, u8, u8)>, n: usize)
    ensures
        run_codes_of(final(codes)@) == run_codes_of(old(codes)@) + zero_run(n as nat),
{
    let ghost all = run_codes_of(codes@) + zero_run(n as nat);
    let mut count: usize = n;
    while count >= 138
        invariant
            run_codes_of(codes@) + zero_run(count as nat) == all,
        decreases count,
    {
        let ghost before = run_codes_of(codes@);
        push_code(codes, 18, 7, 127);
        assert(run_codes_of(codes@) + zero_run((count - 138) as nat) =~= before + zero_run(
            count as nat,
        ));
        count -= 138;
    }
    if count >= 11 {
        push_code(codes, 18, 7, (count - 11) as u8);
    } else if count >= 3 {
        push_code(codes, 17, 3, (count - 3) as u8);
    } else {
        push_plain_run(codes, 0, count);
    }
    assert(run_codes_of(codes@) =~= all);
}

fn push_repeat_run(codes: &mut Vec<(u8, u8, u8)>, value: u8, n: usize)
    ensures
        run_codes_of(final(codes)@) == run_codes_of(old(codes)@) + repeat_run(value, n as nat),
{
    let ghost all = run_codes_of(codes@) + repeat_run(value, n as nat);
    let mut count: usize = n;
    while count >= 6
        invariant
            run_codes_of(codes@) + repeat_run(value, count as nat) == all,
        decreases count,
    {
        let ghost before = run_codes_of(codes@);
        push_code(codes, 16, 2, 3);
        assert(run_codes_of(codes@) + repeat_run(value, (count - 6) as nat) =~= before
            + repeat_run(value, count as nat));
        count -= 6;
    }
    if count >= 3 {
        push_code(codes, 16, 2, (count - 3) as u8);
    } else {
        push_plain_run(codes, value, count);
    }
    assert(run_codes_of(codes@) =~= all);
}

/// The code widths that are sent, those of the literal/length symbols first.
fn sent_widths(
    literal: &HuffmanEncoder,
    literal_code_count: usize,
    distance: &HuffmanEncoder,
    distance_code_count: usize,
) -> (lengths: Vec<u8>)
    requires
        literal_code_count <= literal.lengths().len() <= 65536,
        distance_code_count <= distance.lengths().len() <= 65536,
    ensures
        lengths@ == literal.lengths().take(literal_code_count as int) + distance.lengths().take(
            distance_code_count as int,
        ),
{
    let mut lengths: Vec<u8> = Vec::new();
    let mut i: usize = 0;
    while i < literal_code_count
        invariant
            i <= literal_code_count <= literal.lengths().len() <= 65536,
            lengths@ == literal.lengths().take(i as int),
        decreases literal_code_count - i,
    {
        lengths.push(literal.code_width(i as u16));
        i += 1;
        assert(lengths@ =~= literal.lengths().take(i as int));
    }
    let ghost front = lengths@;
    let mut k: usize = 0;
    assert(lengths@ =~= front + distance.lengths().take(0));
    while k < distance_code_count
        invariant
            k <= distance_code_count <= distance.lengths().len() <= 65536,
            lengths@ == front + distance.lengths().take(k as int),
        decreases distance_code_count - k,
    {
        lengths.push(distance.code_width(k as u16));
        k += 1;
        assert(lengths@ =~= front + distance.lengths().take(k as int));
    }
    lengths
}

#[verifier::spinoff_prover]
#[verifier::rlimit(60)]
fn build_bitwidth_codes(
    literal: &HuffmanEncoder,
    literal_code_count: usize,
    distance: &HuffmanEncoder,
    distance_code_count: usize,
) -> (codes: Vec<(u8, u8, u8)>)
    requires
        literal_code_count <= literal.lengths().len() <= 65536,
        distance_code_count <= distance.lengths().len() <= 65536,
    ensures
        run_codes_of(codes@) == runs(
            literal.lengths().take(literal_code_count as int) + distance.lengths().take(
                distance_code_count as int,
            ),
        ),
{
    let lengths: Vec<u8> = sent_widths(literal, literal_code_count, distance, distance_code_count);
    let ghost l = lengths@;
    let mut codes: Vec<(u8, u8, u8)> = Vec::new();
    let mut i: usize = 0;
    assert(l.skip(0) =~= l);
    assert(run_codes_of(codes@) + runs(l) =~= runs(l));
    while i < lengths.len()
        invariant
            i <= lengths@.len(),
            l == lengths@,
            run_codes_of(codes@) + runs(l.skip(i as int)) == runs(l),
        decreases lengths@.len() - i,
    {
        let value: u8 = lengths[i];
        let ghost rest = l.skip(i as int);
        let mut end: usize = i;
        assert(l.skip(end as int) =~= rest);
        while end < lengths.len() && lengths[end] == value
            invariant
                i <= end <= lengths@.len(),
                l == lengths@,
                rest == l.skip(i as int),
                front_run(rest, value) == end - i + front_run(l.skip(end as int), value),
            decreases lengths@.len() - end,
        {
            assert(l.skip(end as int).skip(1) =~= l.skip(end as int + 1));
            end += 1;
        }
        proof {
            lemma_front_run(rest, value);
        }
        let n: usize = end - i;
        let ghost before = run_codes_of(codes@);
        if value == 0 {
            push_zero_run(&mut codes, n);
        } else {
            push_plain_run(&mut codes, value, 1);
            push_repeat_run(&mut codes, value, n - 1);
        }
        proof {
            assert(run_codes_of(codes@) =~= before + run_codes(value, n as nat));
            assert(rest.skip(n as int) =~= l.skip(end as int));
            assert(run_codes_of(codes@) + runs(l.skip(end as int)) =~= before + runs(rest));
        }
        i = end;
    }
    assert(run_codes_of(codes@) =~= runs(l));
    codes
}

/// Count how often each symbol of the code-length alphabet is needed.
fn count_runs(codes: &Vec<(u8, u8, u8)>) -> (frequencies: [usize; 19])
    requires
        all_runs_ok(run_codes_of(codes@)),
    ensures
        frequencies@ == run_frequencies(run_codes_of(codes@)),
{
    let mut frequencies: [usize; 19] = [0usize; 19];
    let ghost elements = run_codes_of(codes@);
    let n: usize = codes.len();
    let mut i: usize = 0;
    while i < n
        invariant
            i <= n == codes@.len(),
            elements == run_codes_of(codes@),
            all_runs_ok(elements),
            forall|s: int|
                0 <= s < 19 ==> #[trigger] frequencies@[s] == run_count(
                    elements,
                    s as nat,
                    i as nat,
                ),
        decreases n - i,
    {
        let (code, _bits, _extra): (u8, u8, u8) = codes[i];
        proof {
            assert(run_ok(elements[i as int]));
            lemma_run_count(elements, code as nat, i as nat);
        }
        let seen: usize = frequencies[code as usize];
        frequencies[code as usize] = seen + 1;
        i += 1;
    }
    assert(frequencies@ =~= run_frequencies(elements));
    frequencies
}

/// How many code widths are sent, at least `least`.
fn code_count(encoder: &HuffmanEncoder, least: usize) -> (n: usize)
    requires
        encoder.wf(),
    ensures
        n == at_least(least as nat, used_len(encoder.lengths())),
{
    let used: usize = match encoder.used_max_symbol() {
        Some(last) => {
            proof {
                lemma_used_len(encoder.lengths(), last as nat + 1);
            }
            last as usize + 1
        },
        None => {
            proof {
                lemma_used_len(encoder.lengths(), 0);
            }
            0
        },
    };
    if used < least {
        least
    } else {
        used
    }
}

/// How many widths of the code-length alphabet are sent.
fn bitwidth_count(encoder: &HuffmanEncoder) -> (n: usize)
    requires
        encoder.lengths().len() == 19,
    ensures
        n == at_least(4, order_len(encoder.lengths(), 19)),
{
    let mut n: usize = 19;
    while n > 0 && encoder.code_width(BITWIDTH_CODE_ORDER[n - 1] as u16) == 0
        invariant
            n <= 19,
            encoder.lengths().len() == 19,
            order_len(encoder.lengths(), 19) == order_len(encoder.lengths(), n as nat),
        decreases n,
    {
        n -= 1;
    }
    if n < 4 {
        4
    } else {
        n
    }
}

/// Write the widths of the code-length alphabet.
fn write_widths(w: &mut BitWriter<'_>, encoder: &HuffmanEncoder, n: usize)
    requires
        old(w).wf(),
        n <= 19,
        encoder.lengths().len() == 19,
        forall|i: int| 0 <= i < 19 ==> #[trigger] encoder.lengths()[i] <= 7,
    ensures
        final(w).wf(),
        final(w).bits() == old(w).bits() + width_bits(encoder.lengths(), 0, n as nat),
        final(final(w).output)@ == final(old(w).output)@,
{
    let ghost widths = encoder.lengths();
    let ghost all = old(w).bits() + width_bits(widths, 0, n as nat);
    let mut i: usize = 0;
    while i < n
        invariant
            i <= n <= 19,
            w.wf(),
            widths == encoder.lengths(),
            widths.len() == 19,
            forall|k: int| 0 <= k < 19 ==> #[trigger] widths[k] <= 7,
            w.bits() + width_bits(widths, i as nat, n as nat) == all,
            final(w.output)@ == final(old(w).output)@,
        decreases n - i,
    {
        let ghost before = w.bits();
        let width: u8 = encoder.code_width(BITWIDTH_CODE_ORDER[i] as u16);
        proof {
            lemma2_to64();
        }
        w.write_bits(3, width as u16);
        assert(w.bits() + width_bits(widths, i as nat + 1, n as nat) =~= before + width_bits(
            widths,
            i as nat,
            n as nat,
        ));
        i += 1;
    }
    assert(w.bits() =~= all);
}

/// Write the elements that stand for the code widths.
fn write_runs(w: &mut BitWriter<'_>, codes: &Vec<(u8, u8, u8)>, encoder: &HuffmanEncoder)
    requires
        old(w).wf(),
        encoder.wf(),
        encoder.lengths().len() == 19,
        all_runs_ok(run_codes_of(codes@)),
    ensures
        final(w).wf(),
        final(w).bits() == old(w).bits() + elements_bits(
            run_codes_of(codes@),
            encoder.lengths(),
        ),
        final(final(w).output)@ == final(old(w).output)@,
{
    let ghost elements = run_codes_of(codes@);
    let ghost widths = encoder.lengths();
    let ghost all = old(w).bits() + elements_bits(elements, widths);
    let mut i: usize = 0;
    assert(elements.skip(0) =~= elements);
    while i < codes.len()
        invariant
            i <= codes@.len(),
            w.wf(),
            encoder.wf(),
            widths == encoder.lengths(),
            widths.len() == 19,
            elements == run_codes_of(codes@),
            all_runs_ok(elements),
            w.bits() + elements_bits(elements.skip(i as int), widths) == all,
            final(w.output)@ == final(old(w).output)@,
        decreases codes@.len() - i,
    {
        let ghost before = w.bits();
        let (code, bits, extra): (u8, u8, u8) = codes[i];
        proof {
            assert(run_ok(elements[i as int]));
            lemma2_to64();
        }
        encoder.encode(w, code as u16);
        if bits > 0 {
            w.write_bits(bits, extra as u16);
        }
        proof {
            assert(to_bits(0, 0) =~= Seq::<bool>::empty());
            assert(w.bits() =~= before + element_bits(elements[i as int], widths));
            assert(elements.skip(i as int).skip(1) =~= elements.skip(i as int + 1));
            assert(w.bits() + elements_bits(elements.skip(i as int + 1), widths) =~= before
                + elements_bits(elements.skip(i as int), widths));
        }
        i += 1;
    }
    assert(elements.skip(i as int) =~= Seq::<RunCode>::empty());
    assert(w.bits() =~= all);
}

/// The codes that a block gets for its symbols.
fn dynamic_encoders(symbols: &Vec<Lz77Code>) -> (r: Result<(HuffmanEncoder, HuffmanEncoder), Error>)
    requires
        forall|i: int| 0 <= i < symbols@.len() ==> encodable(#[trigger] symbols@[i]),
    ensures
        r matches Ok((literal, distance)) && {
            &&& literal.wf()
            &&& distance.wf()
            &&& literal.lengths() == dynamic_literal(symbols@)
            &&& distance.lengths() == dynamic_distance(symbols@)
            &&& literal.lengths().len() == 286
            &&& distance.lengths().len() == 30
            &&& widths_ok(literal.lengths())
            &&& widths_ok(distance.lengths())
        },
{
    let (literal_frequency, distance_frequency): ([usize; 286], [usize; 30]) = count_frequencies(
        symbols,
    );
    let literal_lengths: Vec<u8> = length_limited_code_lengths(
        literal_frequency.as_slice(),
        MAX_BITS,
    );
    let distance_lengths: Vec<u8> = length_limited_code_lengths(
        distance_frequency.as_slice(),
        MAX_BITS,
    );
    proof {
        lemma2_to64();
        lemma_used_count(literal_frequency@, 286);
        lemma_used_count(distance_frequency@, 30);
        lemma_limited_widths(literal_frequency@, 15);
        lemma_limited_widths(distance_frequency@, 15);
    }
    let literal_encoder: HuffmanEncoder = HuffmanEncoder::from_code_lengths(
        literal_lengths.as_slice(),
    )?;
    let distance_encoder: HuffmanEncoder = HuffmanEncoder::from_code_lengths(
        distance_lengths.as_slice(),
    )?;
    Ok((literal_encoder, distance_encoder))
}

/// Write the tables of a block.
#[verifier::spinoff_prover]
#[verifier::rlimit(60)]
fn write_tables(
    w: &mut BitWriter<'_>,
    literal_encoder: &HuffmanEncoder,
    distance_encoder: &HuffmanEncoder,
) -> (r: Result<(), Error>)
    requires
        old(w).wf(),
        literal_encoder.wf(),
        distance_encoder.wf(),
        literal_encoder.lengths().len() == 286,
        distance_encoder.lengths().len() == 30,
        widths_ok(literal_encoder.lengths()),
        widths_ok(distance_encoder.lengths()),
    ensures
        r is Ok,
        final(w).wf(),
        final(w).bits() == old(w).bits() + tables_bits(
            literal_encoder.lengths(),
            distance_encoder.lengths(),
        ),
        final(final(w).output)@ == final(old(w).output)@,
{
    let ghost literal = literal_encoder.lengths();
    let ghost distance = distance_encoder.lengths();
    let literal_code_count: usize = code_count(literal_encoder, 257);
    let distance_code_count: usize = code_count(distance_encoder, 1);
    proof {
        lemma_used_len_rest(literal);
        lemma_used_len_rest(distance);
    }
    let codes: Vec<(u8, u8, u8)> = build_bitwidth_codes(
        literal_encoder,
        literal_code_count,
        distance_encoder,
        distance_code_count,
    );
    let ghost elements = table_runs(literal, distance);
    proof {
        let sent = literal.take(literal_code_count as int) + distance.take(
            distance_code_count as int,
        );
        assert forall|i: int| 0 <= i < sent.len() implies #[trigger] sent[i] <= 15 by {
            if i < literal_code_count {
                assert(sent[i] == literal[i]);
            } else {
                assert(sent[i] == distance[i - literal_code_count]);
            }
        }
        lemma_runs_ok(sent);
        assert(run_codes_of(codes@) == elements);
    }
    let frequencies: [usize; 19] = count_runs(&codes);
    let lengths: Vec<u8> = length_limited_code_lengths(frequencies.as_slice(), 7);
    proof {
        lemma_used_count(frequencies@, 19);
        lemma2_to64();
        lemma_limited_widths(frequencies@, 7);
    }
    let bitwidth_encoder: HuffmanEncoder = HuffmanEncoder::from_code_lengths(lengths.as_slice())?;
    let n: usize = bitwidth_count(&bitwidth_encoder);
    let ghost widths = run_widths(elements);
    proof {
        assert(bitwidth_encoder.lengths() == widths);
        lemma_order_len(widths, 19);
    }
    let ghost b0 = w.bits();
    w.write_bits(5, (literal_code_count - 257) as u16);
    w.write_bits(5, (distance_code_count - 1) as u16);
    w.write_bits(4, (n - 4) as u16);
    write_widths(w, &bitwidth_encoder, n);
    write_runs(w, &codes, &bitwidth_encoder);
    assert(w.bits() =~= b0 + tables_bits(literal, distance));
    Ok(())
}

// ---------------------------------------------------------------------------
// Options
// ---------------------------------------------------------------------------

/// Default maximum input bytes per DEFLATE block for streaming encoders.
pub const DEFAULT_MAX_BLOCK_INPUT: usize = 65_536;

/// Compact the output buffer once the consumed prefix exceeds this size.
///
/// The encoder output has no back-reference requirement, so we drop the
/// consumed prefix entirely. Amortized cost is one copy of the rest per
/// `COMPACT_THRESHOLD` bytes consumed; callers that never reach the
/// threshold pay nothing.
pub const COMPACT_THRESHOLD: usize = 1_048_576;

/// Configurable parameters for the encoder.
#[derive(Debug, PartialEq, Eq, Structural)]
pub struct EncodeOptions {
    block_kind: BlockKind,
    max_block_input_bytes: Option<usize>,
}

impl Clone for EncodeOptions {
    fn clone(&self) -> (options: Self)
        ensures
            options == *self,
    {
        EncodeOptions {
            block_kind: self.block_kind,
            max_block_input_bytes: self.max_block_input_bytes,
        }
    }
}

impl EncodeOptions {
    /// How blocks are encoded.
    pub closed spec fn kind(self) -> BlockKind {
        self.block_kind
    }

    /// How much input a block takes at most, if there is a limit.
    pub closed spec fn limit(self) -> Option<nat> {
        match self.max_block_input_bytes {
            None => None,
            Some(bytes) => Some(bytes as nat),
        }
    }

    /// A block takes some input.
    pub open spec fn wf(self) -> bool {
        self.limit() != Some(0nat)
    }

    /// Options are equal if they agree on the kind and the size of blocks.
    pub proof fn lemma_equal(self, other: Self)
        requires
            self.kind() == other.kind(),
            self.limit() == other.limit(),
        ensures
            self == other,
    {
    }

    /// Default options: dynamic Huffman blocks.
    pub fn new() -> (options: Self)
        ensures
            options.wf(),
            options.kind() == BlockKind::Dynamic,
            options.limit() == Some(DEFAULT_MAX_BLOCK_INPUT as nat),
    {
        EncodeOptions {
            block_kind: BlockKind::Dynamic,
            max_block_input_bytes: Some(DEFAULT_MAX_BLOCK_INPUT),
        }
    }

    /// Use fixed-Huffman blocks instead of dynamic.
    #[must_use]
    pub fn fixed_huffman(self) -> (options: Self)
        ensures
            options.kind() == BlockKind::Fixed,
            options.limit() == self.limit(),
            options.wf() == self.wf(),
    {
        EncodeOptions { block_kind: BlockKind::Fixed, ..self }
    }

    /// Emit the stream as uncompressed stored blocks.
    #[must_use]
    pub fn stored(self) -> (options: Self)
        ensures
            options.kind() == BlockKind::Stored,
            options.limit() == self.limit(),
            options.wf() == self.wf(),
    {
        EncodeOptions { block_kind: BlockKind::Stored, ..self }
    }

    /// Buffer all input before compressing (one DEFLATE block).
    ///
    /// Disables the default 64 KiB block splitting. Best for one-shot
    /// compression where all input is available up front.
    #[must_use]
    pub fn buffer_all_input(self) -> (options: Self)
        ensures
            options.kind() == self.kind(),
            options.limit() == None::<nat>,
            options.wf(),
    {
        EncodeOptions { max_block_input_bytes: None, ..self }
    }

    /// Set the maximum input bytes per DEFLATE block.
    ///
    /// When the encoder's internal buffer reaches this threshold during
    /// [`Encoder::feed`], it emits a non-final DEFLATE block and frees
    /// the buffered input. The default is 64 KiB.
    #[must_use]
    pub fn max_block_input_bytes(self, bytes: usize) -> (options: Self)
        requires
            bytes > 0,
        ensures
            options.kind() == self.kind(),
            options.limit() == Some(bytes as nat),
            options.wf(),
    {
        EncodeOptions { max_block_input_bytes: Some(bytes), ..self }
    }
}

impl Default for EncodeOptions {
    fn default() -> (options: Self)
        ensures
            options.wf(),
            options.kind() == BlockKind::Dynamic,
            options.limit() == Some(DEFAULT_MAX_BLOCK_INPUT as nat),
    {
        Self::new()
    }
}

// ---------------------------------------------------------------------------
// The encoder
// ---------------------------------------------------------------------------

/// What an encoder has come to.
pub struct EncoderState {
    /// How blocks are encoded.
    pub kind: BlockKind,
    /// How much input a block takes at most, if there is a limit.
    pub limit: Option<nat>,
    /// The input that is in no block yet.
    pub input: Seq<u8>,
    /// All bits written so far.
    pub stream: Seq<bool>,
    /// The last block has been written.
    pub finished: bool,
}

/// An encoder that has been given nothing.
pub open spec fn fresh(kind: BlockKind, limit: Option<nat>) -> EncoderState {
    EncoderState { kind, limit, input: Seq::empty(), stream: Seq::empty(), finished: false }
}

/// Write blocks for as long as the input fills one.
pub open spec fn filled_blocks(s: EncoderState) -> EncoderState
    decreases s.input.len(),
{
    match s.limit {
        Some(limit) if 0 < limit <= s.input.len() => filled_blocks(
            EncoderState {
                input: s.input.skip(limit as int),
                stream: block(s.stream, s.kind, s.input.take(limit as int), false),
                ..s
            },
        ),
        _ => s,
    }
}

/// Take more input.
pub open spec fn fed(s: EncoderState, data: Seq<u8>) -> EncoderState {
    filled_blocks(EncoderState { input: s.input + data, ..s })
}

/// Write what there is of input, and an empty stored block.
pub open spec fn flushed(s: EncoderState) -> EncoderState {
    let stream = if s.input.len() > 0 {
        block(s.stream, s.kind, s.input, false)
    } else {
        s.stream
    };
    EncoderState { input: Seq::empty(), stream: stored_piece(stream, Seq::empty(), false), ..s }
}

/// Write the last block.
pub open spec fn finished(s: EncoderState) -> EncoderState {
    EncoderState {
        input: Seq::empty(),
        stream: block(s.stream, s.kind, s.input, true),
        finished: true,
        ..s
    }
}

/// Streaming DEFLATE encoder.
///
/// By default the encoder emits a non-final DEFLATE block each time the
/// buffered input reaches 64 KiB, keeping memory bounded for streaming
/// workloads. Call [`Encoder::finish`] to emit the final block.
pub struct Encoder {
    options: EncodeOptions,
    input: Vec<u8>,
    output: Vec<u8>,
    matcher: MatchFinder,
    symbols: Vec<Lz77Code>,
    drained: usize,
    finishing: bool,
    bit_buffer: u64,
    bit_count: u8,
    /// The bytes that were dropped from the front of `output`.
    dropped: Ghost<Seq<u8>>,
}

impl Default for Encoder {
    fn default() -> (encoder: Self)
        ensures
            encoder.wf(),
            encoder.state() == fresh(BlockKind::Dynamic, Some(DEFAULT_MAX_BLOCK_INPUT as nat)),
            encoder.consumed() == 0,
    {
        Self::new()
    }
}

/// A stream that gets longer has as many whole bytes as before at least.
proof fn lemma_grown(before: Seq<u8>, pending: nat, after: Seq<u8>, bits: Seq<bool>)
    requires
        bits.len() >= byte_bits(before).len() + pending,
        bits.len() < byte_bits(after).len() + 8,
    ensures
        before.len() <= after.len(),
        forall|closed: Seq<u8>| #[trigger]
            byte_bits(closed).len() >= bits.len() ==> before.len() <= closed.len(),
{
    lemma_byte_bits_len(before);
    lemma_byte_bits_len(after);
    assert forall|closed: Seq<u8>| #[trigger]
        byte_bits(closed).len() >= bits.len() implies before.len() <= closed.len() by {
        lemma_byte_bits_len(closed);
    }
}

/// A stream goes on as it began.
pub open spec fn extends(longer: Seq<bool>, stream: Seq<bool>) -> bool {
    stream.len() <= longer.len() && longer.take(stream.len() as int) == stream
}

proof fn lemma_extends(a: Seq<bool>, b: Seq<bool>, c: Seq<bool>)
    requires
        extends(b, a),
        extends(c, b),
    ensures
        extends(c, a),
{
    assert(c.take(a.len() as int) =~= c.take(b.len() as int).take(a.len() as int));
}

/// Feeding, flushing and finishing only add to what was written.
pub proof fn lemma_stream_extends(s: EncoderState, data: Seq<u8>)
    ensures
        extends(fed(s, data).stream, s.stream),
        fed(s, data).kind == s.kind,
        fed(s, data).limit == s.limit,
        fed(s, data).finished == s.finished,
        extends(flushed(s).stream, s.stream),
        extends(finished(s).stream, s.stream),
{
    lemma_filled_extends(EncoderState { input: s.input + data, ..s });
    lemma_block_adds(s.stream, s.kind, s.input, true);
    lemma_block_adds(s.stream, s.kind, s.input, false);
    assert(s.stream.take(s.stream.len() as int) =~= s.stream);
    let stream = if s.input.len() > 0 {
        block(s.stream, s.kind, s.input, false)
    } else {
        s.stream
    };
    lemma_block_adds(stream, BlockKind::Stored, Seq::empty(), false);
    assert(block(stream, BlockKind::Stored, Seq::empty(), false) == stored_piece(
        stream,
        Seq::empty(),
        false,
    ));
    lemma_extends(s.stream, stream, flushed(s).stream);
}

proof fn lemma_filled_extends(s: EncoderState)
    ensures
        extends(filled_blocks(s).stream, s.stream),
        filled_blocks(s).kind == s.kind,
        filled_blocks(s).limit == s.limit,
        filled_blocks(s).finished == s.finished,
    decreases s.input.len(),
{
    assert(s.stream.take(s.stream.len() as int) =~= s.stream);
    if let Some(limit) = s.limit {
        if 0 < limit <= s.input.len() {
            let chunk = s.input.take(limit as int);
            let next = EncoderState {
                input: s.input.skip(limit as int),
                stream: block(s.stream, s.kind, chunk, false),
                ..s
            };
            lemma_block_adds(s.stream, s.kind, chunk, false);
            lemma_filled_extends(next);
            lemma_extends(s.stream, next.stream, filled_blocks(s).stream);
        }
    }
}

/// The whole bytes of a stream that goes on begin as before.
proof fn lemma_written_extends(before: Encoder, after: Encoder)
    requires
        before.wf(),
        after.wf(),
        extends(after.state().stream, before.state().stream),
    ensures
        before.written().len() <= after.written().len(),
        after.written().take(before.written().len() as int) == before.written(),
{
    before.lemma_wf();
    after.lemma_wf();
    let k = before.written().len();
    lemma_byte_bits_skip(after.written(), k);
    assert(byte_bits(after.written().take(k as int)) =~= byte_bits(before.written()));
    lemma_byte_bits_injective(after.written().take(k as int), before.written());
}

/// Bytes before a string of bits move no byte boundary in it.
proof fn lemma_padded_behind(front: Seq<u8>, bits: Seq<bool>)
    ensures
        padded(byte_bits(front) + bits) == byte_bits(front) + padded(bits),
{
    lemma_byte_bits_len(front);
    assert((byte_bits(front) + bits).len() % 8 == bits.len() % 8);
    assert(padded(byte_bits(front) + bits) =~= byte_bits(front) + padded(bits));
}

impl Encoder {
    /// All bits written so far.
    closed spec fn stream(self) -> Seq<bool> {
        byte_bits(self.dropped@) + (byte_bits(self.output@) + to_bits(
            self.bit_buffer as nat,
            self.bit_count as nat,
        ))
    }

    /// What the encoder has come to.
    pub closed spec fn state(self) -> EncoderState {
        EncoderState {
            kind: self.options.kind(),
            limit: self.options.limit(),
            input: self.input@,
            stream: self.stream(),
            finished: self.finishing,
        }
    }

    /// All whole bytes written so far.
    pub closed spec fn written(self) -> Seq<u8> {
        self.dropped@ + self.output@
    }

    /// How many of the written bytes the caller has taken.
    pub closed spec fn consumed(self) -> nat {
        self.dropped@.len() + self.drained as nat
    }

    /// The written bytes that the caller has not taken.
    pub open spec fn waiting(self) -> Seq<u8> {
        self.written().skip(self.consumed() as int)
    }

    /// How many bytes the output buffer holds, taken ones among them.
    pub closed spec fn retained(self) -> nat {
        self.output@.len()
    }

    /// The match finder knows of no input.
    pub closed spec fn forgotten(self) -> bool {
        self.matcher.blank()
    }

    /// Fewer than eight bits wait for a byte to be complete, and what was
    /// taken had been written and is dropped in time.
    pub closed spec fn wf(self) -> bool {
        &&& self.options.wf()
        &&& self.matcher.wf()
        &&& self.bit_count < 8
        &&& self.bit_buffer < pow2(self.bit_count as nat)
        &&& self.drained <= self.output@.len()
        &&& self.drained < COMPACT_THRESHOLD
    }

    /// The written bytes are the whole bytes of the bits written so far, and
    /// the caller has taken no more than there were.
    pub proof fn lemma_wf(self)
        requires
            self.wf(),
        ensures
            self.state().limit != Some(0nat),
            self.consumed() <= self.written().len(),
            self.written().len() == self.state().stream.len() / 8,
            byte_bits(self.written()) == self.state().stream.take(8 * self.written().len() as int),
            self.state().stream.len() % 8 == 0 ==> byte_bits(self.written()) == self.state().stream,
    {
        lemma_byte_bits_concat(self.dropped@, self.output@);
        lemma_byte_bits_len(self.written());
        lemma_to_bits_len(self.bit_buffer as nat, self.bit_count as nat);
        let s = self.stream();
        assert(s =~= byte_bits(self.written()) + to_bits(
            self.bit_buffer as nat,
            self.bit_count as nat,
        ));
        assert(byte_bits(self.written()) =~= s.take(8 * self.written().len() as int));
        assert(s.take(s.len() as int) =~= s);
    }

    /// The written bytes are the whole bytes of the bits written so far.
    pub proof fn lemma_whole_bytes(self)
        requires
            self.wf(),
        ensures
            bytes_of(self.state().stream) == self.written(),
    {
        self.lemma_wf();
        let stream = self.state().stream;
        let k = 8 * self.written().len() as int;
        lemma_bytes_of(self.written(), stream.skip(k));
        assert(stream =~= byte_bits(self.written()) + stream.skip(k));
    }

    /// Everything but the written bits and the matcher is as before.
    closed spec fn same_but_stream(self, before: Encoder) -> bool {
        &&& self.options == before.options
        &&& self.input@ == before.input@
        &&& self.drained == before.drained
        &&& self.finishing == before.finishing
        &&& self.dropped == before.dropped
    }

    /// Create a DEFLATE encoder with default options.
    pub fn new() -> (encoder: Self)
        ensures
            encoder.wf(),
            encoder.state() == fresh(BlockKind::Dynamic, Some(DEFAULT_MAX_BLOCK_INPUT as nat)),
            encoder.consumed() == 0,
    {
        Self::with_options(EncodeOptions::new())
    }

    /// Create a DEFLATE encoder with custom options.
    pub fn with_options(options: EncodeOptions) -> (encoder: Self)
        requires
            options.wf(),
        ensures
            encoder.wf(),
            encoder.state() == fresh(options.kind(), options.limit()),
            encoder.consumed() == 0,
    {
        let encoder = Encoder {
            options,
            input: Vec::new(),
            output: Vec::new(),
            matcher: MatchFinder::new(),
            symbols: Vec::new(),
            drained: 0,
            finishing: false,
            bit_buffer: 0,
            bit_count: 0,
            dropped: Ghost(Seq::empty()),
        };
        proof {
            lemma_pow2_zero();
            assert(encoder.stream() =~= Seq::<bool>::empty());
        }
        encoder
    }

    /// Append uncompressed bytes.
    ///
    /// When the buffered input reaches the configured block size (default
    /// 64 KiB), a non-final DEFLATE block is emitted automatically.
    /// Calling `feed` after `finish` returns an error.
    pub fn feed(&mut self, data: &[u8]) -> (r: Result<(), Error>)
        requires
            old(self).wf(),
        ensures
            final(self).wf(),
            final(self).consumed() == old(self).consumed(),
            old(self).written().len() <= final(self).written().len(),
            final(self).written().take(old(self).written().len() as int) == old(self).written(),
            old(self).state().finished ==> {
                &&& r matches Err(e) && e@ == invalid("bytes fed after encoder finish")
                &&& *final(self) == *old(self)
            },
            !old(self).state().finished ==> {
                &&& r is Ok
                &&& final(self).state() == fed(old(self).state(), data@)
                &&& !final(self).state().finished
                &&& final(self).state().kind == old(self).state().kind
                &&& final(self).state().limit == old(self).state().limit
                &&& final(self).state().limit is Some ==> final(self).state().input.len()
                    < final(self).state().limit->0
            },
    {
        proof {
            assert(self.written().take(self.written().len() as int) =~= self.written());
            lemma_stream_extends(self.state(), data@);
        }
        if self.finishing {
            return Err(invalid_data("bytes fed after encoder finish"));
        }
        self.input.extend_from_slice(data);
        let ghost goal = fed(old(self).state(), data@);
        assert(self.input@ =~= old(self).input@ + data@);
        if let Some(limit) = self.options.max_block_input_bytes {
            while self.input.len() >= limit
                invariant
                    self.wf(),
                    limit > 0,
                    self.options.max_block_input_bytes == Some(limit),
                    filled_blocks(self.state()) == goal,
                    self.consumed() == old(self).consumed(),
                    self.options == old(self).options,
                    !self.finishing,
                decreases self.input@.len(),
            {
                let ghost before = self.state();
                let mut chunk: Vec<u8> = self.input.split_off(limit);
                std::mem::swap(&mut self.input, &mut chunk);
                self.emit_block_chunk(chunk.as_slice(), false)?;
                assert(self.state().input =~= before.input.skip(limit as int));
                assert(chunk@ =~= before.input.take(limit as int));
            }
        }
        proof {
            lemma_written_extends(*old(self), *self);
        }
        Ok(())
    }

    /// Emit the final block. Subsequent calls are a no-op.
    pub fn finish(&mut self) -> (r: Result<(), Error>)
        requires
            old(self).wf(),
        ensures
            final(self).wf(),
            final(self).consumed() == old(self).consumed(),
            old(self).written().len() <= final(self).written().len(),
            final(self).written().take(old(self).written().len() as int) == old(self).written(),
            r is Ok,
            old(self).state().finished ==> *final(self) == *old(self),
            !old(self).state().finished ==> final(self).state() == finished(old(self).state()),
    {
        proof {
            assert(self.written().take(self.written().len() as int) =~= self.written());
            lemma_stream_extends(self.state(), Seq::empty());
        }
        if self.finishing {
            return Ok(());
        }
        self.finishing = true;
        let mut chunk: Vec<u8> = Vec::new();
        std::mem::swap(&mut self.input, &mut chunk);
        self.emit_block_chunk(chunk.as_slice(), true)?;
        proof {
            assert(self.input@ =~= Seq::<u8>::empty());
            lemma_written_extends(*old(self), *self);
        }
        Ok(())
    }

    /// Flush pending input as a non-final block and append a sync flush
    /// marker so the stream ends on a byte boundary with the 4-byte trailer
    /// `0x00 0x00 0xFF 0xFF` (an empty stored block with BFINAL=0).
    ///
    /// The stream remains continuable: subsequent [`Encoder::feed`] calls
    /// append further blocks, and [`Encoder::finish`] still emits the
    /// final block.
    ///
    /// This method leaves the 4-byte trailer in [`Encoder::output`]. For
    /// WebSocket `permessage-deflate` (RFC 7692), callers typically send the
    /// output *without* that trailer and append it back before decoding.
    ///
    /// Intended for protocols that frame messages over a single DEFLATE
    /// stream, such as WebSocket `permessage-deflate` (RFC 7692). Returns an
    /// error if called after [`Encoder::finish`].
    pub fn sync_flush(&mut self) -> (r: Result<(), Error>)
        requires
            old(self).wf(),
        ensures
            final(self).wf(),
            final(self).consumed() == old(self).consumed(),
            old(self).written().len() <= final(self).written().len(),
            final(self).written().take(old(self).written().len() as int) == old(self).written(),
            old(self).state().finished ==> {
                &&& r matches Err(e) && e@ == invalid("sync_flush called after encoder finish")
                &&& *final(self) == *old(self)
            },
            !old(self).state().finished ==> {
                &&& r is Ok
                &&& final(self).state() == flushed(old(self).state())
            },
    {
        proof {
            assert(self.written().take(self.written().len() as int) =~= self.written());
            lemma_stream_extends(self.state(), Seq::empty());
        }
        if self.finishing {
            return Err(invalid_data("sync_flush called after encoder finish"));
        }
        if self.input.len() > 0 {
            let mut chunk: Vec<u8> = Vec::new();
            std::mem::swap(&mut self.input, &mut chunk);
            self.emit_block_chunk(chunk.as_slice(), false)?;
        }
        assert(self.input@ =~= Seq::<u8>::empty());
        let nothing: Vec<u8> = Vec::new();
        assert(nothing@ =~= Seq::<u8>::empty());
        self.emit_stored_chunk(nothing.as_slice(), false)?;
        proof {
            lemma_written_extends(*old(self), *self);
        }
        Ok(())
    }

    /// Drop the LZ77 sliding window so subsequent blocks encode no
    /// back-references into input fed before this call.
    ///
    /// Intended for `permessage-deflate` senders that negotiated
    /// `server_no_context_takeover` or `client_no_context_takeover`
    /// (RFC 7692 §7.1.1): call after [`Encoder::sync_flush`] at each
    /// message boundary. Does not touch pending output, options, or the
    /// bit buffer.
    pub fn reset_history(&mut self)
        requires
            old(self).wf(),
        ensures
            final(self).wf(),
            final(self).state() == old(self).state(),
            final(self).written() == old(self).written(),
            final(self).consumed() == old(self).consumed(),
            final(self).forgotten(),
    {
        self.matcher = MatchFinder::new();
    }

    /// Borrow encoded bytes not yet consumed.
    pub fn output(&self) -> (bytes: &[u8])
        requires
            self.wf(),
        ensures
            bytes@ == self.waiting(),
    {
        let all: &[u8] = self.output.as_slice();
        let bytes: &[u8] = vstd::slice::slice_subrange(all, self.drained, all.len());
        assert(bytes@ =~= self.waiting());
        bytes
    }

    /// Mark `n` bytes of output as consumed. There must be as many.
    pub fn advance(&mut self, n: usize)
        requires
            old(self).wf(),
            n <= old(self).waiting().len(),
        ensures
            final(self).wf(),
            final(self).state() == old(self).state(),
            final(self).written() == old(self).written(),
            final(self).consumed() == old(self).consumed() + n,
            final(self).retained() < final(self).waiting().len() + COMPACT_THRESHOLD,
    {
        assert(self.drained + n <= self.output.len());
        self.drained += n;
        if self.drained >= COMPACT_THRESHOLD {
            let kept: Vec<u8> = self.output.split_off(self.drained);
            proof {
                lemma_byte_bits_concat(self.dropped@, self.output@);
                lemma_byte_bits_concat(self.output@, kept@);
                assert(self.output@ + kept@ =~= old(self).output@);
                self.dropped@ = self.dropped@ + self.output@;
            }
            self.output = kept;
            self.drained = 0;
            assert(self.stream() =~= old(self).stream());
            assert(self.written() =~= old(self).written());
        }
    }

    /// How many bytes the output buffer holds: those not yet consumed, and
    /// fewer than [`COMPACT_THRESHOLD`] consumed ones before them.
    pub fn buffered_len(&self) -> (len: usize)
        requires
            self.wf(),
        ensures
            len == self.retained(),
            self.waiting().len() <= len < self.waiting().len() + COMPACT_THRESHOLD,
    {
        self.output.len()
    }

    /// `true` once `finish` has been called and all output consumed.
    pub fn is_finished(&self) -> (done: bool)
        requires
            self.wf(),
        ensures
            done == (self.state().finished && self.waiting().len() == 0),
    {
        self.finishing && self.drained == self.output.len()
    }

    fn emit_block_chunk(&mut self, chunk: &[u8], is_final: bool) -> (r: Result<(), Error>)
        requires
            old(self).wf(),
        ensures
            r is Ok,
            final(self).wf(),
            final(self).same_but_stream(*old(self)),
            final(self).stream() == block(
                old(self).stream(),
                old(self).options.kind(),
                chunk@,
                is_final,
            ),
    {
        match self.options.block_kind {
            BlockKind::Stored => self.emit_stored_chunk(chunk, is_final),
            BlockKind::Fixed => self.emit_fixed_block_chunk(chunk, is_final),
            BlockKind::Dynamic => self.emit_dynamic_block_chunk(chunk, is_final),
        }
    }

    /// Emit one stored block of at most 65535 bytes.
    #[verifier::spinoff_prover]
    #[verifier::rlimit(60)]
    fn emit_stored_piece(&mut self, piece: &[u8], is_final: bool)
        requires
            old(self).wf(),
            piece@.len() <= 0xffff,
        ensures
            final(self).wf(),
            final(self).same_but_stream(*old(self)),
            final(self).stream() == stored_piece(old(self).stream(), piece@, is_final),
    {
        let ghost front = byte_bits(self.dropped@);
        let ghost before = self.stream();
        proof {
            lemma2_to64();
        }
        let mut w: BitWriter<'_> = BitWriter::new_seeded(
            &mut self.output,
            self.bit_buffer,
            self.bit_count,
        );
        w.write_bit(is_final);
        w.write_bits(2, 0);
        let ghost bits = w.bits();
        w.finish();
        self.bit_buffer = 0;
        self.bit_count = 0;
        let ghost aligned = self.output@;
        let len: usize = piece.len();
        let nlen: usize = 0xffff - len;
        self.output.push((len % 256) as u8);
        self.output.push((len / 256) as u8);
        self.output.push((nlen % 256) as u8);
        self.output.push((nlen / 256) as u8);
        self.output.extend_from_slice(piece);
        proof {
            let body = le16(piece@.len()) + le16((0xffff - piece@.len()) as nat) + piece@;
            assert(self.output@ =~= aligned + body);
            lemma_byte_bits_concat(aligned, body);
            lemma_padded_behind(self.dropped@, bits);
            assert(front + bits =~= before + header_bits(is_final, 0));
            assert(to_bits(0, 0) =~= Seq::<bool>::empty());
            assert(self.stream() =~= stored_piece(before, piece@, is_final));
        }
    }

    fn emit_stored_chunk(&mut self, chunk: &[u8], is_final: bool) -> (r: Result<(), Error>)
        requires
            old(self).wf(),
        ensures
            r is Ok,
            final(self).wf(),
            final(self).same_but_stream(*old(self)),
            final(self).stream() == stored(old(self).stream(), chunk@, is_final),
    {
        let total: usize = chunk.len();
        let mut offset: usize = 0;
        let ghost goal = stored(self.stream(), chunk@, is_final);
        assert(chunk@.skip(0) =~= chunk@);
        while total - offset > MAX_STORED_BLOCK
            invariant
                offset <= total == chunk@.len(),
                self.wf(),
                self.same_but_stream(*old(self)),
                stored(self.stream(), chunk@.skip(offset as int), is_final) == goal,
            decreases total - offset,
        {
            let ghost rest = chunk@.skip(offset as int);
            let piece: &[u8] = vstd::slice::slice_subrange(
                chunk,
                offset,
                offset + MAX_STORED_BLOCK,
            );
            assert(piece@ =~= rest.take(0xffff));
            self.emit_stored_piece(piece, false);
            offset += MAX_STORED_BLOCK;
            assert(chunk@.skip(offset as int) =~= rest.skip(0xffff));
        }
        let piece: &[u8] = vstd::slice::slice_subrange(chunk, offset, total);
        assert(piece@ =~= chunk@.skip(offset as int));
        self.emit_stored_piece(piece, is_final);
        Ok(())
    }

    fn emit_fixed_block_chunk(&mut self, chunk: &[u8], is_final: bool) -> (r: Result<(), Error>)
        requires
            old(self).wf(),
        ensures
            r is Ok,
            final(self).wf(),
            final(self).same_but_stream(*old(self)),
            final(self).stream() == closed(
                old(self).stream() + fixed_bits(tokens(chunk@, 0), is_final),
                is_final,
            ),
    {
        self.matcher.fill_symbols(chunk, &mut self.symbols);
        let ghost codes = tokens(chunk@, 0);
        let ghost front = byte_bits(self.dropped@);
        let ghost before = self.stream();
        proof {
            lemma_encodable(codes, 0);
            lemma_fixed_tables();
            lemma2_to64();
        }
        let literal_lengths: [u8; 288] = fixed_literal_code_lengths();
        let distance_lengths: [u8; 30] = fixed_distance_code_lengths();
        let literal_encoder: HuffmanEncoder = HuffmanEncoder::from_code_lengths(
            literal_lengths.as_slice(),
        )?;
        let distance_encoder: HuffmanEncoder = HuffmanEncoder::from_code_lengths(
            distance_lengths.as_slice(),
        )?;
        let mut w: BitWriter<'_> = BitWriter::new_seeded(
            &mut self.output,
            self.bit_buffer,
            self.bit_count,
        );
        w.write_bit(is_final);
        w.write_bits(2, 1);
        write_symbols(&mut w, &self.symbols, &literal_encoder, &distance_encoder);
        let ghost bits = w.bits();
        proof {
            assert(front + bits =~= before + fixed_bits(codes, is_final));
            lemma_to_bits_len(w.bit_buffer as nat, w.bit_count as nat);
            lemma_to_bits_len(old(self).bit_buffer as nat, old(self).bit_count as nat);
            lemma_grown(old(self).output@, old(self).bit_count as nat, w.bytes(), bits);
        }
        if is_final {
            w.finish();
            self.bit_buffer = 0;
            self.bit_count = 0;
            proof {
                lemma_padded_behind(self.dropped@, bits);
                assert(to_bits(0, 0) =~= Seq::<bool>::empty());
                assert(self.stream() =~= front + padded(bits));
            }
        } else {
            let (bit_buffer, bit_count): (u64, u8) = w.bit_state();
            self.bit_buffer = bit_buffer;
            self.bit_count = bit_count;
        }
        Ok(())
    }

    #[verifier::spinoff_prover]
    #[verifier::rlimit(60)]
    fn emit_dynamic_block_chunk(&mut self, chunk: &[u8], is_final: bool) -> (r: Result<(), Error>)
        requires
            old(self).wf(),
        ensures
            r is Ok,
            final(self).wf(),
            final(self).same_but_stream(*old(self)),
            final(self).stream() == closed(
                old(self).stream() + dynamic_bits(tokens(chunk@, 0), is_final),
                is_final,
            ),
    {
        self.matcher.fill_symbols(chunk, &mut self.symbols);
        let ghost codes = tokens(chunk@, 0);
        let ghost front = byte_bits(self.dropped@);
        let ghost before = self.stream();
        proof {
            lemma_encodable(codes, 0);
            lemma2_to64();
        }
        let (literal_encoder, distance_encoder): (HuffmanEncoder, HuffmanEncoder) =
            dynamic_encoders(&self.symbols)?;
        let mut w: BitWriter<'_> = BitWriter::new_seeded(
            &mut self.output,
            self.bit_buffer,
            self.bit_count,
        );
        w.write_bit(is_final);
        w.write_bits(2, 2);
        write_tables(&mut w, &literal_encoder, &distance_encoder)?;
        write_symbols(&mut w, &self.symbols, &literal_encoder, &distance_encoder);
        let ghost bits = w.bits();
        proof {
            assert(front + bits =~= before + dynamic_bits(codes, is_final));
            lemma_to_bits_len(w.bit_buffer as nat, w.bit_count as nat);
            lemma_to_bits_len(old(self).bit_buffer as nat, old(self).bit_count as nat);
            lemma_grown(old(self).output@, old(self).bit_count as nat, w.bytes(), bits);
        }
        if is_final {
            w.finish();
            self.bit_buffer = 0;
            self.bit_count = 0;
            proof {
                lemma_padded_behind(self.dropped@, bits);
                assert(to_bits(0, 0) =~= Seq::<bool>::empty());
                assert(self.stream() =~= front + padded(bits));
            }
        } else {
            let (bit_buffer, bit_count): (u64, u8) = w.bit_state();
            self.bit_buffer = bit_buffer;
            self.bit_count = bit_count;
        }
        Ok(())
    }
}

} // verus!
