//! Streaming DEFLATE decoder.
//!
//! The caller feeds compressed bytes via [`Decoder::feed`] and pulls
//! decompressed bytes back out via [`Decoder::output`] + [`Decoder::advance`].
//! The decoder runs its internal state machine as far as possible on each
//! `feed` call and waits for more input when a step needs more bits.
//! "Need more bytes" is a no-op return from `feed`, not an error.
//!
//! To keep memory bounded, `feed` may also return early once the decoder has
//! buffered [`MAX_INTERNAL_BUFFER`] decompressed bytes that the caller has
//! not yet drained — a single block can expand arbitrarily (RFC 1951 has
//! no per-block maximum), and without this cap the whole block would be
//! buffered before control returned. Drain via `output` / `advance`, then
//! call `feed` again (with remaining input, or an empty slice once the
//! compressed data is exhausted) to resume decoding.

use crate::bit::{end_of_stream, BitReader, BitReaderState};
use crate::bits::{
    byte_bits, from_bits, lemma_byte_bits_concat, lemma_byte_bits_len, lemma_byte_bits_skip,
    lemma_first_byte, lemma_from_bits_bound, lemma_le_value, lemma_le_value_2, lemma_pow2_zero,
    lemma_skip_skip, lemma_to_bits_len, to_bits,
};
use crate::buf::Buf;
use crate::canonical::{lemma_decoded, peek_width};
use crate::error::{invalid, invalid_data, numbered, push_decimal, same_text, Error, Fault};
use crate::huffman::{no_such_code, table_fault, HuffmanDecoder};
use crate::inflate::{
    copied, distance_peek, full, inflate, lemma_copied, lemma_copied_front, lemma_fixed_tables,
    lemma_inflate, lemma_overshoot, lemma_run, lemma_run_smaller, lemma_step_smaller,
    lemma_step_wf, lemma_table_ok, literal_peek, next_element, rank, reference_fault,
    reference_step, repeated, run, start, step as next_step, stored_length_fault,
    wf as machine_wf, Element, Machine, Phase, Step, Stop,
};
use crate::symbol::{
    fixed_distance_code_lengths, fixed_literal_code_lengths, BITWIDTH_CODE_ORDER, DISTANCE_TABLE,
    END_OF_BLOCK, LENGTH_TABLE, MAX_MATCH, WINDOW_SIZE,
};
use std::borrow::Cow;
use vstd::arithmetic::power2::{lemma2_to64, pow2};
use vstd::prelude::*;

verus! {

/// Compact the output buffer once it exceeds this size.
///
/// Amortized cost is one copy of at most `WINDOW_SIZE` + unconsumed
/// bytes per `COMPACT_THRESHOLD` bytes decoded — negligible compared to the
/// decoding work itself. Smaller streams never hit the threshold, so the
/// common case pays nothing.
pub const COMPACT_THRESHOLD: usize = 1_048_576;

/// Maximum number of decompressed bytes the decoder buffers before yielding
/// control back to the caller.
///
/// A single DEFLATE block can expand to an arbitrarily large size (RFC 1951
/// has no per-block maximum). Without this cap, one highly-compressible
/// block would be fully expanded into the internal output buffer before the
/// caller could drain it via [`Decoder::output`] / [`Decoder::advance`],
/// allowing memory to grow without bound. Once the unread output reaches this
/// threshold the decoder stops and returns from [`Decoder::feed`]; callers
/// drain the buffered bytes and call `feed` again (with remaining input, or
/// an empty slice once the compressed data is exhausted) to resume.
///
/// The cap is checked between symbols, so the buffer may overshoot by up to
/// one LZ77 match (`MAX_MATCH`, 258 bytes) before control returns. Of a stored
/// block no more is taken than there is room for.
pub const MAX_INTERNAL_BUFFER: usize = 65_536;

/// Where in the format the decoder stands.
pub(crate) enum DecodeState {
    BlockHeader,
    StoredAlignAndLen { is_final: bool },
    StoredBody { remaining: u16, is_final: bool },
    DynamicHeader { is_final: bool },
    DynamicBitwidthTable {
        is_final: bool,
        hlit: u16,
        hdist: u16,
        hclen: u8,
        order_idx: u8,
        code_lengths: [u8; 19],
    },
    DynamicCodeLengths {
        is_final: bool,
        hlit: u16,
        hdist: u16,
        bitwidth_decoder: HuffmanDecoder,
        all_code_lengths: Vec<u8>,
        target_len: usize,
    },
    SymbolLoop { is_final: bool, literal: HuffmanDecoder, distance: HuffmanDecoder },
    Finished,
    /// The stream has turned out to be invalid.
    Failed { error: Error },
    /// Placeholder while a step is taken, never left between steps.
    Transient,
}

/// What became of a step.
#[derive(Debug, Clone, Copy)]
pub(crate) enum StepOutcome {
    Progress,
    NeedMoreBytes,
    /// The output buffer reached [`MAX_INTERNAL_BUFFER`] and control should
    /// return to the caller so it can drain the produced bytes. Unlike
    /// `NeedMoreBytes`, no input is awaited and no snapshot is restored.
    Yield,
    Finished,
}

impl DecodeState {
    /// The place in the format.
    pub(crate) closed spec fn phase(self) -> Phase {
        match self {
            DecodeState::BlockHeader => Phase::Header,
            DecodeState::StoredAlignAndLen { is_final } => Phase::StoredLength { last: is_final },
            DecodeState::StoredBody { remaining, is_final } => Phase::StoredBody {
                remaining: remaining as nat,
                last: is_final,
            },
            DecodeState::DynamicHeader { is_final } => Phase::TableHeader { last: is_final },
            DecodeState::DynamicBitwidthTable {
                is_final,
                hlit,
                hdist,
                hclen,
                order_idx,
                code_lengths,
            } => Phase::WidthTable {
                last: is_final,
                hlit: hlit as nat,
                hdist: hdist as nat,
                hclen: hclen as nat,
                read: order_idx as nat,
                widths: code_lengths@,
            },
            DecodeState::DynamicCodeLengths {
                is_final,
                hlit,
                hdist,
                bitwidth_decoder,
                all_code_lengths,
                target_len,
            } => Phase::CodeLengths {
                last: is_final,
                hlit: hlit as nat,
                hdist: hdist as nat,
                widths: bitwidth_decoder.lengths(),
                lengths: all_code_lengths@,
            },
            DecodeState::SymbolLoop { is_final, literal, distance } => Phase::Symbols {
                last: is_final,
                literal: literal.lengths(),
                distance: distance.lengths(),
            },
            DecodeState::Finished => Phase::Done,
            DecodeState::Failed { .. } | DecodeState::Transient => Phase::Done,
        }
    }

    /// The tables are complete, and they look at as many bits as the format
    /// gives room for.
    pub(crate) closed spec fn wf(self) -> bool {
        match self {
            DecodeState::DynamicCodeLengths { hlit, hdist, bitwidth_decoder, target_len, .. } => {
                &&& bitwidth_decoder.wf()
                &&& bitwidth_decoder.peek() == peek_width(bitwidth_decoder.lengths(), Some(1), None)
                &&& target_len == hlit + hdist
            },
            DecodeState::SymbolLoop { literal, distance, .. } => tables_wf(literal, distance),
            _ => true,
        }
    }

    /// The error that decoding has ended with.
    pub(crate) open spec fn fault(self) -> Option<Fault> {
        match self {
            DecodeState::Failed { error } => Some(error@),
            _ => None,
        }
    }

    /// Decoding can go on.
    pub(crate) open spec fn active(self) -> bool {
        !(self is Failed) && !(self is Transient)
    }
}

spec fn tables_wf(literal: HuffmanDecoder, distance: HuffmanDecoder) -> bool {
    &&& literal.wf()
    &&& distance.wf()
    &&& literal.peek() == literal_peek(literal.lengths())
    &&& distance.peek() == distance_peek(literal.lengths(), distance.lengths())
}

/// The machine that stands where a reader stands.
pub(crate) open spec fn machine_at(phase: Phase, reader: BitReader<'_>, out: Seq<u8>) -> Machine {
    Machine { phase, out, bits: reader.bits(), held: reader.held() }
}

/// `n` comes after `m`, by the measure of the steps.
spec fn smaller(n: Machine, m: Machine) -> bool {
    n.bits.len() < m.bits.len() || (n.bits.len() == m.bits.len() && rank(n.phase) < rank(m.phase))
}

/// The outcome `r` of some steps from `m` is right if they ended at `n`.
pub(crate) closed spec fn outcome_ok(
    m: Machine,
    limit: nat,
    r: Result<StepOutcome, Error>,
    n: Machine,
) -> bool {
    match r {
        Ok(StepOutcome::Progress) => {
            &&& run(m, limit) == run(n, limit)
            &&& machine_wf(n)
            &&& smaller(n, m)
        },
        Ok(StepOutcome::NeedMoreBytes) => run(m, limit) == (n, Stop::NeedMore) && machine_wf(n),
        Ok(StepOutcome::Yield) => run(m, limit) == (n, Stop::Full) && machine_wf(n),
        Ok(StepOutcome::Finished) => run(m, limit) == (n, Stop::Finished) && machine_wf(n),
        Err(e) => run(m, limit).1 == Stop::Fail(e@) && run(m, limit).0.out == n.out,
    }
}

/// One step outside the symbols of a block is one step of [`run`].
proof fn lemma_one_step(m: Machine, limit: nat)
    requires
        machine_wf(m),
        !full(m, limit),
    ensures
        match next_step(m) {
            Step::Next(n) => run(m, limit) == run(n, limit) && machine_wf(n) && smaller(n, m),
            Step::NeedMore => run(m, limit) == (m, Stop::NeedMore),
            Step::Finished => run(m, limit) == (m, Stop::Finished),
            Step::Fail(fault) => run(m, limit) == (m, Stop::Fail(fault)),
        },
{
    reveal(run);
    lemma_step_wf(m);
    lemma_step_smaller(m);
}

proof fn lemma_faults_differ()
    ensures
        end_of_stream() != no_such_code(),
{
    reveal_strlit("unexpected end of deflate stream");
    reveal_strlit("invalid huffman coded stream");
    assert("unexpected end of deflate stream"@.len() == 32);
    assert("invalid huffman coded stream"@.len() == 28);
}

/// Whether an error says that a read ran past the end of the input.
fn is_eof_error(e: &Error) -> (eof: bool)
    ensures
        eof == (e@ == end_of_stream()),
{
    match e {
        Error::InvalidData(message) => {
            let text: &str = match message {
                Cow::Borrowed(text) => *text,
                Cow::Owned(text) => text.as_str(),
            };
            same_text(text, "unexpected end of deflate stream")
        },
        Error::Unsupported(_) => false,
    }
}

fn step_block_header(
    reader: &mut BitReader<'_>,
    state: &mut DecodeState,
    Ghost(out): Ghost<Seq<u8>>,
    Ghost(limit): Ghost<nat>,
) -> (r: Result<StepOutcome, Error>)
    requires
        old(reader).wf(),
        machine_wf(machine_at(Phase::Header, *old(reader), out)),
    ensures
        final(reader).wf(),
        final(reader).source() == old(reader).source(),
        r is Ok ==> final(state).wf(),
        r is Ok ==> final(state).active(),
        outcome_ok(
            machine_at(Phase::Header, *old(reader), out),
            limit,
            r,
            machine_at(final(state).phase(), *final(reader), out),
        ),
{
    let ghost m = machine_at(Phase::Header, *reader, out);
    proof {
        lemma_one_step(m, limit);
        reader.lemma_bits();
    }
    if !reader.has_bits(3) {
        *state = DecodeState::BlockHeader;
        return Ok(StepOutcome::NeedMoreBytes);
    }
    let is_final: bool = reader.read_bit()?;
    let block_type: u16 = reader.read_bits(2)?;
    proof {
        lemma_skip_skip(m.bits, 1, 2);
        lemma_from_bits_bound(m.bits.skip(1).take(2));
        lemma2_to64();
    }
    if block_type == 0 {
        *state = DecodeState::StoredAlignAndLen { is_final };
    } else if block_type == 1 {
        proof {
            lemma_fixed_tables();
        }
        let literal_lengths: [u8; 288] = fixed_literal_code_lengths();
        let distance_lengths: [u8; 30] = fixed_distance_code_lengths();
        let literal: HuffmanDecoder = HuffmanDecoder::from_code_lengths(
            literal_lengths.as_slice(),
            None,
            Some(END_OF_BLOCK),
        )?;
        let distance: HuffmanDecoder = HuffmanDecoder::from_code_lengths(
            distance_lengths.as_slice(),
            Some(7),
            None,
        )?;
        *state = DecodeState::SymbolLoop { is_final, literal, distance };
    } else if block_type == 2 {
        *state = DecodeState::DynamicHeader { is_final };
    } else {
        return Err(invalid_data("reserved DEFLATE block type"));
    }
    Ok(StepOutcome::Progress)
}

fn stored_length_error(len: u16, nlen: u16) -> (e: Error)
    ensures
        e@ == stored_length_fault(len as nat, nlen as nat),
{
    let mut text: String = numbered("LEN=", len as usize, " is not the one's complement of NLEN=");
    push_decimal(&mut text, nlen as usize);
    Error::InvalidData(Cow::Owned(text))
}

#[verifier::spinoff_prover]
#[verifier::rlimit(60)]
fn step_stored_align_and_len(
    reader: &mut BitReader<'_>,
    state: &mut DecodeState,
    is_final: bool,
    Ghost(out): Ghost<Seq<u8>>,
    Ghost(limit): Ghost<nat>,
) -> (r: Result<StepOutcome, Error>)
    requires
        old(reader).wf(),
        machine_wf(machine_at(Phase::StoredLength { last: is_final }, *old(reader), out)),
    ensures
        final(reader).wf(),
        final(reader).source() == old(reader).source(),
        r is Ok ==> final(state).wf(),
        r is Ok ==> final(state).active(),
        outcome_ok(
            machine_at(Phase::StoredLength { last: is_final }, *old(reader), out),
            limit,
            r,
            machine_at(final(state).phase(), *final(reader), out),
        ),
{
    let ghost m = machine_at(Phase::StoredLength { last: is_final }, *reader, out);
    proof {
        lemma_one_step(m, limit);
        reader.lemma_bits();
    }
    let residual: u8 = reader.residual_bit_count() % 8;
    if !reader.has_bits(residual as usize + 32) {
        *state = DecodeState::StoredAlignAndLen { is_final };
        return Ok(StepOutcome::NeedMoreBytes);
    }
    reader.align_to_byte();
    let ghost b = reader.bits();
    let bytes: &[u8] = reader.read_bytes(4)?;
    let len: u16 = (bytes[0] as u16) | ((bytes[1] as u16) << 8u16);
    let nlen: u16 = (bytes[2] as u16) | ((bytes[3] as u16) << 8u16);
    proof {
        let b0 = bytes@[0];
        let b1 = bytes@[1];
        let b2 = bytes@[2];
        let b3 = bytes@[3];
        assert((b0 as u16) | ((b1 as u16) << 8u16) == b0 + 256 * b1) by (bit_vector);
        assert((b2 as u16) | ((b3 as u16) << 8u16) == b2 + 256 * b3) by (bit_vector);
        assert(!len == 65535 - len) by (bit_vector);
        lemma_byte_bits_skip(bytes@, 2);
        lemma_le_value(bytes@.take(2));
        lemma_le_value(bytes@.skip(2));
        lemma_le_value_2(bytes@.take(2));
        lemma_le_value_2(bytes@.skip(2));
        let pad = m.bits.len() % 8;
        assert(m.bits.skip(pad as int).take(16) =~= byte_bits(bytes@).take(16));
        assert(m.bits.skip(pad as int + 16).take(16) =~= byte_bits(bytes@).skip(16));
        assert(m.bits.skip(pad as int).skip(32) =~= m.bits.skip(pad as int + 32));
    }
    if !len != nlen {
        return Err(stored_length_error(len, nlen));
    }
    *state = DecodeState::StoredBody { remaining: len, is_final };
    Ok(StepOutcome::Progress)
}

/// Copying `k` bytes of a stored block takes `k` steps.
#[verifier::spinoff_prover]
#[verifier::rlimit(60)]
proof fn lemma_stored_bytes(m: Machine, remaining: nat, last: bool, bytes: Seq<u8>, limit: nat)
    requires
        m.phase == (Phase::StoredBody { remaining, last }),
        bytes.len() <= remaining,
        8 * bytes.len() <= m.bits.len(),
        m.bits.take(8 * bytes.len() as int) == byte_bits(bytes),
        m.out.len() + bytes.len() <= limit || bytes.len() == 0,
        machine_wf(m),
    ensures
        ({
            let n = Machine {
                phase: Phase::StoredBody { remaining: (remaining - bytes.len()) as nat, last },
                out: m.out + bytes,
                bits: m.bits.skip(8 * bytes.len() as int),
                held: m.held,
            };
            &&& run(m, limit) == run(n, limit)
            &&& machine_wf(n)
        }),
    decreases bytes.len(),
{
    let k = bytes.len();
    let n = Machine {
        phase: Phase::StoredBody { remaining: (remaining - k) as nat, last },
        out: m.out + bytes,
        bits: m.bits.skip(8 * k as int),
        held: m.held,
    };
    if k == 0 {
        assert(n.out =~= m.out);
        assert(n.bits =~= m.bits);
        assert(n == m);
    } else {
        let next = Machine {
            phase: Phase::StoredBody { remaining: (remaining - 1) as nat, last },
            out: m.out.push(bytes[0]),
            bits: m.bits.skip(8),
            held: m.held,
        };
        assert(run(m, limit) == run(next, limit) && machine_wf(next)) by {
            lemma_one_step(m, limit);
            lemma_first_byte(bytes);
            lemma_byte_bits_len(bytes);
            assert(m.bits.take(8) =~= byte_bits(bytes).take(8));
            assert(next_step(m) == Step::Next(next));
        }
        assert(next.bits.take(8 * (k - 1)) == byte_bits(bytes.skip(1))) by {
            lemma_byte_bits_len(bytes);
            lemma_byte_bits_skip(bytes, 1);
            assert(next.bits.take(8 * (k - 1)) =~= byte_bits(bytes).skip(8));
        }
        lemma_stored_bytes(next, (remaining - 1) as nat, last, bytes.skip(1), limit);
        assert(n.out =~= next.out + bytes.skip(1));
        assert(n.bits =~= next.bits.skip(8 * (k - 1)));
    }
}

fn step_stored_body(
    reader: &mut BitReader<'_>,
    state: &mut DecodeState,
    output: &mut Vec<u8>,
    drained: usize,
    remaining: u16,
    is_final: bool,
    Ghost(dropped): Ghost<Seq<u8>>,
    Ghost(limit): Ghost<nat>,
) -> (r: Result<StepOutcome, Error>)
    requires
        old(reader).wf(),
        drained <= old(output)@.len(),
        limit == dropped.len() + drained + MAX_INTERNAL_BUFFER,
        machine_wf(
            machine_at(
                Phase::StoredBody { remaining: remaining as nat, last: is_final },
                *old(reader),
                dropped + old(output)@,
            ),
        ),
    ensures
        final(reader).wf(),
        final(reader).source() == old(reader).source(),
        r is Ok ==> final(state).wf(),
        r is Ok ==> final(state).active(),
        final(output)@.len() >= old(output)@.len(),
        outcome_ok(
            machine_at(
                Phase::StoredBody { remaining: remaining as nat, last: is_final },
                *old(reader),
                dropped + old(output)@,
            ),
            limit,
            r,
            machine_at(final(state).phase(), *final(reader), dropped + final(output)@),
        ),
{
    let ghost m = machine_at(
        Phase::StoredBody { remaining: remaining as nat, last: is_final },
        *reader,
        dropped + output@,
    );
    proof {
        reader.lemma_bits();
        assert(m.bits.skip(0) =~= m.bits);
    }
    if remaining == 0 {
        proof {
            lemma_one_step(m, limit);
        }
        if is_final {
            *state = DecodeState::Finished;
            proof {
                lemma_one_step(next_step(m)->Next_0, limit);
            }
            return Ok(StepOutcome::Finished);
        }
        *state = DecodeState::BlockHeader;
        return Ok(StepOutcome::Progress);
    }
    let waiting: usize = output.len() - drained;
    if waiting >= MAX_INTERNAL_BUFFER {
        proof {
            reveal(run);
        }
        *state = DecodeState::StoredBody { remaining, is_final };
        return Ok(StepOutcome::Yield);
    }
    proof {
        lemma_one_step(m, limit);
    }
    let available: usize = reader.available_bytes();
    if available == 0 {
        *state = DecodeState::StoredBody { remaining, is_final };
        return Ok(StepOutcome::NeedMoreBytes);
    }
    let wanted: usize = if available < remaining as usize {
        available
    } else {
        remaining as usize
    };
    let room: usize = MAX_INTERNAL_BUFFER - waiting;
    let take: usize = if wanted < room {
        wanted
    } else {
        room
    };
    let bytes: &[u8] = reader.read_bytes(take)?;
    output.extend_from_slice(bytes);
    proof {
        assert(output@ =~= old(output)@ + bytes@);
        assert(dropped + output@ =~= (dropped + old(output)@) + bytes@);
        lemma_stored_bytes(m, remaining as nat, is_final, bytes@, limit);
    }
    *state = DecodeState::StoredBody { remaining: remaining - take as u16, is_final };
    Ok(StepOutcome::Progress)
}

fn numbered_error(before: &str, n: usize, after: &str) -> (e: Error)
    ensures
        e@ == crate::inflate::numbered_fault(before, n as nat, after),
{
    Error::InvalidData(Cow::Owned(numbered(before, n, after)))
}

fn step_dynamic_header(
    reader: &mut BitReader<'_>,
    state: &mut DecodeState,
    is_final: bool,
    Ghost(out): Ghost<Seq<u8>>,
    Ghost(limit): Ghost<nat>,
) -> (r: Result<StepOutcome, Error>)
    requires
        old(reader).wf(),
        machine_wf(machine_at(Phase::TableHeader { last: is_final }, *old(reader), out)),
    ensures
        final(reader).wf(),
        final(reader).source() == old(reader).source(),
        r is Ok ==> final(state).wf(),
        r is Ok ==> final(state).active(),
        outcome_ok(
            machine_at(Phase::TableHeader { last: is_final }, *old(reader), out),
            limit,
            r,
            machine_at(final(state).phase(), *final(reader), out),
        ),
{
    let ghost m = machine_at(Phase::TableHeader { last: is_final }, *reader, out);
    proof {
        lemma_one_step(m, limit);
        reader.lemma_bits();
        lemma2_to64();
        if m.bits.len() >= 14 {
            lemma_from_bits_bound(m.bits.take(5));
            lemma_from_bits_bound(m.bits.skip(5).take(5));
            lemma_from_bits_bound(m.bits.skip(10).take(4));
            lemma_skip_skip(m.bits, 5, 5);
            lemma_skip_skip(m.bits, 10, 4);
        }
    }
    if !reader.has_bits(14) {
        *state = DecodeState::DynamicHeader { is_final };
        return Ok(StepOutcome::NeedMoreBytes);
    }
    let hlit: u16 = reader.read_bits(5)? + 257;
    let hdist: u16 = reader.read_bits(5)? + 1;
    let hclen: u8 = reader.read_bits(4)? as u8 + 4;
    if hdist as usize > DISTANCE_TABLE.len() {
        return Err(numbered_error("HDIST is too large: ", hdist as usize, ""));
    }
    let code_lengths: [u8; 19] = [0u8; 19];
    proof {
        assert(code_lengths@ =~= repeated(0, 19));
    }
    *state =
    DecodeState::DynamicBitwidthTable { is_final, hlit, hdist, hclen, order_idx: 0, code_lengths };
    Ok(StepOutcome::Progress)
}

#[verifier::spinoff_prover]
#[verifier::rlimit(60)]
fn step_dynamic_bitwidth_table(
    reader: &mut BitReader<'_>,
    state: &mut DecodeState,
    is_final: bool,
    hlit: u16,
    hdist: u16,
    hclen: u8,
    first_idx: u8,
    first_lengths: [u8; 19],
    Ghost(out): Ghost<Seq<u8>>,
    Ghost(limit): Ghost<nat>,
) -> (r: Result<StepOutcome, Error>)
    requires
        old(reader).wf(),
        machine_wf(
            machine_at(
                Phase::WidthTable {
                    last: is_final,
                    hlit: hlit as nat,
                    hdist: hdist as nat,
                    hclen: hclen as nat,
                    read: first_idx as nat,
                    widths: first_lengths@,
                },
                *old(reader),
                out,
            ),
        ),
    ensures
        final(reader).wf(),
        final(reader).source() == old(reader).source(),
        r is Ok ==> final(state).wf(),
        r is Ok ==> final(state).active(),
        outcome_ok(
            machine_at(
                Phase::WidthTable {
                    last: is_final,
                    hlit: hlit as nat,
                    hdist: hdist as nat,
                    hclen: hclen as nat,
                    read: first_idx as nat,
                    widths: first_lengths@,
                },
                *old(reader),
                out,
            ),
            limit,
            r,
            machine_at(final(state).phase(), *final(reader), out),
        ),
{
    let mut order_idx: u8 = first_idx;
    let mut code_lengths: [u8; 19] = first_lengths;
    let ghost m = machine_at(
        Phase::WidthTable {
            last: is_final,
            hlit: hlit as nat,
            hdist: hdist as nat,
            hclen: hclen as nat,
            read: first_idx as nat,
            widths: first_lengths@,
        },
        *reader,
        out,
    );
    let ghost mut cur = m;
    while order_idx < hclen
        invariant
            reader.wf(),
            reader.source() == old(reader).source(),
            hclen <= 19,
            order_idx <= hclen,
            m == machine_at(
                Phase::WidthTable {
                    last: is_final,
                    hlit: hlit as nat,
                    hdist: hdist as nat,
                    hclen: hclen as nat,
                    read: first_idx as nat,
                    widths: first_lengths@,
                },
                *old(reader),
                out,
            ),
            cur == machine_at(
                Phase::WidthTable {
                    last: is_final,
                    hlit: hlit as nat,
                    hdist: hdist as nat,
                    hclen: hclen as nat,
                    read: order_idx as nat,
                    widths: code_lengths@,
                },
                *reader,
                out,
            ),
            machine_wf(cur),
            cur.bits.len() <= m.bits.len(),
            rank(cur.phase) == rank(m.phase),
            run(m, limit) == run(cur, limit),
        decreases hclen - order_idx,
    {
        proof {
            lemma_one_step(cur, limit);
            lemma_from_bits_bound(cur.bits.take(3));
            lemma2_to64();
        }
        if !reader.has_bits(3) {
            *state =
            DecodeState::DynamicBitwidthTable {
                is_final,
                hlit,
                hdist,
                hclen,
                order_idx,
                code_lengths,
            };
            return Ok(StepOutcome::NeedMoreBytes);
        }
        let width: u8 = reader.read_bits(3)? as u8;
        let slot: usize = BITWIDTH_CODE_ORDER[order_idx as usize];
        code_lengths[slot] = width;
        proof {
            cur = next_step(cur)->Next_0;
        }
        order_idx += 1;
    }
    proof {
        lemma_one_step(cur, limit);
        assert(cur.bits.skip(0) =~= cur.bits);
        if table_fault(code_lengths@) is None {
            lemma_table_ok(code_lengths@, Some(1), None);
        }
    }
    let bitwidth_decoder: HuffmanDecoder = HuffmanDecoder::from_code_lengths(
        code_lengths.as_slice(),
        Some(1),
        None,
    )?;
    let target_len: usize = hlit as usize + hdist as usize;
    *state =
    DecodeState::DynamicCodeLengths {
        is_final,
        hlit,
        hdist,
        bitwidth_decoder,
        all_code_lengths: Vec::with_capacity(target_len),
        target_len,
    };
    Ok(StepOutcome::Progress)
}

/// Append `n` times `value`.
fn push_repeated(lengths: &mut Vec<u8>, value: u8, n: u16)
    ensures
        final(lengths)@ == old(lengths)@ + repeated(value, n as nat),
{
    let mut i: u16 = 0;
    assert(lengths@ =~= old(lengths)@ + repeated(value, 0));
    while i < n
        invariant
            i <= n,
            lengths@ == old(lengths)@ + repeated(value, i as nat),
        decreases n - i,
    {
        lengths.push(value);
        i += 1;
        assert(lengths@ =~= old(lengths)@ + repeated(value, i as nat));
    }
}

/// Read one element of the encoded code lengths and append what it stands for.
/// Returns `false`, and reads nothing, if it is not complete.
fn read_element(
    reader: &mut BitReader<'_>,
    bitwidth_decoder: &HuffmanDecoder,
    lengths: &mut Vec<u8>,
    Ghost(m): Ghost<Machine>,
) -> (r: Result<bool, Error>)
    requires
        old(reader).wf(),
        machine_wf(m),
        m.phase is CodeLengths,
        m.bits == old(reader).bits(),
        m.held == old(reader).held(),
        bitwidth_decoder.wf(),
        bitwidth_decoder.peek() == peek_width(bitwidth_decoder.lengths(), Some(1), None),
        bitwidth_decoder.lengths().len() == 19,
    ensures
        final(reader).wf(),
        final(reader).source() == old(reader).source(),
        match next_element(m, bitwidth_decoder.lengths(), old(lengths)@) {
            Element::NeedMore => {
                &&& r == Ok::<bool, Error>(false)
                &&& final(reader).state() == old(reader).state()
                &&& final(lengths)@ == old(lengths)@
            },
            Element::Fail(fault) => r matches Err(e) && e@ == fault,
            Element::Lengths { lengths: longer, taken, held } => {
                &&& r == Ok::<bool, Error>(true)
                &&& final(reader).bits() == m.bits.skip(taken as int)
                &&& final(reader).held() == held
                &&& final(lengths)@ == longer
            },
        },
{
    let ghost widths = bitwidth_decoder.lengths();
    let ghost peek = bitwidth_decoder.peek();
    let snap: BitReaderState = reader.snapshot();
    let code: u16 = match bitwidth_decoder.decode(reader) {
        Ok(code) => code,
        Err(e) => {
            proof {
                lemma_faults_differ();
            }
            if is_eof_error(&e) {
                reader.restore(snap);
                return Ok(false);
            }
            return Err(e);
        },
    };
    proof {
        bitwidth_decoder.lemma_wf();
        lemma_decoded(widths, peek, m.bits);
    }
    let ghost w = widths[code as int] as nat;
    let ghost rest = m.bits.skip(w as int);
    if code <= 15 {
        lengths.push(code as u8);
        return Ok(true);
    }
    if code > 18 {
        return Err(numbered_error("invalid code length symbol: ", code as usize, ""));
    }
    let (extra_bits, least): (u8, u16) = if code == 16 {
        (2, 3)
    } else if code == 17 {
        (3, 3)
    } else {
        (7, 11)
    };
    let more: u16 = match reader.read_bits(extra_bits) {
        Ok(more) => more,
        Err(_) => {
            reader.restore(snap);
            return Ok(false);
        },
    };
    proof {
        lemma_from_bits_bound(rest.take(extra_bits as int));
        lemma2_to64();
        lemma_skip_skip(m.bits, w as int, extra_bits as int);
    }
    let value: u8 = if code == 16 {
        if lengths.len() == 0 {
            return Err(invalid_data("repeat code 16 without a previous code"));
        }
        lengths[lengths.len() - 1]
    } else {
        0
    };
    push_repeated(lengths, value, more + least);
    Ok(true)
}

fn step_dynamic_code_lengths(
    reader: &mut BitReader<'_>,
    state: &mut DecodeState,
    is_final: bool,
    hlit: u16,
    hdist: u16,
    bitwidth_decoder: HuffmanDecoder,
    first_lengths: Vec<u8>,
    target_len: usize,
    Ghost(out): Ghost<Seq<u8>>,
    Ghost(limit): Ghost<nat>,
) -> (r: Result<StepOutcome, Error>)
    requires
        old(reader).wf(),
        bitwidth_decoder.wf(),
        bitwidth_decoder.peek() == peek_width(bitwidth_decoder.lengths(), Some(1), None),
        target_len == hlit + hdist,
        machine_wf(
            machine_at(
                Phase::CodeLengths {
                    last: is_final,
                    hlit: hlit as nat,
                    hdist: hdist as nat,
                    widths: bitwidth_decoder.lengths(),
                    lengths: first_lengths@,
                },
                *old(reader),
                out,
            ),
        ),
    ensures
        final(reader).wf(),
        final(reader).source() == old(reader).source(),
        r is Ok ==> final(state).wf(),
        r is Ok ==> final(state).active(),
        outcome_ok(
            machine_at(
                Phase::CodeLengths {
                    last: is_final,
                    hlit: hlit as nat,
                    hdist: hdist as nat,
                    widths: bitwidth_decoder.lengths(),
                    lengths: first_lengths@,
                },
                *old(reader),
                out,
            ),
            limit,
            r,
            machine_at(final(state).phase(), *final(reader), out),
        ),
{
    let mut all_code_lengths: Vec<u8> = first_lengths;
    let ghost widths = bitwidth_decoder.lengths();
    let ghost m = machine_at(
        Phase::CodeLengths {
            last: is_final,
            hlit: hlit as nat,
            hdist: hdist as nat,
            widths,
            lengths: all_code_lengths@,
        },
        *reader,
        out,
    );
    let ghost mut cur = m;
    while all_code_lengths.len() < target_len
        invariant
            reader.wf(),
            reader.source() == old(reader).source(),
            bitwidth_decoder.wf(),
            widths == bitwidth_decoder.lengths(),
            bitwidth_decoder.peek() == peek_width(widths, Some(1), None),
            target_len == hlit + hdist,
            all_code_lengths@.len() <= target_len,
            m == machine_at(
                Phase::CodeLengths {
                    last: is_final,
                    hlit: hlit as nat,
                    hdist: hdist as nat,
                    widths,
                    lengths: first_lengths@,
                },
                *old(reader),
                out,
            ),
            cur == machine_at(
                Phase::CodeLengths {
                    last: is_final,
                    hlit: hlit as nat,
                    hdist: hdist as nat,
                    widths,
                    lengths: all_code_lengths@,
                },
                *reader,
                out,
            ),
            machine_wf(cur),
            cur.bits.len() <= m.bits.len(),
            rank(cur.phase) == rank(m.phase),
            run(m, limit) == run(cur, limit),
        decreases reader.bits().len(),
    {
        proof {
            lemma_one_step(cur, limit);
        }
        // Each element may take as little as one bit, so there is no check up
        // front: an element that is not complete is read again later.
        let complete: bool = read_element(
            reader,
            &bitwidth_decoder,
            &mut all_code_lengths,
            Ghost(cur),
        )?;
        if !complete {
            *state =
            DecodeState::DynamicCodeLengths {
                is_final,
                hlit,
                hdist,
                bitwidth_decoder,
                all_code_lengths,
                target_len,
            };
            return Ok(StepOutcome::NeedMoreBytes);
        }
        if all_code_lengths.len() > target_len {
            return Err(
                invalid_data("dynamic huffman code lengths exceed the announced table size"),
            );
        }
        proof {
            cur = next_step(cur)->Next_0;
        }
    }
    let ghost lit = all_code_lengths@.take(hlit as int);
    let ghost dist = all_code_lengths@.subrange(hlit as int, hlit + hdist);
    proof {
        lemma_one_step(cur, limit);
        assert(cur.bits.skip(0) =~= cur.bits);
        if table_fault(lit) is None {
            lemma_table_ok(lit, None, Some(256));
        }
    }
    let lengths: &[u8] = all_code_lengths.as_slice();
    let literal_lengths: &[u8] = vstd::slice::slice_subrange(lengths, 0, hlit as usize);
    let distance_lengths: &[u8] = vstd::slice::slice_subrange(
        lengths,
        hlit as usize,
        hlit as usize + hdist as usize,
    );
    proof {
        assert(literal_lengths@ =~= lit);
        assert(distance_lengths@ =~= dist);
    }
    let literal: HuffmanDecoder = HuffmanDecoder::from_code_lengths(
        literal_lengths,
        None,
        Some(END_OF_BLOCK),
    )?;
    let distance: HuffmanDecoder = HuffmanDecoder::from_code_lengths(
        distance_lengths,
        Some(literal.safely_peek_bits()),
        None,
    )?;
    *state = DecodeState::SymbolLoop { is_final, literal, distance };
    Ok(StepOutcome::Progress)
}

fn reference_error(output_len: usize, distance: usize) -> (e: Error)
    ensures
        e@ == reference_fault(output_len as nat, distance as nat),
{
    let mut text: String = numbered(
        "too long backward reference: output_len=",
        output_len,
        ", distance=",
    );
    push_decimal(&mut text, distance);
    Error::InvalidData(Cow::Owned(text))
}

/// Append `length` bytes, each a copy of the one `distance` bytes before it.
/// Fails if the first of them lies before the start of the output.
pub fn copy_from_distance(output: &mut Vec<u8>, distance: usize, length: usize) -> (r: Result<
    (),
    Error,
>)
    ensures
        1 <= distance <= old(output)@.len() ==> r is Ok && final(output)@ == copied(
            old(output)@,
            distance as nat,
            length as nat,
        ),
        !(1 <= distance <= old(output)@.len()) ==> {
            &&& r matches Err(e) && e@ == reference_fault(old(output)@.len(), distance as nat)
            &&& final(output)@ == old(output)@
        },
{
    if distance == 0 || distance > output.len() {
        return Err(reference_error(output.len(), distance));
    }
    let mut emitted: usize = 0;
    while emitted < length
        invariant
            emitted <= length,
            1 <= distance <= output@.len(),
            copied(output@, distance as nat, (length - emitted) as nat) == copied(
                old(output)@,
                distance as nat,
                length as nat,
            ),
        decreases length - emitted,
    {
        let byte: u8 = output[output.len() - distance];
        output.push(byte);
        emitted += 1;
    }
    Ok(())
}

/// Read the rest of a back-reference whose length symbol was read, and append
/// the bytes that it stands for. Returns `false` if it is not complete.
#[verifier::spinoff_prover]
#[verifier::rlimit(40)]
fn read_reference(
    reader: &mut BitReader<'_>,
    output: &mut Vec<u8>,
    symbol: u16,
    distance: &HuffmanDecoder,
    Ghost(m): Ghost<Machine>,
    Ghost(last): Ghost<bool>,
    Ghost(literal): Ghost<Seq<u8>>,
    Ghost(w): Ghost<nat>,
    Ghost(dropped): Ghost<Seq<u8>>,
) -> (r: Result<bool, Error>)
    requires
        old(reader).wf(),
        257 <= symbol <= 285,
        w <= m.bits.len(),
        old(reader).bits() == m.bits.skip(w as int),
        m.out == dropped + old(output)@,
        dropped.len() == 0 || old(output)@.len() >= 32768,
        distance.wf(),
        distance.peek() == distance_peek(literal, distance.lengths()),
        distance.lengths().len() <= 30,
    ensures
        final(reader).wf(),
        final(reader).source() == old(reader).source(),
        match reference_step(
            m,
            last,
            literal,
            distance.lengths(),
            symbol as nat,
            w,
            old(reader).held(),
        ) {
            Step::Next(n) => {
                &&& r == Ok::<bool, Error>(true)
                &&& n == machine_at(n.phase, *final(reader), dropped + final(output)@)
                &&& final(output)@.len() >= old(output)@.len()
            },
            Step::NeedMore => r == Ok::<bool, Error>(false) && final(output)@ == old(output)@,
            Step::Fail(fault) => {
                &&& r matches Err(e) && e@ == fault
                &&& final(output)@ == old(output)@
            },
            Step::Finished => true,
        },
{
    let ghost held = reader.held();
    let (base_length, length_extra_bits): (u16, u8) = LENGTH_TABLE[(symbol - 257) as usize];
    let ghost n1 = length_extra_bits as nat;
    proof {
        lemma_pow2_zero();
        assert(length_extra_bits <= 5 && base_length <= 258);
        assert(m.bits.skip(w as int).take(0) =~= Seq::<bool>::empty());
        assert(m.bits.skip(w as int).skip(0) =~= m.bits.skip(w as int));
        assert(from_bits(Seq::<bool>::empty()) == 0);
    }
    let length_extra: u16 = if length_extra_bits == 0 {
        0
    } else {
        match reader.read_bits(length_extra_bits) {
            Ok(extra) => extra,
            Err(_) => {
                return Ok(false);
            },
        }
    };
    proof {
        lemma_skip_skip(m.bits, w as int, n1 as int);
        lemma_from_bits_bound(m.bits.skip(w as int).take(n1 as int));
        lemma2_to64();
    }
    let length: u16 = base_length + length_extra;
    let ghost rest = reader.bits();
    let distance_symbol: u16 = match distance.decode(reader) {
        Ok(symbol) => symbol,
        Err(e) => {
            proof {
                lemma_faults_differ();
            }
            if is_eof_error(&e) {
                return Ok(false);
            }
            return Err(e);
        },
    };
    proof {
        lemma_decoded(distance.lengths(), distance.peek(), rest);
    }
    let ghost dw = distance.lengths()[distance_symbol as int] as nat;
    let ghost at = w + n1 + dw;
    if distance_symbol as usize >= DISTANCE_TABLE.len() {
        return Err(numbered_error("invalid distance symbol: ", distance_symbol as usize, ""));
    }
    let (base_distance, dist_extra_bits): (u16, u8) = DISTANCE_TABLE[distance_symbol as usize];
    let ghost n2 = dist_extra_bits as nat;
    proof {
        lemma_skip_skip(m.bits, (w + n1) as int, dw as int);
        assert(dist_extra_bits <= 13 && 1 <= base_distance <= 24577);
        assert(m.bits.skip(at as int).take(0) =~= Seq::<bool>::empty());
        assert(m.bits.skip(at as int).skip(0) =~= m.bits.skip(at as int));
    }
    let dist_extra: u16 = if dist_extra_bits == 0 {
        0
    } else {
        match reader.read_bits(dist_extra_bits) {
            Ok(extra) => extra,
            Err(_) => {
                return Ok(false);
            },
        }
    };
    proof {
        lemma_skip_skip(m.bits, at as int, n2 as int);
        lemma_from_bits_bound(m.bits.skip(at as int).take(n2 as int));
        assert(pow2(n2) <= 8192) by {
            if n2 < 13 {
                vstd::arithmetic::power2::lemma_pow2_strictly_increases(n2, 13);
            }
        }
        lemma_distance_entry(distance_symbol as nat, dist_extra as nat);
    }
    let full_distance: usize = (base_distance + dist_extra) as usize;
    proof {
        if full_distance <= output@.len() {
            lemma_copied_front(dropped, output@, full_distance as nat, length as nat);
            lemma_copied(output@, full_distance as nat, length as nat);
        } else {
            assert(dropped + output@ =~= output@);
        }
    }
    copy_from_distance(output, full_distance, length as usize)?;
    Ok(true)
}

/// No distance is greater than the window.
proof fn lemma_distance_entry(d: nat, extra: nat)
    requires
        d < 30,
        extra < pow2(DISTANCE_TABLE@[d as int].1 as nat),
    ensures
        DISTANCE_TABLE@[d as int].0 + extra <= 32768,
{
    lemma2_to64();
}

fn step_symbol_loop(
    reader: &mut BitReader<'_>,
    state: &mut DecodeState,
    output: &mut Vec<u8>,
    drained: usize,
    is_final: bool,
    literal: HuffmanDecoder,
    distance: HuffmanDecoder,
    Ghost(dropped): Ghost<Seq<u8>>,
    Ghost(limit): Ghost<nat>,
) -> (r: Result<StepOutcome, Error>)
    requires
        old(reader).wf(),
        tables_wf(literal, distance),
        drained <= old(output)@.len(),
        limit == dropped.len() + drained + MAX_INTERNAL_BUFFER,
        dropped.len() == 0 || old(output)@.len() >= 32768,
        machine_wf(
            machine_at(
                Phase::Symbols {
                    last: is_final,
                    literal: literal.lengths(),
                    distance: distance.lengths(),
                },
                *old(reader),
                dropped + old(output)@,
            ),
        ),
    ensures
        final(reader).wf(),
        final(reader).source() == old(reader).source(),
        r is Ok ==> final(state).wf(),
        r is Ok ==> final(state).active(),
        final(output)@.len() >= old(output)@.len(),
        outcome_ok(
            machine_at(
                Phase::Symbols {
                    last: is_final,
                    literal: literal.lengths(),
                    distance: distance.lengths(),
                },
                *old(reader),
                dropped + old(output)@,
            ),
            limit,
            r,
            machine_at(final(state).phase(), *final(reader), dropped + final(output)@),
        ),
{
    let ghost lit = literal.lengths();
    let ghost dist = distance.lengths();
    let ghost phase = Phase::Symbols { last: is_final, literal: lit, distance: dist };
    let ghost m = machine_at(phase, *reader, dropped + output@);
    loop
        invariant
            reader.wf(),
            reader.source() == old(reader).source(),
            tables_wf(literal, distance),
            lit == literal.lengths(),
            dist == distance.lengths(),
            phase == (Phase::Symbols { last: is_final, literal: lit, distance: dist }),
            m == machine_at(phase, *old(reader), dropped + old(output)@),
            drained <= output@.len(),
            old(output)@.len() <= output@.len(),
            limit == dropped.len() + drained + MAX_INTERNAL_BUFFER,
            dropped.len() == 0 || output@.len() >= 32768,
            machine_wf(machine_at(phase, *reader, dropped + output@)),
            reader.bits().len() <= m.bits.len(),
            run(m, limit) == run(machine_at(phase, *reader, dropped + output@), limit),
        decreases reader.bits().len(),
    {
        let ghost cur = machine_at(phase, *reader, dropped + output@);
        // Yield to the caller once the unread output reaches the internal
        // cap, so a single arbitrarily-large block cannot grow the buffer
        // without bound. The Huffman decoders live in the preserved
        // `SymbolLoop` state, so decoding resumes seamlessly on the next
        // `feed`. Unlike `NeedMoreBytes`, the just-decoded symbol's bits are
        // left consumed (no snapshot restore): control returns to the caller
        // with the produced bytes ready to drain.
        if output.len() - drained >= MAX_INTERNAL_BUFFER {
            proof {
                reveal(run);
            }
            *state = DecodeState::SymbolLoop { is_final, literal, distance };
            return Ok(StepOutcome::Yield);
        }
        proof {
            lemma_one_step(cur, limit);
            literal.lemma_wf();
        }
        let snap: BitReaderState = reader.snapshot();
        let symbol: u16 = match literal.decode(reader) {
            Ok(symbol) => symbol,
            Err(e) => {
                proof {
                    lemma_faults_differ();
                }
                if is_eof_error(&e) {
                    reader.restore(snap);
                    *state = DecodeState::SymbolLoop { is_final, literal, distance };
                    return Ok(StepOutcome::NeedMoreBytes);
                }
                return Err(e);
            },
        };
        proof {
            lemma_decoded(lit, literal.peek(), cur.bits);
        }
        let ghost w = lit[symbol as int] as nat;
        if symbol <= 255 {
            output.push(symbol as u8);
            proof {
                assert(dropped + output@ =~= cur.out.push(symbol as u8));
            }
        } else if symbol == END_OF_BLOCK {
            if is_final {
                *state = DecodeState::Finished;
                proof {
                    lemma_one_step(next_step(cur)->Next_0, limit);
                }
                return Ok(StepOutcome::Finished);
            }
            *state = DecodeState::BlockHeader;
            return Ok(StepOutcome::Progress);
        } else if symbol <= 285 {
            let complete: bool = read_reference(
                reader,
                output,
                symbol,
                &distance,
                Ghost(cur),
                Ghost(is_final),
                Ghost(lit),
                Ghost(w),
                Ghost(dropped),
            )?;
            if !complete {
                reader.restore(snap);
                *state = DecodeState::SymbolLoop { is_final, literal, distance };
                return Ok(StepOutcome::NeedMoreBytes);
            }
        } else {
            return Err(
                numbered_error(
                    "literal/length symbol ",
                    symbol as usize,
                    " must not appear in compressed data",
                ),
            );
        }
    }
}

/// Take the step that the state asks for, or several that belong together.
/// Nothing more is done once decoding has failed.
pub(crate) fn step(
    reader: &mut BitReader<'_>,
    state: &mut DecodeState,
    output: &mut Vec<u8>,
    drained: usize,
    Ghost(dropped): Ghost<Seq<u8>>,
    Ghost(limit): Ghost<nat>,
) -> (r: Result<StepOutcome, Error>)
    requires
        old(reader).wf(),
        old(state).wf(),
        !(*old(state) is Transient),
        drained <= old(output)@.len(),
        limit == dropped.len() + drained + MAX_INTERNAL_BUFFER,
        dropped.len() == 0 || old(output)@.len() >= 32768,
        machine_wf(machine_at(old(state).phase(), *old(reader), dropped + old(output)@)),
    ensures
        final(reader).wf(),
        final(reader).source() == old(reader).source(),
        final(state).wf(),
        !(*final(state) is Transient),
        match r {
            Ok(_) => final(state).active(),
            Err(e) => final(state).fault() == Some(e@),
        },
        final(output)@.len() >= old(output)@.len(),
        *old(state) is Failed ==> {
            &&& r is Err
            &&& final(state).fault() == old(state).fault()
            &&& *final(reader) == *old(reader)
            &&& final(output)@ == old(output)@
        },
        !(*old(state) is Failed) ==> outcome_ok(
            machine_at(old(state).phase(), *old(reader), dropped + old(output)@),
            limit,
            r,
            machine_at(final(state).phase(), *final(reader), dropped + final(output)@),
        ),
{
    let ghost out = dropped + output@;
    let mut current: DecodeState = DecodeState::Transient;
    std::mem::swap(state, &mut current);
    let r: Result<StepOutcome, Error> = match current {
        DecodeState::BlockHeader => step_block_header(reader, state, Ghost(out), Ghost(limit)),
        DecodeState::StoredAlignAndLen { is_final } => step_stored_align_and_len(
            reader,
            state,
            is_final,
            Ghost(out),
            Ghost(limit),
        ),
        DecodeState::StoredBody { remaining, is_final } => step_stored_body(
            reader,
            state,
            output,
            drained,
            remaining,
            is_final,
            Ghost(dropped),
            Ghost(limit),
        ),
        DecodeState::DynamicHeader { is_final } => step_dynamic_header(
            reader,
            state,
            is_final,
            Ghost(out),
            Ghost(limit),
        ),
        DecodeState::DynamicBitwidthTable {
            is_final,
            hlit,
            hdist,
            hclen,
            order_idx,
            code_lengths,
        } => step_dynamic_bitwidth_table(
            reader,
            state,
            is_final,
            hlit,
            hdist,
            hclen,
            order_idx,
            code_lengths,
            Ghost(out),
            Ghost(limit),
        ),
        DecodeState::DynamicCodeLengths {
            is_final,
            hlit,
            hdist,
            bitwidth_decoder,
            all_code_lengths,
            target_len,
        } => step_dynamic_code_lengths(
            reader,
            state,
            is_final,
            hlit,
            hdist,
            bitwidth_decoder,
            all_code_lengths,
            target_len,
            Ghost(out),
            Ghost(limit),
        ),
        DecodeState::SymbolLoop { is_final, literal, distance } => step_symbol_loop(
            reader,
            state,
            output,
            drained,
            is_final,
            literal,
            distance,
            Ghost(dropped),
            Ghost(limit),
        ),
        DecodeState::Finished => {
            proof {
                lemma_one_step(machine_at(Phase::Done, *reader, out), limit);
            }
            *state = DecodeState::Finished;
            Ok(StepOutcome::Finished)
        },
        DecodeState::Failed { error } => Err(error),
        DecodeState::Transient => vstd::pervasive::unreached(),
    };
    if let Err(e) = &r {
        *state = DecodeState::Failed { error: e.clone() };
    }
    r
}

/// When nothing waits, all that was produced has been consumed.
proof fn lemma_drained(decoder: Decoder)
    requires
        decoder.wf(),
    ensures
        decoder.waiting().len() == 0 ==> decoder.consumed() == decoder.produced().len(),
{
    decoder.lemma_wf();
}

/// Incremental DEFLATE decoder.
///
/// See the module documentation for the feed / drain protocol.
pub struct Decoder {
    input: Buf,
    output: Vec<u8>,
    drained: usize,
    state: DecodeState,
    pending_bit_buffer: u64,
    pending_bit_count: u8,
    finished: bool,
    /// All bytes decoded so far, those that were dropped from `output` too.
    produced: Ghost<Seq<u8>>,
}

impl Default for Decoder {
    fn default() -> (decoder: Self)
        ensures
            decoder.wf(),
            !decoder.failed(),
            decoder.machine() == start(Seq::empty()),
            decoder.consumed() == 0,
    {
        Self::new()
    }
}

impl Decoder {
    /// The point in the decoding that the decoder has reached. After an error
    /// only its output counts.
    pub closed spec fn machine(self) -> Machine {
        Machine {
            phase: self.state.phase(),
            out: self.produced@,
            bits: to_bits(self.pending_bit_buffer as nat, self.pending_bit_count as nat)
                + byte_bits(self.input@),
            held: self.pending_bit_count as nat,
        }
    }

    /// How many of the decoded bytes the caller has taken.
    pub closed spec fn consumed(self) -> nat {
        (self.produced@.len() - self.output@.len() + self.drained) as nat
    }

    /// The bytes that were fed and of which no bit has been taken.
    pub closed spec fn unread(self) -> Seq<u8> {
        self.input@
    }

    /// The error that decoding has ended with, if it has.
    pub closed spec fn fault(self) -> Option<Fault> {
        self.state.fault()
    }

    /// Decoding has ended with an error.
    pub open spec fn failed(self) -> bool {
        self.fault() is Some
    }

    /// The end of the last block has been reached.
    pub open spec fn finished(self) -> bool {
        !self.failed() && self.machine().phase is Done
    }

    /// All bytes decoded so far.
    pub open spec fn produced(self) -> Seq<u8> {
        self.machine().out
    }

    /// The decoded bytes that the caller has not taken.
    pub open spec fn waiting(self) -> Seq<u8> {
        self.produced().skip(self.consumed() as int)
    }

    /// How many bytes the output buffer holds, taken ones among them.
    pub closed spec fn retained(self) -> nat {
        self.output@.len()
    }

    /// The buffer holds the end of the output, at least as much of it as a
    /// reference can reach.
    pub closed spec fn wf(self) -> bool {
        &&& self.input.wf()
        &&& self.state.wf()
        &&& !(self.state is Transient)
        &&& self.drained <= self.output@.len() <= self.produced@.len()
        &&& self.output@ == self.produced@.skip(self.produced@.len() - self.output@.len())
        &&& self.output@.len() == self.produced@.len() || self.output@.len() >= 32768
        &&& self.pending_bit_count < 48
        &&& self.pending_bit_buffer < pow2(self.pending_bit_count as nat)
        &&& !self.failed() ==> machine_wf(self.machine())
        &&& self.finished == self.finished()
    }

    /// What holds of every decoder: the point that it has reached is within
    /// the format, the bits that it holds of a byte are fewer than two bytes
    /// between blocks, and the caller has taken no more than there was.
    pub proof fn lemma_wf(self)
        requires
            self.wf(),
        ensures
            !self.failed() ==> machine_wf(self.machine()),
            self.consumed() <= self.produced().len(),
            self.machine().held <= self.machine().bits.len(),
            self.machine().bits.skip(self.machine().held as int) == byte_bits(self.unread()),
    {
        lemma_to_bits_len(self.pending_bit_buffer as nat, self.pending_bit_count as nat);
        assert(self.machine().bits.skip(self.machine().held as int) =~= byte_bits(self.input@));
    }

    /// Create a DEFLATE decoder positioned at the start of a stream.
    pub fn new() -> (decoder: Self)
        ensures
            decoder.wf(),
            !decoder.failed(),
            decoder.machine() == start(Seq::empty()),
            decoder.consumed() == 0,
    {
        let decoder = Decoder {
            input: Buf::new(),
            output: Vec::new(),
            drained: 0,
            state: DecodeState::BlockHeader,
            pending_bit_buffer: 0,
            pending_bit_count: 0,
            finished: false,
            produced: Ghost(Seq::empty()),
        };
        proof {
            lemma_pow2_zero();
            lemma_byte_bits_len(Seq::empty());
            lemma_to_bits_len(0, 0);
            assert(decoder.machine().bits =~= Seq::<bool>::empty());
            assert(decoder.output@ =~= decoder.produced@.skip(0));
        }
        decoder
    }

    /// Append compressed bytes.
    ///
    /// Returns an error only for genuine stream errors. Running out of
    /// input is not an error: the call returns `Ok(())` and the decoder
    /// waits for more bytes.
    ///
    /// The call may also return `Ok(())` before the stream is finished once
    /// [`MAX_INTERNAL_BUFFER`] decompressed bytes have been buffered and not
    /// yet drained. Drain them via [`Decoder::output`] / [`Decoder::advance`],
    /// then call `feed` again (with remaining input, or `&[]` once the
    /// compressed data is exhausted) to resume. A `feed` call is therefore
    /// not guaranteed to consume the entire stream; callers that need a
    /// complete stream must drain in a loop until [`Decoder::is_finished`].
    ///
    /// A decoder that has returned an error for the stream itself returns it
    /// again whenever it is fed.
    pub fn feed(&mut self, data: &[u8]) -> (r: Result<(), Error>)
        requires
            old(self).wf(),
        ensures
            final(self).wf(),
            final(self).consumed() == old(self).consumed(),
            old(self).waiting().len() <= MAX_INTERNAL_BUFFER + MAX_MATCH
                ==> final(self).waiting().len() <= MAX_INTERNAL_BUFFER + MAX_MATCH,
            old(self).fault() matches Some(fault) ==> {
                &&& r matches Err(e) && e@ == fault
                &&& *final(self) == *old(self)
            },
            old(self).finished() && data@.len() > 0 ==> {
                &&& r matches Err(e) && e@ == invalid("bytes fed after deflate stream end")
                &&& *final(self) == *old(self)
            },
            !old(self).failed() && !(old(self).finished() && data@.len() > 0) ==> {
                let (reached, stop) = run(
                    old(self).machine().push(byte_bits(data@)),
                    old(self).consumed() + MAX_INTERNAL_BUFFER as nat,
                );
                match stop {
                    Stop::Fail(fault) => {
                        &&& r matches Err(e) && e@ == fault
                        &&& final(self).fault() == Some(fault)
                        &&& final(self).produced() == reached.out
                        &&& final(self).unread() == old(self).unread() + data@
                    },
                    _ => {
                        &&& r is Ok
                        &&& !final(self).failed()
                        &&& final(self).machine() == reached
                    },
                }
            },
    {
        if let DecodeState::Failed { error } = &self.state {
            return Err(error.clone());
        }
        if self.finished && data.len() > 0 {
            return Err(invalid_data("bytes fed after deflate stream end"));
        }
        proof {
            lemma_byte_bits_concat(self.input@, data@);
            lemma_byte_bits_len(data@);
        }
        self.input.feed(data);
        assert(self.machine().bits =~= old(self).machine().push(byte_bits(data@)).bits);
        proof {
            let limit = self.consumed() + MAX_INTERNAL_BUFFER as nat;
            lemma_overshoot(self.machine(), limit);
            lemma_run(self.machine(), limit);
        }
        self.drive()
    }

    /// Borrow decompressed bytes not yet consumed.
    pub fn output(&self) -> (bytes: &[u8])
        requires
            self.wf(),
        ensures
            bytes@ == self.waiting(),
            bytes@ == self.machine().out.skip(self.consumed() as int),
    {
        let all: &[u8] = self.output.as_slice();
        let bytes: &[u8] = vstd::slice::slice_subrange(all, self.drained, all.len());
        assert(bytes@ =~= self.waiting());
        bytes
    }

    /// Mark `n` bytes of output as consumed. There must be as many.
    pub fn advance(&mut self, n: usize)
        requires
            old(self).wf(),
            n <= old(self).waiting().len(),
        ensures
            final(self).wf(),
            final(self).fault() == old(self).fault(),
            final(self).machine() == old(self).machine(),
            final(self).unread() == old(self).unread(),
            final(self).consumed() == old(self).consumed() + n,
            final(self).retained() < COMPACT_THRESHOLD || final(self).retained()
                == final(self).waiting().len(),
    {
        assert(self.drained + n <= self.output.len());
        self.drained += n;
        self.maybe_compact();
    }

    /// Drop consumed bytes from the front of the output buffer while
    /// preserving the LZ77 sliding window required for back-references.
    ///
    /// `copy_from_distance` uses `output.len() - distance` (relative
    /// indexing), so shrinking the front keeps all back-references valid
    /// as long as the last [`WINDOW_SIZE`] bytes are retained.
    fn maybe_compact(&mut self)
        requires
            old(self).wf(),
        ensures
            final(self).wf(),
            final(self).fault() == old(self).fault(),
            final(self).machine() == old(self).machine(),
            final(self).unread() == old(self).unread(),
            final(self).consumed() == old(self).consumed(),
            final(self).retained() < COMPACT_THRESHOLD || final(self).retained()
                == final(self).waiting().len(),
    {
        if self.output.len() < COMPACT_THRESHOLD {
            return;
        }
        let window_start: usize = self.output.len() - WINDOW_SIZE;
        let keep_from: usize = if self.drained < window_start {
            self.drained
        } else {
            window_start
        };
        if keep_from == 0 {
            return;
        }
        let kept: Vec<u8> = self.output.split_off(keep_from);
        self.output = kept;
        self.drained -= keep_from;
        assert(self.output@ =~= self.produced@.skip(self.produced@.len() - self.output@.len()));
    }

    /// `true` once the final block's EOB has been decoded. Additional
    /// bytes fed after this will cause `Error::InvalidData`.
    pub fn is_finished(&self) -> (finished: bool)
        requires
            self.wf(),
        ensures
            finished == self.finished(),
            finished == (self.machine().phase is Done && !self.failed()),
    {
        self.finished
    }

    /// Bytes fed to `feed` that the decoder did not consume.
    ///
    /// Non-empty after the final block when the input contained trailing
    /// bytes (e.g. a container trailer).
    pub fn remaining_input(&self) -> (bytes: &[u8])
        requires
            self.wf(),
        ensures
            bytes@ == self.unread(),
            byte_bits(bytes@) == self.machine().bits.skip(self.machine().held as int),
    {
        proof {
            self.lemma_wf();
        }
        self.input.get()
    }

    /// Append compressed bytes and move everything that can be decoded from
    /// them to `out`, however much that is. All output must have been consumed
    /// before, and all is consumed after.
    ///
    /// Returns an error as [`Decoder::feed`] does. What was decoded before an
    /// error is in `out`, but for the last part, which waits in the decoder.
    pub fn decode_into(&mut self, data: &[u8], out: &mut Vec<u8>) -> (r: Result<(), Error>)
        requires
            old(self).wf(),
            old(self).failed() || old(self).waiting().len() == 0,
        ensures
            final(self).wf(),
            old(self).fault() matches Some(fault) ==> {
                &&& r matches Err(e) && e@ == fault
                &&& *final(self) == *old(self)
                &&& final(out)@ == old(out)@
            },
            old(self).finished() && data@.len() > 0 ==> {
                &&& r matches Err(e) && e@ == invalid("bytes fed after deflate stream end")
                &&& *final(self) == *old(self)
                &&& final(out)@ == old(out)@
            },
            !old(self).failed() && !(old(self).finished() && data@.len() > 0) ==> {
                let (reached, stop) = inflate(old(self).machine().push(byte_bits(data@)));
                let decoded = reached.out.skip(old(self).produced().len() as int);
                match stop {
                    Stop::Fail(fault) => {
                        &&& r matches Err(e) && e@ == fault
                        &&& final(self).fault() == Some(fault)
                        &&& old(out)@.len() <= final(out)@.len()
                        &&& final(out)@ == (old(out)@ + decoded).take(final(out)@.len() as int)
                        &&& final(out)@ + final(self).waiting() == old(out)@ + decoded
                        &&& final(self).waiting().len() <= MAX_INTERNAL_BUFFER + MAX_MATCH
                    },
                    _ => {
                        &&& r is Ok
                        &&& !final(self).failed()
                        &&& final(self).machine() == reached
                        &&& final(self).waiting().len() == 0
                        &&& final(out)@ == old(out)@ + decoded
                    },
                }
            },
    {
        let ghost first = self.produced().len();
        let ghost goal = inflate(self.machine().push(byte_bits(data@)));
        let ghost prior = out@;
        proof {
            self.lemma_wf();
            lemma_byte_bits_len(data@);
            lemma_drained(*self);
            if !self.failed() && !(self.finished() && data@.len() > 0) {
                let m = self.machine().push(byte_bits(data@));
                lemma_run(m, self.consumed() + MAX_INTERNAL_BUFFER as nat);
                lemma_inflate(m);
            }
            assert(prior =~= (prior + goal.0.out.skip(first as int)).take(prior.len() as int));
        }
        if let Err(e) = self.feed(data) {
            proof {
                if !old(self).failed() && !(old(self).finished() && data@.len() > 0) {
                    assert(self.produced() == goal.0.out);
                    assert(self.consumed() == first);
                    assert(out@ + self.waiting() =~= prior + goal.0.out.skip(first as int));
                }
            }
            return Err(e);
        }
        proof {
            self.lemma_wf();
        }
        loop
            invariant_except_break
                self.wf(),
                !self.failed(),
                inflate(self.machine()) == goal,
                first <= self.consumed() <= self.produced().len(),
                out@ == prior + self.produced().subrange(first as int, self.consumed() as int),
                !old(self).failed(),
                !(old(self).finished() && data@.len() > 0),
                goal == inflate(old(self).machine().push(byte_bits(data@))),
                prior == old(out)@,
                first == old(self).produced().len(),
            ensures
                self.wf(),
                !self.failed(),
                !(goal.1 is Fail),
                self.machine() == goal.0,
                self.waiting().len() == 0,
                out@ == prior + goal.0.out.skip(first as int),
            decreases self.machine().bits.len(), rank(self.machine().phase),
        {
            let ghost before = self.machine();
            let ghost taken = self.consumed();
            let produced: Vec<u8> = vstd::slice::slice_to_vec(self.output());
            out.extend_from_slice(produced.as_slice());
            self.advance(produced.len());
            proof {
                lemma_drained(*self);
                self.lemma_wf();
                lemma_inflate(before);
                assert(out@ =~= prior + before.out.skip(first as int));
            }
            let before_remaining: usize = self.remaining_input().len();
            let ghost before_unread = self.unread();
            let nothing: Vec<u8> = Vec::new();
            let ghost limit = self.consumed() + MAX_INTERNAL_BUFFER as nat;
            proof {
                assert(before.push(byte_bits(nothing@)).bits =~= before.bits);
                lemma_run(before, limit);
                lemma_run_smaller(before, limit);
                assert(out@ =~= (prior + goal.0.out.skip(first as int)).take(out@.len() as int));
            }
            if self.is_finished() {
                proof {
                    lemma_one_step(before, limit);
                }
                break;
            }
            let ghost whole = prior + goal.0.out.skip(first as int);
            if let Err(e) = self.feed(nothing.as_slice()) {
                proof {
                    assert(self.produced() == goal.0.out);
                    assert(self.consumed() == before.out.len());
                    assert(before.out == goal.0.out.take(before.out.len() as int));
                    assert(out@ + self.waiting() =~= whole);
                }
                return Err(e);
            }
            proof {
                self.lemma_wf();
                assert(self.produced().subrange(first as int, self.consumed() as int)
                    =~= before.out.skip(first as int));
            }
            // A `feed` may produce the final block's output and finish in the
            // same call: loop back to collect that output.
            if self.output().len() == 0 && self.remaining_input().len() == before_remaining
                && !self.is_finished() {
                proof {
                    assert(out@ =~= prior + self.machine().out.skip(first as int));
                }
                break;
            }
            proof {
                if self.machine() == before {
                    lemma_byte_bits_len(self.unread());
                    lemma_byte_bits_len(before_unread);
                }
            }
        }
        Ok(())
    }

    /// Take steps until one cannot be taken or the output is full.
    fn drive(&mut self) -> (r: Result<(), Error>)
        requires
            old(self).wf(),
            !old(self).failed(),
        ensures
            final(self).wf(),
            final(self).consumed() == old(self).consumed(),
            ({
                let (reached, stop) = run(
                    old(self).machine(),
                    old(self).consumed() + MAX_INTERNAL_BUFFER as nat,
                );
                match stop {
                    Stop::Fail(fault) => {
                        &&& r matches Err(e) && e@ == fault
                        &&& final(self).fault() == Some(fault)
                        &&& final(self).produced() == reached.out
                        &&& final(self).unread() == old(self).unread()
                    },
                    _ => {
                        &&& r is Ok
                        &&& !final(self).failed()
                        &&& final(self).machine() == reached
                    },
                }
            }),
    {
        let ghost m = self.machine();
        let ghost limit = self.consumed() + MAX_INTERNAL_BUFFER as nat;
        let ghost dropped = self.produced@.take(self.produced@.len() - self.output@.len());
        let ghost first = self.output@;
        proof {
            assert(dropped + self.output@ =~= self.produced@);
            if self.finished {
                lemma_one_step(m, limit);
            }
        }
        let mut reader: BitReader<'_> = BitReader::new_seeded(
            self.input.get(),
            self.pending_bit_buffer,
            self.pending_bit_count,
        );
        let mut result: Result<(), Error> = Ok(());
        let mut finished: bool = false;
        loop
            invariant_except_break
                *self == (Decoder {
                    output: self.output,
                    state: self.state,
                    ..*old(self)
                }),
                old(self).wf(),
                result is Ok,
                !finished,
                reader.wf(),
                reader.source() == self.input@,
                self.state.wf(),
                self.state.active(),
                self.drained <= first.len() <= self.output@.len(),
                limit == dropped.len() + self.drained + MAX_INTERNAL_BUFFER,
                dropped.len() == 0 || self.output@.len() >= 32768,
                machine_wf(machine_at(self.state.phase(), reader, dropped + self.output@)),
                run(m, limit) == run(
                    machine_at(self.state.phase(), reader, dropped + self.output@),
                    limit,
                ),
            ensures
                *self == (Decoder {
                    output: self.output,
                    state: self.state,
                    ..*old(self)
                }),
                reader.wf(),
                reader.source() == self.input@,
                self.state.wf(),
                self.drained <= first.len() <= self.output@.len(),
                dropped.len() == 0 || self.output@.len() >= 32768,
                match run(m, limit).1 {
                    Stop::Fail(fault) => {
                        &&& result matches Err(e) && e@ == fault
                        &&& self.state.fault() == Some(fault)
                        &&& run(m, limit).0.out == dropped + self.output@
                    },
                    _ => {
                        &&& result is Ok
                        &&& self.state.active()
                        &&& run(m, limit).0 == machine_at(
                            self.state.phase(),
                            reader,
                            dropped + self.output@,
                        )
                        &&& machine_wf(run(m, limit).0)
                        &&& finished == (run(m, limit).1 is Finished)
                    },
                },
            decreases reader.bits().len(), rank(self.state.phase()),
        {
            match step(
                &mut reader,
                &mut self.state,
                &mut self.output,
                self.drained,
                Ghost(dropped),
                Ghost(limit),
            ) {
                Ok(StepOutcome::Progress) => {},
                Ok(StepOutcome::NeedMoreBytes) => {
                    break;
                },
                Ok(StepOutcome::Yield) => {
                    break;
                },
                Ok(StepOutcome::Finished) => {
                    finished = true;
                    break;
                },
                Err(e) => {
                    result = Err(e);
                    break;
                },
            }
        }
        proof {
            self.produced@ = dropped + self.output@;
        }
        assert(self.output@ =~= self.produced@.skip(self.produced@.len() - self.output@.len()));
        if result.is_err() {
            return result;
        }
        let consumed: usize = reader.committed_bytes();
        self.pending_bit_buffer = reader.residual_bit_buffer();
        self.pending_bit_count = reader.residual_bit_count();
        proof {
            reader.lemma_bits();
            assert(reader.bits() =~= reader.bits().take(reader.held() as int)
                + reader.bits().skip(reader.held() as int));
            lemma_run(m, limit);
        }
        self.input.advance(consumed);
        if finished {
            self.finished = true;
        }
        Ok(())
    }
}

} // verus!
