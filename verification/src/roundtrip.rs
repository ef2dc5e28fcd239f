//! What an encoder writes, a decoder reads back.

use crate::bits::{
    byte_bits, from_bits, lemma_byte_bits_concat, lemma_byte_bits_len, lemma_byte_bits_skip,
    lemma_first_byte, lemma_from_to_bits_fit, lemma_le_value, lemma_le_value_2, lemma_to_bits_len,
    padded, padding, to_bits, zeros,
};
use crate::block::{
    all_runs_ok, at_least, block, closed, distance_count, distance_frequencies, distance_len,
    distance_symbol, dynamic_bits, dynamic_distance, dynamic_literal, element_bits, elements_bits,
    extra_bits, fixed_bits, front_run, has_distance, has_pointer, header_bits, le16,
    lemma_distance_count, lemma_front_run, lemma_literal_count, lemma_order_len, lemma_run_count,
    lemma_runs_ok, lemma_used_len_rest, length_symbol, literal_count, literal_frequencies,
    literal_len, literal_symbol_of, order_len, plain_run, repeat_run, run_codes, run_count,
    run_frequencies, run_ok, run_widths, runs, stored, stored_piece, symbols_bits, table_runs,
    tables_bits, token_bits, width_bits, zero_run, BlockKind, RunCode,
};
use crate::canonical::{
    code_bits, count, decode_symbol, first_code, lemma_decode_symbol, lemma_max_width, peek_width,
    prefix_free, used, Decoded,
};
use crate::huffman::table_fault;
use crate::inflate::{
    after_symbol, behind_block, copied, distance_peek, inflate, lemma_copied, lemma_end_peek,
    lemma_fixed_tables, lemma_step_wf, lemma_table_ok, literal_peek, next_element, reference_step,
    repeated, step, wf, Element, Machine, Phase, Step,
};
use crate::lz77::{
    codes_ok, encodable, expand, lemma_encodable, lemma_expand_behind, lemma_tokens,
    lemma_tokens_len, tokens, Lz77Code,
};
use crate::package_merge::{lemma_limited_widths, lemma_used_count};
use crate::symbol::{
    distance_index, fixed_distance_lengths, fixed_literal_lengths, lemma_distance_index,
    lemma_length_index, length_index, BITWIDTH_CODE_ORDER, DISTANCE_TABLE, LENGTH_TABLE,
};
use vstd::arithmetic::power2::lemma2_to64;
use vstd::prelude::*;

verus! {

/// A machine before a block, with these bits to come.
pub open spec fn before_block(out: Seq<u8>, bits: Seq<bool>) -> Machine {
    Machine { phase: Phase::Header, out, bits, held: bits.len() % 8 }
}

/// Before and behind blocks, as many bits are held as there are beyond whole
/// bytes.
proof fn lemma_held(m: Machine)
    requires
        wf(m),
        m.phase is Header || m.phase is Done,
    ensures
        m.held == m.bits.len() % 8,
{
}

/// A step does not change what comes of the bits.
proof fn lemma_take_step(m: Machine)
    requires
        wf(m),
        step(m) is Next,
    ensures
        inflate(m) == inflate(step(m)->Next_0),
        wf(step(m)->Next_0),
{
    reveal(inflate);
    lemma_step_wf(m);
}

/// Read the header of a block.
proof fn lemma_read_header(m: Machine, last: bool, kind: nat, rest: Seq<bool>) -> (n: Machine)
    requires
        wf(m),
        m.phase is Header,
        m.bits == header_bits(last, kind) + rest,
        kind <= 2,
    ensures
        inflate(m) == inflate(n),
        wf(n),
        step(m) == Step::Next(n),
        n.out == m.out,
        n.bits == rest,
        kind == 0 ==> n.phase == (Phase::StoredLength { last }),
        kind == 1 ==> n.phase == (Phase::Symbols {
            last,
            literal: crate::symbol::fixed_literal_lengths(),
            distance: crate::symbol::fixed_distance_lengths(),
        }),
        kind == 2 ==> n.phase == (Phase::TableHeader { last }),
{
    lemma2_to64();
    lemma_to_bits_len(kind, 2);
    lemma_from_to_bits_fit(kind, 2);
    assert(m.bits.skip(1).take(2) =~= to_bits(kind, 2));
    assert(m.bits.skip(3) =~= rest);
    lemma_take_step(m);
    step(m)->Next_0
}

/// Read the bytes of a stored block.
proof fn lemma_read_stored_body(m: Machine, piece: Seq<u8>, last: bool, rest: Seq<bool>) -> (n:
    Machine)
    requires
        wf(m),
        m.phase == (Phase::StoredBody { remaining: piece.len(), last }),
        m.bits == byte_bits(piece) + rest,
    ensures
        inflate(m) == inflate(n),
        wf(n),
        n.phase == behind_block(last),
        n.out == m.out + piece,
        n.bits == rest,
    decreases piece.len(),
{
    lemma_byte_bits_len(piece);
    if piece.len() == 0 {
        assert(m.bits.skip(0) =~= rest);
        assert(m.out + piece =~= m.out);
        lemma_take_step(m);
        step(m)->Next_0
    } else {
        lemma_first_byte(piece);
        lemma_byte_bits_skip(piece, 1);
        assert(m.bits.take(8) =~= byte_bits(piece).take(8));
        assert(m.bits.skip(8) =~= byte_bits(piece.skip(1)) + rest);
        lemma_take_step(m);
        let k = step(m)->Next_0;
        assert(k.out == m.out.push(piece[0]));
        let n = lemma_read_stored_body(k, piece.skip(1), last, rest);
        assert(m.out.push(piece[0]) + piece.skip(1) =~= m.out + piece);
        n
    }
}

/// The bits that a stored block adds to a stream.
spec fn stored_piece_bits(at: nat, piece: Seq<u8>, last: bool) -> Seq<bool> {
    header_bits(last, 0) + zeros(padding(at + 3)) + byte_bits(
        le16(piece.len()) + le16((0xffff - piece.len()) as nat) + piece,
    )
}

proof fn lemma_stored_piece_bits(stream: Seq<bool>, piece: Seq<u8>, last: bool)
    ensures
        stored_piece(stream, piece, last) == stream + stored_piece_bits(
            stream.len(),
            piece,
            last,
        ),
{
    lemma_to_bits_len(0, 2);
    assert(stored_piece(stream, piece, last) =~= stream + stored_piece_bits(
        stream.len(),
        piece,
        last,
    ));
}

proof fn lemma_le16(v: nat)
    requires
        v <= 0xffff,
    ensures
        from_bits(byte_bits(le16(v))) == v,
        byte_bits(le16(v)).len() == 16,
{
    lemma_le_value(le16(v));
    lemma_le_value_2(le16(v));
    lemma_byte_bits_len(le16(v));
}

/// Read the length of a stored block.
proof fn lemma_read_stored_length(
    m: Machine,
    pad: nat,
    piece: Seq<u8>,
    last: bool,
    rest: Seq<bool>,
) -> (n: Machine)
    requires
        wf(m),
        m.phase == (Phase::StoredLength { last }),
        piece.len() <= 0xffff,
        m.bits == zeros(pad) + (byte_bits(le16(piece.len())) + byte_bits(
            le16((0xffff - piece.len()) as nat),
        ) + (byte_bits(piece) + rest)),
        m.bits.len() % 8 == pad,
    ensures
        inflate(m) == inflate(n),
        wf(n),
        n.phase == (Phase::StoredBody { remaining: piece.len(), last }),
        n.out == m.out,
        n.bits == byte_bits(piece) + rest,
{
    let len = piece.len();
    let nlen = (0xffff - piece.len()) as nat;
    lemma_le16(len);
    lemma_le16(nlen);
    let tail = byte_bits(piece) + rest;
    assert(m.bits.skip(pad as int).take(16) =~= byte_bits(le16(len)));
    assert(m.bits.skip(pad as int + 16).take(16) =~= byte_bits(le16(nlen)));
    assert(m.bits.skip(pad as int + 32) =~= tail);
    lemma_take_step(m);
    step(m)->Next_0
}

/// A stream that ends at a byte boundary does so counted from behind a padding.
proof fn lemma_behind_padding(at: nat, n: nat)
    requires
        (at + 3 + padding(at + 3) + n) % 8 == 0,
    ensures
        n % 8 == 0,
        padding(at + 3) < 8,
        (padding(at + 3) + n) % 8 == padding(at + 3),
{
}

/// Read a stored block.
#[verifier::spinoff_prover]
#[verifier::rlimit(60)]
proof fn lemma_read_stored_piece(
    at: nat,
    out: Seq<u8>,
    piece: Seq<u8>,
    last: bool,
    rest: Seq<bool>,
)
    requires
        piece.len() <= 0xffff,
        (at + stored_piece_bits(at, piece, last).len() + rest.len()) % 8 == 0,
    ensures
        ({
            let m = before_block(out, stored_piece_bits(at, piece, last) + rest);
            let n = Machine {
                phase: behind_block(last),
                out: out + piece,
                bits: rest,
                held: rest.len() % 8,
            };
            inflate(m) == inflate(n) && wf(n)
        }),
{
    let all = stored_piece_bits(at, piece, last);
    let m = before_block(out, all + rest);
    let pad = padding(at + 3);
    let len = piece.len();
    let nlen = (0xffff - piece.len()) as nat;
    let body = byte_bits(le16(len) + le16(nlen) + piece);
    let tail = zeros(pad) + (byte_bits(le16(len)) + byte_bits(le16(nlen)) + (byte_bits(piece)
        + rest));
    assert(body == byte_bits(le16(len)) + byte_bits(le16(nlen)) + byte_bits(piece)) by {
        lemma_byte_bits_concat(le16(len) + le16(nlen), piece);
        lemma_byte_bits_concat(le16(len), le16(nlen));
    }
    assert(m.bits =~= header_bits(last, 0) + tail);
    assert(tail.len() % 8 == pad) by {
        lemma_to_bits_len(0, 2);
        lemma_le16(len);
        lemma_le16(nlen);
        lemma_byte_bits_len(piece);
        assert(all.len() == 3 + pad + body.len());
        lemma_behind_padding(at, body.len() + rest.len());
    }
    let k = lemma_read_header(m, last, 0, tail);
    let b = lemma_read_stored_length(k, pad, piece, last, rest);
    let n = lemma_read_stored_body(b, piece, last, rest);
    lemma_held(n);
}

/// The bits that stored blocks add to a stream.
proof fn lemma_stored_adds(stream: Seq<bool>, chunk: Seq<u8>, last: bool)
    ensures
        stream.len() <= stored(stream, chunk, last).len(),
        stored(stream, chunk, last).take(stream.len() as int) == stream,
    decreases chunk.len(),
{
    if chunk.len() <= 0xffff {
        lemma_stored_piece_bits(stream, chunk, last);
        assert(stored(stream, chunk, last).take(stream.len() as int) =~= stream);
    } else {
        let next = stored_piece(stream, chunk.take(0xffff), false);
        lemma_stored_piece_bits(stream, chunk.take(0xffff), false);
        lemma_stored_adds(next, chunk.skip(0xffff), last);
        let all = stored(stream, chunk, last);
        assert(all.take(stream.len() as int) =~= all.take(next.len() as int).take(
            stream.len() as int,
        ));
        assert(next.take(stream.len() as int) =~= stream);
    }
}

/// Read stored blocks.
proof fn lemma_read_stored(
    stream: Seq<bool>,
    out: Seq<u8>,
    chunk: Seq<u8>,
    last: bool,
    rest: Seq<bool>,
)
    requires
        (stored(stream, chunk, last).len() + rest.len()) % 8 == 0,
    ensures
        ({
            let more = stored(stream, chunk, last).skip(stream.len() as int);
            let m = before_block(out, more + rest);
            let n = Machine {
                phase: behind_block(last),
                out: out + chunk,
                bits: rest,
                held: rest.len() % 8,
            };
            inflate(m) == inflate(n) && wf(n)
        }),
    decreases chunk.len(),
{
    let all = stored(stream, chunk, last);
    if chunk.len() <= 0xffff {
        lemma_stored_piece_bits(stream, chunk, last);
        assert(all.skip(stream.len() as int) =~= stored_piece_bits(stream.len(), chunk, last));
        lemma_read_stored_piece(stream.len(), out, chunk, last, rest);
    } else {
        let piece = chunk.take(0xffff);
        let next = stored_piece(stream, piece, false);
        let more = all.skip(next.len() as int);
        lemma_stored_piece_bits(stream, piece, false);
        lemma_stored_adds(next, chunk.skip(0xffff), last);
        assert(all =~= next + more);
        assert(all.skip(stream.len() as int) + rest =~= stored_piece_bits(
            stream.len(),
            piece,
            false,
        ) + (more + rest));
        lemma_read_stored_piece(stream.len(), out, piece, false, more + rest);
        lemma_read_stored(next, out + piece, chunk.skip(0xffff), last, rest);
        assert(out + piece + chunk.skip(0xffff) =~= out + chunk);
    }
}

// ---------------------------------------------------------------------------
// Symbols
// ---------------------------------------------------------------------------

/// The symbols of a token have codes.
pub open spec fn coded(code: Lz77Code, literal: Seq<u8>, distance: Seq<u8>) -> bool {
    &&& literal_symbol_of(code) < literal.len()
    &&& literal[literal_symbol_of(code) as int] > 0
    &&& code matches Lz77Code::Pointer { distance: far, .. } ==> {
        let d = distance_symbol(far as nat).code;
        d < distance.len() && distance[d as int] > 0
    }
}

/// Tables that a block can be written with.
pub open spec fn tables_ready(literal: Seq<u8>, distance: Seq<u8>) -> bool {
    &&& table_fault(literal) is None
    &&& table_fault(distance) is None
    &&& literal.len() > 256
    &&& literal[256] > 0
}

proof fn lemma_code_bits_len(l: Seq<u8>, s: nat)
    ensures
        code_bits(l, s).len() == l[s as int],
{
    lemma_to_bits_len(crate::canonical::word(l, s), l[s as int] as nat);
}

/// There is always room to look for the end of a block.
proof fn lemma_symbols_len(codes: Seq<Lz77Code>, literal: Seq<u8>, distance: Seq<u8>)
    ensures
        symbols_bits(codes, literal, distance).len() >= literal[256],
    decreases codes.len(),
{
    if codes.len() == 0 {
        lemma_code_bits_len(literal, 256);
    } else {
        lemma_symbols_len(codes.skip(1), literal, distance);
    }
}

/// Decode a symbol that the bits begin with.
proof fn lemma_read_code(l: Seq<u8>, peek: nat, s: nat, bits: Seq<bool>, rest: Seq<bool>)
    requires
        table_fault(l) is None,
        s < l.len(),
        l[s as int] > 0,
        1 <= peek <= 15,
        bits == code_bits(l, s) + rest,
        bits.len() >= peek,
    ensures
        decode_symbol(l, peek, bits) == Decoded::Symbol(s),
        bits.skip(l[s as int] as int) == rest,
        l[s as int] <= bits.len(),
{
    lemma_code_bits_len(l, s);
    assert(bits.take(l[s as int] as int) =~= code_bits(l, s));
    assert(bits.skip(l[s as int] as int) =~= rest);
    lemma_decode_symbol(l, peek, bits, s);
}

/// Read a literal byte or the end of a block.
proof fn lemma_read_plain(
    m: Machine,
    last: bool,
    literal: Seq<u8>,
    distance: Seq<u8>,
    s: nat,
    rest: Seq<bool>,
) -> (n: Machine)
    requires
        wf(m),
        m.phase == (Phase::Symbols { last, literal, distance }),
        tables_ready(literal, distance),
        s <= 256,
        literal[s as int] > 0,
        m.bits == code_bits(literal, s) + rest,
        m.bits.len() >= literal[256],
    ensures
        inflate(m) == inflate(n),
        wf(n),
        n.bits == rest,
        s <= 255 ==> n.phase == m.phase && n.out == m.out.push(s as u8),
        s == 256 ==> n.phase == behind_block(last) && n.out == m.out,
{
    lemma_end_peek(literal);
    lemma_table_ok(literal, None, Some(256));
    lemma_read_code(literal, literal_peek(literal), s, m.bits, rest);
    lemma_take_step(m);
    step(m)->Next_0
}

/// A match length can be told from its symbol and its extra bits, which say how
/// far it is from the base of the symbol.
pub proof fn lemma_length_extra(length: nat)
    requires
        3 <= length <= 258,
    ensures
        ({
            let s = length_symbol(length);
            let (base, bits) = LENGTH_TABLE@[s.code - 257];
            &&& 257 <= s.code <= 285
            &&& extra_bits(s.extra).len() == bits
            &&& base + from_bits(extra_bits(s.extra)) == length
        }),
{
    lemma_length_index(length);
    let index = length_index(length);
    let (base, bits) = LENGTH_TABLE@[index as int];
    let value = (length - base) as nat;
    lemma_to_bits_len(value, bits as nat);
    lemma_from_to_bits_fit(value, bits as nat);
    lemma2_to64();
}

/// A distance can be told from its symbol and its extra bits, which say how far
/// it is from the base of the symbol.
pub proof fn lemma_distance_extra(distance: nat)
    requires
        1 <= distance <= 32768,
    ensures
        ({
            let s = distance_symbol(distance);
            let (base, bits) = DISTANCE_TABLE@[s.code as int];
            &&& s.code < 30
            &&& extra_bits(s.extra).len() == bits
            &&& base + from_bits(extra_bits(s.extra)) == distance
        }),
{
    lemma_distance_index(distance);
    let index = distance_index(distance);
    let (base, bits) = DISTANCE_TABLE@[index as int];
    let value = (distance - base) as nat;
    lemma_to_bits_len(value, bits as nat);
    lemma_from_to_bits_fit(value, bits as nat);
    lemma2_to64();
}

/// Read the rest of a back-reference whose length symbol was read.
#[verifier::spinoff_prover]
#[verifier::rlimit(60)]
proof fn lemma_read_reference(
    m: Machine,
    last: bool,
    literal: Seq<u8>,
    distance: Seq<u8>,
    w: nat,
    held: nat,
    length: nat,
    far: nat,
    rest: Seq<bool>,
)
    requires
        tables_ready(literal, distance),
        3 <= length <= 258,
        1 <= far <= 32768,
        far <= m.out.len(),
        distance_symbol(far).code < distance.len(),
        distance[distance_symbol(far).code as int] > 0,
        w <= m.bits.len(),
        m.bits.skip(w as int) == extra_bits(length_symbol(length).extra) + (code_bits(
            distance,
            distance_symbol(far).code as nat,
        ) + (extra_bits(distance_symbol(far).extra) + rest)),
        rest.len() >= literal[256],
    ensures
        ({
            let r = reference_step(
                m,
                last,
                literal,
                distance,
                length_symbol(length).code as nat,
                w,
                held,
            );
            &&& r is Next
            &&& r->Next_0.phase == (Phase::Symbols { last, literal, distance })
            &&& r->Next_0.out == copied(m.out, far, length)
            &&& r->Next_0.bits == rest
        }),
{
    let e1 = extra_bits(length_symbol(length).extra);
    let d = distance_symbol(far).code as nat;
    let e2 = extra_bits(distance_symbol(far).extra);
    let dw = distance[d as int] as nat;
    lemma_length_extra(length);
    lemma_distance_extra(far);
    let n1 = e1.len();
    let n2 = e2.len();
    let b1 = m.bits.skip(w as int);
    let b2 = code_bits(distance, d) + (e2 + rest);
    assert(b1.take(n1 as int) =~= e1);
    assert(m.bits.skip((w + n1) as int) =~= b1.skip(n1 as int));
    assert(b1.skip(n1 as int) =~= b2);
    let peek = distance_peek(literal, distance);
    lemma_end_peek(literal);
    lemma_table_ok(literal, None, Some(256));
    lemma_table_ok(distance, Some(literal_peek(literal)), None);
    lemma_read_code(distance, peek, d, b2, e2 + rest);
    let at = w + n1 + dw;
    assert(m.bits.skip(at as int) =~= b2.skip(dw as int));
    assert((e2 + rest).take(n2 as int) =~= e2);
    assert(m.bits.skip((at + n2) as int) =~= (e2 + rest).skip(n2 as int));
    assert((e2 + rest).skip(n2 as int) =~= rest);
}

/// Read a back-reference.
#[verifier::spinoff_prover]
#[verifier::rlimit(100)]
proof fn lemma_read_pointer(
    m: Machine,
    last: bool,
    literal: Seq<u8>,
    distance: Seq<u8>,
    code: Lz77Code,
    rest: Seq<bool>,
) -> (n: Machine)
    requires
        wf(m),
        m.phase == (Phase::Symbols { last, literal, distance }),
        tables_ready(literal, distance),
        coded(code, literal, distance),
        encodable(code),
        code matches Lz77Code::Pointer { distance: far, .. } && far <= m.out.len(),
        m.bits == token_bits(code, literal, distance) + rest,
        rest.len() >= literal[256],
    ensures
        inflate(m) == inflate(n),
        wf(n),
        n.phase == m.phase,
        n.bits == rest,
        code matches Lz77Code::Pointer { length, distance: far } && n.out == copied(
            m.out,
            far as nat,
            length as nat,
        ),
{
    let length = code->length as nat;
    let far = code->distance as nat;
    let s = length_symbol(length).code as nat;
    let d = distance_symbol(far).code as nat;
    let tail = extra_bits(length_symbol(length).extra) + (code_bits(distance, d) + (extra_bits(
        distance_symbol(far).extra,
    ) + rest));
    assert(m.bits =~= code_bits(literal, s) + tail);
    lemma_length_extra(length);
    lemma_end_peek(literal);
    lemma_table_ok(literal, None, Some(256));
    lemma_read_code(literal, literal_peek(literal), s, m.bits, tail);
    let w = literal[s as int] as nat;
    lemma_read_reference(
        m,
        last,
        literal,
        distance,
        w,
        after_symbol(m.held, literal_peek(literal), w),
        length,
        far,
        rest,
    );
    lemma_take_step(m);
    step(m)->Next_0
}

/// Read the symbols of a block.
#[verifier::spinoff_prover]
#[verifier::rlimit(40)]
proof fn lemma_read_symbols(
    m: Machine,
    last: bool,
    literal: Seq<u8>,
    distance: Seq<u8>,
    codes: Seq<Lz77Code>,
    rest: Seq<bool>,
) -> (n: Machine)
    requires
        wf(m),
        m.phase == (Phase::Symbols { last, literal, distance }),
        tables_ready(literal, distance),
        forall|i: int| 0 <= i < codes.len() ==> coded(#[trigger] codes[i], literal, distance),
        codes_ok(codes, m.out.len()),
        m.bits == symbols_bits(codes, literal, distance) + rest,
    ensures
        inflate(m) == inflate(n),
        wf(n),
        n.phase == behind_block(last),
        n.out == expand(m.out, codes),
        n.bits == rest,
    decreases codes.len(),
{
    lemma_symbols_len(codes, literal, distance);
    if codes.len() == 0 {
        lemma_read_plain(m, last, literal, distance, 256, rest)
    } else {
        let code = codes[0];
        let more = symbols_bits(codes.skip(1), literal, distance) + rest;
        lemma_symbols_len(codes.skip(1), literal, distance);
        assert(coded(codes[0], literal, distance));
        assert(m.bits =~= token_bits(code, literal, distance) + more);
        assert forall|i: int| 0 <= i < codes.skip(1).len() implies coded(
            #[trigger] codes.skip(1)[i],
            literal,
            distance,
        ) by {
            assert(codes.skip(1)[i] == codes[i + 1]);
        }
        match code {
            Lz77Code::Literal(byte) => {
                let k = lemma_read_plain(m, last, literal, distance, byte as nat, more);
                lemma_read_symbols(k, last, literal, distance, codes.skip(1), rest)
            },
            Lz77Code::Pointer { length, distance: far } => {
                let k = lemma_read_pointer(m, last, literal, distance, code, more);
                lemma_copied(m.out, far as nat, length as nat);
                lemma_read_symbols(k, last, literal, distance, codes.skip(1), rest)
            },
        }
    }
}

// ---------------------------------------------------------------------------
// Tables
// ---------------------------------------------------------------------------

/// Symbols without codes at the end of an alphabet change no code.
proof fn lemma_same_counts(l: Seq<u8>, h: nat, w: nat, n: nat)
    requires
        h <= l.len(),
        n <= h,
    ensures
        count(l.take(h as int), w, n) == count(l, w, n),
    decreases n,
{
    if n > 0 {
        lemma_same_counts(l, h, w, (n - 1) as nat);
    }
}

proof fn lemma_no_more_counts(l: Seq<u8>, h: nat, w: nat, n: nat)
    requires
        w >= 1,
        h <= n <= l.len(),
        forall|i: int| h <= i < l.len() ==> #[trigger] l[i] == 0,
    ensures
        count(l, w, n) == count(l, w, h),
    decreases n,
{
    if n > h {
        lemma_no_more_counts(l, h, w, (n - 1) as nat);
        assert(l[n - 1] == 0);
    }
}

proof fn lemma_same_first_code(l: Seq<u8>, h: nat, w: nat)
    requires
        h <= l.len(),
        forall|i: int| h <= i < l.len() ==> #[trigger] l[i] == 0,
    ensures
        first_code(l.take(h as int), w) == first_code(l, w),
        w >= 1 ==> used(l.take(h as int), w) == used(l, w),
    decreases w,
{
    if w >= 1 {
        lemma_same_counts(l, h, w, h);
        lemma_no_more_counts(l, h, w, l.len());
        lemma_same_first_code(l, h, (w - 1) as nat);
    }
}

/// Cutting off symbols that have no codes keeps the codes of the others.
proof fn lemma_same_codes(l: Seq<u8>, h: nat, s: nat)
    requires
        s < h <= l.len(),
        forall|i: int| h <= i < l.len() ==> #[trigger] l[i] == 0,
    ensures
        code_bits(l.take(h as int), s) == code_bits(l, s),
{
    let w = l[s as int] as nat;
    lemma_same_first_code(l, h, w);
    lemma_same_counts(l, h, w, s);
}

/// A table with a code that can be decoded stays one.
proof fn lemma_cut_table(l: Seq<u8>, h: nat, s: nat)
    requires
        s < h <= l.len(),
        l[s as int] > 0,
        prefix_free(l),
        forall|i: int| h <= i < l.len() ==> #[trigger] l[i] == 0,
    ensures
        table_fault(l.take(h as int)) is None,
{
    let t = l.take(h as int);
    lemma_same_first_code(l, h, 15);
    lemma_max_width(t);
    assert(t[s as int] == l[s as int]);
    assert forall|i: int| 0 <= i < t.len() implies #[trigger] t[i] <= 15 by {
        assert(t[i] == l[i]);
    }
}

/// Read the sizes of the tables.
proof fn lemma_read_table_header(
    m: Machine,
    last: bool,
    hlit: nat,
    hdist: nat,
    hclen: nat,
    rest: Seq<bool>,
) -> (n: Machine)
    requires
        wf(m),
        m.phase == (Phase::TableHeader { last }),
        257 <= hlit <= 288,
        1 <= hdist <= 30,
        4 <= hclen <= 19,
        m.bits == to_bits((hlit - 257) as nat, 5) + (to_bits((hdist - 1) as nat, 5) + (to_bits(
            (hclen - 4) as nat,
            4,
        ) + rest)),
    ensures
        inflate(m) == inflate(n),
        wf(n),
        n.phase == (Phase::WidthTable {
            last,
            hlit,
            hdist,
            hclen,
            read: 0,
            widths: repeated(0, 19),
        }),
        n.out == m.out,
        n.bits == rest,
{
    let a = to_bits((hlit - 257) as nat, 5);
    let b = to_bits((hdist - 1) as nat, 5);
    let c = to_bits((hclen - 4) as nat, 4);
    lemma2_to64();
    lemma_to_bits_len((hlit - 257) as nat, 5);
    lemma_to_bits_len((hdist - 1) as nat, 5);
    lemma_to_bits_len((hclen - 4) as nat, 4);
    lemma_from_to_bits_fit((hlit - 257) as nat, 5);
    lemma_from_to_bits_fit((hdist - 1) as nat, 5);
    lemma_from_to_bits_fit((hclen - 4) as nat, 4);
    assert(m.bits.take(5) =~= a);
    assert(m.bits.skip(5).take(5) =~= b);
    assert(m.bits.skip(10).take(4) =~= c);
    assert(m.bits.skip(14) =~= rest);
    lemma_take_step(m);
    step(m)->Next_0
}

/// At which place of the order in which they are sent a width is.
spec fn place_of(slot: int) -> int {
    seq![3int, 17, 15, 13, 11, 9, 7, 5, 4, 6, 8, 10, 12, 14, 16, 18, 0, 1, 2][slot]
}

proof fn lemma_order()
    ensures
        forall|k: int|
            0 <= k < 19 ==> 0 <= #[trigger] BITWIDTH_CODE_ORDER@[k] < 19 && place_of(
                BITWIDTH_CODE_ORDER@[k] as int,
            ) == k,
        forall|slot: int|
            0 <= slot < 19 ==> 0 <= #[trigger] place_of(slot) < 19 && BITWIDTH_CODE_ORDER@[place_of(
                slot,
            )] == slot,
{
}

/// The widths of which the first `read` are known.
spec fn widths_read(partial: Seq<u8>, widths: Seq<u8>, read: nat) -> bool {
    &&& partial.len() == 19
    &&& widths.len() == 19
    &&& forall|slot: int|
        0 <= slot < 19 ==> #[trigger] partial[slot] == if place_of(slot) < read {
            widths[slot]
        } else {
            0
        }
}

/// Behind the last place that is sent all widths are zero.
proof fn lemma_order_rest(widths: Seq<u8>, n: nat, k: int)
    requires
        order_len(widths, n) <= k < n <= 19,
    ensures
        widths[BITWIDTH_CODE_ORDER@[k] as int] == 0,
    decreases n,
{
    if k < n - 1 {
        lemma_order_rest(widths, (n - 1) as nat, k);
    }
}

/// Read the widths of the code-length alphabet.
#[verifier::spinoff_prover]
#[verifier::rlimit(40)]
proof fn lemma_read_widths(
    m: Machine,
    last: bool,
    hlit: nat,
    hdist: nat,
    hclen: nat,
    read: nat,
    partial: Seq<u8>,
    widths: Seq<u8>,
    rest: Seq<bool>,
) -> (n: Machine)
    requires
        wf(m),
        m.phase == (Phase::WidthTable { last, hlit, hdist, hclen, read, widths: partial }),
        read <= hclen <= 19,
        widths_read(partial, widths, read),
        forall|i: int| 0 <= i < 19 ==> #[trigger] widths[i] <= 7,
        order_len(widths, 19) <= hclen,
        table_fault(widths) is None,
        m.bits == width_bits(widths, read, hclen) + rest,
    ensures
        inflate(m) == inflate(n),
        wf(n),
        n.phase == (Phase::CodeLengths { last, hlit, hdist, widths, lengths: Seq::empty() }),
        n.out == m.out,
        n.bits == rest,
    decreases hclen - read,
{
    lemma_order();
    if read == hclen {
        assert forall|slot: int| 0 <= slot < 19 implies #[trigger] partial[slot]
            == widths[slot] by {
            let k = place_of(slot);
            if k >= hclen {
                lemma_order_rest(widths, 19, k);
            }
        }
        assert(partial =~= widths);
        assert(m.bits.skip(0) =~= rest);
        lemma_take_step(m);
        step(m)->Next_0
    } else {
        let slot = BITWIDTH_CODE_ORDER@[read as int] as int;
        let width = widths[slot];
        let more = width_bits(widths, read + 1, hclen) + rest;
        lemma2_to64();
        lemma_to_bits_len(width as nat, 3);
        lemma_from_to_bits_fit(width as nat, 3);
        assert(m.bits.take(3) =~= to_bits(width as nat, 3));
        assert(m.bits.skip(3) =~= more);
        let next = partial.update(slot, width);
        assert forall|t: int| 0 <= t < 19 implies #[trigger] next[t] == if place_of(t) < read + 1 {
            widths[t]
        } else {
            0
        } by {
            if t != slot {
                assert(next[t] == partial[t]);
                assert(BITWIDTH_CODE_ORDER@[place_of(t)] == t);
            }
        }
        lemma_take_step(m);
        lemma_read_widths(
            step(m)->Next_0,
            last,
            hlit,
            hdist,
            hclen,
            read + 1,
            next,
            widths,
            rest,
        )
    }
}

/// What an element adds to code lengths.
spec fn run_lengths(lengths: Seq<u8>, element: RunCode) -> Seq<u8> {
    if element.symbol <= 15 {
        lengths.push(element.symbol)
    } else if element.symbol == 16 {
        lengths + repeated(lengths.last(), element.extra as nat + 3)
    } else if element.symbol == 17 {
        lengths + repeated(0, element.extra as nat + 3)
    } else {
        lengths + repeated(0, element.extra as nat + 11)
    }
}

/// What elements add to code lengths.
spec fn all_run_lengths(lengths: Seq<u8>, elements: Seq<RunCode>) -> Seq<u8>
    decreases elements.len(),
{
    if elements.len() == 0 {
        lengths
    } else {
        all_run_lengths(run_lengths(lengths, elements[0]), elements.skip(1))
    }
}

/// Only an element that has something before it repeats it.
spec fn repeats_ok(lengths: Seq<u8>, elements: Seq<RunCode>) -> bool
    decreases elements.len(),
{
    elements.len() == 0 || {
        &&& elements[0].symbol == 16 ==> lengths.len() > 0
        &&& repeats_ok(run_lengths(lengths, elements[0]), elements.skip(1))
    }
}

proof fn lemma_run_lengths_grow(lengths: Seq<u8>, elements: Seq<RunCode>)
    ensures
        all_run_lengths(lengths, elements).len() >= lengths.len() + elements.len(),
    decreases elements.len(),
{
    if elements.len() > 0 {
        lemma_run_lengths_grow(run_lengths(lengths, elements[0]), elements.skip(1));
    }
}

/// Read an element.
proof fn lemma_read_element(
    m: Machine,
    widths: Seq<u8>,
    lengths: Seq<u8>,
    element: RunCode,
    rest: Seq<bool>,
)
    requires
        table_fault(widths) is None,
        widths.len() == 19,
        run_ok(element),
        widths[element.symbol as int] > 0,
        element.symbol == 16 ==> lengths.len() > 0,
        m.bits == element_bits(element, widths) + rest,
    ensures
        next_element(m, widths, lengths) matches Element::Lengths { lengths: longer, taken, .. }
            && longer == run_lengths(lengths, element) && m.bits.skip(taken as int) == rest && taken
            <= m.bits.len(),
{
    let s = element.symbol as nat;
    let w = widths[s as int] as nat;
    let extra = to_bits(element.extra as nat, element.extra_bits as nat);
    let peek = peek_width(widths, Some(1), None);
    lemma2_to64();
    lemma_table_ok(widths, Some(1), None);
    lemma_code_bits_len(widths, s);
    lemma_to_bits_len(element.extra as nat, element.extra_bits as nat);
    lemma_from_to_bits_fit(element.extra as nat, element.extra_bits as nat);
    assert(m.bits =~= code_bits(widths, s) + (extra + rest));
    lemma_read_code(widths, peek, s, m.bits, extra + rest);
    assert((extra + rest).take(extra.len() as int) =~= extra);
    assert(m.bits.skip((w + extra.len()) as int) =~= rest);
}

/// Read the code lengths of the two other alphabets.
#[verifier::spinoff_prover]
#[verifier::rlimit(40)]
proof fn lemma_read_elements(
    m: Machine,
    last: bool,
    hlit: nat,
    hdist: nat,
    widths: Seq<u8>,
    lengths: Seq<u8>,
    elements: Seq<RunCode>,
    rest: Seq<bool>,
) -> (n: Machine)
    requires
        wf(m),
        m.phase == (Phase::CodeLengths { last, hlit, hdist, widths, lengths }),
        all_runs_ok(elements),
        forall|i: int|
            0 <= i < elements.len() ==> widths[(#[trigger] elements[i]).symbol as int] > 0,
        repeats_ok(lengths, elements),
        all_run_lengths(lengths, elements).len() == hlit + hdist,
        m.bits == elements_bits(elements, widths) + rest,
    ensures
        inflate(m) == inflate(n),
        wf(n),
        n.phase == (Phase::CodeLengths {
            last,
            hlit,
            hdist,
            widths,
            lengths: all_run_lengths(lengths, elements),
        }),
        n.out == m.out,
        n.bits == rest,
    decreases elements.len(),
{
    if elements.len() == 0 {
        assert(m.bits =~= rest);
        m
    } else {
        let more = elements_bits(elements.skip(1), widths) + rest;
        let longer = run_lengths(lengths, elements[0]);
        let tail = elements.skip(1);
        assert(run_ok(elements[0]));
        assert(m.bits =~= element_bits(elements[0], widths) + more);
        lemma_read_element(m, widths, lengths, elements[0], more);
        lemma_run_lengths_grow(lengths, elements);
        lemma_run_lengths_grow(longer, tail);
        assert(step(m) is Next);
        lemma_take_step(m);
        assert forall|i: int| 0 <= i < tail.len() implies run_ok(#[trigger] tail[i])
            && widths[tail[i].symbol as int] > 0 by {
            assert(tail[i] == elements[i + 1]);
        }
        lemma_read_elements(step(m)->Next_0, last, hlit, hdist, widths, longer, tail, rest)
    }
}

/// Elements after elements.
proof fn lemma_run_lengths_concat(lengths: Seq<u8>, a: Seq<RunCode>, b: Seq<RunCode>)
    ensures
        all_run_lengths(lengths, a + b) == all_run_lengths(all_run_lengths(lengths, a), b),
        repeats_ok(lengths, a) && repeats_ok(all_run_lengths(lengths, a), b) ==> repeats_ok(
            lengths,
            a + b,
        ),
    decreases a.len(),
{
    if a.len() == 0 {
        assert(a + b =~= b);
    } else {
        assert((a + b).skip(1) =~= a.skip(1) + b);
        lemma_run_lengths_concat(run_lengths(lengths, a[0]), a.skip(1), b);
    }
}

proof fn lemma_one_element(lengths: Seq<u8>, element: RunCode)
    ensures
        all_run_lengths(lengths, seq![element]) == run_lengths(lengths, element),
        element.symbol == 16 ==> lengths.len() > 0 ==> repeats_ok(lengths, seq![element]),
        element.symbol != 16 ==> repeats_ok(lengths, seq![element]),
{
    assert(seq![element].skip(1) =~= Seq::<RunCode>::empty());
    assert(all_run_lengths(run_lengths(lengths, element), Seq::empty()) == run_lengths(
        lengths,
        element,
    ));
    assert(repeats_ok(run_lengths(lengths, element), Seq::empty()));
}

proof fn lemma_plain_run(lengths: Seq<u8>, value: u8, n: nat)
    requires
        value <= 15,
    ensures
        all_run_lengths(lengths, plain_run(value, n)) == lengths + repeated(value, n),
        repeats_ok(lengths, plain_run(value, n)),
    decreases n,
{
    let run = plain_run(value, n);
    if n == 0 {
        assert(lengths + repeated(value, 0) =~= lengths);
    } else {
        assert(run.skip(1) =~= plain_run(value, (n - 1) as nat));
        lemma_plain_run(lengths.push(value), value, (n - 1) as nat);
        assert(lengths.push(value) + repeated(value, (n - 1) as nat) =~= lengths + repeated(
            value,
            n,
        ));
    }
}

proof fn lemma_zero_run(lengths: Seq<u8>, n: nat)
    ensures
        all_run_lengths(lengths, zero_run(n)) == lengths + repeated(0, n),
        repeats_ok(lengths, zero_run(n)),
    decreases n,
{
    if n >= 138 {
        let first = RunCode { symbol: 18, extra_bits: 7, extra: 127 };
        let longer = lengths + repeated(0, 138);
        lemma_one_element(lengths, first);
        lemma_zero_run(longer, (n - 138) as nat);
        lemma_run_lengths_concat(lengths, seq![first], zero_run((n - 138) as nat));
        assert(longer + repeated(0, (n - 138) as nat) =~= lengths + repeated(0, n));
    } else if n >= 11 {
        lemma_one_element(lengths, RunCode { symbol: 18, extra_bits: 7, extra: (n - 11) as u8 });
    } else if n >= 3 {
        lemma_one_element(lengths, RunCode { symbol: 17, extra_bits: 3, extra: (n - 3) as u8 });
    } else {
        lemma_plain_run(lengths, 0, n);
    }
}

proof fn lemma_repeat_run(lengths: Seq<u8>, value: u8, n: nat)
    requires
        value <= 15,
        lengths.len() > 0,
        lengths.last() == value,
    ensures
        all_run_lengths(lengths, repeat_run(value, n)) == lengths + repeated(value, n),
        repeats_ok(lengths, repeat_run(value, n)),
    decreases n,
{
    if n >= 6 {
        let first = RunCode { symbol: 16, extra_bits: 2, extra: 3 };
        let longer = lengths + repeated(value, 6);
        lemma_one_element(lengths, first);
        lemma_repeat_run(longer, value, (n - 6) as nat);
        lemma_run_lengths_concat(lengths, seq![first], repeat_run(value, (n - 6) as nat));
        assert(longer + repeated(value, (n - 6) as nat) =~= lengths + repeated(value, n));
    } else if n >= 3 {
        lemma_one_element(lengths, RunCode { symbol: 16, extra_bits: 2, extra: (n - 3) as u8 });
    } else {
        lemma_plain_run(lengths, value, n);
    }
}

/// The run-length encoding stands for the lengths.
proof fn lemma_runs(lengths: Seq<u8>, l: Seq<u8>)
    requires
        forall|i: int| 0 <= i < l.len() ==> #[trigger] l[i] <= 15,
    ensures
        all_run_lengths(lengths, runs(l)) == lengths + l,
        repeats_ok(lengths, runs(l)),
    decreases l.len(),
{
    if l.len() == 0 {
        assert(lengths + l =~= lengths);
    } else {
        let value = l[0];
        lemma_front_run(l, value);
        let n = front_run(l, value);
        let rest = l.skip(n as int);
        let longer = lengths + repeated(value, n);
        if value == 0 {
            lemma_zero_run(lengths, n);
        } else {
            let once = lengths + repeated(value, 1);
            lemma_plain_run(lengths, value, 1);
            lemma_repeat_run(once, value, (n - 1) as nat);
            lemma_run_lengths_concat(
                lengths,
                plain_run(value, 1),
                repeat_run(value, (n - 1) as nat),
            );
            assert(once + repeated(value, (n - 1) as nat) =~= longer);
        }
        assert forall|i: int| 0 <= i < rest.len() implies #[trigger] rest[i] <= 15 by {
            assert(rest[i] == l[n + i]);
        }
        lemma_runs(longer, rest);
        lemma_run_lengths_concat(lengths, run_codes(value, n), runs(rest));
        assert(longer + rest =~= lengths + l);
    }
}

proof fn lemma_run_counted(elements: Seq<RunCode>, i: int, n: nat)
    requires
        0 <= i < n <= elements.len(),
    ensures
        1 <= run_count(elements, elements[i].symbol as nat, n) <= n,
    decreases n,
{
    lemma_run_count(elements, elements[i].symbol as nat, n);
    if i < n - 1 {
        lemma_run_counted(elements, i, (n - 1) as nat);
    }
}

/// The codes of the code-length alphabet serve the elements.
proof fn lemma_run_widths(elements: Seq<RunCode>)
    requires
        0 < elements.len() <= usize::MAX,
        all_runs_ok(elements),
    ensures
        ({
            let widths = run_widths(elements);
            &&& widths.len() == 19
            &&& table_fault(widths) is None
            &&& forall|i: int| 0 <= i < 19 ==> #[trigger] widths[i] <= 7
            &&& forall|i: int|
                0 <= i < elements.len() ==> widths[(#[trigger] elements[i]).symbol as int] > 0
        }),
{
    let f = run_frequencies(elements);
    let widths = run_widths(elements);
    lemma2_to64();
    lemma_used_count(f, 19);
    lemma_limited_widths(f, 7);
    assert forall|i: int| 0 <= i < elements.len() implies widths[(
    #[trigger] elements[i]).symbol as int] > 0 by {
        assert(run_ok(elements[i]));
        lemma_run_counted(elements, i, elements.len());
        let s = elements[i].symbol;
        assert(f[s as int] > 0);
    }
    lemma_max_width(widths);
    assert(run_ok(elements[0]));
    assert(widths[elements[0].symbol as int] > 0);
}

proof fn lemma_runs_nonempty(l: Seq<u8>)
    requires
        l.len() > 0,
        forall|i: int| 0 <= i < l.len() ==> #[trigger] l[i] <= 15,
    ensures
        0 < runs(l).len() <= l.len(),
{
    lemma_runs(Seq::empty(), l);
    lemma_run_lengths_grow(Seq::empty(), runs(l));
    assert(Seq::<u8>::empty() + l =~= l);
    if runs(l).len() == 0 {
        assert(all_run_lengths(Seq::<u8>::empty(), runs(l)) =~= Seq::<u8>::empty());
    }
}

/// Read the tables of a block.
#[verifier::spinoff_prover]
#[verifier::rlimit(40)]
proof fn lemma_read_tables(
    m: Machine,
    last: bool,
    literal: Seq<u8>,
    distance: Seq<u8>,
    s: nat,
    rest: Seq<bool>,
) -> (n: Machine)
    requires
        wf(m),
        m.phase == (Phase::TableHeader { last }),
        literal.len() == 286,
        distance.len() == 30,
        prefix_free(literal),
        prefix_free(distance),
        literal[256] > 0,
        s < 30,
        distance[s as int] > 0,
        m.bits == tables_bits(literal, distance) + rest,
    ensures
        inflate(m) == inflate(n),
        wf(n),
        n.phase == (Phase::Symbols {
            last,
            literal: literal.take(literal_len(literal) as int),
            distance: distance.take(distance_len(distance) as int),
        }),
        n.out == m.out,
        n.bits == rest,
        tables_ready(
            literal.take(literal_len(literal) as int),
            distance.take(distance_len(distance) as int),
        ),
{
    let hlit = literal_len(literal);
    let hdist = distance_len(distance);
    let cut = literal.take(hlit as int);
    let dcut = distance.take(hdist as int);
    let sent = cut + dcut;
    let elements = table_runs(literal, distance);
    let widths = run_widths(elements);
    let hclen = at_least(4, order_len(widths, 19));
    lemma_used_len_rest(literal);
    lemma_used_len_rest(distance);
    lemma_cut_table(literal, hlit, 256);
    lemma_cut_table(distance, hdist, s);
    assert forall|i: int| 0 <= i < sent.len() implies #[trigger] sent[i] <= 15 by {
        if i < hlit {
            assert(sent[i] == literal[i]);
        } else {
            assert(sent[i] == distance[i - hlit]);
        }
    }
    lemma_runs_ok(sent);
    lemma_runs_nonempty(sent);
    lemma_runs(Seq::empty(), sent);
    assert(Seq::<u8>::empty() + sent =~= sent);
    lemma_run_widths(elements);
    lemma_order_len(widths, 19);
    let b4 = elements_bits(elements, widths) + rest;
    let b3 = width_bits(widths, 0, hclen) + b4;
    assert(m.bits =~= to_bits((hlit - 257) as nat, 5) + (to_bits((hdist - 1) as nat, 5) + (to_bits(
        (hclen - 4) as nat,
        4,
    ) + b3)));
    let m1 = lemma_read_table_header(m, last, hlit, hdist, hclen, b3);
    assert(widths_read(repeated(0, 19), widths, 0)) by {
        lemma_order();
    }
    let m2 = lemma_read_widths(
        m1,
        last,
        hlit,
        hdist,
        hclen,
        0,
        repeated(0, 19),
        widths,
        b4,
    );
    let m3 = lemma_read_elements(m2, last, hlit, hdist, widths, Seq::empty(), elements, rest);
    assert(sent.take(hlit as int) =~= cut);
    assert(sent.subrange(hlit as int, (hlit + hdist) as int) =~= dcut);
    assert(m3.bits.skip(0) =~= rest);
    lemma_take_step(m3);
    step(m3)->Next_0
}

// ---------------------------------------------------------------------------
// Blocks
// ---------------------------------------------------------------------------

proof fn lemma_literal_counted(codes: Seq<Lz77Code>, i: int, n: nat)
    requires
        0 <= i < n <= codes.len(),
    ensures
        1 <= literal_count(codes, literal_symbol_of(codes[i]), n) <= n,
    decreases n,
{
    lemma_literal_count(codes, literal_symbol_of(codes[i]), n);
    if i < n - 1 {
        lemma_literal_counted(codes, i, (n - 1) as nat);
    }
}

proof fn lemma_distance_counted(codes: Seq<Lz77Code>, i: int, s: nat, n: nat)
    requires
        0 <= i < n <= codes.len(),
        has_distance(codes[i], s),
    ensures
        1 <= distance_count(codes, s, n) <= n,
    decreases n,
{
    lemma_distance_count(codes, s, n);
    if i < n - 1 {
        lemma_distance_counted(codes, i, s, (n - 1) as nat);
    }
}

/// The codes that a block gets serve its tokens. Returns a distance symbol
/// that has a code.
proof fn lemma_dynamic_codes(codes: Seq<Lz77Code>) -> (s: nat)
    requires
        codes.len() <= usize::MAX,
        forall|i: int| 0 <= i < codes.len() ==> encodable(#[trigger] codes[i]),
    ensures
        dynamic_literal(codes).len() == 286,
        dynamic_distance(codes).len() == 30,
        prefix_free(dynamic_literal(codes)),
        prefix_free(dynamic_distance(codes)),
        dynamic_literal(codes)[256] > 0,
        s < 30,
        dynamic_distance(codes)[s as int] > 0,
        forall|i: int|
            0 <= i < codes.len() ==> coded(
                #[trigger] codes[i],
                dynamic_literal(codes),
                dynamic_distance(codes),
            ),
{
    let n = codes.len();
    let lf = literal_frequencies(codes);
    let df = distance_frequencies(codes);
    let literal = dynamic_literal(codes);
    let distance = dynamic_distance(codes);
    lemma2_to64();
    lemma_used_count(lf, 286);
    lemma_used_count(df, 30);
    lemma_limited_widths(lf, 15);
    lemma_limited_widths(df, 15);
    assert(lf[256] > 0);
    assert forall|i: int| 0 <= i < n implies coded(#[trigger] codes[i], literal, distance) by {
        let code = codes[i];
        assert(encodable(code));
        lemma_literal_counted(codes, i, n);
        let s = literal_symbol_of(code);
        if code is Pointer {
            let far = code->distance as nat;
            lemma_length_extra(code->length as nat);
            lemma_distance_extra(far);
            let d = distance_symbol(far).code as nat;
            lemma_distance_counted(codes, i, d, n);
            assert(has_pointer(codes, n));
            assert(df[d as int] > 0);
        }
        assert(lf[s as int] > 0);
    }
    if has_pointer(codes, n) {
        let i = choose|i: int| 0 <= i < n && #[trigger] codes[i] is Pointer;
        assert(encodable(codes[i]));
        assert(coded(codes[i], literal, distance));
        let far = codes[i]->distance as nat;
        lemma_distance_extra(far);
        distance_symbol(far).code as nat
    } else {
        assert(df[0] > 0);
        0
    }
}

/// Cutting off symbols that have no codes keeps the bits of tokens.
proof fn lemma_same_symbols(
    codes: Seq<Lz77Code>,
    literal: Seq<u8>,
    distance: Seq<u8>,
    h: nat,
    d: nat,
)
    requires
        256 < h <= literal.len(),
        1 <= d <= distance.len(),
        forall|i: int| h <= i < literal.len() ==> #[trigger] literal[i] == 0,
        forall|i: int| d <= i < distance.len() ==> #[trigger] distance[i] == 0,
        forall|i: int| 0 <= i < codes.len() ==> coded(#[trigger] codes[i], literal, distance),
    ensures
        symbols_bits(codes, literal.take(h as int), distance.take(d as int)) == symbols_bits(
            codes,
            literal,
            distance,
        ),
        forall|i: int|
            0 <= i < codes.len() ==> coded(
                #[trigger] codes[i],
                literal.take(h as int),
                distance.take(d as int),
            ),
    decreases codes.len(),
{
    let cut = literal.take(h as int);
    let dcut = distance.take(d as int);
    if codes.len() == 0 {
        lemma_same_codes(literal, h, 256);
    } else {
        let tail = codes.skip(1);
        let code = codes[0];
        assert forall|i: int| 0 <= i < tail.len() implies coded(
            #[trigger] tail[i],
            literal,
            distance,
        ) by {
            assert(tail[i] == codes[i + 1]);
        }
        lemma_same_symbols(tail, literal, distance, h, d);
        assert(coded(codes[0], literal, distance));
        let s = literal_symbol_of(code);
        assert(s < h) by {
            if s >= h {
                assert(literal[s as int] == 0);
            }
        }
        lemma_same_codes(literal, h, s);
        if code is Pointer {
            let t = distance_symbol(code->distance as nat).code as nat;
            assert(t < d) by {
                if t >= d {
                    assert(distance[t as int] == 0);
                }
            }
            lemma_same_codes(distance, d, t);
        }
        assert(coded(code, cut, dcut));
        assert forall|i: int| 0 <= i < codes.len() implies coded(
            #[trigger] codes[i],
            cut,
            dcut,
        ) by {
            if i > 0 {
                assert(tail[i - 1] == codes[i]);
            }
        }
    }
}

/// Read a block with the fixed codes.
proof fn lemma_read_fixed(m: Machine, chunk: Seq<u8>, last: bool, rest: Seq<bool>) -> (n: Machine)
    requires
        wf(m),
        m.phase is Header,
        m.bits == fixed_bits(tokens(chunk, 0), last) + rest,
    ensures
        inflate(m) == inflate(n),
        wf(n),
        n.phase == behind_block(last),
        n.out == m.out + chunk,
        n.bits == rest,
{
    let codes = tokens(chunk, 0);
    let literal = fixed_literal_lengths();
    let distance = fixed_distance_lengths();
    let more = symbols_bits(codes, literal, distance) + rest;
    assert(m.bits =~= header_bits(last, 1) + more);
    let k = lemma_read_header(m, last, 1, more);
    lemma_chunk_tokens(m.out, chunk);
    lemma_fixed_tables();
    assert forall|i: int| 0 <= i < codes.len() implies coded(
        #[trigger] codes[i],
        literal,
        distance,
    ) by {
        assert(encodable(codes[i]));
        if codes[i] is Pointer {
            lemma_length_extra(codes[i]->length as nat);
            lemma_distance_extra(codes[i]->distance as nat);
        }
    }
    lemma_read_symbols(k, last, literal, distance, codes, rest)
}

/// The tokens of a chunk stand for it behind any output.
proof fn lemma_chunk_tokens(out: Seq<u8>, chunk: Seq<u8>)
    ensures
        expand(out, tokens(chunk, 0)) == out + chunk,
        codes_ok(tokens(chunk, 0), out.len()),
        forall|i: int|
            0 <= i < tokens(chunk, 0).len() ==> encodable(#[trigger] tokens(chunk, 0)[i]),
        tokens(chunk, 0).len() <= chunk.len(),
{
    let codes = tokens(chunk, 0);
    lemma_tokens(chunk, 0);
    lemma_tokens_len(chunk, 0);
    lemma_encodable(codes, 0);
    assert(chunk.take(0) =~= Seq::<u8>::empty());
    lemma_expand_behind(out, Seq::empty(), codes);
    assert(out + Seq::<u8>::empty() =~= out);
}

/// Read a block with codes of its own.
#[verifier::spinoff_prover]
#[verifier::rlimit(40)]
proof fn lemma_read_dynamic(m: Machine, chunk: Seq<u8>, last: bool, rest: Seq<bool>) -> (n:
    Machine)
    requires
        wf(m),
        m.phase is Header,
        chunk.len() <= usize::MAX,
        m.bits == dynamic_bits(tokens(chunk, 0), last) + rest,
    ensures
        inflate(m) == inflate(n),
        wf(n),
        n.phase == behind_block(last),
        n.out == m.out + chunk,
        n.bits == rest,
{
    let codes = tokens(chunk, 0);
    let literal = dynamic_literal(codes);
    let distance = dynamic_distance(codes);
    let h = literal_len(literal);
    let d = distance_len(distance);
    let more = symbols_bits(codes, literal, distance) + rest;
    assert(m.bits =~= header_bits(last, 2) + (tables_bits(literal, distance) + more));
    let k = lemma_read_header(m, last, 2, tables_bits(literal, distance) + more);
    lemma_chunk_tokens(m.out, chunk);
    let s = lemma_dynamic_codes(codes);
    let t = lemma_read_tables(k, last, literal, distance, s, more);
    lemma_used_len_rest(literal);
    lemma_used_len_rest(distance);
    lemma_same_symbols(codes, literal, distance, h, d);
    lemma_read_symbols(t, last, literal.take(h as int), distance.take(d as int), codes, rest)
}

/// A block only adds to a stream, and the last one ends at a byte boundary.
pub proof fn lemma_block_adds(stream: Seq<bool>, kind: BlockKind, chunk: Seq<u8>, last: bool)
    ensures
        stream.len() <= block(stream, kind, chunk, last).len(),
        block(stream, kind, chunk, last).take(stream.len() as int) == stream,
        last || kind == BlockKind::Stored ==> block(stream, kind, chunk, last).len() % 8 == 0,
{
    let all = block(stream, kind, chunk, last);
    match kind {
        BlockKind::Stored => {
            lemma_stored_adds(stream, chunk, last);
            lemma_stored_aligned(stream, chunk, last);
        },
        _ => {
            assert(all.take(stream.len() as int) =~= stream);
        },
    }
}

proof fn lemma_stored_aligned(stream: Seq<bool>, chunk: Seq<u8>, last: bool)
    ensures
        stored(stream, chunk, last).len() % 8 == 0,
    decreases chunk.len(),
{
    if chunk.len() <= 0xffff {
        let body = le16(chunk.len()) + le16((0xffff - chunk.len()) as nat) + chunk;
        lemma_byte_bits_len(body);
        assert(padded(stream + header_bits(last, 0)).len() % 8 == 0);
    } else {
        lemma_stored_aligned(
            stored_piece(stream, chunk.take(0xffff), false),
            chunk.skip(0xffff),
            last,
        );
    }
}

/// Read a block.
///
/// Behind a block that is not the last one, the decoder stands at the bits
/// that follow it. Behind the last one, all it holds of them is the padding.
#[verifier::spinoff_prover]
#[verifier::rlimit(60)]
pub proof fn lemma_read_block(
    stream: Seq<bool>,
    out: Seq<u8>,
    kind: BlockKind,
    chunk: Seq<u8>,
    last: bool,
    rest: Seq<bool>,
) -> (n: Machine)
    requires
        chunk.len() <= usize::MAX,
        (block(stream, kind, chunk, last).len() + rest.len()) % 8 == 0,
    ensures
        inflate(
            before_block(
                out,
                block(stream, kind, chunk, last).skip(stream.len() as int) + rest,
            ),
        ) == inflate(n),
        wf(n),
        n.out == out + chunk,
        !last ==> n == before_block(out + chunk, rest),
        last ==> {
            &&& n.phase is Done
            &&& rest.len() + n.held == n.bits.len()
            &&& n.bits.skip(n.held as int) == rest
        },
{
    let all = block(stream, kind, chunk, last);
    let more = all.skip(stream.len() as int);
    let m = before_block(out, more + rest);
    let codes = tokens(chunk, 0);
    lemma_block_adds(stream, kind, chunk, last);
    match kind {
        BlockKind::Stored => {
            lemma_read_stored(stream, out, chunk, last, rest);
            assert(rest.skip(0) =~= rest);
            Machine {
                phase: behind_block(last),
                out: out + chunk,
                bits: rest,
                held: rest.len() % 8,
            }
        },
        BlockKind::Fixed => {
            let bits = fixed_bits(codes, last);
            let pad = lemma_closed(stream, bits, last);
            assert(more + rest =~= bits + (zeros(pad) + rest));
            let n = lemma_read_fixed(m, chunk, last, zeros(pad) + rest);
            lemma_behind_closed(n, pad, last, rest);
            n
        },
        BlockKind::Dynamic => {
            let bits = dynamic_bits(codes, last);
            let pad = lemma_closed(stream, bits, last);
            assert(more + rest =~= bits + (zeros(pad) + rest));
            let n = lemma_read_dynamic(m, chunk, last, zeros(pad) + rest);
            lemma_behind_closed(n, pad, last, rest);
            n
        },
    }
}

/// The padding behind the last block.
proof fn lemma_closed(stream: Seq<bool>, bits: Seq<bool>, last: bool) -> (pad: nat)
    ensures
        pad < 8,
        !last ==> pad == 0,
        closed(stream + bits, last) == stream + bits + zeros(pad),
        closed(stream + bits, last).skip(stream.len() as int) == bits + zeros(pad),
{
    let pad = if last {
        padding((stream + bits).len())
    } else {
        0
    };
    assert(closed(stream + bits, last) =~= stream + bits + zeros(pad));
    assert(closed(stream + bits, last).skip(stream.len() as int) =~= bits + zeros(pad));
    pad
}

proof fn lemma_behind_closed(n: Machine, pad: nat, last: bool, rest: Seq<bool>)
    requires
        wf(n),
        n.phase == behind_block(last),
        n.bits == zeros(pad) + rest,
        pad < 8,
        !last ==> pad == 0,
        last ==> rest.len() % 8 == 0,
    ensures
        !last ==> n == before_block(n.out, rest),
        last ==> {
            &&& n.phase is Done
            &&& rest.len() + n.held == n.bits.len()
            &&& n.bits.skip(n.held as int) == rest
        },
{
    lemma_held(n);
    if last {
        assert(n.held == pad);
        assert(n.bits.skip(pad as int) =~= rest);
    } else {
        assert(n.bits =~= rest);
    }
}

} // verus!
