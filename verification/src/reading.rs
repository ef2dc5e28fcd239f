//! What a decoder makes of a DEFLATE stream, element by element, whoever wrote
//! it.
//!
//! Each law takes a machine whose bits begin with one element of the format and
//! says where it leads: from there on, decoding goes on in the same way. So the
//! laws can be put together to what any whole stream means, and to which streams
//! are refused and why.

use crate::bits::{
    byte_bits, from_bits, lemma_bits_of_bytes, lemma_byte_bits_concat, lemma_byte_bits_len,
    lemma_byte_bits_skip, lemma_first_byte, lemma_from_to_bits_fit, lemma_le_value,
    lemma_le_value_2, lemma_to_bits_len, to_bits,
};
use crate::canonical::{
    begins_with, code_bits, decode_symbol, lemma_decode_symbol, lemma_decoded, lemma_max_width,
    lookup, max_width, peek_width, word, Decoded,
};
use crate::error::{decimal, Fault};
use crate::huffman::table_fault;
use crate::inflate::{
    after_symbol, copied, distance_peek, inflate, lemma_end_peek, lemma_run, lemma_step_wf,
    lemma_table_ok, literal_peek, next_element, reference_fault, reference_step, repeated, run,
    start, step, stored_length_step, unread_bytes, wf, Element, Machine, Phase, Step, Stop,
};
use crate::package_merge::{lemma_room, room};
use crate::standard::{lemma_code_bit, lemma_fixed_codes};
use crate::symbol::{
    fixed_literal_lengths, lemma_fixed_widths, BITWIDTH_CODE_ORDER, DISTANCE_TABLE, LENGTH_TABLE,
};
use vstd::arithmetic::power2::{lemma2_to64, lemma_pow2_pos, pow2};
use vstd::prelude::*;

verus! {

proof fn lemma_go_on(m: Machine)
    requires
        wf(m),
        step(m) is Next,
    ensures
        inflate(m) == inflate(step(m)->Next_0),
        wf(step(m)->Next_0),
{
    reveal(inflate);
    lemma_step_wf(m);
}

proof fn lemma_fails(m: Machine, fault: Fault)
    requires
        step(m) == Step::Fail(fault),
    ensures
        inflate(m) == (m, Stop::Fail(fault)),
{
    reveal(inflate);
}

proof fn lemma_read_code(l: Seq<u8>, peek: nat, s: nat, bits: Seq<bool>, rest: Seq<bool>)
    requires
        table_fault(l) is None,
        s < l.len(),
        l[s as int] > 0,
        1 <= peek <= 15,
        bits == code_bits(l, s) + rest,
        bits.len() >= peek,
    ensures
        decode_symbol(l, peek, bits) == Decoded::Symbol(s),
        bits.skip(l[s as int] as int) == rest,
        l[s as int] <= bits.len(),
        bits.len() == l[s as int] + rest.len(),
{
    lemma_to_bits_len(word(l, s), l[s as int] as nat);
    assert(bits.take(l[s as int] as int) =~= code_bits(l, s));
    assert(bits.skip(l[s as int] as int) =~= rest);
    lemma_decode_symbol(l, peek, bits, s);
}

// ---------------------------------------------------------------------------
// The start and the end
// ---------------------------------------------------------------------------

/// A stream starts with the header of a block, and nothing has been put out.
pub proof fn lemma_start(bits: Seq<bool>)
    requires
        bits.len() % 8 == 0,
    ensures
        wf(start(bits)),
        start(bits).phase is Header,
        start(bits).out.len() == 0,
        start(bits).bits == bits,
{
}

/// More bits are put behind those that are there, and nothing else changes.
pub proof fn lemma_more_bits(m: Machine, more: Seq<bool>)
    ensures
        m.push(more) == (Machine { bits: m.bits + more, ..m }),
        start(Seq::empty()).push(more) == start(more),
{
    assert(Seq::<bool>::empty() + more =~= more);
}

/// Behind the last block a stream has ended. Of the bits that are left, those
/// that do not make whole bytes belong to it.
pub proof fn lemma_end(m: Machine)
    requires
        wf(m),
        m.phase is Done,
    ensures
        inflate(m) == (m, Stop::Finished),
        m.held == m.bits.len() % 8,
{
    reveal(inflate);
}

/// Fewer than three bits do not make the header of a block.
pub proof fn lemma_wait_for_header(m: Machine)
    requires
        m.phase is Header,
        m.bits.len() < 3,
    ensures
        inflate(m) == (m, Stop::NeedMore),
{
    reveal(inflate);
}

/// The header of a block: a bit that says whether it is the last one, and two
/// bits for its type, the lower one first.
#[verifier::spinoff_prover]
#[verifier::rlimit(60)]
pub proof fn lemma_block_header(
    m: Machine,
    last: bool,
    low: bool,
    high: bool,
    rest: Seq<bool>,
) -> (n: Machine)
    requires
        wf(m),
        m.phase is Header,
        m.bits == seq![last, low, high] + rest,
        !(low && high),
    ensures
        inflate(m) == inflate(n),
        wf(n),
        n.out == m.out,
        n.bits == rest,
        !low && !high ==> n.phase == (Phase::StoredLength { last }),
        low ==> {
            &&& n.phase matches Phase::Symbols { last: l, literal, distance }
            &&& l == last
            &&& literal.len() == 288
            &&& distance.len() == 30
            &&& forall|s: int| 0 <= s < 144 ==> #[trigger] literal[s] == 8
            &&& forall|s: int| 144 <= s < 256 ==> #[trigger] literal[s] == 9
            &&& forall|s: int| 256 <= s < 280 ==> #[trigger] literal[s] == 7
            &&& forall|s: int| 280 <= s < 288 ==> #[trigger] literal[s] == 8
            &&& forall|s: int| 0 <= s < 30 ==> #[trigger] distance[s] == 5
        },
        high ==> n.phase == (Phase::TableHeader { last }),
{
    lemma_kind(m.bits, last, low, high, rest);
    lemma_go_on(m);
    lemma_fixed_widths();
    step(m)->Next_0
}

proof fn lemma_kind(bits: Seq<bool>, last: bool, low: bool, high: bool, rest: Seq<bool>)
    requires
        bits == seq![last, low, high] + rest,
    ensures
        bits.len() >= 3,
        bits[0] == last,
        bits.skip(3) == rest,
        from_bits(bits.skip(1).take(2)) == (if low {
            1nat
        } else {
            0
        }) + (if high {
            2nat
        } else {
            0
        }),
{
    let kind = bits.skip(1).take(2);
    assert(kind =~= seq![low, high]);
    assert(kind.skip(1) =~= seq![high]);
    assert(kind.skip(1).skip(1) =~= Seq::<bool>::empty());
    assert(from_bits(kind.skip(1).skip(1)) == 0);
    assert(from_bits(kind.skip(1)) == if high {
        1nat
    } else {
        0
    });
    assert(bits.skip(3) =~= rest);
}

/// There is no fourth type of block.
pub proof fn lemma_reserved_type(m: Machine, last: bool, rest: Seq<bool>)
    requires
        m.phase is Header,
        m.bits == seq![last, true, true] + rest,
    ensures
        inflate(m) == (m, Stop::Fail(Fault::InvalidData("reserved DEFLATE block type"@))),
{
    lemma_kind(m.bits, last, true, true, rest);
    reveal(inflate);
}

// ---------------------------------------------------------------------------
// Stored blocks
// ---------------------------------------------------------------------------

proof fn lemma_two_bytes(a: u8, b: u8)
    ensures
        byte_bits(seq![a, b]).len() == 16,
        from_bits(byte_bits(seq![a, b])) == a + 256 * b,
{
    lemma_byte_bits_len(seq![a, b]);
    lemma_le_value(seq![a, b]);
    lemma_le_value_2(seq![a, b]);
}

/// The length of a stored block: bits up to the next byte boundary that do not
/// matter, two bytes for the length and two for its complement, the lower byte
/// first. If they do not agree, the block is refused.
#[verifier::spinoff_prover]
#[verifier::rlimit(60)]
pub proof fn lemma_stored_length(
    m: Machine,
    last: bool,
    pad: Seq<bool>,
    a: u8,
    b: u8,
    c: u8,
    d: u8,
    rest: Seq<bool>,
) -> (n: Machine)
    requires
        wf(m),
        m.phase == (Phase::StoredLength { last }),
        m.bits == pad + byte_bits(seq![a, b, c, d]) + rest,
        pad.len() < 8,
        rest.len() % 8 == 0,
    ensures
        a + 256 * b + c + 256 * d == 65535 ==> {
            &&& inflate(m) == inflate(n)
            &&& wf(n)
            &&& n.phase == (Phase::StoredBody { remaining: a as nat + 256 * b as nat, last })
            &&& n.out == m.out
            &&& n.bits == rest
        },
        a + 256 * b + c + 256 * d != 65535 ==> inflate(m) == (
            m,
            Stop::Fail(
                Fault::InvalidData(
                    "LEN="@ + decimal((a + 256 * b) as nat)
                        + " is not the one's complement of NLEN="@ + decimal((c + 256 * d) as nat),
                ),
            ),
        ),
{
    lemma_length_bits(m.bits, pad, a, b, c, d, rest);
    assert(step(m) == stored_length_step(m, last));
    if a + 256 * b + c + 256 * d == 65535 {
        lemma_go_on(m);
        step(m)->Next_0
    } else {
        lemma_fails(m, step(m)->Fail_0);
        m
    }
}

proof fn lemma_length_bits(
    bits: Seq<bool>,
    pad: Seq<bool>,
    a: u8,
    b: u8,
    c: u8,
    d: u8,
    rest: Seq<bool>,
)
    requires
        bits == pad + byte_bits(seq![a, b, c, d]) + rest,
        pad.len() < 8,
        rest.len() % 8 == 0,
    ensures
        bits.len() == pad.len() + 32 + rest.len(),
        bits.len() % 8 == pad.len(),
        from_bits(bits.skip(pad.len() as int).take(16)) == a + 256 * b,
        from_bits(bits.skip(pad.len() as int + 16).take(16)) == c + 256 * d,
        bits.skip(pad.len() as int + 32) == rest,
{
    let k = pad.len() as int;
    let first = byte_bits(seq![a, b]);
    let second = byte_bits(seq![c, d]);
    lemma_two_bytes(a, b);
    lemma_two_bytes(c, d);
    lemma_byte_bits_concat(seq![a, b], seq![c, d]);
    assert(seq![a, b] + seq![c, d] =~= seq![a, b, c, d]);
    assert(bits =~= pad + (first + second) + rest);
    assert(bits.skip(k).take(16) =~= first);
    assert(bits.skip(k + 16).take(16) =~= second);
    assert(bits.skip(k + 32) =~= rest);
}

/// The bytes of a stored block are put out as they are, and what follows it is
/// the next block, or the end behind the last one.
#[verifier::spinoff_prover]
#[verifier::rlimit(60)]
pub proof fn lemma_stored_bytes(m: Machine, last: bool, data: Seq<u8>, rest: Seq<bool>) -> (n:
    Machine)
    requires
        wf(m),
        m.phase == (Phase::StoredBody { remaining: data.len(), last }),
        m.bits == byte_bits(data) + rest,
    ensures
        inflate(m) == inflate(n),
        wf(n),
        last ==> n.phase is Done,
        !last ==> n.phase is Header,
        n.out == m.out + data,
        n.bits == rest,
    decreases data.len(),
{
    lemma_byte_bits_len(data);
    if data.len() == 0 {
        assert(m.bits.skip(0) =~= rest);
        assert(m.out + data =~= m.out);
        lemma_go_on(m);
        step(m)->Next_0
    } else {
        lemma_first_byte(data);
        lemma_byte_bits_skip(data, 1);
        assert(m.bits.take(8) =~= byte_bits(data).take(8));
        assert(m.bits.skip(8) =~= byte_bits(data.skip(1)) + rest);
        lemma_go_on(m);
        let k = step(m)->Next_0;
        let n = lemma_stored_bytes(k, last, data.skip(1), rest);
        assert(m.out.push(data[0]) + data.skip(1) =~= m.out + data);
        n
    }
}

// ---------------------------------------------------------------------------
// Symbols
// ---------------------------------------------------------------------------

/// A symbol below 256 is a byte, and 256 ends a block. Behind a byte there must
/// be as many bits as the end of the block has, or fifteen where it has no code.
#[verifier::spinoff_prover]
#[verifier::rlimit(60)]
pub proof fn lemma_plain_symbol(
    m: Machine,
    last: bool,
    literal: Seq<u8>,
    distance: Seq<u8>,
    s: nat,
    rest: Seq<bool>,
) -> (n: Machine)
    requires
        wf(m),
        m.phase == (Phase::Symbols { last, literal, distance }),
        s <= 256,
        literal[s as int] > 0,
        m.bits == code_bits(literal, s) + rest,
        s < 256 && literal[256] > 0 ==> rest.len() >= literal[256],
        s < 256 && literal[256] == 0 ==> rest.len() >= 15,
    ensures
        inflate(m) == inflate(n),
        wf(n),
        n.bits == rest,
        s < 256 ==> n.phase == m.phase && n.out == m.out.push(s as u8),
        s == 256 ==> n.out == m.out,
        s == 256 && last ==> n.phase is Done,
        s == 256 && !last ==> n.phase is Header,
{
    if literal[256] > 0 {
        lemma_end_peek(literal);
    }
    lemma_table_ok(literal, None, Some(256));
    lemma_to_bits_len(word(literal, s), literal[s as int] as nat);
    lemma_read_code(literal, literal_peek(literal), s, m.bits, rest);
    lemma_go_on(m);
    step(m)->Next_0
}

/// A symbol of a fixed block is sent as the number that the standard lists, with
/// the most significant bit first: a byte below 144 as 48 and more with eight
/// bits, any other byte as 400 and more with nine bits, and the end of the block
/// as zero with seven bits.
pub proof fn lemma_fixed_symbol(
    m: Machine,
    last: bool,
    literal: Seq<u8>,
    distance: Seq<u8>,
    s: nat,
    sent: Seq<bool>,
    rest: Seq<bool>,
) -> (n: Machine)
    requires
        wf(m),
        m.phase == (Phase::Symbols { last, literal, distance }),
        literal.len() == 288,
        forall|t: int| 0 <= t < 144 ==> #[trigger] literal[t] == 8,
        forall|t: int| 144 <= t < 256 ==> #[trigger] literal[t] == 9,
        forall|t: int| 256 <= t < 280 ==> #[trigger] literal[t] == 7,
        forall|t: int| 280 <= t < 288 ==> #[trigger] literal[t] == 8,
        s <= 256,
        s < 144 ==> sent.len() == 8 && forall|k: int|
            0 <= k < 8 ==> #[trigger] sent[k] == ((0x30 + s) as nat / pow2((7 - k) as nat) % 2
                == 1),
        144 <= s < 256 ==> sent.len() == 9 && forall|k: int|
            0 <= k < 9 ==> #[trigger] sent[k] == ((0x190 + s - 144) as nat / pow2((8 - k) as nat)
                % 2 == 1),
        s == 256 ==> sent.len() == 7 && forall|k: int| 0 <= k < 7 ==> !#[trigger] sent[k],
        m.bits == sent + rest,
        s < 256 ==> rest.len() >= 7,
    ensures
        inflate(m) == inflate(n),
        wf(n),
        n.bits == rest,
        s < 256 ==> n.phase == m.phase && n.out == m.out.push(s as u8),
        s == 256 ==> n.out == m.out,
        s == 256 && last ==> n.phase is Done,
        s == 256 && !last ==> n.phase is Header,
{
    lemma_fixed_widths();
    assert(literal =~= fixed_literal_lengths());
    lemma_fixed_codes(s);
    let w = literal[s as int] as nat;
    lemma_to_bits_len(word(literal, s), w);
    assert forall|k: int| 0 <= k < w implies #[trigger] sent[k] == code_bits(literal, s)[k] by {
        lemma_code_bit(literal, s, k as nat);
        if s == 256 {
            lemma_pow2_pos((6 - k) as nat);
            assert(0nat / pow2((6 - k) as nat) == 0) by (nonlinear_arith)
                requires
                    pow2((6 - k) as nat) > 0,
            ;
        }
    }
    assert(sent =~= code_bits(literal, s));
    lemma_plain_symbol(m, last, literal, distance, s, rest)
}

/// A copy has the bytes of before, and each further one is the one `distance`
/// places before it.
pub proof fn lemma_copy(out: Seq<u8>, distance: nat, length: nat)
    requires
        1 <= distance <= out.len(),
    ensures
        copied(out, distance, length).len() == out.len() + length,
        forall|i: int| 0 <= i < out.len() ==> #[trigger] copied(out, distance, length)[i] == out[i],
        forall|i: int|
            out.len() <= i < out.len() + length ==> #[trigger] copied(out, distance, length)[i]
                == copied(out, distance, length)[i - distance],
    decreases length,
{
    if length > 0 {
        let next = out.push(out[out.len() - distance]);
        lemma_copy(next, distance, (length - 1) as nat);
        let all = copied(out, distance, length);
        assert(all == copied(next, distance, (length - 1) as nat));
        assert forall|i: int| 0 <= i < out.len() implies #[trigger] all[i] == out[i] by {
            assert(all[i] == next[i]);
        }
        assert forall|i: int| out.len() <= i < out.len() + length implies #[trigger] all[i]
            == all[i - distance] by {
            if i == out.len() {
                assert(all[i] == next[i]);
                assert(all[i - distance] == next[i - distance]);
            }
        }
    }
}

#[verifier::spinoff_prover]
#[verifier::rlimit(60)]
proof fn lemma_reference(
    m: Machine,
    last: bool,
    literal: Seq<u8>,
    distance: Seq<u8>,
    i: nat,
    e: nat,
    d: nat,
    f: nat,
    w: nat,
    held: nat,
    rest: Seq<bool>,
)
    requires
        table_fault(literal) is None,
        table_fault(distance) is None,
        i < 29,
        e < pow2(LENGTH_TABLE@[i as int].1 as nat),
        d < 30,
        d < distance.len(),
        distance[d as int] > 0,
        f < pow2(DISTANCE_TABLE@[d as int].1 as nat),
        w <= m.bits.len(),
        m.bits.skip(w as int) == to_bits(e, LENGTH_TABLE@[i as int].1 as nat) + (code_bits(
            distance,
            d,
        ) + (to_bits(f, DISTANCE_TABLE@[d as int].1 as nat) + rest)),
        rest.len() >= literal_peek(literal),
    ensures
        ({
            let far = DISTANCE_TABLE@[d as int].0 as nat + f;
            let r = reference_step(m, last, literal, distance, i + 257, w, held);
            &&& far > m.out.len() ==> r == Step::Fail(
                reference_fault(m.out.len(), far),
            )
            &&& far <= m.out.len() ==> {
                &&& r is Next
                &&& r->Next_0.phase == (Phase::Symbols { last, literal, distance })
                &&& r->Next_0.out == copied(m.out, far, LENGTH_TABLE@[i as int].0 as nat + e)
                &&& r->Next_0.bits == rest
            }
        }),
{
    let n1 = LENGTH_TABLE@[i as int].1 as nat;
    let n2 = DISTANCE_TABLE@[d as int].1 as nat;
    let e1 = to_bits(e, n1);
    let e2 = to_bits(f, n2);
    let dw = distance[d as int] as nat;
    lemma_to_bits_len(e, n1);
    lemma_to_bits_len(f, n2);
    lemma_from_to_bits_fit(e, n1);
    lemma_from_to_bits_fit(f, n2);
    let b1 = m.bits.skip(w as int);
    let b2 = code_bits(distance, d) + (e2 + rest);
    assert(b1.take(n1 as int) =~= e1);
    assert(m.bits.skip((w + n1) as int) =~= b1.skip(n1 as int));
    assert(b1.skip(n1 as int) =~= b2);
    let peek = distance_peek(literal, distance);
    lemma_table_ok(literal, None, Some(256));
    lemma_table_ok(distance, Some(literal_peek(literal)), None);
    lemma_read_code(distance, peek, d, b2, e2 + rest);
    let at = w + n1 + dw;
    assert(m.bits.skip(at as int) =~= b2.skip(dw as int));
    assert((e2 + rest).take(n2 as int) =~= e2);
    assert(m.bits.skip((at + n2) as int) =~= (e2 + rest).skip(n2 as int));
    assert((e2 + rest).skip(n2 as int) =~= rest);
}

#[verifier::spinoff_prover]
#[verifier::rlimit(60)]
proof fn lemma_reference_step(
    m: Machine,
    last: bool,
    literal: Seq<u8>,
    distance: Seq<u8>,
    i: nat,
    tail: Seq<bool>,
)
    requires
        wf(m),
        m.phase == (Phase::Symbols { last, literal, distance }),
        i < 29,
        i + 257 < literal.len(),
        literal[i as int + 257] > 0,
        m.bits == code_bits(literal, i + 257) + tail,
        tail.len() >= literal_peek(literal),
    ensures
        ({
            let w = literal[i as int + 257] as nat;
            let held = after_symbol(m.held, literal_peek(literal), w);
            &&& step(m) == reference_step(m, last, literal, distance, i + 257, w, held)
            &&& m.bits.skip(w as int) == tail
            &&& w <= m.bits.len()
        }),
{
    lemma_table_ok(literal, None, Some(256));
    lemma_read_code(literal, literal_peek(literal), i + 257, m.bits, tail);
}

/// A back-reference: a length symbol, its extra bits, a distance symbol and its
/// extra bits. Each of the two numbers is the base of its symbol and what the
/// extra bits say. It copies bytes from the output, and is refused if it reaches
/// to before its start.
#[verifier::spinoff_prover]
#[verifier::rlimit(60)]
pub proof fn lemma_back_reference(
    m: Machine,
    last: bool,
    literal: Seq<u8>,
    distance: Seq<u8>,
    i: nat,
    e: nat,
    d: nat,
    f: nat,
    rest: Seq<bool>,
) -> (n: Machine)
    requires
        wf(m),
        m.phase == (Phase::Symbols { last, literal, distance }),
        i < 29,
        i + 257 < literal.len(),
        literal[i as int + 257] > 0,
        e < pow2(LENGTH_TABLE@[i as int].1 as nat),
        d < 30,
        d < distance.len(),
        distance[d as int] > 0,
        f < pow2(DISTANCE_TABLE@[d as int].1 as nat),
        m.bits == code_bits(literal, i + 257) + (to_bits(e, LENGTH_TABLE@[i as int].1 as nat) + (
        code_bits(distance, d) + (to_bits(f, DISTANCE_TABLE@[d as int].1 as nat) + rest))),
        literal[256] > 0 ==> rest.len() >= literal[256],
        literal[256] == 0 ==> rest.len() >= 15,
    ensures
        ({
            let far = DISTANCE_TABLE@[d as int].0 as nat + f;
            let length = LENGTH_TABLE@[i as int].0 as nat + e;
            &&& far <= m.out.len() ==> {
                &&& inflate(m) == inflate(n)
                &&& wf(n)
                &&& n.phase == m.phase
                &&& n.bits == rest
                &&& n.out.len() == m.out.len() + length
                &&& forall|k: int| 0 <= k < m.out.len() ==> #[trigger] n.out[k] == m.out[k]
                &&& forall|k: int|
                    m.out.len() <= k < n.out.len() ==> #[trigger] n.out[k] == n.out[k - far]
            }
            &&& far > m.out.len() ==> inflate(m) == (
                m,
                Stop::Fail(
                    Fault::InvalidData(
                        "too long backward reference: output_len="@ + decimal(m.out.len())
                            + ", distance="@ + decimal(far),
                    ),
                ),
            )
        }),
{
    let far = DISTANCE_TABLE@[d as int].0 as nat + f;
    let length = LENGTH_TABLE@[i as int].0 as nat + e;
    let tail = to_bits(e, LENGTH_TABLE@[i as int].1 as nat) + (code_bits(distance, d) + (to_bits(
        f,
        DISTANCE_TABLE@[d as int].1 as nat,
    ) + rest));
    let w = literal[i as int + 257] as nat;
    let held = after_symbol(m.held, literal_peek(literal), w);
    if literal[256] > 0 {
        lemma_end_peek(literal);
    }
    lemma_table_ok(literal, None, Some(256));
    lemma_reference_step(m, last, literal, distance, i, tail);
    lemma_reference(m, last, literal, distance, i, e, d, f, w, held, rest);
    assert(far >= 1) by {
        assert(DISTANCE_TABLE@[d as int].0 >= 1);
    }
    if far <= m.out.len() {
        lemma_copy(m.out, far, length);
        lemma_go_on(m);
        step(m)->Next_0
    } else {
        lemma_fails(m, reference_fault(m.out.len(), far));
        m
    }
}

/// The symbols 286 and 287, which fixed blocks have codes for, are refused.
#[verifier::spinoff_prover]
#[verifier::rlimit(60)]
pub proof fn lemma_unused_symbol(
    m: Machine,
    last: bool,
    literal: Seq<u8>,
    distance: Seq<u8>,
    s: nat,
    rest: Seq<bool>,
)
    requires
        wf(m),
        m.phase == (Phase::Symbols { last, literal, distance }),
        s >= 286,
        s < literal.len(),
        literal[s as int] > 0,
        m.bits == code_bits(literal, s) + rest,
        literal[256] > 0 ==> m.bits.len() >= literal[256],
        literal[256] == 0 ==> m.bits.len() >= 15,
    ensures
        inflate(m) == (
            m,
            Stop::Fail(
                Fault::InvalidData(
                    "literal/length symbol "@ + decimal(s)
                        + " must not appear in compressed data"@,
                ),
            ),
        ),
{
    if literal[256] > 0 {
        lemma_end_peek(literal);
    }
    lemma_table_ok(literal, None, Some(256));
    lemma_read_code(literal, literal_peek(literal), s, m.bits, rest);
    reveal(inflate);
}

/// Fifteen bits decide which symbol comes next, or that there is none: bits that
/// begin with the code of no symbol are not valid.
pub proof fn lemma_decided(l: Seq<u8>, peek: nat, bits: Seq<bool>)
    requires
        table_fault(l) is None,
        peek <= 15,
        bits.len() >= 15,
    ensures
        match decode_symbol(l, peek, bits) {
            Decoded::NeedMore => false,
            Decoded::Symbol(s) => {
                &&& s < l.len()
                &&& l[s as int] > 0
                &&& bits.take(l[s as int] as int) == code_bits(l, s)
            },
            Decoded::Invalid => peek >= 1 ==> forall|s: nat|
                s < l.len() && l[s as int] > 0 ==> bits.take(l[s as int] as int)
                    != #[trigger] code_bits(l, s),
        },
{
    lemma_decodable(l, peek, bits);
    lemma_max_width(l);
    if decode_symbol(l, peek, bits) is Symbol {
        lemma_decoded(l, peek, bits);
    } else if peek >= 1 {
        assert forall|s: nat| s < l.len() && l[s as int] > 0 implies bits.take(l[s as int] as int)
            != #[trigger] code_bits(l, s) by {
            if bits.take(l[s as int] as int) == code_bits(l, s) {
                assert(l[s as int] <= 15);
                lemma_decode_symbol(l, peek, bits, s);
            }
        }
    }
}

proof fn lemma_decodable(l: Seq<u8>, peek: nat, bits: Seq<bool>)
    requires
        table_fault(l) is None,
        peek <= 15,
        bits.len() >= 15,
    ensures
        !(decode_symbol(l, peek, bits) is NeedMore),
    decreases 256 - peek,
{
    lemma_max_width(l);
    let found = lookup(l, from_bits(bits.take(peek as int)));
    if let Some(s) = found {
        assert(begins_with(l, s, from_bits(bits.take(peek as int))));
        assert(l[s as int] <= 15);
        if l[s as int] > peek {
            lemma_decodable(l, l[s as int] as nat, bits);
        }
    }
}

/// Bits that begin with the code of no symbol are refused.
#[verifier::spinoff_prover]
#[verifier::rlimit(60)]
pub proof fn lemma_no_symbol(m: Machine, last: bool, literal: Seq<u8>, distance: Seq<u8>)
    requires
        wf(m),
        m.phase == (Phase::Symbols { last, literal, distance }),
        m.bits.len() >= 15,
        forall|s: nat|
            s < literal.len() && literal[s as int] > 0 ==> m.bits.take(literal[s as int] as int)
                != #[trigger] code_bits(literal, s),
    ensures
        inflate(m) == (m, Stop::Fail(Fault::InvalidData("invalid huffman coded stream"@))),
{
    let peek = literal_peek(literal);
    lemma_table_ok(literal, None, Some(256));
    lemma_decodable(literal, peek, m.bits);
    if decode_symbol(literal, peek, m.bits) is Symbol {
        lemma_decoded(literal, peek, m.bits);
        let s = decode_symbol(literal, peek, m.bits)->Symbol_0;
        assert(m.bits.take(literal[s as int] as int) == code_bits(literal, s));
    }
    reveal(inflate);
}

/// Bits behind a length that begin with the code of no distance are refused.
#[verifier::spinoff_prover]
#[verifier::rlimit(60)]
pub proof fn lemma_no_distance(
    m: Machine,
    last: bool,
    literal: Seq<u8>,
    distance: Seq<u8>,
    i: nat,
    e: nat,
    rest: Seq<bool>,
)
    requires
        wf(m),
        m.phase == (Phase::Symbols { last, literal, distance }),
        i < 29,
        i + 257 < literal.len(),
        literal[i as int + 257] > 0,
        m.bits == code_bits(literal, i + 257) + (to_bits(e, LENGTH_TABLE@[i as int].1 as nat)
            + rest),
        rest.len() >= 15,
        forall|s: nat|
            s < distance.len() && distance[s as int] > 0 ==> rest.take(distance[s as int] as int)
                != #[trigger] code_bits(distance, s),
    ensures
        inflate(m) == (m, Stop::Fail(Fault::InvalidData("invalid huffman coded stream"@))),
{
    let n1 = LENGTH_TABLE@[i as int].1 as nat;
    let extra = to_bits(e, n1);
    let tail = extra + rest;
    let w = literal[i as int + 257] as nat;
    lemma_to_bits_len(e, n1);
    lemma_table_ok(literal, None, Some(256));
    lemma_reference_step(m, last, literal, distance, i, tail);
    assert(m.bits.skip((w + n1) as int) =~= m.bits.skip(w as int).skip(n1 as int));
    assert(tail.skip(n1 as int) =~= rest);
    let peek = distance_peek(literal, distance);
    lemma_table_ok(distance, Some(literal_peek(literal)), None);
    lemma_decided(distance, peek, rest);
    if decode_symbol(distance, peek, rest) is Symbol {
        let s = decode_symbol(distance, peek, rest)->Symbol_0;
        assert(rest.take(distance[s as int] as int) == code_bits(distance, s));
    }
    assert(m.bits.len() == w + n1 + rest.len());
    lemma_fails(m, step(m)->Fail_0);
}

// ---------------------------------------------------------------------------
// Tables
// ---------------------------------------------------------------------------

proof fn lemma_room_sum(l: Seq<u8>, n: nat)
    requires
        n <= l.len(),
        forall|i: int| 0 <= i < l.len() ==> #[trigger] l[i] <= 15,
    ensures
        room(l, 15, n) == l.take(n as int).fold_left(
            0,
            |sum: int, w: u8|
                sum + if w > 0 {
                    pow2((15 - w) as nat) as int
                } else {
                    0
                },
        ),
    decreases n,
{
    if n > 0 {
        lemma_room_sum(l, (n - 1) as nat);
        assert(l.take(n as int).drop_last() =~= l.take(n - 1));
        assert(l.take(n as int).last() == l[n - 1]);
    }
}

/// Widths make a table if one of them is not zero, none is over fifteen, and the
/// codes fit: counted in codes of fifteen bits, they take up no more than there
/// are of these.
pub proof fn lemma_table_judged(l: Seq<u8>)
    ensures
        table_fault(l) == if forall|i: int| 0 <= i < l.len() ==> #[trigger] l[i] == 0 {
            Some(Fault::InvalidData("huffman table is empty"@))
        } else if exists|i: int| 0 <= i < l.len() && #[trigger] l[i] > 15 {
            Some(Fault::InvalidData("huffman table uses too many bits"@))
        } else if l.fold_left(
            0,
            |sum: int, w: u8|
                sum + if w > 0 {
                    pow2((15 - w) as nat) as int
                } else {
                    0
                },
        ) > 32768 {
            Some(Fault::InvalidData("conflicting huffman codes"@))
        } else {
            None
        },
{
    lemma_max_width(l);
    lemma2_to64();
    if exists|i: int| 0 <= i < l.len() && #[trigger] l[i] > 15 {
        let i = choose|i: int| 0 <= i < l.len() && #[trigger] l[i] > 15;
        assert(l[i] > 15);
    } else {
        assert forall|i: int| 0 <= i < l.len() implies #[trigger] l[i] <= 15 by {}
        lemma_room(l, 15);
        lemma_room_sum(l, l.len());
        assert(l.take(l.len() as int) =~= l);
        if max_width(l) > 0 {
            assert(!(forall|i: int| 0 <= i < l.len() ==> #[trigger] l[i] == 0));
        }
    }
}

/// The sizes of the tables of a dynamic block: five bits for the literal/length
/// alphabet from 257 on, five for the distances from 1 on, and four for the
/// code-length alphabet from 4 on. More than thirty distances are refused.
#[verifier::spinoff_prover]
#[verifier::rlimit(60)]
pub proof fn lemma_table_sizes(
    m: Machine,
    last: bool,
    hlit: nat,
    hdist: nat,
    hclen: nat,
    rest: Seq<bool>,
) -> (n: Machine)
    requires
        wf(m),
        m.phase == (Phase::TableHeader { last }),
        257 <= hlit <= 288,
        1 <= hdist <= 32,
        4 <= hclen <= 19,
        m.bits == to_bits((hlit - 257) as nat, 5) + (to_bits((hdist - 1) as nat, 5) + (to_bits(
            (hclen - 4) as nat,
            4,
        ) + rest)),
    ensures
        hdist <= 30 ==> {
            &&& inflate(m) == inflate(n)
            &&& wf(n)
            &&& n.out == m.out
            &&& n.bits == rest
            &&& n.phase == (Phase::WidthTable {
                last,
                hlit,
                hdist,
                hclen,
                read: 0,
                widths: Seq::new(19, |i: int| 0u8),
            })
        },
        hdist > 30 ==> inflate(m) == (
            m,
            Stop::Fail(Fault::InvalidData("HDIST is too large: "@ + decimal(hdist) + ""@)),
        ),
{
    let a = to_bits((hlit - 257) as nat, 5);
    let b = to_bits((hdist - 1) as nat, 5);
    let c = to_bits((hclen - 4) as nat, 4);
    lemma2_to64();
    lemma_to_bits_len((hlit - 257) as nat, 5);
    lemma_to_bits_len((hdist - 1) as nat, 5);
    lemma_to_bits_len((hclen - 4) as nat, 4);
    lemma_from_to_bits_fit((hlit - 257) as nat, 5);
    lemma_from_to_bits_fit((hdist - 1) as nat, 5);
    lemma_from_to_bits_fit((hclen - 4) as nat, 4);
    assert(m.bits.take(5) =~= a);
    assert(m.bits.skip(5).take(5) =~= b);
    assert(m.bits.skip(10).take(4) =~= c);
    assert(m.bits.skip(14) =~= rest);
    assert(repeated(0, 19) =~= Seq::new(19, |i: int| 0u8));
    if hdist <= 30 {
        lemma_go_on(m);
        step(m)->Next_0
    } else {
        lemma_fails(m, step(m)->Fail_0);
        m
    }
}

/// The next width of the code-length alphabet, in three bits.
#[verifier::spinoff_prover]
#[verifier::rlimit(60)]
pub proof fn lemma_next_width(
    m: Machine,
    last: bool,
    hlit: nat,
    hdist: nat,
    hclen: nat,
    read: nat,
    widths: Seq<u8>,
    w: u8,
    rest: Seq<bool>,
) -> (n: Machine)
    requires
        wf(m),
        m.phase == (Phase::WidthTable { last, hlit, hdist, hclen, read, widths }),
        read < hclen,
        w < 8,
        m.bits == to_bits(w as nat, 3) + rest,
    ensures
        inflate(m) == inflate(n),
        wf(n),
        n.out == m.out,
        n.bits == rest,
        n.phase == (Phase::WidthTable {
            last,
            hlit,
            hdist,
            hclen,
            read: read + 1,
            widths: widths.update(BITWIDTH_CODE_ORDER@[read as int] as int, w),
        }),
{
    lemma2_to64();
    lemma_to_bits_len(w as nat, 3);
    lemma_from_to_bits_fit(w as nat, 3);
    assert(m.bits.take(3) =~= to_bits(w as nat, 3));
    assert(m.bits.skip(3) =~= rest);
    lemma_go_on(m);
    step(m)->Next_0
}

/// When all widths of the code-length alphabet are there, its table is built.
#[verifier::spinoff_prover]
#[verifier::rlimit(60)]
pub proof fn lemma_widths_read(
    m: Machine,
    last: bool,
    hlit: nat,
    hdist: nat,
    hclen: nat,
    widths: Seq<u8>,
) -> (n: Machine)
    requires
        wf(m),
        m.phase == (Phase::WidthTable { last, hlit, hdist, hclen, read: hclen, widths }),
    ensures
        match table_fault(widths) {
            Some(fault) => inflate(m) == (m, Stop::Fail(fault)),
            None => {
                &&& inflate(m) == inflate(n)
                &&& wf(n)
                &&& n.out == m.out
                &&& n.bits == m.bits
                &&& n.phase == (Phase::CodeLengths {
                    last,
                    hlit,
                    hdist,
                    widths,
                    lengths: Seq::empty(),
                })
            },
        },
{
    assert(m.bits.skip(0) =~= m.bits);
    if table_fault(widths) is None {
        lemma_go_on(m);
        step(m)->Next_0
    } else {
        lemma_fails(m, step(m)->Fail_0);
        m
    }
}

/// An element of the code lengths. Symbols up to 15 are a length. Symbol 16
/// repeats the last one three to six times, symbol 17 zero three to ten times,
/// and symbol 18 zero eleven to 138 times, with two, three and seven bits saying
/// how much more than the least. A repetition of nothing, and one that goes
/// beyond the tables, are refused.
#[verifier::spinoff_prover]
#[verifier::rlimit(60)]
pub proof fn lemma_next_lengths(
    m: Machine,
    last: bool,
    hlit: nat,
    hdist: nat,
    widths: Seq<u8>,
    lengths: Seq<u8>,
    s: nat,
    e: nat,
    rest: Seq<bool>,
) -> (n: Machine)
    requires
        wf(m),
        m.phase == (Phase::CodeLengths { last, hlit, hdist, widths, lengths }),
        lengths.len() < hlit + hdist,
        s <= 18,
        widths[s as int] > 0,
        s <= 15 ==> e == 0,
        s == 16 ==> e < 4,
        s == 17 ==> e < 8,
        s == 18 ==> e < 128,
        m.bits == code_bits(widths, s) + (to_bits(
            e,
            if s <= 15 {
                0
            } else if s == 16 {
                2
            } else if s == 17 {
                3
            } else {
                7
            },
        ) + rest),
    ensures
        ({
            let times: nat = if s <= 15 {
                1
            } else if s == 18 {
                e + 11
            } else {
                e + 3
            };
            let value = if s <= 15 {
                s as u8
            } else if s == 16 {
                lengths.last()
            } else {
                0
            };
            &&& s == 16 && lengths.len() == 0 ==> inflate(m) == (
                m,
                Stop::Fail(Fault::InvalidData("repeat code 16 without a previous code"@)),
            )
            &&& !(s == 16 && lengths.len() == 0) && lengths.len() + times > hlit + hdist
                ==> inflate(m) == (
                m,
                Stop::Fail(
                    Fault::InvalidData(
                        "dynamic huffman code lengths exceed the announced table size"@,
                    ),
                ),
            )
            &&& !(s == 16 && lengths.len() == 0) && lengths.len() + times <= hlit + hdist ==> {
                &&& inflate(m) == inflate(n)
                &&& wf(n)
                &&& n.out == m.out
                &&& n.bits == rest
                &&& n.phase == (Phase::CodeLengths {
                    last,
                    hlit,
                    hdist,
                    widths,
                    lengths: lengths + Seq::new(times, |i: int| value),
                })
            }
        }),
{
    let x: nat = if s <= 15 {
        0
    } else if s == 16 {
        2
    } else if s == 17 {
        3
    } else {
        7
    };
    let times: nat = if s <= 15 {
        1
    } else if s == 18 {
        e + 11
    } else {
        e + 3
    };
    let value = if s <= 15 {
        s as u8
    } else if s == 16 {
        lengths.last()
    } else {
        0
    };
    let extra = to_bits(e, x);
    let w = widths[s as int] as nat;
    let peek = peek_width(widths, Some(1), None);
    lemma2_to64();
    lemma_table_ok(widths, Some(1), None);
    lemma_to_bits_len(word(widths, s), w);
    lemma_to_bits_len(e, x);
    lemma_from_to_bits_fit(e, x);
    lemma_read_code(widths, peek, s, m.bits, extra + rest);
    assert((extra + rest).take(x as int) =~= extra);
    assert(m.bits.skip((w + x) as int) =~= rest);
    assert(repeated(value, times) =~= Seq::new(times, |i: int| value));
    if s <= 15 {
        assert(lengths.push(value) =~= lengths + Seq::new(times, |i: int| value));
        assert(m.bits.skip(w as int) =~= rest);
    }
    if !(s == 16 && lengths.len() == 0) {
        let longer = lengths + Seq::new(times, |i: int| value);
        assert(next_element(m, widths, lengths) matches Element::Lengths {
            lengths: got,
            taken,
            ..
        } && got == longer && m.bits.skip(taken as int) == rest);
    }
    if (s == 16 && lengths.len() == 0) || lengths.len() + times > hlit + hdist {
        lemma_fails(m, step(m)->Fail_0);
        m
    } else {
        lemma_go_on(m);
        step(m)->Next_0
    }
}

/// Bits that begin with the code of no element are refused.
#[verifier::spinoff_prover]
#[verifier::rlimit(60)]
pub proof fn lemma_no_element(
    m: Machine,
    last: bool,
    hlit: nat,
    hdist: nat,
    widths: Seq<u8>,
    lengths: Seq<u8>,
)
    requires
        wf(m),
        m.phase == (Phase::CodeLengths { last, hlit, hdist, widths, lengths }),
        lengths.len() < hlit + hdist,
        m.bits.len() >= 15,
        forall|s: nat|
            s < widths.len() && widths[s as int] > 0 ==> m.bits.take(widths[s as int] as int)
                != #[trigger] code_bits(widths, s),
    ensures
        inflate(m) == (m, Stop::Fail(Fault::InvalidData("invalid huffman coded stream"@))),
{
    let peek = peek_width(widths, Some(1), None);
    lemma_table_ok(widths, Some(1), None);
    lemma_decided(widths, peek, m.bits);
    if decode_symbol(widths, peek, m.bits) is Symbol {
        let s = decode_symbol(widths, peek, m.bits)->Symbol_0;
        assert(m.bits.take(widths[s as int] as int) == code_bits(widths, s));
    }
    lemma_fails(m, step(m)->Fail_0);
}

/// When all code lengths are there, the first `hlit` of them are those of the
/// literal/length alphabet and the others those of the distances. Both tables
/// are built.
#[verifier::spinoff_prover]
#[verifier::rlimit(60)]
pub proof fn lemma_lengths_read(
    m: Machine,
    last: bool,
    hlit: nat,
    hdist: nat,
    widths: Seq<u8>,
    literal: Seq<u8>,
    distance: Seq<u8>,
) -> (n: Machine)
    requires
        wf(m),
        m.phase == (Phase::CodeLengths {
            last,
            hlit,
            hdist,
            widths,
            lengths: literal + distance,
        }),
        literal.len() == hlit,
        distance.len() == hdist,
    ensures
        match (table_fault(literal), table_fault(distance)) {
            (Some(fault), _) => inflate(m) == (m, Stop::Fail(fault)),
            (None, Some(fault)) => inflate(m) == (m, Stop::Fail(fault)),
            (None, None) => {
                &&& inflate(m) == inflate(n)
                &&& wf(n)
                &&& n.out == m.out
                &&& n.bits == m.bits
                &&& n.phase == (Phase::Symbols { last, literal, distance })
            },
        },
{
    let lengths = literal + distance;
    assert(lengths.take(hlit as int) =~= literal);
    assert(lengths.subrange(hlit as int, (hlit + hdist) as int) =~= distance);
    assert(m.bits.skip(0) =~= m.bits);
    if table_fault(literal) is None && table_fault(distance) is None {
        lemma_go_on(m);
        step(m)->Next_0
    } else {
        lemma_fails(m, step(m)->Fail_0);
        m
    }
}

/// The bytes that are left behind the last block are those of which no bit was
/// read.
pub proof fn lemma_left_over(m: Machine)
    requires
        wf(m),
        m.phase is Done,
    ensures
        unread_bytes(m).len() == m.bits.len() / 8,
        byte_bits(unread_bytes(m)) == m.bits.skip((m.bits.len() % 8) as int),
{
    let tail = m.bits.skip(m.held as int);
    lemma_bits_of_bytes(tail);
    lemma_byte_bits_len(unread_bytes(m));
}

/// A decoder that stops for its limit has reached it, and one that does not stop
/// for it has done all that can be done.
pub proof fn lemma_stop_at_limit(m: Machine, limit: nat)
    requires
        wf(m),
    ensures
        run(m, limit).1 is Full ==> run(m, limit).0.out.len() >= limit,
        !(run(m, limit).1 is Full) ==> run(m, limit) == inflate(m),
        inflate(run(m, limit).0) == inflate(m),
{
    lemma_run(m, limit);
}

/// The sizes that the library keeps to: 64 KiB of output that waits, blocks of
/// 64 KiB, 32 candidates for a match, and buffers that are compacted at 1 MiB.
pub proof fn lemma_sizes()
    ensures
        crate::decode::MAX_INTERNAL_BUFFER == 65536,
        crate::encode::DEFAULT_MAX_BLOCK_INPUT == 65536,
        crate::lz77::MAX_CHAIN_LEN == 32,
        crate::lz77::HASH_SIZE == 32768,
        crate::decode::COMPACT_THRESHOLD == 1048576,
        crate::encode::COMPACT_THRESHOLD == 1048576,
        crate::gzip::COMPACT_THRESHOLD == 1048576,
        crate::buf::BUF_COMPACT_THRESHOLD == 1048576,
{
}

} // verus!
