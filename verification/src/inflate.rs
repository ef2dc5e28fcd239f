//! What a DEFLATE stream (RFC 1951) means.
//!
//! A [`Machine`] is a point in the decoding of a stream: where in the format
//! it stands, what has been put out, and which bits are still unread.
//! [`step`] reads the next element. [`inflate`] takes all the steps that the
//! bits at hand allow.

use crate::bit::loaded;
use crate::bits::{
    byte_bits, bytes_of, from_bits, lemma_bits_of_bytes, lemma_byte_bits_concat,
    lemma_byte_bits_injective, lemma_byte_bits_len, lemma_byte_bits_skip, lemma_bytes_of,
    lemma_from_bits_bound,
};
use crate::canonical::{
    decode_symbol, lemma_decode_symbol, lemma_decode_symbol_extend, lemma_decoded, lemma_max_width,
    max_width, peek_width, prefix_free, Decoded,
};
use crate::error::{decimal, invalid, Fault};
use crate::huffman::{no_such_code, table_fault};
use crate::symbol::{
    fixed_distance_lengths, fixed_literal_lengths, BITWIDTH_CODE_ORDER, DISTANCE_TABLE,
    LENGTH_TABLE, MAX_MATCH,
};
use vstd::arithmetic::power2::lemma2_to64;
use vstd::prelude::*;

verus! {

/// Where in the format a decoder stands.
pub enum Phase {
    /// Before a block.
    Header,
    /// In a stored block, before its length.
    StoredLength { last: bool },
    /// In the bytes of a stored block.
    StoredBody { remaining: nat, last: bool },
    /// In a dynamic block, before the sizes of its tables.
    TableHeader { last: bool },
    /// In the widths of the code-length alphabet, of which `read` are known.
    WidthTable { last: bool, hlit: nat, hdist: nat, hclen: nat, read: nat, widths: Seq<u8> },
    /// In the code lengths of the two other alphabets.
    CodeLengths { last: bool, hlit: nat, hdist: nat, widths: Seq<u8>, lengths: Seq<u8> },
    /// In the symbols of a block with these code widths.
    Symbols { last: bool, literal: Seq<u8>, distance: Seq<u8> },
    /// Behind the last block.
    Done,
}

/// A point in the decoding of a stream.
pub struct Machine {
    /// Where in the format it is.
    pub phase: Phase,
    /// All bytes decoded so far.
    pub out: Seq<u8>,
    /// The bits that are at hand and unread.
    pub bits: Seq<bool>,
    /// How many of them have been taken from the input as part of a byte.
    pub held: nat,
}

/// What comes of an attempt to read the next element.
pub enum Step {
    /// It was read.
    Next(Machine),
    /// It is not complete.
    NeedMore,
    /// The stream has ended.
    Finished,
    /// It is not valid.
    Fail(Fault),
}

/// The bits buffered after reading `n` bits, when `held` were buffered before.
pub open spec fn after_read(held: nat, n: nat) -> nat {
    (loaded(held, n) - n) as nat
}

/// The bits buffered after reading a code of width `w` for which `peek` bits
/// were looked at first.
pub open spec fn after_symbol(held: nat, peek: nat, w: nat) -> nat {
    (loaded(
        held,
        if w <= peek {
            peek
        } else {
            w
        },
    ) - w) as nat
}

/// A machine before the first block of a stream that begins with `bits`.
pub open spec fn start(bits: Seq<bool>) -> Machine {
    Machine { phase: Phase::Header, out: Seq::empty(), bits, held: 0 }
}

impl Machine {
    /// The same point with more bits at hand.
    pub open spec fn push(self, more: Seq<bool>) -> Machine {
        Machine { bits: self.bits + more, ..self }
    }

    /// The point reached by reading `n` bits, with `held` bits buffered.
    pub open spec fn goto(self, phase: Phase, n: nat, held: nat) -> Machine {
        Machine { phase, out: self.out, bits: self.bits.skip(n as int), held }
    }
}

/// A point behind a stream with this output, with no bits at hand.
pub open spec fn ended(out: Seq<u8>) -> Machine {
    Machine { phase: Phase::Done, out, bits: Seq::empty(), held: 0 }
}

/// The bytes at hand of which no bit has been taken.
pub open spec fn unread_bytes(m: Machine) -> Seq<u8> {
    bytes_of(m.bits.skip(m.held as int))
}

/// How many bits of a literal/length code are looked at first.
pub open spec fn literal_peek(literal: Seq<u8>) -> nat {
    peek_width(literal, None, Some(256))
}

/// How many bits of a distance code are looked at first.
pub open spec fn distance_peek(literal: Seq<u8>, distance: Seq<u8>) -> nat {
    peek_width(distance, Some(literal_peek(literal)), None)
}

/// `length` bytes copied from `distance` bytes back, one after the other, so
/// that copied bytes can be copied again.
pub open spec fn copied(out: Seq<u8>, distance: nat, length: nat) -> Seq<u8>
    decreases length,
{
    if length == 0 {
        out
    } else {
        copied(out.push(out[out.len() - distance]), distance, (length - 1) as nat)
    }
}

/// `n` times the byte `value`.
pub open spec fn repeated(value: u8, n: nat) -> Seq<u8> {
    Seq::new(n, |i: int| value)
}

/// The fault of a stored block whose length is not confirmed.
pub open spec fn stored_length_fault(len: nat, nlen: nat) -> Fault {
    Fault::InvalidData(
        "LEN="@ + decimal(len) + " is not the one's complement of NLEN="@ + decimal(nlen),
    )
}

/// The fault of a reference to before the start of the output.
pub open spec fn reference_fault(output_len: nat, distance: nat) -> Fault {
    Fault::InvalidData(
        "too long backward reference: output_len="@ + decimal(output_len) + ", distance="@
            + decimal(distance),
    )
}

/// A fault of kind `InvalidData` whose message ends with a number.
pub open spec fn numbered_fault(before: &str, n: nat, after: &str) -> Fault {
    Fault::InvalidData(before@ + decimal(n) + after@)
}

/// The start of a block: whether it is the last one, and its type.
pub open spec fn header_step(m: Machine) -> Step {
    if m.bits.len() < 3 {
        Step::NeedMore
    } else {
        let last = m.bits[0];
        let kind = from_bits(m.bits.skip(1).take(2));
        let held = after_read(after_read(m.held, 1), 2);
        if kind == 0 {
            Step::Next(m.goto(Phase::StoredLength { last }, 3, held))
        } else if kind == 1 {
            Step::Next(
                m.goto(
                    Phase::Symbols {
                        last,
                        literal: fixed_literal_lengths(),
                        distance: fixed_distance_lengths(),
                    },
                    3,
                    held,
                ),
            )
        } else if kind == 2 {
            Step::Next(m.goto(Phase::TableHeader { last }, 3, held))
        } else {
            Step::Fail(invalid("reserved DEFLATE block type"))
        }
    }
}

/// The length of a stored block, behind the padding to a byte, and its complement.
pub open spec fn stored_length_step(m: Machine, last: bool) -> Step {
    let pad = m.bits.len() % 8;
    if m.bits.len() < pad + 32 {
        Step::NeedMore
    } else {
        let len = from_bits(m.bits.skip(pad as int).take(16));
        let nlen = from_bits(m.bits.skip(pad as int + 16).take(16));
        if len + nlen != 0xffff {
            Step::Fail(stored_length_fault(len, nlen))
        } else {
            Step::Next(m.goto(Phase::StoredBody { remaining: len, last }, pad + 32, 0))
        }
    }
}

/// Where a decoder stands after a block.
pub open spec fn behind_block(last: bool) -> Phase {
    if last {
        Phase::Done
    } else {
        Phase::Header
    }
}

/// A byte of a stored block.
pub open spec fn stored_body_step(m: Machine, remaining: nat, last: bool) -> Step {
    if remaining == 0 {
        Step::Next(m.goto(behind_block(last), 0, m.held))
    } else if m.bits.len() < 8 {
        Step::NeedMore
    } else {
        Step::Next(
            Machine {
                phase: Phase::StoredBody { remaining: (remaining - 1) as nat, last },
                out: m.out.push(from_bits(m.bits.take(8)) as u8),
                bits: m.bits.skip(8),
                held: m.held,
            },
        )
    }
}

/// The sizes of the tables of a dynamic block.
pub open spec fn table_header_step(m: Machine, last: bool) -> Step {
    if m.bits.len() < 14 {
        Step::NeedMore
    } else {
        let hlit = from_bits(m.bits.take(5)) + 257;
        let hdist = from_bits(m.bits.skip(5).take(5)) + 1;
        let hclen = from_bits(m.bits.skip(10).take(4)) + 4;
        if hdist > 30 {
            Step::Fail(numbered_fault("HDIST is too large: ", hdist, ""))
        } else {
            Step::Next(
                m.goto(
                    Phase::WidthTable {
                        last,
                        hlit,
                        hdist,
                        hclen,
                        read: 0,
                        widths: repeated(0, 19),
                    },
                    14,
                    after_read(after_read(after_read(m.held, 5), 5), 4),
                ),
            )
        }
    }
}

/// A width of the code-length alphabet, or the end of these.
pub open spec fn width_table_step(
    m: Machine,
    last: bool,
    hlit: nat,
    hdist: nat,
    hclen: nat,
    read: nat,
    widths: Seq<u8>,
) -> Step {
    if read < hclen {
        if m.bits.len() < 3 {
            Step::NeedMore
        } else {
            let width = from_bits(m.bits.take(3)) as u8;
            let slot = BITWIDTH_CODE_ORDER@[read as int] as int;
            Step::Next(
                m.goto(
                    Phase::WidthTable {
                        last,
                        hlit,
                        hdist,
                        hclen,
                        read: read + 1,
                        widths: widths.update(slot, width),
                    },
                    3,
                    after_read(m.held, 3),
                ),
            )
        }
    } else {
        match table_fault(widths) {
            Some(fault) => Step::Fail(fault),
            None => Step::Next(
                m.goto(
                    Phase::CodeLengths { last, hlit, hdist, widths, lengths: Seq::empty() },
                    0,
                    m.held,
                ),
            ),
        }
    }
}

/// The code lengths, extended by what one element of their encoding stands
/// for, and the bits that it takes.
pub enum Element {
    /// The element is not complete.
    NeedMore,
    /// It is not valid.
    Fail(Fault),
    /// These code lengths, after so many bits, with so many buffered.
    Lengths { lengths: Seq<u8>, taken: nat, held: nat },
}

/// An element that repeats `value` at least `least` times, `n` bits saying how
/// often in addition. These follow `w` bits that were read already.
pub open spec fn repeat_element(
    m: Machine,
    lengths: Seq<u8>,
    w: nat,
    held: nat,
    n: nat,
    least: nat,
    value: u8,
) -> Element {
    if m.bits.len() < w + n {
        Element::NeedMore
    } else {
        let times = from_bits(m.bits.skip(w as int).take(n as int)) + least;
        Element::Lengths {
            lengths: lengths + repeated(value, times),
            taken: w + n,
            held: after_read(held, n),
        }
    }
}

/// The next element of the encoding of the code lengths.
pub open spec fn next_element(m: Machine, widths: Seq<u8>, lengths: Seq<u8>) -> Element {
    let peek = peek_width(widths, Some(1), None);
    match decode_symbol(widths, peek, m.bits) {
        Decoded::NeedMore => Element::NeedMore,
        Decoded::Invalid => Element::Fail(no_such_code()),
        Decoded::Symbol(s) => {
            let w = widths[s as int] as nat;
            let held = after_symbol(m.held, peek, w);
            if s <= 15 {
                Element::Lengths { lengths: lengths.push(s as u8), taken: w, held }
            } else if s == 16 {
                if m.bits.len() < w + 2 {
                    Element::NeedMore
                } else if lengths.len() == 0 {
                    Element::Fail(invalid("repeat code 16 without a previous code"))
                } else {
                    repeat_element(m, lengths, w, held, 2, 3, lengths.last())
                }
            } else if s == 17 {
                repeat_element(m, lengths, w, held, 3, 3, 0)
            } else if s == 18 {
                repeat_element(m, lengths, w, held, 7, 11, 0)
            } else {
                Element::Fail(numbered_fault("invalid code length symbol: ", s, ""))
            }
        },
    }
}

/// An element of the code lengths, or the end of these.
pub open spec fn code_lengths_step(
    m: Machine,
    last: bool,
    hlit: nat,
    hdist: nat,
    widths: Seq<u8>,
    lengths: Seq<u8>,
) -> Step {
    if lengths.len() < hlit + hdist {
        match next_element(m, widths, lengths) {
            Element::NeedMore => Step::NeedMore,
            Element::Fail(fault) => Step::Fail(fault),
            Element::Lengths { lengths: longer, taken, held } => if longer.len() > hlit + hdist {
                Step::Fail(
                    invalid("dynamic huffman code lengths exceed the announced table size"),
                )
            } else {
                Step::Next(
                    m.goto(
                        Phase::CodeLengths { last, hlit, hdist, widths, lengths: longer },
                        taken,
                        held,
                    ),
                )
            },
        }
    } else {
        let literal = lengths.take(hlit as int);
        let distance = lengths.subrange(hlit as int, (hlit + hdist) as int);
        match table_fault(literal) {
            Some(fault) => Step::Fail(fault),
            None => match table_fault(distance) {
                Some(fault) => Step::Fail(fault),
                None => Step::Next(m.goto(Phase::Symbols { last, literal, distance }, 0, m.held)),
            },
        }
    }
}

/// The rest of a back-reference whose length symbol `s`, of width `w`, was
/// read: the extra bits of the length, the distance symbol and its extra bits.
pub open spec fn reference_step(
    m: Machine,
    last: bool,
    literal: Seq<u8>,
    distance: Seq<u8>,
    s: nat,
    w: nat,
    held: nat,
) -> Step {
    let (length_base, length_bits) = LENGTH_TABLE@[s - 257];
    let n1 = length_bits as nat;
    if m.bits.len() < w + n1 {
        Step::NeedMore
    } else {
        let length = length_base as nat + from_bits(m.bits.skip(w as int).take(n1 as int));
        let held1 = if n1 == 0 {
            held
        } else {
            after_read(held, n1)
        };
        let peek = distance_peek(literal, distance);
        match decode_symbol(distance, peek, m.bits.skip((w + n1) as int)) {
            Decoded::NeedMore => Step::NeedMore,
            Decoded::Invalid => Step::Fail(no_such_code()),
            Decoded::Symbol(d) => {
                let dw = distance[d as int] as nat;
                let held2 = after_symbol(held1, peek, dw);
                if d >= 30 {
                    Step::Fail(numbered_fault("invalid distance symbol: ", d, ""))
                } else {
                    let (distance_base, distance_bits) = DISTANCE_TABLE@[d as int];
                    let n2 = distance_bits as nat;
                    let at = w + n1 + dw;
                    if m.bits.len() < at + n2 {
                        Step::NeedMore
                    } else {
                        let far = distance_base as nat + from_bits(
                            m.bits.skip(at as int).take(n2 as int),
                        );
                        let held3 = if n2 == 0 {
                            held2
                        } else {
                            after_read(held2, n2)
                        };
                        if far > m.out.len() {
                            Step::Fail(reference_fault(m.out.len(), far))
                        } else {
                            Step::Next(
                                Machine {
                                    phase: Phase::Symbols { last, literal, distance },
                                    out: copied(m.out, far, length),
                                    bits: m.bits.skip((at + n2) as int),
                                    held: held3,
                                },
                            )
                        }
                    }
                }
            },
        }
    }
}

/// A symbol of a block, with what belongs to it.
pub open spec fn symbol_step(
    m: Machine,
    last: bool,
    literal: Seq<u8>,
    distance: Seq<u8>,
) -> Step {
    let peek = literal_peek(literal);
    match decode_symbol(literal, peek, m.bits) {
        Decoded::NeedMore => Step::NeedMore,
        Decoded::Invalid => Step::Fail(no_such_code()),
        Decoded::Symbol(s) => {
            let w = literal[s as int] as nat;
            let held = after_symbol(m.held, peek, w);
            if s <= 255 {
                Step::Next(
                    Machine {
                        phase: m.phase,
                        out: m.out.push(s as u8),
                        bits: m.bits.skip(w as int),
                        held,
                    },
                )
            } else if s == 256 {
                Step::Next(m.goto(behind_block(last), w, held))
            } else if s <= 285 {
                reference_step(m, last, literal, distance, s, w, held)
            } else {
                Step::Fail(
                    numbered_fault(
                        "literal/length symbol ",
                        s,
                        " must not appear in compressed data",
                    ),
                )
            }
        },
    }
}

/// Read the next element of the stream.
pub open spec fn step(m: Machine) -> Step {
    match m.phase {
        Phase::Header => header_step(m),
        Phase::StoredLength { last } => stored_length_step(m, last),
        Phase::StoredBody { remaining, last } => stored_body_step(m, remaining, last),
        Phase::TableHeader { last } => table_header_step(m, last),
        Phase::WidthTable { last, hlit, hdist, hclen, read, widths } => width_table_step(
            m,
            last,
            hlit,
            hdist,
            hclen,
            read,
            widths,
        ),
        Phase::CodeLengths { last, hlit, hdist, widths, lengths } => code_lengths_step(
            m,
            last,
            hlit,
            hdist,
            widths,
            lengths,
        ),
        Phase::Symbols { last, literal, distance } => symbol_step(m, last, literal, distance),
        Phase::Done => Step::Finished,
    }
}

/// A measure for the steps that read no bits.
pub open spec fn rank(phase: Phase) -> nat {
    match phase {
        Phase::Done => 0,
        Phase::Header => 1,
        Phase::Symbols { .. } => 1,
        Phase::StoredBody { .. } => 2,
        Phase::CodeLengths { .. } => 2,
        Phase::WidthTable { .. } => 3,
        Phase::StoredLength { .. } => 3,
        Phase::TableHeader { .. } => 4,
    }
}

/// A step reads bits, or it goes on to a phase of lower rank.
pub proof fn lemma_step_smaller(m: Machine)
    ensures
        step(m) matches Step::Next(n) ==> n.bits.len() < m.bits.len() || (n.bits.len()
            == m.bits.len() && rank(n.phase) < rank(m.phase)),
{
    match m.phase {
        Phase::CodeLengths { last, hlit, hdist, widths, lengths } => {
            let peek = peek_width(widths, Some(1), None);
            if decode_symbol(widths, peek, m.bits) is Symbol {
                lemma_decoded(widths, peek, m.bits);
            }
        },
        Phase::Symbols { last, literal, distance } => {
            let peek = literal_peek(literal);
            if decode_symbol(literal, peek, m.bits) is Symbol {
                lemma_decoded(literal, peek, m.bits);
            }
        },
        _ => {},
    }
}

/// Why a decoder stops.
pub enum Stop {
    /// The next element is not complete.
    NeedMore,
    /// The output that nobody has taken yet has reached its limit.
    Full,
    /// The stream has ended.
    Finished,
    /// The stream is not valid.
    Fail(Fault),
}

/// The output has reached the length `limit` where more of it could come: within
/// the symbols of a block, or before a byte of a stored one.
pub open spec fn full(m: Machine, limit: nat) -> bool {
    &&& m.out.len() >= limit
    &&& m.phase is Symbols || (m.phase matches Phase::StoredBody { remaining, .. } && remaining > 0)
}

/// Take steps until one cannot be taken or the output has reached the length
/// `limit`.
#[verifier::opaque]
pub open spec fn run(m: Machine, limit: nat) -> (Machine, Stop)
    decreases m.bits.len(), rank(m.phase),
{
    if full(m, limit) {
        (m, Stop::Full)
    } else {
        proof {
            lemma_step_smaller(m);
        }
        match step(m) {
            Step::Next(n) => run(n, limit),
            Step::NeedMore => (m, Stop::NeedMore),
            Step::Finished => (m, Stop::Finished),
            Step::Fail(fault) => (m, Stop::Fail(fault)),
        }
    }
}

/// Take steps until one cannot be taken.
#[verifier::opaque]
pub open spec fn inflate(m: Machine) -> (Machine, Stop)
    decreases m.bits.len(), rank(m.phase),
{
    proof {
        lemma_step_smaller(m);
    }
    match step(m) {
        Step::Next(n) => inflate(n),
        Step::NeedMore => (m, Stop::NeedMore),
        Step::Finished => (m, Stop::Finished),
        Step::Fail(fault) => (m, Stop::Fail(fault)),
    }
}

// ---------------------------------------------------------------------------
// What holds at every point
// ---------------------------------------------------------------------------

/// All values are at most `bound`.
pub open spec fn at_most(s: Seq<u8>, bound: u8) -> bool {
    forall|i: int| 0 <= i < s.len() ==> #[trigger] s[i] <= bound
}

/// The sizes of the tables are within the limits of the format.
pub open spec fn sizes_ok(hlit: nat, hdist: nat) -> bool {
    &&& 257 <= hlit <= 288
    &&& 1 <= hdist <= 30
}

/// What the phase guarantees about its parts and the buffered bits.
pub open spec fn phase_wf(phase: Phase, held: nat) -> bool {
    match phase {
        Phase::Header | Phase::Done => held < 8,
        Phase::StoredLength { .. } => held < 8,
        Phase::TableHeader { .. } => held < 8,
        Phase::StoredBody { remaining, .. } => held == 0 && remaining <= 0xffff,
        Phase::WidthTable { hlit, hdist, hclen, read, widths, .. } => {
            &&& held < 8
            &&& sizes_ok(hlit, hdist)
            &&& 4 <= hclen <= 19
            &&& read <= hclen
            &&& widths.len() == 19
            &&& at_most(widths, 7)
        },
        Phase::CodeLengths { hlit, hdist, widths, lengths, .. } => {
            &&& held < 8
            &&& sizes_ok(hlit, hdist)
            &&& widths.len() == 19
            &&& table_fault(widths) is None
            &&& lengths.len() <= hlit + hdist
            &&& at_most(lengths, 15)
        },
        Phase::Symbols { literal, distance, .. } => {
            &&& held <= literal_peek(literal) + 7
            &&& sizes_ok(literal.len(), distance.len())
            &&& table_fault(literal) is None
            &&& table_fault(distance) is None
        },
    }
}

/// What holds at every point of a stream that comes in whole bytes.
pub open spec fn wf(m: Machine) -> bool {
    &&& m.held <= m.bits.len()
    &&& m.held % 8 == m.bits.len() % 8
    &&& phase_wf(m.phase, m.held)
}

/// How many bits are buffered at most, and that all of them are there.
pub proof fn lemma_loaded(h: nat, n: nat, len: nat)
    requires
        h <= len,
        h % 8 == len % 8,
        n <= len,
    ensures
        n <= loaded(h, n) <= len,
        loaded(h, n) % 8 == h % 8,
        loaded(h, n) <= h || loaded(h, n) <= n + 7,
        h <= loaded(h, n),
        after_read(h, n) % 8 == (len - n) % 8,
        after_read(h, n) <= len - n,
        h < 8 ==> after_read(h, n) < 8,
{
    reveal(loaded);
}

/// What a table that can be built guarantees.
pub proof fn lemma_table_ok(l: Seq<u8>, hint: Option<nat>, end: Option<nat>)
    requires
        table_fault(l) is None,
    ensures
        prefix_free(l),
        1 <= max_width(l) <= 15,
        1 <= peek_width(l, hint, end) <= 15,
        hint is Some && hint->0 >= 1 && end is None ==> peek_width(l, hint, end) <= hint->0,
        forall|i: int| 0 <= i < l.len() ==> #[trigger] l[i] <= max_width(l),
{
    lemma_max_width(l);
}

/// The end of a block is looked for with exactly as many bits as it has.
pub proof fn lemma_end_peek(l: Seq<u8>)
    requires
        table_fault(l) is None,
        l.len() > 256,
        l[256] > 0,
    ensures
        literal_peek(l) == l[256],
{
    lemma_max_width(l);
}

proof fn lemma_count_range(l: Seq<u8>, w: nat, a: nat, b: nat)
    requires
        a <= b <= l.len(),
        forall|i: int| a <= i < b ==> #[trigger] l[i] == l[a as int],
    ensures
        crate::canonical::count(l, w, b) == crate::canonical::count(l, w, a) + if a < b
            && l[a as int] == w {
            (b - a) as nat
        } else {
            0
        },
    decreases b,
{
    if a < b {
        lemma_count_range(l, w, a, (b - 1) as nat);
    }
}

/// The number of codes of each width in a fixed block.
proof fn lemma_fixed_counts(w: nat)
    ensures
        crate::canonical::count(fixed_literal_lengths(), w, 288) == if w == 7 {
            24nat
        } else if w == 8 {
            152nat
        } else if w == 9 {
            112nat
        } else {
            0nat
        },
        crate::canonical::count(fixed_distance_lengths(), w, 30) == if w == 5 {
            30nat
        } else {
            0nat
        },
{
    let l = fixed_literal_lengths();
    lemma_count_range(l, w, 0, 144);
    lemma_count_range(l, w, 144, 256);
    lemma_count_range(l, w, 256, 280);
    lemma_count_range(l, w, 280, 288);
    lemma_count_range(fixed_distance_lengths(), w, 0, 30);
}

/// The tables of a fixed block can be built.
pub proof fn lemma_fixed_tables()
    ensures
        table_fault(fixed_literal_lengths()) is None,
        table_fault(fixed_distance_lengths()) is None,
        literal_peek(fixed_literal_lengths()) == 7,
        fixed_literal_lengths().len() == 288,
        fixed_distance_lengths().len() == 30,
{
    let l = fixed_literal_lengths();
    let d = fixed_distance_lengths();
    lemma_max_width(l);
    lemma_max_width(d);
    assert(l[0] == 8 && l[256] == 7 && d[0] == 5);
    lemma2_to64();
    assert forall|w: nat| true implies #[trigger] crate::canonical::count(l, w, 288) == if w == 7 {
        24nat
    } else if w == 8 {
        152nat
    } else if w == 9 {
        112nat
    } else {
        0nat
    } by {
        lemma_fixed_counts(w);
    }
    assert forall|w: nat| true implies #[trigger] crate::canonical::count(d, w, 30) == if w == 5 {
        30nat
    } else {
        0nat
    } by {
        lemma_fixed_counts(w);
    }
    reveal_with_fuel(crate::canonical::first_code, 16);
    assert(crate::canonical::used(l, 15) == 32768);
    assert(crate::canonical::used(d, 15) == 30720);
}

/// A copy adds as many bytes as it is long, and keeps those before it.
pub proof fn lemma_copied(out: Seq<u8>, distance: nat, length: nat)
    requires
        1 <= distance <= out.len(),
    ensures
        copied(out, distance, length).len() == out.len() + length,
        copied(out, distance, length).take(out.len() as int) == out,
    decreases length,
{
    if length == 0 {
        assert(out.take(out.len() as int) =~= out);
    } else {
        let next = out.push(out[out.len() - distance]);
        lemma_copied(next, distance, (length - 1) as nat);
        let all = copied(out, distance, length);
        assert(all.take(out.len() as int) =~= all.take(next.len() as int).take(out.len() as int));
        assert(next.take(out.len() as int) =~= out);
    }
}

/// What is in front of the output plays no part in a copy that does not reach
/// it.
pub proof fn lemma_copied_front(front: Seq<u8>, out: Seq<u8>, distance: nat, length: nat)
    requires
        1 <= distance <= out.len(),
    ensures
        copied(front + out, distance, length) == front + copied(out, distance, length),
    decreases length,
{
    if length > 0 {
        let byte = out[out.len() - distance];
        assert((front + out)[(front + out).len() - distance] == byte);
        assert((front + out).push(byte) =~= front + out.push(byte));
        lemma_copied_front(front, out.push(byte), distance, (length - 1) as nat);
    }
}

/// A step keeps to what holds at every point, and only adds to the output.
#[verifier::spinoff_prover]
#[verifier::rlimit(60)]
pub proof fn lemma_step_wf(m: Machine)
    requires
        wf(m),
    ensures
        step(m) matches Step::Next(n) ==> {
            &&& wf(n)
            &&& m.out.len() <= n.out.len()
            &&& n.out.take(m.out.len() as int) == m.out
            &&& n.bits.len() <= m.bits.len()
            &&& n.bits == m.bits.skip(m.bits.len() - n.bits.len())
        },
{
    if step(m) is Next {
        let n = step(m)->Next_0;
        assert(m.bits.skip(0) =~= m.bits);
        assert(m.out.take(m.out.len() as int) =~= m.out);
        match m.phase {
            Phase::Header => {
                lemma_loaded(m.held, 1, m.bits.len());
                lemma_loaded(after_read(m.held, 1), 2, (m.bits.len() - 1) as nat);
                lemma_fixed_tables();
            },
            Phase::StoredLength { last } => {
                let pad = m.bits.len() % 8;
                lemma_from_bits_bound(m.bits.skip(pad as int).take(16));
                lemma2_to64();
            },
            Phase::StoredBody { remaining, last } => {
                if remaining > 0 {
                    assert(n.out.take(m.out.len() as int) =~= m.out);
                }
            },
            Phase::TableHeader { last } => {
                lemma2_to64();
                lemma_from_bits_bound(m.bits.take(5));
                lemma_from_bits_bound(m.bits.skip(5).take(5));
                lemma_from_bits_bound(m.bits.skip(10).take(4));
                let h1 = after_read(m.held, 5);
                let h2 = after_read(h1, 5);
                lemma_loaded(m.held, 5, m.bits.len());
                lemma_loaded(h1, 5, (m.bits.len() - 5) as nat);
                lemma_loaded(h2, 4, (m.bits.len() - 10) as nat);
            },
            Phase::WidthTable { last, hlit, hdist, hclen, read, widths } => {
                if read < hclen {
                    lemma2_to64();
                    lemma_from_bits_bound(m.bits.take(3));
                    lemma_loaded(m.held, 3, m.bits.len());
                }
            },
            Phase::CodeLengths { last, hlit, hdist, widths, lengths } => {
                lemma_code_lengths_wf(m, last, hlit, hdist, widths, lengths);
            },
            Phase::Symbols { last, literal, distance } => {
                lemma_symbol_wf(m, last, literal, distance);
            },
            Phase::Done => {},
        }
    }
}

#[verifier::spinoff_prover]
#[verifier::rlimit(60)]
proof fn lemma_after_symbol(h: nat, peek: nat, w: nat, len: nat, p: nat)
    requires
        h <= len,
        h % 8 == len % 8,
        1 <= w <= len,
        peek <= len,
    ensures
        after_symbol(h, peek, w) <= len - w,
        after_symbol(h, peek, w) % 8 == (len - w) % 8,
        h <= peek + 7 ==> after_symbol(h, peek, w) <= peek + 7,
        h <= peek + 7 && w == peek ==> after_symbol(h, peek, w) < 8,
        h < 8 && peek == 1 ==> after_symbol(h, peek, w) < 8,
        h <= p + 7 && peek <= p ==> after_symbol(h, peek, w) <= p + 7,
{
    let n = if w <= peek {
        peek
    } else {
        w
    };
    lemma_loaded(h, n, len);
}

#[verifier::spinoff_prover]
#[verifier::rlimit(60)]
proof fn lemma_code_lengths_wf(
    m: Machine,
    last: bool,
    hlit: nat,
    hdist: nat,
    widths: Seq<u8>,
    lengths: Seq<u8>,
)
    requires
        wf(m),
        m.phase == (Phase::CodeLengths { last, hlit, hdist, widths, lengths }),
    ensures
        step(m) matches Step::Next(n) ==> {
            &&& wf(n)
            &&& n.out == m.out
            &&& n.bits.len() <= m.bits.len()
            &&& n.bits == m.bits.skip(m.bits.len() - n.bits.len())
        },
{
    assert(m.bits.skip(0) =~= m.bits);
    if step(m) is Next {
        if lengths.len() < hlit + hdist {
            let peek = peek_width(widths, Some(1), None);
            lemma_table_ok(widths, Some(1), None);
            assert(peek == 1);
            lemma_decoded(widths, peek, m.bits);
            let s = decode_symbol(widths, peek, m.bits)->Symbol_0;
            let w = widths[s as int] as nat;
            let held = after_symbol(m.held, peek, w);
            lemma_after_symbol(m.held, peek, w, m.bits.len(), peek);
            if s > 15 {
                let n = if s == 16 {
                    2nat
                } else if s == 17 {
                    3nat
                } else {
                    7nat
                };
                lemma_loaded(held, n, (m.bits.len() - w) as nat);
            }
        } else {
            let literal = lengths.take(hlit as int);
            let distance = lengths.subrange(hlit as int, (hlit + hdist) as int);
            lemma_table_ok(literal, None, Some(256));
        }
    }
}

#[verifier::spinoff_prover]
#[verifier::rlimit(60)]
proof fn lemma_symbol_wf(m: Machine, last: bool, literal: Seq<u8>, distance: Seq<u8>)
    requires
        wf(m),
        m.phase == (Phase::Symbols { last, literal, distance }),
    ensures
        step(m) matches Step::Next(n) ==> {
            &&& wf(n)
            &&& m.out.len() <= n.out.len()
            &&& n.out.take(m.out.len() as int) == m.out
            &&& n.bits.len() <= m.bits.len()
            &&& n.bits == m.bits.skip(m.bits.len() - n.bits.len())
        },
{
    assert(m.out.take(m.out.len() as int) =~= m.out);
    if step(m) is Next {
        let peek = literal_peek(literal);
        lemma_table_ok(literal, None, Some(256));
        lemma_decoded(literal, peek, m.bits);
        let s = decode_symbol(literal, peek, m.bits)->Symbol_0;
        let w = literal[s as int] as nat;
        let held = after_symbol(m.held, peek, w);
        lemma_after_symbol(m.held, peek, w, m.bits.len(), peek);
        if s <= 255 {
            assert(m.out.push(s as u8).take(m.out.len() as int) =~= m.out);
        } else if s == 256 {
            lemma_end_peek(literal);
        } else {
            lemma_reference_wf(m, last, literal, distance, s, w, held);
        }
    }
}

#[verifier::spinoff_prover]
#[verifier::rlimit(60)]
proof fn lemma_reference_wf(
    m: Machine,
    last: bool,
    literal: Seq<u8>,
    distance: Seq<u8>,
    s: nat,
    w: nat,
    held: nat,
)
    requires
        m.phase == (Phase::Symbols { last, literal, distance }),
        phase_wf(m.phase, m.held),
        257 <= s <= 285,
        w <= m.bits.len(),
        held <= m.bits.len() - w,
        held % 8 == (m.bits.len() - w) % 8,
        held <= literal_peek(literal) + 7,
    ensures
        reference_step(m, last, literal, distance, s, w, held) matches Step::Next(n) ==> {
            &&& wf(n)
            &&& m.out.len() <= n.out.len()
            &&& n.out.take(m.out.len() as int) == m.out
            &&& n.bits.len() <= m.bits.len()
            &&& n.bits == m.bits.skip(m.bits.len() - n.bits.len())
        },
{
    if reference_step(m, last, literal, distance, s, w, held) is Next {
        let peek = literal_peek(literal);
        lemma_table_ok(literal, None, Some(256));
        let n1 = LENGTH_TABLE@[s - 257].1 as nat;
        lemma_loaded(held, n1, (m.bits.len() - w) as nat);
        let held1 = if n1 == 0 {
            held
        } else {
            after_read(held, n1)
        };
        let rest = m.bits.skip((w + n1) as int);
        let dp = distance_peek(literal, distance);
        lemma_table_ok(distance, Some(peek), None);
        lemma_decoded(distance, dp, rest);
        let d = decode_symbol(distance, dp, rest)->Symbol_0;
        let dw = distance[d as int] as nat;
        lemma_after_symbol(held1, dp, dw, rest.len(), peek);
        let held2 = after_symbol(held1, dp, dw);
        let n2 = DISTANCE_TABLE@[d as int].1 as nat;
        lemma_loaded(held2, n2, (rest.len() - dw) as nat);
        let at = w + n1 + dw;
        let far = DISTANCE_TABLE@[d as int].0 as nat + from_bits(
            m.bits.skip(at as int).take(n2 as int),
        );
        let length = LENGTH_TABLE@[s - 257].0 as nat + from_bits(
            m.bits.skip(w as int).take(n1 as int),
        );
        assert(far >= 1);
        lemma_copied(m.out, far, length);
    }
}

// ---------------------------------------------------------------------------
// More input
// ---------------------------------------------------------------------------

proof fn lemma_extended(a: Seq<bool>, b: Seq<bool>)
    ensures
        forall|k: int| 0 <= k <= a.len() ==> #[trigger] (a + b).skip(k) == a.skip(k) + b,
        forall|k: int| 0 <= k <= a.len() ==> #[trigger] (a + b).take(k) == a.take(k),
        forall|k: int, n: int|
            0 <= k && 0 <= n && k + n <= a.len() ==> #[trigger] (a + b).skip(k).take(n) == a.skip(
                k,
            ).take(n),
{
    assert forall|k: int| 0 <= k <= a.len() implies #[trigger] (a + b).skip(k) == a.skip(k) + b by {
        assert((a + b).skip(k) =~= a.skip(k) + b);
    }
    assert forall|k: int| 0 <= k <= a.len() implies #[trigger] (a + b).take(k) == a.take(k) by {
        assert((a + b).take(k) =~= a.take(k));
    }
    assert forall|k: int, n: int| 0 <= k && 0 <= n && k + n <= a.len() implies #[trigger] (a
        + b).skip(k).take(n) == a.skip(k).take(n) by {
        assert((a + b).skip(k).take(n) =~= a.skip(k).take(n));
    }
}

proof fn lemma_code_lengths_extend(
    m: Machine,
    more: Seq<bool>,
    last: bool,
    hlit: nat,
    hdist: nat,
    widths: Seq<u8>,
    lengths: Seq<u8>,
)
    requires
        m.phase == (Phase::CodeLengths { last, hlit, hdist, widths, lengths }),
    ensures
        step(m) matches Step::Next(n) ==> step(m.push(more)) == Step::Next(n.push(more)),
        step(m) matches Step::Fail(f) ==> step(m.push(more)) == Step::Fail(f),
{
    lemma_extended(m.bits, more);
    assert((m.bits + more).skip(0) == m.bits.skip(0) + more);
    let peek = peek_width(widths, Some(1), None);
    if !(decode_symbol(widths, peek, m.bits) is NeedMore) {
        lemma_decode_symbol_extend(widths, peek, m.bits, more);
        if decode_symbol(widths, peek, m.bits) is Symbol {
            lemma_decoded(widths, peek, m.bits);
            let s = decode_symbol(widths, peek, m.bits)->Symbol_0;
            let w = widths[s as int] as nat;
            assert((m.bits + more).skip(w as int) == m.bits.skip(w as int) + more);
            lemma_extended(m.bits.skip(w as int), more);
        }
    }
}

proof fn lemma_reference_extend(
    m: Machine,
    more: Seq<bool>,
    last: bool,
    literal: Seq<u8>,
    distance: Seq<u8>,
    s: nat,
    w: nat,
    held: nat,
)
    requires
        257 <= s <= 285,
        w <= m.bits.len(),
    ensures
        reference_step(m, last, literal, distance, s, w, held) matches Step::Next(n)
            ==> reference_step(m.push(more), last, literal, distance, s, w, held) == Step::Next(
            n.push(more),
        ),
        reference_step(m, last, literal, distance, s, w, held) matches Step::Fail(f)
            ==> reference_step(m.push(more), last, literal, distance, s, w, held) == Step::Fail(f),
{
    lemma_extended(m.bits, more);
    let n1 = LENGTH_TABLE@[s - 257].1 as nat;
    if m.bits.len() >= w + n1 {
        let rest = m.bits.skip((w + n1) as int);
        let dp = distance_peek(literal, distance);
        assert((m.bits + more).skip((w + n1) as int) == rest + more);
        if !(decode_symbol(distance, dp, rest) is NeedMore) {
            lemma_decode_symbol_extend(distance, dp, rest, more);
            if decode_symbol(distance, dp, rest) is Symbol {
                lemma_decoded(distance, dp, rest);
            }
        }
    }
}

proof fn lemma_symbol_extend(
    m: Machine,
    more: Seq<bool>,
    last: bool,
    literal: Seq<u8>,
    distance: Seq<u8>,
)
    requires
        m.phase == (Phase::Symbols { last, literal, distance }),
    ensures
        step(m) matches Step::Next(n) ==> step(m.push(more)) == Step::Next(n.push(more)),
        step(m) matches Step::Fail(f) ==> step(m.push(more)) == Step::Fail(f),
{
    lemma_extended(m.bits, more);
    let peek = literal_peek(literal);
    if !(decode_symbol(literal, peek, m.bits) is NeedMore) {
        lemma_decode_symbol_extend(literal, peek, m.bits, more);
        if decode_symbol(literal, peek, m.bits) is Symbol {
            lemma_decoded(literal, peek, m.bits);
            let s = decode_symbol(literal, peek, m.bits)->Symbol_0;
            let w = literal[s as int] as nat;
            let held = after_symbol(m.held, peek, w);
            assert((m.bits + more).skip(w as int) == m.bits.skip(w as int) + more);
            if 257 <= s <= 285 {
                lemma_reference_extend(m, more, last, literal, distance, s, w, held);
            }
        }
    }
}

proof fn lemma_header_extend(m: Machine, more: Seq<bool>)
    ensures
        header_step(m) matches Step::Next(n) ==> header_step(m.push(more))
            == Step::Next(n.push(more)),
        header_step(m) matches Step::Fail(f) ==> header_step(m.push(more))
            == Step::Fail(f),
{
    lemma_extended(m.bits, more);
    if m.bits.len() >= 3 {
        assert((m.bits + more)[0] == m.bits[0]);
        assert((m.bits + more).skip(1).take(2) == m.bits.skip(1).take(2));
        assert((m.bits + more).skip(3) == m.bits.skip(3) + more);
    }
}

#[verifier::spinoff_prover]
#[verifier::rlimit(60)]
proof fn lemma_stored_length_extend(m: Machine, more: Seq<bool>, last: bool)
    requires
        more.len() % 8 == 0,
    ensures
        stored_length_step(m, last) matches Step::Next(n) ==> stored_length_step(m.push(more), last)
            == Step::Next(n.push(more)),
        stored_length_step(m, last) matches Step::Fail(f) ==> stored_length_step(m.push(more), last)
            == Step::Fail(f),
{
    let b = m.bits + more;
    let pad = m.bits.len() % 8;
    assert(b.len() % 8 == pad);
    if m.bits.len() >= pad + 32 {
        let p = pad as int;
        assert(b.skip(p).take(16) =~= m.bits.skip(p).take(16));
        assert(b.skip(p + 16).take(16) =~= m.bits.skip(p + 16).take(16));
        assert(b.skip(p + 32) =~= m.bits.skip(p + 32) + more);
    }
}

proof fn lemma_stored_body_extend(m: Machine, more: Seq<bool>, remaining: nat, last: bool)
    ensures
        stored_body_step(m, remaining, last) matches Step::Next(n) ==> stored_body_step(
            m.push(more),
            remaining,
            last,
        ) == Step::Next(n.push(more)),
        stored_body_step(m, remaining, last) matches Step::Fail(f) ==> stored_body_step(
            m.push(more),
            remaining,
            last,
        ) == Step::Fail(f),
{
    lemma_extended(m.bits, more);
    assert((m.bits + more).skip(0) == m.bits.skip(0) + more);
    if m.bits.len() >= 8 {
        assert((m.bits + more).skip(8) == m.bits.skip(8) + more);
        assert((m.bits + more).take(8) == m.bits.take(8));
    }
}

proof fn lemma_table_header_extend(m: Machine, more: Seq<bool>, last: bool)
    ensures
        table_header_step(m, last) matches Step::Next(n) ==> table_header_step(m.push(more), last)
            == Step::Next(n.push(more)),
        table_header_step(m, last) matches Step::Fail(f) ==> table_header_step(m.push(more), last)
            == Step::Fail(f),
{
    lemma_extended(m.bits, more);
    if m.bits.len() >= 14 {
        assert((m.bits + more).take(5) == m.bits.take(5));
        assert((m.bits + more).skip(5).take(5) == m.bits.skip(5).take(5));
        assert((m.bits + more).skip(10).take(4) == m.bits.skip(10).take(4));
        assert((m.bits + more).skip(14) == m.bits.skip(14) + more);
    }
}

proof fn lemma_width_table_extend(
    m: Machine,
    more: Seq<bool>,
    last: bool,
    hlit: nat,
    hdist: nat,
    hclen: nat,
    read: nat,
    widths: Seq<u8>,
)
    ensures
        ({
            let before = width_table_step(m, last, hlit, hdist, hclen, read, widths);
            let after = width_table_step(
                m.push(more),
                last,
                hlit,
                hdist,
                hclen,
                read,
                widths,
            );
            &&& before matches Step::Next(n) ==> after == Step::Next(n.push(more))
            &&& before matches Step::Fail(f) ==> after == Step::Fail(f)
        }),
{
    lemma_extended(m.bits, more);
    assert((m.bits + more).skip(0) == m.bits.skip(0) + more);
    if m.bits.len() >= 3 {
        assert((m.bits + more).take(3) == m.bits.take(3));
        assert((m.bits + more).skip(3) == m.bits.skip(3) + more);
    }
}

/// A step that can be taken is not changed by more bytes behind, nor is a
/// fault or the end.
pub proof fn lemma_step_extend(m: Machine, more: Seq<bool>)
    requires
        more.len() % 8 == 0,
    ensures
        step(m) matches Step::Next(n) ==> step(m.push(more)) == Step::Next(n.push(more)),
        step(m) matches Step::Fail(f) ==> step(m.push(more)) == Step::Fail(f),
        step(m) is Finished ==> step(m.push(more)) is Finished,
{
    match m.phase {
        Phase::Header => {
            lemma_header_extend(m, more);
        },
        Phase::StoredLength { last } => {
            lemma_stored_length_extend(m, more, last);
        },
        Phase::StoredBody { remaining, last } => {
            lemma_stored_body_extend(m, more, remaining, last);
        },
        Phase::TableHeader { last } => {
            lemma_table_header_extend(m, more, last);
        },
        Phase::WidthTable { last, hlit, hdist, hclen, read, widths } => {
            lemma_width_table_extend(m, more, last, hlit, hdist, hclen, read, widths);
        },
        Phase::CodeLengths { last, hlit, hdist, widths, lengths } => {
            lemma_code_lengths_extend(m, more, last, hlit, hdist, widths, lengths);
        },
        Phase::Symbols { last, literal, distance } => {
            lemma_symbol_extend(m, more, last, literal, distance);
        },
        Phase::Done => {},
    }
}

// ---------------------------------------------------------------------------
// Many steps
// ---------------------------------------------------------------------------

/// Where [`inflate`] stops, nothing is lost, and no step can be taken.
pub proof fn lemma_inflate(m: Machine)
    requires
        wf(m),
    ensures
        ({
            let (n, stop) = inflate(m);
            &&& wf(n)
            &&& m.out.len() <= n.out.len()
            &&& n.out.take(m.out.len() as int) == m.out
            &&& n.bits.len() <= m.bits.len()
            &&& n.bits == m.bits.skip(m.bits.len() - n.bits.len())
            &&& inflate(n) == (n, stop)
            &&& !(stop is Full)
            &&& stop is Finished <==> n.phase is Done
        }),
    decreases m.bits.len(), rank(m.phase),
{
    reveal(run);
    reveal(inflate);
    lemma_step_smaller(m);
    lemma_step_wf(m);
    assert(m.bits.skip(0) =~= m.bits);
    assert(m.out.take(m.out.len() as int) =~= m.out);
    if let Step::Next(k) = step(m) {
        lemma_inflate(k);
        let n = inflate(m).0;
        assert(n.out.take(k.out.len() as int).take(m.out.len() as int) =~= n.out.take(
            m.out.len() as int,
        ));
        assert(m.bits.skip(m.bits.len() - k.bits.len()).skip(k.bits.len() - n.bits.len())
            =~= m.bits.skip(m.bits.len() - n.bits.len()));
    }
}

/// What stopped at a limit goes on as if it had not stopped.
pub proof fn lemma_run(m: Machine, limit: nat)
    requires
        wf(m),
    ensures
        ({
            let (n, stop) = run(m, limit);
            &&& wf(n)
            &&& m.out.len() <= n.out.len()
            &&& n.out.take(m.out.len() as int) == m.out
            &&& n.bits.len() <= m.bits.len()
            &&& n.bits == m.bits.skip(m.bits.len() - n.bits.len())
            &&& inflate(n) == inflate(m)
            &&& !(stop is Full) ==> inflate(m) == (n, stop)
            &&& stop is Full <==> full(n, limit)
            &&& stop is Finished <==> n.phase is Done
            &&& run(n, limit) == (n, stop)
        }),
    decreases m.bits.len(), rank(m.phase),
{
    reveal(run);
    reveal(inflate);
    lemma_step_smaller(m);
    lemma_step_wf(m);
    assert(m.bits.skip(0) =~= m.bits);
    assert(m.out.take(m.out.len() as int) =~= m.out);
    if !full(m, limit) {
        if let Step::Next(k) = step(m) {
            lemma_run(k, limit);
            let n = run(m, limit).0;
            assert(n.out.take(k.out.len() as int).take(m.out.len() as int) =~= n.out.take(
                m.out.len() as int,
            ));
            assert(m.bits.skip(m.bits.len() - k.bits.len()).skip(k.bits.len() - n.bits.len())
                =~= m.bits.skip(m.bits.len() - n.bits.len()));
        }
    }
}

/// Decoding what is at hand first and the rest later, or all of it at once, is
/// the same.
pub proof fn lemma_inflate_extend(m: Machine, more: Seq<bool>)
    requires
        wf(m),
        more.len() % 8 == 0,
    ensures
        inflate(m.push(more)) == match inflate(m) {
            (n, Stop::NeedMore) => inflate(n.push(more)),
            (n, stop) => (n.push(more), stop),
        },
    decreases m.bits.len(), rank(m.phase),
{
    reveal(run);
    reveal(inflate);
    lemma_step_smaller(m);
    lemma_step_wf(m);
    lemma_step_extend(m, more);
    if let Step::Next(k) = step(m) {
        lemma_inflate_extend(k, more);
    }
}

/// The same for a decoder that stops at a limit.
pub proof fn lemma_run_extend(m: Machine, more: Seq<bool>, limit: nat, higher: nat)
    requires
        wf(m),
        more.len() % 8 == 0,
        limit <= higher,
        run(m, limit).1 is NeedMore || run(m, limit).1 is Full,
    ensures
        run(m.push(more), higher) == run(run(m, limit).0.push(more), higher),
    decreases m.bits.len(), rank(m.phase),
{
    reveal(run);
    reveal(inflate);
    lemma_step_smaller(m);
    lemma_step_wf(m);
    lemma_step_extend(m, more);
    if !full(m, limit) {
        if let Step::Next(k) = step(m) {
            lemma_run_extend(k, more, limit, higher);
        }
    }
}

/// A decoder that goes on comes nearer to the end.
pub proof fn lemma_run_smaller(m: Machine, limit: nat)
    ensures
        ({
            let n = run(m, limit).0;
            n == m || n.bits.len() < m.bits.len() || (n.bits.len() == m.bits.len() && rank(n.phase)
                < rank(m.phase))
        }),
    decreases m.bits.len(), rank(m.phase),
{
    reveal(run);
    lemma_step_smaller(m);
    if !full(m, limit) {
        if let Step::Next(k) = step(m) {
            lemma_run_smaller(k, limit);
        }
    }
}

/// Bytes that come when no more are needed stay unread.
pub proof fn lemma_unread_more(m: Machine, more: Seq<u8>)
    requires
        wf(m),
        m.phase is Done,
    ensures
        unread_bytes(m.push(byte_bits(more))) == unread_bytes(m) + more,
{
    let rest = m.bits.skip(m.held as int);
    lemma_bits_of_bytes(rest);
    lemma_byte_bits_concat(bytes_of(rest), more);
    assert(m.push(byte_bits(more)).bits.skip(m.held as int) =~= byte_bits(bytes_of(rest) + more));
    lemma_bytes_of(bytes_of(rest) + more, Seq::empty());
}

// ---------------------------------------------------------------------------
// The limit on output that waits
// ---------------------------------------------------------------------------

/// A back-reference is no longer than the longest match.
proof fn lemma_longest_reference(bits: Seq<bool>, s: int)
    requires
        0 <= s < 29,
        bits.len() == LENGTH_TABLE@[s].1,
    ensures
        LENGTH_TABLE@[s].0 + from_bits(bits) <= MAX_MATCH,
{
    lemma2_to64();
    lemma_from_bits_bound(bits);
}

/// A step within the symbols of a block puts out at most one match, one within a
/// stored block at most a byte, and any other step nothing.
#[verifier::spinoff_prover]
#[verifier::rlimit(60)]
proof fn lemma_step_output(m: Machine)
    requires
        wf(m),
    ensures
        step(m) matches Step::Next(n) ==> {
            &&& m.phase is Symbols ==> n.out.len() <= m.out.len() + MAX_MATCH
            &&& m.phase matches Phase::StoredBody { remaining, .. } ==> n.out.len() <= m.out.len()
                + 1 && (remaining == 0 ==> n.out == m.out)
            &&& !(m.phase is Symbols) && !(m.phase is StoredBody) ==> n.out == m.out
        },
{
    lemma_step_wf(m);
    if let Phase::Symbols { last, literal, distance } = m.phase {
        let peek = literal_peek(literal);
        if let Decoded::Symbol(s) = decode_symbol(literal, peek, m.bits) {
            let w = literal[s as int] as nat;
            let held = after_symbol(m.held, peek, w);
            if 257 <= s <= 285 && reference_step(m, last, literal, distance, s, w, held) is Next {
                let n1 = LENGTH_TABLE@[s - 257].1 as nat;
                let extra = m.bits.skip(w as int).take(n1 as int);
                lemma_longest_reference(extra, s - 257);
                let length = LENGTH_TABLE@[s - 257].0 as nat + from_bits(extra);
                let dp = distance_peek(literal, distance);
                let d = decode_symbol(distance, dp, m.bits.skip((w + n1) as int))->Symbol_0;
                let at = w + n1 + distance[d as int] as nat;
                let n2 = DISTANCE_TABLE@[d as int].1 as nat;
                let far = DISTANCE_TABLE@[d as int].0 as nat + from_bits(
                    m.bits.skip(at as int).take(n2 as int),
                );
                assert(far >= 1);
                lemma_copied(m.out, far, length);
            }
        }
    }
}

/// The limit on output that waits is passed by less than one match, and nothing
/// is added where it has been reached already.
pub proof fn lemma_overshoot(m: Machine, limit: nat)
    requires
        wf(m),
    ensures
        run(m, limit).0.out.len() < limit + MAX_MATCH || run(m, limit).0.out == m.out,
    decreases m.bits.len(), rank(m.phase),
{
    reveal(run);
    if !full(m, limit) {
        lemma_step_smaller(m);
        lemma_step_wf(m);
        lemma_step_output(m);
        if let Step::Next(k) = step(m) {
            lemma_overshoot(k, limit);
        }
    }
}

// ---------------------------------------------------------------------------
// What follows a stream
// ---------------------------------------------------------------------------

/// Where the symbols of a block are read to an end, there are the bits of the
/// symbol that ends them.
#[verifier::spinoff_prover]
#[verifier::rlimit(60)]
proof fn lemma_end_room(m: Machine, last: bool, literal: Seq<u8>, distance: Seq<u8>)
    requires
        wf(m),
        m.phase == (Phase::Symbols { last, literal, distance }),
        inflate(m).1 is Finished,
    ensures
        literal[256] > 0,
        m.bits.len() >= inflate(m).0.bits.len() + literal[256],
    decreases m.bits.len(),
{
    reveal(inflate);
    let peek = literal_peek(literal);
    lemma_step_wf(m);
    if let Step::Next(k) = step(m) {
        lemma_inflate(k);
        lemma_decoded(literal, peek, m.bits);
        let s = decode_symbol(literal, peek, m.bits)->Symbol_0;
        if s != 256 {
            assert(k.phase == m.phase);
            lemma_step_smaller(m);
            lemma_end_room(k, last, literal, distance);
        }
    }
}

/// A symbol that is decoded from bits is decoded from fewer of them, if its code
/// and those that are looked at first are there.
proof fn lemma_fewer_bits(l: Seq<u8>, peek: nat, bits: Seq<bool>, more: Seq<bool>)
    requires
        table_fault(l) is None,
        1 <= peek <= 15,
        decode_symbol(l, peek, bits + more) is Symbol,
        bits.len() >= peek,
        bits.len() >= l[decode_symbol(l, peek, bits + more)->Symbol_0 as int],
    ensures
        decode_symbol(l, peek, bits) == decode_symbol(l, peek, bits + more),
{
    let s = decode_symbol(l, peek, bits + more)->Symbol_0;
    lemma_decoded(l, peek, bits + more);
    lemma_table_ok(l, None, None);
    assert((bits + more).take(l[s as int] as int) =~= bits.take(l[s as int] as int));
    lemma_decode_symbol(l, peek, bits, s);
}

#[verifier::spinoff_prover]
#[verifier::rlimit(60)]
proof fn lemma_enough_code_lengths(
    m: Machine,
    more: Seq<bool>,
    last: bool,
    hlit: nat,
    hdist: nat,
    widths: Seq<u8>,
    lengths: Seq<u8>,
)
    requires
        wf(m),
        m.phase == (Phase::CodeLengths { last, hlit, hdist, widths, lengths }),
        step(m.push(more)) matches Step::Next(k) && k.bits.len() >= more.len(),
    ensures
        !(step(m) is NeedMore),
{
    if lengths.len() < hlit + hdist {
        let peek = peek_width(widths, Some(1), None);
        let long = m.push(more);
        lemma_table_ok(widths, Some(1), None);
        lemma_decoded(widths, peek, long.bits);
        lemma_fewer_bits(widths, peek, m.bits, more);
    }
}

#[verifier::spinoff_prover]
#[verifier::rlimit(60)]
proof fn lemma_enough_symbols(
    m: Machine,
    more: Seq<bool>,
    last: bool,
    literal: Seq<u8>,
    distance: Seq<u8>,
)
    requires
        wf(m),
        m.phase == (Phase::Symbols { last, literal, distance }),
        literal[256] > 0,
        step(m.push(more)) matches Step::Next(k) && k.bits.len() >= more.len() + if k.phase
            is Symbols {
            literal[256] as nat
        } else {
            0
        },
    ensures
        !(step(m) is NeedMore),
{
    let peek = literal_peek(literal);
    let long = m.push(more);
    let b = m.bits;
    let k = step(long)->Next_0;
    lemma_end_peek(literal);
    lemma_table_ok(literal, None, Some(256));
    lemma_decoded(literal, peek, long.bits);
    let s = decode_symbol(literal, peek, long.bits)->Symbol_0;
    let w = literal[s as int] as nat;
    let held = after_symbol(m.held, peek, w);
    if 257 <= s <= 285 {
        assert(reference_step(long, last, literal, distance, s, w, held) == Step::Next(k));
        let n1 = LENGTH_TABLE@[s - 257].1 as nat;
        let dp = distance_peek(literal, distance);
        let after = long.bits.skip((w + n1) as int);
        lemma_table_ok(distance, Some(peek), None);
        lemma_decoded(distance, dp, after);
        let d = decode_symbol(distance, dp, after)->Symbol_0;
        let n2 = DISTANCE_TABLE@[d as int].1 as nat;
        let at = w + n1 + distance[d as int] as nat;
        assert(k.bits.len() == long.bits.len() - at - n2);
        assert(b.len() >= at + n2 + literal[256]);
        lemma_fewer_bits(literal, peek, b, more);
        assert(after =~= b.skip((w + n1) as int) + more);
        lemma_fewer_bits(distance, dp, b.skip((w + n1) as int), more);
        assert(b.skip(w as int).take(n1 as int) =~= long.bits.skip(w as int).take(n1 as int));
        assert(b.skip(at as int).take(n2 as int) =~= long.bits.skip(at as int).take(n2 as int));
    } else {
        assert(k.bits.len() == long.bits.len() - w);
        lemma_fewer_bits(literal, peek, b, more);
    }
}

proof fn lemma_enough_header(m: Machine, more: Seq<bool>)
    requires
        header_step(m.push(more)) matches Step::Next(k) && k.bits.len() >= more.len(),
    ensures
        !(header_step(m) is NeedMore),
{
    assert(m.push(more).bits.len() == m.bits.len() + more.len());
}

proof fn lemma_enough_stored_length(m: Machine, more: Seq<bool>, last: bool)
    requires
        more.len() % 8 == 0,
        stored_length_step(m.push(more), last) matches Step::Next(k) && k.bits.len() >= more.len(),
    ensures
        !(stored_length_step(m, last) is NeedMore),
{
    let long = m.push(more);
    assert(long.bits.len() == m.bits.len() + more.len());
    assert(long.bits.len() % 8 == m.bits.len() % 8);
    let pad = long.bits.len() % 8;
    let k = stored_length_step(long, last)->Next_0;
    assert(k.bits == long.bits.skip((pad + 32) as int));
    assert(k.bits.len() == long.bits.len() - pad - 32);
}

proof fn lemma_enough_stored_body(m: Machine, more: Seq<bool>, remaining: nat, last: bool)
    requires
        stored_body_step(m.push(more), remaining, last) matches Step::Next(k) && k.bits.len()
            >= more.len(),
    ensures
        !(stored_body_step(m, remaining, last) is NeedMore),
{
    assert(m.push(more).bits.len() == m.bits.len() + more.len());
}

proof fn lemma_enough_table_header(m: Machine, more: Seq<bool>, last: bool)
    requires
        table_header_step(m.push(more), last) matches Step::Next(k) && k.bits.len() >= more.len(),
    ensures
        !(table_header_step(m, last) is NeedMore),
{
    assert(m.push(more).bits.len() == m.bits.len() + more.len());
}

proof fn lemma_enough_widths(
    m: Machine,
    more: Seq<bool>,
    last: bool,
    hlit: nat,
    hdist: nat,
    hclen: nat,
    read: nat,
    widths: Seq<u8>,
)
    requires
        width_table_step(m.push(more), last, hlit, hdist, hclen, read, widths) matches Step::Next(k)
            && k.bits.len() >= more.len(),
    ensures
        !(width_table_step(m, last, hlit, hdist, hclen, read, widths) is NeedMore),
{
    assert(m.push(more).bits.len() == m.bits.len() + more.len());
}

/// Outside codes, a step that leaves bits unread does not need them.
#[verifier::spinoff_prover]
#[verifier::rlimit(60)]
proof fn lemma_enough_fixed(m: Machine, more: Seq<bool>)
    requires
        more.len() % 8 == 0,
        !(m.phase is CodeLengths),
        !(m.phase is Symbols),
        step(m.push(more)) matches Step::Next(k) && k.bits.len() >= more.len(),
    ensures
        !(step(m) is NeedMore),
{
    match m.phase {
        Phase::Header => lemma_enough_header(m, more),
        Phase::StoredLength { last } => lemma_enough_stored_length(m, more, last),
        Phase::StoredBody { remaining, last } => lemma_enough_stored_body(m, more, remaining, last),
        Phase::TableHeader { last } => lemma_enough_table_header(m, more, last),
        Phase::WidthTable { last, hlit, hdist, hclen, read, widths } => lemma_enough_widths(
            m,
            more,
            last,
            hlit,
            hdist,
            hclen,
            read,
            widths,
        ),
        _ => {},
    }
}

/// The symbols of a block are read with the same codes.
#[verifier::spinoff_prover]
#[verifier::rlimit(60)]
proof fn lemma_same_codes(m: Machine, last: bool, literal: Seq<u8>, distance: Seq<u8>)
    requires
        m.phase == (Phase::Symbols { last, literal, distance }),
    ensures
        step(m) matches Step::Next(k) ==> (k.phase is Symbols ==> k.phase == m.phase),
{
}

/// Among the symbols of a block, a step that is followed by more up to the end
/// does not need the bits that are left unread then.
#[verifier::spinoff_prover]
#[verifier::rlimit(60)]
proof fn lemma_enough_to_end(
    m: Machine,
    more: Seq<bool>,
    k: Machine,
    last: bool,
    literal: Seq<u8>,
    distance: Seq<u8>,
)
    requires
        wf(m),
        wf(m.push(more)),
        wf(k),
        m.phase == (Phase::Symbols { last, literal, distance }),
        step(m.push(more)) == Step::Next(k),
        inflate(m.push(more)).1 is Finished,
        inflate(k) == inflate(m.push(more)),
        inflate(k).0.bits.len() >= more.len(),
        k.bits.len() >= more.len(),
    ensures
        !(step(m) is NeedMore),
{
    lemma_end_room(m.push(more), last, literal, distance);
    lemma_same_codes(m.push(more), last, literal, distance);
    if k.phase is Symbols {
        lemma_end_room(k, last, literal, distance);
    }
    lemma_enough_symbols(m, more, last, literal, distance);
}

/// The same at every other place.
#[verifier::spinoff_prover]
#[verifier::rlimit(60)]
proof fn lemma_enough(m: Machine, more: Seq<bool>, k: Machine)
    requires
        wf(m),
        wf(m.push(more)),
        wf(k),
        more.len() % 8 == 0,
        step(m.push(more)) == Step::Next(k),
        inflate(m.push(more)).1 is Finished,
        inflate(k) == inflate(m.push(more)),
        inflate(k).0.bits.len() >= more.len(),
        k.bits.len() >= more.len(),
    ensures
        !(step(m) is NeedMore),
{
    if m.phase is CodeLengths {
        lemma_enough_code_lengths(
            m,
            more,
            m.phase->CodeLengths_last,
            m.phase->CodeLengths_hlit,
            m.phase->CodeLengths_hdist,
            m.phase->CodeLengths_widths,
            m.phase->lengths,
        );
    } else if m.phase is Symbols {
        lemma_enough_to_end(
            m,
            more,
            k,
            m.phase->Symbols_last,
            m.phase->literal,
            m.phase->distance,
        );
    } else {
        lemma_enough_fixed(m, more);
    }
}

/// What holds at every point holds with more bytes at hand.
proof fn lemma_push_wf(m: Machine, more: Seq<bool>)
    requires
        wf(m),
        more.len() % 8 == 0,
    ensures
        wf(m.push(more)),
{
    assert(m.push(more).bits.len() == m.bits.len() + more.len());
}

/// What a step leads to ends where it ends.
#[verifier::spinoff_prover]
#[verifier::rlimit(60)]
proof fn lemma_step_ahead(m: Machine, k: Machine)
    requires
        wf(m),
        step(m) == Step::Next(k),
    ensures
        wf(k),
        inflate(k) == inflate(m),
        inflate(k).0.bits.len() <= k.bits.len(),
{
    assert(wf(k)) by {
        lemma_step_wf(m);
    }
    assert(inflate(k) == inflate(m)) by {
        reveal(inflate);
    }
    lemma_inflate(k);
}

/// What a stream says does not depend on whether something follows it: what is
/// left unread is not needed.
#[verifier::spinoff_prover]
#[verifier::rlimit(60)]
pub proof fn lemma_not_needed(m: Machine, more: Seq<bool>)
    requires
        wf(m),
        more.len() % 8 == 0,
        inflate(m.push(more)).1 is Finished,
        inflate(m.push(more)).0.bits.len() >= more.len(),
    ensures
        inflate(m).1 is Finished,
        inflate(m).0.push(more) == inflate(m.push(more)).0,
    decreases m.bits.len(), rank(m.phase),
{
    let long = m.push(more);
    lemma_step_extend(m, more);
    match step(m) {
        Step::Next(k) => {
            lemma_step_wf(m);
            lemma_step_smaller(m);
            assert(inflate(m) == inflate(k) && inflate(long) == inflate(k.push(more))) by {
                reveal(inflate);
            }
            lemma_not_needed(k, more);
        },
        _ => {
            reveal(inflate);
            if let Step::Next(k) = step(long) {
                lemma_push_wf(m, more);
                lemma_step_ahead(long, k);
                lemma_enough(m, more, k);
            }
        },
    }
}

/// A decoder that comes to the end of a stream has read just the bytes of the
/// stream: without those that it leaves unread it comes to the same end, and
/// whatever follows them is left unread.
#[verifier::spinoff_prover]
#[verifier::rlimit(60)]
pub proof fn lemma_own_bytes(data: Seq<u8>, rest: Seq<bool>)
    requires
        inflate(start(byte_bits(data))).1 is Finished,
        rest.len() % 8 == 0,
    ensures
        ({
            let reached = inflate(start(byte_bits(data))).0;
            let unread = unread_bytes(reached);
            let own = data.take(data.len() - unread.len());
            let (n, stop) = inflate(start(byte_bits(own) + rest));
            &&& unread.len() <= data.len()
            &&& data == own + unread
            &&& stop is Finished
            &&& n.out == reached.out
            &&& rest.len() + n.held == n.bits.len()
        }),
{
    let all = start(byte_bits(data));
    let reached = inflate(all).0;
    lemma_byte_bits_len(data);
    lemma_inflate(all);
    let tail = reached.bits.skip(reached.held as int);
    let unread = unread_bytes(reached);
    lemma_bits_of_bytes(tail);
    lemma_byte_bits_len(unread);
    let k = (data.len() - unread.len()) as nat;
    assert(unread.len() == tail.len() / 8);
    let own = data.take(k as int);
    lemma_byte_bits_skip(data, k);
    lemma_byte_bits_len(own);
    assert(tail =~= byte_bits(data).skip(8 * k as int));
    lemma_byte_bits_injective(data.skip(k as int), unread);
    assert(data =~= own + unread);
    lemma_byte_bits_concat(own, unread);
    let m = start(byte_bits(own));
    assert(m.push(byte_bits(unread)) == all);
    lemma_not_needed(m, byte_bits(unread));
    lemma_inflate(m);
    let n = inflate(m).0;
    assert(n.held == reached.held);
    assert(n.bits.len() + 8 * unread.len() == reached.bits.len());
    lemma_inflate_extend(m, rest);
    assert(m.push(rest) == start(byte_bits(own) + rest));
}

} // verus!
