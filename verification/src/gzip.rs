//! GZIP (RFC 1952) encoder and decoder.
//!
//! See [`Encoder`] and [`Decoder`] for the streaming API.
//!
//! This module also provides [`Crc32`] and [`crc32`] for CRC-32 checksum
//! computation.

use crate::bits::{
    byte_bits, bytes_of, lemma_bits_of_bytes, lemma_byte_bits_concat, lemma_byte_bits_len,
    lemma_bytes_of,
};
use crate::block::{block, BlockKind};
use crate::buf::Buf;
use crate::crc32::{checksum, crc_state, lemma_crc_concat};
use crate::decode::Decoder as DeflateDecoder;
use crate::encode::{
    fed, finished, fresh, lemma_stream_extends, EncodeOptions, Encoder as DeflateEncoder,
    EncoderState, DEFAULT_MAX_BLOCK_INPUT,
};
use crate::error::{decimal, invalid, invalid_data, numbered, Error, Fault};
use crate::inflate::{
    ended, inflate, lemma_inflate, lemma_inflate_extend, lemma_unread_more, start, unread_bytes,
    wf as machine_wf, Machine, Stop,
};
use crate::laws::{
    completes, lemma_completes_block, lemma_decodes_nothing, lemma_fed, lemma_fed_concat,
    lemma_finished, lemma_fresh, lemma_whole, represents,
};
use std::borrow::Cow;
use vstd::prelude::*;

pub use crate::crc32::{crc32, Crc32};

verus! {

/// The first byte of a stream.
pub const MAGIC1: u8 = 0x1F;

/// The second byte of a stream.
pub const MAGIC2: u8 = 0x8B;

/// The one compression method that there is.
pub const METHOD_DEFLATE: u8 = 8;

/// The flag that says that the header has a checksum.
pub const FHCRC: u8 = 2;

/// The flag that says that there is an extra field.
pub const FEXTRA: u8 = 4;

/// The flag that says that there is a file name.
pub const FNAME: u8 = 8;

/// The flag that says that there is a comment.
pub const FCOMMENT: u8 = 16;

/// Compact the encoder output buffer once the consumed prefix exceeds this size.
///
/// See `encode::COMPACT_THRESHOLD` for the cost model — one copy of the rest
/// per `COMPACT_THRESHOLD` bytes consumed, zero cost under the threshold.
pub const COMPACT_THRESHOLD: usize = 1_048_576;

// ---------------------------------------------------------------------------
// The format
// ---------------------------------------------------------------------------

/// Where in a gzip stream a decoder stands.
pub enum Phase {
    /// In the fixed part of the header, of which these bytes have been read.
    Header { got: Seq<u8> },
    /// In the length of the extra field, of which these bytes have been read.
    ExtraLength { flags: u8, got: Seq<u8> },
    /// In the extra field, with so many bytes of it left.
    Extra { flags: u8, left: nat },
    /// In the file name, which ends with a zero byte.
    Name { flags: u8 },
    /// In the comment, which ends with a zero byte.
    Comment { flags: u8 },
    /// In the checksum of the header, with so many bytes of it left.
    HeaderCrc { left: nat },
    /// In the DEFLATE stream.
    Body,
    /// In the trailer, of which these bytes have been read.
    Trailer { got: Seq<u8> },
    /// Behind the trailer.
    Done,
    /// In a DEFLATE stream that is not valid.
    Failed { fault: Fault },
}

/// A point in the decoding of a gzip stream.
pub struct State {
    pub phase: Phase,
    /// The point that has been reached in the DEFLATE stream. Bits behind it
    /// are part of the trailer.
    pub machine: Machine,
}

/// A point before a stream.
pub open spec fn beginning() -> State {
    State { phase: Phase::Header { got: Seq::empty() }, machine: start(Seq::empty()) }
}

/// A point behind a stream with this output.
pub open spec fn behind(out: Seq<u8>) -> State {
    State { phase: Phase::Done, machine: ended(out) }
}

/// What is left of a decoder of an invalid DEFLATE stream.
pub open spec fn dead(fault: Fault) -> State {
    State { phase: Phase::Failed { fault }, machine: start(Seq::empty()) }
}

/// Whether a flag is set.
pub open spec fn is_set(flags: u8, flag: u8) -> bool {
    flags / flag % 2 == 1
}

/// What is wrong with the fixed part of a header, if anything. The time, the
/// extra flags and the operating system do not matter.
pub open spec fn header_fault(header: Seq<u8>) -> Option<Fault> {
    if header[0] != MAGIC1 || header[1] != MAGIC2 {
        Some(invalid("gzip magic bytes not found"))
    } else if header[2] != METHOD_DEFLATE {
        Some(
            Fault::Unsupported(
                "gzip compression method "@ + decimal(header[2] as nat)
                    + " not supported (only deflate=8)"@,
            ),
        )
    } else {
        None
    }
}

/// What follows a comment, or the place where one could be.
pub open spec fn behind_comment(flags: u8) -> Phase {
    if is_set(flags, FHCRC) {
        Phase::HeaderCrc { left: 2 }
    } else {
        Phase::Body
    }
}

/// What follows a name, or the place where one could be.
pub open spec fn behind_name(flags: u8) -> Phase {
    if is_set(flags, FCOMMENT) {
        Phase::Comment { flags }
    } else {
        behind_comment(flags)
    }
}

/// What follows an extra field, or the place where one could be.
pub open spec fn behind_extra(flags: u8) -> Phase {
    if is_set(flags, FNAME) {
        Phase::Name { flags }
    } else {
        behind_name(flags)
    }
}

/// What follows the fixed part of a header.
pub open spec fn behind_fixed(flags: u8) -> Phase {
    if is_set(flags, FEXTRA) {
        Phase::ExtraLength { flags, got: Seq::empty() }
    } else {
        behind_extra(flags)
    }
}

/// The four bytes of a 32-bit number, the lowest one first.
pub open spec fn le32(v: nat) -> Seq<u8> {
    seq![
        (v % 256) as u8,
        (v / 0x100 % 256) as u8,
        (v / 0x1_0000 % 256) as u8,
        (v / 0x100_0000 % 256) as u8,
    ]
}

/// The trailer behind this output: its checksum, and its length modulo 2^32.
pub open spec fn trailer(out: Seq<u8>) -> Seq<u8> {
    le32(checksum(out) as nat) + le32(out.len() % 0x1_0000_0000)
}

/// What is wrong with a trailer behind this output, if anything.
pub open spec fn trailer_fault(got: Seq<u8>, out: Seq<u8>) -> Option<Fault> {
    if got.take(4) != le32(checksum(out) as nat) {
        Some(invalid("crc-32 checksum mismatch in gzip trailer"))
    } else if got.skip(4) != le32(out.len() % 0x1_0000_0000) {
        Some(invalid("isize mismatch in gzip trailer"))
    } else {
        None
    }
}

/// A measure for the way through a stream.
pub open spec fn rank(phase: Phase) -> nat {
    match phase {
        Phase::Trailer { .. } | Phase::Done | Phase::Failed { .. } => 0,
        _ => 1,
    }
}

/// Take a byte of the header behind its fixed part.
pub open spec fn option_taken(phase: Phase, byte: u8) -> Phase {
    match phase {
        Phase::ExtraLength { flags, got } => if got.len() == 0 {
            Phase::ExtraLength { flags, got: got.push(byte) }
        } else {
            let left = got[0] as nat + 256 * byte as nat;
            if left == 0 {
                behind_extra(flags)
            } else {
                Phase::Extra { flags, left }
            }
        },
        Phase::Extra { flags, left } => if left <= 1 {
            behind_extra(flags)
        } else {
            Phase::Extra { flags, left: (left - 1) as nat }
        },
        Phase::Name { flags } => if byte == 0 {
            behind_name(flags)
        } else {
            phase
        },
        Phase::Comment { flags } => if byte == 0 {
            behind_comment(flags)
        } else {
            phase
        },
        Phase::HeaderCrc { left } => if left <= 1 {
            Phase::Body
        } else {
            Phase::HeaderCrc { left: (left - 1) as nat }
        },
        _ => phase,
    }
}

/// Take a byte outside the DEFLATE stream.
pub open spec fn byte_taken(s: State, byte: u8) -> (State, Option<Fault>) {
    match s.phase {
        Phase::Header { got } => if got.len() >= 10 {
            (s, header_fault(got))
        } else {
            let more = got.push(byte);
            let next = State { phase: Phase::Header { got: more }, ..s };
            if more.len() < 10 {
                (next, None)
            } else {
                match header_fault(more) {
                    Some(fault) => (next, Some(fault)),
                    None => (State { phase: behind_fixed(more[3]), ..s }, None),
                }
            }
        },
        Phase::Trailer { got } => if got.len() >= 8 {
            (s, trailer_fault(got, s.machine.out))
        } else {
            let more = got.push(byte);
            let next = State { phase: Phase::Trailer { got: more }, ..s };
            if more.len() < 8 {
                (next, None)
            } else {
                match trailer_fault(more, s.machine.out) {
                    Some(fault) => (next, Some(fault)),
                    None => (State { phase: Phase::Done, ..s }, None),
                }
            }
        },
        Phase::Done => (s, Some(invalid("bytes fed after gzip stream end"))),
        Phase::Failed { fault } => (s, Some(fault)),
        _ => (State { phase: option_taken(s.phase, byte), ..s }, None),
    }
}

/// What was found to be wrong with a stream, if anything was. Whatever follows,
/// nothing more is taken of it.
pub open spec fn kept_fault(s: State) -> Option<Fault> {
    match s.phase {
        Phase::Header { got } => if got.len() >= 10 {
            header_fault(got)
        } else {
            None
        },
        Phase::Trailer { got } => if got.len() >= 8 {
            trailer_fault(got, s.machine.out)
        } else {
            None
        },
        Phase::Failed { fault } => Some(fault),
        _ => None,
    }
}

/// Take more bytes of a stream.
#[verifier::opaque]
pub open spec fn taken(s: State, data: Seq<u8>) -> (State, Option<Fault>)
    decreases rank(s.phase), data.len(),
{
    if data.len() == 0 {
        (s, None)
    } else if s.phase is Body {
        match inflate(s.machine.push(byte_bits(data))) {
            (reached, Stop::Finished) => taken(
                State {
                    phase: Phase::Trailer { got: Seq::empty() },
                    machine: ended(reached.out),
                },
                unread_bytes(reached),
            ),
            (_, Stop::Fail(fault)) => (dead(fault), Some(fault)),
            (reached, _) => (State { phase: Phase::Body, machine: reached }, None),
        }
    } else {
        match byte_taken(s, data[0]) {
            (next, Some(fault)) => (next, Some(fault)),
            (next, None) => taken(next, data.skip(1)),
        }
    }
}

/// Nothing changes without bytes.
pub proof fn lemma_taken_nothing(s: State)
    ensures
        taken(s, Seq::empty()) == (s, None::<Fault>),
{
    reveal(taken);
}

/// Nothing more is taken of a stream that something is wrong with.
pub proof fn lemma_kept_fault(s: State, data: Seq<u8>)
    requires
        kept_fault(s) is Some,
        data.len() > 0,
    ensures
        taken(s, data) == (s, kept_fault(s)),
{
    reveal(taken);
}

/// Bytes outside the DEFLATE stream are taken one by one.
pub proof fn lemma_taken_byte(s: State, data: Seq<u8>)
    requires
        data.len() > 0,
        !(s.phase is Body),
    ensures
        taken(s, data) == match byte_taken(s, data[0]) {
            (next, Some(fault)) => (next, Some(fault)),
            (next, None) => taken(next, data.skip(1)),
        },
{
    reveal(taken);
}

/// Bytes of the DEFLATE stream are taken as they come.
pub proof fn lemma_taken_body(s: State, data: Seq<u8>)
    requires
        data.len() > 0,
        s.phase is Body,
    ensures
        taken(s, data) == match inflate(s.machine.push(byte_bits(data))) {
            (reached, Stop::Finished) => taken(
                State {
                    phase: Phase::Trailer { got: Seq::empty() },
                    machine: ended(reached.out),
                },
                unread_bytes(reached),
            ),
            (_, Stop::Fail(fault)) => (dead(fault), Some(fault)),
            (reached, _) => (State { phase: Phase::Body, machine: reached }, None),
        },
{
    reveal(taken);
}

// ---------------------------------------------------------------------------
// Decoding
// ---------------------------------------------------------------------------

#[derive(Debug, Clone, Copy, PartialEq, Eq, Structural)]
enum Stage {
    FixedHeader,
    ExtraLen,
    Extra,
    Name,
    Comment,
    Hcrc,
    Body,
    Trailer,
    Done,
}

/// Streaming gzip decoder.
pub struct Decoder {
    stage: Stage,
    flags: u8,
    header: Vec<u8>,
    extra_len: Vec<u8>,
    remaining: u32,
    deflate: DeflateDecoder,
    crc: Crc32,
    size: u32,
    trailer: Vec<u8>,
    output: Buf,
    /// All bytes that were put out.
    produced: Ghost<Seq<u8>>,
}

impl Default for Decoder {
    fn default() -> (decoder: Self)
        ensures
            decoder.wf(),
            decoder.state() == beginning(),
            decoder.produced() == Seq::<u8>::empty(),
            decoder.waiting() == Seq::<u8>::empty(),
    {
        Self::new()
    }
}

/// The sum of a number modulo 2^32 and another number, modulo 2^32.
fn sum_mod32(size: u32, n: usize) -> (sum: u32)
    ensures
        sum == (size + n) % 0x1_0000_0000,
{
    let total: u64 = size as u64 + (n as u64) % 0x1_0000_0000;
    proof {
        vstd::arithmetic::div_mod::lemma_add_mod_noop_right(size as int, n as int, 0x1_0000_0000);
    }
    (total % 0x1_0000_0000) as u32
}

/// The number that four bytes make, the lowest one first.
fn load_le32(b: &Vec<u8>, at: usize) -> (v: u32)
    requires
        at <= 4,
        at + 4 <= b@.len(),
    ensures
        b@.subrange(at as int, at + 4) == le32(v as nat),
{
    let v: u32 = b[at] as u32 + b[at + 1] as u32 * 0x100 + b[at + 2] as u32 * 0x1_0000
        + b[at + 3] as u32 * 0x100_0000;
    proof {
        let n = v as int;
        let b0 = b@[at as int] as int;
        let b1 = b@[at + 1] as int;
        let b2 = b@[at + 2] as int;
        let b3 = b@[at + 3] as int;
        assert(n / 0x100_0000 == b3);
        assert(n / 0x1_0000 == b3 * 256 + b2);
        assert(n / 0x100 == b3 * 65536 + b2 * 256 + b1);
        assert(n / 0x100_0000 % 256 == b3);
        assert(n / 0x1_0000 % 256 == b2);
        assert(n / 0x100 % 256 == b1);
        assert(n % 256 == b0);
        assert(b@.subrange(at as int, at + 4) =~= le32(v as nat));
    }
    v
}

/// A 32-bit number is the sum of its bytes.
proof fn lemma_le32_sum(v: nat)
    requires
        v < 0x1_0000_0000,
    ensures
        v == le32(v)[3] * 0x100_0000 + le32(v)[2] * 0x1_0000 + le32(v)[1] * 0x100 + le32(v)[0],
{
    let b1 = v / 0x100;
    let b2 = v / 0x1_0000;
    let b3 = v / 0x100_0000;
    assert(b3 < 256);
    assert(b2 == b3 * 256 + b2 % 256) by {
        assert(b3 == b2 / 256);
    }
    assert(b1 == b2 * 256 + b1 % 256) by {
        assert(b2 == b1 / 256);
    }
    assert(v == b1 * 256 + v % 256);
}

/// A 32-bit number is determined by its bytes.
proof fn lemma_le32(v: nat, w: nat)
    requires
        v < 0x1_0000_0000,
        w < 0x1_0000_0000,
        le32(v) == le32(w),
    ensures
        v == w,
{
    lemma_le32_sum(v);
    lemma_le32_sum(w);
}

impl Decoder {
    spec fn phase(self) -> Phase {
        match self.stage {
            Stage::FixedHeader => Phase::Header { got: self.header@ },
            Stage::ExtraLen => Phase::ExtraLength { flags: self.flags, got: self.extra_len@ },
            Stage::Extra => Phase::Extra { flags: self.flags, left: self.remaining as nat },
            Stage::Name => Phase::Name { flags: self.flags },
            Stage::Comment => Phase::Comment { flags: self.flags },
            Stage::Hcrc => Phase::HeaderCrc { left: self.remaining as nat },
            Stage::Body => Phase::Body,
            Stage::Trailer => Phase::Trailer { got: self.trailer@ },
            Stage::Done => Phase::Done,
        }
    }

    /// The point in the stream that the decoder has reached.
    pub closed spec fn state(self) -> State {
        if let Some(fault) = self.deflate.fault() {
            dead(fault)
        } else {
            State {
                phase: self.phase(),
                machine: if self.stage is Trailer || self.stage is Done {
                    ended(self.produced@)
                } else {
                    self.deflate.machine()
                },
            }
        }
    }

    /// All bytes that were put out.
    pub closed spec fn produced(self) -> Seq<u8> {
        self.produced@
    }

    /// The bytes that the caller has not taken.
    pub closed spec fn waiting(self) -> Seq<u8> {
        self.output@
    }

    /// What was found to be wrong with the stream, if anything was.
    pub open spec fn fault(self) -> Option<Fault> {
        kept_fault(self.state())
    }

    /// The stream has turned out to be invalid.
    pub open spec fn failed(self) -> bool {
        self.fault() is Some
    }

    /// The whole stream has been read, and its checksum and size were right.
    pub open spec fn finished(self) -> bool {
        self.state().phase is Done
    }

    /// Everything that was decoded has been put out and is in the checksum.
    pub closed spec fn wf(self) -> bool {
        &&& self.deflate.wf()
        &&& self.crc.wf()
        &&& self.output.wf()
        &&& self.header@.len() <= 10
        &&& self.extra_len@.len() <= 1
        &&& self.trailer@.len() <= 8
        &&& self.output@.len() <= self.produced@.len()
        &&& self.output@ == self.produced@.skip(self.produced@.len() - self.output@.len())
        &&& !self.deflate.failed() ==> {
            &&& self.deflate.waiting().len() == 0
            &&& self.produced@ == self.deflate.produced()
            &&& self.crc.state() == crc_state(0xFFFF_FFFF, self.produced@)
            &&& self.size == self.produced@.len() % 0x1_0000_0000
            &&& self.deflate.finished() <==> (self.stage is Trailer || self.stage is Done)
            &&& self.stage is FixedHeader && self.header@.len() == 10 ==> header_fault(
                self.header@,
            ) is Some
            &&& self.stage is Trailer && self.trailer@.len() == 8 ==> trailer_fault(
                self.trailer@,
                self.produced@,
            ) is Some
            &&& !(self.stage is Trailer || self.stage is Done) ==> self.trailer@.len() == 0
            &&& self.stage is FixedHeader ==> self.extra_len@.len() == 0
        }
        &&& self.deflate.failed() ==> self.stage is Body
    }

    /// What waits is the end of what was put out.
    pub proof fn lemma_wf(self)
        requires
            self.wf(),
        ensures
            self.waiting().len() <= self.produced().len(),
            self.waiting() == self.produced().skip(self.produced().len() - self.waiting().len()),
            !(self.state().phase is Failed) ==> self.produced() == self.state().machine.out,
    {
    }

    /// Nothing but the place in the header is different.
    spec fn same_body(self, before: Decoder) -> bool {
        &&& self.deflate == before.deflate
        &&& self.crc == before.crc
        &&& self.size == before.size
        &&& self.output == before.output
        &&& self.produced == before.produced
    }

    /// Create a gzip decoder positioned at the start of a stream.
    pub fn new() -> (decoder: Self)
        ensures
            decoder.wf(),
            decoder.state() == beginning(),
            decoder.produced() == Seq::<u8>::empty(),
            decoder.waiting() == Seq::<u8>::empty(),
    {
        let decoder = Decoder {
            stage: Stage::FixedHeader,
            flags: 0,
            header: Vec::new(),
            extra_len: Vec::new(),
            remaining: 0,
            deflate: DeflateDecoder::new(),
            crc: Crc32::new(),
            size: 0,
            trailer: Vec::new(),
            output: Buf::new(),
            produced: Ghost(Seq::empty()),
        };
        assert(decoder.output@ =~= decoder.produced@.skip(0));
        assert(decoder.header@ =~= Seq::<u8>::empty());
        decoder
    }

    /// Append compressed bytes.
    ///
    /// A decoder that has found something wrong with the stream returns the same
    /// error whenever more bytes are fed. Feeding no bytes does nothing.
    #[verifier::spinoff_prover]
    #[verifier::rlimit(60)]
    pub fn feed(&mut self, data: &[u8]) -> (r: Result<(), Error>)
        requires
            old(self).wf(),
        ensures
            final(self).wf(),
            final(self).state() == taken(old(self).state(), data@).0,
            match taken(old(self).state(), data@).1 {
                None => r is Ok,
                Some(fault) => r matches Err(e) && e@ == fault,
            },
            old(self).failed() && data@.len() > 0 ==> {
                &&& r matches Err(e) && Some(e@) == old(self).fault()
                &&& *final(self) == *old(self)
            },
            data@.len() == 0 ==> r is Ok && *final(self) == *old(self),
            r is Ok && !old(self).failed() ==> !final(self).failed(),
            final(self).produced() == if final(self).state().phase is Failed {
                old(self).produced()
            } else {
                final(self).state().machine.out
            },
            final(self).produced().len() - final(self).waiting().len() == old(self).produced().len()
                - old(self).waiting().len(),
    {
        proof {
            if self.failed() && data@.len() > 0 {
                lemma_kept_fault(self.state(), data@);
            }
        }
        let ghost goal = taken(self.state(), data@);
        let mut i: usize = 0;
        assert(data@.skip(0) =~= data@);
        while i < data.len() && self.stage != Stage::Body && self.stage != Stage::Trailer
            && self.stage != Stage::Done
            invariant
                i <= data@.len(),
                self.wf(),
                i == 0 ==> *self == *old(self),
                old(self).failed() ==> i == 0,
                !old(self).failed() ==> !self.failed(),
                goal == taken(self.state(), data@.skip(i as int)),
                goal == taken(old(self).state(), data@),
                self.produced@ == old(self).produced@,
                self.output@ == old(self).output@,
            decreases data@.len() - i,
        {
            let ghost rest = data@.skip(i as int);
            proof {
                assert(rest.skip(1) =~= data@.skip(i as int + 1));
                lemma_taken_byte(self.state(), rest);
            }
            self.feed_header_byte(data[i])?;
            i += 1;
        }
        if i == data.len() {
            proof {
                assert(data@.skip(i as int) =~= Seq::<u8>::empty());
                lemma_taken_nothing(self.state());
            }
            return Ok(());
        }
        let rest: &[u8] = vstd::slice::slice_subrange(data, i, data.len());
        assert(rest@ =~= data@.skip(i as int));
        if self.stage == Stage::Body {
            self.feed_body(rest)
        } else {
            self.feed_trailer(rest)
        }
    }

    /// Append bytes of the DEFLATE stream.
    #[verifier::spinoff_prover]
    #[verifier::rlimit(60)]
    fn feed_body(&mut self, data: &[u8]) -> (r: Result<(), Error>)
        requires
            old(self).wf(),
            old(self).stage is Body,
            data@.len() > 0,
        ensures
            final(self).wf(),
            final(self).state() == taken(old(self).state(), data@).0,
            match taken(old(self).state(), data@).1 {
                None => r is Ok,
                Some(fault) => r matches Err(e) && e@ == fault,
            },
            old(self).failed() ==> *final(self) == *old(self),
            r is Ok ==> !final(self).failed(),
            final(self).produced() == if final(self).state().phase is Failed {
                old(self).produced()
            } else {
                final(self).state().machine.out
            },
            final(self).produced().len() - final(self).waiting().len() == old(self).produced().len()
                - old(self).waiting().len(),
    {
        let mut fresh_bytes: Vec<u8> = Vec::new();
        let ghost before = self.deflate.machine();
        proof {
            self.deflate.lemma_wf();
            lemma_byte_bits_len(data@);
            if self.deflate.failed() {
                lemma_kept_fault(self.state(), data@);
            } else {
                lemma_inflate(before.push(byte_bits(data@)));
                lemma_taken_body(self.state(), data@);
            }
        }
        self.deflate.decode_into(data, &mut fresh_bytes)?;
        let ghost prior = self.produced@;
        self.crc.update(fresh_bytes.as_slice());
        self.size = sum_mod32(self.size, fresh_bytes.len());
        self.output.feed(fresh_bytes.as_slice());
        proof {
            self.produced@ = prior + fresh_bytes@;
            lemma_crc_concat(0xFFFF_FFFF, prior, fresh_bytes@);
            vstd::arithmetic::div_mod::lemma_add_mod_noop_right(
                fresh_bytes@.len() as int,
                prior.len() as int,
                0x1_0000_0000,
            );
            assert(self.produced@ =~= self.deflate.produced());
            assert(self.output@ =~= self.produced@.skip(
                self.produced@.len() - self.output@.len(),
            ));
        }
        if !self.deflate.is_finished() {
            return Ok(());
        }
        self.stage = Stage::Trailer;
        let tail: Vec<u8> = vstd::slice::slice_to_vec(self.deflate.remaining_input());
        proof {
            lemma_bytes_of(tail@, Seq::empty());
            assert(self.trailer@ =~= Seq::<u8>::empty());
        }
        self.feed_trailer(tail.as_slice())
    }

    /// Borrow decompressed bytes not yet consumed.
    pub fn output(&self) -> (bytes: &[u8])
        requires
            self.wf(),
        ensures
            bytes@ == self.waiting(),
    {
        self.output.get()
    }

    /// Mark `n` bytes of output as consumed. There must be as many.
    pub fn advance(&mut self, n: usize)
        requires
            old(self).wf(),
            n <= old(self).waiting().len(),
        ensures
            final(self).wf(),
            final(self).state() == old(self).state(),
            final(self).produced() == old(self).produced(),
            final(self).waiting() == old(self).waiting().skip(n as int),
    {
        self.output.advance(n);
        assert(self.output@ =~= self.produced@.skip(self.produced@.len() - self.output@.len()));
    }

    /// `true` once the trailer has been fully consumed and validated.
    pub fn is_finished(&self) -> (finished: bool)
        requires
            self.wf(),
        ensures
            finished == self.finished(),
            finished == (self.state().phase is Done),
    {
        self.stage == Stage::Done
    }

    /// Check the fixed part of the header.
    fn parse_fixed_header(&mut self) -> (r: Result<(), Error>)
        requires
            old(self).header@.len() == 10,
        ensures
            *final(self) == (Decoder { flags: final(self).flags, ..*old(self) }),
            match header_fault(old(self).header@) {
                None => r is Ok && final(self).flags == old(self).header@[3],
                Some(fault) => {
                    &&& r matches Err(e) && e@ == fault
                    &&& *final(self) == *old(self)
                },
            },
    {
        if self.header[0] != MAGIC1 || self.header[1] != MAGIC2 {
            return Err(invalid_data("gzip magic bytes not found"));
        }
        if self.header[2] != METHOD_DEFLATE {
            return Err(
                Error::Unsupported(
                    Cow::Owned(
                        numbered(
                            "gzip compression method ",
                            self.header[2] as usize,
                            " not supported (only deflate=8)",
                        ),
                    ),
                ),
            );
        }
        // bytes 4..8 = MTIME, byte 8 = XFL, byte 9 = OS: ignored.
        self.flags = self.header[3];
        Ok(())
    }

    fn advance_to_next_header_state(&mut self)
        requires
            old(self).extra_len@.len() == 0,
        ensures
            final(self).same_body(*old(self)),
            final(self).phase() == behind_fixed(old(self).flags),
            final(self).header == old(self).header,
            final(self).trailer == old(self).trailer,
            final(self).extra_len == old(self).extra_len,
            !(final(self).stage is FixedHeader),
            !(final(self).stage is Trailer),
            !(final(self).stage is Done),
    {
        assert(self.extra_len@ =~= Seq::<u8>::empty());
        if self.flags / FEXTRA % 2 == 1 {
            self.stage = Stage::ExtraLen;
        } else {
            self.advance_past_extra();
        }
    }

    fn advance_past_extra(&mut self)
        ensures
            final(self).same_body(*old(self)),
            final(self).phase() == behind_extra(old(self).flags),
            final(self).header == old(self).header,
            final(self).trailer == old(self).trailer,
            final(self).extra_len == old(self).extra_len,
            !(final(self).stage is FixedHeader),
            !(final(self).stage is Trailer),
            !(final(self).stage is Done),
    {
        if self.flags / FNAME % 2 == 1 {
            self.stage = Stage::Name;
        } else {
            self.advance_past_name();
        }
    }

    fn advance_past_name(&mut self)
        ensures
            final(self).same_body(*old(self)),
            final(self).phase() == behind_name(old(self).flags),
            final(self).header == old(self).header,
            final(self).trailer == old(self).trailer,
            final(self).extra_len == old(self).extra_len,
            !(final(self).stage is FixedHeader),
            !(final(self).stage is Trailer),
            !(final(self).stage is Done),
    {
        if self.flags / FCOMMENT % 2 == 1 {
            self.stage = Stage::Comment;
        } else {
            self.advance_past_comment();
        }
    }

    fn advance_past_comment(&mut self)
        ensures
            final(self).same_body(*old(self)),
            final(self).phase() == behind_comment(old(self).flags),
            final(self).header == old(self).header,
            final(self).trailer == old(self).trailer,
            final(self).extra_len == old(self).extra_len,
            !(final(self).stage is FixedHeader),
            !(final(self).stage is Trailer),
            !(final(self).stage is Done),
    {
        if self.flags / FHCRC % 2 == 1 {
            self.stage = Stage::Hcrc;
            self.remaining = 2;
        } else {
            self.stage = Stage::Body;
        }
    }

    /// Take a byte of the header.
    fn feed_header_byte(&mut self, byte: u8) -> (r: Result<(), Error>)
        requires
            old(self).wf(),
            !(old(self).stage is Body),
            !(old(self).stage is Trailer),
            !(old(self).stage is Done),
        ensures
            final(self).wf(),
            final(self).state() == byte_taken(old(self).state(), byte).0,
            match byte_taken(old(self).state(), byte).1 {
                None => r is Ok,
                Some(fault) => r matches Err(e) && e@ == fault,
            },
            final(self).produced() == old(self).produced(),
            final(self).waiting() == old(self).waiting(),
            r is Ok ==> !final(self).failed(),
            old(self).failed() ==> *final(self) == *old(self),
            !(final(self).state().phase is Failed),
    {
        match self.stage {
            Stage::FixedHeader => {
                if self.header.len() < 10 {
                    self.header.push(byte);
                }
                if self.header.len() == 10 {
                    self.parse_fixed_header()?;
                    self.advance_to_next_header_state();
                }
            },
            Stage::ExtraLen => {
                if self.extra_len.len() == 0 {
                    self.extra_len.push(byte);
                } else {
                    self.remaining = self.extra_len[0] as u32 + 256 * byte as u32;
                    if self.remaining == 0 {
                        self.advance_past_extra();
                    } else {
                        self.stage = Stage::Extra;
                    }
                }
            },
            Stage::Extra => {
                if self.remaining <= 1 {
                    self.advance_past_extra();
                } else {
                    self.remaining = self.remaining - 1;
                }
            },
            Stage::Name => {
                if byte == 0 {
                    self.advance_past_name();
                }
            },
            Stage::Comment => {
                if byte == 0 {
                    self.advance_past_comment();
                }
            },
            _ => {
                // Skip 2 bytes of header CRC-16.
                if self.remaining <= 1 {
                    self.stage = Stage::Body;
                } else {
                    self.remaining = self.remaining - 1;
                }
            },
        }
        Ok(())
    }

    /// Take a byte of the trailer, or one behind it.
    fn feed_trailer_byte(&mut self, byte: u8) -> (r: Result<(), Error>)
        requires
            old(self).wf(),
            old(self).stage is Trailer || old(self).stage is Done,
        ensures
            final(self).wf(),
            final(self).state() == byte_taken(old(self).state(), byte).0,
            match byte_taken(old(self).state(), byte).1 {
                None => r is Ok,
                Some(fault) => r matches Err(e) && e@ == fault,
            },
            final(self).produced() == old(self).produced(),
            final(self).waiting() == old(self).waiting(),
            r is Ok ==> !final(self).failed(),
            old(self).failed() ==> *final(self) == *old(self),
            !(final(self).state().phase is Failed),
            final(self).stage is Trailer || final(self).stage is Done,
    {
        if self.stage == Stage::Done {
            return Err(invalid_data("bytes fed after gzip stream end"));
        }
        if self.trailer.len() < 8 {
            self.trailer.push(byte);
        }
        if self.trailer.len() == 8 {
            let expected_crc: u32 = load_le32(&self.trailer, 0);
            let expected_size: u32 = load_le32(&self.trailer, 4);
            let crc: u32 = self.crc.value();
            proof {
                assert(self.trailer@.take(4) =~= self.trailer@.subrange(0, 4));
                assert(self.trailer@.skip(4) =~= self.trailer@.subrange(4, 8));
                if le32(expected_crc as nat) == le32(crc as nat) {
                    lemma_le32(expected_crc as nat, crc as nat);
                }
                if le32(expected_size as nat) == le32(self.size as nat) {
                    lemma_le32(expected_size as nat, self.size as nat);
                }
            }
            if expected_crc != crc {
                return Err(invalid_data("crc-32 checksum mismatch in gzip trailer"));
            }
            if expected_size != self.size {
                return Err(invalid_data("isize mismatch in gzip trailer"));
            }
            self.stage = Stage::Done;
        }
        Ok(())
    }

    /// Append bytes behind the DEFLATE stream.
    fn feed_trailer(&mut self, data: &[u8]) -> (r: Result<(), Error>)
        requires
            old(self).wf(),
            old(self).stage is Trailer || old(self).stage is Done,
        ensures
            final(self).wf(),
            final(self).state() == taken(old(self).state(), data@).0,
            match taken(old(self).state(), data@).1 {
                None => r is Ok,
                Some(fault) => r matches Err(e) && e@ == fault,
            },
            final(self).produced() == old(self).produced(),
            final(self).waiting() == old(self).waiting(),
            r is Ok && data@.len() > 0 ==> !final(self).failed(),
            old(self).failed() || data@.len() == 0 ==> *final(self) == *old(self),
            !(final(self).state().phase is Failed),
            final(self).produced() == final(self).state().machine.out,
    {
        let ghost goal = taken(self.state(), data@);
        let mut i: usize = 0;
        assert(data@.skip(0) =~= data@);
        while i < data.len()
            invariant
                i <= data@.len(),
                self.wf(),
                i == 0 ==> *self == *old(self),
                old(self).failed() ==> i == 0,
                !old(self).failed() ==> !self.failed(),
                self.stage is Trailer || self.stage is Done,
                goal == taken(self.state(), data@.skip(i as int)),
                goal == taken(old(self).state(), data@),
                self.produced@ == old(self).produced@,
                self.output@ == old(self).output@,
            decreases data@.len() - i,
        {
            let ghost rest = data@.skip(i as int);
            proof {
                assert(rest.skip(1) =~= data@.skip(i as int + 1));
                lemma_taken_byte(self.state(), rest);
            }
            self.feed_trailer_byte(data[i])?;
            i += 1;
        }
        proof {
            assert(data@.skip(i as int) =~= Seq::<u8>::empty());
            lemma_taken_nothing(self.state());
        }
        Ok(())
    }
}

/// Feeding in pieces is feeding at once: if a decoder takes the first piece, it
/// does with the second what it would do with both.
#[verifier::spinoff_prover]
#[verifier::rlimit(60)]
pub proof fn lemma_taken_concat(s: State, first: Seq<u8>, second: Seq<u8>)
    requires
        machine_wf(s.machine),
        taken(s, first).1 is None,
    ensures
        taken(s, first + second) == taken(taken(s, first).0, second),
        machine_wf(taken(s, first).0.machine),
    decreases rank(s.phase), first.len(),
{
    let all = first + second;
    let (after, fault) = taken(s, first);
    if first.len() == 0 {
        assert(first =~= Seq::<u8>::empty());
        assert(all =~= second);
        lemma_taken_nothing(s);
    } else if s.phase is Body {
        let m = s.machine.push(byte_bits(first));
        let more = byte_bits(second);
        lemma_byte_bits_len(first);
        lemma_byte_bits_len(second);
        lemma_byte_bits_concat(first, second);
        assert(m.push(more).bits =~= s.machine.push(byte_bits(all)).bits);
        assert(m.push(more) == s.machine.push(byte_bits(all)));
        lemma_inflate(m);
        lemma_inflate_extend(m, more);
        lemma_taken_body(s, first);
        lemma_taken_body(s, all);
        let (reached, stop) = inflate(m);
        match stop {
            Stop::Finished => {
                lemma_unread_more(reached, second);
                let behind = State {
                    phase: Phase::Trailer { got: Seq::empty() },
                    machine: ended(reached.out),
                };
                lemma_taken_concat(behind, unread_bytes(reached), second);
            },
            _ => {
                if second.len() == 0 {
                    assert(second =~= Seq::<u8>::empty());
                    assert(all =~= first);
                    lemma_taken_nothing(after);
                } else {
                    lemma_taken_body(after, second);
                }
            },
        }
    } else {
        lemma_taken_byte(s, first);
        lemma_taken_byte(s, all);
        assert(all.skip(1) =~= first.skip(1) + second);
        lemma_taken_concat(byte_taken(s, first[0]).0, first.skip(1), second);
    }
}

/// One-shot: decompress a gzip stream into a new `Vec<u8>`.
pub fn decompress(data: &[u8]) -> (r: Result<Vec<u8>, Error>)
    ensures
        match taken(beginning(), data@) {
            (_, Some(fault)) => r matches Err(e) && e@ == fault,
            (s, None) => if s.phase is Done {
                r matches Ok(out) && out@ == s.machine.out
            } else {
                r matches Err(e) && e@ == invalid("gzip stream ended before the trailer")
            },
        },
{
    let mut d = Decoder::new();
    d.feed(data)?;
    if !d.is_finished() {
        return Err(invalid_data("gzip stream ended before the trailer"));
    }
    let out: Vec<u8> = vstd::slice::slice_to_vec(d.output());
    proof {
        d.lemma_wf();
        assert(out@ =~= d.produced());
    }
    d.advance(out.len());
    Ok(out)
}

// ---------------------------------------------------------------------------
// Encoding
// ---------------------------------------------------------------------------

/// The header that an encoder writes: no flags, no time, and an operating
/// system that is not known.
pub open spec fn header() -> Seq<u8> {
    seq![MAGIC1, MAGIC2, METHOD_DEFLATE, 0, 0, 0, 0, 0, 0, 255]
}

/// What a gzip encoder has come to.
pub struct Encoding {
    /// What its DEFLATE encoder has come to.
    pub deflate: EncoderState,
    /// All that was fed.
    pub payload: Seq<u8>,
    /// The header has been written.
    pub started: bool,
}

/// An encoder that has been given nothing.
pub open spec fn unstarted(kind: BlockKind, limit: Option<nat>) -> Encoding {
    Encoding { deflate: fresh(kind, limit), payload: Seq::empty(), started: false }
}

/// Take more input.
pub open spec fn more_fed(s: Encoding, data: Seq<u8>) -> Encoding {
    Encoding { deflate: fed(s.deflate, data), payload: s.payload + data, started: true }
}

/// Write the last block and the trailer.
pub open spec fn all_fed(s: Encoding) -> Encoding {
    Encoding { deflate: finished(s.deflate), started: true, ..s }
}

/// The bytes written so far: the header, the whole bytes of the DEFLATE stream,
/// and the trailer once the encoder is finished.
pub open spec fn encoded(s: Encoding) -> Seq<u8> {
    let front = if s.started {
        header()
    } else {
        Seq::empty()
    };
    let back = if s.deflate.finished {
        trailer(s.payload)
    } else {
        Seq::empty()
    };
    front + bytes_of(s.deflate.stream) + back
}

/// Streaming gzip encoder.
pub struct Encoder {
    deflate: DeflateEncoder,
    crc: Crc32,
    output: Vec<u8>,
    drained: usize,
    header_emitted: bool,
    finishing: bool,
    size: u32,
    /// All bytes that were fed.
    payload: Ghost<Seq<u8>>,
    /// The bytes that were dropped from the front of `output`.
    dropped: Ghost<Seq<u8>>,
}

impl Default for Encoder {
    fn default() -> (encoder: Self)
        ensures
            encoder.wf(),
            encoder.state() == unstarted(
                BlockKind::Dynamic,
                Some(DEFAULT_MAX_BLOCK_INPUT as nat),
            ),
            encoder.consumed() == 0,
    {
        Self::new()
    }
}

impl Encoder {
    /// What the encoder has come to.
    pub closed spec fn state(self) -> Encoding {
        Encoding {
            deflate: self.deflate.state(),
            payload: self.payload@,
            started: self.header_emitted,
        }
    }

    /// All bytes written so far.
    pub open spec fn written(self) -> Seq<u8> {
        encoded(self.state())
    }

    /// How many of the written bytes the caller has taken.
    pub closed spec fn consumed(self) -> nat {
        self.dropped@.len() + self.drained as nat
    }

    /// The written bytes that the caller has not taken.
    pub open spec fn waiting(self) -> Seq<u8> {
        self.written().skip(self.consumed() as int)
    }

    /// How many bytes the output buffer holds, taken ones among them.
    pub closed spec fn retained(self) -> nat {
        self.output@.len()
    }

    /// The bytes that are in the buffer or were there.
    spec fn all(self) -> Seq<u8> {
        self.dropped@ + self.output@
    }

    /// The bytes of the DEFLATE encoder have been passed on, and the checksum
    /// is that of what was fed.
    pub closed spec fn wf(self) -> bool {
        &&& self.deflate.wf()
        &&& self.deflate.waiting().len() == 0
        &&& self.crc.wf()
        &&& self.crc.state() == crc_state(0xFFFF_FFFF, self.payload@)
        &&& self.size == self.payload@.len() % 0x1_0000_0000
        &&& self.all() == encoded(self.state())
        &&& self.drained <= self.output@.len()
        &&& self.drained < COMPACT_THRESHOLD
        &&& self.finishing == self.deflate.state().finished
        &&& !self.header_emitted ==> self.deflate.state().stream.len() == 0
    }

    /// The caller has taken no more than there was.
    pub proof fn lemma_wf(self)
        requires
            self.wf(),
        ensures
            self.consumed() <= self.written().len(),
    {
    }

    /// Create a gzip encoder with default options.
    pub fn new() -> (encoder: Self)
        ensures
            encoder.wf(),
            encoder.state() == unstarted(
                BlockKind::Dynamic,
                Some(DEFAULT_MAX_BLOCK_INPUT as nat),
            ),
            encoder.consumed() == 0,
    {
        Self::with_options(EncodeOptions::new())
    }

    /// Create a gzip encoder with custom options.
    pub fn with_options(options: EncodeOptions) -> (encoder: Self)
        requires
            options.wf(),
        ensures
            encoder.wf(),
            encoder.state() == unstarted(options.kind(), options.limit()),
            encoder.consumed() == 0,
    {
        let encoder = Encoder {
            deflate: DeflateEncoder::with_options(options),
            crc: Crc32::new(),
            output: Vec::new(),
            drained: 0,
            header_emitted: false,
            finishing: false,
            size: 0,
            payload: Ghost(Seq::empty()),
            dropped: Ghost(Seq::empty()),
        };
        proof {
            encoder.deflate.lemma_wf();
            assert(encoded(encoder.state()) =~= Seq::<u8>::empty());
            assert(encoder.all() =~= Seq::<u8>::empty());
        }
        encoder
    }

    /// Write the header if it has not been written.
    fn ensure_header(&mut self)
        requires
            old(self).wf(),
            !old(self).finishing,
        ensures
            final(self).wf(),
            final(self).state() == (Encoding { started: true, ..old(self).state() }),
            final(self).consumed() == old(self).consumed(),
            !final(self).finishing,
    {
        if !self.header_emitted {
            assert(self.all() =~= Seq::<u8>::empty());
            // Minimal gzip header: magic, method, flags=0, mtime=0, xfl=0, os=255.
            self.output.push(MAGIC1);
            self.output.push(MAGIC2);
            self.output.push(METHOD_DEFLATE);
            let mut zeros: usize = 0;
            while zeros < 6
                invariant
                    zeros <= 6,
                    self.dropped@.len() == 0,
                    self.output@ == seq![MAGIC1, MAGIC2, METHOD_DEFLATE] + Seq::new(
                        zeros as nat,
                        |i: int| 0u8,
                    ),
                    *self == (Encoder { output: self.output, ..*old(self) }),
                decreases 6 - zeros,
            {
                self.output.push(0);
                zeros += 1;
                assert(self.output@ =~= seq![MAGIC1, MAGIC2, METHOD_DEFLATE] + Seq::new(
                    zeros as nat,
                    |i: int| 0u8,
                ));
            }
            self.output.push(255);
            self.header_emitted = true;
            assert(self.all() =~= header());
            assert(self.all() =~= encoded(self.state()));
        }
    }

    /// Pass on what the DEFLATE encoder has written.
    fn pass_on(&mut self, Ghost(before): Ghost<DeflateEncoder>)
        requires
            before.wf(),
            old(self).deflate.wf(),
            before.waiting().len() == 0,
            old(self).deflate.consumed() == before.consumed(),
            before.written().len() <= old(self).deflate.written().len(),
            old(self).deflate.written().take(before.written().len() as int) == before.written(),
        ensures
            final(self).deflate.wf(),
            final(self).deflate.waiting().len() == 0,
            final(self).deflate.state() == old(self).deflate.state(),
            final(self).deflate.written() == old(self).deflate.written(),
            final(self).output@ == old(self).output@ + old(self).deflate.written().skip(
                before.written().len() as int,
            ),
            final(self).crc == old(self).crc,
            final(self).size == old(self).size,
            final(self).dropped == old(self).dropped,
            final(self).drained == old(self).drained,
            final(self).header_emitted == old(self).header_emitted,
            final(self).finishing == old(self).finishing,
            final(self).payload == old(self).payload,
    {
        proof {
            before.lemma_wf();
            self.deflate.lemma_wf();
        }
        let produced: usize = self.deflate.output().len();
        self.output.extend_from_slice(self.deflate.output());
        self.deflate.advance(produced);
        assert(self.output@ =~= old(self).output@ + old(self).deflate.written().skip(
            before.written().len() as int,
        ));
    }

    /// Write the four bytes of a number, the lowest one first.
    fn push_le32(&mut self, value: u32)
        ensures
            *final(self) == (Encoder { output: final(self).output, ..*old(self) }),
            final(self).output@ == old(self).output@ + le32(value as nat),
    {
        self.output.push((value % 256) as u8);
        self.output.push((value / 0x100 % 256) as u8);
        self.output.push((value / 0x1_0000 % 256) as u8);
        self.output.push((value / 0x100_0000) as u8);
        assert(value as nat / 0x100_0000 < 256);
        assert(self.output@ =~= old(self).output@ + le32(value as nat));
    }

    /// Append uncompressed bytes.
    #[verifier::spinoff_prover]
    #[verifier::rlimit(60)]
    pub fn feed(&mut self, data: &[u8]) -> (r: Result<(), Error>)
        requires
            old(self).wf(),
        ensures
            final(self).wf(),
            final(self).consumed() == old(self).consumed(),
            old(self).written().len() <= final(self).written().len(),
            final(self).written().take(old(self).written().len() as int) == old(self).written(),
            old(self).state().deflate.finished ==> {
                &&& r matches Err(e) && e@ == invalid("bytes fed after gzip encoder finish")
                &&& *final(self) == *old(self)
            },
            !old(self).state().deflate.finished ==> {
                &&& r is Ok
                &&& final(self).state() == more_fed(old(self).state(), data@)
                &&& !final(self).state().deflate.finished
            },
    {
        assert(self.written().take(self.written().len() as int) =~= self.written());
        if self.finishing {
            return Err(invalid_data("bytes fed after gzip encoder finish"));
        }
        self.ensure_header();
        let ghost before = self.deflate;
        let ghost prior = self.all();
        self.crc.update(data);
        self.size = sum_mod32(self.size, data.len());
        self.deflate.feed(data)?;
        self.pass_on(Ghost(before));
        proof {
            lemma_crc_concat(0xFFFF_FFFF, self.payload@, data@);
            vstd::arithmetic::div_mod::lemma_add_mod_noop_right(
                data@.len() as int,
                self.payload@.len() as int,
                0x1_0000_0000,
            );
            self.payload@ = self.payload@ + data@;
            before.lemma_whole_bytes();
            self.deflate.lemma_whole_bytes();
            lemma_stream_extends(before.state(), data@);
            assert(prior =~= header() + before.written());
            let tail = self.deflate.written().skip(before.written().len() as int);
            assert(self.all() =~= prior + tail);
            assert(self.deflate.written() =~= before.written() + tail);
            assert(self.all() =~= header() + self.deflate.written());
            assert(self.all() =~= encoded(self.state()));
            assert(self.all().take(old(self).all().len() as int) =~= old(self).all());
        }
        Ok(())
    }

    /// Emit the final block and the gzip trailer. Subsequent calls are
    /// a no-op.
    #[verifier::spinoff_prover]
    #[verifier::rlimit(60)]
    pub fn finish(&mut self) -> (r: Result<(), Error>)
        requires
            old(self).wf(),
        ensures
            final(self).wf(),
            final(self).consumed() == old(self).consumed(),
            old(self).written().len() <= final(self).written().len(),
            final(self).written().take(old(self).written().len() as int) == old(self).written(),
            r is Ok,
            old(self).state().deflate.finished ==> *final(self) == *old(self),
            !old(self).state().deflate.finished ==> final(self).state() == all_fed(
                old(self).state(),
            ),
    {
        assert(self.written().take(self.written().len() as int) =~= self.written());
        if self.finishing {
            return Ok(());
        }
        self.ensure_header();
        let ghost before = self.deflate;
        let ghost prior = self.all();
        self.deflate.finish()?;
        self.pass_on(Ghost(before));
        let ghost body = self.all();
        let value: u32 = self.crc.value();
        self.push_le32(value);
        self.push_le32(self.size);
        self.finishing = true;
        proof {
            before.lemma_whole_bytes();
            self.deflate.lemma_whole_bytes();
            assert(prior =~= header() + before.written());
            let tail = self.deflate.written().skip(before.written().len() as int);
            assert(body =~= prior + tail);
            assert(self.deflate.written() =~= before.written() + tail);
            assert(body =~= header() + self.deflate.written());
            assert(self.all() =~= body + trailer(self.payload@));
            assert(self.all() =~= encoded(self.state()));
            assert(self.all().take(old(self).all().len() as int) =~= old(self).all());
        }
        Ok(())
    }

    /// Borrow encoded bytes not yet consumed.
    pub fn output(&self) -> (bytes: &[u8])
        requires
            self.wf(),
        ensures
            bytes@ == self.waiting(),
    {
        let all: &[u8] = self.output.as_slice();
        let bytes: &[u8] = vstd::slice::slice_subrange(all, self.drained, all.len());
        assert(bytes@ =~= self.all().skip(self.consumed() as int));
        bytes
    }

    /// Mark `n` bytes of output as consumed. There must be as many.
    pub fn advance(&mut self, n: usize)
        requires
            old(self).wf(),
            n <= old(self).waiting().len(),
        ensures
            final(self).wf(),
            final(self).state() == old(self).state(),
            final(self).consumed() == old(self).consumed() + n,
            final(self).retained() < final(self).waiting().len() + COMPACT_THRESHOLD,
    {
        assert(self.drained + n <= self.output.len());
        self.drained += n;
        if self.drained >= COMPACT_THRESHOLD {
            let kept: Vec<u8> = self.output.split_off(self.drained);
            proof {
                assert(self.output@ + kept@ =~= old(self).output@);
                self.dropped@ = self.dropped@ + self.output@;
            }
            self.output = kept;
            self.drained = 0;
            assert(self.all() =~= old(self).all());
        }
    }

    /// How many bytes the output buffer holds: those not yet consumed, and
    /// fewer than [`COMPACT_THRESHOLD`] consumed ones before them.
    pub fn buffered_len(&self) -> (len: usize)
        requires
            self.wf(),
        ensures
            len == self.retained(),
            self.waiting().len() <= len < self.waiting().len() + COMPACT_THRESHOLD,
    {
        self.output.len()
    }

    /// `true` once `finish` has been called and all output consumed.
    pub fn is_finished(&self) -> (done: bool)
        requires
            self.wf(),
        ensures
            done == (self.state().deflate.finished && self.waiting().len() == 0),
    {
        self.finishing && self.drained == self.output.len()
    }
}

/// One-shot: compress a slice into a new gzip stream.
pub fn compress(data: &[u8]) -> (r: Result<Vec<u8>, Error>)
    ensures
        r matches Ok(out) && {
            &&& out@ == header() + bytes_of(
                block(Seq::empty(), BlockKind::Dynamic, data@, true),
            ) + trailer(data@)
            &&& taken(beginning(), out@) == (behind(data@), None::<Fault>)
        },
{
    let mut e = Encoder::with_options(EncodeOptions::new().buffer_all_input());
    e.feed(data)?;
    proof {
        assert(Seq::<u8>::empty() + data@ =~= data@);
    }
    e.finish()?;
    let out: Vec<u8> = vstd::slice::slice_to_vec(e.output());
    proof {
        e.lemma_wf();
        assert(e.written().skip(0) =~= e.written());
        assert(data@.len() == data.len());
        lemma_decodes_nothing();
        lemma_completes_block(Seq::empty(), Seq::empty(), BlockKind::Dynamic, data@);
        lemma_read_back(block(Seq::empty(), BlockKind::Dynamic, data@, true), data@);
    }
    e.advance(out.len());
    Ok(out)
}

// ---------------------------------------------------------------------------
// What is written is read back
// ---------------------------------------------------------------------------

/// A header that is read in part.
proof fn lemma_read_header_from(k: nat, rest: Seq<u8>)
    requires
        k <= 9,
    ensures
        taken(
            State {
                phase: Phase::Header { got: header().take(k as int) },
                machine: start(Seq::empty()),
            },
            header().skip(k as int) + rest,
        ) == taken(State { phase: Phase::Body, machine: start(Seq::empty()) }, rest),
    decreases 10 - k,
{
    let h = header();
    let data = h.skip(k as int) + rest;
    let s = State { phase: Phase::Header { got: h.take(k as int) }, machine: start(Seq::empty()) };
    lemma_taken_byte(s, data);
    assert(data[0] == h[k as int]);
    assert(h.take(k as int).push(h[k as int]) =~= h.take(k as int + 1));
    assert(data.skip(1) =~= h.skip(k as int + 1) + rest);
    if k < 9 {
        lemma_read_header_from(k + 1, rest);
    } else {
        assert(h.take(10) =~= h);
        assert(h.skip(10) + rest =~= rest);
        assert(header_fault(h) is None);
        assert(behind_fixed(0) is Body);
    }
}

/// Reading a header as an encoder writes it.
proof fn lemma_read_header(rest: Seq<u8>)
    ensures
        taken(beginning(), header() + rest) == taken(
            State { phase: Phase::Body, machine: start(Seq::empty()) },
            rest,
        ),
{
    lemma_read_header_from(0, rest);
    assert(header().take(0) =~= Seq::<u8>::empty());
    assert(header().skip(0) =~= header());
}

/// A trailer that is read in part.
proof fn lemma_read_trailer_from(out: Seq<u8>, k: nat)
    requires
        k <= 7,
    ensures
        taken(
            State {
                phase: Phase::Trailer { got: trailer(out).take(k as int) },
                machine: ended(out),
            },
            trailer(out).skip(k as int),
        ) == (behind(out), None::<Fault>),
    decreases 8 - k,
{
    let t = trailer(out);
    let data = t.skip(k as int);
    let s = State { phase: Phase::Trailer { got: t.take(k as int) }, machine: ended(out) };
    lemma_taken_byte(s, data);
    assert(data[0] == t[k as int]);
    assert(t.take(k as int).push(t[k as int]) =~= t.take(k as int + 1));
    assert(data.skip(1) =~= t.skip(k as int + 1));
    if k < 7 {
        lemma_read_trailer_from(out, k + 1);
    } else {
        assert(t.take(8) =~= t);
        assert(t.skip(8) =~= Seq::<u8>::empty());
        assert(t.take(4) =~= le32(checksum(out) as nat));
        assert(t.skip(4) =~= le32(out.len() % 0x1_0000_0000));
        lemma_taken_nothing(behind(out));
    }
}

/// Reading a trailer as an encoder writes it.
proof fn lemma_read_trailer(out: Seq<u8>)
    ensures
        taken(
            State { phase: Phase::Trailer { got: Seq::empty() }, machine: ended(out) },
            trailer(out),
        ) == (behind(out), None::<Fault>),
{
    lemma_read_trailer_from(out, 0);
    assert(trailer(out).take(0) =~= Seq::<u8>::empty());
    assert(trailer(out).skip(0) =~= trailer(out));
}

/// A DEFLATE stream that says `out`, with a header before it and the checksum
/// and the size of `out` behind it, is a gzip stream that says `out`.
pub proof fn lemma_read_back(stream: Seq<bool>, out: Seq<u8>)
    requires
        completes(stream, out),
    ensures
        taken(beginning(), header() + bytes_of(stream) + trailer(out)) == (
            behind(out),
            None::<Fault>,
        ),
{
    let back = trailer(out);
    let rest = bytes_of(stream) + back;
    let data = header() + bytes_of(stream) + back;
    assert(data =~= header() + rest);
    lemma_read_header(rest);
    let body = State { phase: Phase::Body, machine: start(Seq::empty()) };
    lemma_taken_body(body, rest);
    lemma_bits_of_bytes(stream);
    lemma_byte_bits_concat(bytes_of(stream), back);
    lemma_byte_bits_len(back);
    assert(body.machine.push(byte_bits(rest)).bits =~= stream + byte_bits(back));
    assert(body.machine.push(byte_bits(rest)) == start(stream + byte_bits(back)));
    lemma_bytes_of(back, Seq::empty());
    lemma_read_trailer(out);
}

/// What was fed to an encoder is what its DEFLATE encoder has written and has
/// still to write.
pub open spec fn sound(s: Encoding) -> bool {
    represents(s.deflate, s.payload)
}

/// A new encoder has been fed nothing.
pub proof fn lemma_unstarted(kind: BlockKind, limit: Option<nat>)
    ensures
        sound(unstarted(kind, limit)),
{
    lemma_fresh(kind, limit);
}

/// Feeding adds to what an encoder was fed, and nothing else.
pub proof fn lemma_more_fed(s: Encoding, data: Seq<u8>)
    requires
        sound(s),
        !s.deflate.finished,
        s.deflate.input.len() + data.len() <= usize::MAX,
    ensures
        sound(more_fed(s, data)),
        !more_fed(s, data).deflate.finished,
{
    lemma_fed(s.deflate, s.payload, data);
}

/// Feeding an encoder in pieces is feeding it at once.
pub proof fn lemma_fed_in_pieces(s: Encoding, first: Seq<u8>, second: Seq<u8>)
    ensures
        more_fed(more_fed(s, first), second) == more_fed(s, first + second),
{
    lemma_fed_concat(s.deflate, first, second);
    assert(s.payload + first + second =~= s.payload + (first + second));
}

/// Round trip: however an encoder was fed, once it is finished a decoder that
/// is given what it has written ends with what was fed.
pub proof fn lemma_round_trip(s: Encoding)
    requires
        sound(s),
        !s.deflate.finished,
        s.deflate.input.len() <= usize::MAX,
    ensures
        taken(beginning(), encoded(all_fed(s))) == (behind(s.payload), None::<Fault>),
{
    lemma_finished(s.deflate, s.payload);
    lemma_read_back(finished(s.deflate).stream, s.payload);
}

/// A decoder that has come to the end of a stream has checked it: the last
/// byte that was taken completed a trailer with the checksum and the size of the
/// output.
pub proof fn lemma_checked(s: State, byte: u8)
    requires
        !(s.phase is Done),
        byte_taken(s, byte).0.phase is Done,
    ensures
        byte_taken(s, byte).1 is None,
        s.phase matches Phase::Trailer { got } && got.push(byte) == trailer(s.machine.out),
        byte_taken(s, byte).0.machine == s.machine,
{
    lemma_only_trailer_ends(s, byte);
    let more = s.phase->Trailer_got.push(byte);
    assert(more.take(4) + more.skip(4) =~= more);
}

proof fn lemma_only_trailer_ends(s: State, byte: u8)
    requires
        !(s.phase is Done),
        byte_taken(s, byte).0.phase is Done,
    ensures
        s.phase is Trailer,
        byte_taken(s, byte).1 is None,
        byte_taken(s, byte).0.machine == s.machine,
        trailer_fault(s.phase->Trailer_got.push(byte), s.machine.out) is None,
{
}

// ---------------------------------------------------------------------------
// What a finished decoder was fed
// ---------------------------------------------------------------------------

/// Before the DEFLATE stream.
spec fn in_header(phase: Phase) -> bool {
    phase is Header || phase is ExtraLength || phase is Extra || phase is Name || phase is Comment
        || phase is HeaderCrc
}

/// A header leads to the DEFLATE stream, of which nothing has been taken yet.
proof fn lemma_header_ends(s: State, fed: Seq<u8>) -> (k: int)
    requires
        in_header(s.phase),
        taken(s, fed).1 is None,
        taken(s, fed).0.phase is Done,
    ensures
        0 <= k <= fed.len(),
        taken(s, fed.take(k)) == (State { phase: Phase::Body, ..s }, None::<Fault>),
        taken(State { phase: Phase::Body, ..s }, fed.skip(k)) == taken(s, fed),
    decreases fed.len(),
{
    if fed.len() == 0 {
        assert(fed =~= Seq::<u8>::empty());
        lemma_taken_nothing(s);
        0
    } else {
        let next = byte_taken(s, fed[0]).0;
        let rest = fed.skip(1);
        lemma_taken_byte(s, fed);
        assert(next.machine == s.machine);
        if next.phase is Body {
            assert(next == State { phase: Phase::Body, ..s });
            lemma_taken_byte(s, fed.take(1));
            assert(fed.take(1).skip(1) =~= Seq::<u8>::empty());
            lemma_taken_nothing(next);
            1
        } else {
            assert(in_header(next.phase));
            let k = lemma_header_ends(next, rest);
            lemma_taken_byte(s, fed.take(k + 1));
            assert(fed.take(k + 1).skip(1) =~= rest.take(k));
            assert(fed.skip(k + 1) =~= rest.skip(k));
            k + 1
        }
    }
}

/// Behind the DEFLATE stream there are the trailer and nothing else.
proof fn lemma_trailer_ends(got: Seq<u8>, out: Seq<u8>, fed: Seq<u8>)
    requires
        got.len() < 8,
        ({
            let s = State { phase: Phase::Trailer { got }, machine: ended(out) };
            taken(s, fed).1 is None && taken(s, fed).0.phase is Done
        }),
    ensures
        got + fed == trailer(out),
        taken(State { phase: Phase::Trailer { got }, machine: ended(out) }, fed).0.machine == ended(
            out,
        ),
    decreases fed.len(),
{
    let s = State { phase: Phase::Trailer { got }, machine: ended(out) };
    if fed.len() == 0 {
        assert(fed =~= Seq::<u8>::empty());
        lemma_taken_nothing(s);
    } else {
        let more = got.push(fed[0]);
        let rest = fed.skip(1);
        lemma_taken_byte(s, fed);
        assert(got + fed =~= more + rest);
        if more.len() < 8 {
            lemma_trailer_ends(more, out, rest);
        } else {
            assert(more.take(4) + more.skip(4) =~= more);
            let done = State { phase: Phase::Done, ..s };
            if rest.len() > 0 {
                lemma_taken_byte(done, rest);
            } else {
                assert(rest =~= Seq::<u8>::empty());
                assert(more + rest =~= more);
                lemma_taken_nothing(done);
            }
        }
    }
}

/// A decoder that is finished was fed a header, one complete DEFLATE stream that
/// says what it has put out, its checksum and its length, and nothing else.
pub proof fn lemma_whole_stream(fed: Seq<u8>) -> (parts: (Seq<u8>, Seq<u8>))
    requires
        taken(beginning(), fed).1 is None,
        taken(beginning(), fed).0.phase is Done,
    ensures
        ({
            let out = taken(beginning(), fed).0.machine.out;
            let (front, body) = parts;
            &&& fed == front + body + trailer(out)
            &&& taken(beginning(), front) == (
                State { phase: Phase::Body, machine: start(Seq::empty()) },
                None::<Fault>,
            )
            &&& completes(byte_bits(body), out)
        }),
{
    let k = lemma_header_ends(beginning(), fed);
    let front = fed.take(k);
    let rest = fed.skip(k);
    let s = State { phase: Phase::Body, machine: start(Seq::empty()) };
    if rest.len() == 0 {
        assert(rest =~= Seq::<u8>::empty());
        lemma_taken_nothing(s);
    }
    lemma_taken_body(s, rest);
    assert(s.machine.push(byte_bits(rest)).bits =~= byte_bits(rest));
    assert(s.machine.push(byte_bits(rest)) == start(byte_bits(rest)));
    let reached = inflate(start(byte_bits(rest))).0;
    let body = lemma_whole(rest);
    let tail = unread_bytes(reached);
    lemma_trailer_ends(Seq::empty(), reached.out, tail);
    assert(Seq::<u8>::empty() + tail =~= tail);
    assert(fed =~= front + rest);
    assert(fed =~= front + body + tail);
    (front, body)
}

// ---------------------------------------------------------------------------
// Streams of any encoder
// ---------------------------------------------------------------------------

/// A point in the header behind which the DEFLATE stream has not begun.
spec fn at(phase: Phase) -> State {
    State { phase, machine: start(Seq::empty()) }
}

proof fn lemma_read_fixed_from(h: Seq<u8>, k: nat, rest: Seq<u8>)
    requires
        h.len() == 10,
        header_fault(h) is None,
        k <= 9,
    ensures
        taken(at(Phase::Header { got: h.take(k as int) }), h.skip(k as int) + rest) == taken(
            at(behind_fixed(h[3])),
            rest,
        ),
    decreases 10 - k,
{
    let data = h.skip(k as int) + rest;
    lemma_taken_byte(at(Phase::Header { got: h.take(k as int) }), data);
    assert(data[0] == h[k as int]);
    assert(h.take(k as int).push(h[k as int]) =~= h.take(k as int + 1));
    assert(data.skip(1) =~= h.skip(k as int + 1) + rest);
    if k < 9 {
        lemma_read_fixed_from(h, k + 1, rest);
    } else {
        assert(h.take(10) =~= h);
        assert(h.skip(10) + rest =~= rest);
    }
}

proof fn lemma_read_extra_from(flags: u8, data: Seq<u8>, rest: Seq<u8>)
    requires
        data.len() > 0,
    ensures
        taken(at(Phase::Extra { flags, left: data.len() }), data + rest) == taken(
            at(behind_extra(flags)),
            rest,
        ),
    decreases data.len(),
{
    let all = data + rest;
    lemma_taken_byte(at(Phase::Extra { flags, left: data.len() }), all);
    assert(all.skip(1) =~= data.skip(1) + rest);
    if data.len() > 1 {
        lemma_read_extra_from(flags, data.skip(1), rest);
    } else {
        assert(data.skip(1) + rest =~= rest);
    }
}

proof fn lemma_read_extra(flags: u8, extra: Seq<u8>, rest: Seq<u8>)
    requires
        extra.len() >= 2,
        extra.len() == 2 + extra[0] + 256 * extra[1],
    ensures
        taken(at(Phase::ExtraLength { flags, got: Seq::empty() }), extra + rest) == taken(
            at(behind_extra(flags)),
            rest,
        ),
{
    let all = extra + rest;
    let first = at(Phase::ExtraLength { flags, got: Seq::empty() });
    let second = at(Phase::ExtraLength { flags, got: seq![extra[0]] });
    let data = extra.skip(2);
    lemma_taken_byte(first, all);
    assert(Seq::<u8>::empty().push(extra[0]) =~= seq![extra[0]]);
    lemma_taken_byte(second, all.skip(1));
    assert(all.skip(1)[0] == extra[1]);
    assert(all.skip(1).skip(1) =~= data + rest);
    if data.len() > 0 {
        lemma_read_extra_from(flags, data, rest);
    } else {
        assert(data + rest =~= rest);
    }
}

/// A text that ends with a zero byte.
proof fn lemma_read_text(phase: Phase, next: Phase, text: Seq<u8>, rest: Seq<u8>)
    requires
        phase matches Phase::Name { flags } ==> next == behind_name(flags),
        phase matches Phase::Comment { flags } ==> next == behind_comment(flags),
        phase is Name || phase is Comment,
        text.len() > 0,
        text.last() == 0,
        forall|i: int| 0 <= i < text.len() - 1 ==> #[trigger] text[i] != 0,
    ensures
        taken(at(phase), text + rest) == taken(at(next), rest),
    decreases text.len(),
{
    let all = text + rest;
    lemma_taken_byte(at(phase), all);
    assert(all.skip(1) =~= text.skip(1) + rest);
    if text.len() > 1 {
        assert(text.skip(1).last() == text.last());
        assert forall|i: int| 0 <= i < text.skip(1).len() - 1 implies #[trigger] text.skip(1)[i]
            != 0 by {
            assert(text.skip(1)[i] == text[i + 1]);
        }
        lemma_read_text(phase, next, text.skip(1), rest);
    } else {
        assert(text.skip(1) + rest =~= rest);
    }
}

proof fn lemma_read_check(check: Seq<u8>, rest: Seq<u8>)
    requires
        check.len() == 2,
    ensures
        taken(at(Phase::HeaderCrc { left: 2 }), check + rest) == taken(at(Phase::Body), rest),
{
    let all = check + rest;
    lemma_taken_byte(at(Phase::HeaderCrc { left: 2 }), all);
    lemma_taken_byte(at(Phase::HeaderCrc { left: 1 }), all.skip(1));
    assert(all.skip(1).skip(1) =~= rest);
}

/// A header with whatever fields leads to the DEFLATE stream.
proof fn lemma_read_any_header(
    h: Seq<u8>,
    extra: Seq<u8>,
    name: Seq<u8>,
    comment: Seq<u8>,
    check: Seq<u8>,
    rest: Seq<u8>,
)
    requires
        h.len() == 10,
        header_fault(h) is None,
        if is_set(h[3], FEXTRA) {
            extra.len() >= 2 && extra.len() == 2 + extra[0] + 256 * extra[1]
        } else {
            extra.len() == 0
        },
        if is_set(h[3], FNAME) {
            name.len() > 0 && name.last() == 0
        } else {
            name.len() == 0
        },
        forall|i: int| 0 <= i < name.len() - 1 ==> #[trigger] name[i] != 0,
        if is_set(h[3], FCOMMENT) {
            comment.len() > 0 && comment.last() == 0
        } else {
            comment.len() == 0
        },
        forall|i: int| 0 <= i < comment.len() - 1 ==> #[trigger] comment[i] != 0,
        check.len() == if is_set(h[3], FHCRC) {
            2nat
        } else {
            0
        },
    ensures
        taken(beginning(), h + extra + name + comment + check + rest) == taken(
            at(Phase::Body),
            rest,
        ),
{
    let flags = h[3];
    let r4 = check + rest;
    let r3 = comment + r4;
    let r2 = name + r3;
    let r1 = extra + r2;
    assert(h + extra + name + comment + check + rest =~= h + r1);
    assert(h.take(0) =~= Seq::<u8>::empty());
    assert(h.skip(0) =~= h);
    lemma_read_fixed_from(h, 0, r1);
    if is_set(flags, FEXTRA) {
        lemma_read_extra(flags, extra, r2);
    } else {
        assert(r1 =~= r2);
    }
    if is_set(flags, FNAME) {
        lemma_read_text(Phase::Name { flags }, behind_name(flags), name, r3);
    } else {
        assert(r2 =~= r3);
    }
    if is_set(flags, FCOMMENT) {
        lemma_read_text(Phase::Comment { flags }, behind_comment(flags), comment, r4);
    } else {
        assert(r3 =~= r4);
    }
    if is_set(flags, FHCRC) {
        lemma_read_check(check, rest);
    } else {
        assert(r4 =~= rest);
    }
}

/// Any eight bytes behind the DEFLATE stream are held against the output.
proof fn lemma_read_any_trailer(t: Seq<u8>, out: Seq<u8>, k: nat)
    requires
        t.len() == 8,
        k <= 7,
    ensures
        taken(
            State { phase: Phase::Trailer { got: t.take(k as int) }, machine: ended(out) },
            t.skip(k as int),
        ) == match trailer_fault(t, out) {
            Some(fault) => (
                State { phase: Phase::Trailer { got: t }, machine: ended(out) },
                Some(fault),
            ),
            None => (behind(out), None),
        },
    decreases 8 - k,
{
    let data = t.skip(k as int);
    let s = State { phase: Phase::Trailer { got: t.take(k as int) }, machine: ended(out) };
    lemma_taken_byte(s, data);
    assert(data[0] == t[k as int]);
    assert(t.take(k as int).push(t[k as int]) =~= t.take(k as int + 1));
    assert(data.skip(1) =~= t.skip(k as int + 1));
    if k < 7 {
        lemma_read_any_trailer(t, out, k + 1);
    } else {
        assert(t.take(8) =~= t);
        assert(t.skip(8) =~= Seq::<u8>::empty());
        lemma_taken_nothing(behind(out));
    }
}

/// What a DEFLATE stream that says `out`, and whatever follows it, lead to.
proof fn lemma_read_any_body(body: Seq<u8>, out: Seq<u8>, t: Seq<u8>)
    requires
        inflate(start(byte_bits(body))).1 is Finished,
        inflate(start(byte_bits(body))).0.out == out,
        inflate(start(byte_bits(body))).0.bits.len() < 8,
        t.len() > 0,
    ensures
        taken(at(Phase::Body), body + t) == taken(
            State { phase: Phase::Trailer { got: Seq::empty() }, machine: ended(out) },
            t,
        ),
{
    let reached = inflate(start(byte_bits(body))).0;
    let rest = body + t;
    let own = lemma_whole(body);
    lemma_byte_bits_len(body);
    lemma_inflate(start(byte_bits(body)));
    lemma_bits_of_bytes(reached.bits.skip(reached.held as int));
    lemma_byte_bits_len(unread_bytes(reached));
    assert(unread_bytes(reached).len() == 0);
    assert(own =~= body);
    lemma_taken_body(at(Phase::Body), rest);
    lemma_byte_bits_concat(body, t);
    lemma_byte_bits_len(t);
    let m = at(Phase::Body).machine.push(byte_bits(rest));
    assert(m.bits =~= byte_bits(body) + byte_bits(t));
    assert(m == start(byte_bits(body) + byte_bits(t)));
    lemma_bytes_of(t, Seq::empty());
    assert(byte_bits(t) + Seq::<bool>::empty() =~= byte_bits(t));
}

/// A gzip stream as any encoder may write it is decoded to what its DEFLATE
/// stream says.
///
/// The fixed part of the header begins with the magic bytes and the method, and
/// its time, extra flags and operating system may be anything. The fields that
/// its flags announce follow in order: the extra field with its length in front,
/// the name and the comment with a zero byte behind them, and two bytes of
/// checksum. Of the eight bytes behind the DEFLATE stream, the first four must be
/// the CRC-32 of the output, and the others its length modulo 2^32, both with
/// the lowest byte first.
pub proof fn lemma_any_stream(
    h: Seq<u8>,
    extra: Seq<u8>,
    name: Seq<u8>,
    comment: Seq<u8>,
    check: Seq<u8>,
    body: Seq<u8>,
    t: Seq<u8>,
    out: Seq<u8>,
)
    requires
        h.len() == 10,
        h[0] == 0x1f,
        h[1] == 0x8b,
        h[2] == 8,
        if h[3] / 4 % 2 == 1 {
            extra.len() >= 2 && extra.len() == 2 + extra[0] + 256 * extra[1]
        } else {
            extra.len() == 0
        },
        if h[3] / 8 % 2 == 1 {
            name.len() > 0 && name.last() == 0
        } else {
            name.len() == 0
        },
        forall|i: int| 0 <= i < name.len() - 1 ==> #[trigger] name[i] != 0,
        if h[3] / 16 % 2 == 1 {
            comment.len() > 0 && comment.last() == 0
        } else {
            comment.len() == 0
        },
        forall|i: int| 0 <= i < comment.len() - 1 ==> #[trigger] comment[i] != 0,
        check.len() == if h[3] / 2 % 2 == 1 {
            2nat
        } else {
            0
        },
        inflate(start(byte_bits(body))).1 is Finished,
        inflate(start(byte_bits(body))).0.out == out,
        inflate(start(byte_bits(body))).0.bits.len() < 8,
        t.len() == 8,
    ensures
        ({
            let (s, fault) = taken(
                beginning(),
                h + extra + name + comment + check + body + t,
            );
            let crc = t[0] + 0x100 * t[1] + 0x1_0000 * t[2] + 0x100_0000 * t[3];
            let size = t[4] + 0x100 * t[5] + 0x1_0000 * t[6] + 0x100_0000 * t[7];
            &&& s.machine.out == out
            &&& s.phase is Done <==> fault is None
            &&& fault == if crc != checksum(out) {
                Some(Fault::InvalidData("crc-32 checksum mismatch in gzip trailer"@))
            } else if size != out.len() % 0x1_0000_0000 {
                Some(Fault::InvalidData("isize mismatch in gzip trailer"@))
            } else {
                None
            }
        }),
{
    let rest = body + t;
    let fed_bytes = h + extra + name + comment + check + body + t;
    assert(fed_bytes =~= h + extra + name + comment + check + rest);
    lemma_read_any_header(h, extra, name, comment, check, rest);
    lemma_read_any_body(body, out, t);
    assert(t.take(0) =~= Seq::<u8>::empty());
    assert(t.skip(0) =~= t);
    lemma_read_any_trailer(t, out, 0);
    lemma_makes(t.take(4), checksum(out) as nat);
    lemma_makes(t.skip(4), out.len() % 0x1_0000_0000);
}

/// Four bytes are those of a number, the lowest one first, if they make it.
proof fn lemma_makes(b: Seq<u8>, v: nat)
    requires
        b.len() == 4,
        v < 0x1_0000_0000,
    ensures
        b == le32(v) <==> b[0] + 0x100 * b[1] + 0x1_0000 * b[2] + 0x100_0000 * b[3] == v,
{
    lemma_le32_sum(v);
    if b[0] + 0x100 * b[1] + 0x1_0000 * b[2] + 0x100_0000 * b[3] == v {
        let n = v as int;
        assert(n / 0x100_0000 == b[3]);
        assert(n / 0x1_0000 == b[3] * 256 + b[2]);
        assert(n / 0x100 == b[3] * 65536 + b[2] * 256 + b[1]);
        assert(n / 0x1_0000 % 256 == b[2]);
        assert(n / 0x100 % 256 == b[1]);
        assert(n % 256 == b[0]);
        assert(b =~= le32(v));
    }
}

/// Ten bytes that do not begin with the magic bytes and the method are refused,
/// and no others. Fewer bytes are not judged.
pub proof fn lemma_header_judged(h: Seq<u8>)
    requires
        h.len() <= 10,
    ensures
        h.len() < 10 ==> taken(beginning(), h).1 is None,
        h.len() == 10 ==> taken(beginning(), h).1 == if h[0] != 0x1f || h[1] != 0x8b {
            Some(Fault::InvalidData("gzip magic bytes not found"@))
        } else if h[2] != 8 {
            Some(
                Fault::Unsupported(
                    "gzip compression method "@ + decimal(h[2] as nat)
                        + " not supported (only deflate=8)"@,
                ),
            )
        } else {
            None
        },
{
    assert(h.take(0) =~= Seq::<u8>::empty());
    assert(h.skip(0) =~= h);
    lemma_header_judged_from(h, 0);
}

proof fn lemma_header_judged_from(h: Seq<u8>, k: nat)
    requires
        k <= h.len() <= 10,
        h.len() == 10 ==> k < 10,
    ensures
        taken(at(Phase::Header { got: h.take(k as int) }), h.skip(k as int)).1
            == if h.len() < 10 {
            None
        } else {
            header_fault(h)
        },
    decreases h.len() - k,
{
    let s = at(Phase::Header { got: h.take(k as int) });
    let data = h.skip(k as int);
    if k == h.len() {
        assert(data =~= Seq::<u8>::empty());
        lemma_taken_nothing(s);
    } else {
        lemma_taken_byte(s, data);
        assert(data[0] == h[k as int]);
        assert(h.take(k as int).push(h[k as int]) =~= h.take(k as int + 1));
        assert(data.skip(1) =~= h.skip(k as int + 1));
        if k < 9 {
            lemma_header_judged_from(h, k + 1);
        } else {
            assert(h.take(10) =~= h);
            assert(h.skip(10) =~= Seq::<u8>::empty());
            lemma_taken_nothing(at(behind_fixed(h[3])));
        }
    }
}

proof fn lemma_done_header(data: Seq<u8>, k: nat)
    requires
        k <= 9,
        k <= data.len(),
        taken(at(Phase::Header { got: data.take(k as int) }), data.skip(k as int)).1 is None,
        taken(
            at(Phase::Header { got: data.take(k as int) }),
            data.skip(k as int),
        ).0.phase is Done,
    ensures
        data.len() >= 10,
        header_fault(data.take(10)) is None,
    decreases 10 - k,
{
    let s = at(Phase::Header { got: data.take(k as int) });
    let rest = data.skip(k as int);
    if rest.len() == 0 {
        assert(rest =~= Seq::<u8>::empty());
        lemma_taken_nothing(s);
    } else {
        lemma_taken_byte(s, rest);
        assert(rest[0] == data[k as int]);
        assert(data.take(k as int).push(data[k as int]) =~= data.take(k as int + 1));
        assert(rest.skip(1) =~= data.skip(k as int + 1));
        if k < 9 {
            lemma_done_header(data, k + 1);
        }
    }
}

/// A decoder that is finished was fed the magic bytes and the method first, and
/// takes nothing more.
pub proof fn lemma_finished_stream(data: Seq<u8>, more: Seq<u8>)
    requires
        taken(beginning(), data).1 is None,
        taken(beginning(), data).0.phase is Done,
        more.len() > 0,
    ensures
        data.len() >= 10,
        data[0] == 0x1f,
        data[1] == 0x8b,
        data[2] == 8,
        taken(taken(beginning(), data).0, more) == (
            taken(beginning(), data).0,
            Some(Fault::InvalidData("bytes fed after gzip stream end"@)),
        ),
{
    let s = taken(beginning(), data).0;
    lemma_taken_byte(s, more);
    assert(data.take(0) =~= Seq::<u8>::empty());
    assert(data.skip(0) =~= data);
    lemma_done_header(data, 0);
    let h = data.take(10);
    assert(h[0] == data[0] && h[1] == data[1] && h[2] == data[2]);
}

/// What a gzip encoder has written: the ten bytes of a header with no flags, no
/// time and an operating system that is not known, the bytes of its DEFLATE
/// stream, and once it is finished four bytes that make the CRC-32 of all that
/// was fed and four that make its length modulo 2^32, the lowest byte first.
pub proof fn lemma_written(s: Encoding) -> (t: Seq<u8>)
    ensures
        encoded(s) == (if s.started {
            seq![0x1fu8, 0x8bu8, 8u8, 0u8, 0u8, 0u8, 0u8, 0u8, 0u8, 255u8]
        } else {
            Seq::empty()
        }) + bytes_of(s.deflate.stream) + t,
        !s.deflate.finished ==> t.len() == 0,
        s.deflate.finished ==> {
            &&& t.len() == 8
            &&& t[0] + 0x100 * t[1] + 0x1_0000 * t[2] + 0x100_0000 * t[3] == checksum(s.payload)
            &&& t[4] + 0x100 * t[5] + 0x1_0000 * t[6] + 0x100_0000 * t[7] == s.payload.len()
                % 0x1_0000_0000
        },
{
    if s.deflate.finished {
        let t = trailer(s.payload);
        lemma_le32_sum(checksum(s.payload) as nat);
        lemma_le32_sum(s.payload.len() % 0x1_0000_0000);
        t
    } else {
        Seq::empty()
    }
}

/// Feeding and finishing a gzip encoder is feeding and finishing its DEFLATE
/// encoder, and all that was fed is kept account of.
pub proof fn lemma_encoder_steps(kind: BlockKind, limit: Option<nat>, s: Encoding, data: Seq<u8>)
    ensures
        unstarted(kind, limit).deflate == fresh(kind, limit),
        unstarted(kind, limit).payload.len() == 0,
        !unstarted(kind, limit).started,
        more_fed(s, data).deflate == fed(s.deflate, data),
        more_fed(s, data).payload == s.payload + data,
        more_fed(s, data).started,
        all_fed(s).deflate == finished(s.deflate),
        all_fed(s).payload == s.payload,
        all_fed(s).started,
{
}

/// What was found to be wrong with a stream is found again with whatever follows,
/// and nothing changes.
pub proof fn lemma_fault_stays(s: State, data: Seq<u8>, more: Seq<u8>)
    requires
        taken(s, data).1 is Some,
        more.len() > 0,
    ensures
        taken(taken(s, data).0, more) == taken(s, data),
    decreases rank(s.phase), data.len(),
{
    if data.len() == 0 {
        assert(data =~= Seq::<u8>::empty());
        lemma_taken_nothing(s);
    } else if s.phase is Body {
        lemma_taken_body(s, data);
        match inflate(s.machine.push(byte_bits(data))) {
            (reached, Stop::Finished) => {
                lemma_fault_stays(
                    State {
                        phase: Phase::Trailer { got: Seq::empty() },
                        machine: ended(reached.out),
                    },
                    unread_bytes(reached),
                    more,
                );
            },
            (_, Stop::Fail(fault)) => {
                lemma_taken_byte(dead(fault), more);
            },
            _ => {},
        }
    } else {
        lemma_taken_byte(s, data);
        let (next, fault) = byte_taken(s, data[0]);
        if fault is Some {
            lemma_taken_byte(next, more);
        } else {
            lemma_rank_kept(s, data[0]);
            lemma_fault_stays(next, data.skip(1), more);
        }
    }
}

/// A byte leads no further back.
proof fn lemma_rank_kept(s: State, byte: u8)
    ensures
        rank(byte_taken(s, byte).0.phase) <= rank(s.phase),
{
}

/// An error does not depend on what follows the bytes that it is found in.
#[verifier::spinoff_prover]
#[verifier::rlimit(60)]
pub proof fn lemma_first_fault(s: State, first: Seq<u8>, second: Seq<u8>)
    requires
        machine_wf(s.machine),
        taken(s, first).1 is Some,
    ensures
        taken(s, first + second) == taken(s, first),
    decreases rank(s.phase), first.len(),
{
    let all = first + second;
    if first.len() == 0 {
        assert(first =~= Seq::<u8>::empty());
        lemma_taken_nothing(s);
    } else if s.phase is Body {
        let m = s.machine.push(byte_bits(first));
        let more = byte_bits(second);
        lemma_byte_bits_len(first);
        lemma_byte_bits_len(second);
        lemma_byte_bits_concat(first, second);
        assert(m.push(more).bits =~= s.machine.push(byte_bits(all)).bits);
        assert(m.push(more) == s.machine.push(byte_bits(all)));
        lemma_inflate(m);
        lemma_inflate_extend(m, more);
        lemma_taken_body(s, first);
        lemma_taken_body(s, all);
        let (reached, stop) = inflate(m);
        if stop is Finished {
            lemma_unread_more(reached, second);
            let behind = State {
                phase: Phase::Trailer { got: Seq::empty() },
                machine: ended(reached.out),
            };
            lemma_first_fault(behind, unread_bytes(reached), second);
        }
    } else {
        lemma_taken_byte(s, first);
        lemma_taken_byte(s, all);
        assert(all.skip(1) =~= first.skip(1) + second);
        if byte_taken(s, first[0]).1 is None {
            lemma_rank_kept(s, first[0]);
            lemma_first_fault(byte_taken(s, first[0]).0, first.skip(1), second);
        }
    }
}

/// A DEFLATE stream that is not valid is refused for the reason that makes it so,
/// whatever header is in front of it. One that is not complete is not an error,
/// and what it says so far is put out.
pub proof fn lemma_any_body(
    h: Seq<u8>,
    extra: Seq<u8>,
    name: Seq<u8>,
    comment: Seq<u8>,
    check: Seq<u8>,
    body: Seq<u8>,
)
    requires
        h.len() == 10,
        h[0] == 0x1f,
        h[1] == 0x8b,
        h[2] == 8,
        if h[3] / 4 % 2 == 1 {
            extra.len() >= 2 && extra.len() == 2 + extra[0] + 256 * extra[1]
        } else {
            extra.len() == 0
        },
        if h[3] / 8 % 2 == 1 {
            name.len() > 0 && name.last() == 0
        } else {
            name.len() == 0
        },
        forall|i: int| 0 <= i < name.len() - 1 ==> #[trigger] name[i] != 0,
        if h[3] / 16 % 2 == 1 {
            comment.len() > 0 && comment.last() == 0
        } else {
            comment.len() == 0
        },
        forall|i: int| 0 <= i < comment.len() - 1 ==> #[trigger] comment[i] != 0,
        check.len() == if h[3] / 2 % 2 == 1 {
            2nat
        } else {
            0
        },
    ensures
        ({
            let (s, fault) = taken(beginning(), h + extra + name + comment + check + body);
            match inflate(start(byte_bits(body))) {
                (_, Stop::Fail(f)) => fault == Some(f),
                (reached, Stop::Finished) => !(s.phase is Body) && s.machine.out == reached.out,
                (reached, _) => fault is None && s.phase is Body && s.machine.out == reached.out,
            }
        }),
{
    lemma_read_any_header(h, extra, name, comment, check, body);
    let m = at(Phase::Body).machine.push(byte_bits(body));
    assert(m.bits =~= byte_bits(body));
    assert(m == start(byte_bits(body)));
    if body.len() == 0 {
        assert(body =~= Seq::<u8>::empty());
        lemma_taken_nothing(at(Phase::Body));
        reveal(inflate);
    } else {
        lemma_taken_body(at(Phase::Body), body);
        if let (reached, Stop::Finished) = inflate(m) {
            lemma_trailer_output(Seq::empty(), reached.out, unread_bytes(reached));
        }
    }
}

/// Bytes behind the DEFLATE stream change nothing about the output.
proof fn lemma_trailer_output(got: Seq<u8>, out: Seq<u8>, data: Seq<u8>)
    ensures
        ({
            let s = State { phase: Phase::Trailer { got }, machine: ended(out) };
            let t = taken(s, data).0;
            (t.phase is Trailer || t.phase is Done) && t.machine.out == out
        }),
    decreases data.len(),
{
    let s = State { phase: Phase::Trailer { got }, machine: ended(out) };
    if data.len() == 0 {
        assert(data =~= Seq::<u8>::empty());
        lemma_taken_nothing(s);
    } else {
        lemma_taken_byte(s, data);
        let (next, fault) = byte_taken(s, data[0]);
        if fault is None {
            if next.phase is Trailer {
                lemma_trailer_output(next.phase->Trailer_got, out, data.skip(1));
            } else if data.len() > 1 {
                lemma_taken_byte(next, data.skip(1));
            } else {
                assert(data.skip(1) =~= Seq::<u8>::empty());
                lemma_taken_nothing(next);
            }
        }
    }
}

} // verus!
