//! ZLIB (RFC 1950) encoder and decoder.
//!
//! See [`Encoder`] and [`Decoder`] for the streaming API.
//!
//! This module also provides [`Adler32`] and [`adler32`] for Adler-32
//! checksum computation.

use crate::adler32::{checksum, lemma_reduced, lemma_summed_concat, no_sums, summed};
use crate::bits::{
    byte_bits, bytes_of, lemma_bits_of_bytes, lemma_byte_bits_concat, lemma_byte_bits_len,
    lemma_bytes_of,
};
use crate::block::{block, BlockKind};
use crate::buf::Buf;
use crate::decode::Decoder as DeflateDecoder;
use crate::encode::{
    fed, finished, fresh, lemma_stream_extends, EncodeOptions, Encoder as DeflateEncoder,
    EncoderState, DEFAULT_MAX_BLOCK_INPUT,
};
use crate::error::{decimal, invalid, invalid_data, numbered, unsupported, Error, Fault};
use crate::inflate::{
    ended, inflate, lemma_inflate, lemma_inflate_extend, lemma_unread_more, start, unread_bytes,
    wf as machine_wf, Machine, Stop,
};
use crate::laws::{
    completes, lemma_completes_block, lemma_decodes_nothing, lemma_fed, lemma_fed_concat,
    lemma_finished, lemma_fresh, lemma_whole, represents,
};
use std::borrow::Cow;
use vstd::prelude::*;

pub use crate::adler32::{adler32, Adler32};

verus! {

/// RFC 1950 header byte: CMF = 0x78 (deflate, 32 KiB window).
pub const CMF: u8 = 0x78;

/// RFC 1950 FLG byte: default compression (FLEVEL=2), no dictionary.
/// The low 5 bits (FCHECK) are chosen so `(CMF * 256 + FLG) % 31 == 0`.
/// `0x78 * 256 + 0x9C = 30876 = 31 * 996`.
pub const FLG: u8 = 0x9C;

// ---------------------------------------------------------------------------
// The format
// ---------------------------------------------------------------------------

/// Where in a zlib stream a decoder stands.
pub enum Phase {
    /// In the header, of which these bytes have been read.
    Header { got: Seq<u8> },
    /// In the DEFLATE stream.
    Body,
    /// In the trailer, of which these bytes have been read.
    Trailer { got: Seq<u8> },
    /// Behind the trailer.
    Done,
    /// In a DEFLATE stream that is not valid.
    Failed { fault: Fault },
}

/// A point in the decoding of a zlib stream.
pub struct State {
    pub phase: Phase,
    /// The point that has been reached in the DEFLATE stream. Bits behind it
    /// are part of the trailer.
    pub machine: Machine,
}

/// A point before a stream.
pub open spec fn beginning() -> State {
    State { phase: Phase::Header { got: Seq::empty() }, machine: start(Seq::empty()) }
}

/// What is left of a decoder of an invalid DEFLATE stream.
pub open spec fn dead(fault: Fault) -> State {
    State { phase: Phase::Failed { fault }, machine: start(Seq::empty()) }
}

/// What is wrong with a header, if anything.
pub open spec fn header_fault(header: Seq<u8>) -> Option<Fault> {
    let cmf = header[0];
    let flg = header[1];
    if cmf % 16 != 8 {
        Some(
            Fault::Unsupported(
                "zlib compression method "@ + decimal((cmf % 16) as nat)
                    + " not supported (only deflate=8)"@,
            ),
        )
    } else if cmf / 16 > 7 {
        Some(
            Fault::Unsupported(
                "zlib window size code "@ + decimal((cmf / 16) as nat)
                    + " not supported (max 7)"@,
            ),
        )
    } else if flg / 32 % 2 == 1 {
        Some(Fault::Unsupported("zlib preset dictionary not supported"@))
    } else if (cmf as nat * 256 + flg as nat) % 31 != 0 {
        Some(invalid("zlib header FCHECK validation failed"))
    } else {
        None
    }
}

/// The four bytes of a 32-bit number, the highest one first.
pub open spec fn be32(v: nat) -> Seq<u8> {
    seq![
        (v / 0x100_0000 % 256) as u8,
        (v / 0x1_0000 % 256) as u8,
        (v / 0x100 % 256) as u8,
        (v % 256) as u8,
    ]
}

/// What is wrong with a trailer behind this output, if anything.
pub open spec fn trailer_fault(trailer: Seq<u8>, out: Seq<u8>) -> Option<Fault> {
    if trailer != be32(checksum(out)) {
        Some(invalid("adler-32 checksum mismatch in zlib trailer"))
    } else {
        None
    }
}

/// A measure for the way through a stream.
pub open spec fn rank(phase: Phase) -> nat {
    match phase {
        Phase::Header { .. } | Phase::Body => 1,
        _ => 0,
    }
}

/// Take a byte outside the DEFLATE stream.
pub open spec fn byte_taken(s: State, byte: u8) -> (State, Option<Fault>) {
    match s.phase {
        Phase::Header { got } => if got.len() >= 2 {
            (s, header_fault(got))
        } else {
            let more = got.push(byte);
            let next = State { phase: Phase::Header { got: more }, ..s };
            if more.len() < 2 {
                (next, None)
            } else {
                match header_fault(more) {
                    Some(fault) => (next, Some(fault)),
                    None => (State { phase: Phase::Body, ..s }, None),
                }
            }
        },
        Phase::Trailer { got } => if got.len() >= 4 {
            (s, trailer_fault(got, s.machine.out))
        } else {
            let more = got.push(byte);
            let next = State { phase: Phase::Trailer { got: more }, ..s };
            if more.len() < 4 {
                (next, None)
            } else {
                match trailer_fault(more, s.machine.out) {
                    Some(fault) => (next, Some(fault)),
                    None => (State { phase: Phase::Done, ..s }, None),
                }
            }
        },
        Phase::Done => (s, Some(invalid("bytes fed after zlib stream end"))),
        Phase::Failed { fault } => (s, Some(fault)),
        _ => (s, None),
    }
}

/// What was found to be wrong with a stream, if anything was. Whatever follows,
/// nothing more is taken of it.
pub open spec fn kept_fault(s: State) -> Option<Fault> {
    match s.phase {
        Phase::Header { got } => if got.len() >= 2 {
            header_fault(got)
        } else {
            None
        },
        Phase::Trailer { got } => if got.len() >= 4 {
            trailer_fault(got, s.machine.out)
        } else {
            None
        },
        Phase::Failed { fault } => Some(fault),
        _ => None,
    }
}

/// Take more bytes of a stream.
#[verifier::opaque]
pub open spec fn taken(s: State, data: Seq<u8>) -> (State, Option<Fault>)
    decreases rank(s.phase), data.len(),
{
    if data.len() == 0 {
        (s, None)
    } else if s.phase is Body {
        match inflate(s.machine.push(byte_bits(data))) {
            (reached, Stop::Finished) => taken(
                State {
                    phase: Phase::Trailer { got: Seq::empty() },
                    machine: ended(reached.out),
                },
                unread_bytes(reached),
            ),
            (_, Stop::Fail(fault)) => (dead(fault), Some(fault)),
            (reached, _) => (State { phase: Phase::Body, machine: reached }, None),
        }
    } else {
        match byte_taken(s, data[0]) {
            (next, Some(fault)) => (next, Some(fault)),
            (next, None) => taken(next, data.skip(1)),
        }
    }
}

/// Nothing changes without bytes.
pub proof fn lemma_taken_nothing(s: State)
    ensures
        taken(s, Seq::empty()) == (s, None::<Fault>),
{
    reveal(taken);
}

/// Nothing more is taken of a stream that something is wrong with.
pub proof fn lemma_kept_fault(s: State, data: Seq<u8>)
    requires
        kept_fault(s) is Some,
        data.len() > 0,
    ensures
        taken(s, data) == (s, kept_fault(s)),
{
    reveal(taken);
}

/// Bytes outside the DEFLATE stream are taken one by one.
pub proof fn lemma_taken_byte(s: State, data: Seq<u8>)
    requires
        data.len() > 0,
        !(s.phase is Body),
    ensures
        taken(s, data) == match byte_taken(s, data[0]) {
            (next, Some(fault)) => (next, Some(fault)),
            (next, None) => taken(next, data.skip(1)),
        },
{
    reveal(taken);
}

/// Bytes of the DEFLATE stream are taken as they come.
pub proof fn lemma_taken_body(s: State, data: Seq<u8>)
    requires
        data.len() > 0,
        s.phase is Body,
    ensures
        taken(s, data) == match inflate(s.machine.push(byte_bits(data))) {
            (reached, Stop::Finished) => taken(
                State {
                    phase: Phase::Trailer { got: Seq::empty() },
                    machine: ended(reached.out),
                },
                unread_bytes(reached),
            ),
            (_, Stop::Fail(fault)) => (dead(fault), Some(fault)),
            (reached, _) => (State { phase: Phase::Body, machine: reached }, None),
        },
{
    reveal(taken);
}

// ---------------------------------------------------------------------------
// Decoding
// ---------------------------------------------------------------------------

#[derive(Debug, Clone, Copy, PartialEq, Eq, Structural)]
enum Stage {
    Header,
    Body,
    Trailer,
    Done,
}

/// Streaming zlib decoder.
pub struct Decoder {
    stage: Stage,
    header: Vec<u8>,
    deflate: DeflateDecoder,
    adler: Adler32,
    trailer: Vec<u8>,
    output: Buf,
    /// All bytes that were put out.
    produced: Ghost<Seq<u8>>,
}

impl Default for Decoder {
    fn default() -> (decoder: Self)
        ensures
            decoder.wf(),
            decoder.state() == beginning(),
            decoder.produced() == Seq::<u8>::empty(),
            decoder.waiting() == Seq::<u8>::empty(),
    {
        Self::new()
    }
}

fn validate_zlib_header(cmf: u8, flg: u8) -> (r: Result<(), Error>)
    ensures
        match header_fault(seq![cmf, flg]) {
            None => r is Ok,
            Some(fault) => r matches Err(e) && e@ == fault,
        },
{
    if cmf % 16 != 8 {
        return Err(
            Error::Unsupported(
                Cow::Owned(
                    numbered(
                        "zlib compression method ",
                        (cmf % 16) as usize,
                        " not supported (only deflate=8)",
                    ),
                ),
            ),
        );
    }
    if cmf / 16 > 7 {
        return Err(
            Error::Unsupported(
                Cow::Owned(
                    numbered(
                        "zlib window size code ",
                        (cmf / 16) as usize,
                        " not supported (max 7)",
                    ),
                ),
            ),
        );
    }
    if flg / 32 % 2 == 1 {
        return Err(unsupported("zlib preset dictionary not supported"));
    }
    if (cmf as u32 * 256 + flg as u32) % 31 != 0 {
        return Err(invalid_data("zlib header FCHECK validation failed"));
    }
    Ok(())
}

/// The number that four bytes make, the highest one first.
fn load_be32(b: &Vec<u8>) -> (v: u32)
    requires
        b@.len() == 4,
    ensures
        b@ == be32(v as nat),
{
    let v: u32 = b[0] as u32 * 0x100_0000 + b[1] as u32 * 0x1_0000 + b[2] as u32 * 0x100
        + b[3] as u32;
    proof {
        let n = v as int;
        assert(n / 0x100_0000 == b@[0]);
        assert(n / 0x1_0000 == b@[0] * 256 + b@[1]);
        assert(n / 0x100 == b@[0] * 65536 + b@[1] * 256 + b@[2]);
        assert(n / 0x100_0000 % 256 == b@[0]);
        assert(n / 0x1_0000 % 256 == b@[1]);
        assert(n / 0x100 % 256 == b@[2]);
        assert(n % 256 == b@[3]);
        assert(b@ =~= be32(v as nat));
    }
    v
}

/// A 32-bit number is the sum of its bytes.
proof fn lemma_be32_sum(v: nat)
    requires
        v < 0x1_0000_0000,
    ensures
        v == be32(v)[0] * 0x100_0000 + be32(v)[1] * 0x1_0000 + be32(v)[2] * 0x100 + be32(v)[3],
{
    let b1 = v / 0x100;
    let b2 = v / 0x1_0000;
    let b3 = v / 0x100_0000;
    assert(b3 < 256);
    assert(b2 == b3 * 256 + b2 % 256) by {
        assert(b3 == b2 / 256);
    }
    assert(b1 == b2 * 256 + b1 % 256) by {
        assert(b2 == b1 / 256);
    }
    assert(v == b1 * 256 + v % 256);
}

/// A 32-bit number is determined by its bytes.
proof fn lemma_be32(v: nat, w: nat)
    requires
        v < 0x1_0000_0000,
        w < 0x1_0000_0000,
        be32(v) == be32(w),
    ensures
        v == w,
{
    lemma_be32_sum(v);
    lemma_be32_sum(w);
}

impl Decoder {
    /// The point in the stream that the decoder has reached.
    pub closed spec fn state(self) -> State {
        if let Some(fault) = self.deflate.fault() {
            dead(fault)
        } else {
            State {
                phase: match self.stage {
                    Stage::Header => Phase::Header { got: self.header@ },
                    Stage::Body => Phase::Body,
                    Stage::Trailer => Phase::Trailer { got: self.trailer@ },
                    Stage::Done => Phase::Done,
                },
                machine: if self.stage is Trailer || self.stage is Done {
                    ended(self.produced@)
                } else {
                    self.deflate.machine()
                },
            }
        }
    }

    /// All bytes that were put out.
    pub closed spec fn produced(self) -> Seq<u8> {
        self.produced@
    }

    /// The bytes that the caller has not taken.
    pub closed spec fn waiting(self) -> Seq<u8> {
        self.output@
    }

    /// What was found to be wrong with the stream, if anything was.
    pub open spec fn fault(self) -> Option<Fault> {
        kept_fault(self.state())
    }

    /// The stream has turned out to be invalid.
    pub open spec fn failed(self) -> bool {
        self.fault() is Some
    }

    /// The whole stream has been read, and its checksum was right.
    pub open spec fn finished(self) -> bool {
        self.state().phase is Done
    }

    /// Everything that was decoded has been put out and is in the checksum.
    pub closed spec fn wf(self) -> bool {
        &&& self.deflate.wf()
        &&& self.adler.wf()
        &&& self.output.wf()
        &&& self.header@.len() <= 2
        &&& self.trailer@.len() <= 4
        &&& self.output@.len() <= self.produced@.len()
        &&& self.output@ == self.produced@.skip(self.produced@.len() - self.output@.len())
        &&& !self.deflate.failed() ==> {
            &&& self.deflate.waiting().len() == 0
            &&& self.produced@ == self.deflate.produced()
            &&& self.adler.sums() == summed(no_sums(), self.produced@)
            &&& self.deflate.finished() <==> (self.stage is Trailer || self.stage is Done)
            &&& self.stage is Header && self.header@.len() == 2 ==> header_fault(
                self.header@,
            ) is Some
            &&& self.stage is Trailer && self.trailer@.len() == 4 ==> trailer_fault(
                self.trailer@,
                self.produced@,
            ) is Some
            &&& self.stage is Done ==> trailer_fault(self.trailer@, self.produced@) is None
            &&& !(self.stage is Trailer || self.stage is Done) ==> self.trailer@.len() == 0
        }
        &&& self.deflate.failed() ==> self.stage is Body
    }

    /// What waits is the end of what was put out.
    pub proof fn lemma_wf(self)
        requires
            self.wf(),
        ensures
            self.waiting().len() <= self.produced().len(),
            self.waiting() == self.produced().skip(self.produced().len() - self.waiting().len()),
            !(self.state().phase is Failed) ==> self.produced() == self.state().machine.out,
    {
    }

    /// Create a zlib decoder positioned at the start of a stream.
    pub fn new() -> (decoder: Self)
        ensures
            decoder.wf(),
            decoder.state() == beginning(),
            decoder.produced() == Seq::<u8>::empty(),
            decoder.waiting() == Seq::<u8>::empty(),
    {
        let decoder = Decoder {
            stage: Stage::Header,
            header: Vec::new(),
            deflate: DeflateDecoder::new(),
            adler: Adler32::new(),
            trailer: Vec::new(),
            output: Buf::new(),
            produced: Ghost(Seq::empty()),
        };
        assert(decoder.output@ =~= decoder.produced@.skip(0));
        assert(decoder.header@ =~= Seq::<u8>::empty());
        decoder
    }

    /// Append compressed bytes.
    ///
    /// A decoder that has found something wrong with the stream returns the same
    /// error whenever more bytes are fed. Feeding no bytes does nothing.
    #[verifier::spinoff_prover]
    #[verifier::rlimit(60)]
    pub fn feed(&mut self, data: &[u8]) -> (r: Result<(), Error>)
        requires
            old(self).wf(),
        ensures
            final(self).wf(),
            final(self).state() == taken(old(self).state(), data@).0,
            match taken(old(self).state(), data@).1 {
                None => r is Ok,
                Some(fault) => r matches Err(e) && e@ == fault,
            },
            old(self).failed() && data@.len() > 0 ==> {
                &&& r matches Err(e) && Some(e@) == old(self).fault()
                &&& *final(self) == *old(self)
            },
            data@.len() == 0 ==> r is Ok && *final(self) == *old(self),
            r is Ok && !old(self).failed() ==> !final(self).failed(),
            final(self).produced() == if final(self).state().phase is Failed {
                old(self).produced()
            } else {
                final(self).state().machine.out
            },
            final(self).produced().len() - final(self).waiting().len() == old(self).produced().len()
                - old(self).waiting().len(),
    {
        proof {
            if self.failed() && data@.len() > 0 {
                lemma_kept_fault(self.state(), data@);
            }
        }
        let ghost goal = taken(self.state(), data@);
        let mut i: usize = 0;
        assert(data@.skip(0) =~= data@);
        while i < data.len() && self.stage == Stage::Header
            invariant
                i <= data@.len(),
                self.wf(),
                i == 0 ==> *self == *old(self),
                old(self).failed() ==> i == 0,
                !old(self).failed() ==> !self.failed(),
                goal == taken(self.state(), data@.skip(i as int)),
                goal == taken(old(self).state(), data@),
                self.produced@ == old(self).produced@,
                self.output@ == old(self).output@,
            decreases data@.len() - i,
        {
            let ghost rest = data@.skip(i as int);
            proof {
                assert(rest.skip(1) =~= data@.skip(i as int + 1));
                lemma_taken_byte(self.state(), rest);
            }
            self.feed_byte_in_header(data[i])?;
            i += 1;
        }
        if i == data.len() {
            proof {
                assert(data@.skip(i as int) =~= Seq::<u8>::empty());
                lemma_taken_nothing(self.state());
            }
            return Ok(());
        }
        let rest: &[u8] = vstd::slice::slice_subrange(data, i, data.len());
        assert(rest@ =~= data@.skip(i as int));
        if self.stage == Stage::Body {
            self.feed_body(rest)
        } else {
            self.feed_trailer(rest)
        }
    }

    /// Append bytes of the DEFLATE stream.
    #[verifier::spinoff_prover]
    #[verifier::rlimit(60)]
    fn feed_body(&mut self, data: &[u8]) -> (r: Result<(), Error>)
        requires
            old(self).wf(),
            old(self).stage is Body,
            data@.len() > 0,
        ensures
            final(self).wf(),
            final(self).state() == taken(old(self).state(), data@).0,
            match taken(old(self).state(), data@).1 {
                None => r is Ok,
                Some(fault) => r matches Err(e) && e@ == fault,
            },
            old(self).failed() ==> *final(self) == *old(self),
            r is Ok ==> !final(self).failed(),
            final(self).produced() == if final(self).state().phase is Failed {
                old(self).produced()
            } else {
                final(self).state().machine.out
            },
            final(self).produced().len() - final(self).waiting().len() == old(self).produced().len()
                - old(self).waiting().len(),
    {
        let mut fresh_bytes: Vec<u8> = Vec::new();
        let ghost before = self.deflate.machine();
        proof {
            self.deflate.lemma_wf();
            lemma_byte_bits_len(data@);
            if self.deflate.failed() {
                lemma_kept_fault(self.state(), data@);
            } else {
                lemma_inflate(before.push(byte_bits(data@)));
                lemma_taken_body(self.state(), data@);
            }
        }
        self.deflate.decode_into(data, &mut fresh_bytes)?;
        let ghost prior = self.produced@;
        self.adler.update(fresh_bytes.as_slice());
        self.output.feed(fresh_bytes.as_slice());
        proof {
            self.produced@ = prior + fresh_bytes@;
            lemma_summed_concat(no_sums(), prior, fresh_bytes@);
            assert(self.produced@ =~= self.deflate.produced());
            assert(self.output@ =~= self.produced@.skip(
                self.produced@.len() - self.output@.len(),
            ));
        }
        if !self.deflate.is_finished() {
            return Ok(());
        }
        self.stage = Stage::Trailer;
        let tail: Vec<u8> = vstd::slice::slice_to_vec(self.deflate.remaining_input());
        proof {
            lemma_bytes_of(tail@, Seq::empty());
            assert(self.trailer@ =~= Seq::<u8>::empty());
        }
        self.feed_trailer(tail.as_slice())
    }

    /// Take a byte of the header.
    fn feed_byte_in_header(&mut self, byte: u8) -> (r: Result<(), Error>)
        requires
            old(self).wf(),
            old(self).stage is Header,
        ensures
            final(self).wf(),
            final(self).state() == byte_taken(old(self).state(), byte).0,
            match byte_taken(old(self).state(), byte).1 {
                None => r is Ok,
                Some(fault) => r matches Err(e) && e@ == fault,
            },
            final(self).produced() == old(self).produced(),
            final(self).waiting() == old(self).waiting(),
            r is Ok ==> !final(self).failed(),
            old(self).failed() ==> *final(self) == *old(self),
            !(final(self).state().phase is Failed),
    {
        if self.header.len() < 2 {
            self.header.push(byte);
        }
        if self.header.len() == 2 {
            assert(self.header@ =~= seq![self.header@[0], self.header@[1]]);
            validate_zlib_header(self.header[0], self.header[1])?;
            self.stage = Stage::Body;
        }
        Ok(())
    }

    /// Take a byte of the trailer, or one behind it.
    fn feed_byte_in_trailer(&mut self, byte: u8) -> (r: Result<(), Error>)
        requires
            old(self).wf(),
            old(self).stage is Trailer || old(self).stage is Done,
        ensures
            final(self).wf(),
            final(self).state() == byte_taken(old(self).state(), byte).0,
            match byte_taken(old(self).state(), byte).1 {
                None => r is Ok,
                Some(fault) => r matches Err(e) && e@ == fault,
            },
            final(self).produced() == old(self).produced(),
            final(self).waiting() == old(self).waiting(),
            r is Ok ==> !final(self).failed(),
            old(self).failed() ==> *final(self) == *old(self),
            !(final(self).state().phase is Failed),
            final(self).stage is Trailer || final(self).stage is Done,
    {
        if self.stage == Stage::Done {
            return Err(invalid_data("bytes fed after zlib stream end"));
        }
        if self.trailer.len() < 4 {
            self.trailer.push(byte);
        }
        if self.trailer.len() == 4 {
            let expected: u32 = load_be32(&self.trailer);
            let actual: u32 = self.adler.value();
            proof {
                lemma_reduced(no_sums(), self.produced@);
                if self.trailer@ == be32(checksum(self.produced@)) {
                    lemma_be32(expected as nat, actual as nat);
                }
            }
            if expected != actual {
                return Err(invalid_data("adler-32 checksum mismatch in zlib trailer"));
            }
            self.stage = Stage::Done;
        }
        Ok(())
    }

    /// Append bytes behind the DEFLATE stream.
    fn feed_trailer(&mut self, data: &[u8]) -> (r: Result<(), Error>)
        requires
            old(self).wf(),
            old(self).stage is Trailer || old(self).stage is Done,
        ensures
            final(self).wf(),
            final(self).state() == taken(old(self).state(), data@).0,
            match taken(old(self).state(), data@).1 {
                None => r is Ok,
                Some(fault) => r matches Err(e) && e@ == fault,
            },
            final(self).produced() == old(self).produced(),
            final(self).waiting() == old(self).waiting(),
            r is Ok && data@.len() > 0 ==> !final(self).failed(),
            old(self).failed() || data@.len() == 0 ==> *final(self) == *old(self),
            !(final(self).state().phase is Failed),
            final(self).produced() == final(self).state().machine.out,
    {
        let ghost goal = taken(self.state(), data@);
        let mut i: usize = 0;
        assert(data@.skip(0) =~= data@);
        while i < data.len()
            invariant
                i <= data@.len(),
                self.wf(),
                i == 0 ==> *self == *old(self),
                old(self).failed() ==> i == 0,
                !old(self).failed() ==> !self.failed(),
                self.stage is Trailer || self.stage is Done,
                goal == taken(self.state(), data@.skip(i as int)),
                goal == taken(old(self).state(), data@),
                self.produced@ == old(self).produced@,
                self.output@ == old(self).output@,
            decreases data@.len() - i,
        {
            let ghost rest = data@.skip(i as int);
            proof {
                assert(rest.skip(1) =~= data@.skip(i as int + 1));
                lemma_taken_byte(self.state(), rest);
            }
            self.feed_byte_in_trailer(data[i])?;
            i += 1;
        }
        proof {
            assert(data@.skip(i as int) =~= Seq::<u8>::empty());
            lemma_taken_nothing(self.state());
        }
        Ok(())
    }

    /// Borrow decompressed bytes not yet consumed.
    pub fn output(&self) -> (bytes: &[u8])
        requires
            self.wf(),
        ensures
            bytes@ == self.waiting(),
    {
        self.output.get()
    }

    /// Mark `n` bytes of output as consumed. There must be as many.
    pub fn advance(&mut self, n: usize)
        requires
            old(self).wf(),
            n <= old(self).waiting().len(),
        ensures
            final(self).wf(),
            final(self).state() == old(self).state(),
            final(self).produced() == old(self).produced(),
            final(self).waiting() == old(self).waiting().skip(n as int),
    {
        self.output.advance(n);
        assert(self.output@ =~= self.produced@.skip(self.produced@.len() - self.output@.len()));
    }

    /// `true` once the header + deflate stream + valid Adler-32 trailer
    /// have all been consumed.
    pub fn is_finished(&self) -> (finished: bool)
        requires
            self.wf(),
        ensures
            finished == self.finished(),
            finished == (self.state().phase is Done),
    {
        self.stage == Stage::Done
    }
}

/// Feeding in pieces is feeding at once: if a decoder takes the first piece, it
/// does with the second what it would do with both.
#[verifier::spinoff_prover]
#[verifier::rlimit(60)]
pub proof fn lemma_taken_concat(s: State, first: Seq<u8>, second: Seq<u8>)
    requires
        machine_wf(s.machine),
        taken(s, first).1 is None,
    ensures
        taken(s, first + second) == taken(taken(s, first).0, second),
        machine_wf(taken(s, first).0.machine),
    decreases rank(s.phase), first.len(),
{
    let all = first + second;
    let (after, fault) = taken(s, first);
    if first.len() == 0 {
        assert(first =~= Seq::<u8>::empty());
        assert(all =~= second);
        lemma_taken_nothing(s);
    } else if s.phase is Body {
        let m = s.machine.push(byte_bits(first));
        let more = byte_bits(second);
        lemma_byte_bits_len(first);
        lemma_byte_bits_len(second);
        lemma_byte_bits_concat(first, second);
        assert(m.push(more).bits =~= s.machine.push(byte_bits(all)).bits);
        assert(m.push(more) == s.machine.push(byte_bits(all)));
        lemma_inflate(m);
        lemma_inflate_extend(m, more);
        lemma_taken_body(s, first);
        lemma_taken_body(s, all);
        let (reached, stop) = inflate(m);
        match stop {
            Stop::Finished => {
                lemma_unread_more(reached, second);
                let behind = State {
                    phase: Phase::Trailer { got: Seq::empty() },
                    machine: ended(reached.out),
                };
                lemma_taken_concat(behind, unread_bytes(reached), second);
            },
            _ => {
                if second.len() == 0 {
                    assert(second =~= Seq::<u8>::empty());
                    assert(all =~= first);
                    lemma_taken_nothing(after);
                } else {
                    lemma_taken_body(after, second);
                }
            },
        }
    } else {
        lemma_taken_byte(s, first);
        lemma_taken_byte(s, all);
        assert(all.skip(1) =~= first.skip(1) + second);
        lemma_taken_concat(byte_taken(s, first[0]).0, first.skip(1), second);
    }
}

/// One-shot: decompress a zlib stream into a new `Vec<u8>`.
pub fn decompress(data: &[u8]) -> (r: Result<Vec<u8>, Error>)
    ensures
        match taken(beginning(), data@) {
            (_, Some(fault)) => r matches Err(e) && e@ == fault,
            (s, None) => if s.phase is Done {
                r matches Ok(out) && out@ == s.machine.out
            } else {
                r matches Err(e) && e@ == invalid("zlib stream ended before the trailer")
            },
        },
{
    let mut d = Decoder::new();
    d.feed(data)?;
    if !d.is_finished() {
        return Err(invalid_data("zlib stream ended before the trailer"));
    }
    let out: Vec<u8> = vstd::slice::slice_to_vec(d.output());
    proof {
        d.lemma_wf();
        assert(out@ =~= d.produced());
    }
    d.advance(out.len());
    Ok(out)
}

// ---------------------------------------------------------------------------
// Encoding
// ---------------------------------------------------------------------------

/// What a zlib encoder has come to.
pub struct Encoding {
    /// What its DEFLATE encoder has come to.
    pub deflate: EncoderState,
    /// All that was fed.
    pub payload: Seq<u8>,
    /// The header has been written.
    pub started: bool,
}

/// An encoder that has been given nothing.
pub open spec fn unstarted(kind: BlockKind, limit: Option<nat>) -> Encoding {
    Encoding { deflate: fresh(kind, limit), payload: Seq::empty(), started: false }
}

/// Take more input.
pub open spec fn more_fed(s: Encoding, data: Seq<u8>) -> Encoding {
    Encoding { deflate: fed(s.deflate, data), payload: s.payload + data, started: true }
}

/// Write the last block and the trailer.
pub open spec fn all_fed(s: Encoding) -> Encoding {
    Encoding { deflate: finished(s.deflate), started: true, ..s }
}

/// The bytes written so far: the header, the whole bytes of the DEFLATE stream,
/// and the trailer once the encoder is finished.
pub open spec fn encoded(s: Encoding) -> Seq<u8> {
    let header = if s.started {
        seq![CMF, FLG]
    } else {
        Seq::empty()
    };
    let trailer = if s.deflate.finished {
        be32(checksum(s.payload))
    } else {
        Seq::empty()
    };
    header + bytes_of(s.deflate.stream) + trailer
}

/// Streaming zlib encoder.
pub struct Encoder {
    deflate: DeflateEncoder,
    adler: Adler32,
    output: Vec<u8>,
    drained: usize,
    header_emitted: bool,
    finishing: bool,
    /// All bytes that were fed.
    payload: Ghost<Seq<u8>>,
}

impl Default for Encoder {
    fn default() -> (encoder: Self)
        ensures
            encoder.wf(),
            encoder.state() == unstarted(
                BlockKind::Dynamic,
                Some(DEFAULT_MAX_BLOCK_INPUT as nat),
            ),
            encoder.consumed() == 0,
    {
        Self::new()
    }
}

impl Encoder {
    /// What the encoder has come to.
    pub closed spec fn state(self) -> Encoding {
        Encoding {
            deflate: self.deflate.state(),
            payload: self.payload@,
            started: self.header_emitted,
        }
    }

    /// All bytes written so far.
    pub open spec fn written(self) -> Seq<u8> {
        encoded(self.state())
    }

    /// How many of the written bytes the caller has taken.
    pub closed spec fn consumed(self) -> nat {
        self.drained as nat
    }

    /// The written bytes that the caller has not taken.
    pub open spec fn waiting(self) -> Seq<u8> {
        self.written().skip(self.consumed() as int)
    }

    /// The bytes of the DEFLATE encoder have been passed on, and the checksum
    /// is that of what was fed.
    pub closed spec fn wf(self) -> bool {
        &&& self.deflate.wf()
        &&& self.deflate.waiting().len() == 0
        &&& self.adler.wf()
        &&& self.adler.sums() == summed(no_sums(), self.payload@)
        &&& self.output@ == encoded(self.state())
        &&& self.drained <= self.output@.len()
        &&& self.finishing == self.deflate.state().finished
        &&& !self.header_emitted ==> self.deflate.state().stream.len() == 0
    }

    /// The caller has taken no more than there was.
    pub proof fn lemma_wf(self)
        requires
            self.wf(),
        ensures
            self.consumed() <= self.written().len(),
    {
    }

    /// Create a zlib encoder with default options.
    pub fn new() -> (encoder: Self)
        ensures
            encoder.wf(),
            encoder.state() == unstarted(
                BlockKind::Dynamic,
                Some(DEFAULT_MAX_BLOCK_INPUT as nat),
            ),
            encoder.consumed() == 0,
    {
        Self::with_options(EncodeOptions::new())
    }

    /// Create a zlib encoder with custom options.
    pub fn with_options(options: EncodeOptions) -> (encoder: Self)
        requires
            options.wf(),
        ensures
            encoder.wf(),
            encoder.state() == unstarted(options.kind(), options.limit()),
            encoder.consumed() == 0,
    {
        let encoder = Encoder {
            deflate: DeflateEncoder::with_options(options),
            adler: Adler32::new(),
            output: Vec::new(),
            drained: 0,
            header_emitted: false,
            finishing: false,
            payload: Ghost(Seq::empty()),
        };
        proof {
            encoder.deflate.lemma_wf();
            assert(encoded(encoder.state()) =~= Seq::<u8>::empty());
        }
        encoder
    }

    /// Write the header if it has not been written.
    fn ensure_header(&mut self)
        requires
            old(self).wf(),
            !old(self).finishing,
        ensures
            final(self).wf(),
            final(self).state() == (Encoding { started: true, ..old(self).state() }),
            final(self).consumed() == old(self).consumed(),
            !final(self).finishing,
            old(self).header_emitted ==> final(self).output@ == old(self).output@,
            !old(self).header_emitted ==> final(self).deflate == old(self).deflate,
    {
        if !self.header_emitted {
            assert(self.output@ =~= Seq::<u8>::empty());
            self.output.push(CMF);
            self.output.push(FLG);
            self.header_emitted = true;
            assert(self.output@ =~= encoded(self.state()));
        }
    }

    /// Pass on what the DEFLATE encoder has written.
    fn pass_on(&mut self, Ghost(before): Ghost<DeflateEncoder>)
        requires
            before.wf(),
            old(self).deflate.wf(),
            before.waiting().len() == 0,
            old(self).deflate.consumed() == before.consumed(),
            before.written().len() <= old(self).deflate.written().len(),
            old(self).deflate.written().take(before.written().len() as int) == before.written(),
        ensures
            final(self).deflate.wf(),
            final(self).deflate.waiting().len() == 0,
            final(self).deflate.state() == old(self).deflate.state(),
            final(self).deflate.written() == old(self).deflate.written(),
            final(self).output@ == old(self).output@ + old(self).deflate.written().skip(
                before.written().len() as int,
            ),
            final(self).adler == old(self).adler,
            final(self).drained == old(self).drained,
            final(self).header_emitted == old(self).header_emitted,
            final(self).finishing == old(self).finishing,
            final(self).payload == old(self).payload,
    {
        proof {
            before.lemma_wf();
            self.deflate.lemma_wf();
        }
        let produced: usize = self.deflate.output().len();
        self.output.extend_from_slice(self.deflate.output());
        self.deflate.advance(produced);
        assert(self.output@ =~= old(self).output@ + old(self).deflate.written().skip(
            before.written().len() as int,
        ));
    }

    /// Append uncompressed bytes.
    #[verifier::spinoff_prover]
    #[verifier::rlimit(60)]
    pub fn feed(&mut self, data: &[u8]) -> (r: Result<(), Error>)
        requires
            old(self).wf(),
        ensures
            final(self).wf(),
            final(self).consumed() == old(self).consumed(),
            old(self).written().len() <= final(self).written().len(),
            final(self).written().take(old(self).written().len() as int) == old(self).written(),
            old(self).state().deflate.finished ==> {
                &&& r matches Err(e) && e@ == invalid("bytes fed after zlib encoder finish")
                &&& *final(self) == *old(self)
            },
            !old(self).state().deflate.finished ==> {
                &&& r is Ok
                &&& final(self).state() == more_fed(old(self).state(), data@)
                &&& !final(self).state().deflate.finished
            },
    {
        assert(self.written().take(self.written().len() as int) =~= self.written());
        if self.finishing {
            return Err(invalid_data("bytes fed after zlib encoder finish"));
        }
        self.ensure_header();
        let ghost before = self.deflate;
        let ghost prior = self.output@;
        self.adler.update(data);
        self.deflate.feed(data)?;
        self.pass_on(Ghost(before));
        proof {
            lemma_summed_concat(no_sums(), self.payload@, data@);
            self.payload@ = self.payload@ + data@;
            before.lemma_whole_bytes();
            self.deflate.lemma_whole_bytes();
            lemma_stream_extends(before.state(), data@);
            assert(prior =~= seq![CMF, FLG] + before.written());
            assert(self.output@ =~= encoded(self.state()));
            assert(self.output@.take(old(self).output@.len() as int) =~= old(self).output@);
        }
        Ok(())
    }

    /// Emit the final block and the Adler-32 trailer. Subsequent calls
    /// are a no-op.
    #[verifier::spinoff_prover]
    #[verifier::rlimit(60)]
    pub fn finish(&mut self) -> (r: Result<(), Error>)
        requires
            old(self).wf(),
        ensures
            final(self).wf(),
            final(self).consumed() == old(self).consumed(),
            old(self).written().len() <= final(self).written().len(),
            final(self).written().take(old(self).written().len() as int) == old(self).written(),
            r is Ok,
            old(self).state().deflate.finished ==> *final(self) == *old(self),
            !old(self).state().deflate.finished ==> final(self).state() == all_fed(
                old(self).state(),
            ),
    {
        assert(self.written().take(self.written().len() as int) =~= self.written());
        if self.finishing {
            return Ok(());
        }
        self.ensure_header();
        let ghost before = self.deflate;
        let ghost prior = self.output@;
        self.deflate.finish()?;
        self.pass_on(Ghost(before));
        let ghost body = self.output@;
        let value: u32 = self.adler.value();
        self.output.push((value / 0x100_0000) as u8);
        self.output.push((value / 0x1_0000 % 256) as u8);
        self.output.push((value / 0x100 % 256) as u8);
        self.output.push((value % 256) as u8);
        self.finishing = true;
        proof {
            before.lemma_whole_bytes();
            self.deflate.lemma_whole_bytes();
            assert(prior =~= seq![CMF, FLG] + before.written());
            assert(body =~= seq![CMF, FLG] + self.deflate.written());
            assert(value as nat / 0x100_0000 < 256);
            assert(self.output@ =~= body + be32(value as nat));
            assert(self.output@ =~= encoded(self.state()));
            assert(self.output@.take(old(self).output@.len() as int) =~= old(self).output@);
        }
        Ok(())
    }

    /// Borrow encoded bytes not yet consumed.
    pub fn output(&self) -> (bytes: &[u8])
        requires
            self.wf(),
        ensures
            bytes@ == self.waiting(),
    {
        let all: &[u8] = self.output.as_slice();
        vstd::slice::slice_subrange(all, self.drained, all.len())
    }

    /// Mark `n` bytes of output as consumed. There must be as many.
    pub fn advance(&mut self, n: usize)
        requires
            old(self).wf(),
            n <= old(self).waiting().len(),
        ensures
            final(self).wf(),
            final(self).state() == old(self).state(),
            final(self).consumed() == old(self).consumed() + n,
    {
        assert(self.drained + n <= self.output.len());
        self.drained += n;
    }

    /// `true` once `finish` has been called and all output consumed.
    pub fn is_finished(&self) -> (done: bool)
        requires
            self.wf(),
        ensures
            done == (self.state().deflate.finished && self.waiting().len() == 0),
    {
        self.finishing && self.drained == self.output.len()
    }
}

/// One-shot: compress a slice into a new zlib stream.
#[verifier::spinoff_prover]
#[verifier::rlimit(60)]
pub fn compress(data: &[u8]) -> (r: Result<Vec<u8>, Error>)
    ensures
        r matches Ok(out) && {
            &&& out@ == seq![CMF, FLG] + bytes_of(
                block(Seq::empty(), BlockKind::Dynamic, data@, true),
            ) + be32(checksum(data@))
            &&& taken(beginning(), out@) == (behind(data@), None::<Fault>)
        },
{
    let mut e = Encoder::with_options(EncodeOptions::new().buffer_all_input());
    e.feed(data)?;
    proof {
        assert(Seq::<u8>::empty() + data@ =~= data@);
    }
    e.finish()?;
    let out: Vec<u8> = vstd::slice::slice_to_vec(e.output());
    proof {
        e.lemma_wf();
        assert(e.written().skip(0) =~= e.written());
        assert(data@.len() == data.len());
        lemma_decodes_nothing();
        lemma_completes_block(Seq::empty(), Seq::empty(), BlockKind::Dynamic, data@);
        lemma_read_back(block(Seq::empty(), BlockKind::Dynamic, data@, true), data@);
    }
    e.advance(out.len());
    Ok(out)
}

// ---------------------------------------------------------------------------
// What is written is read back
// ---------------------------------------------------------------------------

/// A point behind a stream with this output.
pub open spec fn behind(out: Seq<u8>) -> State {
    State { phase: Phase::Done, machine: ended(out) }
}

proof fn lemma_header()
    ensures
        header_fault(seq![CMF, FLG]) is None,
{
}

/// Reading a header as an encoder writes it.
proof fn lemma_read_header(rest: Seq<u8>)
    ensures
        taken(beginning(), seq![CMF, FLG] + rest) == taken(
            State { phase: Phase::Body, machine: start(Seq::empty()) },
            rest,
        ),
{
    let data = seq![CMF, FLG] + rest;
    let first = State { phase: Phase::Header { got: seq![CMF] }, machine: start(Seq::empty()) };
    lemma_header();
    lemma_taken_byte(beginning(), data);
    assert(Seq::<u8>::empty().push(CMF) =~= seq![CMF]);
    assert(byte_taken(beginning(), data[0]) == (first, None::<Fault>));
    lemma_taken_byte(first, data.skip(1));
    assert(seq![CMF].push(FLG) =~= seq![CMF, FLG]);
    assert(data.skip(1).skip(1) =~= rest);
}

/// Reading a trailer as an encoder writes it.
proof fn lemma_read_trailer(out: Seq<u8>)
    ensures
        taken(
            State { phase: Phase::Trailer { got: Seq::empty() }, machine: ended(out) },
            be32(checksum(out)),
        ) == (behind(out), None::<Fault>),
{
    let t = be32(checksum(out));
    let m = ended(out);
    let s0 = State { phase: Phase::Trailer { got: Seq::empty() }, machine: m };
    let s1 = State { phase: Phase::Trailer { got: seq![t[0]] }, machine: m };
    let s2 = State { phase: Phase::Trailer { got: seq![t[0], t[1]] }, machine: m };
    let s3 = State { phase: Phase::Trailer { got: seq![t[0], t[1], t[2]] }, machine: m };
    assert(Seq::<u8>::empty().push(t[0]) =~= seq![t[0]]);
    assert(seq![t[0]].push(t[1]) =~= seq![t[0], t[1]]);
    assert(seq![t[0], t[1]].push(t[2]) =~= seq![t[0], t[1], t[2]]);
    assert(seq![t[0], t[1], t[2]].push(t[3]) =~= t);
    lemma_taken_byte(s0, t);
    assert(byte_taken(s0, t[0]) == (s1, None::<Fault>));
    lemma_taken_byte(s1, t.skip(1));
    assert(byte_taken(s1, t[1]) == (s2, None::<Fault>));
    lemma_taken_byte(s2, t.skip(1).skip(1));
    assert(byte_taken(s2, t[2]) == (s3, None::<Fault>));
    lemma_taken_byte(s3, t.skip(1).skip(1).skip(1));
    assert(byte_taken(s3, t[3]) == (behind(out), None::<Fault>));
    assert(t.skip(1).skip(1).skip(1).skip(1) =~= Seq::<u8>::empty());
    lemma_taken_nothing(behind(out));
}

/// A DEFLATE stream that says `out`, with a header before it and the checksum
/// of `out` behind it, is a zlib stream that says `out`.
pub proof fn lemma_read_back(stream: Seq<bool>, out: Seq<u8>)
    requires
        completes(stream, out),
    ensures
        taken(beginning(), seq![CMF, FLG] + bytes_of(stream) + be32(checksum(out))) == (
            behind(out),
            None::<Fault>,
        ),
{
    let trailer = be32(checksum(out));
    let rest = bytes_of(stream) + trailer;
    let data = seq![CMF, FLG] + bytes_of(stream) + trailer;
    assert(data =~= seq![CMF, FLG] + rest);
    lemma_read_header(rest);
    let body = State { phase: Phase::Body, machine: start(Seq::empty()) };
    lemma_taken_body(body, rest);
    lemma_bits_of_bytes(stream);
    lemma_byte_bits_concat(bytes_of(stream), trailer);
    lemma_byte_bits_len(trailer);
    assert(body.machine.push(byte_bits(rest)).bits =~= stream + byte_bits(trailer));
    assert(body.machine.push(byte_bits(rest)) == start(stream + byte_bits(trailer)));
    lemma_bytes_of(trailer, Seq::empty());
    lemma_read_trailer(out);
}

/// What was fed to an encoder is what its DEFLATE encoder has written and has
/// still to write.
pub open spec fn sound(s: Encoding) -> bool {
    represents(s.deflate, s.payload)
}

/// A new encoder has been fed nothing.
pub proof fn lemma_unstarted(kind: BlockKind, limit: Option<nat>)
    ensures
        sound(unstarted(kind, limit)),
{
    lemma_fresh(kind, limit);
}

/// Feeding adds to what an encoder was fed, and nothing else.
pub proof fn lemma_more_fed(s: Encoding, data: Seq<u8>)
    requires
        sound(s),
        !s.deflate.finished,
        s.deflate.input.len() + data.len() <= usize::MAX,
    ensures
        sound(more_fed(s, data)),
        !more_fed(s, data).deflate.finished,
{
    lemma_fed(s.deflate, s.payload, data);
}

/// Feeding an encoder in pieces is feeding it at once.
pub proof fn lemma_fed_in_pieces(s: Encoding, first: Seq<u8>, second: Seq<u8>)
    ensures
        more_fed(more_fed(s, first), second) == more_fed(s, first + second),
{
    lemma_fed_concat(s.deflate, first, second);
    assert(s.payload + first + second =~= s.payload + (first + second));
}

/// Round trip: however an encoder was fed, once it is finished a decoder that
/// is given what it has written ends with what was fed.
pub proof fn lemma_round_trip(s: Encoding)
    requires
        sound(s),
        !s.deflate.finished,
        s.deflate.input.len() <= usize::MAX,
    ensures
        taken(beginning(), encoded(all_fed(s))) == (behind(s.payload), None::<Fault>),
{
    lemma_finished(s.deflate, s.payload);
    lemma_read_back(finished(s.deflate).stream, s.payload);
}

/// A decoder that has come to the end of a stream has checked it: the last
/// byte that was taken completed a trailer with the checksum of the output.
pub proof fn lemma_checked(s: State, byte: u8)
    requires
        !(s.phase is Done),
        byte_taken(s, byte).0.phase is Done,
    ensures
        byte_taken(s, byte).1 is None,
        s.phase matches Phase::Trailer { got } && got.push(byte) == be32(checksum(s.machine.out)),
        byte_taken(s, byte).0.machine == s.machine,
{
}

// ---------------------------------------------------------------------------
// What a finished decoder was fed
// ---------------------------------------------------------------------------

/// Before the DEFLATE stream.
spec fn in_header(phase: Phase) -> bool {
    phase is Header
}

/// A header leads to the DEFLATE stream, of which nothing has been taken yet.
proof fn lemma_header_ends(s: State, fed: Seq<u8>) -> (k: int)
    requires
        in_header(s.phase),
        taken(s, fed).1 is None,
        taken(s, fed).0.phase is Done,
    ensures
        0 <= k <= fed.len(),
        taken(s, fed.take(k)) == (State { phase: Phase::Body, ..s }, None::<Fault>),
        taken(State { phase: Phase::Body, ..s }, fed.skip(k)) == taken(s, fed),
        s.phase->Header_got.len() < 2 ==> {
            let header = s.phase->Header_got + fed.take(k);
            header.len() == 2 && header_fault(header) is None
        },
    decreases fed.len(),
{
    if fed.len() == 0 {
        assert(fed =~= Seq::<u8>::empty());
        lemma_taken_nothing(s);
        0
    } else {
        let next = byte_taken(s, fed[0]).0;
        let rest = fed.skip(1);
        lemma_taken_byte(s, fed);
        assert(next.machine == s.machine);
        if next.phase is Body {
            assert(next == State { phase: Phase::Body, ..s });
            lemma_taken_byte(s, fed.take(1));
            assert(fed.take(1).skip(1) =~= Seq::<u8>::empty());
            lemma_taken_nothing(next);
            assert(s.phase->Header_got + fed.take(1) =~= s.phase->Header_got.push(fed[0]));
            1
        } else {
            assert(in_header(next.phase));
            let k = lemma_header_ends(next, rest);
            lemma_taken_byte(s, fed.take(k + 1));
            assert(fed.take(k + 1).skip(1) =~= rest.take(k));
            assert(fed.skip(k + 1) =~= rest.skip(k));
            assert(s.phase->Header_got + fed.take(k + 1) =~= s.phase->Header_got.push(fed[0])
                + rest.take(k));
            k + 1
        }
    }
}

/// Behind the DEFLATE stream there are the trailer and nothing else.
proof fn lemma_trailer_ends(got: Seq<u8>, out: Seq<u8>, fed: Seq<u8>)
    requires
        got.len() < 4,
        ({
            let s = State { phase: Phase::Trailer { got }, machine: ended(out) };
            taken(s, fed).1 is None && taken(s, fed).0.phase is Done
        }),
    ensures
        got + fed == be32(checksum(out)),
        taken(State { phase: Phase::Trailer { got }, machine: ended(out) }, fed).0.machine == ended(
            out,
        ),
    decreases fed.len(),
{
    let s = State { phase: Phase::Trailer { got }, machine: ended(out) };
    if fed.len() == 0 {
        assert(fed =~= Seq::<u8>::empty());
        lemma_taken_nothing(s);
    } else {
        let more = got.push(fed[0]);
        let rest = fed.skip(1);
        lemma_taken_byte(s, fed);
        assert(got + fed =~= more + rest);
        if more.len() < 4 {
            lemma_trailer_ends(more, out, rest);
        } else {
            let done = State { phase: Phase::Done, ..s };
            if rest.len() > 0 {
                lemma_taken_byte(done, rest);
            } else {
                assert(rest =~= Seq::<u8>::empty());
                assert(more + rest =~= more);
                lemma_taken_nothing(done);
            }
        }
    }
}

/// A decoder that is finished was fed a header, one complete DEFLATE stream that
/// says what it has put out, its checksum, and nothing else.
pub proof fn lemma_whole_stream(fed: Seq<u8>) -> (parts: (Seq<u8>, Seq<u8>))
    requires
        taken(beginning(), fed).1 is None,
        taken(beginning(), fed).0.phase is Done,
    ensures
        ({
            let out = taken(beginning(), fed).0.machine.out;
            let (front, body) = parts;
            &&& fed == front + body + be32(checksum(out))
            &&& taken(beginning(), front) == (
                State { phase: Phase::Body, machine: start(Seq::empty()) },
                None::<Fault>,
            )
            &&& front.len() == 2 && header_fault(front) is None
            &&& completes(byte_bits(body), out)
        }),
{
    let k = lemma_header_ends(beginning(), fed);
    let front = fed.take(k);
    let rest = fed.skip(k);
    let s = State { phase: Phase::Body, machine: start(Seq::empty()) };
    if rest.len() == 0 {
        assert(rest =~= Seq::<u8>::empty());
        lemma_taken_nothing(s);
    }
    lemma_taken_body(s, rest);
    assert(s.machine.push(byte_bits(rest)).bits =~= byte_bits(rest));
    assert(s.machine.push(byte_bits(rest)) == start(byte_bits(rest)));
    let reached = inflate(start(byte_bits(rest))).0;
    let body = lemma_whole(rest);
    let tail = unread_bytes(reached);
    lemma_trailer_ends(Seq::empty(), reached.out, tail);
    assert(Seq::<u8>::empty() + tail =~= tail);
    assert(Seq::<u8>::empty() + front =~= front);
    assert(fed =~= front + rest);
    assert(fed =~= front + body + tail);
    (front, body)
}

// ---------------------------------------------------------------------------
// Streams of any encoder
// ---------------------------------------------------------------------------

/// Four bytes are those of a number, the highest one first, if they make it.
proof fn lemma_makes(b: Seq<u8>, v: nat)
    requires
        b.len() == 4,
        v < 0x1_0000_0000,
    ensures
        b == be32(v) <==> 0x100_0000 * b[0] + 0x1_0000 * b[1] + 0x100 * b[2] + b[3] == v,
{
    lemma_be32_sum(v);
    if 0x100_0000 * b[0] + 0x1_0000 * b[1] + 0x100 * b[2] + b[3] == v {
        let n = v as int;
        assert(n / 0x100_0000 == b[0]);
        assert(n / 0x1_0000 == b[0] * 256 + b[1]);
        assert(n / 0x100 == b[0] * 65536 + b[1] * 256 + b[2]);
        assert(n / 0x1_0000 % 256 == b[1]);
        assert(n / 0x100 % 256 == b[2]);
        assert(n % 256 == b[3]);
        assert(b =~= be32(v));
    }
}

/// Two bytes are judged as a header once both are there.
proof fn lemma_read_any_header(h: Seq<u8>, rest: Seq<u8>)
    requires
        h.len() == 2,
    ensures
        taken(beginning(), h + rest) == match header_fault(h) {
            Some(fault) => (
                State { phase: Phase::Header { got: h }, machine: start(Seq::empty()) },
                Some(fault),
            ),
            None => taken(State { phase: Phase::Body, machine: start(Seq::empty()) }, rest),
        },
{
    let data = h + rest;
    let first = State { phase: Phase::Header { got: seq![h[0]] }, machine: start(Seq::empty()) };
    lemma_taken_byte(beginning(), data);
    assert(Seq::<u8>::empty().push(h[0]) =~= seq![h[0]]);
    assert(byte_taken(beginning(), data[0]) == (first, None::<Fault>));
    lemma_taken_byte(first, data.skip(1));
    assert(seq![h[0]].push(h[1]) =~= h);
    assert(data.skip(1)[0] == h[1]);
    assert(data.skip(1).skip(1) =~= rest);
}

/// Any four bytes behind the DEFLATE stream are held against the output.
proof fn lemma_read_any_trailer(t: Seq<u8>, out: Seq<u8>, k: nat)
    requires
        t.len() == 4,
        k <= 3,
    ensures
        taken(
            State { phase: Phase::Trailer { got: t.take(k as int) }, machine: ended(out) },
            t.skip(k as int),
        ) == match trailer_fault(t, out) {
            Some(fault) => (
                State { phase: Phase::Trailer { got: t }, machine: ended(out) },
                Some(fault),
            ),
            None => (behind(out), None),
        },
    decreases 4 - k,
{
    let data = t.skip(k as int);
    let s = State { phase: Phase::Trailer { got: t.take(k as int) }, machine: ended(out) };
    lemma_taken_byte(s, data);
    assert(data[0] == t[k as int]);
    assert(t.take(k as int).push(t[k as int]) =~= t.take(k as int + 1));
    assert(data.skip(1) =~= t.skip(k as int + 1));
    if k < 3 {
        lemma_read_any_trailer(t, out, k + 1);
    } else {
        assert(t.take(4) =~= t);
        assert(t.skip(4) =~= Seq::<u8>::empty());
        lemma_taken_nothing(behind(out));
    }
}

/// What a DEFLATE stream that says `out`, and whatever follows it, lead to.
proof fn lemma_read_any_body(body: Seq<u8>, out: Seq<u8>, t: Seq<u8>)
    requires
        inflate(start(byte_bits(body))).1 is Finished,
        inflate(start(byte_bits(body))).0.out == out,
        inflate(start(byte_bits(body))).0.bits.len() < 8,
        t.len() > 0,
    ensures
        taken(State { phase: Phase::Body, machine: start(Seq::empty()) }, body + t) == taken(
            State { phase: Phase::Trailer { got: Seq::empty() }, machine: ended(out) },
            t,
        ),
{
    let at = State { phase: Phase::Body, machine: start(Seq::empty()) };
    let reached = inflate(start(byte_bits(body))).0;
    let rest = body + t;
    let own = lemma_whole(body);
    lemma_byte_bits_len(body);
    lemma_inflate(start(byte_bits(body)));
    lemma_bits_of_bytes(reached.bits.skip(reached.held as int));
    lemma_byte_bits_len(unread_bytes(reached));
    assert(unread_bytes(reached).len() == 0);
    assert(own =~= body);
    lemma_taken_body(at, rest);
    lemma_byte_bits_concat(body, t);
    lemma_byte_bits_len(t);
    let m = at.machine.push(byte_bits(rest));
    assert(m.bits =~= byte_bits(body) + byte_bits(t));
    assert(m == start(byte_bits(body) + byte_bits(t)));
    lemma_bytes_of(t, Seq::empty());
    assert(byte_bits(t) + Seq::<bool>::empty() =~= byte_bits(t));
}

/// A zlib stream as any encoder may write it is decoded to what its DEFLATE
/// stream says.
///
/// In front there may be any header with method 8, a window size code of at most
/// 7, no preset dictionary and a number that 31 divides. The four bytes behind
/// the DEFLATE stream must be the Adler-32 of the output, with the highest byte
/// first.
pub proof fn lemma_any_stream(h: Seq<u8>, body: Seq<u8>, t: Seq<u8>, out: Seq<u8>)
    requires
        h.len() == 2,
        h[0] % 16 == 8,
        h[0] / 16 <= 7,
        h[1] / 32 % 2 == 0,
        (256 * h[0] + h[1]) % 31 == 0,
        inflate(start(byte_bits(body))).1 is Finished,
        inflate(start(byte_bits(body))).0.out == out,
        inflate(start(byte_bits(body))).0.bits.len() < 8,
        t.len() == 4,
    ensures
        ({
            let (s, fault) = taken(beginning(), h + body + t);
            let sum = 0x100_0000 * t[0] + 0x1_0000 * t[1] + 0x100 * t[2] + t[3];
            &&& s.machine.out == out
            &&& s.phase is Done <==> fault is None
            &&& fault == if sum != checksum(out) {
                Some(Fault::InvalidData("adler-32 checksum mismatch in zlib trailer"@))
            } else {
                None
            }
        }),
{
    let rest = body + t;
    assert(h + body + t =~= h + rest);
    lemma_read_any_header(h, rest);
    lemma_read_any_body(body, out, t);
    assert(t.take(0) =~= Seq::<u8>::empty());
    assert(t.skip(0) =~= t);
    lemma_read_any_trailer(t, out, 0);
    lemma_reduced(no_sums(), out);
    lemma_makes(t, checksum(out));
}

/// Two bytes are refused as a header if the method is not 8, the window size
/// code is over 7, a preset dictionary is asked for or 31 does not divide them,
/// and for no other reason. One byte is not judged.
pub proof fn lemma_header_judged(h: Seq<u8>)
    requires
        h.len() <= 2,
    ensures
        h.len() < 2 ==> taken(beginning(), h).1 is None,
        h.len() == 2 ==> taken(beginning(), h).1 == if h[0] % 16 != 8 {
            Some(
                Fault::Unsupported(
                    "zlib compression method "@ + decimal((h[0] % 16) as nat)
                        + " not supported (only deflate=8)"@,
                ),
            )
        } else if h[0] / 16 > 7 {
            Some(
                Fault::Unsupported(
                    "zlib window size code "@ + decimal((h[0] / 16) as nat)
                        + " not supported (max 7)"@,
                ),
            )
        } else if h[1] / 32 % 2 == 1 {
            Some(Fault::Unsupported("zlib preset dictionary not supported"@))
        } else if (256 * h[0] + h[1]) % 31 != 0 {
            Some(Fault::InvalidData("zlib header FCHECK validation failed"@))
        } else {
            None
        },
{
    if h.len() == 2 {
        lemma_read_any_header(h, Seq::empty());
        assert(h + Seq::<u8>::empty() =~= h);
        lemma_taken_nothing(State { phase: Phase::Body, machine: start(Seq::empty()) });
    } else if h.len() == 1 {
        lemma_taken_byte(beginning(), h);
        assert(h.skip(1) =~= Seq::<u8>::empty());
        lemma_taken_nothing(byte_taken(beginning(), h[0]).0);
    } else {
        assert(h =~= Seq::<u8>::empty());
        lemma_taken_nothing(beginning());
    }
}

/// A decoder that is finished was fed a valid header first, and takes nothing
/// more.
pub proof fn lemma_finished_stream(data: Seq<u8>, more: Seq<u8>)
    requires
        taken(beginning(), data).1 is None,
        taken(beginning(), data).0.phase is Done,
        more.len() > 0,
    ensures
        data.len() >= 2,
        data[0] % 16 == 8,
        data[0] / 16 <= 7,
        data[1] / 32 % 2 == 0,
        (256 * data[0] + data[1]) % 31 == 0,
        taken(taken(beginning(), data).0, more) == (
            taken(beginning(), data).0,
            Some(Fault::InvalidData("bytes fed after zlib stream end"@)),
        ),
{
    let (front, body) = lemma_whole_stream(data);
    lemma_taken_byte(taken(beginning(), data).0, more);
    assert(data[0] == front[0] && data[1] == front[1]);
}

/// What a zlib encoder has written: the header `78 9c`, the bytes of its DEFLATE
/// stream, and once it is finished four bytes that make the Adler-32 of all that
/// was fed, the highest byte first.
pub proof fn lemma_written(s: Encoding) -> (t: Seq<u8>)
    ensures
        encoded(s) == (if s.started {
            seq![0x78u8, 0x9cu8]
        } else {
            Seq::empty()
        }) + bytes_of(s.deflate.stream) + t,
        !s.deflate.finished ==> t.len() == 0,
        s.deflate.finished ==> {
            &&& t.len() == 4
            &&& 0x100_0000 * t[0] + 0x1_0000 * t[1] + 0x100 * t[2] + t[3] == checksum(s.payload)
        },
{
    if s.deflate.finished {
        lemma_reduced(no_sums(), s.payload);
        lemma_be32_sum(checksum(s.payload));
        be32(checksum(s.payload))
    } else {
        Seq::empty()
    }
}

/// Feeding and finishing a zlib encoder is feeding and finishing its DEFLATE
/// encoder, and all that was fed is kept account of.
pub proof fn lemma_encoder_steps(kind: BlockKind, limit: Option<nat>, s: Encoding, data: Seq<u8>)
    ensures
        unstarted(kind, limit).deflate == fresh(kind, limit),
        unstarted(kind, limit).payload.len() == 0,
        !unstarted(kind, limit).started,
        more_fed(s, data).deflate == fed(s.deflate, data),
        more_fed(s, data).payload == s.payload + data,
        more_fed(s, data).started,
        all_fed(s).deflate == finished(s.deflate),
        all_fed(s).payload == s.payload,
        all_fed(s).started,
{
}

/// What was found to be wrong with a stream is found again with whatever follows,
/// and nothing changes.
pub proof fn lemma_fault_stays(s: State, data: Seq<u8>, more: Seq<u8>)
    requires
        taken(s, data).1 is Some,
        more.len() > 0,
    ensures
        taken(taken(s, data).0, more) == taken(s, data),
    decreases rank(s.phase), data.len(),
{
    if data.len() == 0 {
        assert(data =~= Seq::<u8>::empty());
        lemma_taken_nothing(s);
    } else if s.phase is Body {
        lemma_taken_body(s, data);
        match inflate(s.machine.push(byte_bits(data))) {
            (reached, Stop::Finished) => {
                lemma_fault_stays(
                    State {
                        phase: Phase::Trailer { got: Seq::empty() },
                        machine: ended(reached.out),
                    },
                    unread_bytes(reached),
                    more,
                );
            },
            (_, Stop::Fail(fault)) => {
                lemma_taken_byte(dead(fault), more);
            },
            _ => {},
        }
    } else {
        lemma_taken_byte(s, data);
        let (next, fault) = byte_taken(s, data[0]);
        if fault is Some {
            lemma_taken_byte(next, more);
        } else {
            lemma_rank_kept(s, data[0]);
            lemma_fault_stays(next, data.skip(1), more);
        }
    }
}

/// A byte leads no further back.
proof fn lemma_rank_kept(s: State, byte: u8)
    ensures
        rank(byte_taken(s, byte).0.phase) <= rank(s.phase),
{
}

/// An error does not depend on what follows the bytes that it is found in.
#[verifier::spinoff_prover]
#[verifier::rlimit(60)]
pub proof fn lemma_first_fault(s: State, first: Seq<u8>, second: Seq<u8>)
    requires
        machine_wf(s.machine),
        taken(s, first).1 is Some,
    ensures
        taken(s, first + second) == taken(s, first),
    decreases rank(s.phase), first.len(),
{
    let all = first + second;
    if first.len() == 0 {
        assert(first =~= Seq::<u8>::empty());
        lemma_taken_nothing(s);
    } else if s.phase is Body {
        let m = s.machine.push(byte_bits(first));
        let more = byte_bits(second);
        lemma_byte_bits_len(first);
        lemma_byte_bits_len(second);
        lemma_byte_bits_concat(first, second);
        assert(m.push(more).bits =~= s.machine.push(byte_bits(all)).bits);
        assert(m.push(more) == s.machine.push(byte_bits(all)));
        lemma_inflate(m);
        lemma_inflate_extend(m, more);
        lemma_taken_body(s, first);
        lemma_taken_body(s, all);
        let (reached, stop) = inflate(m);
        if stop is Finished {
            lemma_unread_more(reached, second);
            let behind = State {
                phase: Phase::Trailer { got: Seq::empty() },
                machine: ended(reached.out),
            };
            lemma_first_fault(behind, unread_bytes(reached), second);
        }
    } else {
        lemma_taken_byte(s, first);
        lemma_taken_byte(s, all);
        assert(all.skip(1) =~= first.skip(1) + second);
        if byte_taken(s, first[0]).1 is None {
            lemma_rank_kept(s, first[0]);
            lemma_first_fault(byte_taken(s, first[0]).0, first.skip(1), second);
        }
    }
}

/// A DEFLATE stream that is not valid is refused for the reason that makes it so,
/// whatever header is in front of it. One that is not complete is not an error,
/// and what it says so far is put out.
pub proof fn lemma_any_body(h: Seq<u8>, body: Seq<u8>)
    requires
        h.len() == 2,
        h[0] % 16 == 8,
        h[0] / 16 <= 7,
        h[1] / 32 % 2 == 0,
        (256 * h[0] + h[1]) % 31 == 0,
    ensures
        ({
            let (s, fault) = taken(beginning(), h + body);
            match inflate(start(byte_bits(body))) {
                (_, Stop::Fail(f)) => fault == Some(f),
                (reached, Stop::Finished) => !(s.phase is Body) && s.machine.out == reached.out,
                (reached, _) => fault is None && s.phase is Body && s.machine.out == reached.out,
            }
        }),
{
    let at = State { phase: Phase::Body, machine: start(Seq::empty()) };
    lemma_read_any_header(h, body);
    let m = at.machine.push(byte_bits(body));
    assert(m.bits =~= byte_bits(body));
    assert(m == start(byte_bits(body)));
    if body.len() == 0 {
        assert(body =~= Seq::<u8>::empty());
        lemma_taken_nothing(at);
        reveal(inflate);
    } else {
        lemma_taken_body(at, body);
        if let (reached, Stop::Finished) = inflate(m) {
            lemma_trailer_output(Seq::empty(), reached.out, unread_bytes(reached));
        }
    }
}

/// Bytes behind the DEFLATE stream change nothing about the output.
proof fn lemma_trailer_output(got: Seq<u8>, out: Seq<u8>, data: Seq<u8>)
    ensures
        ({
            let s = State { phase: Phase::Trailer { got }, machine: ended(out) };
            let t = taken(s, data).0;
            (t.phase is Trailer || t.phase is Done) && t.machine.out == out
        }),
    decreases data.len(),
{
    let s = State { phase: Phase::Trailer { got }, machine: ended(out) };
    if data.len() == 0 {
        assert(data =~= Seq::<u8>::empty());
        lemma_taken_nothing(s);
    } else {
        lemma_taken_byte(s, data);
        let (next, fault) = byte_taken(s, data[0]);
        if fault is None {
            if next.phase is Trailer {
                lemma_trailer_output(next.phase->Trailer_got, out, data.skip(1));
            } else if data.len() > 1 {
                lemma_taken_byte(next, data.skip(1));
            } else {
                assert(data.skip(1) =~= Seq::<u8>::empty());
                lemma_taken_nothing(next);
            }
        }
    }
}

} // verus!
