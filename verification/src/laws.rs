//! What holds of encoders and decoders over whole sessions.
//!
//! The contracts of [`crate::encode::Encoder`] and [`crate::decode::Decoder`]
//! say what each call does. This module says what follows for any number of
//! calls: that whatever is fed to an encoder comes out of a decoder, and that
//! it makes no difference to a decoder how its input is cut into pieces.

use crate::bits::{byte_bits, lemma_byte_bits_len, padded};
use crate::block::{
    block, dynamic_bits, fixed_bits, header_bits, le16, stored, stored_piece, BlockKind,
};
use crate::encode::{fed, filled_blocks, finished, flushed, fresh, EncoderState};
use crate::inflate::{
    full, inflate, lemma_inflate, lemma_inflate_extend, lemma_own_bytes, lemma_run,
    lemma_step_extend, lemma_step_smaller, lemma_step_wf, rank, run, start, step, unread_bytes, wf,
    Machine, Step, Stop,
};
use crate::lz77::tokens;
use crate::roundtrip::{before_block, lemma_block_adds, lemma_read_block};
use vstd::prelude::*;

verus! {

// ---------------------------------------------------------------------------
// What a stream says
// ---------------------------------------------------------------------------

/// A stream of blocks that are not the last one says `out`: whatever bits
/// follow, a decoder comes to them with this output.
pub open spec fn decodes(stream: Seq<bool>, out: Seq<u8>) -> bool {
    forall|rest: Seq<bool>|
        (stream.len() + rest.len()) % 8 == 0 ==> inflate(#[trigger] start(stream + rest))
            == inflate(before_block(out, rest))
}

/// A whole stream says `out`: whatever bytes follow, a decoder ends with this
/// output and leaves the bytes alone.
pub open spec fn completes(stream: Seq<bool>, out: Seq<u8>) -> bool {
    &&& stream.len() % 8 == 0
    &&& forall|rest: Seq<bool>|
        rest.len() % 8 == 0 ==> {
            let (n, stop) = inflate(#[trigger] start(stream + rest));
            &&& stop is Finished
            &&& n.out == out
            &&& rest.len() + n.held == n.bits.len()
            &&& n.bits.skip(n.held as int) == rest
        }
}

/// Nothing says nothing.
pub proof fn lemma_decodes_nothing()
    ensures
        decodes(Seq::empty(), Seq::empty()),
{
    assert forall|rest: Seq<bool>|
        (Seq::<bool>::empty().len() + rest.len()) % 8 == 0 implies inflate(
        #[trigger] start(Seq::<bool>::empty() + rest),
    ) == inflate(before_block(Seq::empty(), rest)) by {
        assert(Seq::<bool>::empty() + rest =~= rest);
    }
}

/// A block adds its chunk to what a stream says.
pub proof fn lemma_decodes_block(
    stream: Seq<bool>,
    out: Seq<u8>,
    kind: BlockKind,
    chunk: Seq<u8>,
)
    requires
        decodes(stream, out),
        chunk.len() <= usize::MAX,
    ensures
        decodes(block(stream, kind, chunk, false), out + chunk),
{
    let next = block(stream, kind, chunk, false);
    let more = next.skip(stream.len() as int);
    lemma_block_adds(stream, kind, chunk, false);
    assert forall|rest: Seq<bool>| (next.len() + rest.len()) % 8 == 0 implies inflate(
        #[trigger] start(next + rest),
    ) == inflate(before_block(out + chunk, rest)) by {
        assert(next + rest =~= stream + (more + rest));
        assert(inflate(start(stream + (more + rest))) == inflate(before_block(out, more + rest)));
        let n = lemma_read_block(stream, out, kind, chunk, false, rest);
    }
}

/// The last block completes a stream.
#[verifier::spinoff_prover]
#[verifier::rlimit(60)]
pub proof fn lemma_completes_block(
    stream: Seq<bool>,
    out: Seq<u8>,
    kind: BlockKind,
    chunk: Seq<u8>,
)
    requires
        decodes(stream, out),
        chunk.len() <= usize::MAX,
    ensures
        completes(block(stream, kind, chunk, true), out + chunk),
{
    let next = block(stream, kind, chunk, true);
    let more = next.skip(stream.len() as int);
    lemma_block_adds(stream, kind, chunk, true);
    assert forall|rest: Seq<bool>| rest.len() % 8 == 0 implies {
        let (n, stop) = inflate(#[trigger] start(next + rest));
        &&& stop is Finished
        &&& n.out == out + chunk
        &&& rest.len() + n.held == n.bits.len()
        &&& n.bits.skip(n.held as int) == rest
    } by {
        assert(next + rest =~= stream + (more + rest));
        assert(inflate(start(stream + (more + rest))) == inflate(before_block(out, more + rest)));
        let n = lemma_read_block(stream, out, kind, chunk, true, rest);
        reveal(inflate);
        assert(inflate(n) == (n, Stop::Finished));
    }
}

// ---------------------------------------------------------------------------
// Encoders
// ---------------------------------------------------------------------------

/// What was fed to an encoder, `payload`, is what it has written and what it
/// still has to write.
pub open spec fn represents(s: EncoderState, payload: Seq<u8>) -> bool {
    if s.finished {
        completes(s.stream, payload)
    } else {
        &&& s.input.len() <= payload.len()
        &&& s.input == payload.skip(payload.len() - s.input.len())
        &&& decodes(s.stream, payload.take(payload.len() - s.input.len()))
    }
}

/// A new encoder has been fed nothing.
pub proof fn lemma_fresh(kind: BlockKind, limit: Option<nat>)
    ensures
        represents(fresh(kind, limit), Seq::empty()),
{
    lemma_decodes_nothing();
    let payload = Seq::<u8>::empty();
    assert(payload.skip(0) =~= payload);
    assert(payload.take(0) =~= payload);
}

proof fn lemma_filled_blocks(s: EncoderState, payload: Seq<u8>)
    requires
        represents(s, payload),
        !s.finished,
        s.input.len() <= usize::MAX,
    ensures
        represents(filled_blocks(s), payload),
        filled_blocks(s).kind == s.kind,
        filled_blocks(s).limit == s.limit,
        !filled_blocks(s).finished,
        filled_blocks(s).input.len() <= s.input.len(),
        s.limit is Some && s.limit->0 > 0 ==> filled_blocks(s).input.len() < s.limit->0,
    decreases s.input.len(),
{
    if let Some(limit) = s.limit {
        if 0 < limit <= s.input.len() {
            let chunk = s.input.take(limit as int);
            let said = payload.take(payload.len() - s.input.len());
            let next = EncoderState {
                input: s.input.skip(limit as int),
                stream: block(s.stream, s.kind, chunk, false),
                ..s
            };
            lemma_decodes_block(s.stream, said, s.kind, chunk);
            assert(said + chunk =~= payload.take(payload.len() - next.input.len()));
            assert(next.input =~= payload.skip(payload.len() - next.input.len()));
            lemma_filled_blocks(next, payload);
        }
    }
}

/// Feeding adds to what an encoder was fed, and nothing else. With a limit on
/// the size of blocks, less input than that is kept back.
pub proof fn lemma_fed(s: EncoderState, payload: Seq<u8>, data: Seq<u8>)
    requires
        represents(s, payload),
        !s.finished,
        s.input.len() + data.len() <= usize::MAX,
    ensures
        represents(fed(s, data), payload + data),
        fed(s, data).kind == s.kind,
        fed(s, data).limit == s.limit,
        !fed(s, data).finished,
        fed(s, data).input.len() <= s.input.len() + data.len(),
        s.limit is Some && s.limit->0 > 0 ==> fed(s, data).input.len() < s.limit->0,
{
    let next = EncoderState { input: s.input + data, ..s };
    let all = payload + data;
    assert(next.input =~= all.skip(all.len() - next.input.len()));
    assert(all.take(all.len() - next.input.len()) =~= payload.take(
        payload.len() - s.input.len(),
    ));
    lemma_filled_blocks(next, all);
}

proof fn lemma_filled_concat(s: EncoderState, data: Seq<u8>)
    ensures
        fed(filled_blocks(s), data) == fed(s, data),
    decreases s.input.len(),
{
    if let Some(limit) = s.limit {
        if 0 < limit <= s.input.len() {
            let chunk = s.input.take(limit as int);
            let next = EncoderState {
                input: s.input.skip(limit as int),
                stream: block(s.stream, s.kind, chunk, false),
                ..s
            };
            lemma_filled_concat(next, data);
            let all = s.input + data;
            assert(all.take(limit as int) =~= chunk);
            assert(all.skip(limit as int) =~= next.input + data);
        }
    }
}

/// Feeding an encoder in pieces is feeding it at once.
pub proof fn lemma_fed_concat(s: EncoderState, first: Seq<u8>, second: Seq<u8>)
    ensures
        fed(fed(s, first), second) == fed(s, first + second),
{
    let next = EncoderState { input: s.input + first, ..s };
    lemma_filled_concat(next, second);
    assert(s.input + first + second =~= s.input + (first + second));
}

/// The bytes that a sync flush ends with.
pub open spec fn sync_marker() -> Seq<u8> {
    seq![0u8, 0u8, 0xffu8, 0xffu8]
}

/// A sync flush writes out all that was fed, ends at a byte boundary with the
/// marker, and leaves the stream open: everything that was fed so far can be
/// decoded from the bytes written so far.
pub proof fn lemma_flushed(s: EncoderState, payload: Seq<u8>)
    requires
        represents(s, payload),
        !s.finished,
        s.input.len() <= usize::MAX,
    ensures
        represents(flushed(s), payload),
        !flushed(s).finished,
        flushed(s).input.len() == 0,
        flushed(s).stream.len() % 8 == 0,
        exists|front: Seq<bool>| flushed(s).stream == #[trigger] (front + byte_bits(sync_marker())),
        inflate(start(flushed(s).stream)) == (
            before_block(payload, Seq::empty()),
            Stop::NeedMore,
        ),
{
    let said = payload.take(payload.len() - s.input.len());
    let stream = if s.input.len() > 0 {
        block(s.stream, s.kind, s.input, false)
    } else {
        s.stream
    };
    if s.input.len() > 0 {
        lemma_decodes_block(s.stream, said, s.kind, s.input);
    }
    assert(said + s.input =~= payload);
    if s.input.len() == 0 {
        assert(said =~= payload);
    }
    let nothing = Seq::<u8>::empty();
    let marked = stored_piece(stream, nothing, false);
    lemma_decodes_block(stream, payload, BlockKind::Stored, nothing);
    lemma_block_adds(stream, BlockKind::Stored, nothing, false);
    assert(block(stream, BlockKind::Stored, nothing, false) == marked);
    assert(payload + nothing =~= payload);
    assert(payload.skip(payload.len() as int) =~= nothing);
    assert(payload.take(payload.len() as int) =~= payload);
    let body = le16(0) + le16(0xffff) + nothing;
    assert(body =~= sync_marker());
    assert(marked == padded(stream + header_bits(false, 0)) + byte_bits(sync_marker()));
    assert(marked + Seq::<bool>::empty() =~= marked);
    assert(inflate(start(marked + Seq::<bool>::empty())) == inflate(
        before_block(payload, Seq::empty()),
    ));
    reveal(inflate);
}

/// Finishing writes out all that was fed and completes the stream.
pub proof fn lemma_finished(s: EncoderState, payload: Seq<u8>)
    requires
        represents(s, payload),
        !s.finished,
        s.input.len() <= usize::MAX,
    ensures
        represents(finished(s), payload),
        completes(finished(s).stream, payload),
{
    let said = payload.take(payload.len() - s.input.len());
    lemma_completes_block(s.stream, said, s.kind, s.input);
    assert(said + s.input =~= payload);
}

/// What a caller can do with an encoder before finishing.
pub enum Command {
    /// Feed some bytes.
    Feed(Seq<u8>),
    /// Flush.
    Flush,
    /// Reset the history, which changes nothing about the stream.
    Reset,
}

/// What an encoder has come to after commands.
pub open spec fn after(kind: BlockKind, limit: Option<nat>, commands: Seq<Command>) -> EncoderState
    decreases commands.len(),
{
    if commands.len() == 0 {
        fresh(kind, limit)
    } else {
        let before = after(kind, limit, commands.drop_last());
        match commands.last() {
            Command::Feed(data) => fed(before, data),
            Command::Flush => flushed(before),
            Command::Reset => before,
        }
    }
}

/// What the commands feed.
pub open spec fn payload(commands: Seq<Command>) -> Seq<u8>
    decreases commands.len(),
{
    if commands.len() == 0 {
        Seq::empty()
    } else {
        let before = payload(commands.drop_last());
        match commands.last() {
            Command::Feed(data) => before + data,
            Command::Flush | Command::Reset => before,
        }
    }
}

/// The input that an encoder buffers fits into memory at all times.
pub open spec fn fits(kind: BlockKind, limit: Option<nat>, commands: Seq<Command>) -> bool
    decreases commands.len(),
{
    commands.len() == 0 || {
        &&& fits(kind, limit, commands.drop_last())
        &&& commands.last() matches Command::Feed(data) ==> after(
            kind,
            limit,
            commands.drop_last(),
        ).input.len() + data.len() <= usize::MAX
    }
}

/// Whatever is done with an encoder, it holds or has written just what was
/// fed.
pub proof fn lemma_session(kind: BlockKind, limit: Option<nat>, commands: Seq<Command>)
    requires
        fits(kind, limit, commands),
    ensures
        represents(after(kind, limit, commands), payload(commands)),
        !after(kind, limit, commands).finished,
        after(kind, limit, commands).kind == kind,
        after(kind, limit, commands).limit == limit,
        after(kind, limit, commands).input.len() <= usize::MAX,
    decreases commands.len(),
{
    if commands.len() == 0 {
        lemma_fresh(kind, limit);
    } else {
        let shorter = commands.drop_last();
        let before = after(kind, limit, shorter);
        lemma_session(kind, limit, shorter);
        match commands.last() {
            Command::Feed(data) => {
                lemma_fed(before, payload(shorter), data);
            },
            Command::Flush => {
                lemma_flushed(before, payload(shorter));
            },
            Command::Reset => {},
        }
    }
}

/// Round trip: whatever is done with an encoder, once it is finished a decoder
/// gives back what was fed, and leaves bytes that follow the stream alone.
pub proof fn lemma_round_trip(
    kind: BlockKind,
    limit: Option<nat>,
    commands: Seq<Command>,
    rest: Seq<u8>,
)
    requires
        fits(kind, limit, commands),
    ensures
        ({
            let stream = finished(after(kind, limit, commands)).stream;
            let (n, stop) = inflate(start(stream + byte_bits(rest)));
            &&& stream.len() % 8 == 0
            &&& stop is Finished
            &&& n.out == payload(commands)
            &&& n.bits.skip(n.held as int) == byte_bits(rest)
        }),
{
    lemma_session(kind, limit, commands);
    let s = after(kind, limit, commands);
    lemma_finished(s, payload(commands));
    lemma_byte_bits_len(rest);
}

// ---------------------------------------------------------------------------
// No history
// ---------------------------------------------------------------------------

/// The same stream with whole bytes in front of it.
pub open spec fn behind(front: Seq<bool>, s: EncoderState) -> EncoderState {
    EncoderState { stream: front + s.stream, ..s }
}

proof fn lemma_stored_behind(front: Seq<bool>, stream: Seq<bool>, chunk: Seq<u8>, last: bool)
    requires
        front.len() % 8 == 0,
    ensures
        stored(front + stream, chunk, last) == front + stored(stream, chunk, last),
    decreases chunk.len(),
{
    if chunk.len() <= 0xffff {
        lemma_stored_piece_behind(front, stream, chunk, last);
    } else {
        let piece = chunk.take(0xffff);
        lemma_stored_piece_behind(front, stream, piece, false);
        lemma_stored_behind(front, stored_piece(stream, piece, false), chunk.skip(0xffff), last);
    }
}

proof fn lemma_stored_piece_behind(front: Seq<bool>, stream: Seq<bool>, piece: Seq<u8>, last: bool)
    requires
        front.len() % 8 == 0,
    ensures
        stored_piece(front + stream, piece, last) == front + stored_piece(stream, piece, last),
{
    let header = header_bits(last, 0);
    assert(front + stream + header =~= front + (stream + header));
    assert(padded(front + (stream + header)) =~= front + padded(stream + header));
    assert(stored_piece(front + stream, piece, last) =~= front + stored_piece(
        stream,
        piece,
        last,
    ));
}

/// A block does not depend on anything that was written before it, but for the
/// place within a byte at which it starts.
#[verifier::spinoff_prover]
#[verifier::rlimit(60)]
pub proof fn lemma_block_behind(
    front: Seq<bool>,
    stream: Seq<bool>,
    kind: BlockKind,
    chunk: Seq<u8>,
    last: bool,
)
    requires
        front.len() % 8 == 0,
    ensures
        block(front + stream, kind, chunk, last) == front + block(stream, kind, chunk, last),
{
    match kind {
        BlockKind::Stored => {
            lemma_stored_behind(front, stream, chunk, last);
        },
        BlockKind::Fixed => {
            let bits = fixed_bits(tokens(chunk, 0), last);
            assert(front + stream + bits =~= front + (stream + bits));
            assert(padded(front + (stream + bits)) =~= front + padded(stream + bits));
        },
        BlockKind::Dynamic => {
            let bits = dynamic_bits(tokens(chunk, 0), last);
            assert(front + stream + bits =~= front + (stream + bits));
            assert(padded(front + (stream + bits)) =~= front + padded(stream + bits));
        },
    }
}

proof fn lemma_filled_behind(front: Seq<bool>, s: EncoderState)
    requires
        front.len() % 8 == 0,
    ensures
        filled_blocks(behind(front, s)) == behind(front, filled_blocks(s)),
    decreases s.input.len(),
{
    if let Some(limit) = s.limit {
        if 0 < limit <= s.input.len() {
            let chunk = s.input.take(limit as int);
            let next = EncoderState {
                input: s.input.skip(limit as int),
                stream: block(s.stream, s.kind, chunk, false),
                ..s
            };
            lemma_block_behind(front, s.stream, s.kind, chunk, false);
            lemma_filled_behind(front, next);
        }
    }
}

/// What an encoder writes does not depend on what it wrote before: with whole
/// bytes in front it writes the same bits behind them.
///
/// So after a sync flush, which ends at a byte boundary with nothing kept back,
/// an encoder writes what a new one would write, and a new decoder can read it.
pub proof fn lemma_no_history(front: Seq<bool>, s: EncoderState, data: Seq<u8>)
    requires
        front.len() % 8 == 0,
    ensures
        fed(behind(front, s), data) == behind(front, fed(s, data)),
        flushed(behind(front, s)) == behind(front, flushed(s)),
        finished(behind(front, s)) == behind(front, finished(s)),
{
    lemma_filled_behind(front, EncoderState { input: s.input + data, ..s });
    let nothing = Seq::<u8>::empty();
    lemma_block_behind(front, s.stream, s.kind, s.input, false);
    lemma_stored_piece_behind(front, s.stream, nothing, false);
    lemma_stored_piece_behind(front, block(s.stream, s.kind, s.input, false), nothing, false);
    lemma_block_behind(front, s.stream, s.kind, s.input, true);
}

// ---------------------------------------------------------------------------
// Decoders
// ---------------------------------------------------------------------------

/// A decoder that stands at `m` has been fed `bits`: whatever comes next, it
/// goes on as if all had been fed at once.
pub open spec fn tracks(m: Machine, bits: Seq<bool>) -> bool {
    forall|more: Seq<bool>|
        more.len() % 8 == 0 ==> inflate(#[trigger] m.push(more)) == inflate(start(bits + more))
}

/// A new decoder has been fed nothing.
pub proof fn lemma_tracks_nothing()
    ensures
        tracks(start(Seq::empty()), Seq::empty()),
        wf(start(Seq::empty())),
{
    assert forall|more: Seq<bool>| more.len() % 8 == 0 implies inflate(
        #[trigger] start(Seq::empty()).push(more),
    ) == inflate(start(Seq::<bool>::empty() + more)) by {
        assert(start(Seq::empty()).push(more) == start(Seq::<bool>::empty() + more));
    }
}

/// Steps that were taken need not be taken again when more bits come.
proof fn lemma_run_push(m: Machine, limit: nat, more: Seq<bool>)
    requires
        wf(m),
        more.len() % 8 == 0,
    ensures
        inflate(run(m, limit).0.push(more)) == inflate(m.push(more)),
    decreases m.bits.len(), rank(m.phase),
{
    reveal(run);
    if !full(m, limit) {
        lemma_step_smaller(m);
        lemma_step_wf(m);
        if let Step::Next(k) = step(m) {
            lemma_step_extend(m, more);
            lemma_run_push(k, limit, more);
            reveal(inflate);
        }
    }
}

/// Feeding in pieces is feeding at once.
///
/// A decoder at `m` that was fed `bits` and is fed `more` stands, whatever its
/// limit, where one stands that was fed all of them. If it did not stop for its
/// limit, it has done all that can be done with them, and so an error, the end
/// of the stream and the output do not depend on how the input was cut.
pub proof fn lemma_feed(m: Machine, bits: Seq<bool>, more: Seq<bool>, limit: nat)
    requires
        wf(m),
        tracks(m, bits),
        more.len() % 8 == 0,
    ensures
        ({
            let (n, stop) = run(m.push(more), limit);
            let (all, end) = inflate(start(bits + more));
            &&& wf(n)
            &&& tracks(n, bits + more)
            &&& n.out.len() <= all.out.len()
            &&& n.out == all.out.take(n.out.len() as int)
            &&& stop is Full ==> n.out.len() >= limit
            &&& !(stop is Full) ==> (all, end) == (n, stop)
        }),
{
    let pushed = m.push(more);
    assert(pushed.bits.len() % 8 == m.bits.len() % 8);
    lemma_run(pushed, limit);
    lemma_inflate(pushed);
    let (n, stop) = run(pushed, limit);
    assert(inflate(m.push(more)) == inflate(start(bits + more)));
    lemma_inflate(n);
    assert forall|rest: Seq<bool>| rest.len() % 8 == 0 implies inflate(#[trigger] n.push(rest))
        == inflate(start(bits + more + rest)) by {
        lemma_run_push(pushed, limit, rest);
        assert(pushed.push(rest).bits =~= m.push(more + rest).bits);
        assert(pushed.push(rest) == m.push(more + rest));
        assert(inflate(m.push(more + rest)) == inflate(start(bits + (more + rest))));
        assert(bits + more + rest =~= bits + (more + rest));
    }
}

/// A decoder that comes to the end of a stream was fed a whole stream, which says
/// what it has put out, and the bytes that it leaves unread.
pub proof fn lemma_whole(data: Seq<u8>) -> (own: Seq<u8>)
    requires
        inflate(start(byte_bits(data))).1 is Finished,
    ensures
        data == own + unread_bytes(inflate(start(byte_bits(data))).0),
        completes(byte_bits(own), inflate(start(byte_bits(data))).0.out),
{
    let reached = inflate(start(byte_bits(data))).0;
    let own = data.take(data.len() - unread_bytes(reached).len());
    lemma_own_bytes(data, Seq::empty());
    lemma_byte_bits_len(own);
    assert forall|rest: Seq<bool>| rest.len() % 8 == 0 implies {
        let (n, stop) = inflate(#[trigger] start(byte_bits(own) + rest));
        &&& stop is Finished
        &&& n.out == reached.out
        &&& rest.len() + n.held == n.bits.len()
        &&& n.bits.skip(n.held as int) == rest
    } by {
        lemma_own_bytes(data, rest);
        let m = start(byte_bits(own) + rest);
        let n = inflate(m).0;
        lemma_inflate(m);
        assert(n.bits.skip(n.held as int) =~= rest);
    }
    own
}

/// However the stream of an encoder was cut on its way, a decoder that was fed
/// all of it has put out what was fed to the encoder, up to where it stands, and
/// ends with all of it when it goes on.
pub proof fn lemma_delivered(
    kind: BlockKind,
    limit: Option<nat>,
    commands: Seq<Command>,
    m: Machine,
)
    requires
        fits(kind, limit, commands),
        wf(m),
        tracks(m, finished(after(kind, limit, commands)).stream),
    ensures
        inflate(m).1 is Finished,
        inflate(m).0.out == payload(commands),
        m.out.len() <= payload(commands).len(),
        m.out == payload(commands).take(m.out.len() as int),
{
    let nothing = Seq::<bool>::empty();
    let stream = finished(after(kind, limit, commands)).stream;
    lemma_round_trip(kind, limit, commands, Seq::empty());
    lemma_byte_bits_len(Seq::empty());
    assert(byte_bits(Seq::empty()) =~= nothing);
    assert(m.push(nothing).bits =~= m.bits);
    assert(m.push(nothing) == m);
    assert(inflate(m.push(nothing)) == inflate(start(stream + nothing)));
    lemma_inflate(m);
}

/// A stream that is cut off is not an error: where the whole is none, no part of
/// it from the start is one.
pub proof fn lemma_cut_off(bits: Seq<bool>, more: Seq<bool>)
    requires
        bits.len() % 8 == 0,
        more.len() % 8 == 0,
        !(inflate(start(bits + more)).1 is Fail),
    ensures
        !(inflate(start(bits)).1 is Fail),
{
    lemma_inflate_extend(start(bits), more);
    assert(start(bits).push(more) == start(bits + more));
}

/// What is decoded already stays as it is when more bits come.
pub proof fn lemma_output_grows(bits: Seq<bool>, more: Seq<bool>)
    requires
        bits.len() % 8 == 0,
        more.len() % 8 == 0,
    ensures
        ({
            let before = inflate(start(bits)).0.out;
            let after = inflate(start(bits + more)).0.out;
            before.len() <= after.len() && before == after.take(before.len() as int)
        }),
{
    let m = start(bits);
    assert(wf(m));
    lemma_inflate(m);
    lemma_inflate_extend(m, more);
    assert(m.push(more) == start(bits + more));
    let (n, stop) = inflate(m);
    assert(n.out.take(n.out.len() as int) =~= n.out);
    if stop is NeedMore {
        lemma_inflate(n.push(more));
    }
}

} // verus!
