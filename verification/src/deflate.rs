//! Raw DEFLATE (RFC 1951) encoder and decoder.
//!
//! See [`Encoder`] and [`Decoder`] for the streaming API.

use crate::bits::{byte_bits, lemma_byte_bits_len};
use crate::block::{block, BlockKind};
use crate::error::{invalid, invalid_data, Error};
use crate::inflate::{inflate, lemma_inflate, start, Stop};
use crate::laws::{completes, lemma_completes_block, lemma_decodes_nothing};
use vstd::prelude::*;

pub use crate::decode::Decoder;
pub use crate::encode::{EncodeOptions, Encoder};

verus! {

/// One-shot: compress a slice into a new DEFLATE stream.
pub fn compress(data: &[u8]) -> (r: Result<Vec<u8>, Error>)
    ensures
        r matches Ok(out) && {
            &&& byte_bits(out@) == block(Seq::empty(), BlockKind::Dynamic, data@, true)
            &&& completes(byte_bits(out@), data@)
            &&& inflate(start(byte_bits(out@))).1 is Finished
            &&& inflate(start(byte_bits(out@))).0.out == data@
        },
{
    let mut encoder = Encoder::with_options(EncodeOptions::new().buffer_all_input());
    encoder.feed(data)?;
    proof {
        assert(Seq::<u8>::empty() + data@ =~= data@);
    }
    encoder.finish()?;
    let out: Vec<u8> = vstd::slice::slice_to_vec(encoder.output());
    proof {
        encoder.lemma_wf();
        assert(encoder.written().skip(0) =~= encoder.written());
        assert(data@.len() == data.len());
        lemma_decodes_nothing();
        lemma_completes_block(Seq::empty(), Seq::empty(), BlockKind::Dynamic, data@);
        assert(Seq::<u8>::empty() + data@ =~= data@);
        assert(byte_bits(out@) + Seq::<bool>::empty() =~= byte_bits(out@));
        assert(start(byte_bits(out@) + Seq::<bool>::empty()) == start(byte_bits(out@)));
    }
    encoder.advance(out.len());
    Ok(out)
}

/// One-shot: decompress a DEFLATE stream into a new `Vec<u8>`. Bytes behind
/// the final block are ignored.
///
/// Returns an error if the input is not a valid DEFLATE stream or ends
/// prematurely before the final block is consumed.
pub fn decompress(data: &[u8]) -> (r: Result<Vec<u8>, Error>)
    ensures
        match inflate(start(byte_bits(data@))) {
            (reached, Stop::Finished) => r matches Ok(out) && out@ == reached.out,
            (_, Stop::Fail(fault)) => r matches Err(e) && e@ == fault,
            _ => r matches Err(e) && e@ == invalid("deflate stream ended before the final block"),
        },
{
    let mut decoder = Decoder::new();
    let mut out: Vec<u8> = Vec::new();
    proof {
        lemma_byte_bits_len(data@);
        assert(decoder.machine().push(byte_bits(data@)).bits =~= byte_bits(data@));
        lemma_inflate(start(byte_bits(data@)));
    }
    decoder.decode_into(data, &mut out)?;
    proof {
        let reached = inflate(start(byte_bits(data@))).0;
        assert(Seq::<u8>::empty() + reached.out.skip(0) =~= reached.out);
    }
    if !decoder.is_finished() {
        return Err(invalid_data("deflate stream ended before the final block"));
    }
    Ok(out)
}

} // verus!
