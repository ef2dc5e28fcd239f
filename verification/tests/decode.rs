//! The DEFLATE decoder.

use noflate::decode::{Decoder, MAX_INTERNAL_BUFFER};
use noflate::encode::{EncodeOptions, Encoder};

fn decompress_once(input: &[u8]) -> Vec<u8> {
    let mut d = Decoder::new();
    d.feed(input).expect("feed");
    assert!(d.is_finished(), "stream did not finish");
    let out = d.output().to_vec();
    d.advance(out.len());
    out
}

/// Drain a decoder to completion, resuming via empty `feed` calls after
/// any internal output-cap yield. Appends all produced bytes to `out`.
///
/// Test inputs are always complete streams, so a run that stalls with no
/// progress indicates a regression and is surfaced as a panic rather
/// than a hang.
fn drain_until_finished(d: &mut Decoder, out: &mut Vec<u8>) {
    loop {
        let produced = d.output().to_vec();
        out.extend_from_slice(&produced);
        d.advance(produced.len());
        if d.is_finished() {
            break;
        }
        // Resume after an output-cap yield. The remaining compressed
        // input is buffered in the decoder, so an empty feed continues
        // decoding.
        let before_remaining = d.remaining_input().len();
        d.feed(&[]).expect("resume feed");
        // A resume may produce the final block and finish at once while
        // leaving no new output; that is still progress (the stream is
        // complete), so only flag a true stall (would-be truncated input).
        assert!(
            !d.output().is_empty()
                || d.remaining_input().len() != before_remaining
                || d.is_finished(),
            "drain_until_finished stalled: no progress on a complete stream",
        );
    }
}

#[test]
fn decode_known_fixed_block() {
    let input = [243, 72, 205, 201, 201, 87, 8, 207, 47, 202, 73, 81, 4, 0];
    assert_eq!(decompress_once(&input), b"Hello World!");
}

#[test]
fn decode_known_raw_block() {
    let input = [
        1, 12, 0, 243, 255, 72, 101, 108, 108, 111, 32, 87, 111, 114, 108, 100, 33,
    ];
    assert_eq!(decompress_once(&input), b"Hello World!");
}

#[test]
fn decode_known_dynamic_block() {
    let input = [75, 76, 42, 74, 76, 78, 76, 73, 4, 82, 10, 137, 216, 217, 0];
    assert_eq!(
        decompress_once(&input),
        b"abracadabra abracadabra abracadabra"
    );
}

#[test]
fn decode_reserved_block_type_errors() {
    let input = [0x07];
    let mut d = Decoder::new();
    assert!(d.feed(&input).is_err());
}

#[test]
fn byte_by_byte_feed_matches_whole_at_once() {
    let input = [243, 72, 205, 201, 201, 87, 8, 207, 47, 202, 73, 81, 4, 0];
    let mut d = Decoder::new();
    for &byte in &input {
        d.feed(&[byte]).expect("feed");
    }
    assert!(d.is_finished());
    let out = d.output().to_vec();
    d.advance(out.len());
    assert_eq!(out, b"Hello World!");
}

#[test]
fn decode_advance_compacts_output_buffer() {
    // The output
    // buffer must not grow without bound when the caller streams the
    // decoded bytes out via feed/output/advance. Compress ~10 MiB and
    // decode it in chunks, draining after each chunk; the internal
    // output buffer should stay capped near the compaction threshold
    // plus the LZ77 window rather than holding all 10 MiB.
    let payload: Vec<u8> =
        (0..10 * 1024 * 1024).map(|i| (i * 37 + 13) as u8).collect();
    let mut e = Encoder::with_options(EncodeOptions::new().buffer_all_input());
    e.feed(&payload).unwrap();
    e.finish().unwrap();
    let compressed = e.output().to_vec();

    let mut d = Decoder::new();
    let mut decoded = Vec::with_capacity(payload.len());
    let mut max_internal = 0usize;
    for chunk in compressed.chunks(64 * 1024) {
        d.feed(chunk).unwrap();
        let produced = d.output().to_vec();
        decoded.extend_from_slice(&produced);
        d.advance(produced.len());
        // Inspect the unread buffer length through the public surface:
        // after advance, output().len() is (total - drained), which is
        // bounded by the internal cap plus one symbol's overshoot.
        max_internal = max_internal.max(d.output().len());
    }
    // A `feed` may return before the final block when the internal cap
    // is reached; drain the remainder with empty resumes.
    drain_until_finished(&mut d, &mut decoded);
    assert!(d.is_finished());
    assert_eq!(decoded, payload);
    // The unread buffer observed by the caller must stay well under the
    // total decoded size (10 MiB): a single feed must not buffer a whole
    // block.
    assert!(
        max_internal <= MAX_INTERNAL_BUFFER + 258,
        "internal output buffer grew to {max_internal} bytes"
    );
}

#[test]
fn back_reference_correct_across_compaction() {
    // Build a stream whose back-references span the compaction boundary.
    // The payload is a 3 MiB sequence followed by an exact copy of the
    // last 16 KiB — that inner copy becomes a back-reference spanning
    // data that will have been compacted away from the front.
    let unit: Vec<u8> = (0..16 * 1024).map(|i| (i * 31 + 7) as u8).collect();
    let mut payload = Vec::new();
    for _ in 0..192 {
        // 192 * 16 KiB = 3 MiB of varying data
        payload.extend_from_slice(&unit);
    }
    // Final block that should LZ77-match the immediately-prior unit.
    payload.extend_from_slice(&unit);

    let mut e = Encoder::with_options(EncodeOptions::new().buffer_all_input());
    e.feed(&payload).unwrap();
    e.finish().unwrap();
    let compressed = e.output().to_vec();

    let mut d = Decoder::new();
    let mut decoded = Vec::with_capacity(payload.len());
    // Drain in small chunks so compaction runs many times.
    for chunk in compressed.chunks(32 * 1024) {
        d.feed(chunk).unwrap();
        let produced = d.output().to_vec();
        decoded.extend_from_slice(&produced);
        d.advance(produced.len());
    }
    drain_until_finished(&mut d, &mut decoded);
    assert!(d.is_finished());
    assert_eq!(decoded, payload);
}

#[test]
fn single_block_does_not_buffer_whole_output() {
    // A single DEFLATE block can expand arbitrarily (RFC 1951
    // has no per-block maximum). A one-shot encode of 8 MiB of zeros
    // yields one block; without the internal output cap a single `feed`
    // would buffer the entire 8 MiB expansion before the caller could
    // drain it.
    let payload = vec![0u8; 8 * 1024 * 1024];
    let mut e = Encoder::with_options(EncodeOptions::new().buffer_all_input());
    e.feed(&payload).unwrap();
    e.finish().unwrap();
    let compressed = e.output().to_vec();

    let mut d = Decoder::new();
    d.feed(&compressed).expect("feed");
    // The first feed must stop once the internal cap is reached, not
    // buffer the whole 8 MiB expansion.
    let first_len = d.output().len();
    assert!(
        first_len <= MAX_INTERNAL_BUFFER + 258,
        "single feed buffered {first_len} bytes of one block",
    );
    let mut decoded = Vec::new();
    drain_until_finished(&mut d, &mut decoded);
    assert_eq!(decoded, payload);
}
