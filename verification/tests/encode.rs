//! The DEFLATE encoder.

use noflate::deflate::{decompress, Decoder};
use noflate::encode::{EncodeOptions, Encoder};

fn compress_with(opts: EncodeOptions, input: &[u8]) -> Vec<u8> {
    let mut e = Encoder::with_options(opts);
    e.feed(input).unwrap();
    e.finish().unwrap();
    assert!(e.is_finished() || !e.output().is_empty());
    let out = e.output().to_vec();
    e.advance(out.len());
    assert!(e.is_finished());
    out
}

#[test]
fn dynamic_roundtrip() {
    let input = b"banana banana banana banana";
    let compressed = compress_with(EncodeOptions::new(), input);
    assert_eq!(decompress(&compressed).unwrap(), input);
}

#[test]
fn fixed_roundtrip() {
    let input = b"hello hello hello";
    let compressed = compress_with(EncodeOptions::new().fixed_huffman(), input);
    assert_eq!(decompress(&compressed).unwrap(), input);
}

#[test]
fn stored_roundtrip() {
    let input = b"this is stored data";
    let compressed = compress_with(EncodeOptions::new().stored(), input);
    assert_eq!(decompress(&compressed).unwrap(), input);
}

#[test]
fn empty_roundtrip() {
    for opts in [
        EncodeOptions::new(),
        EncodeOptions::new().fixed_huffman(),
        EncodeOptions::new().stored(),
    ] {
        let compressed = compress_with(opts, b"");
        assert_eq!(decompress(&compressed).unwrap(), b"");
    }
}

#[test]
fn large_repetitive_compresses() {
    let input = vec![b'a'; 2048];
    let compressed = compress_with(EncodeOptions::new(), &input);
    assert!(compressed.len() < 64);
    assert_eq!(decompress(&compressed).unwrap(), input);
}

#[test]
fn stored_splits_at_0xffff() {
    let input = vec![b'x'; 0xFFFF + 10];
    let compressed = compress_with(EncodeOptions::new().stored(), &input);
    assert_eq!(decompress(&compressed).unwrap(), input);
}

#[test]
fn feed_produces_output_during_block_split() {
    let input = vec![b'a'; 128 * 1024];
    let mut e = Encoder::new();
    e.feed(&input).unwrap();
    assert!(
        !e.output().is_empty(),
        "expected intermediate output from block splitting"
    );
    e.finish().unwrap();
    let out = e.output().to_vec();
    e.advance(out.len());
    assert!(e.is_finished());
    assert_eq!(decompress(&out).unwrap(), input);
}

#[test]
fn buffer_all_input_no_intermediate_output() {
    let input = vec![b'a'; 128 * 1024];
    let mut e = Encoder::with_options(EncodeOptions::new().buffer_all_input());
    e.feed(&input).unwrap();
    assert!(
        e.output().is_empty(),
        "buffer_all_input should not produce output during feed"
    );
    e.finish().unwrap();
    let out = e.output().to_vec();
    e.advance(out.len());
    assert!(e.is_finished());
    assert_eq!(decompress(&out).unwrap(), input);
}

#[test]
fn streaming_roundtrip_large_input() {
    let input: Vec<u8> = (0..150_000).map(|i| (i * 37 + 13) as u8).collect();
    for opts in [
        EncodeOptions::new(),
        EncodeOptions::new().fixed_huffman(),
        EncodeOptions::new().stored(),
    ] {
        let compressed = compress_with(opts.clone(), &input);
        assert_eq!(decompress(&compressed).unwrap(), input);
    }
}

#[test]
fn sync_flush_marker_is_empty_stored_block() {
    let mut e = Encoder::new();
    e.sync_flush().unwrap();
    // From bit state (0, 0): write_bit(false) + write_bits(2, 0b00)
    // + align_to_byte pads out to one 0x00 byte; then the 4-byte
    // trailer is appended literally.
    assert_eq!(e.output(), &[0x00, 0x00, 0x00, 0xFF, 0xFF]);
}

#[test]
fn sync_flush_then_finish_roundtrip() {
    for opts in [
        EncodeOptions::new(),
        EncodeOptions::new().fixed_huffman(),
        EncodeOptions::new().stored(),
    ] {
        let mut e = Encoder::with_options(opts);
        e.feed(b"hello ").unwrap();
        e.sync_flush().unwrap();
        e.feed(b"world").unwrap();
        e.finish().unwrap();
        let out = e.output().to_vec();
        e.advance(out.len());
        assert!(e.is_finished());
        assert_eq!(decompress(&out).unwrap(), b"hello world");
    }
}

#[test]
fn permessage_deflate_style_framing_roundtrip() {
    // Mirror the RFC 7692 sender/receiver pattern: strip the 4-byte
    // trailer per message, re-append on the receiver, decode streaming.
    let messages: &[&[u8]] = &[
        b"the quick brown fox",
        b"jumps over the lazy dog",
        b"hello again",
    ];
    let mut e = Encoder::new();
    let mut wire: Vec<Vec<u8>> = Vec::new();
    for msg in messages {
        e.feed(msg).unwrap();
        e.sync_flush().unwrap();
        let mut frame = e.output().to_vec();
        e.advance(frame.len());
        assert!(frame.ends_with(&[0x00, 0x00, 0xFF, 0xFF]));
        frame.truncate(frame.len() - 4);
        wire.push(frame);
    }
    let mut d = Decoder::new();
    for frame in &wire {
        d.feed(frame).unwrap();
        d.feed(&[0x00, 0x00, 0xFF, 0xFF]).unwrap();
    }
    let decoded = d.output().to_vec();
    let expected: Vec<u8> = messages.iter().flat_map(|m| m.iter().copied()).collect();
    assert_eq!(decoded, expected);
}

#[test]
fn reset_history_drops_backrefs_to_prior_input() {
    // With a cross-message-repeating payload, reset_history must
    // produce the same bytes as a fresh encoder — the LZ77 matcher
    // cannot see the first message's bytes anymore.
    let payload = b"abcdefghijklmnopqrstuvwxyz0123456789";

    let mut fresh = Encoder::new();
    fresh.feed(payload).unwrap();
    fresh.sync_flush().unwrap();
    let baseline = fresh.output().to_vec();

    let mut e = Encoder::new();
    e.feed(payload).unwrap();
    e.sync_flush().unwrap();
    let first_len = e.output().len();
    e.advance(first_len);
    e.reset_history();
    e.feed(payload).unwrap();
    e.sync_flush().unwrap();
    let second = e.output().to_vec();
    e.advance(second.len());
    assert_eq!(second, baseline);
}

#[test]
fn sync_flush_after_finish_errors() {
    let mut e = Encoder::new();
    e.feed(b"data").unwrap();
    e.finish().unwrap();
    assert!(e.sync_flush().is_err());
}

#[test]
fn encode_advance_compacts_output_buffer() {
    // The
    // encoder's output Vec must drop consumed bytes so memory does
    // not grow without bound during large streaming encodes.
    let mut e = Encoder::with_options(EncodeOptions::new().stored());
    let chunk = vec![b'x'; 64 * 1024];
    let mut total_consumed = 0usize;
    let mut max_internal = 0usize;
    // Drive ~10 MiB through the encoder, draining after each feed.
    for _ in 0..160 {
        e.feed(&chunk).unwrap();
        let out = e.output().to_vec();
        total_consumed += out.len();
        e.advance(out.len());
        max_internal = max_internal.max(e.buffered_len());
    }
    e.finish().unwrap();
    let tail = e.output().to_vec();
    total_consumed += tail.len();
    e.advance(tail.len());
    assert!(e.is_finished());
    assert!(total_consumed > 10 * 1024 * 1024);
    assert!(
        max_internal < 2 * 1024 * 1024,
        "internal output buffer grew to {max_internal} bytes"
    );
}
