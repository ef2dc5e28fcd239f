//! The gzip container.

use std::io::{Read, Write};

use noflate::deflate::EncodeOptions;
use noflate::gzip::{compress, decompress, Decoder, Encoder, FNAME, MAGIC1, MAGIC2};

#[test]
fn gzip_roundtrip_hello() {
    let original = b"Hello, gzip!";
    let compressed = compress(original).unwrap();
    assert_eq!(&compressed[..3], &[0x1F, 0x8B, 8]);
    let decompressed = decompress(&compressed).unwrap();
    assert_eq!(decompressed, original);
}

#[test]
fn gzip_roundtrip_empty() {
    let compressed = compress(b"").unwrap();
    assert_eq!(decompress(&compressed).unwrap(), b"");
}

#[test]
fn gzip_roundtrip_various_sizes() {
    for len in [1usize, 7, 1024, 65_536, 262_144] {
        let input: Vec<u8> = (0..len).map(|i| (i * 13 + 7) as u8).collect();
        let c = compress(&input).unwrap();
        assert_eq!(decompress(&c).unwrap(), input, "len={len}");
    }
}

#[test]
fn gzip_incremental_feed_one_byte_at_a_time() {
    let compressed = compress(b"gzip streaming test").unwrap();
    let mut d = Decoder::new();
    for &byte in &compressed {
        d.feed(&[byte]).unwrap();
    }
    assert!(d.is_finished());
    let out = d.output().to_vec();
    d.advance(out.len());
    assert_eq!(out, b"gzip streaming test");
}

#[test]
fn tampered_crc_rejected() {
    let mut c = compress(b"the quick brown fox").unwrap();
    let i = c.len() - 8;
    c[i] ^= 0x01;
    assert!(decompress(&c).is_err());
}

#[test]
fn tampered_size_rejected() {
    let mut c = compress(b"the quick brown fox").unwrap();
    let i = c.len() - 1;
    c[i] ^= 0x01;
    assert!(decompress(&c).is_err());
}

#[test]
fn bad_magic_rejected() {
    let mut c = compress(b"hello").unwrap();
    c[0] ^= 0x01;
    assert!(decompress(&c).is_err());
}

#[test]
fn gzip_interoperates_with_flate2() {
    // Our output -> flate2's decoder.
    let ours = compress(b"noflate -> flate2 gzip").unwrap();
    let mut their_dec = flate2::read::GzDecoder::new(&ours[..]);
    let mut decoded = Vec::new();
    their_dec.read_to_end(&mut decoded).unwrap();
    assert_eq!(decoded, b"noflate -> flate2 gzip");

    // flate2's output -> our decoder.
    let mut their_enc =
        flate2::write::GzEncoder::new(Vec::new(), flate2::Compression::default());
    their_enc.write_all(b"flate2 -> noflate gzip").unwrap();
    let theirs = their_enc.finish().unwrap();
    assert_eq!(decompress(&theirs).unwrap(), b"flate2 -> noflate gzip");
}

#[test]
fn decodes_header_with_fname() {
    // Build a gzip with FNAME flag and name "hi\0".
    let body = compress(b"xyz").unwrap();
    let mut patched = Vec::new();
    patched.extend_from_slice(&[MAGIC1, MAGIC2, 8, FNAME, 0, 0, 0, 0, 0, 255]);
    patched.extend_from_slice(b"hi\0");
    patched.extend_from_slice(&body[10..]);
    assert_eq!(decompress(&patched).unwrap(), b"xyz");
}

#[test]
fn gzip_advance_compacts_output_buffer() {
    let mut e = Encoder::with_options(EncodeOptions::new().stored());
    let chunk = vec![b'x'; 64 * 1024];
    let mut total = 0usize;
    let mut max_internal = 0usize;
    for _ in 0..160 {
        e.feed(&chunk).unwrap();
        let out = e.output().to_vec();
        total += out.len();
        e.advance(out.len());
        max_internal = max_internal.max(e.buffered_len());
    }
    e.finish().unwrap();
    let tail = e.output().to_vec();
    total += tail.len();
    e.advance(tail.len());
    assert!(e.is_finished());
    assert!(total > 10 * 1024 * 1024);
    assert!(
        max_internal < 2 * 1024 * 1024,
        "internal output buffer grew to {max_internal} bytes"
    );
}
