//! The zlib container.

use std::io::{Read, Write};

use noflate::zlib::{compress, decompress, Decoder, Encoder};

#[test]
fn zlib_roundtrip_hello() {
    let original = b"Hello, zlib!";
    let compressed = compress(original).unwrap();
    assert_eq!(compressed[0], 0x78);
    assert_eq!(compressed[1], 0x9C);
    let decompressed = decompress(&compressed).unwrap();
    assert_eq!(decompressed, original);
}

#[test]
fn zlib_roundtrip_empty() {
    let compressed = compress(b"").unwrap();
    assert_eq!(decompress(&compressed).unwrap(), b"");
}

#[test]
fn zlib_roundtrip_various_sizes() {
    for len in [1usize, 7, 1024, 65_536] {
        let input: Vec<u8> = (0..len).map(|i| (i * 13 + 7) as u8).collect();
        let c = compress(&input).unwrap();
        assert_eq!(decompress(&c).unwrap(), input, "len={len}");
    }
}

#[test]
fn zlib_incremental_feed_one_byte_at_a_time() {
    let compressed = compress(b"hello world zlib streaming").unwrap();
    let mut d = Decoder::new();
    for &byte in &compressed {
        d.feed(&[byte]).unwrap();
    }
    assert!(d.is_finished());
    let out = d.output().to_vec();
    d.advance(out.len());
    assert_eq!(out, b"hello world zlib streaming");
}

#[test]
fn tampered_adler32_rejected() {
    let mut c = compress(b"the quick brown fox").unwrap();
    let last = c.len() - 1;
    c[last] ^= 0x01;
    assert!(decompress(&c).is_err());
}

#[test]
fn header_fcheck_validated() {
    let mut c = compress(b"hello").unwrap();
    c[1] ^= 0x01;
    assert!(decompress(&c).is_err());
}

#[test]
fn encoder_streaming_writes_to_output_buffer() {
    let mut e = Encoder::new();
    e.feed(b"streaming ").unwrap();
    e.feed(b"zlib ").unwrap();
    e.feed(b"test").unwrap();
    e.finish().unwrap();
    let out = e.output().to_vec();
    e.advance(out.len());
    assert!(e.is_finished());
    assert_eq!(decompress(&out).unwrap(), b"streaming zlib test");
}

#[test]
fn rejects_bytes_after_finish() {
    let compressed = compress(b"x").unwrap();
    let mut d = Decoder::new();
    d.feed(&compressed).unwrap();
    assert!(d.is_finished());
    assert!(d.feed(b"y").is_err());
}

#[test]
fn zlib_interoperates_with_flate2() {
    // Our output -> flate2's decoder.
    let ours = compress(b"noflate -> flate2").unwrap();
    let mut their_dec = flate2::read::ZlibDecoder::new(&ours[..]);
    let mut decoded = Vec::new();
    their_dec.read_to_end(&mut decoded).unwrap();
    assert_eq!(decoded, b"noflate -> flate2");

    // flate2's output -> our decoder.
    let mut their_enc =
        flate2::write::ZlibEncoder::new(Vec::new(), flate2::Compression::default());
    their_enc.write_all(b"flate2 -> noflate").unwrap();
    let theirs = their_enc.finish().unwrap();
    assert_eq!(decompress(&theirs).unwrap(), b"flate2 -> noflate");
}
