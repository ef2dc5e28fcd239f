//! Exact results of formulas and encoders.

use noflate::deflate::{self, EncodeOptions, Encoder};
use noflate::{adler32, crc32, gzip, zlib};

fn encoded(options: EncodeOptions, data: &[u8]) -> Vec<u8> {
    let mut e = Encoder::with_options(options);
    e.feed(data).unwrap();
    e.finish().unwrap();
    e.output().to_vec()
}

fn ratio(input: &[u8]) -> String {
    let compressed = deflate::compress(input).unwrap();
    assert_eq!(deflate::decompress(&compressed).unwrap(), input);
    format!("{:.4}", compressed.len() as f64 / input.len() as f64)
}

fn english(n: usize) -> Vec<u8> {
    let snippet = b"The quick brown fox jumps over the lazy dog. \
        Pack my box with five dozen liquor jugs. How vexingly quick daft \
        zebras jump! Sphinx of black quartz, judge my vow. The five boxing \
        wizards jump quickly. ";
    let mut out = Vec::new();
    while out.len() < n {
        out.extend_from_slice(snippet);
    }
    out.truncate(n);
    out
}

fn random(n: usize) -> Vec<u8> {
    let mut state: u64 = 0x9E37_79B9_7F4A_7C15;
    let mut out = Vec::new();
    while out.len() < n {
        state ^= state << 13;
        state ^= state >> 7;
        state ^= state << 17;
        out.extend_from_slice(&state.to_le_bytes());
    }
    out.truncate(n);
    out
}

#[test]
fn stored_blocks() {
    let stored = EncodeOptions::new().stored();
    assert_eq!(
        encoded(stored.clone(), b"abc"),
        [0x01, 0x03, 0x00, 0xFC, 0xFF, b'a', b'b', b'c']
    );
    assert_eq!(
        encoded(stored.clone(), b""),
        [0x01, 0x00, 0x00, 0xFF, 0xFF]
    );
    // A block holds at most 65535 bytes.
    let out = encoded(stored.buffer_all_input(), &vec![9u8; 65_536]);
    assert_eq!(out.len(), 65_536 + 10);
    assert_eq!(out[..5], [0x00, 0xFF, 0xFF, 0x00, 0x00]);
    assert_eq!(out[5 + 65_535..], [0x01, 0x01, 0x00, 0xFE, 0xFF, 9]);
}

#[test]
fn fixed_blocks() {
    let fixed = EncodeOptions::new().fixed_huffman();
    assert_eq!(encoded(fixed.clone(), b""), [0x03, 0x00]);
    assert_eq!(encoded(fixed.clone(), b"a"), [0x4B, 0x04, 0x00]);
    // The letter, and a match of length 9 at distance 1.
    assert_eq!(encoded(fixed, b"aaaaaaaaaa"), [0x4B, 0x84, 0x03, 0x00]);
}

#[test]
fn flush_of_nothing() {
    let mut e = Encoder::new();
    e.sync_flush().unwrap();
    assert_eq!(e.output(), [0x00, 0x00, 0x00, 0xFF, 0xFF]);
}

#[test]
fn blocks_of_limited_size() {
    let options = EncodeOptions::new().stored().max_block_input_bytes(2);
    let mut e = Encoder::with_options(options);
    e.feed(b"abcde").unwrap();
    assert_eq!(
        e.output(),
        [0, 2, 0, 0xFD, 0xFF, b'a', b'b', 0, 2, 0, 0xFD, 0xFF, b'c', b'd']
    );
    e.finish().unwrap();
    assert!(e.output().ends_with(&[1, 1, 0, 0xFE, 0xFF, b'e']));
}

#[test]
fn gzip_frame() {
    let out = gzip::compress(b"abc").unwrap();
    let n = out.len();
    assert_eq!(out[..10], [0x1F, 0x8B, 8, 0, 0, 0, 0, 0, 0, 0xFF]);
    assert_eq!(
        out[n - 8..],
        [0xC2, 0x41, 0x24, 0x35, 3, 0, 0, 0]
    );
    assert_eq!(out[10..n - 8], deflate::compress(b"abc").unwrap());
}

#[test]
fn zlib_frame() {
    let out = zlib::compress(b"Wikipedia").unwrap();
    let n = out.len();
    assert_eq!(out[..2], [zlib::CMF, zlib::FLG]);
    assert_eq!(out[n - 4..], [0x11, 0xE6, 0x03, 0x98]);
    assert_eq!(out[2..n - 4], deflate::compress(b"Wikipedia").unwrap());
}

#[test]
fn checksums() {
    assert_eq!(adler32(b""), 1);
    assert_eq!(adler32(b"Wikipedia"), 0x11E6_0398);
    assert_eq!(crc32(b""), 0);
    assert_eq!(crc32(b"123456789"), 0xCBF4_3926);
}

#[test]
fn compression_ratios() {
    assert_eq!(ratio(&english(1_024)), "0.1494");
    assert_eq!(ratio(&english(64 * 1024)), "0.0064");
    assert_eq!(ratio(&english(1024 * 1024)), "0.0040");
    assert_eq!(ratio(&[0u8; 64 * 1024]), "0.0012");
    assert_eq!(ratio(&random(64 * 1024)), "1.0011");
    assert_eq!(deflate::compress(&[0u8; 64 * 1024]).unwrap().len(), 79);
}

#[test]
fn one_shot_is_one_block() {
    let data = english(200_000);
    assert_eq!(
        deflate::compress(&data).unwrap(),
        encoded(EncodeOptions::new().buffer_all_input(), &data)
    );
}
