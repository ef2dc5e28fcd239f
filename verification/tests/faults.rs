//! What each fault of a stream is reported as.

use noflate::bit::{BitReader, BitWriter};
use noflate::deflate::{self, Decoder, Encoder};
use noflate::huffman::{HuffmanDecoder, HuffmanEncoder};
use noflate::{gzip, zlib, Error};

fn invalid(message: &'static str) -> Error {
    Error::InvalidData(message.into())
}

fn unsupported(message: &'static str) -> Error {
    Error::Unsupported(message.into())
}

/// The bytes of some fields, each given by its width and its value.
fn packed(fields: &[(u8, u16)]) -> Vec<u8> {
    let mut bytes = Vec::new();
    let mut w = BitWriter::new(&mut bytes);
    for &(width, value) in fields {
        w.write_bits(width, value);
    }
    w.finish();
    bytes
}

/// The start of a dynamic block: its sizes, and the widths of the code-length
/// alphabet in the order in which they are sent.
fn dynamic_start(hlit: u16, hdist: u16, widths: &[u16]) -> Vec<(u8, u16)> {
    let mut fields = vec![
        (1, 1),
        (2, 2),
        (5, hlit - 257),
        (5, hdist - 1),
        (4, widths.len() as u16 - 4),
    ];
    for &width in widths {
        fields.push((3, width));
    }
    fields
}

#[test]
fn texts_start_with_the_kind() {
    assert_eq!(
        invalid("reserved DEFLATE block type").to_string(),
        "invalid data: reserved DEFLATE block type"
    );
    assert_eq!(
        unsupported("zlib preset dictionary not supported").to_string(),
        "unsupported: zlib preset dictionary not supported"
    );
    let e = invalid("message");
    assert_eq!(e.clone(), e);
    assert_ne!(e, unsupported("message"));
}

#[test]
fn reserved_block_type() {
    for first in [0x06u8, 0x07] {
        assert_eq!(
            deflate::decompress(&[first]),
            Err(invalid("reserved DEFLATE block type"))
        );
    }
}

#[test]
fn stored_length_is_not_confirmed() {
    let e = deflate::decompress(&[0x01, 0x05, 0x00, 0xF0, 0xFF, 1, 2, 3, 4, 5]).unwrap_err();
    assert_eq!(
        e.to_string(),
        "invalid data: LEN=5 is not the one's complement of NLEN=65520"
    );
}

#[test]
fn stored_block_is_cut_off() {
    let whole = [0x01u8, 0x02, 0x00, 0xFD, 0xFF, 7, 8];
    for n in 0..whole.len() {
        assert_eq!(
            deflate::decompress(&whole[..n]),
            Err(invalid("deflate stream ended before the final block")),
            "after {n} bytes"
        );
    }
    assert_eq!(deflate::decompress(&whole).unwrap(), [7, 8]);
}

#[test]
fn too_many_distance_codes() {
    let data = packed(&[(1, 1), (2, 2), (5, 0), (5, 30), (4, 0)]);
    let e = deflate::decompress(&data).unwrap_err();
    assert_eq!(e.to_string(), "invalid data: HDIST is too large: 31");
}

#[test]
fn code_length_alphabet_is_empty() {
    let data = packed(&dynamic_start(257, 1, &[0, 0, 0, 0]));
    assert_eq!(
        deflate::decompress(&data),
        Err(invalid("huffman table is empty"))
    );
}

#[test]
fn code_length_alphabet_is_overfull() {
    let data = packed(&dynamic_start(257, 1, &[1, 1, 1, 0]));
    assert_eq!(
        deflate::decompress(&data),
        Err(invalid("conflicting huffman codes"))
    );
}

#[test]
fn repeat_of_nothing() {
    // Symbols 16 and 17 have one bit each; the first one is 16.
    let mut fields = dynamic_start(257, 1, &[1, 1, 0, 0]);
    fields.push((1, 0));
    fields.push((2, 0));
    assert_eq!(
        deflate::decompress(&packed(&fields)),
        Err(invalid("repeat code 16 without a previous code"))
    );
}

#[test]
fn more_code_lengths_than_announced() {
    // Symbols 16 and 18 have one bit each; 18 with all bits set says 138 zeros,
    // twice that is more than 257 + 1.
    let mut fields = dynamic_start(257, 1, &[1, 0, 1, 0]);
    for _ in 0..2 {
        fields.push((1, 1));
        fields.push((7, 127));
    }
    assert_eq!(
        deflate::decompress(&packed(&fields)),
        Err(invalid(
            "dynamic huffman code lengths exceed the announced table size"
        ))
    );
}

#[test]
fn code_that_stands_for_nothing() {
    // Only symbol 18 has a code, of two bits, and these bits are another one.
    let mut fields = dynamic_start(257, 1, &[0, 0, 2, 0]);
    fields.push((2, 3));
    fields.push((16, 0));
    assert_eq!(
        deflate::decompress(&packed(&fields)),
        Err(invalid("invalid huffman coded stream"))
    );
}

#[test]
fn length_symbol_without_a_meaning() {
    // The fixed code of symbol 286 is 11000110, sent from its first bit.
    let data = packed(&[(1, 1), (2, 1), (8, 0b0110_0011), (16, 0)]);
    assert_eq!(
        deflate::decompress(&data).unwrap_err().to_string(),
        "invalid data: literal/length symbol 286 must not appear in compressed data"
    );
}

#[test]
fn reference_to_before_the_start() {
    // Symbol 257 (length 3) is 0000001, distance symbol 0 (distance 1) is 00000.
    let data = packed(&[(1, 1), (2, 1), (7, 0b100_0000), (5, 0), (16, 0)]);
    assert_eq!(
        deflate::decompress(&data).unwrap_err().to_string(),
        "invalid data: too long backward reference: output_len=0, distance=1"
    );
}

#[test]
fn reference_that_overlaps_itself() {
    // The literal 'a' (0x61) is 10010001; then length 3 at distance 1.
    let data = packed(&[
        (1, 1),
        (2, 1),
        (8, 0b1000_1001),
        (7, 0b100_0000),
        (5, 0),
        (7, 0),
    ]);
    assert_eq!(deflate::decompress(&data).unwrap(), b"aaaa");
}

#[test]
fn bytes_behind_the_final_block() {
    let mut d = Decoder::new();
    d.feed(&[0x03, 0x00, 0xAA, 0xBB]).unwrap();
    assert!(d.is_finished());
    assert_eq!(d.remaining_input(), &[0xAA, 0xBB]);
    assert_eq!(d.feed(&[]), Ok(()));
    assert_eq!(
        d.feed(&[1]),
        Err(invalid("bytes fed after deflate stream end"))
    );
    assert_eq!(deflate::decompress(&[0x03, 0x00, 0xAA, 0xBB]).unwrap(), b"");
}

#[test]
fn encoder_after_its_end() {
    let mut e = Encoder::new();
    e.feed(b"abc").unwrap();
    e.finish().unwrap();
    let before = e.output().to_vec();
    assert_eq!(e.finish(), Ok(()));
    assert_eq!(e.feed(b"d"), Err(invalid("bytes fed after encoder finish")));
    assert_eq!(
        e.sync_flush(),
        Err(invalid("sync_flush called after encoder finish"))
    );
    assert_eq!(e.output(), before);

    let mut e = gzip::Encoder::new();
    e.finish().unwrap();
    assert_eq!(
        e.feed(b"d"),
        Err(invalid("bytes fed after gzip encoder finish"))
    );
    let mut e = zlib::Encoder::new();
    e.finish().unwrap();
    assert_eq!(
        e.feed(b"d"),
        Err(invalid("bytes fed after zlib encoder finish"))
    );
}

#[test]
fn tables_and_readers() {
    assert_eq!(
        HuffmanEncoder::from_code_lengths(&[1, 16]).err(),
        Some(invalid("huffman code length exceeds 15 bits"))
    );
    assert_eq!(
        HuffmanDecoder::from_code_lengths(&[0, 0], None, None).err(),
        Some(invalid("huffman table is empty"))
    );
    assert_eq!(
        HuffmanDecoder::from_code_lengths(&[16, 1], None, None).err(),
        Some(invalid("huffman table uses too many bits"))
    );
    assert_eq!(
        HuffmanDecoder::from_code_lengths(&[1, 1, 1], None, None).err(),
        Some(invalid("conflicting huffman codes"))
    );
    let mut r = BitReader::new(&[0xFF]);
    assert_eq!(
        r.read_bits(9),
        Err(invalid("unexpected end of deflate stream"))
    );
    assert_eq!(r.read_bits(8), Ok(0xFF));
    assert_eq!(
        r.read_bit(),
        Err(invalid("unexpected end of deflate stream"))
    );
}

#[test]
fn zlib_headers() {
    let cases: [([u8; 2], Error); 5] = [
        (
            [0x77, 0x85],
            unsupported("zlib compression method 7 not supported (only deflate=8)"),
        ),
        (
            [0x88, 0x1C],
            unsupported("zlib window size code 8 not supported (max 7)"),
        ),
        (
            [0x78, 0xBB],
            unsupported("zlib preset dictionary not supported"),
        ),
        (
            [0x78, 0x9D],
            invalid("zlib header FCHECK validation failed"),
        ),
        (
            [0x68, 0x9C],
            invalid("zlib header FCHECK validation failed"),
        ),
    ];
    for (header, expected) in cases {
        assert_eq!(zlib::decompress(&header), Err(expected.clone()));
        let mut d = zlib::Decoder::new();
        d.feed(&header[..1]).unwrap();
        assert_eq!(d.feed(&header[1..]), Err(expected));
    }
}

#[test]
fn zlib_trailers() {
    let good = zlib::compress(b"payload").unwrap();
    let n = good.len();
    for i in n - 4..n {
        let mut bad = good.clone();
        bad[i] ^= 0x10;
        assert_eq!(
            zlib::decompress(&bad),
            Err(invalid("adler-32 checksum mismatch in zlib trailer"))
        );
    }
    assert_eq!(
        zlib::decompress(&good[..n - 1]),
        Err(invalid("zlib stream ended before the trailer"))
    );
    let mut long = good.clone();
    long.push(0);
    assert_eq!(
        zlib::decompress(&long),
        Err(invalid("bytes fed after zlib stream end"))
    );
    let mut d = zlib::Decoder::new();
    d.feed(&good).unwrap();
    assert_eq!(d.feed(&[]), Ok(()));
    assert_eq!(
        d.feed(&[0]),
        Err(invalid("bytes fed after zlib stream end"))
    );
}

#[test]
fn gzip_headers() {
    let mut wrong = gzip::compress(b"x").unwrap();
    wrong[0] = 0x1E;
    assert_eq!(
        gzip::decompress(&wrong),
        Err(invalid("gzip magic bytes not found"))
    );
    let mut wrong = gzip::compress(b"x").unwrap();
    wrong[2] = 9;
    assert_eq!(
        gzip::decompress(&wrong),
        Err(unsupported(
            "gzip compression method 9 not supported (only deflate=8)"
        ))
    );
}

#[test]
fn gzip_trailers() {
    let good = gzip::compress(b"payload").unwrap();
    let n = good.len();
    for i in n - 8..n - 4 {
        let mut bad = good.clone();
        bad[i] ^= 0x10;
        assert_eq!(
            gzip::decompress(&bad),
            Err(invalid("crc-32 checksum mismatch in gzip trailer"))
        );
    }
    for i in n - 4..n {
        let mut bad = good.clone();
        bad[i] ^= 0x10;
        assert_eq!(
            gzip::decompress(&bad),
            Err(invalid("isize mismatch in gzip trailer"))
        );
    }
    assert_eq!(
        gzip::decompress(&good[..n - 1]),
        Err(invalid("gzip stream ended before the trailer"))
    );
    let mut long = good.clone();
    long.push(0);
    assert_eq!(
        gzip::decompress(&long),
        Err(invalid("bytes fed after gzip stream end"))
    );
}

#[test]
fn faults_of_the_stream_within_a_container() {
    assert_eq!(
        zlib::decompress(&[0x78, 0x9C, 0x07]),
        Err(invalid("reserved DEFLATE block type"))
    );
    let mut stream = gzip::compress(b"").unwrap()[..10].to_vec();
    stream.push(0x07);
    assert_eq!(
        gzip::decompress(&stream),
        Err(invalid("reserved DEFLATE block type"))
    );
}

#[test]
fn a_failed_decoder_keeps_its_error() {
    let expected = invalid("reserved DEFLATE block type");
    let mut d = Decoder::new();
    d.feed(&[0x00, 0x02, 0x00, 0xFD, 0xFF, 7, 8]).unwrap();
    assert_eq!(d.feed(&[0x07]), Err(expected.clone()));
    for more in [&[][..], &[0x03, 0x00], &[0xFF; 100]] {
        assert_eq!(d.feed(more), Err(expected.clone()));
        assert!(!d.is_finished());
        assert_eq!(d.output(), [7, 8]);
        assert_eq!(d.remaining_input(), [0x07]);
    }
    let mut out = Vec::new();
    assert_eq!(d.decode_into(&[0x03, 0x00], &mut out), Err(expected.clone()));
    assert!(out.is_empty());
    d.advance(2);
    assert_eq!(d.feed(&[]), Err(expected));
}

#[test]
fn a_failed_container_keeps_its_error() {
    let reserved = invalid("reserved DEFLATE block type");
    let mut d = zlib::Decoder::new();
    assert_eq!(d.feed(&[0x78, 0x9C, 0x07]), Err(reserved.clone()));
    assert_eq!(d.feed(&[0x03, 0x00]), Err(reserved.clone()));
    assert_eq!(d.feed(&[]), Ok(()));
    assert!(!d.is_finished());

    let mut d = gzip::Decoder::new();
    let mut stream = gzip::compress(b"").unwrap()[..10].to_vec();
    stream.push(0x07);
    assert_eq!(d.feed(&stream), Err(reserved.clone()));
    assert_eq!(d.feed(&[0x03, 0x00]), Err(reserved));
    assert!(!d.is_finished());

    // A bad trailer, and a bad header.
    let mut bad = gzip::compress(b"payload").unwrap();
    let n = bad.len();
    bad[n - 1] ^= 1;
    let mut d = gzip::Decoder::new();
    let mismatch = invalid("isize mismatch in gzip trailer");
    assert_eq!(d.feed(&bad), Err(mismatch.clone()));
    assert_eq!(d.feed(&[0]), Err(mismatch.clone()));
    assert_eq!(d.feed(&[0, 0, 0]), Err(mismatch));
    assert_eq!(d.feed(&[]), Ok(()));
    assert!(!d.is_finished());
    assert_eq!(d.output(), b"payload");

    let mut d = zlib::Decoder::new();
    let check = invalid("zlib header FCHECK validation failed");
    assert_eq!(d.feed(&[0x78, 0x9D]), Err(check.clone()));
    assert_eq!(d.feed(&[0x00]), Err(check));
}

#[test]
fn a_finished_container_was_fed_one_whole_stream() {
    // The parts of a stream, and no other bytes in any place.
    let body = deflate::compress(b"payload").unwrap();
    let mut whole = gzip::compress(b"").unwrap()[..10].to_vec();
    whole.extend_from_slice(&body);
    whole.extend_from_slice(&noflate::crc32(b"payload").to_le_bytes());
    whole.extend_from_slice(&7u32.to_le_bytes());
    assert_eq!(gzip::decompress(&whole).unwrap(), b"payload");
    for at in 10..=whole.len() {
        let mut longer = whole.clone();
        longer.insert(at, 0x55);
        assert!(gzip::decompress(&longer).is_err());
    }
    let mut whole = vec![0x78, 0x9C];
    whole.extend_from_slice(&body);
    whole.extend_from_slice(&noflate::adler32(b"payload").to_be_bytes());
    assert_eq!(zlib::decompress(&whole).unwrap(), b"payload");
    for at in 0..=whole.len() {
        let mut longer = whole.clone();
        longer.insert(at, 0x55);
        assert!(zlib::decompress(&longer).is_err());
    }
}

#[test]
fn gzip_header_with_every_field() {
    // Extra field, name, comment and header checksum, in this order.
    let plain = gzip::compress(b"payload").unwrap();
    let mut stream = plain[..10].to_vec();
    stream[3] = gzip::FEXTRA | gzip::FNAME | gzip::FCOMMENT | gzip::FHCRC;
    stream.extend_from_slice(&[3, 0, 9, 9, 9]);
    stream.extend_from_slice(b"name\0");
    stream.extend_from_slice(b"comment\0");
    stream.extend_from_slice(&[0xAB, 0xCD]);
    stream.extend_from_slice(&plain[10..]);
    assert_eq!(gzip::decompress(&stream).unwrap(), b"payload");

    let mut d = gzip::Decoder::new();
    for &byte in &stream {
        d.feed(&[byte]).unwrap();
    }
    assert!(d.is_finished());
    assert_eq!(d.output(), b"payload");
}

#[test]
fn gzip_header_with_an_empty_extra_field() {
    let plain = gzip::compress(b"payload").unwrap();
    let mut stream = plain[..10].to_vec();
    stream[3] = gzip::FEXTRA;
    stream.extend_from_slice(&[0, 0]);
    stream.extend_from_slice(&plain[10..]);
    assert_eq!(gzip::decompress(&stream).unwrap(), b"payload");
}
