//! What holds over several calls, on given values.

use noflate::adler32::{adler32, Adler32};
use noflate::crc32::{crc32, Crc32};
use noflate::decode::MAX_INTERNAL_BUFFER;
use noflate::deflate::{self, Decoder, EncodeOptions, Encoder};
use noflate::lz77::{Lz77Code, MatchFinder};
use noflate::package_merge::length_limited_code_lengths;
use noflate::{gzip, zlib};

fn drained(e: &mut Encoder) -> Vec<u8> {
    let out = e.output().to_vec();
    e.advance(out.len());
    out
}

fn text(n: usize) -> Vec<u8> {
    (0..n)
        .map(|i| b"a few words that come again, and again"[(i * i + i / 7) % 38])
        .collect()
}

fn each_kind() -> [EncodeOptions; 3] {
    [
        EncodeOptions::new(),
        EncodeOptions::new().fixed_huffman(),
        EncodeOptions::new().stored(),
    ]
}

#[test]
fn whatever_is_fed_comes_back() {
    for options in each_kind() {
        let mut e = Encoder::with_options(options.max_block_input_bytes(1000));
        let mut fed = Vec::new();
        for n in [0usize, 1, 999, 1000, 2500] {
            let data = text(n);
            e.feed(&data).unwrap();
            fed.extend_from_slice(&data);
            e.sync_flush().unwrap();
            e.reset_history();
        }
        e.finish().unwrap();
        let mut stream = drained(&mut e);
        assert!(e.is_finished());
        assert_eq!(deflate::decompress(&stream).unwrap(), fed);
        // Bytes that follow the stream are left alone.
        stream.extend_from_slice(b"more");
        let mut d = Decoder::new();
        d.feed(&stream).unwrap();
        assert!(d.is_finished());
        assert_eq!(d.output(), fed);
        assert_eq!(d.remaining_input(), b"more");
    }
}

#[test]
fn cutting_the_input_makes_no_difference() {
    let data = text(5000);
    let stream = deflate::compress(&data).unwrap();
    for size in [1usize, 2, 3, 7, 64, 1000] {
        let mut d = Decoder::new();
        for piece in stream.chunks(size) {
            d.feed(piece).unwrap();
        }
        assert!(d.is_finished());
        assert_eq!(d.output(), data);
        assert_eq!(d.remaining_input(), b"");
    }
}

#[test]
fn cutting_an_invalid_stream_gives_the_same_error() {
    let mut stream = deflate::compress(&text(500)).unwrap();
    stream.truncate(stream.len() / 2);
    stream.extend_from_slice(&[0xFF; 40]);
    let whole = deflate::decompress(&stream);
    let mut d = Decoder::new();
    let mut pieces = Ok(());
    for &byte in &stream {
        if pieces.is_ok() && !d.is_finished() {
            pieces = d.feed(&[byte]);
        }
    }
    assert_eq!(pieces.err(), whole.err());
}

#[test]
fn what_was_decoded_stays() {
    let data = text(3000);
    let stream = deflate::compress(&data).unwrap();
    let mut d = Decoder::new();
    let mut before = Vec::new();
    for piece in stream.chunks(10) {
        d.feed(piece).unwrap();
        assert!(d.output().starts_with(&before));
        before = d.output().to_vec();
    }
    assert_eq!(before, data);
}

#[test]
fn a_flush_makes_everything_readable() {
    for options in each_kind() {
        let mut e = Encoder::with_options(options);
        let mut d = Decoder::new();
        for n in [5usize, 0, 300, 70_000] {
            let message = text(n);
            e.feed(&message).unwrap();
            e.sync_flush().unwrap();
            let frame = drained(&mut e);
            assert!(frame.ends_with(&[0x00, 0x00, 0xFF, 0xFF]));
            d.feed(&frame).unwrap();
            let mut got = Vec::new();
            while !d.output().is_empty() {
                got.extend_from_slice(d.output());
                d.advance(d.output().len());
                d.feed(&[]).unwrap();
            }
            assert_eq!(got, message);
            assert!(!d.is_finished());
        }
    }
}

#[test]
fn blocks_do_not_depend_on_what_was_written_before() {
    for options in each_kind() {
        let mut used = Encoder::with_options(options.clone());
        used.feed(&text(2000)).unwrap();
        used.sync_flush().unwrap();
        drained(&mut used);
        let mut new = Encoder::with_options(options);
        for e in [&mut used, &mut new] {
            e.feed(&text(900)).unwrap();
            e.sync_flush().unwrap();
        }
        let frame = drained(&mut used);
        assert_eq!(frame, drained(&mut new));
        // So another decoder can read it.
        let mut d = Decoder::new();
        d.feed(&frame).unwrap();
        assert_eq!(d.output(), text(900));
    }
}

#[test]
fn output_that_waits_is_limited() {
    let zeros = vec![0u8; 1_000_000];
    let stream = deflate::compress(&zeros).unwrap();
    let mut d = Decoder::new();
    d.feed(&stream).unwrap();
    assert!(d.output().len() >= MAX_INTERNAL_BUFFER);
    assert!(d.output().len() < MAX_INTERNAL_BUFFER + 258);
    assert!(!d.is_finished());
    let mut total = 0;
    while !d.output().is_empty() {
        let n = d.output().len();
        assert!(n < MAX_INTERNAL_BUFFER + 258);
        total += n;
        d.advance(n);
        d.feed(&[]).unwrap();
    }
    assert_eq!(total, zeros.len());
    assert!(d.is_finished());
}

#[test]
fn stored_output_that_waits_is_limited() {
    let data = text(300_000);
    let options = EncodeOptions::new().stored().buffer_all_input();
    let mut e = Encoder::with_options(options);
    e.feed(&data).unwrap();
    e.finish().unwrap();
    let stream = drained(&mut e);
    let mut d = Decoder::new();
    let mut got = Vec::new();
    d.feed(&stream).unwrap();
    while !d.output().is_empty() {
        assert!(d.output().len() <= MAX_INTERNAL_BUFFER);
        // Nothing is added before something is taken.
        let waiting = d.output().len();
        d.feed(&[]).unwrap();
        assert!(waiting < MAX_INTERNAL_BUFFER || d.output().len() == waiting);
        got.extend_from_slice(d.output());
        d.advance(d.output().len());
        d.feed(&[]).unwrap();
    }
    assert!(d.is_finished());
    assert_eq!(got, data);
}

#[test]
fn matches_and_stored_bytes_share_the_limit() {
    // Zeros in a block of matches, up to the cap, and stored bytes behind it.
    let mut e = Encoder::with_options(EncodeOptions::new().max_block_input_bytes(65_700));
    e.feed(&[0u8; 65_700]).unwrap();
    let mut stream = drained(&mut e);
    e.sync_flush().unwrap();
    stream.extend_from_slice(&drained(&mut e));
    stream.extend_from_slice(&[0x01, 0xE8, 0x03, 0x17, 0xFC]);
    stream.extend_from_slice(&[7u8; 1000]);
    let mut d = Decoder::new();
    d.feed(&stream).unwrap();
    assert!(d.output().len() <= MAX_INTERNAL_BUFFER + 258);
    let mut total = 0;
    while !d.output().is_empty() {
        total += d.output().len();
        d.advance(d.output().len());
        d.feed(&[]).unwrap();
    }
    assert!(d.is_finished());
    assert_eq!(total, 66_700);
}

#[test]
fn decoding_into_a_vector_has_no_limit() {
    let zeros = vec![0u8; 300_000];
    let stream = deflate::compress(&zeros).unwrap();
    let mut d = Decoder::new();
    let mut out = vec![1u8, 2];
    d.decode_into(&stream, &mut out).unwrap();
    assert!(d.is_finished());
    assert_eq!(out[..2], [1, 2]);
    assert_eq!(out[2..], zeros);
    assert!(d.output().is_empty());
}

#[test]
fn containers_take_large_bodies_at_once() {
    let data = vec![7u8; 400_000];
    let stream = gzip::compress(&data).unwrap();
    let mut d = gzip::Decoder::new();
    d.feed(&stream).unwrap();
    assert!(d.is_finished());
    assert_eq!(d.output(), data);
    let stream = zlib::compress(&data).unwrap();
    let mut d = zlib::Decoder::new();
    d.feed(&stream).unwrap();
    assert!(d.is_finished());
    assert_eq!(d.output(), data);
}

#[test]
fn containers_with_options() {
    for options in each_kind() {
        let mut e = gzip::Encoder::with_options(options.clone());
        e.feed(b"some ").unwrap();
        e.feed(b"bytes").unwrap();
        e.finish().unwrap();
        assert_eq!(gzip::decompress(e.output()).unwrap(), b"some bytes");
        let mut e = zlib::Encoder::with_options(options);
        e.feed(b"some ").unwrap();
        e.feed(b"bytes").unwrap();
        e.finish().unwrap();
        assert_eq!(zlib::decompress(e.output()).unwrap(), b"some bytes");
    }
}

#[test]
fn checksums_of_parts() {
    let data = text(20_000);
    for cut in [0usize, 1, 15, 16, 17, 5552, 5553, 20_000] {
        let mut a = Adler32::new();
        a.update(&data[..cut]);
        a.update(&data[cut..]);
        assert_eq!(a.value(), adler32(&data));
        let mut c = Crc32::new();
        c.update(&data[..cut]);
        c.update(&data[cut..]);
        assert_eq!(c.value(), crc32(&data));
        assert_eq!(c.clone().value(), c.value());
        assert_eq!(a.clone().value(), a.value());
    }
}

#[test]
fn code_lengths_fill_the_code_space() {
    let cases: [(&[usize], u8); 5] = [
        (&[1, 1, 2, 3, 5, 8, 13, 21, 34, 55], 15),
        (&[1, 1, 2, 3, 5, 8, 13, 21, 34, 55], 5),
        (&[5, 0, 9, 0, 0, 1], 15),
        (&[1, 1], 1),
        (&[1_000_000, 1, 1, 1, 1, 1, 1, 1], 3),
    ];
    for (frequencies, max) in cases {
        let lengths = length_limited_code_lengths(frequencies, max);
        assert_eq!(lengths.len(), frequencies.len());
        let mut space = 0u32;
        for (&length, &frequency) in lengths.iter().zip(frequencies) {
            assert!(length <= max);
            assert_eq!(length > 0, frequency > 0);
            if length > 0 {
                space += 1 << (15 - length);
            }
        }
        assert_eq!(space, 1 << 15);
    }
    // Fibonacci numbers need one bit more for each.
    assert_eq!(
        length_limited_code_lengths(&[1, 1, 2, 3, 5], 15),
        [4, 4, 3, 2, 1]
    );
    assert_eq!(
        length_limited_code_lengths(&[1, 1, 2, 3, 5], 3),
        [3, 3, 2, 2, 2]
    );
    assert_eq!(length_limited_code_lengths(&[0, 3, 0], 15), [0, 1, 0]);
    assert_eq!(length_limited_code_lengths(&[0, 0], 15), [0, 0]);
}

/// The least cost of a code for these frequencies with widths of at most `max`,
/// found by trying all of them.
fn least_cost(frequencies: &[usize], max: u32, room: u32) -> Option<usize> {
    match frequencies.split_first() {
        None => Some(0),
        Some((&first, rest)) => (1..=max)
            .filter(|&width| 1 << (max - width) <= room)
            .filter_map(|width| {
                let others = least_cost(rest, max, room - (1 << (max - width)))?;
                Some(first * width as usize + others)
            })
            .min(),
    }
}

#[test]
fn no_code_is_shorter() {
    let cases: [(&[usize], u8); 6] = [
        (&[1, 1, 2, 3, 5], 15),
        (&[1, 1, 2, 3, 5], 3),
        (&[7, 1, 1, 9, 4, 2], 4),
        (&[7, 1, 1, 9, 4, 2], 3),
        (&[10, 10, 10], 2),
        (&[4], 5),
    ];
    for (frequencies, max) in cases {
        let lengths = length_limited_code_lengths(frequencies, max);
        let cost: usize = lengths
            .iter()
            .zip(frequencies)
            .map(|(&length, &frequency)| length as usize * frequency)
            .sum();
        // No code needs more bits than there are symbols.
        let max = u32::from(max).min(6);
        assert_eq!(Some(cost), least_cost(frequencies, max, 1 << max));
    }
}

#[test]
fn feeding_an_encoder_in_pieces() {
    let data = text(5000);
    for options in each_kind() {
        let options = options.max_block_input_bytes(700);
        let mut whole = Encoder::with_options(options.clone());
        whole.feed(&data).unwrap();
        for size in [1usize, 13, 700, 701, 4999] {
            let mut pieces = Encoder::with_options(options.clone());
            for piece in data.chunks(size) {
                pieces.feed(piece).unwrap();
            }
            assert_eq!(pieces.output(), whole.output());
        }
    }
    let mut whole = gzip::Encoder::new();
    let mut pieces = gzip::Encoder::new();
    whole.feed(&data).unwrap();
    for piece in data.chunks(100) {
        pieces.feed(piece).unwrap();
    }
    whole.finish().unwrap();
    pieces.finish().unwrap();
    assert_eq!(pieces.output(), whole.output());
}

#[test]
fn no_beginning_of_a_stream_is_an_error() {
    let stream = deflate::compress(&text(300)).unwrap();
    for n in 0..stream.len() {
        let mut d = Decoder::new();
        assert_eq!(d.feed(&stream[..n]), Ok(()));
        assert!(!d.is_finished());
    }
}

#[test]
fn tokens_stand_for_the_input() {
    let input = text(4000);
    let mut finder = MatchFinder::new();
    let mut symbols = Vec::new();
    // The second time, the tables hold what the first one left.
    for _ in 0..2 {
        finder.fill_symbols(&input, &mut symbols);
        let mut out: Vec<u8> = Vec::new();
        for symbol in &symbols {
            match *symbol {
                Lz77Code::Literal(byte) => out.push(byte),
                Lz77Code::Pointer { length, distance } => {
                    for _ in 0..length {
                        out.push(out[out.len() - distance as usize]);
                    }
                }
            }
        }
        assert_eq!(out, input);
    }
}

#[test]
fn buffers_of_encoders_are_compacted() {
    let chunk = vec![0xA5u8; 300_000];
    let mut e = Encoder::with_options(EncodeOptions::new().stored());
    let mut z = gzip::Encoder::with_options(EncodeOptions::new().stored());
    for _ in 0..10 {
        e.feed(&chunk).unwrap();
        z.feed(&chunk).unwrap();
        e.advance(e.output().len());
        z.advance(z.output().len());
        assert!(e.buffered_len() < noflate::encode::COMPACT_THRESHOLD);
        assert!(z.buffered_len() < noflate::gzip::COMPACT_THRESHOLD);
    }
}
