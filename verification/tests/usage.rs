//! How the library is meant to be used.

use noflate::{deflate, gzip, zlib, Error, Format};

#[test]
fn one_shot_deflate() -> Result<(), Error> {
    let input = b"Hello, DEFLATE!";
    let compressed = deflate::compress(input)?;
    assert_eq!(deflate::decompress(&compressed)?, input);
    Ok(())
}

#[test]
fn streaming_encoder() -> Result<(), Error> {
    let mut encoder = deflate::Encoder::new();
    encoder.feed(b"Hello, ")?;
    encoder.feed(b"world!")?;
    encoder.finish()?;
    let compressed = encoder.output().to_vec();
    encoder.advance(compressed.len());
    assert!(encoder.is_finished());
    assert_eq!(deflate::decompress(&compressed)?, b"Hello, world!");
    Ok(())
}

#[test]
fn streaming_decoder() -> Result<(), Error> {
    let compressed = deflate::compress(b"hello")?;
    let mut decoder = deflate::Decoder::new();
    decoder.feed(&compressed)?;
    let out = decoder.output().to_vec();
    decoder.advance(out.len());
    assert!(decoder.is_finished());
    assert_eq!(out, b"hello");
    Ok(())
}

#[test]
fn one_shot_containers() -> Result<(), Error> {
    let gz = gzip::compress(b"hello world")?;
    assert_eq!(gzip::decompress(&gz)?, b"hello world");
    let zl = zlib::compress(b"hello world")?;
    assert_eq!(zlib::decompress(&zl)?, b"hello world");
    Ok(())
}

#[test]
fn decompress_what_was_detected() -> Result<(), Error> {
    for stream in [
        deflate::compress(b"payload")?,
        gzip::compress(b"payload")?,
        zlib::compress(b"payload")?,
    ] {
        let out = match Format::detect(&stream) {
            Some(Format::Gzip) => gzip::decompress(&stream)?,
            Some(Format::Zlib) => zlib::decompress(&stream)?,
            Some(Format::Deflate) => deflate::decompress(&stream)?,
            None => panic!("too short"),
        };
        assert_eq!(out, b"payload");
    }
    Ok(())
}

#[test]
fn messages_over_one_stream() -> Result<(), Error> {
    // The four bytes that a flush ends with are not sent.
    let mut encoder = deflate::Encoder::new();
    let mut decoder = deflate::Decoder::new();
    for message in [&b"first message"[..], b"second message", b""] {
        encoder.feed(message)?;
        encoder.sync_flush()?;
        let mut frame = encoder.output().to_vec();
        encoder.advance(frame.len());
        encoder.reset_history();
        assert_eq!(frame.split_off(frame.len() - 4), [0x00, 0x00, 0xFF, 0xFF]);

        decoder.feed(&frame)?;
        decoder.feed(&[0x00, 0x00, 0xFF, 0xFF])?;
        assert_eq!(decoder.output(), message);
        decoder.advance(message.len());
    }
    Ok(())
}

#[test]
fn whatever_decodes_can_be_encoded_again() -> Result<(), Error> {
    // Valid streams with a byte changed, and bytes at random.
    let mut state: u32 = 12345;
    let mut decoded_some = 0;
    for round in 0..3000 {
        state = state.wrapping_mul(1_664_525).wrapping_add(1_013_904_223);
        let mut data = deflate::compress(b"abcabcabcabc, and so on")?;
        if round % 2 == 0 {
            let at = (state >> 8) as usize % data.len();
            data[at] ^= 1 << (state >> 29);
        } else {
            data = state.to_le_bytes().to_vec();
        }
        if let Ok(decoded) = deflate::decompress(&data) {
            decoded_some += 1;
            assert_eq!(
                deflate::decompress(&deflate::compress(&decoded)?)?,
                decoded
            );
            assert_eq!(gzip::decompress(&gzip::compress(&decoded)?)?, decoded);
            assert_eq!(zlib::decompress(&zlib::compress(&decoded)?)?, decoded);
        }
        // These may be refused, but nothing worse.
        let _ = gzip::decompress(&data);
        let _ = zlib::decompress(&data);
    }
    assert!(decoded_some > 0);
    Ok(())
}

#[test]
fn options_are_compared_by_kind_and_size() {
    let options = || deflate::EncodeOptions::new().max_block_input_bytes(100);
    assert_eq!(options(), options().clone());
    assert_eq!(options().stored().fixed_huffman(), options().fixed_huffman());
    assert_ne!(options().stored(), options());
    assert_ne!(options().buffer_all_input(), options());
    assert_ne!(options().max_block_input_bytes(101), options());
}

#[test]
fn results_have_an_alias() {
    let packed: noflate::Result<Vec<u8>> = gzip::compress(b"data");
    let back: noflate::Result<Vec<u8>> = packed.and_then(|bytes| gzip::decompress(&bytes));
    assert_eq!(back, Ok(b"data".to_vec()));
}
