//! Huffman codes.

use noflate::bit::{BitReader, BitWriter};
use noflate::huffman::{HuffmanDecoder, HuffmanEncoder};
use noflate::package_merge::length_limited_code_lengths;
use noflate::symbol::{fixed_literal_code_lengths, END_OF_BLOCK};

#[test]
fn fixed_literal_table_roundtrip() {
    let lengths = fixed_literal_code_lengths();
    let enc = HuffmanEncoder::from_code_lengths(&lengths).unwrap();
    let dec = HuffmanDecoder::from_code_lengths(&lengths, None, Some(END_OF_BLOCK)).unwrap();

    let mut out = Vec::new();
    {
        let mut w = BitWriter::new(&mut out);
        for sym in 0u16..288 {
            if lengths[sym as usize] == 0 {
                continue;
            }
            enc.encode(&mut w, sym);
        }
        w.finish();
    }

    let mut r = BitReader::new(&out);
    for sym in 0u16..288 {
        if lengths[sym as usize] == 0 {
            continue;
        }
        assert_eq!(dec.decode(&mut r).unwrap(), sym);
    }
}

/// What a decoder reads of the symbols that an encoder writes.
fn read_back(lengths: &[u8], peek: Option<u8>, symbols: &[u16]) -> Vec<u16> {
    let enc = HuffmanEncoder::from_code_lengths(lengths).unwrap();
    let dec = HuffmanDecoder::from_code_lengths(lengths, peek, None).unwrap();
    let mut out = Vec::new();
    let mut w = BitWriter::new(&mut out);
    for &symbol in symbols {
        enc.encode(&mut w, symbol);
    }
    w.write_bits(15, 0);
    w.finish();
    let mut r = BitReader::new(&out);
    symbols.iter().map(|_| dec.decode(&mut r).unwrap()).collect()
}

#[test]
fn what_is_encoded_is_read_back() {
    let symbols = [3, 0, 0, 4, 1, 2, 3, 3, 0, 1];
    for peek in [None, Some(1), Some(3), Some(15)] {
        assert_eq!(read_back(&[1, 3, 3, 4, 5], peek, &symbols), symbols);
    }
    assert_eq!(read_back(&[1, 3, 3, 4, 5], None, &[]), []);
}

#[test]
fn wide_alphabets() {
    // Of a symbol there are eleven bits in the table.
    let mut lengths = vec![0u8; 5000];
    lengths[7] = 2;
    lengths[2047] = 2;
    assert_eq!(read_back(&lengths, None, &[2047, 7, 7, 2047]), [2047, 7, 7, 2047]);
    lengths[2050] = 2;
    assert_eq!(read_back(&lengths, None, &[2047, 2050, 7]), [2047, 2, 7]);
}

#[test]
fn empty_table_errors() {
    let lengths = [0u8; 5];
    assert!(HuffmanDecoder::from_code_lengths(&lengths, None, None).is_err());
}

#[test]
fn length_limited_never_exceeds_max() {
    let freqs = [10usize, 3, 2, 1, 1, 1, 1, 1, 1, 1];
    let lengths = length_limited_code_lengths(&freqs, 4);
    for &l in &lengths {
        assert!(l <= 4);
    }
}

#[test]
fn length_limited_all_used_symbols_get_codes() {
    let freqs = [5usize, 3, 2, 1];
    let lengths = length_limited_code_lengths(&freqs, 7);
    for (sym, &freq) in freqs.iter().enumerate() {
        if freq > 0 {
            assert!(lengths[sym] > 0, "symbol {sym} should have a code");
        }
    }
}
