//! Reading and writing bits.

use noflate::bit::{BitReader, BitWriter};

#[test]
fn writer_basic() {
    let mut out = Vec::new();
    let mut w = BitWriter::new(&mut out);
    w.write_bits(3, 0b101);
    w.write_bits(5, 0b10011);
    w.finish();
    // Bits LSB-first: first write fills bits 0..3 (0b101), then bits
    // 3..8 (0b10011), combining to byte 0b10011_101 = 0x9D.
    assert_eq!(out, vec![0x9D]);
}

#[test]
fn writer_multibyte() {
    let mut out = Vec::new();
    let mut w = BitWriter::new(&mut out);
    w.write_bits(16, 0xABCD);
    w.finish();
    assert_eq!(out, vec![0xCD, 0xAB]);
}

#[test]
fn reader_roundtrip_with_writer() {
    let mut out = Vec::new();
    let mut w = BitWriter::new(&mut out);
    w.write_bits(1, 1);
    w.write_bits(3, 0b010);
    w.write_bits(5, 0b11001);
    w.write_bits(7, 0b0110110);
    w.finish();

    let mut r = BitReader::new(&out);
    assert_eq!(r.read_bits(1).unwrap(), 1);
    assert_eq!(r.read_bits(3).unwrap(), 0b010);
    assert_eq!(r.read_bits(5).unwrap(), 0b11001);
    assert_eq!(r.read_bits(7).unwrap(), 0b0110110);
}

#[test]
fn reader_eof_errors() {
    let mut r = BitReader::new(&[0x01]);
    r.read_bits(8).unwrap();
    assert!(r.read_bits(1).is_err());
}

#[test]
fn reader_snapshot_restore() {
    let data = [0xAB, 0xCD, 0xEF];
    let mut r = BitReader::new(&data);
    let snap = r.snapshot();
    assert_eq!(r.read_bits(4).unwrap(), 0xB);
    assert_eq!(r.read_bits(4).unwrap(), 0xA);
    r.restore(snap);
    assert_eq!(r.read_bits(8).unwrap(), 0xAB);
    assert_eq!(r.read_bits(8).unwrap(), 0xCD);
}

#[test]
fn align_to_byte_discards_fraction() {
    let data = [0x34, 0x12];
    let mut r = BitReader::new(&data);
    r.read_bits(4).unwrap();
    r.align_to_byte();
    assert_eq!(r.read_bytes(1).unwrap(), &[0x12]);
}

#[test]
fn committed_bytes_counts_loaded_bytes() {
    let data = [0xAA, 0xBB, 0xCC];
    let mut r = BitReader::new(&data);
    assert_eq!(r.committed_bytes(), 0);
    r.read_bits(4).unwrap();
    // Byte 0 was loaded into the buffer even though only 4 bits were
    // consumed; the outer caller commits the whole byte and keeps the
    // remaining 4 bits via `residual_bit_buffer`.
    assert_eq!(r.committed_bytes(), 1);
    r.read_bits(4).unwrap();
    assert_eq!(r.committed_bytes(), 1);
    r.read_bits(1).unwrap();
    assert_eq!(r.committed_bytes(), 2);
}

#[test]
fn available_bits() {
    let data = [0x00, 0x00];
    let mut r = BitReader::new(&data);
    assert_eq!(r.available_bits(), 16);
    r.read_bits(3).unwrap();
    assert_eq!(r.available_bits(), 13);
}
