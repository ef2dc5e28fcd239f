//! CRC-32 checksums.

use noflate::crc32::Crc32;

fn checksum(data: &[u8]) -> u32 {
    noflate::crc32::crc32(data)
}

#[test]
fn crc32_known_vectors() {
    // Per the POSIX cksum / cksum -a crc32 standard vectors.
    assert_eq!(checksum(b""), 0);
    assert_eq!(checksum(b"a"), 0xE8B7_BE43);
    assert_eq!(
        checksum(b"The quick brown fox jumps over the lazy dog"),
        0x414F_A339
    );
}

#[test]
fn crc32_streaming_equals_one_shot() {
    let input: Vec<u8> = (0..10_000).map(|i| (i % 251) as u8).collect();
    let one_shot = checksum(&input);
    let mut c = Crc32::new();
    for chunk in input.chunks(37) {
        c.update(chunk);
    }
    assert_eq!(c.value(), one_shot);
}

#[test]
fn crc32_matches_reference_crate() {
    let input: Vec<u8> = (0..1_000_000).map(|i| (i % 251) as u8).collect();
    let ours = checksum(&input);
    let reference = crc32fast::hash(&input);
    assert_eq!(ours, reference);
}

#[test]
fn slice_by_8_matches_byte_at_a_time_for_various_lengths() {
    let data: Vec<u8> = (0..100).collect();
    for len in 0..=data.len() {
        let mut slow = Crc32::new();
        for &b in &data[..len] {
            slow.update(std::slice::from_ref(&b));
        }
        let fast = checksum(&data[..len]);
        assert_eq!(slow.value(), fast, "len={len}");
    }
}
