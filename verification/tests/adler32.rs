//! Adler-32 checksums.

use noflate::adler32::Adler32;

fn checksum(data: &[u8]) -> u32 {
    noflate::adler32::adler32(data)
}

#[test]
fn adler32_known_vectors() {
    assert_eq!(checksum(b""), 1);
    assert_eq!(checksum(b"a"), 0x0062_0062);
    // "Wikipedia" per Wikipedia's Adler-32 article.
    assert_eq!(checksum(b"Wikipedia"), 0x11E6_0398);
}

#[test]
fn adler32_streaming_equals_one_shot() {
    let input: Vec<u8> = (0..10_000).map(|i| (i % 251) as u8).collect();
    let one_shot = checksum(&input);
    let mut a = Adler32::new();
    for chunk in input.chunks(37) {
        a.update(chunk);
    }
    assert_eq!(a.value(), one_shot);
}

#[test]
fn adler32_matches_reference_crate() {
    let input: Vec<u8> = (0..1_000_000).map(|i| (i % 251) as u8).collect();
    let ours = checksum(&input);
    let reference = adler32::adler32(&input[..]).unwrap();
    assert_eq!(ours, reference);
}
