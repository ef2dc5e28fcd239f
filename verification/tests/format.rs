//! Telling formats apart by their first bytes.

use noflate::{gzip, zlib, Format};

#[test]
fn too_short_to_tell() {
    assert_eq!(Format::detect(&[]), None);
    assert_eq!(Format::detect(&[0x1F]), None);
}

#[test]
fn gzip_by_its_magic_bytes() {
    assert_eq!(Format::detect(&[0x1F, 0x8B]), Some(Format::Gzip));
    assert_eq!(Format::detect(&[0x1F, 0x8C]), Some(Format::Deflate));
    let stream = gzip::compress(b"abc").unwrap();
    assert_eq!(Format::detect(&stream), Some(Format::Gzip));
}

#[test]
fn zlib_by_method_window_and_check() {
    assert_eq!(Format::detect(&[0x78, 0x9C]), Some(Format::Zlib));
    assert_eq!(Format::detect(&[0x78, 0x01]), Some(Format::Zlib));
    assert_eq!(Format::detect(&[0x78, 0x02]), Some(Format::Deflate));
    // The check passes, but the window would be too large.
    assert_eq!(Format::detect(&[0x88, 0x1C]), Some(Format::Deflate));
    assert_eq!((0x88 * 256 + 0x1C) % 31, 0);
    // The check passes, but the method is another one.
    assert_eq!(Format::detect(&[0x79, 0x18]), Some(Format::Deflate));
    assert_eq!((0x79 * 256 + 0x18) % 31, 0);
    let stream = zlib::compress(b"abc").unwrap();
    assert_eq!(Format::detect(&stream), Some(Format::Zlib));
}

#[test]
fn anything_else_is_deflate() {
    assert_eq!(Format::detect(&[0x01, 0x05, 0x00]), Some(Format::Deflate));
}
