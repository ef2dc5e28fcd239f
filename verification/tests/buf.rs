//! The byte queue.

use noflate::buf::Buf;

#[test]
fn feed_and_get_roundtrip() {
    let mut buf = Buf::new();
    buf.feed(b"hello");
    assert_eq!(buf.get(), b"hello");
}

#[test]
fn advance_drops_prefix() {
    let mut buf = Buf::new();
    buf.feed(b"abcdef");
    buf.advance(2);
    assert_eq!(buf.get(), b"cdef");
    buf.advance(4);
    assert!(buf.get().is_empty());
}

#[test]
fn advance_to_empty_clears_bytes() {
    let mut buf = Buf::new();
    buf.feed(b"abc");
    buf.advance(3);
    assert_eq!(buf.get(), b"");
    buf.feed(b"xyz");
    assert_eq!(buf.get(), b"xyz");
}


#[test]
fn compacts_when_past_threshold() {
    let mut buf = Buf::new();
    let chunk = vec![0u8; 1024];
    for _ in 0..1100 {
        buf.feed(&chunk);
    }
    buf.advance(1024 * 500);
    buf.feed(&chunk);
    assert!(buf.get().len() >= 1024);
}
