//! A DEFLATE (RFC 1951), gzip (RFC 1952), and zlib (RFC 1950) encoder and
//! decoder, with proofs that what is encoded is decoded again.
//!
//! # Design
//!
//! This crate follows a *sans-io* design: the library performs no I/O
//! itself. Callers drive encoding and decoding by feeding bytes in
//! (`feed`) and consuming bytes out (`output` / `advance`). This makes
//! the library usable with any I/O strategy — synchronous, async, or
//! embedded — without runtime dependencies.
//!
//! # Layout
//!
//! [`deflate`], [`gzip`] and [`zlib`] hold the encoders and decoders. What a
//! DEFLATE stream means is said by [`inflate`], and what an encoder writes by
//! [`block`]. That the two fit together is proved in [`roundtrip`] and
//! [`laws`], and that the codes of dynamic blocks are the shortest that there
//! are in [`shortest`]. What both say in terms of the standard is stated in
//! [`standard`], element by element of a stream in [`reading`], and for all that
//! is written in [`writing`].

use vstd::prelude::*;

pub mod adler32;
pub mod bit;
pub mod bits;
pub mod block;
pub mod buf;
pub mod canonical;
pub mod crc32;
pub mod decode;
pub mod deflate;
pub mod encode;
pub mod error;
pub mod gzip;
pub mod huffman;
pub mod inflate;
pub mod laws;
pub mod lz77;
pub mod package_merge;
pub mod reading;
pub mod roundtrip;
pub mod shortest;
pub mod standard;
pub mod symbol;
pub mod writing;
pub mod zlib;

pub use crate::adler32::{adler32, Adler32};
pub use crate::crc32::{crc32, Crc32};
pub use crate::deflate::{compress, decompress, Decoder, EncodeOptions, Encoder};
pub use crate::error::{Error, Result};

verus! {

/// The detected compression format of a byte stream.
#[derive(Debug, Clone, Copy, PartialEq, Eq, Hash, Structural)]
pub enum Format {
    /// Raw DEFLATE (RFC 1951).
    Deflate,
    /// ZLIB container (RFC 1950).
    Zlib,
    /// GZIP container (RFC 1952).
    Gzip,
}

/// The format that the first bytes of `data` speak for.
pub open spec fn detected(data: Seq<u8>) -> Option<Format> {
    if data.len() < 2 {
        None
    } else if data[0] == 0x1f && data[1] == 0x8b {
        Some(Format::Gzip)
    } else if data[0] % 16 == 8 && data[0] / 16 <= 7 && (data[0] * 256 + data[1]) % 31 == 0 {
        Some(Format::Zlib)
    } else {
        Some(Format::Deflate)
    }
}

impl Format {
    /// Detect the compression format from the first bytes of `data`.
    ///
    /// Returns `None` if `data` is shorter than 2 bytes.
    ///
    /// Detection order:
    /// 1. **Gzip** — magic bytes `0x1F 0x8B`.
    /// 2. **Zlib** — CM=8, CINFO≤7, and the FCHECK checksum passes.
    /// 3. **Deflate** — fallback for anything else.
    pub fn detect(data: &[u8]) -> (format: Option<Format>)
        ensures
            format == detected(data@),
            format is None <==> data@.len() < 2,
            data@.len() >= 2 ==> (format == Some(Format::Gzip) <==> data@[0] == 0x1f && data@[1]
                == 0x8b),
            data@.len() >= 2 ==> (format == Some(Format::Zlib) <==> data@[0] % 16 == 8 && data@[0]
                / 16 <= 7 && (256 * data@[0] + data@[1]) % 31 == 0),
    {
        if data.len() < 2 {
            return None;
        }
        if data[0] == 0x1F && data[1] == 0x8B {
            return Some(Format::Gzip);
        }
        let cmf: u8 = data[0];
        let flg: u8 = data[1];
        if cmf % 16 == 8 && cmf / 16 <= 7 && (cmf as u16 * 256 + flg as u16) % 31 == 0 {
            return Some(Format::Zlib);
        }
        Some(Format::Deflate)
    }
}

/// What the gzip and the zlib encoder write is detected as such as soon as the
/// first two bytes are there.
pub proof fn lemma_detected(rest: Seq<u8>)
    ensures
        detected(gzip::header() + rest) == Some(Format::Gzip),
        detected(seq![zlib::CMF, zlib::FLG] + rest) == Some(Format::Zlib),
{
}

/// A zlib stream whose header is accepted is detected as such.
pub proof fn lemma_detected_zlib(header: Seq<u8>, rest: Seq<u8>)
    requires
        header.len() == 2,
        zlib::header_fault(header) is None,
    ensures
        detected(header + rest) == Some(Format::Zlib),
{
}

/// The first two bytes decide, and whatever follows them does not matter: the
/// magic bytes stand for gzip, a number that 31 divides with method 8 and a
/// window size code of at most 7 for zlib, and everything else for DEFLATE. Fewer
/// bytes say nothing.
pub proof fn lemma_told_apart(data: Seq<u8>)
    ensures
        detected(data) is None <==> data.len() < 2,
        data.len() >= 2 ==> (detected(data) == Some(Format::Gzip) <==> data[0] == 0x1f && data[1]
            == 0x8b),
        data.len() >= 2 ==> (detected(data) == Some(Format::Zlib) <==> data[0] % 16 == 8 && data[0]
            / 16 <= 7 && (256 * data[0] + data[1]) % 31 == 0),
        data.len() >= 2 ==> detected(data) == detected(data.take(2)),
{
}

/// Every stream that a gzip or a zlib decoder is finished with is detected as
/// what it is.
pub proof fn lemma_detected_stream(data: Seq<u8>)
    ensures
        gzip::taken(gzip::beginning(), data).1 is None && gzip::taken(
            gzip::beginning(),
            data,
        ).0.phase is Done ==> detected(data) == Some(Format::Gzip),
        zlib::taken(zlib::beginning(), data).1 is None && zlib::taken(
            zlib::beginning(),
            data,
        ).0.phase is Done ==> detected(data) == Some(Format::Zlib),
{
    let (s, fault) = gzip::taken(gzip::beginning(), data);
    if fault is None && s.phase is Done {
        gzip::lemma_finished_stream(data, seq![0u8]);
    }
    let (s, fault) = zlib::taken(zlib::beginning(), data);
    if fault is None && s.phase is Done {
        zlib::lemma_finished_stream(data, seq![0u8]);
    }
}

} // verus!
