# noflate

A DEFLATE (RFC 1951), gzip (RFC 1952), and zlib (RFC 1950) encoder and decoder
without dependencies, written in Verus.

The library performs no I/O. Callers feed bytes in (`feed`) and take bytes out
(`output` / `advance`), or use the one-shot functions `compress` and
`decompress` of the modules `deflate`, `gzip` and `zlib`.

```rust
let compressed = noflate::deflate::compress(b"Hello, DEFLATE!")?;
assert_eq!(noflate::deflate::decompress(&compressed)?, b"Hello, DEFLATE!");

let mut encoder = noflate::deflate::Encoder::new();
encoder.feed(b"Hello, ")?;
encoder.feed(b"world!")?;
encoder.finish()?;
let compressed = encoder.output().to_vec();
encoder.advance(compressed.len());
```

## What is proved

No function is trusted, and none panics where its `requires` holds.

- A decoder does what the format says. `src/inflate.rs` defines the format, as
  a machine that reads a stream bit by bit. The contract of `Decoder::feed`
  fixes the output, the bytes left over, and the error for every input.
- An encoder writes exactly the bits that `src/block.rs` defines, for stored,
  fixed and dynamic blocks.
- Whatever is fed to an encoder comes out of a decoder (`src/roundtrip.rs`,
  `src/laws.rs`), for all three formats, block kinds and block sizes, with sync
  flushes in between.
- How input is cut into pieces makes no difference, neither to encoders nor to
  decoders.
- Output that waits in a DEFLATE decoder is at most one match over its cap of
  64 KiB, whatever is fed. The gzip and zlib decoders have no cap: a call of
  their `feed` puts out all that its bytes say. The buffers of the DEFLATE and
  the gzip encoder are compacted.
- A decoder that has returned an error for a stream returns it again whenever it
  is fed more.
- A gzip or zlib decoder that is finished was fed exactly one whole stream, from
  its header to its trailer. What a finished DEFLATE decoder has left unread is
  no part of its stream.
- A Huffman decoder reads back, symbol by symbol, what an encoder with the same
  widths has written.
- The widths of dynamic codes are the shortest that the limit on their width
  allows (`src/shortest.rs`).
- The table-driven CRC-32 and the deferred reductions of Adler-32 compute what
  their bitwise and bytewise definitions say.

## Layout

- `src/`: the library. `bits`, `bit`, `buf`, `error`: bits, bytes and errors.
  `symbol`, `canonical`, `huffman`, `package_merge`, `shortest`: symbols and
  their codes. `lz77`: matches. `inflate`, `decode`: decoding. `block`,
  `encode`: encoding. `roundtrip`, `laws`: what holds of both. `deflate`,
  `gzip`, `zlib`, `adler32`, `crc32`: the formats.
- `tests/`: tests that run the library, some against other implementations.
- `app/`: adapters to `std::io::Read`, `std::io::Write` and `std::error::Error`.
