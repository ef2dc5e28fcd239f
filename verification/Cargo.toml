[package]
name = "noflate"
version = "0.1.0"
edition = "2021"
publish = false

[dependencies]

[dev-dependencies]
adler32 = "=1.2.0"
crc32fast = "=1.5.4"
flate2 = "=1.1.10"
noprop = "=0.1.0"
