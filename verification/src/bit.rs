//! LSB-first bit I/O for DEFLATE streams (RFC 1951).
//!
//! [`BitReader`] reads from a borrowed byte slice; callers snapshot its
//! position before a parse step and [`BitReader::restore`] if the step
//! cannot be completed because more input is needed.
//!
//! [`BitWriter`] appends bits to a caller-owned `Vec<u8>`.

use crate::bits::{
    byte_bits, from_bits, lemma_byte_bits_len, lemma_byte_bits_push, lemma_byte_bits_skip,
    lemma_from_bits_bound, lemma_from_to_bits, lemma_pow2_8, lemma_pow2_zero, lemma_to_bits_concat,
    lemma_to_bits_len, lemma_to_bits_mod, lemma_to_bits_split, lemma_to_bits_zero, padded, padding,
    to_bits,
};
use crate::error::{invalid, invalid_data, Error, Fault};
use vstd::arithmetic::div_mod::lemma_small_mod;
use vstd::arithmetic::power2::{
    lemma2_to64, lemma_pow2_adds, lemma_pow2_pos, lemma_pow2_strictly_increases, pow2,
};
use vstd::bits::{lemma_u64_shl_is_mul, lemma_u64_shr_is_div};
use vstd::prelude::*;

verus! {

/// The message of the error that a read past the end gives.
pub open spec fn end_of_stream() -> Fault {
    invalid("unexpected end of deflate stream")
}

/// How many bits are buffered after making at least `n` of them available,
/// when `held` were buffered before: whole bytes are taken until that is so.
#[verifier::opaque]
pub open spec fn loaded(held: nat, n: nat) -> nat {
    if held >= n {
        held
    } else {
        held + 8 * ((n - held + 7) / 8) as nat
    }
}

/// Snapshot of a [`BitReader`]'s position, returned from
/// [`BitReader::snapshot`] and replayed via [`BitReader::restore`].
#[derive(Debug, Clone, Copy)]
pub struct BitReaderState {
    byte_index: usize,
    bit_buffer: u64,
    bit_count: u8,
}

/// LSB-first bit reader over a borrowed byte slice.
#[derive(Debug)]
pub struct BitReader<'a> {
    input: &'a [u8],
    byte_index: usize,
    bit_buffer: u64,
    bit_count: u8,
}

proof fn lemma_or_is_add(buffer: u64, byte: u64, count: u64)
    by (bit_vector)
    requires
        count < 48,
        byte < 65536,
        buffer < (1u64 << count),
    ensures
        buffer | (byte << count) == buffer + (byte << count),
        (byte << count) < (65536u64 << count),
{
}

proof fn lemma_mask_is_mod(x: u64, n: u64)
    requires
        n < 64,
    ensures
        x & (((1u64 << n) - 1) as u64) == x as nat % pow2(n as nat),
        1 <= 1u64 << n,
        (1u64 << n) == pow2(n as nat),
{
    lemma_u64_pow2_fits(n as nat);
    lemma_u64_shl_is_mul(1, n);
    lemma_pow2_pos(n as nat);
    vstd::bits::lemma_u64_low_bits_mask_is_mod(x, n as nat);
}

proof fn lemma_u64_pow2_fits(n: nat)
    requires
        n < 64,
    ensures
        pow2(n) <= u64::MAX,
        n <= 56 ==> 256 * pow2(n) <= u64::MAX + 1,
        n <= 48 ==> 65536 * pow2(n) <= u64::MAX + 1,
{
    lemma2_to64();
    vstd::arithmetic::power2::lemma2_to64_rest();
    if n < 63 {
        lemma_pow2_strictly_increases(n, 63);
    }
    if n <= 56 {
        lemma_pow2_adds(n, 8);
        if n < 56 {
            lemma_pow2_strictly_increases(n + 8, 64);
        }
    }
    if n <= 48 {
        lemma_pow2_adds(n, 16);
        if n < 48 {
            lemma_pow2_strictly_increases(n + 16, 64);
        }
    }
}

/// Putting the bits of `value` above `count` buffered bits adds up.
proof fn lemma_insert_above(buffer: u64, value: u64, count: u64, n: nat)
    requires
        count < 48,
        n <= 16,
        buffer < pow2(count as nat),
        value < pow2(n),
    ensures
        (buffer | (value << count)) == buffer + value * pow2(count as nat),
        (buffer | (value << count)) < pow2(count as nat + n),
        to_bits((buffer | (value << count)) as nat, count as nat + n) == to_bits(
            buffer as nat,
            count as nat,
        ) + to_bits(value as nat, n),
{
    let c = count as nat;
    lemma2_to64();
    if n < 16 {
        lemma_pow2_strictly_increases(n, 16);
    }
    lemma_u64_pow2_fits(c);
    lemma_pow2_pos(c);
    lemma_u64_shl_is_mul(1, count);
    assert(value * pow2(c) <= u64::MAX) by (nonlinear_arith)
        requires
            value < 65536,
            65536 * pow2(c) <= u64::MAX + 1,
            pow2(c) > 0,
    ;
    lemma_u64_shl_is_mul(value, count);
    lemma_or_is_add(buffer, value, count);
    lemma_pow2_adds(c, n);
    assert(buffer + value * pow2(c) < pow2(c) * pow2(n)) by (nonlinear_arith)
        requires
            buffer < pow2(c),
            value < pow2(n),
    ;
    lemma_to_bits_concat(buffer as nat, c, value as nat, n);
}

/// Dropping the low `n` of `count` buffered bits.
proof fn lemma_drop_low(buffer: u64, count: nat, n: nat)
    requires
        n <= count < 64,
        buffer < pow2(count),
    ensures
        (buffer >> (n as u64)) == buffer as nat / pow2(n),
        (buffer >> (n as u64)) < pow2((count - n) as nat),
        to_bits((buffer >> (n as u64)) as nat, (count - n) as nat) == to_bits(
            buffer as nat,
            count,
        ).skip(n as int),
        buffer as nat % pow2(n) == from_bits(to_bits(buffer as nat, count).take(n as int)),
{
    let m = (count - n) as nat;
    lemma_u64_shr_is_div(buffer, n as u64);
    lemma_pow2_pos(n);
    lemma_pow2_adds(n, m);
    vstd::arithmetic::div_mod::lemma_multiply_divide_lt(
        buffer as int,
        pow2(n) as int,
        pow2(m) as int,
    );
    lemma_to_bits_split(buffer as nat, n, m);
    lemma_to_bits_len(buffer as nat, n);
    lemma_to_bits_len(buffer as nat / pow2(n), m);
    assert(to_bits(buffer as nat, count).skip(n as int) =~= to_bits(buffer as nat / pow2(n), m));
    assert(to_bits(buffer as nat, count).take(n as int) =~= to_bits(buffer as nat, n));
    lemma_from_to_bits(buffer as nat, n);
}

impl BitReaderState {
    /// The bits that a reader over `input` has left in this position.
    pub closed spec fn bits(self, input: Seq<u8>) -> Seq<bool> {
        to_bits(self.bit_buffer as nat, self.bit_count as nat) + byte_bits(
            input.skip(self.byte_index as int),
        )
    }

    /// How many of those bits are buffered.
    pub closed spec fn held(self) -> nat {
        self.bit_count as nat
    }

    /// How many bytes of the input have been taken into the buffer.
    pub closed spec fn position(self) -> nat {
        self.byte_index as nat
    }

    /// This is a position of a reader over `input`.
    pub closed spec fn fits(self, input: Seq<u8>) -> bool {
        &&& self.byte_index <= input.len()
        &&& self.bit_count < 48
        &&& self.bit_buffer < pow2(self.bit_count as nat)
    }
}

impl<'a> BitReader<'a> {
    /// The position in the input.
    pub closed spec fn state(self) -> BitReaderState {
        BitReaderState {
            byte_index: self.byte_index,
            bit_buffer: self.bit_buffer,
            bit_count: self.bit_count,
        }
    }

    /// The byte slice that is read.
    pub closed spec fn source(self) -> Seq<u8> {
        self.input@
    }

    /// The bits that have not been read, buffered ones first.
    pub open spec fn bits(self) -> Seq<bool> {
        self.state().bits(self.source())
    }

    /// How many unread bits are buffered.
    pub open spec fn held(self) -> nat {
        self.state().held()
    }

    /// How many bytes of the input have been taken into the buffer.
    pub open spec fn position(self) -> nat {
        self.state().position()
    }

    /// The buffer holds no bits above its count, and the position lies within
    /// the input.
    pub open spec fn wf(self) -> bool {
        self.state().fits(self.source())
    }

    /// What always holds of a reader: the bits that are not buffered are those
    /// of the bytes that were not taken.
    pub proof fn lemma_bits(self)
        requires
            self.wf(),
        ensures
            self.bits().len() == self.held() + 8 * (self.source().len() - self.position()),
            self.position() <= self.source().len(),
            self.held() < 48,
            self.bits().skip(self.held() as int) == byte_bits(
                self.source().skip(self.position() as int),
            ),
    {
        lemma_to_bits_len(self.bit_buffer as nat, self.bit_count as nat);
        lemma_byte_bits_len(self.input@.skip(self.byte_index as int));
        assert(self.bits().skip(self.held() as int) =~= byte_bits(
            self.input@.skip(self.byte_index as int),
        ));
    }

    /// A reader at the start of `input`.
    pub fn new(input: &'a [u8]) -> (reader: Self)
        ensures
            reader.wf(),
            reader.source() == input@,
            reader.bits() == byte_bits(input@),
            reader.held() == 0,
            reader.position() == 0,
    {
        proof {
            lemma_pow2_zero();
            assert(input@.skip(0) =~= input@);
            assert(to_bits(0, 0) + byte_bits(input@) =~= byte_bits(input@));
        }
        Self::new_seeded(input, 0, 0)
    }

    /// Create a reader seeded with buffered bits left over from a previous
    /// call. `bit_count` may exceed 8 if whole buffered bytes were still
    /// unread.
    pub fn new_seeded(input: &'a [u8], bit_buffer: u64, bit_count: u8) -> (reader: Self)
        requires
            bit_count < 48,
            bit_buffer < pow2(bit_count as nat),
        ensures
            reader.wf(),
            reader.source() == input@,
            reader.bits() == to_bits(bit_buffer as nat, bit_count as nat) + byte_bits(input@),
            reader.held() == bit_count,
            reader.position() == 0,
    {
        proof {
            assert(input@.skip(0) =~= input@);
        }
        Self { input, byte_index: 0, bit_buffer, bit_count }
    }

    /// Total bits still available for reading: the unread buffered bits
    /// plus the bits in the remaining bytes of the input slice.
    pub fn available_bits(&self) -> (n: usize)
        requires
            self.wf(),
            self.bits().len() <= usize::MAX,
        ensures
            n == self.bits().len(),
    {
        proof {
            self.lemma_bits();
        }
        self.bit_count as usize + (self.input.len() - self.byte_index) * 8
    }

    /// Whether at least `n` unread bits are available.
    pub fn has_bits(&self, n: usize) -> (enough: bool)
        requires
            self.wf(),
            n <= 64,
        ensures
            enough == (self.bits().len() >= n),
    {
        proof {
            self.lemma_bits();
        }
        let bytes: usize = self.input.len() - self.byte_index;
        bytes >= 8 || self.bit_count as usize + bytes * 8 >= n
    }

    /// How many whole bytes of unread bits are available.
    pub fn available_bytes(&self) -> (n: usize)
        requires
            self.wf(),
            self.held() < 8,
        ensures
            n == self.bits().len() / 8,
    {
        proof {
            self.lemma_bits();
        }
        self.input.len() - self.byte_index
    }

    /// Buffered bits not yet consumed.
    pub fn residual_bit_buffer(&self) -> (buffer: u64)
        requires
            self.wf(),
        ensures
            buffer < pow2(self.held()),
            to_bits(buffer as nat, self.held()) == self.bits().take(self.held() as int),
            buffer == from_bits(self.bits().take(self.held() as int)),
    {
        proof {
            let v = self.bit_buffer as nat;
            let n = self.bit_count as nat;
            self.lemma_bits();
            lemma_to_bits_len(v, n);
            assert(self.bits().take(n as int) =~= to_bits(v, n));
            lemma_from_to_bits(v, n);
            lemma_small_mod(v, pow2(n));
        }
        self.bit_buffer
    }

    /// Count of buffered bits not yet consumed.
    pub fn residual_bit_count(&self) -> (n: u8)
        requires
            self.wf(),
        ensures
            n == self.held(),
            n < 48,
    {
        self.bit_count
    }

    /// Read one bit.
    pub fn read_bit(&mut self) -> (r: Result<bool, Error>)
        requires
            old(self).wf(),
        ensures
            final(self).wf(),
            final(self).source() == old(self).source(),
            old(self).bits().len() >= 1 ==> {
                &&& r == Ok::<bool, Error>(old(self).bits()[0])
                &&& final(self).bits() == old(self).bits().skip(1)
                &&& final(self).held() == loaded(old(self).held(), 1) - 1
            },
            old(self).bits().len() < 1 ==> {
                &&& r matches Err(e) && e@ == end_of_stream()
                &&& final(self).bits() == old(self).bits()
            },
    {
        let bits: u16 = match self.read_bits(1) {
            Ok(bits) => bits,
            Err(e) => {
                return Err(e);
            },
        };
        proof {
            let first = old(self).bits().take(1);
            assert(first.skip(1) =~= Seq::<bool>::empty());
            assert(from_bits(first.skip(1)) == 0);
            assert(first[0] == old(self).bits()[0]);
        }
        Ok(bits != 0)
    }

    /// Read `bit_count` bits as a number.
    pub fn read_bits(&mut self, bit_count: u8) -> (r: Result<u16, Error>)
        requires
            old(self).wf(),
            bit_count <= 16,
        ensures
            final(self).wf(),
            final(self).source() == old(self).source(),
            old(self).bits().len() >= bit_count ==> {
                &&& r matches Ok(v) && v == from_bits(old(self).bits().take(bit_count as int))
                &&& final(self).bits() == old(self).bits().skip(bit_count as int)
                &&& final(self).held() == loaded(old(self).held(), bit_count as nat) - bit_count
            },
            old(self).bits().len() < bit_count ==> {
                &&& r matches Err(e) && e@ == end_of_stream()
                &&& final(self).bits() == old(self).bits()
            },
    {
        proof {
            reveal(loaded);
        }
        let bits: u16 = match self.peek_bits(bit_count) {
            Ok(bits) => bits,
            Err(e) => {
                return Err(e);
            },
        };
        match self.skip_bits(bit_count) {
            Ok(()) => Ok(bits),
            Err(e) => Err(e),
        }
    }

    /// The next `bit_count` bits as a number, without consuming them.
    pub fn peek_bits(&mut self, bit_count: u8) -> (r: Result<u16, Error>)
        requires
            old(self).wf(),
            bit_count <= 16,
        ensures
            final(self).wf(),
            final(self).source() == old(self).source(),
            final(self).bits() == old(self).bits(),
            old(self).bits().len() >= bit_count ==> {
                &&& r matches Ok(v) && v == from_bits(old(self).bits().take(bit_count as int))
                &&& final(self).held() == loaded(old(self).held(), bit_count as nat)
            },
            old(self).bits().len() < bit_count ==> {
                &&& r matches Err(e) && e@ == end_of_stream()
            },
            final(self).held() - old(self).held() == 8 * (final(self).position() - old(
                self,
            ).position()),
    {
        proof {
            reveal(loaded);
        }
        while self.bit_count < bit_count
            invariant
                self.wf(),
                bit_count <= 16,
                self.source() == old(self).source(),
                self.bits() == old(self).bits(),
                self.held() >= old(self).held(),
                loaded(self.held(), bit_count as nat) == loaded(
                    old(self).held(),
                    bit_count as nat,
                ),
                self.held() - old(self).held() == 8 * (self.position() - old(self).position()),
            decreases 64 - self.bit_count,
        {
            proof {
                reveal(loaded);
                self.lemma_bits();
            }
            if self.byte_index >= self.input.len() {
                return Err(invalid_data("unexpected end of deflate stream"));
            }
            let next: u8 = self.input[self.byte_index];
            proof {
                lemma_pow2_8();
                lemma_insert_above(self.bit_buffer, next as u64, self.bit_count as u64, 8);
                let rest = self.input@.skip(self.byte_index as int);
                assert(rest.skip(1) =~= self.input@.skip(self.byte_index + 1));
                assert(rest[0] == next);
                assert(self.bits() =~= to_bits(self.bit_buffer as nat, self.bit_count as nat)
                    + to_bits(next as nat, 8) + byte_bits(rest.skip(1)));
            }
            self.bit_buffer = self.bit_buffer | ((next as u64) << (self.bit_count as u64));
            self.bit_count += 8;
            self.byte_index += 1;
        }
        proof {
            self.lemma_bits();
            lemma_drop_low(self.bit_buffer, self.bit_count as nat, bit_count as nat);
            lemma_mask_is_mod(self.bit_buffer, bit_count as u64);
            let b = to_bits(self.bit_buffer as nat, self.bit_count as nat);
            lemma_to_bits_len(self.bit_buffer as nat, self.bit_count as nat);
            assert(self.bits().take(bit_count as int) =~= b.take(bit_count as int));
            lemma_from_bits_bound(self.bits().take(bit_count as int));
            lemma2_to64();
            if bit_count < 16 {
                lemma_pow2_strictly_increases(bit_count as nat, 16);
            }
        }
        Ok((self.bit_buffer & ((1u64 << (bit_count as u64)) - 1)) as u16)
    }

    /// Consume `bit_count` bits.
    pub fn skip_bits(&mut self, bit_count: u8) -> (r: Result<(), Error>)
        requires
            old(self).wf(),
            bit_count <= 16,
        ensures
            final(self).wf(),
            final(self).source() == old(self).source(),
            old(self).bits().len() >= bit_count ==> {
                &&& r is Ok
                &&& final(self).bits() == old(self).bits().skip(bit_count as int)
                &&& final(self).held() == loaded(old(self).held(), bit_count as nat) - bit_count
            },
            old(self).bits().len() < bit_count ==> {
                &&& r matches Err(e) && e@ == end_of_stream()
                &&& final(self).bits() == old(self).bits()
            },
    {
        proof {
            reveal(loaded);
        }
        if self.bit_count < bit_count {
            match self.peek_bits(bit_count) {
                Ok(_) => {},
                Err(e) => {
                    return Err(e);
                },
            }
        }
        proof {
            self.lemma_bits();
            lemma_drop_low(self.bit_buffer, self.bit_count as nat, bit_count as nat);
            lemma_to_bits_len(self.bit_buffer as nat, self.bit_count as nat);
        }
        let ghost before = self.bits();
        self.bit_buffer = self.bit_buffer >> (bit_count as u64);
        self.bit_count -= bit_count;
        proof {
            assert(self.bits() =~= before.skip(bit_count as int));
        }
        Ok(())
    }

    /// Discard any buffered fractional byte so the next read is aligned.
    pub fn align_to_byte(&mut self)
        requires
            old(self).wf(),
        ensures
            final(self).wf(),
            final(self).source() == old(self).source(),
            final(self).bits() == old(self).bits().skip(old(self).bits().len() as int % 8),
            final(self).held() == old(self).held() - old(self).held() % 8,
            final(self).position() == old(self).position(),
    {
        let extra: u8 = self.bit_count % 8;
        proof {
            self.lemma_bits();
            lemma_drop_low(self.bit_buffer, self.bit_count as nat, extra as nat);
            lemma_to_bits_len(self.bit_buffer as nat, self.bit_count as nat);
        }
        let ghost before = self.bits();
        self.bit_buffer = self.bit_buffer >> (extra as u64);
        self.bit_count -= extra;
        proof {
            assert(self.bits() =~= before.skip(extra as int));
        }
    }

    /// Read `len` whole bytes. Requires the reader to be byte-aligned;
    /// call [`BitReader::align_to_byte`] first. Buffered whole bytes must have
    /// been taken from this reader's input.
    pub fn read_bytes(&mut self, len: usize) -> (r: Result<&'a [u8], Error>)
        requires
            old(self).wf(),
            old(self).held() % 8 == 0,
            old(self).held() <= 8 * old(self).position(),
        ensures
            final(self).wf(),
            final(self).source() == old(self).source(),
            final(self).held() == 0,
            ({
                let start = old(self).position() - old(self).held() / 8;
                if start + len <= old(self).source().len() {
                    &&& r matches Ok(bytes) && bytes@ == old(self).source().subrange(
                        start,
                        start + len,
                    )
                    &&& final(self).position() == start + len
                } else {
                    &&& r matches Err(e) && e@ == end_of_stream()
                    &&& final(self).position() == old(self).position()
                }
            }),
            old(self).held() == 0 && old(self).bits().len() >= 8 * len ==> {
                &&& r matches Ok(bytes) && bytes@.len() == len && byte_bits(bytes@) == old(
                    self,
                ).bits().take(8 * len)
                &&& final(self).bits() == old(self).bits().skip(8 * len)
            },
    {
        proof {
            self.lemma_bits();
            lemma_pow2_zero();
        }
        let buffered_bytes: usize = (self.bit_count / 8) as usize;
        let start: usize = self.byte_index - buffered_bytes;
        let ghost before = self.bits();
        self.bit_buffer = 0;
        self.bit_count = 0;
        if len > self.input.len() - start {
            return Err(invalid_data("unexpected end of deflate stream"));
        }
        let end: usize = start + len;
        let bytes: &'a [u8] = vstd::slice::slice_subrange(self.input, start, end);
        self.byte_index = end;
        proof {
            if old(self).held() == 0 && before.len() >= 8 * len {
                let rest = self.input@.skip(start as int);
                lemma_byte_bits_skip(rest, len as nat);
                assert(before =~= byte_bits(rest));
                assert(rest.take(len as int) =~= bytes@);
                assert(rest.skip(len as int) =~= self.input@.skip(end as int));
                assert(to_bits(0, 0) + byte_bits(self.input@.skip(end as int)) =~= byte_bits(
                    self.input@.skip(end as int),
                ));
            }
        }
        Ok(bytes)
    }

    /// The current position, to be handed to [`BitReader::restore`].
    pub fn snapshot(&self) -> (state: BitReaderState)
        ensures
            state == self.state(),
    {
        BitReaderState {
            byte_index: self.byte_index,
            bit_buffer: self.bit_buffer,
            bit_count: self.bit_count,
        }
    }

    /// Go back to a position of this reader.
    pub fn restore(&mut self, state: BitReaderState)
        requires
            state.fits(old(self).source()),
        ensures
            final(self).state() == state,
            final(self).source() == old(self).source(),
    {
        self.byte_index = state.byte_index;
        self.bit_buffer = state.bit_buffer;
        self.bit_count = state.bit_count;
    }

    /// Bytes that have been pulled from the input slice into the bit
    /// buffer. Once these bytes are "committed" by advancing the outer
    /// input buffer, the remaining unread bits survive in
    /// [`BitReader::residual_bit_buffer`] and the outer caller reseeds
    /// a fresh reader from those values next time around.
    pub fn committed_bytes(&self) -> (n: usize)
        ensures
            n == self.position(),
    {
        self.byte_index
    }
}

/// LSB-first bit writer that appends to a caller-owned `Vec<u8>`.
#[derive(Debug)]
pub struct BitWriter<'a> {
    /// The vector that full bytes are pushed to.
    pub output: &'a mut Vec<u8>,
    /// The bits that do not fill a byte yet.
    pub bit_buffer: u64,
    /// How many bits `bit_buffer` holds.
    pub bit_count: u8,
}

impl<'a> BitWriter<'a> {
    /// The bytes in the caller's vector.
    pub open spec fn bytes(self) -> Seq<u8> {
        self.output@
    }

    /// The bits that do not fill a byte yet.
    pub open spec fn pending(self) -> Seq<bool> {
        to_bits(self.bit_buffer as nat, self.bit_count as nat)
    }

    /// All bits written, those in the caller's vector first.
    pub open spec fn bits(self) -> Seq<bool> {
        byte_bits(self.bytes()) + self.pending()
    }

    /// Fewer than eight bits are pending, and the buffer holds no others.
    pub open spec fn wf(self) -> bool {
        &&& self.bit_count < 8
        &&& self.bit_buffer < pow2(self.bit_count as nat)
    }

    /// Append to `output`.
    pub fn new(output: &'a mut Vec<u8>) -> (writer: Self)
        ensures
            writer.wf(),
            writer.bytes() == old(output)@,
            writer.bits() == byte_bits(old(output)@),
            final(writer.output)@ == final(output)@,
    {
        proof {
            lemma_pow2_zero();
            assert(byte_bits(output@) + to_bits(0, 0) =~= byte_bits(output@));
        }
        Self { output, bit_buffer: 0, bit_count: 0 }
    }

    /// Append to `output`, starting with bits left over from a previous writer.
    pub fn new_seeded(output: &'a mut Vec<u8>, bit_buffer: u64, bit_count: u8) -> (writer: Self)
        requires
            bit_count < 8,
            bit_buffer < pow2(bit_count as nat),
        ensures
            writer.wf(),
            writer.bytes() == old(output)@,
            writer.bits() == byte_bits(old(output)@) + to_bits(
                bit_buffer as nat,
                bit_count as nat,
            ),
            final(writer.output)@ == final(output)@,
    {
        Self { output, bit_buffer, bit_count }
    }

    /// Write one bit.
    pub fn write_bit(&mut self, bit: bool)
        requires
            old(self).wf(),
        ensures
            final(self).wf(),
            final(self).bits() == old(self).bits().push(bit),
            final(final(self).output)@ == final(old(self).output)@,
            exists|more: Seq<u8>| final(self).bytes() == #[trigger] (old(self).bytes() + more),
    {
        proof {
            lemma2_to64();
            assert(to_bits(0, 0) =~= Seq::<bool>::empty());
            assert(to_bits(1, 1) =~= seq![true]);
            assert(to_bits(0, 1) =~= seq![false]);
        }
        self.write_bits(1, if bit { 1u16 } else { 0u16 });
        proof {
            assert(self.bits() =~= old(self).bits().push(bit));
        }
    }

    /// Write the low `bit_count` bits of `bits`, which has no others set.
    pub fn write_bits(&mut self, bit_count: u8, bits: u16)
        requires
            old(self).wf(),
            bit_count <= 16,
            bits < pow2(bit_count as nat),
        ensures
            final(self).wf(),
            final(self).bits() == old(self).bits() + to_bits(bits as nat, bit_count as nat),
            final(final(self).output)@ == final(old(self).output)@,
            exists|more: Seq<u8>| final(self).bytes() == #[trigger] (old(self).bytes() + more),
    {
        proof {
            lemma_insert_above(
                self.bit_buffer,
                bits as u64,
                self.bit_count as u64,
                bit_count as nat,
            );
        }
        let ghost mut more = Seq::<u8>::empty();
        self.bit_buffer = self.bit_buffer | ((bits as u64) << (self.bit_count as u64));
        self.bit_count += bit_count;
        proof {
            assert(self.bits() =~= old(self).bits() + to_bits(bits as nat, bit_count as nat));
            assert(self.bytes() =~= old(self).bytes() + more);
        }
        while self.bit_count >= 8
            invariant
                self.bit_count < 24,
                self.bit_buffer < pow2(self.bit_count as nat),
                self.bits() == old(self).bits() + to_bits(bits as nat, bit_count as nat),
                final(self.output)@ == final(old(self).output)@,
                self.bytes() == old(self).bytes() + more,
            decreases self.bit_count,
        {
            let ghost before = *self;
            let byte: u8 = (self.bit_buffer & 0xff) as u8;
            proof {
                let buffer = self.bit_buffer;
                assert(buffer & 0xff == buffer % 256) by (bit_vector);
                lemma_pow2_8();
                lemma_drop_low(buffer, self.bit_count as nat, 8);
                lemma_to_bits_len(buffer as nat, self.bit_count as nat);
                lemma_to_bits_mod(buffer as nat, 8);
                lemma_byte_bits_push(self.output@, byte);
                lemma_to_bits_split(buffer as nat, 8, (self.bit_count - 8) as nat);
                more = more.push(byte);
            }
            self.output.push(byte);
            self.bit_buffer = self.bit_buffer >> 8u64;
            self.bit_count -= 8;
            proof {
                assert(self.bits() =~= before.bits());
                assert(self.bytes() =~= old(self).bytes() + more);
            }
        }
        proof {
            assert(self.bytes() == old(self).bytes() + more);
        }
    }

    /// Zero-pad the current partial byte, if any, and push it to the output.
    pub fn align_to_byte(&mut self)
        requires
            old(self).wf(),
        ensures
            final(self).wf(),
            final(self).bits() == padded(old(self).bits()),
            byte_bits(final(self).bytes()) == padded(old(self).bits()),
            final(self).pending() == Seq::<bool>::empty(),
            final(final(self).output)@ == final(old(self).output)@,
            exists|more: Seq<u8>| final(self).bytes() == #[trigger] (old(self).bytes() + more),
    {
        proof {
            lemma_byte_bits_len(self.output@);
            lemma_to_bits_len(self.bit_buffer as nat, self.bit_count as nat);
            assert(to_bits(0, 0) =~= Seq::<bool>::empty());
            lemma_pow2_zero();
        }
        if self.bit_count > 0 {
            let n: u8 = self.bit_count;
            let byte: u8 = (self.bit_buffer & 0xff) as u8;
            proof {
                let buffer = self.bit_buffer;
                lemma_pow2_8();
                lemma_pow2_strictly_increases(n as nat, 8);
                assert(buffer & 0xff == buffer % 256) by (bit_vector);
                lemma_byte_bits_push(self.output@, byte);
                lemma_to_bits_concat(buffer as nat, n as nat, 0, (8 - n) as nat);
                lemma_to_bits_zero((8 - n) as nat);
                assert(0 * pow2(n as nat) == 0);
            }
            self.output.push(byte);
            self.bit_buffer = 0;
            self.bit_count = 0;
            proof {
                assert(padding(old(self).bits().len()) == 8 - n);
                assert(byte_bits(self.output@) =~= padded(old(self).bits()));
                assert(self.bytes() =~= old(self).bytes() + seq![byte]);
            }
        } else {
            proof {
                assert(padding(self.bits().len()) == 0);
                assert(byte_bits(self.output@) =~= padded(self.bits()));
                assert(self.bytes() =~= old(self).bytes() + Seq::<u8>::empty());
            }
        }
        proof {
            assert(self.bits() =~= byte_bits(self.output@));
        }
    }

    /// Equivalent to calling [`BitWriter::align_to_byte`] and dropping the
    /// writer.
    pub fn finish(self)
        requires
            self.wf(),
        ensures
            byte_bits(final(self.output)@) == padded(self.bits()),
            exists|more: Seq<u8>| final(self.output)@ == #[trigger] (self.bytes() + more),
    {
        let mut writer = self;
        writer.align_to_byte();
    }

    /// Drop the writer and hand out the bits that do not fill a byte.
    pub fn bit_state(self) -> (state: (u64, u8))
        requires
            self.wf(),
        ensures
            state.1 < 8,
            state.0 < pow2(state.1 as nat),
            to_bits(state.0 as nat, state.1 as nat) == self.pending(),
            final(self.output)@ == self.bytes(),
    {
        (self.bit_buffer, self.bit_count)
    }
}

} // verus!
