//! CRC-32 (IEEE 802.3, used by gzip) checksum.
//!
//! Uses a "slice-by-16" lookup strategy: a table of 16 × 256 u32 entries
//! (16 KiB, built for each accumulator) lets [`Crc32::update`] process 16
//! input bytes per iteration with 16 lookups and XORs.

use vstd::prelude::*;

verus! {

/// Reflected CRC-32 polynomial (standard IEEE 802.3 CRC).
pub const POLYNOMIAL: u32 = 0xEDB8_8320;

/// How many bytes are taken at a time.
pub const SLICE: usize = 16;

/// Divide by the polynomial for one bit.
pub open spec fn bit_step(c: u32) -> u32 {
    if c & 1 != 0 {
        (c >> 1) ^ 0xEDB8_8320
    } else {
        c >> 1
    }
}

/// Divide by the polynomial for eight bits.
pub open spec fn byte_shift(c: u32) -> u32 {
    bit_step(bit_step(bit_step(bit_step(bit_step(bit_step(bit_step(bit_step(c))))))))
}

/// The state of a CRC-32 after more bytes.
pub open spec fn crc_state(state: u32, data: Seq<u8>) -> u32
    decreases data.len(),
{
    if data.len() == 0 {
        state
    } else {
        byte_shift(crc_state(state, data.drop_last()) ^ (data.last() as u32))
    }
}

/// The CRC-32 of a string of bytes.
pub open spec fn checksum(data: Seq<u8>) -> u32 {
    !crc_state(0xFFFF_FFFF, data)
}

/// Dividing in two pieces is dividing at once.
pub proof fn lemma_crc_concat(state: u32, first: Seq<u8>, second: Seq<u8>)
    ensures
        crc_state(state, first + second) == crc_state(crc_state(state, first), second),
    decreases second.len(),
{
    let all = first + second;
    if second.len() == 0 {
        assert(all =~= first);
    } else {
        assert(all.drop_last() =~= first + second.drop_last());
        assert(all.last() == second.last());
        lemma_crc_concat(state, first, second.drop_last());
    }
}

// ---------------------------------------------------------------------------
// Division is linear
// ---------------------------------------------------------------------------

/// Divide by the polynomial for `8 * n` bits.
spec fn shifted(c: u32, n: nat) -> u32
    decreases n,
{
    if n == 0 {
        c
    } else {
        shifted(byte_shift(c), (n - 1) as nat)
    }
}

proof fn lemma_bit_linear(a: u32, b: u32)
    ensures
        bit_step(a ^ b) == bit_step(a) ^ bit_step(b),
{
    assert(bit_step(a ^ b) == bit_step(a) ^ bit_step(b)) by (bit_vector);
}

proof fn lemma_byte_linear(a: u32, b: u32)
    ensures
        byte_shift(a ^ b) == byte_shift(a) ^ byte_shift(b),
{
    let a1 = bit_step(a);
    let b1 = bit_step(b);
    let a2 = bit_step(a1);
    let b2 = bit_step(b1);
    let a3 = bit_step(a2);
    let b3 = bit_step(b2);
    let a4 = bit_step(a3);
    let b4 = bit_step(b3);
    let a5 = bit_step(a4);
    let b5 = bit_step(b4);
    let a6 = bit_step(a5);
    let b6 = bit_step(b5);
    let a7 = bit_step(a6);
    let b7 = bit_step(b6);
    lemma_bit_linear(a, b);
    lemma_bit_linear(a1, b1);
    lemma_bit_linear(a2, b2);
    lemma_bit_linear(a3, b3);
    lemma_bit_linear(a4, b4);
    lemma_bit_linear(a5, b5);
    lemma_bit_linear(a6, b6);
    lemma_bit_linear(a7, b7);
}

proof fn lemma_shifted_linear(a: u32, b: u32, n: nat)
    ensures
        shifted(a ^ b, n) == shifted(a, n) ^ shifted(b, n),
    decreases n,
{
    if n > 0 {
        lemma_byte_linear(a, b);
        lemma_shifted_linear(byte_shift(a), byte_shift(b), (n - 1) as nat);
    }
}

/// The order of single divisions does not matter.
proof fn lemma_shifted_last(c: u32, n: nat)
    ensures
        byte_shift(shifted(c, n)) == shifted(c, n + 1),
    decreases n,
{
    if n > 0 {
        lemma_shifted_last(byte_shift(c), (n - 1) as nat);
    } else {
        assert(shifted(byte_shift(c), 0) == byte_shift(c));
    }
}

/// Eight zero bits are only shifted out.
proof fn lemma_shift_zeros(x: u32)
    requires
        x < 0x100_0000,
    ensures
        byte_shift(x << 8u32) == x,
{
    assert(byte_shift(x << 8u32) == x) by (bit_vector)
        requires
            x < 0x100_0000u32,
    ;
}

/// A division looks up the low byte and shifts the others.
proof fn lemma_look_up(x: u32)
    ensures
        byte_shift(x) == (x >> 8u32) ^ byte_shift(x & 0xffu32),
{
    let low = x & 0xffu32;
    let high = x >> 8u32;
    assert(x == (high << 8u32) ^ low && high < 0x100_0000) by (bit_vector)
        requires
            low == x & 0xffu32,
            high == x >> 8u32,
    ;
    lemma_byte_linear(high << 8u32, low);
    lemma_shift_zeros(high);
}

/// The bytes of a word, each in its place.
spec fn word_of(b0: u32, b1: u32, b2: u32, b3: u32) -> u32 {
    b0 ^ (b1 << 8u32) ^ (b2 << 16u32) ^ (b3 << 24u32)
}

/// A word is divided byte by byte.
proof fn lemma_word(b0: u32, b1: u32, b2: u32, b3: u32, n: nat)
    requires
        b0 < 256,
        b1 < 256,
        b2 < 256,
        b3 < 256,
    ensures
        shifted(word_of(b0, b1, b2, b3), n + 4) == shifted(b0, n + 4) ^ shifted(b1, n + 3)
            ^ shifted(b2, n + 2) ^ shifted(b3, n + 1),
{
    let c1 = b1 << 8u32;
    let c2 = b2 << 16u32;
    let c3 = b3 << 24u32;
    assert(b1 < 0x100_0000 && (b2 << 8u32) < 0x100_0000 && (b3 << 16u32) < 0x100_0000 && (b3
        << 8u32) < 0x100_0000 && c2 == (b2 << 8u32) << 8u32 && c3 == (b3 << 16u32) << 8u32 && (b3
        << 16u32) == (b3 << 8u32) << 8u32) by (bit_vector)
        requires
            b1 < 256,
            b2 < 256,
            b3 < 256,
            c2 == b2 << 16u32,
            c3 == b3 << 24u32,
    ;
    lemma_shift_zeros(b1);
    lemma_shift_zeros(b2 << 8u32);
    lemma_shift_zeros(b2);
    lemma_shift_zeros(b3 << 16u32);
    lemma_shift_zeros(b3 << 8u32);
    lemma_shift_zeros(b3);
    reveal_with_fuel(shifted, 4);
    assert(shifted(c1, n + 4) == shifted(b1, n + 3));
    assert(shifted(c2, n + 4) == shifted(b2, n + 2));
    assert(shifted(c3, n + 4) == shifted(b3, n + 1));
    lemma_shifted_linear(b0 ^ c1 ^ c2, c3, n + 4);
    lemma_shifted_linear(b0 ^ c1, c2, n + 4);
    lemma_shifted_linear(b0, c1, n + 4);
}

/// Four bytes are divided like the word that they make.
#[verifier::spinoff_prover]
#[verifier::rlimit(60)]
proof fn lemma_four(state: u32, d0: u8, d1: u8, d2: u8, d3: u8)
    ensures
        crc_state(state, seq![d0, d1, d2, d3]) == shifted(
            state ^ word_of(d0 as u32, d1 as u32, d2 as u32, d3 as u32),
            4,
        ),
{
    let (b0, b1, b2, b3) = (d0 as u32, d1 as u32, d2 as u32, d3 as u32);
    let s1 = byte_shift(state ^ b0);
    let s2 = byte_shift(s1 ^ b1);
    let s3 = byte_shift(s2 ^ b2);
    let s4 = byte_shift(s3 ^ b3);
    assert(crc_state(state, seq![d0, d1, d2, d3]) == s4) by {
        assert(seq![d0, d1, d2, d3].drop_last() =~= seq![d0, d1, d2]);
        assert(seq![d0, d1, d2].drop_last() =~= seq![d0, d1]);
        assert(seq![d0, d1].drop_last() =~= seq![d0]);
        assert(seq![d0].drop_last() =~= Seq::<u8>::empty());
        reveal_with_fuel(crc_state, 6);
    }
    reveal_with_fuel(shifted, 6);
    lemma_word(b0, b1, b2, b3, 0);
    lemma_byte_linear(state, b0);
    lemma_byte_linear(s1, b1);
    lemma_byte_linear(s2, b2);
    lemma_byte_linear(s3, b3);
    lemma_shifted_linear(state, word_of(b0, b1, b2, b3), 4);
    let z1 = byte_shift(state);
    let y1 = byte_shift(b0);
    lemma_byte_linear(z1, y1);
    let z2 = byte_shift(z1);
    let y2 = byte_shift(y1);
    let x2 = byte_shift(b1);
    lemma_byte_linear(z2 ^ y2, x2);
    lemma_byte_linear(z2, y2);
    let z3 = byte_shift(z2);
    let y3 = byte_shift(y2);
    let x3 = byte_shift(x2);
    let w3 = byte_shift(b2);
    lemma_byte_linear(z3 ^ y3 ^ x3, w3);
    lemma_byte_linear(z3 ^ y3, x3);
    lemma_byte_linear(z3, y3);
    let z4 = byte_shift(z3);
    let y4 = byte_shift(y3);
    let x4 = byte_shift(x3);
    let w4 = byte_shift(w3);
    let v4 = byte_shift(b3);
    assert(s4 == z4 ^ y4 ^ x4 ^ w4 ^ v4);
    assert(z4 ^ y4 ^ x4 ^ w4 ^ v4 == z4 ^ (y4 ^ x4 ^ w4 ^ v4)) by (bit_vector);
}

/// Sixteen bytes are divided like the four words that they make.
proof fn lemma_sixteen(state: u32, d: Seq<u8>)
    requires
        d.len() == 16,
    ensures
        crc_state(state, d) == shifted(
            state ^ word_of(d[0] as u32, d[1] as u32, d[2] as u32, d[3] as u32),
            16,
        ) ^ shifted(word_of(d[4] as u32, d[5] as u32, d[6] as u32, d[7] as u32), 12) ^ shifted(
            word_of(d[8] as u32, d[9] as u32, d[10] as u32, d[11] as u32),
            8,
        ) ^ shifted(word_of(d[12] as u32, d[13] as u32, d[14] as u32, d[15] as u32), 4),
{
    let w0 = word_of(d[0] as u32, d[1] as u32, d[2] as u32, d[3] as u32);
    let w1 = word_of(d[4] as u32, d[5] as u32, d[6] as u32, d[7] as u32);
    let w2 = word_of(d[8] as u32, d[9] as u32, d[10] as u32, d[11] as u32);
    let w3 = word_of(d[12] as u32, d[13] as u32, d[14] as u32, d[15] as u32);
    let p0 = seq![d[0], d[1], d[2], d[3]];
    let p1 = seq![d[4], d[5], d[6], d[7]];
    let p2 = seq![d[8], d[9], d[10], d[11]];
    let p3 = seq![d[12], d[13], d[14], d[15]];
    let s1 = crc_state(state, p0);
    let s2 = crc_state(s1, p1);
    let s3 = crc_state(s2, p2);
    assert(d =~= p0 + p1 + p2 + p3);
    lemma_crc_concat(state, p0 + p1 + p2, p3);
    lemma_crc_concat(state, p0 + p1, p2);
    lemma_crc_concat(state, p0, p1);
    lemma_four(state, d[0], d[1], d[2], d[3]);
    lemma_four(s1, d[4], d[5], d[6], d[7]);
    lemma_four(s2, d[8], d[9], d[10], d[11]);
    lemma_four(s3, d[12], d[13], d[14], d[15]);
    let x = state ^ w0;
    lemma_shifted_linear(s1, w1, 4);
    lemma_shifted_more(x, 4, 4);
    lemma_shifted_linear(s2, w2, 4);
    lemma_shifted_linear(shifted(x, 8), shifted(w1, 4), 4);
    lemma_shifted_more(x, 8, 4);
    lemma_shifted_more(w1, 4, 4);
    lemma_shifted_linear(s3, w3, 4);
    lemma_shifted_linear(shifted(x, 12) ^ shifted(w1, 8), shifted(w2, 4), 4);
    lemma_shifted_linear(shifted(x, 12), shifted(w1, 8), 4);
    lemma_shifted_more(x, 12, 4);
    lemma_shifted_more(w1, 8, 4);
    lemma_shifted_more(w2, 4, 4);
}

proof fn lemma_shifted_more(c: u32, n: nat, more: nat)
    ensures
        shifted(shifted(c, n), more) == shifted(c, n + more),
    decreases n,
{
    if n > 0 {
        lemma_shifted_more(byte_shift(c), (n - 1) as nat, more);
    }
}

// ---------------------------------------------------------------------------
// The table
// ---------------------------------------------------------------------------

/// Entry `256 * k + i` is the byte `i` divided for `k + 1` bytes.
spec fn is_table(table: Seq<u32>) -> bool {
    &&& table.len() == 4096
    &&& forall|k: nat, i: u32|
        k < 16 && i < 256 ==> #[trigger] table_entry(table, k, i) == shifted(i, k + 1)
}

spec fn table_entry(table: Seq<u32>, k: nat, i: u32) -> u32 {
    table[256 * k + i]
}

/// The entries of the first `n` places are there.
spec fn table_filled(table: Seq<u32>, n: nat) -> bool {
    forall|k: nat, i: u32|
        i < 256 && 256 * k + i < n ==> #[trigger] table_entry(table, k, i) == shifted(i, k + 1)
}

fn make_table() -> (table: Vec<u32>)
    ensures
        is_table(table@),
{
    let mut table: Vec<u32> = Vec::with_capacity(4096);
    // Classic reflected CRC-32 byte table.
    let mut i: u32 = 0;
    while i < 256
        invariant
            i <= 256,
            table@.len() == i,
            table_filled(table@, i as nat),
        decreases 256 - i,
    {
        let mut c: u32 = i;
        let mut j: u32 = 0;
        let ghost goal = byte_shift(i);
        proof {
            reveal_with_fuel(bits_left, 9);
        }
        while j < 8
            invariant
                j <= 8,
                goal == bits_left(c, (8 - j) as nat),
            decreases 8 - j,
        {
            c = if c & 1 != 0 {
                (c >> 1) ^ POLYNOMIAL
            } else {
                c >> 1
            };
            j += 1;
        }
        let ghost before = table@;
        table.push(c);
        proof {
            assert(c == byte_shift(i));
            assert(shifted(i, 1) == shifted(byte_shift(i), 0));
            assert forall|k: nat, b: u32| b < 256 && 256 * k + b < i + 1 implies #[trigger]
                table_entry(table@, k, b) == shifted(b, k + 1) by {
                if 256 * k + b < i {
                    assert(table_entry(before, k, b) == shifted(b, k + 1));
                }
            }
        }
        i += 1;
    }
    // Derived tables: entry k of byte b is the CRC of [b, 0, 0, ..., 0] (k zeros).
    let mut at: usize = 256;
    while at < 4096
        invariant
            256 <= at <= 4096,
            table@.len() == at,
            table_filled(table@, at as nat),
        decreases 4096 - at,
    {
        let prev: u32 = table[at - 256];
        let low: u32 = prev & 0xff;
        let ghost k = (at / 256) as nat;
        let ghost b = (at % 256) as u32;
        proof {
            assert(low < 256) by (bit_vector)
                requires
                    low == prev & 0xffu32,
            ;
            assert(table_entry(table@, (k - 1) as nat, b) == shifted(b, k));
            assert(table_entry(table@, 0, low) == shifted(low, 1));
            assert(shifted(low, 1) == shifted(byte_shift(low), 0));
            lemma_look_up(prev);
            lemma_shifted_last(b, k);
        }
        let entry: u32 = (prev >> 8) ^ table[low as usize];
        let ghost before = table@;
        table.push(entry);
        proof {
            assert forall|kk: nat, bb: u32| bb < 256 && 256 * kk + bb < at + 1 implies #[trigger]
                table_entry(table@, kk, bb) == shifted(bb, kk + 1) by {
                if 256 * kk + bb < at {
                    assert(table_entry(before, kk, bb) == shifted(bb, kk + 1));
                } else {
                    assert(kk == k && bb == b);
                }
            }
        }
        at += 1;
    }
    table
}

/// What is left to do of a division for `n` bits.
spec fn bits_left(c: u32, n: nat) -> u32
    decreases n,
{
    if n == 0 {
        c
    } else {
        bits_left(bit_step(c), (n - 1) as nat)
    }
}

/// Streaming CRC-32 accumulator.
#[derive(Debug)]
pub struct Crc32 {
    // Stored *inverted* (initial 0xFFFFFFFF) so the inner loop does not
    // re-invert on each `update` call. `value` inverts on the way out.
    state: u32,
    table: Vec<u32>,
}

impl Clone for Crc32 {
    fn clone(&self) -> (copy: Self)
        ensures
            copy.state() == self.state(),
            self.wf() ==> copy.wf(),
    {
        let mut table: Vec<u32> = Vec::with_capacity(self.table.len());
        table.extend_from_slice(self.table.as_slice());
        assert(table@ =~= self.table@);
        Crc32 { state: self.state, table }
    }
}

impl Default for Crc32 {
    fn default() -> (crc: Self)
        ensures
            crc.wf(),
            crc.state() == 0xFFFF_FFFF,
    {
        Self::new()
    }
}

/// A word of bytes as the sum of what its bytes say.
fn load(data: &[u8], at: usize) -> (word: u32)
    requires
        at + 4 <= data@.len(),
    ensures
        word == word_of(
            data@[at as int] as u32,
            data@[at + 1] as u32,
            data@[at + 2] as u32,
            data@[at + 3] as u32,
        ),
{
    (data[at] as u32) ^ ((data[at + 1] as u32) << 8u32) ^ ((data[at + 2] as u32) << 16u32) ^ ((
    data[at + 3] as u32) << 24u32)
}

impl Crc32 {
    /// The state of the division.
    pub closed spec fn state(self) -> u32 {
        self.state
    }

    /// The table is in place.
    pub closed spec fn wf(self) -> bool {
        is_table(self.table@)
    }

    /// New accumulator with the RFC 1952 initial state.
    pub fn new() -> (crc: Self)
        ensures
            crc.wf(),
            crc.state() == 0xFFFF_FFFF,
    {
        Crc32 { state: 0xFFFF_FFFF, table: make_table() }
    }

    /// Look up the four bytes of a word that stands `k` bytes before the end
    /// of a slice.
    fn look_up(&self, word: u32, k: usize) -> (divided: u32)
        requires
            self.wf(),
            k <= 12,
        ensures
            divided == shifted(word, k as nat + 4),
    {
        let b0: u32 = word & 0xff;
        let b1: u32 = (word >> 8u32) & 0xff;
        let b2: u32 = (word >> 16u32) & 0xff;
        let b3: u32 = word >> 24u32;
        proof {
            assert(b0 < 256 && b1 < 256 && b2 < 256 && b3 < 256 && word == b0 ^ (b1 << 8u32) ^ (b2
                << 16u32) ^ (b3 << 24u32)) by (bit_vector)
                requires
                    b0 == word & 0xff,
                    b1 == (word >> 8u32) & 0xff,
                    b2 == (word >> 16u32) & 0xff,
                    b3 == word >> 24u32,
            ;
            lemma_word(b0, b1, b2, b3, k as nat);
            assert(table_entry(self.table@, (k + 3) as nat, b0) == shifted(b0, k as nat + 4));
            assert(table_entry(self.table@, (k + 2) as nat, b1) == shifted(b1, k as nat + 3));
            assert(table_entry(self.table@, (k + 1) as nat, b2) == shifted(b2, k as nat + 2));
            assert(table_entry(self.table@, k as nat, b3) == shifted(b3, k as nat + 1));
        }
        self.table[256 * (k + 3) + b0 as usize] ^ self.table[256 * (k + 2) + b1 as usize]
            ^ self.table[256 * (k + 1) + b2 as usize] ^ self.table[256 * k + b3 as usize]
    }

    /// Feed more bytes.
    pub fn update(&mut self, data: &[u8])
        requires
            old(self).wf(),
        ensures
            final(self).wf(),
            final(self).state() == crc_state(old(self).state(), data@),
    {
        let end: usize = data.len();
        let mut crc: u32 = self.state;
        let mut i: usize = 0;
        assert(data@.take(0) =~= Seq::<u8>::empty());
        while end - i >= SLICE
            invariant
                i <= end == data@.len(),
                *self == *old(self),
                self.wf(),
                crc == crc_state(self.state, data@.take(i as int)),
            decreases end - i,
        {
            // Treat the 16-byte chunk as four little-endian u32s. The
            // first is XORed with the current CRC; the others are used
            // as-is.
            let first: u32 = load(data, i);
            let w0: u32 = crc ^ first;
            let w1: u32 = load(data, i + 4);
            let w2: u32 = load(data, i + 8);
            let w3: u32 = load(data, i + 12);
            proof {
                let d = data@.subrange(i as int, i + 16);
                assert(data@.take(i + 16) =~= data@.take(i as int) + d);
                lemma_crc_concat(self.state, data@.take(i as int), d);
                lemma_sixteen(crc, d);
            }
            crc = self.look_up(w0, 12) ^ self.look_up(w1, 8) ^ self.look_up(w2, 4) ^ self.look_up(
                w3,
                0,
            );
            i += SLICE;
        }
        while i < end
            invariant
                i <= end == data@.len(),
                *self == *old(self),
                self.wf(),
                crc == crc_state(self.state, data@.take(i as int)),
            decreases end - i,
        {
            let byte: u32 = data[i] as u32;
            let low: u32 = (crc ^ byte) & 0xff;
            proof {
                let longer = data@.take(i as int + 1);
                assert(longer.drop_last() =~= data@.take(i as int));
                assert(longer.last() == data@[i as int]);
                let x = crc ^ byte;
                assert(low < 256 && x >> 8u32 == crc >> 8u32) by (bit_vector)
                    requires
                        low == (crc ^ byte) & 0xff,
                        x == crc ^ byte,
                        byte < 256,
                ;
                lemma_look_up(x);
                assert(table_entry(self.table@, 0, low) == shifted(low, 1));
                assert(shifted(low, 1) == shifted(byte_shift(low), 0));
            }
            crc = (crc >> 8u32) ^ self.table[low as usize];
            i += 1;
        }
        assert(data@.take(i as int) =~= data@);
        self.state = crc;
    }

    /// Finalise and return the 32-bit CRC-32 value.
    pub fn value(&self) -> (value: u32)
        ensures
            value == !self.state(),
    {
        !self.state
    }
}

/// One-shot convenience: compute CRC-32 of a full byte slice.
pub fn crc32(data: &[u8]) -> (value: u32)
    ensures
        value == checksum(data@),
{
    let mut c = Crc32::new();
    c.update(data);
    c.value()
}

// ---------------------------------------------------------------------------
// What makes it the CRC-32
// ---------------------------------------------------------------------------

/// The checksum of no bytes is zero, and one more byte goes on from the inverted
/// checksum of those before it.
pub proof fn lemma_one_more(data: Seq<u8>, byte: u8)
    ensures
        checksum(Seq::empty()) == 0,
        checksum(data.push(byte)) == !crc_state(!checksum(data), seq![byte]),
{
    let c = crc_state(0xFFFF_FFFF, data);
    assert(!0xFFFF_FFFFu32 == 0u32) by (bit_vector);
    assert(!(!c) == c) by (bit_vector);
    lemma_crc_concat(0xFFFF_FFFF, data, seq![byte]);
    assert(data.push(byte) =~= data + seq![byte]);
}

proof fn lemma_state_byte(state: u32, byte: u8)
    ensures
        crc_state(state, seq![byte]) == byte_shift(state ^ (byte as u32)),
{
    assert(seq![byte].drop_last() =~= Seq::<u8>::empty());
    assert(crc_state(state, seq![byte].drop_last()) == state);
}

/// The state after a byte is linear in the bits of the state and of the byte.
pub proof fn lemma_state_linear(state: u32, byte: u8, other: u32, more: u8)
    ensures
        crc_state(state ^ other, seq![byte ^ more]) == crc_state(state, seq![byte]) ^ crc_state(
            other,
            seq![more],
        ),
{
    let x = state ^ (byte as u32);
    let y = other ^ (more as u32);
    lemma_state_byte(state, byte);
    lemma_state_byte(other, more);
    lemma_state_byte(state ^ other, byte ^ more);
    assert((state ^ other) ^ ((byte ^ more) as u32) == (state ^ (byte as u32)) ^ (other ^ (
    more as u32))) by (bit_vector);
    lemma_byte_linear(x, y);
}

/// Bits of the state from the ninth on move down by eight places.
pub proof fn lemma_state_high(high: u32)
    requires
        high < 0x100_0000,
    ensures
        crc_state(high << 8u32, seq![0u8]) == high,
{
    let x = high << 8u32;
    lemma_state_byte(x, 0);
    assert(x ^ (0u8 as u32) == x) by (bit_vector);
    lemma_shift_zeros(high);
}

/// A single bit among the low eight, in the byte or in the state, leaves a
/// remainder of the division by the polynomial of IEEE 802.3: the polynomial
/// itself for the highest of them.
pub proof fn lemma_state_low()
    ensures
        crc_state(0, seq![0x80u8]) == 0xEDB8_8320,
        crc_state(0, seq![0x40u8]) == 0x76DC_4190,
        crc_state(0, seq![0x20u8]) == 0x3B6E_20C8,
        crc_state(0, seq![0x10u8]) == 0x1DB7_1064,
        crc_state(0, seq![0x08u8]) == 0x0EDB_8832,
        crc_state(0, seq![0x04u8]) == 0x076D_C419,
        crc_state(0, seq![0x02u8]) == 0xEE0E_612C,
        crc_state(0, seq![0x01u8]) == 0x7707_3096,
        forall|state: u32, byte: u8|
            #![trigger crc_state(state, seq![byte])]
            state < 256 ==> crc_state(state, seq![byte]) == crc_state(
                0,
                seq![byte ^ (state as u8)],
            ),
{
    lemma_state_byte(0, 0x80);
    lemma_state_byte(0, 0x40);
    lemma_state_byte(0, 0x20);
    lemma_state_byte(0, 0x10);
    lemma_state_byte(0, 0x08);
    lemma_state_byte(0, 0x04);
    lemma_state_byte(0, 0x02);
    lemma_state_byte(0, 0x01);
    assert(byte_shift(0u32 ^ 0x80u32) == 0xEDB8_8320u32 && byte_shift(0u32 ^ 0x40u32)
        == 0x76DC_4190u32 && byte_shift(0u32 ^ 0x20u32) == 0x3B6E_20C8u32 && byte_shift(
        0u32 ^ 0x10u32,
    ) == 0x1DB7_1064u32 && byte_shift(0u32 ^ 0x08u32) == 0x0EDB_8832u32 && byte_shift(
        0u32 ^ 0x04u32,
    ) == 0x076D_C419u32 && byte_shift(0u32 ^ 0x02u32) == 0xEE0E_612Cu32 && byte_shift(
        0u32 ^ 0x01u32,
    ) == 0x7707_3096u32) by (bit_vector);
    assert forall|state: u32, byte: u8|
        #![trigger crc_state(state, seq![byte])]
        state < 256 implies crc_state(state, seq![byte]) == crc_state(
        0,
        seq![byte ^ (state as u8)],
    ) by {
        let low = byte ^ (state as u8);
        lemma_state_byte(state, byte);
        lemma_state_byte(0, low);
        assert(state ^ (byte as u32) == 0u32 ^ ((byte ^ (state as u8)) as u32)) by (bit_vector)
            requires
                state < 256,
        ;
    }
}

} // verus!
