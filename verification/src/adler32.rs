//! Adler-32 checksum (RFC 1950).
//!
//! Each [`Adler32::update`] call only takes the modulus once per 5552-byte
//! chunk (the maximum `n` for which both accumulators are guaranteed not to
//! overflow a `u32`).

use vstd::arithmetic::div_mod::{lemma_add_mod_noop, lemma_add_mod_noop_right};
use vstd::prelude::*;

verus! {

/// The largest prime below 65536.
pub const BASE: u32 = 65_521;

/// How many bytes can be added up before a sum has to be reduced.
pub const NMAX: usize = 5_552;

/// The two sums of an Adler-32 checksum, the second in front.
pub struct Sums {
    /// The sum of the sums after each byte.
    pub b: nat,
    /// The sum of the bytes, and one.
    pub a: nat,
}

/// The sums of no bytes.
pub open spec fn no_sums() -> Sums {
    Sums { b: 0, a: 1 }
}

/// The sums after more bytes.
pub open spec fn summed(sums: Sums, data: Seq<u8>) -> Sums
    decreases data.len(),
{
    if data.len() == 0 {
        sums
    } else {
        let before = summed(sums, data.drop_last());
        let a = (before.a + data.last() as nat) % (BASE as nat);
        Sums { b: (before.b + a) % (BASE as nat), a }
    }
}

/// The checksum that two sums make.
pub open spec fn joined(sums: Sums) -> nat {
    sums.b * 65536 + sums.a
}

/// The Adler-32 checksum of a string of bytes.
pub open spec fn checksum(data: Seq<u8>) -> nat {
    joined(summed(no_sums(), data))
}

/// Sums that have been reduced.
pub open spec fn reduced(sums: Sums) -> bool {
    sums.a < BASE && sums.b < BASE
}

/// Reduced sums stay reduced.
pub proof fn lemma_reduced(sums: Sums, data: Seq<u8>)
    requires
        reduced(sums),
    ensures
        reduced(summed(sums, data)),
        joined(summed(sums, data)) < 0x1_0000_0000,
    decreases data.len(),
{
    if data.len() > 0 {
        lemma_reduced(sums, data.drop_last());
    }
}

/// Adding bytes in two pieces is adding them at once.
pub proof fn lemma_summed_concat(sums: Sums, first: Seq<u8>, second: Seq<u8>)
    ensures
        summed(sums, first + second) == summed(summed(sums, first), second),
    decreases second.len(),
{
    let all = first + second;
    if second.len() == 0 {
        assert(all =~= first);
    } else {
        assert(all.drop_last() =~= first + second.drop_last());
        assert(all.last() == second.last());
        lemma_summed_concat(sums, first, second.drop_last());
    }
}

/// Twice what the second sum is at most, `k` bytes after it was reduced.
spec fn bound(k: int) -> int {
    131040 * (k + 1) + 255 * (k * (k + 1))
}

proof fn lemma_bound(k: int)
    requires
        0 <= k < 5552,
    ensures
        bound(0) == 131040,
        bound(k + 1) == bound(k) + 2 * (65520 + 255 * (k + 1)),
        bound(k + 1) <= 0x1_ffff_fffe,
{
    assert((k + 1) * (k + 1 + 1) == k * (k + 1) + 2 * (k + 1)) by (nonlinear_arith);
    assert((k + 1) * (k + 1 + 1) <= 5552 * 5553) by (nonlinear_arith)
        requires
            0 <= k < 5552,
    ;
}

/// Sums can be reduced later.
proof fn lemma_reduce_later(a: int, b: int, byte: int)
    ensures
        (a % 65521 + byte) % 65521 == (a + byte) % 65521,
        (b % 65521 + (a + byte) % 65521) % 65521 == (b + (a + byte)) % 65521,
{
    lemma_add_mod_noop_right(byte, a, 65521);
    lemma_add_mod_noop(b, a + byte, 65521);
}

/// Streaming Adler-32 checksum.
#[derive(Debug)]
pub struct Adler32 {
    a: u32,
    b: u32,
}

impl Clone for Adler32 {
    fn clone(&self) -> (copy: Self)
        ensures
            copy == *self,
    {
        Adler32 { a: self.a, b: self.b }
    }
}

impl Default for Adler32 {
    fn default() -> (adler: Self)
        ensures
            adler.wf(),
            adler.sums() == no_sums(),
    {
        Self::new()
    }
}

impl Adler32 {
    /// The two sums.
    pub closed spec fn sums(self) -> Sums {
        Sums { b: self.b as nat, a: self.a as nat }
    }

    /// The sums have been reduced.
    pub open spec fn wf(self) -> bool {
        reduced(self.sums())
    }

    /// Create a new Adler-32 accumulator with the RFC 1950 initial state.
    pub fn new() -> (adler: Self)
        ensures
            adler.wf(),
            adler.sums() == no_sums(),
    {
        Adler32 { a: 1, b: 0 }
    }

    /// Feed more bytes.
    pub fn update(&mut self, data: &[u8])
        requires
            old(self).wf(),
        ensures
            final(self).wf(),
            final(self).sums() == summed(old(self).sums(), data@),
    {
        let ghost sums = self.sums();
        let end: usize = data.len();
        let mut a: u32 = self.a;
        let mut b: u32 = self.b;
        let mut offset: usize = 0;
        assert(data@.take(0) =~= Seq::<u8>::empty());
        while offset < end
            invariant
                offset <= end == data@.len(),
                a < BASE,
                b < BASE,
                summed(sums, data@.take(offset as int)) == (Sums { b: b as nat, a: a as nat }),
            decreases end - offset,
        {
            let chunk_end: usize = if end - offset > NMAX {
                offset + NMAX
            } else {
                end
            };
            let mut i: usize = offset;
            proof {
                lemma_bound(0);
            }
            while i < chunk_end
                invariant
                    offset <= i <= chunk_end <= end == data@.len(),
                    chunk_end - offset <= NMAX,
                    a <= 65520 + 255 * (i - offset),
                    2 * b <= bound(i - offset),
                    summed(sums, data@.take(i as int)) == (Sums {
                        b: (b % BASE) as nat,
                        a: (a % BASE) as nat,
                    }),
                decreases chunk_end - i,
            {
                proof {
                    let longer = data@.take(i as int + 1);
                    assert(longer.drop_last() =~= data@.take(i as int));
                    assert(longer.last() == data@[i as int]);
                    lemma_bound(i - offset);
                    lemma_reduce_later(a as int, b as int, data@[i as int] as int);
                }
                a += data[i] as u32;
                b += a;
                i += 1;
            }
            a = a % BASE;
            b = b % BASE;
            offset = chunk_end;
        }
        assert(data@.take(offset as int) =~= data@);
        self.a = a;
        self.b = b;
    }

    /// Return the current 32-bit Adler-32 value
    /// `(b << 16) | a` in RFC 1950 byte order.
    pub fn value(&self) -> (value: u32)
        requires
            self.wf(),
        ensures
            value == joined(self.sums()),
    {
        self.b * 65536 + self.a
    }
}

/// One-shot convenience: compute Adler-32 of a full byte slice.
pub fn adler32(data: &[u8]) -> (value: u32)
    ensures
        value == checksum(data@),
{
    let mut a = Adler32::new();
    a.update(data);
    a.value()
}

/// The checksum of no bytes is one. With one more byte, the low half grows by the
/// byte and the high half by the low one, both modulo 65521.
pub proof fn lemma_one_more(data: Seq<u8>, byte: u8)
    ensures
        checksum(Seq::empty()) == 1,
        checksum(data) % 65536 < 65521,
        checksum(data) / 65536 < 65521,
        checksum(data.push(byte)) % 65536 == (checksum(data) % 65536 + byte) % 65521,
        checksum(data.push(byte)) / 65536 == (checksum(data) / 65536 + (checksum(data) % 65536
            + byte) % 65521) % 65521,
{
    lemma_reduced(no_sums(), data);
    lemma_reduced(no_sums(), data.push(byte));
    assert(data.push(byte).drop_last() =~= data);
    let before = summed(no_sums(), data);
    let after = summed(no_sums(), data.push(byte));
    assert(joined(before) % 65536 == before.a && joined(before) / 65536 == before.b);
    assert(joined(after) % 65536 == after.a && joined(after) / 65536 == after.b);
}

} // verus!
