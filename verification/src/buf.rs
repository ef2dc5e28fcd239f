//! Internal byte queue shared by the encoders and decoders.
//!
//! Bytes are appended via [`Buf::feed`], exposed for borrowed reads via
//! [`Buf::get`], and removed from the front by [`Buf::advance`]. To keep
//! memory bounded when readers lag behind writers, the buffer compacts once
//! its underlying `Vec` exceeds 1 MiB.

use vstd::prelude::*;

verus! {

/// The queue compacts once its underlying `Vec` is longer than this.
pub const BUF_COMPACT_THRESHOLD: usize = 1_048_576;

/// A queue of bytes.
#[derive(Debug)]
pub struct Buf {
    bytes: Vec<u8>,
    offset: usize,
}

impl View for Buf {
    type V = Seq<u8>;

    /// The bytes that have not been removed.
    closed spec fn view(&self) -> Seq<u8> {
        self.bytes@.skip(self.offset as int)
    }
}

impl Default for Buf {
    fn default() -> (buf: Self)
        ensures
            buf.wf(),
            buf@ == Seq::<u8>::empty(),
    {
        Self::new()
    }
}

impl Buf {
    /// The removed bytes are part of those that were stored.
    pub closed spec fn wf(self) -> bool {
        self.offset <= self.bytes@.len()
    }

    /// How many bytes are kept in memory, removed ones among them.
    pub closed spec fn retained(self) -> nat {
        self.bytes@.len()
    }

    /// The bytes in the queue are among those that are kept in memory.
    pub proof fn lemma_wf(self)
        requires
            self.wf(),
        ensures
            self@.len() <= self.retained(),
    {
    }

    /// An empty queue.
    pub fn new() -> (buf: Self)
        ensures
            buf.wf(),
            buf@ == Seq::<u8>::empty(),
            buf.retained() == 0,
    {
        let buf = Buf { bytes: Vec::new(), offset: 0 };
        assert(buf@ =~= Seq::<u8>::empty());
        buf
    }

    /// The bytes in the queue, oldest first.
    pub fn get(&self) -> (bytes: &[u8])
        requires
            self.wf(),
        ensures
            bytes@ == self@,
    {
        let all: &[u8] = self.bytes.as_slice();
        vstd::slice::slice_subrange(all, self.offset, all.len())
    }

    /// Append `buf`.
    pub fn feed(&mut self, buf: &[u8])
        requires
            old(self).wf(),
        ensures
            final(self).wf(),
            final(self)@ == old(self)@ + buf@,
            final(self).retained() <= BUF_COMPACT_THRESHOLD || final(self).retained()
                == final(self)@.len(),
    {
        self.bytes.extend_from_slice(buf);
        assert(self@ =~= old(self)@ + buf@);
        self.maybe_compact();
    }

    /// Remove `n` bytes from the front. There must be as many.
    pub fn advance(&mut self, n: usize)
        requires
            old(self).wf(),
            n <= old(self)@.len(),
        ensures
            final(self).wf(),
            final(self)@ == old(self)@.skip(n as int),
            final(self).retained() == if n == old(self)@.len() {
                0
            } else {
                old(self).retained()
            },
    {
        assert(self.offset + n <= self.bytes.len());
        self.offset += n;
        assert(self@ =~= old(self)@.skip(n as int));
        if self.offset == self.bytes.len() {
            self.offset = 0;
            self.bytes.clear();
            assert(self@ =~= old(self)@.skip(n as int));
        }
    }

    /// Drop the removed bytes from memory once the `Vec` has become long.
    fn maybe_compact(&mut self)
        requires
            old(self).wf(),
        ensures
            final(self).wf(),
            final(self)@ == old(self)@,
            final(self).retained() == if old(self).retained() > BUF_COMPACT_THRESHOLD {
                old(self)@.len()
            } else {
                old(self).retained()
            },
    {
        if self.bytes.len() > BUF_COMPACT_THRESHOLD && self.offset > 0 {
            let remaining: Vec<u8> = self.bytes.split_off(self.offset);
            self.bytes = remaining;
            self.offset = 0;
            assert(self@ =~= old(self)@);
        }
    }
}

} // verus!
