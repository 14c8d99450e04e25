//! A buffer of bytes with an aligned start.

use crate::key::small_power_of_two;
use aligned_vec::AVec;
use vstd::prelude::*;

verus! {

/// A buffer that entries are read from as they arrive: an [`AVec`] of bytes.
#[verifier::external_body]
pub struct AlignedBuf {
    buf: AVec<u8>,
}

/// What a buffer holds.
pub uninterp spec fn buffer_bytes(buffer: AlignedBuf) -> Seq<u8>;

impl View for AlignedBuf {
    type V = Seq<u8>;

    open spec fn view(&self) -> Seq<u8> {
        buffer_bytes(*self)
    }
}

/// Whether a buffer of `len` bytes can be had: it takes no more than `isize::MAX` bytes
/// with what its alignment adds.
pub open spec fn fits_in_memory(len: nat) -> bool {
    len + 1024 <= isize::MAX
}

impl AlignedBuf {
    /// Calls [`AVec::new`], which returns an empty vector.
    ///
    /// It panics where the alignment is no power of two or is greater than the
    /// size of a cache line, which is 32 bytes at least on every machine.
    #[verifier::external_body]
    pub(crate) fn new(align: usize) -> (r: AlignedBuf)
        requires
            small_power_of_two(align),
        ensures
            buffer_bytes(r) == Seq::<u8>::empty(),
    {
        AlignedBuf { buf: AVec::new(align) }
    }

    /// Calls [`AVec::capacity`], which returns how many bytes there is room for. Nothing is
    /// said of the result.
    #[verifier::external_body]
    fn capacity(&self) -> usize {
        self.buf.capacity()
    }

    /// Calls [`AVec::reserve_exact`], which makes room for `extra` more bytes and leaves
    /// those that are there, and then [`AVec::extend_from_slice`], which puts `other`
    /// behind them and finds the room that it needs.
    ///
    /// It panics where room for more than `isize::MAX` bytes is asked for.
    #[verifier::external_body]
    fn extend_with_room(&mut self, other: &[u8], extra: usize)
        requires
            other@.len() <= extra,
            fits_in_memory(buffer_bytes(*old(self)).len() + extra as nat),
        ensures
            buffer_bytes(*final(self)) == buffer_bytes(*old(self)) + other@,
    {
        self.buf.reserve_exact(extra);
        self.buf.extend_from_slice(other);
    }

    /// Puts bytes behind those that are there, if there can be room for them. A buffer
    /// that has to grow takes twice the room, as far as it can be had.
    pub(crate) fn append(&mut self, other: &[u8]) -> (r: bool)
        ensures
            r == fits_in_memory(old(self)@.len() + other@.len()),
            final(self)@ == if r {
                old(self)@ + other@
            } else {
                old(self)@
            },
    {
        let len: usize = self.as_slice().len();
        let most: usize = isize::MAX as usize - 1024;
        if len > most || other.len() > most - len {
            return false;
        }
        let twice: usize = if len <= most - len {
            len
        } else {
            most - len
        };
        let extra: usize = if other.len() <= self.capacity().saturating_sub(len) || twice
            < other.len() {
            other.len()
        } else {
            twice
        };
        self.extend_with_room(other, extra);
        true
    }

    /// Calls [`AVec::as_slice`], which returns the bytes that are there.
    #[verifier::external_body]
    pub(crate) fn as_slice(&self) -> (r: &[u8])
        ensures
            r@ == buffer_bytes(*self),
    {
        self.buf.as_slice()
    }

    /// Calls [`slice::copy_within`] on the bytes of the [`AVec`], which puts those
    /// from `from` on to the front and leaves what stands behind them.
    ///
    /// It panics where there are fewer than `from` bytes.
    #[verifier::external_body]
    pub(crate) fn copy_to_front(&mut self, from: usize)
        requires
            from <= buffer_bytes(*old(self)).len(),
        ensures
            buffer_bytes(*final(self)) == buffer_bytes(*old(self)).skip(from as int)
                + buffer_bytes(*old(self)).skip(buffer_bytes(*old(self)).len() - from),
    {
        self.buf.copy_within(from.., 0);
    }

    /// Calls [`AVec::truncate`], which keeps the first `len` bytes and does nothing
    /// where there are no more.
    #[verifier::external_body]
    pub(crate) fn truncate(&mut self, len: usize)
        ensures
            buffer_bytes(*final(self)) == if len <= buffer_bytes(*old(self)).len() {
                buffer_bytes(*old(self)).take(len as int)
            } else {
                buffer_bytes(*old(self))
            },
    {
        self.buf.truncate(len);
    }

    /// Drops the first `n` bytes.
    pub(crate) fn drop_front(&mut self, n: usize)
        requires
            n <= old(self)@.len(),
        ensures
            final(self)@ == old(self)@.skip(n as int),
    {
        let len: usize = self.as_slice().len();
        self.copy_to_front(n);
        self.truncate(len - n);
        assert(self@ =~= old(self)@.skip(n as int));
    }
}

} // verus!
