//! Where a delivered frame's bytes live: chunked bump allocation.
//!
//! A delivery needs one contiguous `MSG <subject> <sid> [reply] <len>`, its payload
//! and a line end. Laid down in a chunk it costs one copy, and a chunk is one
//! allocation shared by every frame that fits in it; the chunk dies when the last of
//! those frames has been written.
//!
//! The chunk belongs to one connection. A chunk shared between two subscribers would
//! let a wedged one pin the bytes of a healthy one.
use bytes::{Bytes, BytesMut};
use vstd::prelude::*;

use crate::buf::{buffer_of, bytes_of};

verus! {

/// Bytes per chunk: small enough that a connection that goes quiet after one frame
/// wastes little, big enough that a small delivery costs a fraction of an allocation.
pub const CHUNK: usize = 8192;

/// A source of contiguous frame bytes. Its view is what was written since the last
/// [`seal`](Arena::seal).
pub struct Arena {
    /// Room still to be handed out from the current chunk.
    chunk: BytesMut,
    /// What a new chunk costs.
    size: usize,
}

impl View for Arena {
    type V = Seq<u8>;

    closed spec fn view(&self) -> Seq<u8> {
        buffer_of(self.chunk)
    }
}

impl Arena {
    /// What a new chunk costs.
    pub closed spec fn chunk_size(&self) -> usize {
        self.size
    }

    /// An arena with nothing written and no chunk yet.
    pub fn new() -> (r: Arena)
        ensures
            r@ == Seq::<u8>::empty(),
            r.chunk_size() == CHUNK,
    {
        Arena { chunk: BytesMut::new(), size: CHUNK }
    }

    /// Room for `need` bytes, in the current chunk if it has that much left, else in
    /// a fresh one: a frame larger than a chunk gets a buffer of its own. Everything
    /// written through the returned buffer is handed over by the next
    /// [`seal`](Arena::seal), so `need` is an upper bound, not a promise.
    ///
    /// What was written and not sealed moves along into the fresh chunk. How much room a
    /// chunk has left is the allocator's affair and is not said here.
    pub fn tail(&mut self, need: usize) -> (r: &mut BytesMut)
        requires
            old(self)@.len() + need <= isize::MAX,
            old(self).chunk_size() <= isize::MAX,
        ensures
            buffer_of(*r) == old(self)@,
            final(self)@ == buffer_of(*final(r)),
            final(self).chunk_size() == old(self).chunk_size(),
    {
        let held: &[u8] = &self.chunk;
        let len = held.len();
        if self.chunk.capacity() - len < need {
            let room = if len + need < self.size {
                self.size
            } else {
                len + need
            };
            let mut fresh = BytesMut::with_capacity(room);
            fresh.extend_from_slice(held);
            assert(buffer_of(fresh) =~= old(self)@);
            self.chunk = fresh;
        }
        &mut self.chunk
    }

    /// Hands over everything written since the last `seal`.
    pub fn seal(&mut self) -> (r: Bytes)
        ensures
            bytes_of(r) == old(self)@,
            final(self)@ == Seq::<u8>::empty(),
            final(self).chunk_size() == old(self).chunk_size(),
    {
        self.chunk.split().freeze()
    }
}

impl Default for Arena {
    fn default() -> (r: Self)
        ensures
            r@ == Seq::<u8>::empty(),
            r.chunk_size() == CHUNK,
    {
        Arena::new()
    }
}

} // verus!
