//! A first-in first-out byte queue over a `ByteBuffer`: push at the back,
//! pop at the front, with head blocks freed once fully consumed.
use crate::allocator::{count_allocated, Allocator};
use crate::bytebuffer::{frame, owned_growth, ByteBuffer, ByteBufferError};
use vstd::prelude::*;

verus! {

/// A byte queue backed by a `ByteBuffer`.
pub struct ByteBufferDeque {
    buffer: ByteBuffer,
}

impl ByteBufferDeque {
    /// The underlying buffer.
    pub closed spec fn inner(&self) -> ByteBuffer {
        self.buffer
    }

    /// The queue's blocks are intact in `a`.
    pub open spec fn wf<A: Allocator>(&self, a: &A) -> bool {
        self.inner().wf(a)
    }

    /// The queued bytes, front first.
    pub open spec fn contents<A: Allocator>(&self, a: &A) -> Seq<u8> {
        self.inner().contents(a)
    }

    /// An empty queue with no length limit.
    pub fn new() -> (r: Self)
        ensures
            r.inner().is_blank(),
            r.inner().spec_max_len() is None,
    {
        ByteBufferDeque { buffer: ByteBuffer::new() }
    }

    /// An empty queue holding at most `max` bytes (consumed bytes of a block
    /// not yet freed count too).
    pub fn with_max_len(max: u16) -> (r: Self)
        ensures
            r.inner().is_blank(),
            r.inner().spec_max_len() == Some(max),
    {
        ByteBufferDeque { buffer: ByteBuffer::with_max_len(max) }
    }

    /// Sets the length limit; `None` removes it.
    pub fn set_max_len(&mut self, v: Option<u16>)
        ensures
            final(self).inner().spec_max_len() == v,
            final(self).inner().same_data(old(self).inner()),
    {
        self.buffer.set_max_len(v);
    }

    /// The length limit.
    pub fn max_len(&self) -> (r: Option<u16>)
        ensures
            r == self.inner().spec_max_len(),
    {
        self.buffer.max_len()
    }

    /// Number of bytes available to read.
    pub fn len(&self) -> (r: u16)
        ensures
            r == self.inner().spec_len(),
    {
        self.buffer.len()
    }

    /// Whether no byte is available to read.
    pub fn is_empty(&self) -> (r: bool)
        ensures
            r == (self.inner().spec_len() == 0),
    {
        self.buffer.is_empty()
    }

    /// Bytes written and still held in blocks, consumed or not.
    pub fn total_written(&self) -> (r: u16)
        ensures
            r == self.inner().spec_total(),
    {
        self.buffer.total_len()
    }

    /// Bytes consumed from the head block.
    pub fn total_read(&self) -> (r: u16)
        ensures
            r == self.inner().spec_read_offset(),
    {
        self.buffer.consumed()
    }

    /// Pushes `byte` at the back; fails as `ByteBuffer::append` does.
    pub fn push_back<A: Allocator>(&mut self, arena: &mut A, byte: u8) -> (r: Result<(), ByteBufferError>)
        requires
            old(self).wf(old(arena)),
        ensures
            r is Ok ==> old(self).inner().appended(old(arena), final(self).inner(), final(arena), byte),
            r is Err ==> *final(self) == *old(self) && final(arena).slots() == old(arena).slots(),
            final(self).wf(final(arena)),
            final(arena).spec_block_size() == old(arena).spec_block_size(),
            final(arena).spec_layout() == old(arena).spec_layout(),
            r is Ok <==> (!old(self).inner().is_full() && old(self).inner().room(old(arena)) > 0),
            (r == Err::<(), ByteBufferError>(ByteBufferError::Full)) <==> old(self).inner().is_full(),
            (r == Err::<(), ByteBufferError>(ByteBufferError::AllocationFailed)) <==> (!old(self).inner().is_full()
                && old(self).inner().room(old(arena)) == 0),
    {
        self.buffer.append(arena, byte)
    }

    /// Pushes the bytes of `data` at the back; fails as `ByteBuffer::extend`
    /// does, keeping the bytes pushed before the failure.
    pub fn extend<A: Allocator>(&mut self, arena: &mut A, data: &[u8]) -> (r: Result<(), ByteBufferError>)
        requires
            old(self).wf(old(arena)),
        ensures
            final(self).wf(final(arena)),
            final(arena).spec_block_size() == old(arena).spec_block_size(),
            final(arena).spec_layout() == old(arena).spec_layout(),
            frame(old(arena).slots(), final(arena).slots(), old(self).inner().owned()),
            owned_growth(old(self).inner().owned(), final(self).inner().owned(), old(arena).slots()),
            crate::bytebuffer::extended(old(self).inner(), old(arena), final(self).inner(), final(arena), data@),
            r is Ok <==> data@.len() <= old(self).inner().headroom() && data@.len()
                <= old(self).inner().room(old(arena)),
    {
        self.buffer.extend(arena, data)
    }

    /// Removes and returns the front byte, freeing blocks consumed entirely.
    pub fn pop_front<A: Allocator>(&mut self, arena: &mut A) -> (r: Option<u8>)
        requires
            old(self).wf(old(arena)),
        ensures
            final(self).wf(final(arena)),
            final(arena).spec_block_size() == old(arena).spec_block_size(),
            final(arena).spec_layout() == old(arena).spec_layout(),
            frame(old(arena).slots(), final(arena).slots(), old(self).inner().owned()),
            final(self).inner().owned().subset_of(old(self).inner().owned()),
            count_allocated(final(arena).slots()) <= count_allocated(old(arena).slots()),
            final(self).inner().spec_max_len() == old(self).inner().spec_max_len(),
            r == if old(self).contents(old(arena)).len() > 0 {
                Some(old(self).contents(old(arena))[0])
            } else {
                None::<u8>
            },
            final(self).contents(final(arena)) == if old(self).contents(old(arena)).len() > 0 {
                old(self).contents(old(arena)).drop_first()
            } else {
                old(self).contents(old(arena))
            },
            old(self).contents(old(arena)).len() == 0 ==> *final(self) == *old(self) && *final(arena) == *old(arena),
            old(self).contents(old(arena)).len() > 0 && old(self).inner().head_done(old(arena)) ==> {
                &&& final(self).inner().spec_chain() == old(self).inner().spec_chain().drop_first()
                &&& final(self).inner().spec_read_offset() == 0
                &&& final(self).inner().spec_total() + old(self).inner().spec_read_offset() + 1 == old(
                    self,
                ).inner().spec_total()
                &&& count_allocated(final(arena).slots()) + 1 == count_allocated(old(arena).slots())
            },
            old(self).contents(old(arena)).len() > 0 && !old(self).inner().head_done(old(arena)) ==> {
                &&& final(self).inner().spec_chain() == old(self).inner().spec_chain()
                &&& final(self).inner().spec_read_offset() == old(self).inner().spec_read_offset() + 1
                &&& final(self).inner().spec_total() == old(self).inner().spec_total()
                &&& *final(arena) == *old(arena)
            },
    {
        self.buffer.pop_front(arena)
    }

    /// The front byte, if any.
    pub fn peek_front<A: Allocator>(&self, arena: &A) -> (r: Option<u8>)
        requires
            self.wf(arena),
        ensures
            r == if self.contents(arena).len() > 0 {
                Some(self.contents(arena)[0])
            } else {
                None::<u8>
            },
    {
        self.buffer.peek_front(arena)
    }

    /// Frees every block and empties the queue.
    pub fn clear<A: Allocator>(&mut self, arena: &mut A)
        requires
            old(self).wf(old(arena)),
        ensures
            old(self).inner().cleared(old(arena), final(self).inner(), final(arena)),
            final(self).wf(final(arena)),
            final(self).inner().is_blank(),
            final(self).inner().spec_max_len() == old(self).inner().spec_max_len(),
            final(arena).spec_block_size() == old(arena).spec_block_size(),
            final(arena).spec_layout() == old(arena).spec_layout(),
            frame(old(arena).slots(), final(arena).slots(), old(self).inner().owned()),
            count_allocated(final(arena).slots()) + old(self).inner().spec_chain().len() == count_allocated(
                old(arena).slots(),
            ),
    {
        self.buffer.clear(arena);
    }

    /// Moves every queued byte into a new buffer, as far as the allocator
    /// has room; bytes that do not fit stay queued.
    pub fn drain<A: Allocator>(&mut self, arena: &mut A) -> (r: ByteBuffer)
        requires
            old(self).wf(old(arena)),
        ensures
            final(self).wf(final(arena)),
            r.wf(final(arena)),
            r.owned().disjoint(final(self).inner().owned()),
            r.spec_max_len() is None,
            r.spec_read_offset() == 0,
            final(arena).spec_block_size() == old(arena).spec_block_size(),
            final(arena).spec_layout() == old(arena).spec_layout(),
            r.contents(final(arena)) + final(self).contents(final(arena)) == old(self).contents(old(arena)),
            old(self).contents(old(arena)).len() <= crate::bytebuffer::free_slots(old(arena).slots())
                * crate::allocator::payload_capacity(old(arena).spec_block_size())
                ==> final(self).contents(final(arena)).len() == 0,
    {
        let mut drained = ByteBuffer::new();
        proof {
            self.buffer.lemma_wf(arena);
            drained.lemma_blank_wf(arena);
        }
        let n = self.buffer.len() as usize;
        let ghost c0 = self.contents(arena);

        let moved = self.buffer.drain_into(arena, &mut drained, n);
        proof {
            assert(Seq::<u8>::empty() + c0.subrange(0, moved as int) + c0.subrange(moved as int, c0.len() as int) =~= c0);
        }
        drained
    }
}

impl Default for ByteBufferDeque {
    fn default() -> (r: Self)
        ensures
            r.inner().is_blank(),
            r.inner().spec_max_len() is None,
    {
        ByteBufferDeque::new()
    }
}

impl From<ByteBuffer> for ByteBufferDeque {
    fn from(buffer: ByteBuffer) -> (r: Self) {
        ByteBufferDeque { buffer }
    }
}

impl vstd::std_specs::convert::FromSpecImpl<ByteBuffer> for ByteBufferDeque {
    open spec fn obeys_from_spec() -> bool {
        true
    }

    closed spec fn from_spec(v: ByteBuffer) -> Self {
        ByteBufferDeque { buffer: v }
    }
}

} // verus!
