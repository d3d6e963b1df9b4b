//! Fixed-capacity, heap-free slot allocator with generation-tracked handles,
//! and a growable byte buffer stored as a chain of allocator-owned blocks.
use vstd::prelude::*;

pub mod allocator;
pub mod bytebuffer;
pub mod deque;
pub mod header;
pub mod naive;
pub mod prelude;
pub mod tinyslab;

pub use allocator::{stats, Allocator, AllocatorStats, BitLayout, Handle};
pub use bytebuffer::{ByteBuffer, ByteBufferError, ByteBufferRead, ByteChunkIter};
pub use deque::ByteBufferDeque;
pub use naive::NaiveAllocator;
pub use tinyslab::TinySlabAllocator;

verus! {

/// The version string of this library.
pub fn version() -> (r: &'static str)
    ensures
        r@ == "0.1.0"@,
{
    "0.1.0"
}

} // verus!
