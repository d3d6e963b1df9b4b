//! The items most programs need, for a single import.
pub use crate::allocator::{Allocator, BitLayout, Handle};
pub use crate::bytebuffer::{ByteBuffer, ByteBufferError};
pub use crate::deque::ByteBufferDeque;
pub use crate::tinyslab::TinySlabAllocator;
