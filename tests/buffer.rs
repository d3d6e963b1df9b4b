use tinyalloc::{Allocator, ByteBuffer, ByteBufferError, TinySlabAllocator};

#[test]
fn test_bytebuffer_new() {
    let buf = ByteBuffer::new();
    assert_eq!(buf.len(), 0);
    assert!(buf.is_empty());
    assert_eq!(buf.max_len(), None);
}

#[test]
fn test_bytebuffer_with_max_len() {
    let buf = ByteBuffer::with_max_len(100);
    assert_eq!(buf.max_len(), Some(100));
    assert_eq!(buf.len(), 0);
}

#[test]
fn test_bytebuffer_append_single_byte() {
    let mut arena = TinySlabAllocator::<2048, 64>::new();
    let mut buf = ByteBuffer::new();
    buf.append(&mut arena, 42).unwrap();
    assert_eq!(buf.len(), 1);
    let bytes = buf.to_vec(&arena);
    assert_eq!(bytes.len(), 1);
    assert_eq!(bytes[0], 42);
}

#[test]
fn test_bytebuffer_append_multiple_bytes() {
    let mut arena = TinySlabAllocator::<2048, 64>::new();
    let mut buf = ByteBuffer::new();
    let data = b"Hello";
    buf.extend(&mut arena, data).unwrap();
    assert_eq!(buf.len(), 5);
    let bytes = buf.to_vec(&arena);
    assert_eq!(bytes.len(), 5);
    assert_eq!(&bytes[..5], data);
}

#[test]
fn test_bytebuffer_append_exceeds_chunk() {
    let mut arena = TinySlabAllocator::<2048, 64>::new();
    let mut buf = ByteBuffer::new();
    let data = b"Hello World!";
    buf.extend(&mut arena, data).unwrap();
    assert_eq!(buf.len(), 12);
    let bytes = buf.to_vec(&arena);
    assert_eq!(bytes.len(), 12);
    assert_eq!(&bytes[..12], data);
}

#[test]
fn test_bytebuffer_max_len_enforcement() {
    let mut arena = TinySlabAllocator::<2048, 64>::new();
    let mut buf = ByteBuffer::with_max_len(5);
    let result = buf.extend(&mut arena, b"Hello");
    assert!(result.is_ok());
    assert_eq!(buf.len(), 5);
    let result = buf.append(&mut arena, b'!');
    assert_eq!(result, Err(ByteBufferError::Full));
    assert_eq!(buf.len(), 5);
}

#[test]
fn test_bytebuffer_clear() {
    let mut arena = TinySlabAllocator::<2048, 64>::new();
    let mut buf = ByteBuffer::new();
    buf.extend(&mut arena, b"Hello World!").unwrap();
    assert_eq!(buf.len(), 12);
    buf.clear(&mut arena);
    assert_eq!(buf.len(), 0);
    assert!(buf.is_empty());
    let bytes = buf.to_vec(&arena);
    assert_eq!(bytes.len(), 0);
}

#[test]
fn test_bytebuffer_move_from() {
    let mut arena = TinySlabAllocator::<2048, 64>::new();
    let mut src = ByteBuffer::new();
    let mut dst = ByteBuffer::new();
    src.extend(&mut arena, b"Source data").unwrap();
    assert_eq!(src.len(), 11);
    dst.move_from(&mut src);
    assert_eq!(dst.len(), 11);
    let bytes = dst.to_vec(&arena);
    assert_eq!(bytes.len(), 11);
    assert_eq!(&bytes[..11], b"Source data");
    assert_eq!(src.len(), 0);
    assert!(src.is_empty());
}

#[test]
fn test_bytebuffer_drain() {
    let mut arena = TinySlabAllocator::<2048, 64>::new();
    let mut buf = ByteBuffer::new();
    buf.extend(&mut arena, b"Drain this!").unwrap();
    assert_eq!(buf.len(), 11);
    let drained = buf.drain();
    assert_eq!(buf.len(), 0);
    assert!(buf.is_empty());
    assert_eq!(drained.len(), 11);
    let bytes = drained.to_vec(&arena);
    assert_eq!(bytes.len(), 11);
    assert_eq!(&bytes[..11], b"Drain this!");
}

#[test]
fn test_bytebuffer_copy_from() {
    let mut arena = TinySlabAllocator::<2048, 64>::new();
    let mut src = ByteBuffer::new();
    let mut dst = ByteBuffer::new();
    src.extend(&mut arena, b"0123456789").unwrap();
    dst.copy_from(&mut arena, &src, 3..7).unwrap();
    assert_eq!(dst.len(), 4);
    let bytes = dst.to_vec(&arena);
    assert_eq!(bytes.len(), 4);
    assert_eq!(&bytes[..4], b"3456");
    assert_eq!(src.len(), 10);
}

#[test]
fn test_bytebuffer_large_data() {
    let mut arena = TinySlabAllocator::<4096, 128>::new();
    let mut buf = ByteBuffer::new();
    let mut data = [0u8; 100];
    for i in 0..100 {
        data[i] = (i % 256) as u8;
    }
    buf.extend(&mut arena, &data).unwrap();
    assert_eq!(buf.len(), 100);
    let bytes = buf.to_vec(&arena);
    assert_eq!(bytes.len(), 100);
    assert_eq!(&bytes[..100], &data[..]);
}

#[test]
fn test_bytebuffer_set_max_len() {
    let mut arena = TinySlabAllocator::<2048, 64>::new();
    let mut buf = ByteBuffer::new();
    assert_eq!(buf.max_len(), None);
    buf.set_max_len(Some(10));
    assert_eq!(buf.max_len(), Some(10));
    buf.extend(&mut arena, b"12345").unwrap();
    assert_eq!(buf.len(), 5);
    buf.extend(&mut arena, b"67890").unwrap();
    assert_eq!(buf.len(), 10);
    let result = buf.append(&mut arena, b'X');
    assert_eq!(result, Err(ByteBufferError::Full));
    assert_eq!(buf.len(), 10);
    buf.set_max_len(None);
    buf.extend(&mut arena, b"ABCDEFGH").unwrap();
    assert_eq!(buf.len(), 18);
}

#[test]
fn test_bytebuffer_pop_front() {
    let mut arena = TinySlabAllocator::<2048, 64>::new();
    let mut buf = ByteBuffer::new();
    buf.extend(&mut arena, b"ABCDE").unwrap();
    assert_eq!(buf.len(), 5);
    assert_eq!(buf.pop_front(&mut arena), Some(b'A'));
    assert_eq!(buf.len(), 4);
    assert_eq!(buf.pop_front(&mut arena), Some(b'B'));
    assert_eq!(buf.len(), 3);
    assert_eq!(buf.pop_front(&mut arena), Some(b'C'));
    assert_eq!(buf.pop_front(&mut arena), Some(b'D'));
    assert_eq!(buf.pop_front(&mut arena), Some(b'E'));
    assert_eq!(buf.len(), 0);
    assert_eq!(buf.pop_front(&mut arena), None);
}

#[test]
fn test_bytebuffer_peek_front() {
    let mut arena = TinySlabAllocator::<2048, 64>::new();
    let mut buf = ByteBuffer::new();
    buf.extend(&mut arena, b"XYZ").unwrap();
    assert_eq!(buf.peek_front(&arena), Some(b'X'));
    assert_eq!(buf.len(), 3);
    assert_eq!(buf.peek_front(&arena), Some(b'X'));
    buf.pop_front(&mut arena);
    assert_eq!(buf.peek_front(&arena), Some(b'Y'));
}

#[test]
fn test_bytebuffer_remove_prefix() {
    let mut arena = TinySlabAllocator::<2048, 64>::new();
    let mut buf = ByteBuffer::new();
    buf.extend(&mut arena, b"Hello, World!").unwrap();
    assert_eq!(buf.len(), 13);
    let removed = buf.remove_prefix(&mut arena, 7);
    assert_eq!(removed, 7);
    assert_eq!(buf.len(), 6);
    let bytes = buf.to_vec(&arena);
    assert_eq!(bytes.len(), 6);
    assert_eq!(&bytes[..6], b"World!");
    let removed = buf.remove_prefix(&mut arena, 100);
    assert_eq!(removed, 6);
    assert_eq!(buf.len(), 0);
    assert!(buf.is_empty());
}

#[test]
fn test_bytebuffer_chunk_freeing() {
    let mut arena = TinySlabAllocator::<2048, 64>::new();
    let mut buf = ByteBuffer::new();
    let block_size = arena.block_size();
    let usable = block_size - 2;
    for i in 0..usable {
        buf.append(&mut arena, i as u8).unwrap();
    }
    let initial_used = arena.len();
    assert_eq!(initial_used, 1);
    buf.append(&mut arena, 99).unwrap();
    assert_eq!(arena.len(), 2);
    for _ in 0..usable {
        buf.pop_front(&mut arena);
    }
    assert_eq!(arena.len(), 1);
    assert_eq!(buf.len(), 1);
    assert_eq!(buf.peek_front(&arena), Some(99));
}

#[test]
fn test_bytebuffer_with_global() {
    let mut arena = TinySlabAllocator::<2048, 64>::new();
    arena.clear();
    let mut buf = ByteBuffer::new();
    let result = buf.append(&mut arena, 42);
    assert!(result.is_ok(), "ByteBuffer append should succeed");
    assert_eq!(buf.len(), 1);
}

#[test]
fn peek_n_skip_while_and_consume_until() {
    let mut arena = TinySlabAllocator::<512, 16>::new();
    let mut buf = ByteBuffer::new();
    buf.extend(&mut arena, b"   Hello\nWorld").unwrap();
    assert_eq!(buf.peek_n(&arena, 3), Some(b'H'));
    assert_eq!(buf.peek_n(&arena, 14), None);
    assert_eq!(buf.skip_while(&mut arena, |b| b == b' '), 3);
    assert_eq!(buf.peek_front(&arena), Some(b'H'));
    assert_eq!(buf.position(&arena, |b| b == b'\n'), Some(5));
    assert_eq!(buf.consume_until(&mut arena, b'\n'), Some(6));
    assert_eq!(buf.peek_front(&arena), Some(b'W'));
    assert_eq!(buf.consume_until(&mut arena, b'?'), None);
    assert_eq!(buf.to_vec(&arena), b"World".to_vec());
}

#[test]
fn copy_prefix_and_split_off_front() {
    let mut arena = TinySlabAllocator::<512, 16>::new();
    let mut buf = ByteBuffer::new();
    buf.extend(&mut arena, b"Hello, World!").unwrap();
    let mut dest = [0u8; 5];
    assert_eq!(buf.copy_prefix_to(&mut arena, &mut dest), 5);
    assert_eq!(&dest, b"Hello");
    assert_eq!(buf.len(), 8);
    let front = buf.split_off_front(&mut arena, 2).unwrap();
    assert_eq!(front.to_vec(&arena), b", ".to_vec());
    assert_eq!(buf.to_vec(&arena), b"World!".to_vec());
    assert!(matches!(buf.split_off_front(&mut arena, 7), Err(ByteBufferError::Full)));
    assert_eq!(buf.len(), 6);
}

#[test]
fn drain_into_moves_only_what_is_available() {
    let mut arena = TinySlabAllocator::<512, 16>::new();
    let mut src = ByteBuffer::new();
    let mut dst = ByteBuffer::new();
    src.extend(&mut arena, b"Hello").unwrap();
    dst.extend(&mut arena, b"World").unwrap();
    assert_eq!(src.drain_into(&mut arena, &mut dst, 3), 3);
    assert_eq!(src.len(), 2);
    assert_eq!(dst.to_vec(&arena), b"WorldHel".to_vec());
    assert_eq!(src.drain_into(&mut arena, &mut dst, 100), 2);
    assert_eq!(src.len(), 0);
    assert_eq!(dst.to_vec(&arena), b"WorldHello".to_vec());
}

#[test]
fn drain_into_stops_when_destination_is_full() {
    let mut arena = TinySlabAllocator::<512, 16>::new();
    let mut src = ByteBuffer::new();
    let mut dst = ByteBuffer::with_max_len(2);
    src.extend(&mut arena, b"abcd").unwrap();
    assert_eq!(src.drain_into(&mut arena, &mut dst, 4), 2);
    assert_eq!(src.to_vec(&arena), b"cd".to_vec());
    assert_eq!(dst.to_vec(&arena), b"ab".to_vec());
}

#[test]
fn move_from_empties_source() {
    let mut arena = TinySlabAllocator::<512, 16>::new();
    let mut src = ByteBuffer::new();
    let mut dst = ByteBuffer::with_max_len(9);
    src.extend(&mut arena, b"abc").unwrap();
    dst.move_from(&mut src);
    assert_eq!(dst.len(), 3);
    assert_eq!(dst.max_len(), None);
    assert_eq!(src.len(), 0);
    assert_eq!(src.max_len(), Some(9));
    assert!(src.to_vec(&arena).is_empty());
}

#[test]
fn allocation_failed_when_allocator_exhausted() {
    let mut arena = TinySlabAllocator::<20, 2>::new();
    let mut buf = ByteBuffer::new();
    let r = buf.extend(&mut arena, b"0123456789ABCDEFGHIJ");
    assert_eq!(r, Err(ByteBufferError::AllocationFailed));
    assert_eq!(buf.len(), 16);
    assert_eq!(buf.to_vec(&arena), b"0123456789ABCDEF".to_vec());
    assert_eq!(buf.append(&mut arena, b'x'), Err(ByteBufferError::AllocationFailed));
    assert_eq!(buf.len(), 16);
}

#[test]
fn allocation_failed_when_blocks_hold_no_payload() {
    let mut arena = TinySlabAllocator::<8, 4>::new();
    let mut buf = ByteBuffer::new();
    assert_eq!(buf.append(&mut arena, 1), Err(ByteBufferError::AllocationFailed));
    assert_eq!(arena.len(), 0);
}

#[test]
fn uninitialized_when_used_with_another_allocator() {
    let mut arena = TinySlabAllocator::<512, 16>::new();
    let mut other = TinySlabAllocator::<512, 16>::new();
    let mut buf = ByteBuffer::new();
    buf.extend(&mut arena, b"abc").unwrap();
    assert_eq!(buf.append(&mut other, b'd'), Err(ByteBufferError::Uninitialized));
}

#[test]
fn round_trip_fills_the_allocator_exactly() {
    let mut arena = TinySlabAllocator::<40, 4>::new();
    let mut buf = ByteBuffer::new();
    let data: Vec<u8> = (0u8..32).collect();
    buf.extend(&mut arena, &data).unwrap();
    assert_eq!(buf.len(), 32);
    assert_eq!(buf.to_vec(&arena), data);
    assert_eq!(arena.len(), 4);
    assert_eq!(buf.append(&mut arena, 0), Err(ByteBufferError::AllocationFailed));
}

#[test]
fn max_len_of_three_takes_three_bytes() {
    let mut arena = TinySlabAllocator::<512, 16>::new();
    let mut buf = ByteBuffer::with_max_len(3);
    assert_eq!(buf.extend(&mut arena, b"abcd"), Err(ByteBufferError::Full));
    assert_eq!(buf.len(), 3);
    assert_eq!(buf.append(&mut arena, b'e'), Err(ByteBufferError::Full));
    assert_eq!(buf.len(), 3);
}

#[test]
fn chunk_reclamation_after_remove_prefix() {
    let mut arena = TinySlabAllocator::<40, 4>::new();
    let mut buf = ByteBuffer::new();
    let usable = arena.block_size() - 2;
    for i in 0..usable {
        buf.append(&mut arena, i as u8).unwrap();
    }
    buf.append(&mut arena, 200).unwrap();
    assert_eq!(arena.len(), 2);
    assert_eq!(buf.remove_prefix(&mut arena, usable), usable);
    assert_eq!(arena.len(), 1);
    assert_eq!(buf.peek_front(&arena), Some(200));
}

#[test]
fn clear_twice_is_clear_once() {
    let mut arena = TinySlabAllocator::<512, 16>::new();
    let mut buf = ByteBuffer::new();
    buf.clear(&mut arena);
    assert_eq!(buf.len(), 0);
    assert_eq!(arena.len(), 0);
    buf.extend(&mut arena, b"some bytes here, more than a block").unwrap();
    assert_eq!(arena.len(), 2);
    buf.clear(&mut arena);
    assert_eq!(arena.len(), 0);
    buf.clear(&mut arena);
    assert_eq!(buf.len(), 0);
    assert_eq!(arena.len(), 0);
}

#[test]
fn hello_world_in_blocks_of_eight() {
    let mut arena = TinySlabAllocator::<40, 4>::new();
    assert_eq!(arena.block_size() - 2, 8);
    let mut buf = ByteBuffer::new();
    buf.extend(&mut arena, b"Hello, World!").unwrap();
    assert_eq!(arena.len(), 2);
    assert_eq!(buf.len(), 13);
    assert_eq!(buf.to_vec(&arena), b"Hello, World!".to_vec());
    assert_eq!(buf.remove_prefix(&mut arena, 7), 7);
    assert_eq!(buf.len(), 6);
    assert_eq!(buf.to_vec(&arena), b"World!".to_vec());
    // The head block still holds the unread 'W', so it stays allocated.
    assert_eq!(arena.len(), 2);
    assert_eq!(buf.remove_prefix(&mut arena, 1), 1);
    assert_eq!(arena.len(), 1);
}

#[test]
fn hello_world_in_blocks_of_seven() {
    let mut arena = TinySlabAllocator::<36, 4>::new();
    assert_eq!(arena.block_size() - 2, 7);
    let mut buf = ByteBuffer::new();
    buf.extend(&mut arena, b"Hello, World!").unwrap();
    assert_eq!(arena.len(), 2);
    assert_eq!(buf.remove_prefix(&mut arena, 7), 7);
    assert_eq!(buf.len(), 6);
    assert_eq!(arena.len(), 1);
    assert_eq!(buf.to_vec(&arena), b"World!".to_vec());
}

#[test]
fn chunks_and_bytes_views() {
    let mut arena = TinySlabAllocator::<40, 4>::new();
    let mut buf = ByteBuffer::new();
    buf.extend(&mut arena, b"0123456789").unwrap();
    let read = buf.read(&arena);
    assert_eq!(read.len(), 10);
    assert!(!read.is_empty());
    let chunks = read.chunk_list();
    assert_eq!(chunks, vec![b"01234567".to_vec(), b"89".to_vec()]);
    let mut cursor = read.chunks();
    assert_eq!(cursor.next(), Some(&b"01234567"[..]));
    assert_eq!(cursor.next(), Some(&b"89"[..]));
    assert_eq!(cursor.next(), None);
    assert_eq!(read.bytes(), b"0123456789".to_vec());
}

#[test]
fn buffer_over_naive_allocator() {
    let mut arena = tinyalloc::NaiveAllocator::new();
    let mut buf = ByteBuffer::new();
    let data: Vec<u8> = (0..300).map(|i| (i % 251) as u8).collect();
    buf.extend(&mut arena, &data).unwrap();
    assert_eq!(arena.len(), 3);
    assert_eq!(buf.to_vec(&arena), data);
    assert_eq!(buf.remove_prefix(&mut arena, 126), 126);
    assert_eq!(arena.len(), 2);
    buf.clear(&mut arena);
    assert_eq!(arena.len(), 0);
}
