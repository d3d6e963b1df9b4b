use tinyalloc::{ByteBuffer, ByteBufferDeque, ByteBufferError, TinySlabAllocator};

#[test]
fn test_deque_new() {
    let deque = ByteBufferDeque::new();
    assert_eq!(deque.len(), 0);
    assert!(deque.is_empty());
}

#[test]
fn test_deque_push_pop() {
    let mut arena = TinySlabAllocator::<2048, 64>::new();
    let mut deque = ByteBufferDeque::new();
    deque.push_back(&mut arena, 1).unwrap();
    deque.push_back(&mut arena, 2).unwrap();
    deque.push_back(&mut arena, 3).unwrap();
    assert_eq!(deque.len(), 3);
    assert_eq!(deque.pop_front(&mut arena), Some(1));
    assert_eq!(deque.pop_front(&mut arena), Some(2));
    assert_eq!(deque.len(), 1);
    assert_eq!(deque.pop_front(&mut arena), Some(3));
    assert_eq!(deque.pop_front(&mut arena), None);
    assert!(deque.is_empty());
}

#[test]
fn test_deque_peek() {
    let mut arena = TinySlabAllocator::<2048, 64>::new();
    let mut deque = ByteBufferDeque::new();
    deque.extend(&mut arena, b"ABC").unwrap();
    assert_eq!(deque.peek_front(&arena), Some(b'A'));
    assert_eq!(deque.len(), 3);
    assert_eq!(deque.pop_front(&mut arena), Some(b'A'));
    assert_eq!(deque.peek_front(&arena), Some(b'B'));
}

#[test]
fn test_deque_mixed_operations() {
    let mut arena = TinySlabAllocator::<2048, 64>::new();
    let mut deque = ByteBufferDeque::new();
    deque.extend(&mut arena, b"Hello").unwrap();
    assert_eq!(deque.len(), 5);
    assert_eq!(deque.pop_front(&mut arena), Some(b'H'));
    assert_eq!(deque.pop_front(&mut arena), Some(b'e'));
    assert_eq!(deque.len(), 3);
    deque.extend(&mut arena, b" World").unwrap();
    assert_eq!(deque.len(), 9);
    assert_eq!(deque.pop_front(&mut arena), Some(b'l'));
    assert_eq!(deque.pop_front(&mut arena), Some(b'l'));
    assert_eq!(deque.pop_front(&mut arena), Some(b'o'));
    assert_eq!(deque.pop_front(&mut arena), Some(b' '));
    assert_eq!(deque.pop_front(&mut arena), Some(b'W'));
    assert_eq!(deque.pop_front(&mut arena), Some(b'o'));
    assert_eq!(deque.pop_front(&mut arena), Some(b'r'));
    assert_eq!(deque.pop_front(&mut arena), Some(b'l'));
    assert_eq!(deque.pop_front(&mut arena), Some(b'd'));
    assert!(deque.is_empty());
}

#[test]
fn test_deque_iter() {
    let mut arena = TinySlabAllocator::<2048, 64>::new();
    let mut deque = ByteBufferDeque::new();
    deque.extend(&mut arena, b"12345").unwrap();
    deque.pop_front(&mut arena);
    deque.pop_front(&mut arena);
    assert_eq!(deque.pop_front(&mut arena), Some(b'3'));
    assert_eq!(deque.pop_front(&mut arena), Some(b'4'));
    assert_eq!(deque.pop_front(&mut arena), Some(b'5'));
    assert!(deque.is_empty());
}

#[test]
fn test_deque_clear() {
    let mut arena = TinySlabAllocator::<2048, 64>::new();
    let mut deque = ByteBufferDeque::new();
    deque.extend(&mut arena, b"Some data").unwrap();
    assert_eq!(deque.len(), 9);
    deque.clear(&mut arena);
    assert_eq!(deque.len(), 0);
    assert_eq!(deque.total_read(), 0);
    assert!(deque.is_empty());
}

#[test]
fn test_deque_max_len() {
    let mut arena = TinySlabAllocator::<2048, 64>::new();
    let mut deque = ByteBufferDeque::with_max_len(5);
    deque.extend(&mut arena, b"Hello").unwrap();
    assert_eq!(deque.push_back(&mut arena, b'!'), Err(ByteBufferError::Full));
    deque.pop_front(&mut arena);
    assert_eq!(deque.len(), 4);
    assert_eq!(deque.total_written(), 5);
    assert_eq!(deque.push_back(&mut arena, b'!'), Err(ByteBufferError::Full));
}

#[test]
fn test_deque_from_bytebuffer() {
    let mut arena = TinySlabAllocator::<2048, 64>::new();
    let mut buffer = ByteBuffer::new();
    buffer.extend(&mut arena, b"Test").unwrap();
    let mut deque = ByteBufferDeque::from(buffer);
    assert_eq!(deque.len(), 4);
    assert_eq!(deque.pop_front(&mut arena), Some(b'T'));
}

#[test]
fn test_deque_drain() {
    let mut arena = TinySlabAllocator::<2048, 64>::new();
    let mut deque = ByteBufferDeque::new();
    deque.extend(&mut arena, b"Drain me").unwrap();
    deque.pop_front(&mut arena);
    let drained = deque.drain(&mut arena);
    assert!(deque.is_empty());
    assert_eq!(drained.len(), 7);
    let mut bytes = drained.read(&arena).bytes().into_iter();
    assert_eq!(bytes.next(), Some(b'r'));
    assert_eq!(bytes.next(), Some(b'a'));
    assert_eq!(bytes.next(), Some(b'i'));
    assert_eq!(bytes.next(), Some(b'n'));
    assert_eq!(bytes.next(), Some(b' '));
    assert_eq!(bytes.next(), Some(b'm'));
    assert_eq!(bytes.next(), Some(b'e'));
    assert_eq!(bytes.next(), None);
}

#[test]
fn deque_frees_consumed_blocks() {
    let mut arena = TinySlabAllocator::<256, 8>::new();
    let mut deque = ByteBufferDeque::default();
    for i in 0..30 {
        deque.push_back(&mut arena, i).unwrap();
    }
    assert_eq!(tinyalloc::Allocator::len(&arena), 1);
    deque.push_back(&mut arena, 42).unwrap();
    assert_eq!(tinyalloc::Allocator::len(&arena), 2);
    for _ in 0..30 {
        deque.pop_front(&mut arena);
    }
    assert_eq!(tinyalloc::Allocator::len(&arena), 1);
    assert_eq!(deque.total_read(), 0);
    assert_eq!(deque.total_written(), 1);
    deque.set_max_len(Some(1));
    assert_eq!(deque.max_len(), Some(1));
    assert_eq!(deque.push_back(&mut arena, 1), Err(ByteBufferError::Full));
}
