use tinyalloc::{ByteBuffer, TinySlabAllocator};

fn filled(arena: &mut TinySlabAllocator<2048, 64>, n: usize, max_len: Option<u16>) -> ByteBuffer {
    let mut buf = match max_len {
        Some(m) => ByteBuffer::with_max_len(m),
        None => ByteBuffer::new(),
    };
    let data: Vec<u8> = (0..n).map(|i| i as u8).collect();
    buf.extend(arena, &data).unwrap();
    buf
}

#[test]
fn test_input_len() {
    let buf = ByteBuffer::new();
    assert_eq!(buf.input_len(), 0);
    let mut arena = TinySlabAllocator::<2048, 64>::new();
    let buf = filled(&mut arena, 42, None);
    assert_eq!(buf.input_len(), 42);
}

#[test]
fn test_take() {
    let mut arena = TinySlabAllocator::<2048, 64>::new();
    let buf = filled(&mut arena, 100, None);
    let taken = buf.take(50);
    assert_eq!(taken.len(), 50);
    assert_eq!(taken.max_len(), Some(50));
    let taken = buf.take(200);
    assert_eq!(taken.len(), 100);
    assert_eq!(taken.max_len(), Some(100));
}

#[test]
fn test_take_from() {
    let mut arena = TinySlabAllocator::<2048, 64>::new();
    let buf = filled(&mut arena, 100, None);
    let remaining = buf.take_from(100);
    assert_eq!(remaining.len(), 0);
    let remaining = buf.take_from(200);
    assert_eq!(remaining.len(), 0);
    let remaining = buf.take_from(50);
    assert_eq!(remaining.len(), 50);
}

#[test]
fn test_take_split() {
    let mut arena = TinySlabAllocator::<2048, 64>::new();
    let buf = filled(&mut arena, 100, None);
    let (remaining, taken) = buf.take_split(30);
    assert_eq!(taken.len(), 30);
    assert_eq!(remaining.len(), 70);
}

#[test]
fn test_slice_index() {
    let mut arena = TinySlabAllocator::<2048, 64>::new();
    let buf = filled(&mut arena, 50, None);
    assert_eq!(buf.slice_index(25), Ok(25));
    assert_eq!(buf.slice_index(50), Ok(50));
    assert_eq!(buf.slice_index(0), Ok(0));
    match buf.slice_index(75) {
        Err(needed) => assert_eq!(needed, 25),
        _ => panic!("Expected Err with needed count"),
    }
}

#[test]
fn test_iter_elements_empty() {
    let arena = TinySlabAllocator::<2048, 64>::new();
    let buf = ByteBuffer::new();
    let mut iter = buf.to_vec(&arena).into_iter();
    assert_eq!(iter.next(), None);
}

#[test]
fn test_iter_elements_with_data() {
    let mut arena = TinySlabAllocator::<1024, 32>::new();
    let mut buf = ByteBuffer::new();
    buf.extend(&mut arena, b"ABC").unwrap();
    let mut iter = buf.to_vec(&arena).into_iter();
    assert_eq!(iter.next(), Some(b'A'));
    assert_eq!(iter.next(), Some(b'B'));
    assert_eq!(iter.next(), Some(b'C'));
    assert_eq!(iter.next(), None);
    buf.clear(&mut arena);
}

#[test]
fn test_iter_indices_empty() {
    let arena = TinySlabAllocator::<2048, 64>::new();
    let buf = ByteBuffer::new();
    let mut iter = buf.to_vec(&arena).into_iter().enumerate();
    assert_eq!(iter.next(), None);
}

#[test]
fn test_iter_indices_with_data() {
    let mut arena = TinySlabAllocator::<1024, 32>::new();
    let mut buf = ByteBuffer::new();
    buf.extend(&mut arena, b"XYZ").unwrap();
    let mut iter = buf.to_vec(&arena).into_iter().enumerate();
    assert_eq!(iter.next(), Some((0, b'X')));
    assert_eq!(iter.next(), Some((1, b'Y')));
    assert_eq!(iter.next(), Some((2, b'Z')));
    assert_eq!(iter.next(), None);
    buf.clear(&mut arena);
}

#[test]
fn test_clone_copy() {
    let mut arena = TinySlabAllocator::<2048, 64>::new();
    let buf1 = filled(&mut arena, 42, Some(100));
    let buf2 = buf1;
    let buf3 = buf1.clone();
    assert_eq!(buf1.len(), 42);
    assert_eq!(buf2.len(), 42);
    assert_eq!(buf3.len(), 42);
}

#[test]
fn test_position_with_global_alloc() {
    let mut arena = TinySlabAllocator::<1024, 32>::new();
    let mut buf = ByteBuffer::new();
    buf.extend(&mut arena, b"Hello, World!").unwrap();
    assert_eq!(buf.position(&arena, |b| b == b','), Some(5));
    assert_eq!(buf.position(&arena, |b| b == b'!'), Some(12));
    assert_eq!(buf.position(&arena, |b| b == b'Z'), None);
    buf.clear(&mut arena);
}

#[test]
fn test_position_returns_none() {
    let arena = TinySlabAllocator::<1024, 32>::new();
    let buf = ByteBuffer::new();
    assert_eq!(buf.position(&arena, |_| true), None);
}

#[test]
fn split_views_cover_unread_bytes() {
    let mut arena = TinySlabAllocator::<2048, 64>::new();
    let mut buf = ByteBuffer::new();
    buf.extend(&mut arena, b"abcde").unwrap();
    assert_eq!(buf.pop_front(&mut arena), Some(b'a'));
    assert_eq!(buf.slice_index(4), Ok(4));
    assert_eq!(buf.slice_index(5), Err(1));
    let (rest, front) = buf.take_split(1);
    assert_eq!(front.len(), 1);
    assert_eq!(front.max_len(), Some(1));
    assert_eq!(rest.len(), 3);
    assert_eq!(rest.to_vec(&arena), b"cde".to_vec());
    assert_eq!(buf.take(10).len(), 4);
    assert_eq!(buf.take_from(4).len(), 0);
}
