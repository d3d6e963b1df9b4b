use tinyalloc::{Allocator, Handle, NaiveAllocator, TinySlabAllocator};

type TestAllocator = TinySlabAllocator<512, 4>;

fn fill<A: Allocator>(alloc: &mut A, handle: Handle, data: &[u8]) {
    for (i, b) in data.iter().enumerate() {
        assert!(alloc.set_byte(handle, i, *b));
    }
}

#[test]
fn test_slab_new() {
    let alloc = TestAllocator::new();
    assert_eq!(alloc.len(), 0);
    assert_eq!(alloc.capacity(), 4);
}

#[test]
fn test_slab_alloc_and_get() {
    let mut alloc = TestAllocator::new();
    let handle = alloc.alloc_uninit(10).unwrap();
    fill(&mut alloc, handle, b"Hello Test");
    assert_eq!(alloc.len(), 1);
    let data = alloc.get(handle).unwrap();
    assert_eq!(data, b"Hello Test");
}

#[test]
fn test_slab_alloc_too_large() {
    let mut alloc = TestAllocator::new();
    assert!(alloc.alloc_uninit(200).is_none());
}

#[test]
fn test_slab_free_and_reuse() {
    let mut alloc = TestAllocator::new();
    let h1 = alloc.alloc_uninit(5).unwrap();
    fill(&mut alloc, h1, b"First");
    assert_eq!(alloc.len(), 1);
    assert!(alloc.free(h1));
    assert_eq!(alloc.len(), 0);
    assert!(alloc.get(h1).is_none());
    let h2 = alloc.alloc_uninit(6).unwrap();
    fill(&mut alloc, h2, b"Second");
    assert_eq!(alloc.len(), 1);
    let data = alloc.get(h2).unwrap();
    assert_eq!(data, b"Second");
    assert_ne!(h1.generation, h2.generation);
}

#[test]
fn test_slab_multiple_allocations() {
    let mut alloc = TestAllocator::new();
    let h1 = alloc.alloc_uninit(10).unwrap();
    let h2 = alloc.alloc_uninit(20).unwrap();
    let h3 = alloc.alloc_uninit(30).unwrap();
    assert_eq!(alloc.len(), 3);
    assert!(alloc.get(h1).is_some());
    assert!(alloc.get(h2).is_some());
    assert!(alloc.get(h3).is_some());
}

#[test]
fn test_slab_capacity_exhaustion() {
    let mut alloc = TinySlabAllocator::<256, 2>::new();
    let h1 = alloc.alloc_uninit(10).unwrap();
    let _h2 = alloc.alloc_uninit(20).unwrap();
    assert_eq!(alloc.len(), 2);
    assert!(alloc.alloc_uninit(30).is_none());
    assert!(alloc.free(h1));
    let h3 = alloc.alloc_uninit(40).unwrap();
    assert!(alloc.get(h3).is_some());
}

#[test]
fn test_slab_clear() {
    let mut alloc = TestAllocator::new();
    let h1 = alloc.alloc_uninit(10).unwrap();
    let h2 = alloc.alloc_uninit(20).unwrap();
    assert_eq!(alloc.len(), 2);
    alloc.clear();
    assert_eq!(alloc.len(), 0);
    assert!(alloc.get(h1).is_none());
    assert!(alloc.get(h2).is_none());
    let h3 = alloc.alloc_uninit(30).unwrap();
    assert!(alloc.get(h3).is_some());
}

#[test]
fn test_slab_generation_tracking() {
    let mut alloc = TestAllocator::new();
    let h1 = alloc.alloc_uninit(10).unwrap();
    let old_gen = h1.generation;
    alloc.free(h1);
    let h2 = alloc.alloc_uninit(20).unwrap();
    assert_eq!(h1.slot, h2.slot);
    assert_eq!(h2.generation, old_gen.wrapping_add(1));
}

#[test]
fn test_slab_get_mut() {
    let mut alloc = TestAllocator::new();
    let handle = alloc.alloc_uninit(10).unwrap();
    fill(&mut alloc, handle, b"0123456789");
    assert!(alloc.set_byte(handle, 0, b'X'));
    assert!(alloc.set_byte(handle, 9, b'Y'));
    let data = alloc.get(handle).unwrap();
    assert_eq!(data, b"X12345678Y");
}

#[test]
fn test_slab_alloc_helper() {
    let mut alloc = TestAllocator::new();
    let handle = alloc.alloc_bytes(b"Hello").unwrap();
    let data = alloc.get(handle).unwrap();
    assert_eq!(data, b"Hello");
}

#[test]
fn test_naive_allocator_basic() {
    let mut alloc = NaiveAllocator::new();
    let h1 = alloc.alloc_uninit(10).unwrap();
    assert!(alloc.set_byte(h1, 0, 42));
    assert_eq!(alloc.len(), 1);
    let data = alloc.get(h1).unwrap();
    assert_eq!(data[0], 42);
    assert_eq!(data.len(), 10);
    assert!(alloc.set_byte(h1, 1, 99));
    assert_eq!(alloc.get(h1).unwrap()[1], 99);
    assert!(alloc.free(h1));
    assert_eq!(alloc.len(), 0);
    assert!(alloc.get(h1).is_none());
}

#[test]
fn test_naive_allocator_generation() {
    let mut alloc = NaiveAllocator::new();
    let h1 = alloc.alloc_uninit(10).unwrap();
    assert_eq!(h1.slot, 0);
    let gen1 = h1.generation;
    assert!(alloc.free(h1));
    let h2 = alloc.alloc_uninit(10).unwrap();
    let gen2 = h2.generation;
    if h2.slot == h1.slot {
        assert_eq!(gen2, gen1.wrapping_add(1));
    }
    assert!(alloc.get(h1).is_none());
    assert!(alloc.get(h2).is_some());
}

#[test]
fn test_naive_allocator_multiple() {
    let mut alloc = NaiveAllocator::new();
    let mut handles = [None; 5];
    for i in 0..5 {
        let h = alloc.alloc_uninit(4).unwrap();
        assert!(alloc.set_byte(h, 0, i as u8));
        handles[i] = Some(h);
    }
    assert_eq!(alloc.len(), 5);
    for (i, h_opt) in handles.iter().enumerate() {
        let h = h_opt.unwrap();
        assert_eq!(alloc.get(h).unwrap()[0], i as u8);
    }
    alloc.clear();
    assert_eq!(alloc.len(), 0);
}

#[test]
fn test_direct_alloc() {
    let mut alloc = TinySlabAllocator::<2048, 64>::new();
    assert_eq!(alloc.capacity(), 64);
    assert_eq!(alloc.block_size(), 32);
    assert_eq!(alloc.len(), 0);
    let result = alloc.alloc_bytes(b"test");
    assert!(result.is_some(), "Allocation should succeed");
    let handle = result.unwrap();
    assert_eq!(alloc.get(handle), Some(&b"test"[..]));
    assert_eq!(alloc.len(), 1);
    assert!(alloc.free(handle));
    assert_eq!(alloc.len(), 0);
}

#[test]
fn test_init_custom_size() {
    let mut alloc = TinySlabAllocator::<4096, 128>::new();
    assert_eq!(alloc.capacity(), 128);
    assert_eq!(alloc.block_size(), 32);
    alloc.clear();
    let handle = alloc.alloc_bytes(b"test").unwrap();
    assert_eq!(alloc.get(handle), Some(&b"test"[..]));
    assert!(alloc.free(handle));
}

#[test]
fn handle_parts_round_trip() {
    let handle = Handle::new(5, 2);
    assert_eq!(handle.parts(), (5, 2));
    assert_eq!(tinyalloc::version(), "0.1.0");
}

#[test]
fn freed_handle_is_stale_for_every_access() {
    let mut alloc = TinySlabAllocator::<64, 4>::new();
    let h = alloc.alloc_bytes(b"abc").unwrap();
    assert!(alloc.free(h));
    assert!(alloc.get(h).is_none());
    assert!(!alloc.set_byte(h, 0, 1));
    assert!(!alloc.free(h));
    let h2 = alloc.alloc_uninit(3).unwrap();
    assert_eq!(h2.slot, h.slot);
    assert_ne!(h2.generation, h.generation);
}

#[test]
fn generation_wraps_within_layout_width() {
    let mut alloc = TinySlabAllocator::<2048, 64>::new();
    let layout = alloc.bit_layout();
    assert_eq!(layout.slot_bits, 7);
    assert_eq!(layout.len_bits, 5);
    assert_eq!(layout.gen_bits, 4);
    let mut h = alloc.alloc_uninit(1).unwrap();
    for _ in 0..16 {
        assert!(alloc.free(h));
        h = alloc.alloc_uninit(1).unwrap();
    }
    assert_eq!(h.slot, 0);
    assert_eq!(h.generation, 0);
}

#[test]
fn clear_advances_every_generation() {
    let mut alloc = TinySlabAllocator::<64, 4>::new();
    let h = alloc.alloc_uninit(2).unwrap();
    alloc.clear();
    assert!(alloc.get(h).is_none());
    let h2 = alloc.alloc_uninit(2).unwrap();
    assert_eq!(h2.slot, 0);
    assert_eq!(h2.generation, 1);
}

#[test]
fn stats_report_usage() {
    let mut alloc = TinySlabAllocator::<1024, 32>::new();
    alloc.alloc_bytes(b"x").unwrap();
    let s = tinyalloc::stats(&alloc);
    assert_eq!(s.used, 1);
    assert_eq!(s.capacity, 32);
    assert_eq!(s.block_size, 32);
}

#[test]
fn layout_partitions_sixteen_bits() {
    let alloc = TinySlabAllocator::<40, 4>::new();
    let l = alloc.bit_layout();
    assert_eq!(l.slot_bits + l.gen_bits + l.len_bits, 16);
    assert_eq!(l.slot_bits, 3);
    assert_eq!(l.gen_bits, 8);
    let naive = NaiveAllocator::new();
    let n = naive.bit_layout();
    assert_eq!((n.slot_bits, n.gen_bits, n.len_bits), (7, 2, 7));
}
