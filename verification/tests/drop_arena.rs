use arena_lib::drop_arena::DropArena;
use std::sync::Arc;

#[test]
fn alloc_returns_unique_references() {
    let mut arena = DropArena::<u32>::new();
    let a = *arena.allocate(1);
    let b = *arena.allocate(2);
    assert_eq!(a, 1);
    assert_eq!(b, 2);
    assert_eq!(arena.len(), 2);
}

#[test]
fn grows_to_new_chunk_when_current_is_full() {
    let mut arena = DropArena::<u32>::with_chunk_capacity(4);
    for i in 0..4 {
        let _ = arena.allocate(i);
    }
    assert_eq!(arena.chunk_count(), 1);
    let _ = arena.allocate(99);
    assert_eq!(arena.chunk_count(), 2);
    assert_eq!(arena.len(), 5);
}

#[test]
fn destructors_run_on_drop() {
    let shared = Arc::new(0_u32);
    {
        let mut arena = DropArena::<Arc<u32>>::new();
        let _ = arena.allocate(Arc::clone(&shared));
        let _ = arena.allocate(Arc::clone(&shared));
        assert_eq!(Arc::strong_count(&shared), 3);
    }
    assert_eq!(Arc::strong_count(&shared), 1);
}

#[test]
fn mutating_returned_reference_is_visible() {
    let mut arena = DropArena::<String>::new();
    let s = arena.allocate(String::from("hello"));
    s.push_str(", world");
    assert_eq!(s, "hello, world");
}

#[test]
fn references_remain_valid_across_chunk_growth() {
    let mut arena = DropArena::<u32>::with_chunk_capacity(2);
    let first = arena.allocate(100);
    assert_eq!(*first, 100);
    let _ = arena.allocate(200);
    let _ = arena.allocate(300);
    let _ = arena.allocate(400);
    let _ = arena.allocate(500);
    assert_eq!(arena.chunk_count(), 3);
    assert_eq!(arena.len(), 5);
}

#[test]
fn with_chunk_capacity_clamps_zero_to_one() {
    let mut arena = DropArena::<u8>::with_chunk_capacity(0);
    let _ = arena.allocate(1);
    let _ = arena.allocate(2);
    assert_eq!(arena.len(), 2);
    assert_eq!(arena.chunk_count(), 2);
}

#[test]
fn default_chunks_hold_sixteen_values() {
    let mut arena = DropArena::<u16>::default();
    assert!(arena.is_empty());
    for i in 0..16 {
        assert_eq!(*arena.allocate(i), i);
    }
    assert_eq!(arena.chunk_count(), 1);
    let _ = arena.allocate(16);
    assert_eq!(arena.chunk_count(), 2);
    assert_eq!(arena.len(), 17);
    assert!(!arena.is_empty());
}

#[test]
fn chunk_count_is_len_over_chunk_size_rounded_up() {
    for chunk in [1_usize, 2, 3, 5, 16] {
        let mut arena = DropArena::<u64>::with_chunk_capacity(chunk);
        assert_eq!(arena.chunk_count(), 0);
        for k in 1..=40_usize {
            let _ = arena.allocate(k as u64);
            assert_eq!(arena.len(), k);
            assert_eq!(arena.chunk_count(), (k + chunk - 1) / chunk);
        }
    }
}

#[test]
fn allocation_opens_a_chunk_exactly_at_multiples_of_chunk_size() {
    let mut arena = DropArena::<u8>::with_chunk_capacity(3);
    for k in 0..12_usize {
        let before = arena.chunk_count();
        let _ = arena.allocate(k as u8);
        let opened = if k % 3 == 0 { 1 } else { 0 };
        assert_eq!(arena.chunk_count(), before + opened);
    }
}
