use arena_lib::bump::{Bump, Step};
use arena_lib::Error;

/// A chunk whose start address the cursor places requests in.
fn chunk(len: usize) -> (Vec<u8>, usize) {
    let v = vec![0_u8; len.max(1)];
    let base = v.as_ptr() as usize;
    (v, base)
}

fn placed(step: Result<Step, Error>) -> usize {
    match step {
        Ok(Step::Placed(a)) => a,
        other => panic!("expected a placement, got {other:?}"),
    }
}

#[test]
fn alloc_returns_unique_reference() {
    let (_mem, base) = chunk(32);
    let mut bump = Bump::with_capacity(32);
    let a = placed(bump.place(base, 4, 4));
    let b = placed(bump.place(base, 4, 4));
    assert!(a + 4 <= b);
    assert!(bump.allocated_bytes() >= 8);
}

#[test]
fn reset_clears_offset() {
    let mut bump = Bump::with_capacity(16);
    let base = 0x2000;
    let _ = bump.place(base, 8, 8);
    assert!(bump.allocated_bytes() > 0);
    bump.reset();
    assert_eq!(bump.allocated_bytes(), 0);
    let _ = bump.place(base, 8, 8);
    assert!(bump.allocated_bytes() > 0);
}

#[test]
fn alignment_is_respected() {
    let (_mem, base) = chunk(64);
    let mut bump = Bump::with_capacity(64);
    let _ = placed(bump.place(base, 1, 1));
    let aligned = placed(bump.place(base, 4, 4));
    assert_eq!(aligned % 4, 0);
}

#[test]
fn zst_alloc_does_not_advance_offset() {
    let mut bump = Bump::with_capacity(8);
    let before = bump.allocated_bytes();
    assert_eq!(bump.place(0x3000, 0, 1), Ok(Step::Placed(1)));
    assert_eq!(bump.allocated_bytes(), before);
}

#[test]
fn empty_bump_serves_zero_sized_requests_of_any_alignment() {
    let mut bump = Bump::new();
    assert_eq!(bump.chunk_capacity(), 0);
    assert_eq!(bump.chunk_count(), 0);
    assert_eq!(bump.current_chunk(), None);
    assert_eq!(bump.place(1, 0, 8), Ok(Step::Placed(8)));
    assert_eq!(bump.place(0, 0, 1), Ok(Step::Placed(1)));
    assert_eq!(bump.allocated_bytes(), 0);
}

#[test]
fn empty_bump_asks_for_a_default_chunk() {
    let mut bump = Bump::default();
    assert_eq!(bump.place(0, 1, 1), Ok(Step::NewChunk(4096)));
    assert_eq!(bump.chunk_count(), 0);
    bump.add_chunk(4096);
    assert_eq!(bump.current_chunk(), Some(0));
    assert_eq!(bump.place(0x10_000, 1, 1), Ok(Step::Placed(0x10_000)));
    assert_eq!(bump.chunk_capacity(), 4096);
    assert_eq!(bump.allocated_bytes(), 1);
}

#[test]
fn full_chunk_grows_into_a_new_one() {
    let mut bump = Bump::with_capacity(8);
    let first = 0x1000;
    assert_eq!(bump.place(first, 8, 8), Ok(Step::Placed(0x1000)));
    assert_eq!(bump.place(first, 8, 8), Ok(Step::NewChunk(4096)));
    bump.add_chunk(4096);
    assert_eq!(bump.chunk_count(), 2);
    assert_eq!(bump.current_chunk(), Some(1));
    let second = 0x9000;
    assert_eq!(bump.place(second, 8, 8), Ok(Step::Placed(0x9000)));
    assert_eq!(bump.allocated_bytes(), 16);
    assert_eq!(bump.chunk_capacity(), 8 + 4096);
}

#[test]
fn large_request_opens_a_chunk_big_enough_for_it() {
    let mut bump = Bump::with_capacity(16);
    let need = 10_000 + 64 - 1;
    assert_eq!(bump.place(0x1001, 10_000, 64), Ok(Step::NewChunk(need)));
    bump.add_chunk(need);
    let a = placed(bump.place(0x20_001, 10_000, 64));
    assert_eq!(a % 64, 0);
    assert!(a + 10_000 <= 0x20_001 + need);
}

#[test]
fn reset_refills_existing_chunks_in_order() {
    let mut bump = Bump::with_capacity(4);
    assert_eq!(bump.place(0x100, 4, 1), Ok(Step::Placed(0x100)));
    assert_eq!(bump.place(0x100, 4, 1), Ok(Step::NewChunk(4096)));
    bump.add_chunk(4096);
    assert_eq!(bump.place(0x800, 4, 1), Ok(Step::Placed(0x800)));
    bump.reset();
    assert_eq!(bump.chunk_count(), 2);
    assert_eq!(bump.allocated_bytes(), 0);
    assert_eq!(bump.current_chunk(), Some(0));
    assert_eq!(bump.place(0x100, 4, 1), Ok(Step::Placed(0x100)));
    assert_eq!(bump.place(0x100, 4, 1), Ok(Step::NextChunk));
    assert_eq!(bump.current_chunk(), Some(1));
    assert_eq!(bump.place(0x800, 4, 1), Ok(Step::Placed(0x800)));
    assert_eq!(bump.allocated_bytes(), 8);
}

#[test]
fn placement_pads_to_alignment_exactly() {
    let mut bump = Bump::with_capacity(64);
    let base = 0x1001;
    assert_eq!(bump.place(base, 1, 1), Ok(Step::Placed(0x1001)));
    assert_eq!(bump.allocated_bytes(), 1);
    assert_eq!(bump.place(base, 8, 8), Ok(Step::Placed(0x1008)));
    assert_eq!(bump.allocated_bytes(), 15);
    assert_eq!(bump.place(base, 2, 16), Ok(Step::Placed(0x1010)));
    assert_eq!(bump.allocated_bytes(), 17);
}

#[test]
fn placement_at_address_zero_is_refused_after_moving() {
    let mut bump = Bump::with_capacity(8);
    assert_eq!(bump.place(0, 4, 4), Err(Error::CapacityExceeded));
    assert_eq!(bump.allocated_bytes(), 4);
}

#[test]
fn oversized_request_is_refused() {
    let mut bump = Bump::with_capacity(64);
    assert_eq!(bump.place(0x1000, usize::MAX, 8), Err(Error::CapacityExceeded));
    assert_eq!(bump.allocated_bytes(), 0);
    assert_eq!(bump.chunk_count(), 1);
}

#[test]
fn cursor_only_advances() {
    let mut bump = Bump::with_capacity(64);
    let mut prev = bump.allocated_bytes();
    for (size, align) in [(1, 1), (4, 4), (2, 2), (8, 8), (3, 1), (16, 16), (64, 1)] {
        loop {
            match bump.place(0x8000, size, align) {
                Ok(Step::Placed(_)) => break,
                Ok(Step::NextChunk) => {}
                Ok(Step::NewChunk(n)) => bump.add_chunk(n),
                Err(e) => panic!("{e:?}"),
            }
        }
        let now = bump.allocated_bytes();
        assert!(now >= prev);
        assert!(now <= bump.chunk_capacity());
        prev = now;
    }
}
