use rustable::allocator::first_fit::Allocator;
use rustable::allocator::page::{Page, PG_PROPERTY};
use rustable::allocator::pool::AllocError;
use rustable::allocator::util::{size_to_frames, PGSIZE};

const TABLE: usize = 0x7000_0000;
const BASE: usize = 0x8_0000;

fn pool(frames: usize) -> Allocator {
    let mut allocator = Allocator::new();
    assert!(!allocator.is_initialized());
    allocator.init_memmap(TABLE, frames, BASE);
    allocator
}

fn addr(frame: usize) -> usize {
    BASE + frame * PGSIZE
}

/// The sum of the run lengths is the free count, which is at most the frame count.
fn check_counts(allocator: &Allocator) {
    let runs = allocator.free_runs();
    let sum: usize = runs.iter().map(|r| r.1).sum();
    assert_eq!(sum, allocator.free_count());
    assert!(allocator.free_count() <= allocator.frame_count());
    for (start, len) in runs.iter() {
        let head = allocator.page(*start);
        assert!(head.is_head());
        assert_eq!(head.run_length(), *len);
    }
}

#[test]
fn new_allocator_manages_nothing() {
    let allocator = Allocator::new();
    assert!(!allocator.is_initialized());
    assert_eq!(allocator.frame_count(), 0);
    assert_eq!(allocator.free_count(), 0);
    assert_eq!(allocator.free_runs(), vec![]);
}

#[test]
fn init_memmap_makes_one_run_of_all_frames() {
    let allocator = pool(16);
    assert!(allocator.is_initialized());
    assert_eq!(allocator.frame_count(), 16);
    assert_eq!(allocator.free_count(), 16);
    assert_eq!(allocator.base_table_addr(), TABLE);
    assert_eq!(allocator.base_phys_addr(), BASE);
    assert_eq!(allocator.free_runs(), vec![(0, 16)]);
    let head = allocator.page(0);
    assert!(head.is_head());
    assert_eq!(head.flags, PG_PROPERTY);
    assert_eq!(head.property, 16);
    assert_eq!(head.ref_count, 0);
    for frame in 1..16 {
        let page = allocator.page(frame);
        assert!(!page.is_head());
        assert_eq!(page.flags, 0);
        assert_eq!(page.ref_count, 0);
        assert_eq!(page.link, None);
    }
    check_counts(&allocator);
}

#[test]
fn round_trip_restores_single_run() {
    let mut allocator = pool(16);
    let block = allocator.allocate(4 * PGSIZE, PGSIZE).unwrap();
    assert_eq!(block, addr(0));
    assert_eq!(allocator.free_runs(), vec![(4, 12)]);
    assert_eq!(allocator.free_count(), 12);
    check_counts(&allocator);
    assert!(allocator.can_dealloc(block, 4 * PGSIZE));
    allocator.dealloc(block, 4 * PGSIZE);
    assert_eq!(allocator.free_runs(), vec![(0, 16)]);
    assert_eq!(allocator.free_count(), 16);
    check_counts(&allocator);
}

#[test]
fn exhaustion_leaves_free_count() {
    let mut allocator = pool(10);
    assert_eq!(allocator.allocate(11 * PGSIZE, PGSIZE), Err(AllocError::Exhausted));
    assert_eq!(allocator.free_count(), 10);
    assert_eq!(allocator.free_runs(), vec![(0, 10)]);
}

#[test]
fn fragmentation_boundary() {
    let mut allocator = pool(10);
    assert_eq!(allocator.allocate(5 * PGSIZE, PGSIZE), Ok(addr(0)));
    assert_eq!(allocator.allocate(6 * PGSIZE, PGSIZE), Err(AllocError::Exhausted));
    assert_eq!(allocator.free_count(), 5);
    assert_eq!(allocator.free_runs(), vec![(5, 5)]);
    check_counts(&allocator);
}

#[test]
fn fragmented_pool_fails_past_the_fast_check() {
    // Six frames are free, but in runs of two and four.
    let mut allocator = pool(10);
    let a = allocator.allocate(2 * PGSIZE, PGSIZE).unwrap();
    let _b = allocator.allocate(4 * PGSIZE, PGSIZE).unwrap();
    allocator.dealloc(a, 2 * PGSIZE);
    assert_eq!(allocator.free_count(), 6);
    assert_eq!(allocator.free_runs(), vec![(0, 2), (6, 4)]);
    assert_eq!(allocator.allocate(5 * PGSIZE, PGSIZE), Err(AllocError::Exhausted));
    assert_eq!(allocator.free_count(), 6);
    assert_eq!(allocator.free_runs(), vec![(0, 2), (6, 4)]);
}

#[test]
fn reuse_after_free() {
    let mut allocator = pool(10);
    let first = allocator.allocate(3 * PGSIZE, PGSIZE).unwrap();
    assert_eq!(allocator.free_runs(), vec![(3, 7)]);
    let second = allocator.allocate(7 * PGSIZE, PGSIZE).unwrap();
    assert_eq!(second, addr(3));
    assert_eq!(allocator.free_count(), 0);
    assert_eq!(allocator.free_runs(), vec![]);
    assert_eq!(allocator.allocate(PGSIZE, PGSIZE), Err(AllocError::Exhausted));
    allocator.dealloc(first, 3 * PGSIZE);
    assert_eq!(allocator.free_runs(), vec![(0, 3)]);
    assert_eq!(allocator.allocate(3 * PGSIZE, PGSIZE), Ok(first));
    assert_eq!(allocator.free_count(), 0);
    check_counts(&allocator);
}

#[test]
fn coalescing_gives_one_run() {
    let mut allocator = pool(10);
    let first = allocator.allocate(2 * PGSIZE, PGSIZE).unwrap();
    let second = allocator.allocate(2 * PGSIZE, PGSIZE).unwrap();
    assert_eq!(first, addr(0));
    assert_eq!(second, addr(2));
    assert_eq!(allocator.free_runs(), vec![(4, 6)]);
    allocator.dealloc(second, 2 * PGSIZE);
    assert_eq!(allocator.free_runs(), vec![(2, 8)]);
    check_counts(&allocator);
    allocator.dealloc(first, 2 * PGSIZE);
    assert_eq!(allocator.free_runs(), vec![(0, 10)]);
    assert_eq!(allocator.free_count(), 10);
    check_counts(&allocator);
    assert!(!allocator.page(2).is_head());
    assert!(!allocator.page(4).is_head());
}

#[test]
fn alloc_at_splits_run_in_three() {
    let mut allocator = pool(10);
    assert_eq!(allocator.alloc_at(addr(3), 2 * PGSIZE, PGSIZE), Ok(addr(3)));
    let runs = allocator.free_runs();
    assert_eq!(runs, vec![(0, 3), (5, 5)]);
    assert_eq!(runs[0].1 + runs[1].1 + 2, 10);
    assert_eq!(allocator.free_count(), 8);
    check_counts(&allocator);
    assert_eq!(allocator.page(5).property, 5);
    assert!(!allocator.page(3).is_head());
}

#[test]
fn alloc_at_front_leaves_suffix() {
    let mut allocator = pool(10);
    assert_eq!(allocator.alloc_at(addr(0), 4 * PGSIZE, PGSIZE), Ok(addr(0)));
    assert_eq!(allocator.free_runs(), vec![(4, 6)]);
    check_counts(&allocator);
}

#[test]
fn alloc_at_back_leaves_prefix() {
    let mut allocator = pool(10);
    assert_eq!(allocator.alloc_at(addr(6), 4 * PGSIZE, PGSIZE), Ok(addr(6)));
    assert_eq!(allocator.free_runs(), vec![(0, 6)]);
    check_counts(&allocator);
}

#[test]
fn alloc_at_whole_run_empties_list() {
    let mut allocator = pool(10);
    assert_eq!(allocator.alloc_at(addr(0), 10 * PGSIZE, PGSIZE), Ok(addr(0)));
    assert_eq!(allocator.free_runs(), vec![]);
    assert_eq!(allocator.free_count(), 0);
}

#[test]
fn alloc_at_keeps_list_position() {
    // List order: the run at 0, then the run at 4.
    let mut allocator = pool(12);
    let a = allocator.allocate(3 * PGSIZE, PGSIZE).unwrap();
    let _b = allocator.allocate(PGSIZE, PGSIZE).unwrap();
    allocator.dealloc(a, 3 * PGSIZE);
    assert_eq!(allocator.free_runs(), vec![(0, 3), (4, 8)]);
    assert_eq!(allocator.alloc_at(addr(6), 2 * PGSIZE, PGSIZE), Ok(addr(6)));
    assert_eq!(allocator.free_runs(), vec![(0, 3), (4, 2), (8, 4)]);
    assert_eq!(allocator.alloc_at(addr(1), PGSIZE, PGSIZE), Ok(addr(1)));
    assert_eq!(allocator.free_runs(), vec![(0, 1), (2, 1), (4, 2), (8, 4)]);
    check_counts(&allocator);
}

#[test]
fn alloc_at_fails_where_frames_are_taken() {
    let mut allocator = pool(10);
    allocator.allocate(4 * PGSIZE, PGSIZE).unwrap();
    assert_eq!(allocator.alloc_at(addr(2), PGSIZE, PGSIZE), Err(AllocError::Exhausted));
    // Not enough frames after the address.
    assert_eq!(allocator.alloc_at(addr(8), 3 * PGSIZE, PGSIZE), Err(AllocError::Exhausted));
    // More frames than are free at all.
    assert_eq!(allocator.alloc_at(addr(4), 7 * PGSIZE, PGSIZE), Err(AllocError::Exhausted));
    assert_eq!(allocator.free_runs(), vec![(4, 6)]);
    assert_eq!(allocator.free_count(), 6);
}

#[test]
fn alloc_at_rejects_addresses_that_are_no_frame() {
    let mut allocator = pool(10);
    assert_eq!(allocator.alloc_at(addr(3) + 8, PGSIZE, PGSIZE), Err(AllocError::Unsupported));
    assert_eq!(allocator.alloc_at(BASE - PGSIZE, PGSIZE, PGSIZE), Err(AllocError::Unsupported));
    assert_eq!(allocator.alloc_at(addr(10), PGSIZE, PGSIZE), Err(AllocError::Unsupported));
    assert_eq!(allocator.alloc_at(addr(3), 0, PGSIZE), Err(AllocError::Unsupported));
    assert_eq!(allocator.free_runs(), vec![(0, 10)]);
}

#[test]
fn unsupported_requests_change_nothing() {
    let mut allocator = pool(10);
    assert_eq!(allocator.allocate(0, PGSIZE), Err(AllocError::Unsupported));
    assert_eq!(allocator.allocate(PGSIZE, 0), Err(AllocError::Unsupported));
    assert_eq!(allocator.allocate(PGSIZE, 3), Err(AllocError::Unsupported));
    assert_eq!(allocator.allocate(PGSIZE, 2 * PGSIZE), Err(AllocError::Unsupported));
    assert_eq!(allocator.free_count(), 10);
    assert_eq!(allocator.free_runs(), vec![(0, 10)]);
    assert!(!allocator.supports(0, 8));
    assert!(allocator.supports(1, 8));
    assert!(allocator.supports(1, PGSIZE));
}

#[test]
fn unsupported_comes_before_exhausted() {
    let mut allocator = pool(2);
    assert_eq!(allocator.allocate(5 * PGSIZE, 3), Err(AllocError::Unsupported));
    assert_eq!(allocator.allocate(5 * PGSIZE, 8), Err(AllocError::Exhausted));
}

#[test]
fn misaligned_base_supports_only_what_it_meets() {
    let mut allocator = Allocator::new();
    allocator.init_memmap(TABLE, 4, 0x8_0010);
    assert_eq!(allocator.allocate(PGSIZE, PGSIZE), Err(AllocError::Unsupported));
    assert_eq!(allocator.allocate(PGSIZE, 16), Ok(0x8_0010));
    assert_eq!(allocator.allocate(PGSIZE, 8), Ok(0x8_0010 + PGSIZE));
}

#[test]
fn sizes_round_up_to_frames() {
    let mut allocator = pool(10);
    assert_eq!(allocator.allocate(1, 1), Ok(addr(0)));
    assert_eq!(allocator.free_runs(), vec![(1, 9)]);
    assert_eq!(allocator.allocate(PGSIZE + 1, 8), Ok(addr(1)));
    assert_eq!(allocator.free_runs(), vec![(3, 7)]);
    assert_eq!(allocator.allocate(PGSIZE, 8), Ok(addr(3)));
    assert_eq!(allocator.free_runs(), vec![(4, 6)]);
    allocator.dealloc(addr(1), PGSIZE + 1);
    assert_eq!(allocator.free_runs(), vec![(1, 2), (4, 6)]);
    check_counts(&allocator);
}

#[test]
fn size_to_frames_values() {
    assert_eq!(size_to_frames(0), 0);
    assert_eq!(size_to_frames(1), 1);
    assert_eq!(size_to_frames(PGSIZE - 1), 1);
    assert_eq!(size_to_frames(PGSIZE), 1);
    assert_eq!(size_to_frames(PGSIZE + 1), 2);
    assert_eq!(size_to_frames(10 * PGSIZE), 10);
    assert_eq!(size_to_frames(usize::MAX), usize::MAX / PGSIZE + 1);
}

#[test]
fn exact_fit_takes_run_off_the_list() {
    let mut allocator = pool(4);
    assert_eq!(allocator.allocate(4 * PGSIZE, PGSIZE), Ok(addr(0)));
    assert_eq!(allocator.free_runs(), vec![]);
    assert_eq!(allocator.free_count(), 0);
    assert!(!allocator.page(0).is_head());
    assert_eq!(allocator.page(0).link, None);
}

#[test]
fn first_fit_goes_by_list_order_not_by_size() {
    let mut allocator = pool(10);
    let a = allocator.allocate(PGSIZE, PGSIZE).unwrap();
    let _b = allocator.allocate(PGSIZE, PGSIZE).unwrap();
    let c = allocator.allocate(3 * PGSIZE, PGSIZE).unwrap();
    let _d = allocator.allocate(PGSIZE, PGSIZE).unwrap();
    assert_eq!(allocator.free_runs(), vec![(6, 4)]);
    allocator.dealloc(a, PGSIZE);
    allocator.dealloc(c, 3 * PGSIZE);
    // The run last freed is first; the one-frame run would fit exactly.
    assert_eq!(allocator.free_runs(), vec![(2, 3), (0, 1), (6, 4)]);
    assert_eq!(allocator.allocate(PGSIZE, PGSIZE), Ok(addr(2)));
    assert_eq!(allocator.free_runs(), vec![(3, 2), (0, 1), (6, 4)]);
    // The first two runs are too small for three frames.
    assert_eq!(allocator.allocate(3 * PGSIZE, PGSIZE), Ok(addr(6)));
    assert_eq!(allocator.free_runs(), vec![(3, 2), (0, 1), (9, 1)]);
    // An exact fit in the middle of the list leaves the list.
    assert_eq!(allocator.allocate(2 * PGSIZE, PGSIZE), Ok(addr(3)));
    assert_eq!(allocator.free_runs(), vec![(0, 1), (9, 1)]);
    check_counts(&allocator);
}

#[test]
fn dealloc_without_neighbours_goes_to_the_front() {
    let mut allocator = pool(10);
    let _a = allocator.allocate(2 * PGSIZE, PGSIZE).unwrap();
    let b = allocator.allocate(2 * PGSIZE, PGSIZE).unwrap();
    let _c = allocator.allocate(2 * PGSIZE, PGSIZE).unwrap();
    assert_eq!(allocator.free_runs(), vec![(6, 4)]);
    allocator.dealloc(b, 2 * PGSIZE);
    assert_eq!(allocator.free_runs(), vec![(2, 2), (6, 4)]);
    assert_eq!(allocator.free_count(), 6);
    let head = allocator.page(2);
    assert!(head.is_head());
    assert_eq!(head.property, 2);
    assert_eq!(head.link, Some(6));
    check_counts(&allocator);
}

#[test]
fn dealloc_merges_forward_and_moves_to_the_front() {
    let mut allocator = pool(10);
    let a = allocator.allocate(2 * PGSIZE, PGSIZE).unwrap();
    let b = allocator.allocate(2 * PGSIZE, PGSIZE).unwrap();
    let _c = allocator.allocate(2 * PGSIZE, PGSIZE).unwrap();
    let _d = allocator.allocate(4 * PGSIZE, PGSIZE).unwrap();
    allocator.dealloc(b, 2 * PGSIZE);
    allocator.dealloc(_d, 4 * PGSIZE);
    assert_eq!(allocator.free_runs(), vec![(6, 4), (2, 2)]);
    // The block at 0 joins the run at 2, which is not first in the list.
    allocator.dealloc(a, 2 * PGSIZE);
    assert_eq!(allocator.free_runs(), vec![(0, 4), (6, 4)]);
    assert!(!allocator.page(2).is_head());
    assert_eq!(allocator.page(2).link, None);
    check_counts(&allocator);
}

#[test]
fn dealloc_merges_backward_in_place() {
    let mut allocator = pool(10);
    let a = allocator.allocate(2 * PGSIZE, PGSIZE).unwrap();
    let b = allocator.allocate(2 * PGSIZE, PGSIZE).unwrap();
    let c = allocator.allocate(2 * PGSIZE, PGSIZE).unwrap();
    let _d = allocator.allocate(2 * PGSIZE, PGSIZE).unwrap();
    allocator.dealloc(a, 2 * PGSIZE);
    assert_eq!(allocator.free_runs(), vec![(0, 2), (8, 2)]);
    allocator.dealloc(c, 2 * PGSIZE);
    assert_eq!(allocator.free_runs(), vec![(4, 2), (0, 2), (8, 2)]);
    // The block at 2 joins the run at 4 after it and the run at 0 before it;
    // the joined run stands where the run at 0 stood.
    allocator.dealloc(b, 2 * PGSIZE);
    assert_eq!(allocator.free_runs(), vec![(0, 6), (8, 2)]);
    assert_eq!(allocator.free_count(), 8);
    assert!(!allocator.page(2).is_head());
    assert!(!allocator.page(4).is_head());
    check_counts(&allocator);
}

#[test]
fn dealloc_merges_backward_only() {
    let mut allocator = pool(6);
    let a = allocator.allocate(2 * PGSIZE, PGSIZE).unwrap();
    let b = allocator.allocate(2 * PGSIZE, PGSIZE).unwrap();
    let _c = allocator.allocate(2 * PGSIZE, PGSIZE).unwrap();
    allocator.dealloc(a, 2 * PGSIZE);
    allocator.dealloc(b, 2 * PGSIZE);
    assert_eq!(allocator.free_runs(), vec![(0, 4)]);
    assert_eq!(allocator.page(0).property, 4);
}

#[test]
fn delivered_frames_are_clear_and_can_be_referenced() {
    let mut allocator = pool(8);
    let block = allocator.allocate(2 * PGSIZE, PGSIZE).unwrap();
    let frame = allocator.frame_index(block).unwrap();
    assert_eq!(frame, 0);
    for f in frame..frame + 2 {
        assert_eq!(allocator.page(f).flags, 0);
        assert_eq!(allocator.page(f).ref_count, 0);
    }
    allocator.set_page_ref(1, 3);
    assert_eq!(allocator.page(1).ref_count, 3);
    assert_eq!(allocator.free_runs(), vec![(2, 6)]);
    allocator.dealloc(block, 2 * PGSIZE);
    assert_eq!(allocator.page(1).ref_count, 0);
    assert_eq!(allocator.free_runs(), vec![(0, 8)]);
}

#[test]
fn can_dealloc_tells_allocated_blocks() {
    let mut allocator = pool(10);
    let block = allocator.allocate(4 * PGSIZE, PGSIZE).unwrap();
    assert!(allocator.can_dealloc(block, 4 * PGSIZE));
    assert!(allocator.can_dealloc(block + PGSIZE, 2 * PGSIZE));
    assert!(allocator.can_dealloc(block, 1));
    assert!(!allocator.can_dealloc(block, 0));
    assert!(!allocator.can_dealloc(block, 5 * PGSIZE));
    assert!(!allocator.can_dealloc(addr(4), PGSIZE));
    assert!(!allocator.can_dealloc(block + 1, PGSIZE));
    assert!(!allocator.can_dealloc(BASE - PGSIZE, PGSIZE));
    assert!(!allocator.can_dealloc(addr(10), PGSIZE));
    assert!(!allocator.can_dealloc(addr(9), 2 * PGSIZE));
}

#[test]
fn addresses_and_frames_translate_both_ways() {
    let allocator = pool(10);
    assert_eq!(allocator.frame_address(0), BASE);
    assert_eq!(allocator.frame_address(7), BASE + 7 * 4096);
    assert_eq!(allocator.frame_index(BASE + 7 * 4096), Some(7));
    assert_eq!(allocator.frame_index(BASE + 7 * 4096 + 1), None);
    assert_eq!(allocator.frame_index(BASE - 1), None);
    assert_eq!(allocator.frame_index(BASE + 10 * 4096), None);
    for frame in 0..10 {
        assert_eq!(allocator.frame_index(allocator.frame_address(frame)), Some(frame));
    }
}

#[test]
fn counts_hold_through_a_long_run() {
    let mut allocator = pool(28);
    let mut blocks: Vec<(usize, usize)> = Vec::new();
    let sizes = [3usize, 1, 4, 1, 5, 9, 2, 6];
    for size in sizes.iter() {
        match allocator.allocate(size * PGSIZE, PGSIZE) {
            Ok(block) => blocks.push((block, *size)),
            Err(e) => assert_eq!(e, AllocError::Exhausted),
        }
        check_counts(&allocator);
    }
    assert_eq!(blocks.len(), 7);
    for index in [1usize, 3, 5, 0, 2, 6, 4] {
        let (block, size) = blocks[index];
        assert!(allocator.can_dealloc(block, size * PGSIZE));
        allocator.dealloc(block, size * PGSIZE);
        check_counts(&allocator);
    }
    assert_eq!(allocator.free_runs(), vec![(0, 28)]);
    assert_eq!(allocator.free_count(), 28);
}

#[test]
fn page_flags_and_fields() {
    let mut page = Page::new();
    assert_eq!(page.flags, 0);
    assert!(!page.is_head());
    assert!(!page.is_reserved());
    page.mark_head();
    assert!(page.is_head());
    assert_eq!(page.flags, PG_PROPERTY);
    page.set_run_length(12);
    assert_eq!(page.run_length(), 12);
    page.flags |= 1;
    assert!(page.is_reserved());
    page.unmark_head();
    assert!(!page.is_head());
    assert!(page.is_reserved());
    page.set_ref(5);
    assert_eq!(page.ref_count, 5);
    page.clear_flags();
    assert_eq!(page.flags, 0);
    assert_eq!(page.ref_count, 5);
    assert_eq!(page.property, 12);
}
