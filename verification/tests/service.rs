use rustable::allocator::first_fit::Allocator;
use rustable::allocator::pool::AllocError;
use rustable::allocator::util::PGSIZE;

const BASE: usize = 0x10_0000;

fn pool(frames: usize) -> Allocator {
    let mut allocator = Allocator::new();
    allocator.init_memmap(0x4000, frames, BASE);
    allocator
}

#[test]
fn alloc_pages_counts_in_pages() {
    let mut allocator = pool(10);
    assert_eq!(allocator.alloc_pages(3), Ok(BASE));
    assert_eq!(allocator.alloc_pages(1), Ok(BASE + 3 * PGSIZE));
    assert_eq!(allocator.free_count(), 6);
    assert_eq!(allocator.alloc_pages(7), Err(AllocError::Exhausted));
    assert_eq!(allocator.alloc_pages(0), Err(AllocError::Unsupported));
    assert_eq!(allocator.alloc_pages(usize::MAX), Err(AllocError::Exhausted));
    assert_eq!(allocator.free_runs(), vec![(4, 6)]);
}

#[test]
fn dealloc_pages_gives_pages_back() {
    let mut allocator = pool(10);
    let first = allocator.alloc_pages(3).unwrap();
    let second = allocator.alloc_pages(2).unwrap();
    allocator.dealloc_pages(first, 3);
    assert_eq!(allocator.free_runs(), vec![(0, 3), (5, 5)]);
    allocator.dealloc_pages(second, 2);
    assert_eq!(allocator.free_runs(), vec![(0, 10)]);
}

#[test]
fn pgdir_alloc_page_returns_mapped_page() {
    let mut allocator = pool(4);
    let mut seen = None;
    let r = allocator.pgdir_alloc_page(|page| {
        seen = Some(page);
        true
    });
    assert_eq!(r, Ok(BASE));
    assert_eq!(seen, Some(BASE));
    assert_eq!(allocator.free_count(), 3);
    assert_eq!(allocator.free_runs(), vec![(1, 3)]);
}

#[test]
fn pgdir_alloc_page_rolls_back_when_mapping_fails() {
    let mut allocator = pool(4);
    allocator.alloc_pages(1).unwrap();
    let r = allocator.pgdir_alloc_page(|_| false);
    assert_eq!(r, Err(AllocError::Unsupported));
    assert_eq!(allocator.free_count(), 3);
    assert_eq!(allocator.free_runs(), vec![(1, 3)]);
}

#[test]
fn pgdir_alloc_page_reports_exhaustion_without_mapping() {
    let mut allocator = pool(1);
    allocator.alloc_pages(1).unwrap();
    let mut called = false;
    let r = allocator.pgdir_alloc_page(|_| {
        called = true;
        true
    });
    assert_eq!(r, Err(AllocError::Exhausted));
    assert!(!called);
    assert_eq!(allocator.free_count(), 0);
}
