use os_rust::heap_allocator::HeapAllocator;
use os_rust::layout::{AllocErr, Layout};

fn layout(size: usize, align: usize) -> Layout {
    Layout { size, align }
}

/// A heap over `[0x1000, 0x2000)`.
fn fresh_heap() -> HeapAllocator {
    let mut heap = HeapAllocator::empty();
    heap.init(0x1000, 0x1000);
    heap
}

#[test]
fn empty_heap_has_no_region() {
    let heap = HeapAllocator::empty();
    assert_eq!(heap.bottom(), 0);
    assert_eq!(heap.size(), 0);
    assert_eq!(heap.top(), 0);
    assert_eq!(heap.first_hole(), None);
}

#[test]
fn empty_heap_never_allocates() {
    let mut heap = HeapAllocator::empty();
    assert_eq!(heap.allocate(layout(1, 1)), Err(AllocErr));
    assert_eq!(heap.allocate(layout(16, 8)), Err(AllocErr));
    assert_eq!(heap.allocate_or_null(layout(16, 8)), 0);
    assert_eq!(heap.first_hole(), None);
}

#[test]
fn init_makes_the_region_one_hole() {
    let heap = fresh_heap();
    assert_eq!(heap.bottom(), 0x1000);
    assert_eq!(heap.size(), 0x1000);
    assert_eq!(heap.top(), 0x2000);
    assert_eq!(heap.first_hole(), Some((0x1000, 0x1000)));
}

#[test]
fn try_init_works_once() {
    let mut heap = HeapAllocator::empty();
    assert!(heap.try_init(0x1000, 0x1000));
    assert_eq!(heap.first_hole(), Some((0x1000, 0x1000)));
    assert_eq!(heap.allocate(layout(16, 8)), Ok(0x1000));
    assert!(!heap.try_init(0x8000, 0x100));
    assert_eq!(heap.bottom(), 0x1000);
    assert_eq!(heap.size(), 0x1000);
    assert_eq!(heap.first_hole(), Some((0x1010, 0xff0)));
}

#[test]
fn basic_allocate_and_free() {
    let mut heap = fresh_heap();
    assert_eq!(heap.allocate(layout(16, 8)), Ok(0x1000));
    assert_eq!(heap.first_hole(), Some((0x1010, 0xff0)));
    heap.dealloc(0x1000, layout(16, 8));
    assert_eq!(heap.first_hole(), Some((0x1000, 0x1000)));
}

#[test]
fn aligned_allocation_on_a_fresh_heap_needs_no_padding() {
    let mut heap = fresh_heap();
    assert_eq!(heap.allocate(layout(16, 256)), Ok(0x1000));
    assert_eq!(heap.first_hole(), Some((0x1010, 0xff0)));
}

#[test]
fn alignment_induced_front_padding() {
    let mut heap = fresh_heap();
    assert_eq!(heap.allocate(layout(16, 8)), Ok(0x1000));
    assert_eq!(heap.allocate(layout(16, 256)), Ok(0x1100));
    assert_eq!(heap.first_hole(), Some((0x1010, 0xf0)));
    // the hole behind the allocation is (0x1110, 0xef0)
    assert!(heap.is_allocated(0x1100, layout(16, 256)));
    assert!(!heap.is_allocated(0x1110, layout(16, 8)));
    assert_eq!(heap.allocate(layout(0xf0, 8)), Ok(0x1010));
    assert_eq!(heap.first_hole(), Some((0x1110, 0xef0)));
    assert_eq!(heap.allocate(layout(0xef0, 8)), Ok(0x1110));
    assert_eq!(heap.first_hole(), None);
}

#[test]
fn three_way_coalesce() {
    let mut heap = fresh_heap();
    assert_eq!(heap.allocate(layout(32, 8)), Ok(0x1000));
    assert_eq!(heap.allocate(layout(32, 8)), Ok(0x1020));
    assert_eq!(heap.allocate(layout(32, 8)), Ok(0x1040));
    heap.dealloc(0x1000, layout(32, 8));
    assert_eq!(heap.first_hole(), Some((0x1000, 32)));
    heap.dealloc(0x1040, layout(32, 8));
    assert_eq!(heap.first_hole(), Some((0x1000, 32)));
    heap.dealloc(0x1020, layout(32, 8));
    assert_eq!(heap.first_hole(), Some((0x1000, 0x1000)));
}

#[test]
fn out_of_memory_leaves_the_heap_unchanged() {
    let mut heap = fresh_heap();
    assert_eq!(heap.allocate(layout(4000, 8)), Ok(0x1000));
    assert_eq!(heap.first_hole(), Some((0x1fa0, 96)));
    assert_eq!(heap.allocate(layout(97, 8)), Err(AllocErr));
    assert_eq!(heap.allocate(layout(104, 8)), Err(AllocErr));
    assert_eq!(heap.allocate(layout(4096, 8)), Err(AllocErr));
    assert_eq!(heap.allocate(layout(usize::MAX, 1)), Err(AllocErr));
    assert_eq!(heap.first_hole(), Some((0x1fa0, 96)));
    assert_eq!(heap.allocate(layout(96, 8)), Ok(0x1fa0));
    assert_eq!(heap.first_hole(), None);
}

#[test]
fn sub_minimum_size_is_rounded_up() {
    let mut heap = fresh_heap();
    assert_eq!(heap.allocate(layout(1, 1)), Ok(0x1000));
    assert_eq!(heap.first_hole(), Some((0x1010, 0xff0)));
    assert!(heap.is_allocated(0x1000, layout(1, 1)));
    assert!(heap.is_allocated(0x1000, layout(16, 1)));
    heap.dealloc(0x1000, layout(1, 1));
    assert_eq!(heap.first_hole(), Some((0x1000, 0x1000)));
}

#[test]
fn zero_size_is_rounded_up() {
    let mut heap = fresh_heap();
    assert_eq!(heap.allocate(layout(0, 1)), Ok(0x1000));
    assert_eq!(heap.allocate(layout(0, 1)), Ok(0x1010));
    assert_eq!(heap.first_hole(), Some((0x1020, 0xfe0)));
    heap.dealloc(0x1010, layout(0, 1));
    heap.dealloc(0x1000, layout(0, 1));
    assert_eq!(heap.first_hole(), Some((0x1000, 0x1000)));
}

#[test]
fn back_padding_suppression() {
    let mut heap = fresh_heap();
    assert_eq!(heap.allocate(layout(0x1000 - 8, 8)), Err(AllocErr));
    assert_eq!(heap.first_hole(), Some((0x1000, 0x1000)));
    assert_eq!(heap.allocate(layout(0x1000, 8)), Ok(0x1000));
    assert_eq!(heap.first_hole(), None);
}

#[test]
fn whole_heap_allocation_needs_an_aligned_bottom() {
    let mut heap = HeapAllocator::empty();
    heap.init(0x1008, 0x1000);
    assert_eq!(heap.allocate(layout(0x1000, 16)), Err(AllocErr));
    assert_eq!(heap.allocate(layout(0x1000, 8)), Ok(0x1008));
}

#[test]
fn allocate_or_null_returns_the_address_or_zero() {
    let mut heap = fresh_heap();
    assert_eq!(heap.allocate_or_null(layout(0x800, 8)), 0x1000);
    assert_eq!(heap.allocate_or_null(layout(0x801, 8)), 0);
    assert_eq!(heap.first_hole(), Some((0x1800, 0x800)));
    assert_eq!(heap.allocate_or_null(layout(0x800, 8)), 0x1800);
    assert_eq!(heap.allocate_or_null(layout(1, 1)), 0);
}

#[test]
fn is_allocated_tells_blocks_from_holes() {
    let mut heap = fresh_heap();
    assert!(!heap.is_allocated(0x1000, layout(32, 8)));
    assert_eq!(heap.allocate(layout(32, 8)), Ok(0x1000));
    assert!(heap.is_allocated(0x1000, layout(32, 8)));
    assert!(heap.is_allocated(0x1000, layout(16, 8)));
    assert!(heap.is_allocated(0x1010, layout(16, 8)));
    // runs into the hole at 0x1020
    assert!(!heap.is_allocated(0x1000, layout(33, 8)));
    assert!(!heap.is_allocated(0x1018, layout(16, 8)));
}

#[test]
fn is_allocated_refuses_what_lies_outside_the_heap() {
    let mut heap = fresh_heap();
    assert_eq!(heap.allocate(layout(0x1000, 8)), Ok(0x1000));
    assert!(heap.is_allocated(0x1000, layout(0x1000, 8)));
    assert!(heap.is_allocated(0x1ff0, layout(16, 8)));
    assert!(!heap.is_allocated(0x0ff8, layout(16, 8)));
    assert!(!heap.is_allocated(0x1ff8, layout(16, 8)));
    assert!(!heap.is_allocated(0x2000, layout(16, 8)));
    assert!(!heap.is_allocated(0x3000, layout(16, 8)));
    assert!(!heap.is_allocated(0, layout(16, 8)));
    assert!(!heap.is_allocated(0x1000, layout(usize::MAX, 8)));
    assert!(!heap.is_allocated(usize::MAX, layout(16, 8)));
    assert!(!HeapAllocator::empty().is_allocated(0, layout(16, 8)));
    assert!(!HeapAllocator::empty().is_allocated(0x1000, layout(16, 8)));
}

#[test]
fn double_free_is_detected() {
    let mut heap = fresh_heap();
    assert_eq!(heap.allocate(layout(64, 8)), Ok(0x1000));
    assert_eq!(heap.allocate(layout(64, 8)), Ok(0x1040));
    assert!(heap.try_dealloc(0x1000, layout(64, 8)));
    assert_eq!(heap.first_hole(), Some((0x1000, 64)));
    assert!(!heap.try_dealloc(0x1000, layout(64, 8)));
    assert_eq!(heap.first_hole(), Some((0x1000, 64)));
    assert!(heap.try_dealloc(0x1040, layout(64, 8)));
    assert!(!heap.try_dealloc(0x1040, layout(64, 8)));
    assert_eq!(heap.first_hole(), Some((0x1000, 0x1000)));
}

#[test]
fn try_dealloc_refuses_what_was_never_allocated() {
    let mut heap = fresh_heap();
    assert!(!heap.try_dealloc(0x1000, layout(16, 8)));
    assert!(!heap.try_dealloc(0x0800, layout(16, 8)));
    assert!(!heap.try_dealloc(0x2000, layout(16, 8)));
    assert!(!heap.try_dealloc(0, layout(16, 8)));
    assert_eq!(heap.first_hole(), Some((0x1000, 0x1000)));
}

#[test]
fn allocations_lie_within_the_heap_and_are_aligned() {
    let mut heap = fresh_heap();
    let mut align: usize = 1;
    while align <= 256 {
        let request = layout(24, align);
        let addr = heap.allocate(request).unwrap();
        assert_eq!(addr % align, 0);
        assert!(addr >= heap.bottom());
        assert!(addr + 24 <= heap.top());
        assert!(heap.is_allocated(addr, request));
        align *= 2;
    }
}

#[test]
fn freeing_everything_restores_the_single_hole() {
    let mut heap = fresh_heap();
    let requests = [
        layout(16, 8),
        layout(100, 4),
        layout(1, 1),
        layout(64, 64),
        layout(200, 128),
        layout(48, 16),
        layout(512, 256),
        layout(17, 1),
    ];
    let mut blocks = Vec::new();
    for request in requests {
        blocks.push((heap.allocate(request).unwrap(), request));
    }
    // free in an order that is neither that of allocation nor its reverse
    for index in [3, 0, 6, 1, 7, 2, 5, 4] {
        let (addr, request) = blocks[index];
        heap.dealloc(addr, request);
    }
    assert_eq!(heap.first_hole(), Some((0x1000, 0x1000)));
}
