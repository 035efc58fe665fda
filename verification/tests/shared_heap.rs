use os_rust::heap_allocator::GlobalHeapAllocator;
use os_rust::layout::Layout;

fn layout(size: usize, align: usize) -> Layout {
    Layout { size, align }
}

#[test]
fn shared_empty_heap_returns_null() {
    let heap = GlobalHeapAllocator::empty();
    assert_eq!(heap.allocate(layout(16, 8)), 0);
    assert_eq!(heap.allocate(layout(1, 1)), 0);
    assert_eq!(heap.first_hole(), None);
    assert_eq!(heap.bottom(), 0);
}

#[test]
fn shared_heap_is_created_with_its_region() {
    let heap = GlobalHeapAllocator::new(0x1000, 0x1000);
    assert_eq!(heap.bottom(), 0x1000);
    assert_eq!(heap.first_hole(), Some((0x1000, 0x1000)));
}

#[test]
fn shared_heap_is_initialized_once() {
    let heap = GlobalHeapAllocator::empty();
    assert!(heap.init(0x1000, 0x1000));
    assert_eq!(heap.bottom(), 0x1000);
    assert_eq!(heap.first_hole(), Some((0x1000, 0x1000)));
    assert!(!heap.init(0x8000, 0x1000));
    assert_eq!(heap.bottom(), 0x1000);
    assert_eq!(heap.first_hole(), Some((0x1000, 0x1000)));
    let made = GlobalHeapAllocator::new(0x1000, 0x1000);
    assert!(!made.init(0x8000, 0x1000));
    assert_eq!(made.bottom(), 0x1000);
}

#[test]
fn shared_heap_keeps_its_state_between_calls() {
    let heap = GlobalHeapAllocator::new(0x1000, 0x1000);
    assert_eq!(heap.allocate(layout(16, 8)), 0x1000);
    assert_eq!(heap.first_hole(), Some((0x1010, 0xff0)));
    assert_eq!(heap.allocate(layout(16, 256)), 0x1100);
    assert_eq!(heap.first_hole(), Some((0x1010, 0xf0)));
    assert!(heap.dealloc(0x1100, layout(16, 256)));
    assert!(heap.dealloc(0x1000, layout(16, 8)));
    assert_eq!(heap.first_hole(), Some((0x1000, 0x1000)));
}

#[test]
fn shared_heap_returns_null_when_out_of_memory() {
    let heap = GlobalHeapAllocator::new(0x1000, 0x1000);
    assert_eq!(heap.allocate(layout(4000, 8)), 0x1000);
    assert_eq!(heap.allocate(layout(104, 8)), 0);
    assert_eq!(heap.first_hole(), Some((0x1fa0, 96)));
    assert_eq!(heap.allocate(layout(96, 8)), 0x1fa0);
    assert_eq!(heap.allocate(layout(1, 1)), 0);
}

#[test]
fn shared_heap_refuses_a_second_free() {
    let heap = GlobalHeapAllocator::new(0x1000, 0x1000);
    assert_eq!(heap.allocate(layout(64, 8)), 0x1000);
    assert!(heap.dealloc(0x1000, layout(64, 8)));
    assert!(!heap.dealloc(0x1000, layout(64, 8)));
    assert!(!heap.dealloc(0, layout(64, 8)));
    assert!(!heap.dealloc(0x4000, layout(64, 8)));
    assert_eq!(heap.first_hole(), Some((0x1000, 0x1000)));
}

#[test]
fn shared_heap_never_frees_null_or_what_runs_past_the_address_space() {
    let heap = GlobalHeapAllocator::new(0x1000, 0x1000);
    assert_eq!(heap.allocate(layout(0x1000, 8)), 0x1000);
    assert!(!heap.dealloc(0, layout(16, 8)));
    assert!(!heap.dealloc(usize::MAX - 7, layout(16, 8)));
    assert!(!heap.dealloc(0x1000, layout(usize::MAX, 8)));
    assert_eq!(heap.first_hole(), None);
    assert!(heap.dealloc(0x1000, layout(0x1000, 8)));
    assert_eq!(heap.first_hole(), Some((0x1000, 0x1000)));
}
