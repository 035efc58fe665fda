use os_rust::hole::{split_hole, AllocInfo, HoleInfo, HoleList};
use os_rust::layout::Layout;

fn hole(addr: usize, size: usize) -> HoleInfo {
    HoleInfo { addr, size }
}

fn layout(size: usize, align: usize) -> Layout {
    Layout { size, align }
}

#[test]
fn min_size_is_two_words() {
    assert_eq!(HoleList::min_size(), 2 * core::mem::size_of::<usize>());
    assert_eq!(HoleList::min_size(), 16);
}

#[test]
fn split_at_the_front_leaves_back_padding() {
    assert_eq!(
        split_hole(hole(0x1000, 0x1000), layout(16, 8)),
        Some(AllocInfo {
            allocated_info: hole(0x1000, 16),
            front_hole_info: None,
            back_hole_info: Some(hole(0x1010, 0xff0)),
        })
    );
}

#[test]
fn split_of_an_exact_fit_leaves_nothing() {
    assert_eq!(
        split_hole(hole(0x1000, 0x1000), layout(0x1000, 8)),
        Some(AllocInfo {
            allocated_info: hole(0x1000, 0x1000),
            front_hole_info: None,
            back_hole_info: None,
        })
    );
}

#[test]
fn split_fails_when_the_hole_is_too_small() {
    assert_eq!(split_hole(hole(0x1000, 0x1000), layout(0x1001, 8)), None);
    assert_eq!(split_hole(hole(0x1000, 16), layout(32, 8)), None);
    assert_eq!(split_hole(hole(0x1000, 0), layout(16, 8)), None);
}

#[test]
fn split_fails_when_the_tail_could_not_be_a_hole() {
    assert_eq!(split_hole(hole(0x1000, 0x1000), layout(0x1000 - 8, 8)), None);
    assert_eq!(split_hole(hole(0x1000, 0x1000), layout(0x1000 - 1, 1)), None);
    assert_eq!(split_hole(hole(0x1000, 0x1000), layout(0x1000 - 15, 1)), None);
}

#[test]
fn split_keeps_a_tail_of_the_minimal_size() {
    assert_eq!(
        split_hole(hole(0x1000, 0x1000), layout(0x1000 - 16, 8)),
        Some(AllocInfo {
            allocated_info: hole(0x1000, 0xff0),
            front_hole_info: None,
            back_hole_info: Some(hole(0x1ff0, 16)),
        })
    );
}

#[test]
fn split_of_a_misaligned_hole_leaves_front_padding() {
    assert_eq!(
        split_hole(hole(0x1010, 0xff0), layout(16, 256)),
        Some(AllocInfo {
            allocated_info: hole(0x1100, 16),
            front_hole_info: Some(hole(0x1010, 0xf0)),
            back_hole_info: Some(hole(0x1110, 0xef0)),
        })
    );
}

#[test]
fn split_front_padding_is_never_smaller_than_a_hole() {
    // 0x1008 is 8 bytes short of the next multiple of 16, which is too close
    assert_eq!(
        split_hole(hole(0x1008, 0x38), layout(16, 16)),
        Some(AllocInfo {
            allocated_info: hole(0x1020, 16),
            front_hole_info: Some(hole(0x1008, 0x18)),
            back_hole_info: Some(hole(0x1030, 16)),
        })
    );
}

#[test]
fn split_of_a_misaligned_hole_without_back_padding() {
    assert_eq!(
        split_hole(hole(0x1008, 0x28), layout(16, 16)),
        Some(AllocInfo {
            allocated_info: hole(0x1020, 16),
            front_hole_info: Some(hole(0x1008, 0x18)),
            back_hole_info: None,
        })
    );
}

#[test]
fn split_fails_when_alignment_pushes_the_allocation_out() {
    assert_eq!(split_hole(hole(0x1008, 0x20), layout(16, 16)), None);
    assert_eq!(split_hole(hole(0x1008, 0x27), layout(16, 16)), None);
    assert_eq!(split_hole(hole(0x1010, 0xf0), layout(16, 256)), None);
    // a misaligned hole that cannot even hold its front padding
    assert_eq!(split_hole(hole(0x1008, 8), layout(0, 16)), None);
}

#[test]
fn split_fails_when_the_aligned_address_does_not_exist() {
    let addr = usize::MAX - 0x2f;
    assert_eq!(split_hole(hole(addr, 0x20), layout(16, 0x1000)), None);
    assert_eq!(split_hole(hole(usize::MAX - 0x17, 0x17), layout(0, 16)), None);
}

#[test]
fn split_at_the_top_of_the_address_space() {
    let addr = usize::MAX - 0x3f;
    assert_eq!(
        split_hole(hole(addr, 0x3f), layout(0x2f, 64)),
        Some(AllocInfo {
            allocated_info: hole(addr, 0x2f),
            front_hole_info: None,
            back_hole_info: Some(hole(addr + 0x2f, 16)),
        })
    );
}

#[test]
fn split_tiles_the_hole() {
    let mut align: usize = 1;
    while align <= 64 {
        for addr in 0x1000..0x1040usize {
            for size in 0..0x60usize {
                let whole = hole(addr, 0x80);
                if let Some(split) = split_hole(whole, layout(size, align)) {
                    let allocated = split.allocated_info;
                    assert_eq!(allocated.addr % align, 0);
                    assert_eq!(allocated.size, size);
                    let mut at = whole.addr;
                    if let Some(front) = split.front_hole_info {
                        assert_eq!(front.addr, at);
                        assert!(front.size >= 16);
                        at += front.size;
                    }
                    assert_eq!(allocated.addr, at);
                    at += allocated.size;
                    if let Some(back) = split.back_hole_info {
                        assert_eq!(back.addr, at);
                        assert!(back.size >= 16);
                        at += back.size;
                    }
                    assert_eq!(at, whole.addr + whole.size);
                }
            }
        }
        align *= 2;
    }
}

#[test]
fn layout_takes_a_power_of_two_alignment() {
    assert_eq!(Layout::from_size_align(16, 8), Some(layout(16, 8)));
    assert_eq!(Layout::from_size_align(0, 1), Some(layout(0, 1)));
    assert_eq!(
        Layout::from_size_align(usize::MAX, 4096),
        Some(layout(usize::MAX, 4096))
    );
}

#[test]
fn layout_refuses_other_alignments() {
    assert_eq!(Layout::from_size_align(16, 0), None);
    assert_eq!(Layout::from_size_align(16, 3), None);
    assert_eq!(Layout::from_size_align(16, 24), None);
    assert_eq!(Layout::from_size_align(16, usize::MAX), None);
}
