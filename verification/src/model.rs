//! The holes of a heap as a sequence of regions: what makes such a sequence
//! well-formed, and what allocating from it and freeing into it make of it.

use crate::align::{is_aligned, spec_align_up};
use crate::hole::{AllocInfo, HoleInfo};
use crate::layout::Layout;
use vstd::prelude::*;

verus! {

/// The size of a hole header, two machine words: no hole and no allocation is smaller.
pub open spec fn min_block() -> nat {
    2 * vstd::layout::size_of::<usize>()
}

/// A header is 8 bytes on a 32-bit machine and 16 on a 64-bit one.
pub proof fn lemma_min_block_values()
    ensures
        min_block() == 8 || min_block() == 16,
        min_block() * 8 == 2 * usize::BITS,
{
    broadcast use vstd::layout::layout_of_primitives;

}

/// Where an allocation with alignment `align` starts inside `hole`: at the hole's own
/// address if that is aligned, else at the first aligned address that leaves room
/// for a whole hole in front.
pub open spec fn aligned_start(hole: HoleInfo, align: int) -> int {
    if is_aligned(hole.addr as int, align) {
        hole.addr as int
    } else {
        spec_align_up(hole.addr + min_block(), align)
    }
}

/// The split of `hole` for `layout`, or `None` when the hole is too small or would
/// leave a tail too small to be a hole.
pub open spec fn spec_split_hole(hole: HoleInfo, layout: Layout) -> Option<AllocInfo> {
    let start = aligned_start(hole, layout.align as int);
    let tail = hole.end() - (start + layout.size);
    if tail < 0 || 0 < tail < min_block() {
        None
    } else {
        Some(
            AllocInfo {
                allocated_info: HoleInfo { addr: start as usize, size: layout.size },
                front_hole_info: if start == hole.addr {
                    None
                } else {
                    Some(HoleInfo { addr: hole.addr, size: (start - hole.addr) as usize })
                },
                back_hole_info: if tail == 0 {
                    None
                } else {
                    Some(HoleInfo { addr: (start + layout.size) as usize, size: tail as usize })
                },
            },
        )
    }
}

/// Front padding, allocation and back padding tile the hole, and each padding is
/// large enough to be a hole.
pub open spec fn tiles(hole: HoleInfo, split: AllocInfo) -> bool {
    let allocated = split.allocated_info;
    &&& hole.addr <= allocated.addr
    &&& allocated.end() <= hole.end()
    &&& match split.front_hole_info {
        Some(front) => front.addr == hole.addr && front.end() == allocated.addr && front.size
            >= min_block(),
        None => allocated.addr == hole.addr,
    }
    &&& match split.back_hole_info {
        Some(back) => back.addr == allocated.end() && back.end() == hole.end() && back.size
            >= min_block(),
        None => allocated.end() == hole.end(),
    }
}

/// The index of the first hole in `holes` that can be split for `layout`.
pub open spec fn first_fit(holes: Seq<HoleInfo>, layout: Layout) -> Option<int>
    decreases holes.len(),
{
    if holes.len() == 0 {
        None
    } else if spec_split_hole(holes[0], layout) is Some {
        Some(0)
    } else {
        match first_fit(holes.skip(1), layout) {
            Some(i) => Some(i + 1),
            None => None,
        }
    }
}

/// The holes that a split leaves of the hole it was cut from, in address order.
pub open spec fn paddings(split: AllocInfo) -> Seq<HoleInfo> {
    (match split.front_hole_info {
        Some(front) => seq![front],
        None => Seq::empty(),
    }) + (match split.back_hole_info {
        Some(back) => seq![back],
        None => Seq::empty(),
    })
}

/// The holes after hole `i` has been carved up by `split`: the paddings stand where
/// the hole stood.
pub open spec fn carved(holes: Seq<HoleInfo>, i: int, split: AllocInfo) -> Seq<HoleInfo> {
    holes.subrange(0, i) + paddings(split) + holes.subrange(i + 1, holes.len() as int)
}

/// Every hole ends within the address space.
pub open spec fn holes_bounded(holes: Seq<HoleInfo>) -> bool {
    forall|i: int| 0 <= i < holes.len() ==> (#[trigger] holes[i]).end() <= usize::MAX
}

/// Consecutive holes lie in ascending order with a gap between them.
pub open spec fn holes_ordered(holes: Seq<HoleInfo>) -> bool {
    forall|i: int, j: int|
        0 <= i < j < holes.len() ==> (#[trigger] holes[i]).end() < (#[trigger] holes[j]).addr
}

/// The invariant of a hole list: ascending holes with gaps between them, none at
/// address zero, each large enough to hold a header and ending within the address space.
pub open spec fn holes_wf(holes: Seq<HoleInfo>) -> bool {
    &&& holes_ordered(holes)
    &&& holes_bounded(holes)
    &&& forall|i: int|
        0 <= i < holes.len() ==> (#[trigger] holes[i]).addr > 0 && holes[i].size >= min_block()
}

/// Every hole lies within `[bottom, top)`.
pub open spec fn holes_within(holes: Seq<HoleInfo>, bottom: int, top: int) -> bool {
    forall|i: int|
        0 <= i < holes.len() ==> bottom <= (#[trigger] holes[i]).addr && holes[i].end() <= top
}

/// No byte of `block` lies in any of the holes.
pub open spec fn block_apart(holes: Seq<HoleInfo>, block: HoleInfo) -> bool {
    forall|i: int|
        0 <= i < holes.len() ==> (#[trigger] holes[i]).end() <= block.addr || block.end()
            <= holes[i].addr
}

/// A region that may be freed into `holes`: a block of at least the minimal size, not
/// at address zero, within the address space and apart from every hole.
pub open spec fn can_free(holes: Seq<HoleInfo>, block: HoleInfo) -> bool {
    &&& block.addr > 0
    &&& block.size >= min_block()
    &&& block.end() <= usize::MAX
    &&& block_apart(holes, block)
}

/// How many holes, counted from the front of `holes`, start at or below `addr`.
pub open spec fn holes_before(holes: Seq<HoleInfo>, addr: int) -> nat
    decreases holes.len(),
{
    if holes.len() == 0 || holes[0].addr > addr {
        0
    } else {
        1 + holes_before(holes.skip(1), addr)
    }
}

/// The holes after `block` has been freed into `holes`: the block takes its place in
/// address order, joined with the hole that ends where it starts and with the hole
/// that starts where it ends, if there are such.
pub open spec fn freed(holes: Seq<HoleInfo>, block: HoleInfo) -> Seq<HoleInfo> {
    let p = holes_before(holes, block.addr as int) as int;
    let joins_prev = p > 0 && holes[p - 1].end() == block.addr;
    let joins_next = p < holes.len() && block.end() == holes[p].addr;
    let merged = HoleInfo {
        addr: if joins_prev {
            holes[p - 1].addr
        } else {
            block.addr
        },
        size: (block.size + (if joins_prev {
            holes[p - 1].size as int
        } else {
            0
        }) + (if joins_next {
            holes[p].size as int
        } else {
            0
        })) as usize,
    };
    holes.subrange(0, if joins_prev { p - 1 } else { p }).push(merged) + holes.subrange(
        if joins_next { p + 1 } else { p },
        holes.len() as int,
    )
}

/// The bytes that the holes hold, all told.
pub open spec fn total_size(holes: Seq<HoleInfo>) -> nat
    decreases holes.len(),
{
    if holes.len() == 0 {
        0
    } else {
        holes[0].size as nat + total_size(holes.skip(1))
    }
}

/// Whether the byte at address `a` lies in one of the holes.
pub open spec fn is_free(holes: Seq<HoleInfo>, a: int) -> bool {
    exists|i: int| 0 <= i < holes.len() && (#[trigger] holes[i]).contains(a)
}

} // verus!
