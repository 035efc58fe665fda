//! The list of free holes: first-fit search with splitting, and freeing with
//! coalescing of neighbours.

pub use crate::align::{align_down, align_up};
use crate::align::{
    checked_align_up, is_aligned, lemma_align_down_is_greatest_multiple,
    lemma_align_up_is_least_multiple, lemma_pow2_is_positive,
};
use crate::hole_laws::{
    lemma_carved_apart, lemma_carved_by_freeing, lemma_carved_total_size, lemma_first_fit_is,
    lemma_first_fit_is_lowest, lemma_first_fit_none, lemma_freed_behind_front,
    lemma_freed_behind_head, lemma_freed_once, lemma_freed_step, lemma_freed_total_size,
    lemma_freed_wf, lemma_push_concat, lemma_split_hole_tiles,
};
use crate::layout::{AllocErr, Layout};
use crate::model::{
    block_apart, can_free, carved, first_fit, freed, holes_bounded, holes_ordered, holes_wf,
    lemma_min_block_values, min_block, spec_split_hole, total_size,
};
use vstd::prelude::*;

verus! {

/// The address and size of a region of memory.
#[derive(Clone, Copy, Debug, PartialEq, Eq)]
pub struct HoleInfo {
    pub addr: usize,
    pub size: usize,
}

impl HoleInfo {
    /// The first address past the region.
    pub open spec fn end(self) -> int {
        self.addr + self.size
    }

    /// Whether the byte at address `a` lies in the region.
    pub open spec fn contains(self, a: int) -> bool {
        self.addr <= a < self.end()
    }
}

/// How one hole is carved up for an allocation: the allocated region, and what is
/// left of the hole in front of it and behind it.
#[derive(Clone, Copy, Debug, PartialEq, Eq)]
pub struct AllocInfo {
    pub allocated_info: HoleInfo,
    pub front_hole_info: Option<HoleInfo>,
    pub back_hole_info: Option<HoleInfo>,
}

/// Splits `hole` into front padding, the allocation for `layout`, and back padding.
pub fn split_hole(hole: HoleInfo, layout: Layout) -> (split: Option<AllocInfo>)
    requires
        layout.valid(),
        hole.end() <= usize::MAX,
    ensures
        split == spec_split_hole(hole, layout),
{
    let min: usize = HoleList::min_size();
    proof {
        lemma_min_block_values();
        lemma_pow2_is_positive(layout.align as int);
        lemma_align_up_is_least_multiple(hole.addr as int, layout.align as int);
        lemma_align_up_is_least_multiple(hole.addr + min_block(), layout.align as int);
        lemma_align_down_is_greatest_multiple(hole.addr as int, layout.align as int);
    }
    if layout.size > hole.size {
        return None;
    }
    let mut aligned_addr: usize = hole.addr;
    let mut front_hole: Option<HoleInfo> = None;
    if align_down(hole.addr, layout.align) != hole.addr {
        // the required alignment causes some padding before the allocation
        if hole.size < min {
            return None;
        }
        match checked_align_up(hole.addr + min, layout.align) {
            Some(a) => {
                aligned_addr = a;
            },
            None => {
                return None;
            },
        }
        front_hole = Some(HoleInfo { addr: hole.addr, size: aligned_addr - hole.addr });
    }
    if aligned_addr - hole.addr > hole.size - layout.size {
        // hole is too small after alignment
        return None;
    }
    let tail: usize = hole.size - (aligned_addr - hole.addr) - layout.size;
    let mut back_hole: Option<HoleInfo> = None;
    if tail != 0 {
        if tail < min {
            // what is left behind the allocation could not hold a header
            return None;
        }
        back_hole = Some(HoleInfo { addr: aligned_addr + layout.size, size: tail });
    }
    Some(
        AllocInfo {
            allocated_info: HoleInfo { addr: aligned_addr, size: layout.size },
            front_hole_info: front_hole,
            back_hole_info: back_hole,
        },
    )
}

/// A free region in the list: its place in memory, and the hole that follows it.
///
/// The head of a list is a hole of size zero at address zero that stands for no memory.
pub struct Hole {
    addr: usize,
    size: usize,
    next: Option<Box<Hole>>,
}

impl Hole {
    /// The region this hole covers.
    pub closed spec fn spec_info(&self) -> HoleInfo {
        HoleInfo { addr: self.addr, size: self.size }
    }

    /// The regions of the holes linked behind this one, in list order.
    spec fn following(&self) -> Seq<HoleInfo>
        decreases self,
    {
        match self.next {
            None => Seq::empty(),
            Some(next) => seq![next.spec_info()] + next.following(),
        }
    }

    /// This hole's region followed by those of the holes behind it.
    spec fn chain(&self) -> Seq<HoleInfo> {
        seq![self.spec_info()] + self.following()
    }

    /// Returns basic information about the hole.
    #[verifier::when_used_as_spec(spec_info)]
    pub fn info(&self) -> (info: HoleInfo)
        ensures
            info == self.spec_info(),
    {
        HoleInfo { addr: self.addr, size: self.size }
    }
}

/// A chain is the hole itself and then the holes behind it.
proof fn lemma_chain_parts(hole: Hole)
    ensures
        hole.chain()[0] == hole.spec_info(),
        hole.chain().skip(1) == hole.following(),
{
}

/// Searches the holes behind `previous` for the first that fits `layout`, and unlinks it.
fn allocate_first_fit(mut previous: &mut Hole, layout: Layout) -> (found: Result<
    AllocInfo,
    AllocErr,
>)
    requires
        layout.valid(),
        holes_bounded(old(previous).following()),
    ensures
        final(old(previous)).spec_info() == old(previous).spec_info(),
        match first_fit(old(previous).following(), layout) {
            Some(i) => {
                &&& 0 <= i < old(previous).following().len()
                &&& found == Ok::<AllocInfo, AllocErr>(
                    spec_split_hole(old(previous).following()[i], layout).unwrap(),
                )
                &&& final(old(previous)).following() == old(previous).following().remove(i)
            },
            None => {
                &&& found is Err
                &&& final(old(previous)).following() == old(previous).following()
            },
        },
{
    let ghost holes = previous.following();
    let ghost all = previous.chain();
    // the holes that the search has left behind, the head of the list first
    let ghost mut walked: Seq<HoleInfo> = Seq::empty();
    assert(walked + previous.chain() == previous.chain());
    assert(walked + final(previous).chain() == final(previous).chain());
    loop
        invariant
            layout.valid(),
            holes_bounded(holes),
            holes == old(previous).following(),
            all == seq![old(previous).spec_info()] + holes,
            all == walked + previous.chain(),
            final(old(previous)).chain() == walked + final(previous).chain(),
            walked.len() <= holes.len(),
            forall|j: int|
                0 <= j < walked.len() ==> spec_split_hole(#[trigger] holes[j], layout) is None,
        decreases previous.following().len(),
    {
        let ghost here = *previous;
        let ghost w = walked.len() as int;
        assert(all.len() == w + 1 + here.following().len());
        assert(all.len() == 1 + holes.len());
        let split: Option<AllocInfo> = match &previous.next {
            Some(current) => {
                proof {
                    assert(here.following() == seq![current.spec_info()] + current.following());
                    assert(here.chain()[1] == current.spec_info());
                    assert(all[w + 1] == current.spec_info());
                    assert(holes[w] == current.spec_info());
                }
                split_hole(current.info(), layout)
            },
            None => None,
        };
        match split {
            Some(alloc_info) => {
                // the hole is big enough: unlink it
                let mut current = previous.next.take().unwrap();
                let ghost rest = current.following();
                previous.next = current.next.take();
                proof {
                    assert(here.following() == seq![current.spec_info()] + rest);
                    assert(previous.following() == rest);
                    assert(previous.spec_info() == here.spec_info());
                    lemma_first_fit_is(holes, layout, w);
                    let after = walked + previous.chain();
                    assert(final(old(previous)).chain() == after);
                    assert(after.len() == all.len() - 1);
                    assert forall|k: int| 0 <= k < after.len() implies after[k] == all[if k <= w {
                        k
                    } else {
                        k + 1
                    }] by {
                        if k < w {
                        } else if k == w {
                            assert(previous.chain()[0] == here.chain()[0]);
                        } else {
                            assert(previous.chain()[k - w] == rest[k - w - 1]);
                            assert(here.chain()[k - w + 1] == rest[k - w - 1]);
                        }
                    }
                    assert(after[0] == all[0]);
                    assert(after.skip(1) =~= holes.remove(w));
                    lemma_chain_parts(*final(old(previous)));
                }
                return Ok(alloc_info);
            },
            None => {
                if previous.next.is_some() {
                    // try the next hole
                    let ghost fin = *final(previous);
                    previous = &mut **previous.next.as_mut().unwrap();
                    proof {
                        assert(here.chain() == seq![here.spec_info()] + previous.chain());
                        assert(fin.spec_info() == here.spec_info());
                        assert(*fin.next.unwrap() == *final(previous));
                        assert(fin.following() == seq![final(previous).spec_info()] + final(
                            previous
                        ).following());
                        assert(fin.chain() == seq![here.spec_info()] + final(previous).chain());
                        walked = walked.push(here.spec_info());
                    }
                } else {
                    // this was the last hole, so no hole is big enough
                    proof {
                        assert(here.following().len() == 0);
                        assert(walked.len() == holes.len());
                        lemma_first_fit_none(holes, layout);
                        let after = walked + previous.chain();
                        assert(final(old(previous)).chain() == after);
                        assert(after == all);
                        assert(all[0] == old(previous).spec_info());
                        assert(all.skip(1) == holes);
                        lemma_chain_parts(*final(old(previous)));
                    }
                    return Err(AllocErr);
                }
            },
        }
    }
}

/// Frees the block `[addr, addr + size)` into the list that starts at `hole`, walking
/// on until the hole in front of the block is reached.
fn deallocate(mut hole: &mut Hole, addr: usize, size: usize)
    requires
        holes_ordered(old(hole).chain()),
        holes_bounded(old(hole).chain()),
        size >= min_block(),
        addr + size <= usize::MAX,
        old(hole).spec_info().end() <= addr,
        block_apart(old(hole).following(), HoleInfo { addr, size }),
    ensures
        final(old(hole)).chain() == freed(old(hole).chain(), HoleInfo { addr, size }),
{
    // the size of the block, which grows where the block takes in the hole behind it
    let mut block_size: usize = size;
    let ghost freed_all = freed(hole.chain(), HoleInfo { addr, size });
    // the holes that the walk has left behind
    let ghost mut walked: Seq<HoleInfo> = Seq::empty();
    assert(walked + hole.chain() == hole.chain());
    assert(walked + final(hole).chain() == final(hole).chain());
    loop
        invariant
            holes_ordered(hole.chain()),
            holes_bounded(hole.chain()),
            block_size >= min_block(),
            addr + block_size <= usize::MAX,
            hole.spec_info().end() <= addr,
            block_apart(hole.following(), HoleInfo { addr, size: block_size }),
            freed_all == freed(old(hole).chain(), HoleInfo { addr, size }),
            freed_all == walked + freed(hole.chain(), HoleInfo { addr, size: block_size }),
            final(old(hole)).chain() == walked + final(hole).chain(),
        decreases hole.following().len(),
    {
        let ghost block = HoleInfo { addr, size: block_size };
        let ghost here = *hole;
        let ghost all = hole.chain();
        proof {
            lemma_chain_parts(here);
        }
        let hole_end: usize = hole.addr + hole.size;
        // Each freed block is handled by the hole before it in memory, so the freed
        // address always lies behind the current hole. A block that started in front
        // of the hole's end would be an invalid deallocation, most likely a double
        // free: what this function requires rules that out.
        assert(hole_end <= addr);
        let next_hole_info: Option<HoleInfo> = match &hole.next {
            Some(next) => Some(next.info()),
            None => None,
        };
        match next_hole_info {
            Some(next) => {
                let ghost behind = here.next.unwrap().following();
                proof {
                    assert(here.following() == seq![next] + behind);
                    assert(all[1] == next);
                    assert(all.skip(2) == behind);
                    lemma_freed_step(all, block);
                }
                if hole_end == addr && addr + block_size == next.addr {
                    // the block fills the gap between two holes: merge all three
                    let mut second = hole.next.take().unwrap();
                    hole.size = hole.size + block_size + next.size;
                    hole.next = second.next.take();
                    return;
                } else if hole_end == addr {
                    // the block starts where this hole ends
                    hole.size = hole.size + block_size;
                    return;
                } else if addr + block_size == next.addr {
                    // the block ends where the next hole starts: take that hole out
                    // and free both as one block
                    let mut second = hole.next.take().unwrap();
                    hole.next = second.next.take();
                    block_size = block_size + next.size;
                    proof {
                        assert(hole.following() == behind);
                        assert(hole.chain() == seq![all[0]] + all.skip(2));
                        lemma_chain_parts(*hole);
                    }
                } else if next.addr <= addr {
                    // the block lies behind the next hole
                    let ghost fin = *final(hole);
                    hole = &mut **hole.next.as_mut().unwrap();
                    proof {
                        assert(hole.chain() == all.skip(1));
                        lemma_chain_parts(*hole);
                        assert(fin.spec_info() == all[0]);
                        assert(*fin.next.unwrap() == *final(hole));
                        assert(fin.following() == seq![final(hole).spec_info()] + final(
                            hole
                        ).following());
                        assert(fin.chain() == seq![all[0]] + final(hole).chain());
                        lemma_push_concat(walked, all[0], freed(all.skip(1), block));
                        lemma_push_concat(walked, all[0], final(hole).chain());
                        walked = walked.push(all[0]);
                    }
                } else {
                    // the block lies between the two holes and touches neither
                    let second = hole.next.take();
                    let fresh = Box::new(Hole { addr, size: block_size, next: second });
                    assert(fresh.following() == all.skip(1));
                    hole.next = Some(fresh);
                    return;
                }
            },
            None => {
                proof {
                    assert(here.following().len() == 0);
                    lemma_freed_behind_front(all, block);
                }
                if hole_end == addr {
                    hole.size = hole.size + block_size;
                } else {
                    let fresh = Box::new(Hole { addr, size: block_size, next: None });
                    assert(fresh.following() == all.skip(1));
                    hole.next = Some(fresh);
                }
                return;
            },
        }
    }
}

/// Whether no hole behind `hole` holds a byte of the block `[addr, addr + size)`.
fn apart_behind(hole: &Hole, addr: usize, size: usize) -> (apart: bool)
    requires
        addr + size <= usize::MAX,
        holes_bounded(hole.following()),
    ensures
        apart == block_apart(hole.following(), HoleInfo { addr, size }),
{
    let ghost block = HoleInfo { addr, size };
    let ghost holes = hole.following();
    let mut current: &Hole = hole;
    // how many holes have been found to lie apart from the block
    let ghost mut passed: int = 0;
    assert(holes.skip(0) == holes);
    loop
        invariant
            addr + size <= usize::MAX,
            block == (HoleInfo { addr, size }),
            holes == hole.following(),
            holes_bounded(holes),
            0 <= passed <= holes.len(),
            current.following() == holes.skip(passed),
            forall|i: int|
                0 <= i < passed ==> (#[trigger] holes[i]).end() <= block.addr || block.end()
                    <= holes[i].addr,
        decreases holes.len() - passed,
    {
        match &current.next {
            None => {
                assert(holes.skip(passed).len() == 0);
                return true;
            },
            Some(next) => {
                assert(current.following() == seq![next.spec_info()] + next.following());
                assert(holes.skip(passed)[0] == next.spec_info());
                assert(holes[passed] == next.spec_info());
                if next.addr + next.size <= addr || addr + size <= next.addr {
                    assert(next.following() == holes.skip(passed).skip(1));
                    assert(holes.skip(passed).skip(1) == holes.skip(passed + 1));
                    current = next;
                    proof {
                        passed = passed + 1;
                    }
                } else {
                    return false;
                }
            },
        }
    }
}

/// The address-ordered list of the free holes of one region of memory.
pub struct HoleList {
    head: Hole,
}

impl View for HoleList {
    type V = Seq<HoleInfo>;

    /// The regions of the holes, in list order.
    closed spec fn view(&self) -> Seq<HoleInfo> {
        self.head.following()
    }
}

impl HoleList {
    /// The head of the list is the hole of size zero that stands for no memory.
    pub closed spec fn head_is_sentinel(&self) -> bool {
        self.head.spec_info() == HoleInfo { addr: 0, size: 0 }
    }

    /// The list's invariant.
    pub open spec fn wf(&self) -> bool {
        &&& self.head_is_sentinel()
        &&& holes_wf(self@)
    }

    /// Creates an empty `HoleList`.
    pub fn empty() -> (list: HoleList)
        ensures
            list.wf(),
            list@ == Seq::<HoleInfo>::empty(),
    {
        HoleList { head: Hole { addr: 0, size: 0, next: None } }
    }

    /// Creates a list with the one hole `[hole_addr, hole_addr + hole_size)`.
    pub fn new(hole_addr: usize, hole_size: usize) -> (list: HoleList)
        requires
            hole_addr > 0,
            hole_addr as int % vstd::layout::size_of::<usize>() as int == 0,
            hole_size >= min_block(),
            hole_addr + hole_size <= usize::MAX,
        ensures
            list.wf(),
            list@ == seq![HoleInfo { addr: hole_addr, size: hole_size }],
    {
        let first = Box::new(Hole { addr: hole_addr, size: hole_size, next: None });
        assert(first.following() == Seq::<HoleInfo>::empty());
        HoleList { head: Hole { addr: 0, size: 0, next: Some(first) } }
    }

    /// Frees `block` behind the head of the list.
    fn free_region(&mut self, block: HoleInfo)
        requires
            old(self).wf(),
            can_free(old(self)@, block),
        ensures
            final(self).wf(),
            final(self)@ == freed(old(self)@, block),
    {
        proof {
            lemma_freed_behind_head(self@, block);
            lemma_freed_wf(self@, block);
        }
        let ghost before = self.head.chain();
        deallocate(&mut self.head, block.addr, block.size);
        assert(self.head.chain()[0] == before[0]);
        assert(self.head.chain().skip(1) == self@);
        assert((seq![HoleInfo { addr: 0, size: 0 }] + freed(old(self)@, block)).skip(1) == freed(
            old(self)@,
            block,
        ));
    }

    /// Allocates `layout` from the first hole that fits it; what is left of that hole
    /// in front of and behind the allocation stays in the list.
    pub fn allocate(&mut self, layout: Layout) -> (allocated: Result<usize, AllocErr>)
        requires
            old(self).wf(),
            layout.valid(),
            layout.size >= min_block(),
        ensures
            final(self).wf(),
            match first_fit(old(self)@, layout) {
                Some(i) => {
                    let split = spec_split_hole(old(self)@[i], layout).unwrap();
                    &&& 0 <= i < old(self)@.len()
                    &&& allocated == Ok::<usize, AllocErr>(split.allocated_info.addr)
                    &&& final(self)@ == carved(old(self)@, i, split)
                },
                None => {
                    &&& allocated is Err
                    &&& final(self)@ == old(self)@
                },
            },
            match allocated {
                Ok(addr) => {
                    &&& is_aligned(addr as int, layout.align as int)
                    &&& can_free(final(self)@, HoleInfo { addr, size: layout.size })
                    &&& total_size(final(self)@) + layout.size == total_size(old(self)@)
                },
                Err(_) => true,
            },
    {
        match allocate_first_fit(&mut self.head, layout) {
            Ok(allocation) => {
                proof {
                    lemma_first_fit_is_lowest(old(self)@, layout);
                    let i = first_fit(old(self)@, layout).unwrap();
                    lemma_split_hole_tiles(old(self)@[i], layout);
                    lemma_min_block_values();
                    lemma_carved_by_freeing(old(self)@, i, allocation);
                    lemma_carved_apart(old(self)@, i, allocation);
                    lemma_carved_total_size(old(self)@, i, allocation);
                }
                if let Some(front) = allocation.front_hole_info {
                    self.free_region(front);
                }
                if let Some(back) = allocation.back_hole_info {
                    self.free_region(back);
                }
                Ok(allocation.allocated_info.addr)
            },
            Err(err) => Err(err),
        }
    }

    /// Frees the block at `addr` that was allocated for `layout`.
    pub fn deallocate(&mut self, addr: usize, layout: Layout)
        requires
            old(self).wf(),
            can_free(old(self)@, HoleInfo { addr, size: layout.size }),
        ensures
            final(self).wf(),
            final(self)@ == freed(old(self)@, HoleInfo { addr, size: layout.size }),
            !can_free(final(self)@, HoleInfo { addr, size: layout.size }),
            total_size(final(self)@) == total_size(old(self)@) + layout.size,
    {
        proof {
            lemma_freed_once(self@, HoleInfo { addr, size: layout.size });
            lemma_freed_total_size(self@, HoleInfo { addr, size: layout.size });
        }
        self.free_region(HoleInfo { addr, size: layout.size })
    }

    /// Whether no hole holds a byte of the block `[addr, addr + size)`.
    pub fn is_apart(&self, addr: usize, size: usize) -> (apart: bool)
        requires
            self.wf(),
            addr + size <= usize::MAX,
        ensures
            apart == block_apart(self@, HoleInfo { addr, size }),
    {
        apart_behind(&self.head, addr, size)
    }

    /// Returns the minimal allocation size. Smaller allocations or deallocations are
    /// not allowed.
    pub fn min_size() -> (size: usize)
        ensures
            size == min_block(),
    {
        proof {
            lemma_min_block_values();
        }
        core::mem::size_of::<usize>() * 2
    }

    /// The address and size of the first hole, if there is one.
    pub fn first_hole(&self) -> (first: Option<(usize, usize)>)
        ensures
            first == if self@.len() == 0 {
                None
            } else {
                Some((self@[0].addr, self@[0].size))
            },
    {
        match &self.head.next {
            Some(hole) => Some((hole.addr, hole.size)),
            None => None,
        }
    }
}

} // verus!
