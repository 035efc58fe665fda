//! A fixed-size heap: one region of memory and the list of its free holes.

use crate::align::is_aligned;
use crate::model::{
    can_free, carved, first_fit, freed, holes_within, holes_wf, lemma_min_block_values, min_block,
    spec_split_hole, total_size,
};
use crate::hole_laws::{
    lemma_all_free_is_one_hole, lemma_carved_apart, lemma_carved_keeps_apart,
    lemma_first_fit_is_lowest, lemma_freed_keeps_apart, lemma_freed_within, lemma_split_hole_tiles,
    lemma_total_size_within,
};
use crate::hole::{HoleInfo, HoleList};
use crate::layout::{AllocErr, Layout};
use vstd::prelude::*;

verus! {

/// The request as the heap serves it: sizes below the minimal block size are raised to it.
pub open spec fn normalized(layout: Layout) -> Layout {
    Layout {
        size: if layout.size < min_block() {
            min_block() as usize
        } else {
            layout.size
        },
        align: layout.align,
    }
}

/// A fixed size heap backed by a linked list of free memory blocks.
pub struct HeapAllocator {
    bottom: usize,
    size: usize,
    holes: HoleList,
}

impl View for HeapAllocator {
    type V = Seq<HoleInfo>;

    /// The free holes of the heap, in address order.
    closed spec fn view(&self) -> Seq<HoleInfo> {
        self.holes@
    }
}

impl HeapAllocator {
    /// The lowest address of the heap.
    pub closed spec fn spec_bottom(&self) -> usize {
        self.bottom
    }

    /// The number of bytes the heap manages.
    pub closed spec fn spec_size(&self) -> usize {
        self.size
    }

    /// The first address past the heap.
    pub open spec fn spec_top(&self) -> int {
        self.spec_bottom() + self.spec_size()
    }

    /// The hole list keeps its own invariant.
    pub closed spec fn list_wf(&self) -> bool {
        self.holes.wf()
    }

    /// The heap's invariant: well-formed holes, all within the heap's region.
    pub open spec fn wf(&self) -> bool {
        &&& self.list_wf()
        &&& holes_wf(self@)
        &&& self.spec_top() <= usize::MAX
        &&& holes_within(self@, self.spec_bottom() as int, self.spec_top())
    }

    /// Whether the heap has been given its region.
    pub open spec fn initialized(&self) -> bool {
        self.spec_size() != 0
    }

    /// Whether `block` lies within the heap and apart from every hole, as every
    /// allocated block does.
    pub open spec fn allocated(&self, block: HoleInfo) -> bool {
        &&& self.spec_bottom() <= block.addr
        &&& block.end() <= self.spec_top()
        &&& can_free(self@, block)
    }

    /// The number of bytes that lie in holes.
    pub open spec fn free_bytes(&self) -> nat {
        total_size(self@)
    }

    /// The free bytes of a heap are bytes of its region.
    pub proof fn lemma_free_bytes_bounded(&self)
        requires
            self.wf(),
        ensures
            self.free_bytes() <= self.spec_size(),
    {
        lemma_total_size_within(self@, self.spec_bottom() as int, self.spec_top());
    }

    /// A heap with every byte free is one hole, the whole region: so it is when all
    /// that was allocated from it has been freed, whatever happened in between.
    pub proof fn lemma_idle_heap_is_one_hole(&self)
        requires
            self.wf(),
            self.initialized(),
            self.free_bytes() == self.spec_size(),
        ensures
            self@ == seq![HoleInfo { addr: self.spec_bottom(), size: self.spec_size() }],
    {
        lemma_all_free_is_one_hole(self@, self.spec_bottom(), self.spec_size());
    }

    /// Creates a heap without a region: every allocation from it fails.
    pub fn empty() -> (heap: HeapAllocator)
        ensures
            heap.wf(),
            !heap.initialized(),
            heap.spec_bottom() == 0,
            heap@ == Seq::<HoleInfo>::empty(),
    {
        HeapAllocator { bottom: 0, size: 0, holes: HoleList::empty() }
    }

    /// Gives the heap its region `[heap_bottom, heap_bottom + heap_size)`, all of it
    /// one hole.
    pub fn init(&mut self, heap_bottom: usize, heap_size: usize)
        requires
            old(self).wf(),
            !old(self).initialized(),
            heap_bottom > 0,
            heap_bottom as int % vstd::layout::size_of::<usize>() as int == 0,
            heap_size >= min_block(),
            heap_bottom + heap_size <= usize::MAX,
        ensures
            final(self).wf(),
            final(self).spec_bottom() == heap_bottom,
            final(self).spec_size() == heap_size,
            final(self)@ == seq![HoleInfo { addr: heap_bottom, size: heap_size }],
            final(self).free_bytes() == heap_size,
    {
        self.bottom = heap_bottom;
        self.size = heap_size;
        self.holes = HoleList::new(heap_bottom, heap_size);
        proof {
            let holes = self@;
            assert(total_size(holes.skip(1)) == 0);
        }
    }

    /// Gives the heap its region unless it has one: `false` says that it had, and
    /// that nothing was done.
    pub fn try_init(&mut self, heap_bottom: usize, heap_size: usize) -> (done: bool)
        requires
            old(self).wf(),
            heap_bottom > 0,
            heap_bottom as int % vstd::layout::size_of::<usize>() as int == 0,
            heap_size >= min_block(),
            heap_bottom + heap_size <= usize::MAX,
        ensures
            final(self).wf(),
            done == !old(self).initialized(),
            done ==> {
                &&& final(self).spec_bottom() == heap_bottom
                &&& final(self).spec_size() == heap_size
                &&& final(self)@ == seq![HoleInfo { addr: heap_bottom, size: heap_size }]
            },
            !done ==> *final(self) == *old(self),
    {
        if self.size != 0 {
            false
        } else {
            self.init(heap_bottom, heap_size);
            true
        }
    }

    /// Allocates a block for `layout`, its size raised to the minimal block size if
    /// it is smaller, from the first hole that fits.
    pub fn allocate(&mut self, layout: Layout) -> (allocated: Result<usize, AllocErr>)
        requires
            old(self).wf(),
            layout.valid(),
        ensures
            final(self).wf(),
            final(self).spec_bottom() == old(self).spec_bottom(),
            final(self).spec_size() == old(self).spec_size(),
            match first_fit(old(self)@, normalized(layout)) {
                Some(i) => {
                    let split = spec_split_hole(old(self)@[i], normalized(layout)).unwrap();
                    &&& 0 <= i < old(self)@.len()
                    &&& allocated == Ok::<usize, AllocErr>(split.allocated_info.addr)
                    &&& final(self)@ == carved(old(self)@, i, split)
                },
                None => {
                    &&& allocated is Err
                    &&& final(self)@ == old(self)@
                },
            },
            match allocated {
                Ok(addr) => {
                    &&& is_aligned(addr as int, layout.align as int)
                    &&& final(self).allocated(HoleInfo { addr, size: normalized(layout).size })
                    &&& final(self).free_bytes() + normalized(layout).size == old(
                        self,
                    ).free_bytes()
                },
                Err(_) => true,
            },
            forall|other: HoleInfo|
                old(self).allocated(other) ==> #[trigger] final(self).allocated(other),
    {
        let mut size: usize = layout.size;
        if size < HoleList::min_size() {
            size = HoleList::min_size();
        }
        let layout = Layout { size, align: layout.align };
        proof {
            lemma_first_fit_is_lowest(self@, layout);
            if let Some(i) = first_fit(self@, layout) {
                let split = spec_split_hole(self@[i], layout).unwrap();
                lemma_split_hole_tiles(self@[i], layout);
                lemma_min_block_values();
                lemma_carved_apart(self@, i, split);
                assert forall|other: HoleInfo| self.allocated(other) implies can_free(
                    carved(self@, i, split),
                    other,
                ) by {
                    lemma_carved_keeps_apart(self@, i, split, other);
                }
            }
        }
        self.holes.allocate(layout)
    }

    /// Frees the block at `addr` that was allocated for `layout`.
    pub fn dealloc(&mut self, addr: usize, layout: Layout)
        requires
            old(self).wf(),
            old(self).allocated(HoleInfo { addr, size: normalized(layout).size }),
        ensures
            final(self).wf(),
            final(self).spec_bottom() == old(self).spec_bottom(),
            final(self).spec_size() == old(self).spec_size(),
            final(self)@ == freed(old(self)@, HoleInfo { addr, size: normalized(layout).size }),
            final(self).free_bytes() == old(self).free_bytes() + normalized(layout).size,
            !final(self).allocated(HoleInfo { addr, size: normalized(layout).size }),
            forall|other: HoleInfo|
                old(self).allocated(other) && (addr + normalized(layout).size <= other.addr
                    || other.end() <= addr) ==> #[trigger] final(self).allocated(other),
    {
        let mut size: usize = layout.size;
        if size < HoleList::min_size() {
            size = HoleList::min_size();
        }
        let layout = Layout { size, align: layout.align };
        proof {
            let block = HoleInfo { addr, size };
            lemma_freed_within(self@, block, self.spec_bottom() as int, self.spec_top());
            lemma_min_block_values();
            assert forall|other: HoleInfo|
                self.allocated(other) && (block.end() <= other.addr || other.end()
                    <= block.addr) implies can_free(freed(self@, block), other) by {
                lemma_freed_keeps_apart(self@, block, other);
            }
        }
        self.holes.deallocate(addr, layout);
    }

    /// Whether the block at `addr` for `layout` lies within the heap and apart from
    /// every hole: whether it may be freed.
    pub fn is_allocated(&self, addr: usize, layout: Layout) -> (allocated: bool)
        requires
            self.wf(),
        ensures
            allocated == self.allocated(HoleInfo { addr, size: normalized(layout).size }),
    {
        let mut size: usize = layout.size;
        if size < HoleList::min_size() {
            size = HoleList::min_size();
        }
        if addr == 0 || addr < self.bottom {
            return false;
        }
        let top: usize = self.bottom + self.size;
        if addr > top || size > top - addr {
            return false;
        }
        self.holes.is_apart(addr, size)
    }

    /// Allocates like `allocate`, and returns the null address where that fails.
    pub fn allocate_or_null(&mut self, layout: Layout) -> (addr: usize)
        requires
            old(self).wf(),
            layout.valid(),
        ensures
            final(self).wf(),
            final(self).spec_bottom() == old(self).spec_bottom(),
            final(self).spec_size() == old(self).spec_size(),
            match first_fit(old(self)@, normalized(layout)) {
                Some(i) => {
                    let split = spec_split_hole(old(self)@[i], normalized(layout)).unwrap();
                    &&& 0 <= i < old(self)@.len()
                    &&& addr == split.allocated_info.addr
                    &&& addr != 0
                    &&& final(self)@ == carved(old(self)@, i, split)
                },
                None => {
                    &&& addr == 0
                    &&& final(self)@ == old(self)@
                },
            },
            addr != 0 ==> is_aligned(addr as int, layout.align as int) && final(self).allocated(
                HoleInfo { addr, size: normalized(layout).size },
            ),
    {
        match self.allocate(layout) {
            Ok(addr) => addr,
            Err(_) => 0,
        }
    }

    /// Frees the block at `addr` for `layout` if it is allocated: `false` says that
    /// it is not, and that nothing was done.
    pub fn try_dealloc(&mut self, addr: usize, layout: Layout) -> (done: bool)
        requires
            old(self).wf(),
        ensures
            final(self).wf(),
            final(self).spec_bottom() == old(self).spec_bottom(),
            final(self).spec_size() == old(self).spec_size(),
            done == old(self).allocated(HoleInfo { addr, size: normalized(layout).size }),
            done ==> final(self)@ == freed(
                old(self)@,
                HoleInfo { addr, size: normalized(layout).size },
            ),
            !done ==> final(self)@ == old(self)@,
    {
        if self.is_allocated(addr, layout) {
            self.dealloc(addr, layout);
            true
        } else {
            false
        }
    }

    /// Returns the bottom address of the heap.
    pub fn bottom(&self) -> (bottom: usize)
        ensures
            bottom == self.spec_bottom(),
    {
        self.bottom
    }

    /// Returns the size of the heap.
    pub fn size(&self) -> (size: usize)
        ensures
            size == self.spec_size(),
    {
        self.size
    }

    /// Returns the top address of the heap.
    pub fn top(&self) -> (top: usize)
        requires
            self.wf(),
        ensures
            top == self.spec_top(),
    {
        self.bottom + self.size
    }

    /// The address and size of the first hole, if there is one.
    pub fn first_hole(&self) -> (first: Option<(usize, usize)>)
        ensures
            first == if self@.len() == 0 {
                None
            } else {
                Some((self@[0].addr, self@[0].size))
            },
    {
        self.holes.first_hole()
    }
}

/// `spin::mutex::Mutex`, the spin lock: carried through, never looked into.
#[verifier::external_type_specification]
#[verifier::external_body]
#[verifier::reject_recursive_types(T)]
#[verifier::reject_recursive_types(R)]
pub struct ExMutex<T: ?Sized, R>(spin::mutex::Mutex<T, R>);

/// `spin::mutex::MutexGuard`, which holds the lock while it lives: carried through,
/// never looked into.
#[verifier::external_type_specification]
#[verifier::external_body]
#[verifier::reject_recursive_types(T)]
pub struct ExMutexGuard<'a, T: 'a + ?Sized>(spin::mutex::MutexGuard<'a, T>);

/// `spin::relax::Spin`, the lock's way of waiting: it only names the kind of lock.
#[verifier::external_type_specification]
#[verifier::external_body]
pub struct ExSpin(spin::relax::Spin);

/// A heap as the lock holds it: well-formed at every moment, so also whenever the
/// lock hands it out.
struct Guarded {
    heap: HeapAllocator,
}

impl Guarded {
    #[verifier::type_invariant]
    spec fn inv(self) -> bool {
        self.heap.wf()
    }
}

/// `spin::mutex::Mutex::new`: a lock around `heap`. Nothing is claimed of the lock.
#[verifier::external_body]
fn lock_new(heap: Guarded) -> (lock: spin::mutex::Mutex<Guarded, spin::relax::Spin>) {
    spin::mutex::Mutex::new(heap)
}

/// `spin::mutex::Mutex::lock`: spins until the lock is free, then holds it until the
/// guard is dropped. Nothing is claimed of the guard. The call does not return while
/// the caller itself holds the lock: the functions here drop their guard before
/// they return, and code that interrupts them must not call them.
#[verifier::external_body]
fn lock_acquire<'a>(lock: &'a spin::mutex::Mutex<Guarded, spin::relax::Spin>) -> (guard:
    spin::mutex::MutexGuard<'a, Guarded>) {
    lock.lock()
}

/// `DerefMut::deref_mut` of `spin::mutex::MutexGuard`: the value that the lock holds.
/// Nothing is claimed of it but what holds of every `Guarded`.
#[verifier::external_body]
fn guarded<'a, 'b>(guard: &'a mut spin::mutex::MutexGuard<'b, Guarded>) -> (slot: &'a mut Guarded) {
    core::ops::DerefMut::deref_mut(guard)
}

/// A heap that can be shared: every operation takes a spin lock, works on the heap
/// and releases the lock.
pub struct GlobalHeapAllocator {
    inner: spin::mutex::Mutex<Guarded, spin::relax::Spin>,
}

impl GlobalHeapAllocator {
    /// Creates a shared heap without a region.
    pub fn empty() -> GlobalHeapAllocator {
        GlobalHeapAllocator { inner: lock_new(Guarded { heap: HeapAllocator::empty() }) }
    }

    /// Creates a shared heap with the region `[heap_bottom, heap_bottom + heap_size)`.
    pub fn new(heap_bottom: usize, heap_size: usize) -> GlobalHeapAllocator
        requires
            heap_bottom > 0,
            heap_bottom as int % vstd::layout::size_of::<usize>() as int == 0,
            heap_size >= min_block(),
            heap_bottom + heap_size <= usize::MAX,
    {
        let mut heap = HeapAllocator::empty();
        heap.init(heap_bottom, heap_size);
        GlobalHeapAllocator { inner: lock_new(Guarded { heap }) }
    }

    /// Gives the heap its region unless it has one: `false` says that it had, and
    /// that nothing was done.
    pub fn init(&self, heap_bottom: usize, heap_size: usize) -> (done: bool)
        requires
            heap_bottom > 0,
            heap_bottom as int % vstd::layout::size_of::<usize>() as int == 0,
            heap_size >= min_block(),
            heap_bottom + heap_size <= usize::MAX,
    {
        let mut guard = lock_acquire(&self.inner);
        let slot = guarded(&mut guard);
        proof {
            use_type_invariant(&*slot);
        }
        let mut heap = HeapAllocator::empty();
        core::mem::swap(&mut heap, &mut slot.heap);
        let done = heap.try_init(heap_bottom, heap_size);
        slot.heap = heap;
        done
    }

    /// Allocates a block for `layout` and returns its address, or the null address
    /// when no hole fits. Whatever the heap holds when the lock is taken, a block
    /// that is returned is aligned and ends within the address space.
    pub fn allocate(&self, layout: Layout) -> (addr: usize)
        requires
            layout.valid(),
        ensures
            addr != 0 ==> is_aligned(addr as int, layout.align as int) && addr + normalized(
                layout,
            ).size <= usize::MAX,
    {
        let mut guard = lock_acquire(&self.inner);
        let slot = guarded(&mut guard);
        proof {
            use_type_invariant(&*slot);
        }
        let mut heap = HeapAllocator::empty();
        core::mem::swap(&mut heap, &mut slot.heap);
        let addr = heap.allocate_or_null(layout);
        slot.heap = heap;
        addr
    }

    /// Frees the block at `addr` for `layout` if it is allocated: `false` says that
    /// it is not (it was never allocated, or was freed before), and that nothing
    /// was done. Whatever the heap holds when the lock is taken, a block that is
    /// freed does not start at the null address and ends within the address space.
    pub fn dealloc(&self, addr: usize, layout: Layout) -> (done: bool)
        ensures
            done ==> addr != 0 && addr + normalized(layout).size <= usize::MAX,
    {
        let mut guard = lock_acquire(&self.inner);
        let slot = guarded(&mut guard);
        proof {
            use_type_invariant(&*slot);
        }
        let mut heap = HeapAllocator::empty();
        core::mem::swap(&mut heap, &mut slot.heap);
        let done = heap.try_dealloc(addr, layout);
        slot.heap = heap;
        done
    }

    /// The address and size of the first hole, if there is one. Whatever the heap
    /// holds when the lock is taken, a hole is large enough to be one and ends within
    /// the address space.
    pub fn first_hole(&self) -> (first: Option<(usize, usize)>)
        ensures
            match first {
                Some((addr, size)) => addr > 0 && size >= min_block() && addr + size
                    <= usize::MAX,
                None => true,
            },
    {
        let mut guard = lock_acquire(&self.inner);
        let slot = guarded(&mut guard);
        proof {
            use_type_invariant(&*slot);
        }
        let first = slot.heap.first_hole();
        assert(first is Some ==> slot.heap@[0].addr > 0);
        first
    }

    /// The bottom address of the heap.
    pub fn bottom(&self) -> (bottom: usize) {
        let mut guard = lock_acquire(&self.inner);
        let slot = guarded(&mut guard);
        slot.heap.bottom()
    }
}

} // verus!
