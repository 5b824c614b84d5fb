//! The three singletons of the memory core under one roof: the heap, the
//! address space that it maps its pages into, and the frame allocator that
//! both take frames from. The requests of the global allocator interface
//! become heap operations on them.

use crate::bitmap_allocator::{frames_only_taken, BitmapAllocator, PAGE_SIZE};
use crate::kernel::heap::cells::{first_fit, is_allocated, released, Cell};
use crate::kernel::heap::rounding::block_size_of;
use crate::kernel::heap::{
    allocation, backing_frames, can_back, pages_backed, pages_in_frames, KernelHeap, NODE_SIZE,
};
use crate::kernel::memory_map::{
    frames_physical, lemma_frames_stay_physical, mappings_kept, MemoryFlags, MemoryMap,
};
use vstd::prelude::*;

verus! {

/// Virtual address at which the kernel heap starts: 10 GiB.
pub const KERNEL_HEAP_START_ADDRESS: u64 = 0x2_8000_0000;

/// Bytes that the kernel heap spans at first: 1 MiB.
pub const KERNEL_HEAP_INITIAL_SIZE: u64 = 0x10_0000;

/// Bytes that the kernel heap may span at most: 4 GiB.
pub const KERNEL_HEAP_MAX_SIZE: u64 = 0x1_0000_0000;

/// The kernel heap with the address space and the frame allocator that it
/// works on.
pub struct KernelHeapAllocator<'a, M: MemoryMap> {
    heap: KernelHeap,
    mapper: M,
    frames: BitmapAllocator<'a>,
}

impl<'a, M: MemoryMap> KernelHeapAllocator<'a, M> {
    /// The heap.
    pub closed spec fn heap(&self) -> KernelHeap {
        self.heap
    }

    /// The address space.
    pub closed spec fn mapper(&self) -> M {
        self.mapper
    }

    /// The frame allocator.
    pub closed spec fn frames(&self) -> BitmapAllocator<'a> {
        self.frames
    }

    /// The invariant: each of the three meets its own, and every frame of
    /// the frame allocator is a physical address of the architecture.
    pub open spec fn wf(&self) -> bool {
        &&& self.heap().wf()
        &&& self.mapper().wf()
        &&& self.frames().wf()
        &&& frames_physical::<M>(&self.frames())
    }

    /// The heap.
    pub fn heap_ref(&self) -> (heap: &KernelHeap)
        ensures
            *heap == self.heap(),
    {
        &self.heap
    }

    /// The address space.
    pub fn mapper_ref(&self) -> (mapper: &M)
        ensures
            *mapper == self.mapper(),
    {
        &self.mapper
    }

    /// The frame allocator.
    pub fn frames_ref(&self) -> (frames: &BitmapAllocator<'a>)
        ensures
            *frames == self.frames(),
    {
        &self.frames
    }

    /// Sets up the kernel heap at its fixed place, 1 MiB at first and 4 GiB
    /// at most, in the address space `mapper` with frames from `frames`.
    /// Returns `None` where the first pages could not be backed, and on a
    /// machine whose addresses do not reach that far.
    pub fn init_heap(mapper: M, frames: BitmapAllocator<'a>) -> (allocator: Option<Self>)
        requires
            mapper.wf(),
            frames.wf(),
            frames_physical::<M>(&frames),
        ensures
            allocator.is_some() == (usize::MAX >= KERNEL_HEAP_START_ADDRESS + KERNEL_HEAP_MAX_SIZE
                + PAGE_SIZE && can_back(
                &mapper,
                frames.free_count(),
                KERNEL_HEAP_START_ADDRESS as int,
                0,
                KERNEL_HEAP_INITIAL_SIZE as int / PAGE_SIZE as int,
            )),
            allocator.is_some() ==> {
                let a = allocator.unwrap();
                &&& a.wf()
                &&& a.frames().free_count() == frames.free_count() - backing_frames(
                    &mapper,
                    KERNEL_HEAP_START_ADDRESS as int,
                    0,
                    KERNEL_HEAP_INITIAL_SIZE as int / PAGE_SIZE as int,
                )
                &&& frames_only_taken(&frames, &a.frames())
                &&& mappings_kept(&mapper, &a.mapper())
                &&& pages_backed(
                    &a.mapper(),
                    KERNEL_HEAP_START_ADDRESS as int,
                    0,
                    KERNEL_HEAP_INITIAL_SIZE as int / PAGE_SIZE as int,
                )
                &&& pages_in_frames(
                    &frames,
                    &a.frames(),
                    &a.mapper(),
                    KERNEL_HEAP_START_ADDRESS as int,
                    0,
                    KERNEL_HEAP_INITIAL_SIZE as int / PAGE_SIZE as int,
                )
                &&& a.heap().start() == KERNEL_HEAP_START_ADDRESS
                &&& a.heap().page_count() == KERNEL_HEAP_INITIAL_SIZE as int / PAGE_SIZE as int
                &&& a.heap().max_pages() == KERNEL_HEAP_MAX_SIZE as int / PAGE_SIZE as int
                &&& a.heap()@ == seq![
                    Cell {
                        addr: KERNEL_HEAP_START_ADDRESS as int,
                        length: KERNEL_HEAP_INITIAL_SIZE - NODE_SIZE,
                        in_use: false,
                    },
                ]
            },
    {
        if (usize::MAX as u64) < KERNEL_HEAP_START_ADDRESS + KERNEL_HEAP_MAX_SIZE + 0x1000 {
            return None;
        }
        let mut mapper = mapper;
        let mut frames = frames;
        let heap = KernelHeap::init(
            KERNEL_HEAP_START_ADDRESS as usize,
            KERNEL_HEAP_MAX_SIZE as usize,
            KERNEL_HEAP_INITIAL_SIZE as usize,
            &mut mapper,
            &mut frames,
        );
        match heap {
            Some(heap) => Some(KernelHeapAllocator { heap, mapper, frames }),
            None => None,
        }
    }

    /// The heap, the address space and the frame allocator as they are, under
    /// one roof.
    pub fn new(heap: KernelHeap, mapper: M, frames: BitmapAllocator<'a>) -> (allocator: Self)
        requires
            heap.wf(),
            mapper.wf(),
            frames.wf(),
            frames_physical::<M>(&frames),
        ensures
            allocator.wf(),
            allocator.heap() == heap,
            allocator.mapper() == mapper,
            allocator.frames() == frames,
    {
        KernelHeapAllocator { heap, mapper, frames }
    }

    /// Maps the page of `from` to the frame of `to` with `flags`: what
    /// `MemoryMap::map_memory` does, with frames from the frame allocator
    /// held here. Succeeds exactly when the page can take a mapping, `to` is
    /// a physical address of the architecture, and the frame allocator has a
    /// frame for each table that is missing on the way. The heap is left
    /// alone.
    pub fn map_memory(&mut self, from: usize, to: usize, flags: MemoryFlags) -> (ok: bool)
        requires
            old(self).wf(),
        ensures
            final(self).wf(),
            final(self).heap() == old(self).heap(),
            frames_only_taken(&old(self).frames(), &final(self).frames()),
            ok <==> old(self).mapper().mappable(from) && M::physical(to) && old(
                self,
            ).mapper().tables_needed(from) <= old(self).frames().free_count(),
            ok ==> M::addressable(from),
            M::physical(to) ==> final(self).frames().free_count() == old(self).frames().free_count()
                - vstd::math::min(
                old(self).mapper().tables_needed(from) as int,
                old(self).frames().free_count() as int,
            ),
            !M::physical(to) ==> final(self).frames() == old(self).frames(),
            ok ==> forall|other: usize|
                (#[trigger] final(self).mapper().mappable(other)) == (old(self).mapper().mappable(
                    other,
                ) && M::page_key(other) != M::page_key(from)),
            ok ==> forall|other: usize|
                (#[trigger] final(self).mapper().tables_needed(other)) == vstd::math::min(
                    old(self).mapper().tables_needed(other) as int,
                    M::tables_apart(from, other) as int,
                ),
            old(self).mapper().translate(M::page_key(from)).is_some() ==> !ok,
            ok ==> final(self).mapper().translate(M::page_key(from)) == Some(
                (M::frame_base(to), flags@),
            ),
            !ok ==> final(self).mapper().translate(M::page_key(from)) == old(
                self,
            ).mapper().translate(M::page_key(from)),
            forall|key: int|
                key != M::page_key(from) ==> final(self).mapper().translate(key) == old(
                    self,
                ).mapper().translate(key),
    {
        let ok: bool = self.mapper.map_memory(from, to, flags, &mut self.frames);
        proof {
            lemma_frames_stay_physical::<M>(&old(self).frames(), &self.frames());
        }
        ok
    }

    /// Removes the mapping of the page of `from`: what
    /// `MemoryMap::unmap_memory` does. The heap and the frame allocator are
    /// left alone.
    pub fn unmap_memory(&mut self, from: usize) -> (ok: bool)
        requires
            old(self).wf(),
        ensures
            final(self).wf(),
            final(self).heap() == old(self).heap(),
            final(self).frames() == old(self).frames(),
            ok == (M::addressable(from) && old(self).mapper().translate(
                M::page_key(from),
            ).is_some()),
            ok ==> final(self).mapper().translate(M::page_key(from)).is_none(),
            !ok ==> final(self).mapper().translate(M::page_key(from)) == old(
                self,
            ).mapper().translate(M::page_key(from)),
            forall|key: int|
                key != M::page_key(from) ==> final(self).mapper().translate(key) == old(
                    self,
                ).mapper().translate(key),
    {
        self.mapper.unmap_memory(from)
    }

    /// Serves a request of `size` bytes aligned to `align`: what
    /// `KernelHeap::allocate` does, on the address space and the frame
    /// allocator held here. The address returned is 16-byte aligned; it is
    /// null where the heap could not grow any more.
    pub fn allocate(&mut self, size: usize, align: usize) -> (address: usize)
        requires
            old(self).wf(),
        ensures
            final(self).wf(),
            final(self).heap().start() == old(self).heap().start(),
            final(self).heap().max_pages() == old(self).heap().max_pages(),
            frames_only_taken(&old(self).frames(), &final(self).frames()),
            mappings_kept(&old(self).mapper(), &final(self).mapper()),
            pages_backed(
                &final(self).mapper(),
                old(self).heap().start(),
                old(self).heap().page_count(),
                final(self).heap().page_count(),
            ),
            address % 16 == 0,
            block_size_of(size as nat, align as nat) > usize::MAX ==> address == 0 && final(self).heap()@ == old(self).heap()@,
            block_size_of(size as nat, align as nat) <= usize::MAX ==> {
                let block = block_size_of(size as nat, align as nat) as int;
                let walk = first_fit(old(self).heap()@, 0, block);
                &&& walk.1.is_some() ==> {
                    &&& address != 0
                    &&& address == walk.0[walk.1.unwrap()].payload()
                    &&& final(self).heap()@ == walk.0
                    &&& final(self).frames() == old(self).frames()
                }
                &&& walk.1.is_none() && !old(self).heap().within_budget(block as nat) ==> {
                    &&& address == 0
                    &&& final(self).heap()@ == walk.0
                }
                &&& address != 0 ==> is_allocated(final(self).heap()@, address as int, block)
                &&& address == 0 ==> first_fit(final(self).heap()@, 0, block) == (
                    final(self).heap()@,
                    None::<int>,
                )
                &&& forall|payload: int, length: int|
                    is_allocated(final(self).heap()@, payload, length) <==> is_allocated(
                        old(self).heap()@,
                        payload,
                        length,
                    ) || (address != 0 && payload == address && length == block)
            },
            block_size_of(size as nat, align as nat) <= usize::MAX ==> {
                let served = allocation(
                    old(self).heap()@,
                    old(self).heap().page_count(),
                    old(self).heap().max_pages(),
                    block_size_of(size as nat, align as nat) as int,
                    &old(self).mapper(),
                    old(self).frames().free_count(),
                    old(self).heap().start(),
                    old(self).heap().page_count(),
                );
                &&& final(self).heap()@ == served.0
                &&& final(self).heap().page_count() == served.1
                &&& address == match served.2 {
                    Some(k) => served.0[k].payload(),
                    None => 0,
                }
            },
            pages_in_frames(
                &old(self).frames(),
                &final(self).frames(),
                &final(self).mapper(),
                old(self).heap().start(),
                old(self).heap().page_count(),
                final(self).heap().page_count(),
            ),
    {
        self.heap.allocate(size, align, &mut self.mapper, &mut self.frames)
    }

    /// Takes back the payload at `ptr`: what `KernelHeap::deallocate` does.
    /// The address space and the frame allocator are left alone.
    pub fn dealloc(&mut self, ptr: usize)
        requires
            old(self).wf(),
        ensures
            final(self).wf(),
            final(self).mapper() == old(self).mapper(),
            final(self).frames() == old(self).frames(),
            final(self).heap().start() == old(self).heap().start(),
            final(self).heap().page_count() == old(self).heap().page_count(),
            final(self).heap().max_pages() == old(self).heap().max_pages(),
            forall|k: int|
                0 <= k < old(self).heap()@.len() && (#[trigger] old(self).heap()@[k]).payload()
                    == ptr ==> final(self).heap()@ == released(old(self).heap()@, k),
            (forall|k: int|
                0 <= k < old(self).heap()@.len() ==> (#[trigger] old(self).heap()@[k]).payload()
                    != ptr) ==> final(self).heap()@ == old(self).heap()@,
            forall|payload: int, length: int|
                is_allocated(final(self).heap()@, payload, length) <==> is_allocated(
                    old(self).heap()@,
                    payload,
                    length,
                ) && payload != ptr,
    {
        self.heap.deallocate(ptr);
    }
}

} // verus!
