use nexos::arch::x86_64::paging::X86MemoryMap;
use nexos::bitmap_allocator::{bitmap_bytes, BitmapAllocator, PAGE_SIZE};
use nexos::kernel::heap::rounding::{
    block_size, pages_for, round_up_block, round_up_power_of_two,
};
use nexos::kernel::heap::{KernelHeap, MIN_BLOCK, NODE_SIZE};
use nexos::kernel::memory_map::MemoryMap;

const REGION_BASE: usize = 0x10_0000;

fn machine(frames_in_region: usize) -> (X86MemoryMap, BitmapAllocator<'static>) {
    let length = frames_in_region * PAGE_SIZE;
    let bitmap: &'static mut [u8] = Box::leak(vec![0u8; bitmap_bytes(length)].into_boxed_slice());
    let mut frames = BitmapAllocator::from_mmap(REGION_BASE, length, bitmap);
    let root = frames.request_page().expect("no frame for the root table");
    (X86MemoryMap::new(root as u64), frames)
}

/// The cells of the heap as (header address, payload length, in use),
/// gathered by following the successor links from the first header.
fn cells(heap: &KernelHeap) -> Vec<(usize, usize, bool)> {
    let mut found = Vec::new();
    let mut at = Some(heap.root_node());
    let mut before = None;
    while let Some(addr) = at {
        let node = heap.node_at(addr).expect("a link leads to no header");
        assert_eq!(node.last, before);
        found.push((addr, node.length, node.in_use));
        before = Some(addr);
        at = node.next;
    }
    assert_eq!(before, Some(heap.last_node_address()));
    found
}

fn free_frames(frames: &BitmapAllocator) -> usize {
    (0..frames.number_of_pages()).filter(|i| frames.page_in_use(*i) == Some(false)).count()
}

#[test]
fn heap_test_heap_allocation_and_deallocation() {
    let start_address = 1024 * 1024 * 1024 * 1024;
    let max_size = 1024 * 1024; // 1 MB
    let initial_size = 1024 * 128; // 128 KB
    let (mut mapper, mut frames) = machine(512);
    let mut heap =
        KernelHeap::init(start_address, max_size, initial_size, &mut mapper, &mut frames)
            .expect("Failed to initialize heap");
    let mut allocations = [0usize; 100];
    for (i, ptr) in allocations.iter_mut().enumerate() {
        *ptr = heap.allocate(256, 8, &mut mapper, &mut frames);
        assert!(*ptr != 0, "Allocation failed after allocating {i} times");
        assert_eq!(*ptr % 16, 0);
    }
    for ptr in allocations {
        heap.deallocate(ptr);
    }
    let expansion_size = 1024 * 256; // 256 KB
    let expanded = heap.expand_heap(expansion_size, &mut mapper, &mut frames);
    assert!(expanded, "Heap expansion failed");
}

#[test]
fn a_hundred_allocations_then_freeing_all_leaves_one_cell() {
    let start = 1024 * 1024 * 1024 * 1024;
    let initial_size = 1024 * 128;
    let (mut mapper, mut frames) = machine(512);
    let mut heap = KernelHeap::init(start, 1024 * 1024, initial_size, &mut mapper, &mut frames)
        .expect("Failed to initialize heap");
    let mut allocations = Vec::new();
    for i in 0..100 {
        let ptr = heap.allocate(256, 8, &mut mapper, &mut frames);
        assert_eq!(ptr, start + NODE_SIZE + i * (256 + NODE_SIZE));
        allocations.push(ptr);
    }
    assert_eq!(cells(&heap).len(), 101);
    for ptr in allocations {
        heap.deallocate(ptr);
    }
    assert_eq!(cells(&heap), vec![(start, initial_size - NODE_SIZE, false)]);
    assert_eq!(heap.current_pages(), 32);

    let whole = heap.current_pages() * PAGE_SIZE - NODE_SIZE;
    let ptr = heap.allocate(whole, 8, &mut mapper, &mut frames);
    assert_eq!(ptr, start + NODE_SIZE);
    assert_eq!(ptr % 16, 0);
    // 128 KiB less a header rounds up to 128 KiB, which the heap grew for.
    assert_eq!(heap.current_pages(), 64);
    assert_eq!(
        cells(&heap),
        vec![
            (start, 0x2_0000, true),
            (start + NODE_SIZE + 0x2_0000, 0x2_0000 - 2 * NODE_SIZE, false),
        ]
    );
}

#[test]
fn init_backs_the_first_pages_and_makes_one_free_cell() {
    let start = 0x4000_0000;
    let (mut mapper, mut frames) = machine(64);
    let free_before = free_frames(&frames);
    let heap = KernelHeap::init(start, 0x10_0000, 3 * PAGE_SIZE + 1, &mut mapper, &mut frames)
        .expect("Failed to initialize heap");
    assert_eq!(heap.current_pages(), 4);
    assert_eq!(heap.maximum_pages(), 256);
    assert_eq!(cells(&heap), vec![(start, 3 * PAGE_SIZE + 1 - NODE_SIZE, false)]);
    // Four frames for the pages and three for the tables below the root.
    assert_eq!(free_frames(&frames), free_before - 7);
    for page in 0..4 {
        let indices = nexos::arch::x86_64::page_table::get_page_index(
            (start + page * PAGE_SIZE) as u64,
        );
        let entry = mapper.get_page(indices).expect("a heap page is not mapped");
        // Present, writable, user accessible.
        assert_eq!(entry.bits() & 0xfff, 0x7);
    }
    let behind =
        nexos::arch::x86_64::page_table::get_page_index((start + 4 * PAGE_SIZE) as u64);
    assert!(mapper.get_page(behind).is_none());
}

#[test]
fn init_fails_without_frames_and_at_null() {
    let (mut mapper, mut frames) = machine(4);
    assert!(KernelHeap::init(0x4000_0000, 0x10_0000, 0x8000, &mut mapper, &mut frames).is_none());
    let (mut mapper, mut frames) = machine(64);
    assert!(KernelHeap::init(0, 0x10_0000, 0x8000, &mut mapper, &mut frames).is_none());
    assert!(KernelHeap::from_backed_region(0x4000_0000, 0x10_0000, 0x8000, false).is_none());
    assert!(KernelHeap::from_backed_region(0, 0x10_0000, 0x8000, true).is_none());
    assert!(KernelHeap::from_backed_region(0x4000_0000, 0x10_0000, 0x8000, true).is_some());
}

#[test]
fn block_sizes_are_powers_of_two_of_sixteen_at_least() {
    assert_eq!(block_size(256, 8), Some(256));
    assert_eq!(block_size(0, 1), Some(16));
    assert_eq!(block_size(1, 1), Some(16));
    assert_eq!(block_size(16, 16), Some(16));
    assert_eq!(block_size(17, 1), Some(32));
    assert_eq!(block_size(100, 64), Some(128));
    assert_eq!(block_size(5000, 4096), Some(8192));
    assert_eq!(block_size(131040, 8), Some(131072));
    assert_eq!(block_size(usize::MAX, 1), None);
    assert_eq!(block_size(usize::MAX / 2 + 2, 1), None);
    assert_eq!(round_up_power_of_two(0), Some(1));
    assert_eq!(round_up_power_of_two(1), Some(1));
    assert_eq!(round_up_power_of_two(3), Some(4));
    assert_eq!(round_up_power_of_two(4096), Some(4096));
    assert_eq!(round_up_power_of_two(4097), Some(8192));
    assert_eq!(round_up_power_of_two(usize::MAX / 2 + 1), Some(usize::MAX / 2 + 1));
    assert_eq!(round_up_power_of_two(usize::MAX), None);
    assert_eq!(round_up_block(0), Some(MIN_BLOCK));
    assert_eq!(round_up_block(9), Some(16));
    assert_eq!(round_up_block(33), Some(64));
    assert_eq!(pages_for(0), 0);
    assert_eq!(pages_for(1), 1);
    assert_eq!(pages_for(PAGE_SIZE), 1);
    assert_eq!(pages_for(PAGE_SIZE + 1), 2);
}

#[test]
fn the_walk_takes_the_first_cell_that_fits() {
    let start = 0x4000_0000;
    let (mut mapper, mut frames) = machine(64);
    let mut heap = KernelHeap::init(start, 0x10_0000, 0x4000, &mut mapper, &mut frames).unwrap();
    let a = heap.allocate(64, 8, &mut mapper, &mut frames);
    let b = heap.allocate(256, 8, &mut mapper, &mut frames);
    let c = heap.allocate(64, 8, &mut mapper, &mut frames);
    let d = heap.allocate(256, 8, &mut mapper, &mut frames);
    let e = heap.allocate(64, 8, &mut mapper, &mut frames);
    assert_eq!(a, start + 32);
    assert_eq!(b, a + 64 + 32);
    assert_eq!(c, b + 256 + 32);
    assert_eq!(d, c + 64 + 32);
    assert_eq!(e, d + 256 + 32);
    heap.deallocate(b);
    heap.deallocate(d);
    // 128 bytes fit the front of the first free cell, with room for a header.
    assert_eq!(heap.allocate(128, 8, &mut mapper, &mut frames), b);
    // What is left of that cell, 96 bytes, fits neither 128 nor 64 and a
    // header: 256 bytes go to the second free cell, exactly.
    assert_eq!(heap.allocate(256, 8, &mut mapper, &mut frames), d);
    // 96 bytes are no exact fit for 64 and have no room for a header behind
    // them: the next cell that fits is the tail.
    assert_eq!(heap.allocate(64, 8, &mut mapper, &mut frames), e + 64 + 32);
    assert_eq!(heap.allocate_first_fit(1 << 20), 0);
    let tail = e + 64 + 32 + 64;
    assert_eq!(
        cells(&heap),
        vec![
            (start, 64, true),
            (b - 32, 128, true),
            (b + 128, 96, false),
            (c - 32, 64, true),
            (d - 32, 256, true),
            (e - 32, 64, true),
            (e + 64, 64, true),
            (tail, start + 0x4000 - tail - 32, false),
        ]
    );
}

#[test]
fn deallocate_merges_with_free_neighbours() {
    let start = 0x4000_0000;
    let (mut mapper, mut frames) = machine(64);
    let mut heap = KernelHeap::init(start, 0x10_0000, 0x1000, &mut mapper, &mut frames).unwrap();
    let a = heap.allocate(64, 8, &mut mapper, &mut frames);
    let b = heap.allocate(64, 8, &mut mapper, &mut frames);
    let c = heap.allocate(64, 8, &mut mapper, &mut frames);
    let d = heap.allocate(64, 8, &mut mapper, &mut frames);
    let rest = 0x1000 - 4 * 96 - 32;
    heap.deallocate(a);
    heap.deallocate(c);
    assert_eq!(
        cells(&heap),
        vec![
            (start, 64, false),
            (b - 32, 64, true),
            (c - 32, 64, false),
            (d - 32, 64, true),
            (d + 64, rest, false),
        ]
    );
    // Between two free cells: all three become one.
    heap.deallocate(b);
    assert_eq!(
        cells(&heap),
        vec![(start, 3 * 64 + 2 * 32, false), (d - 32, 64, true), (d + 64, rest, false)]
    );
    // Giving back what is free already changes nothing.
    heap.deallocate(b);
    heap.deallocate(a);
    assert_eq!(cells(&heap).len(), 3);
    heap.deallocate(d);
    assert_eq!(cells(&heap), vec![(start, 0x1000 - 32, false)]);
    assert_eq!(heap.last_node_address(), start);
}

#[test]
fn the_walk_merges_free_runs_even_when_nothing_fits() {
    let start = 0x4000_0000;
    let (mut mapper, mut frames) = machine(64);
    let mut heap = KernelHeap::init(start, 0x10_0000, 0x1000, &mut mapper, &mut frames).unwrap();
    let a = heap.allocate(64, 8, &mut mapper, &mut frames);
    let b = heap.allocate(2048, 8, &mut mapper, &mut frames);
    assert_eq!(b, a + 64 + 32);
    heap.deallocate(a);
    let c = heap.allocate(16, 8, &mut mapper, &mut frames);
    assert_eq!(c, a);
    // 64 bytes were cut into 16 in use and 16 free, with a header between.
    heap.deallocate(c);
    assert_eq!(cells(&heap)[0], (start, 64, false));
    assert_eq!(heap.allocate_first_fit(4096), 0);
}

#[test]
fn expand_heap_extends_a_free_tail() {
    let start = 0x4000_0000;
    let (mut mapper, mut frames) = machine(64);
    let mut heap = KernelHeap::init(start, 0x10_0000, 0x1000, &mut mapper, &mut frames).unwrap();
    assert!(heap.expand_heap(5000, &mut mapper, &mut frames));
    assert_eq!(heap.current_pages(), 3);
    assert_eq!(cells(&heap), vec![(start, 0x1000 - 32 + 8192, false)]);
    // The smallest growth is a block of 16 bytes, on a page of its own.
    assert!(heap.expand_heap(0, &mut mapper, &mut frames));
    assert_eq!(heap.current_pages(), 4);
    assert_eq!(cells(&heap), vec![(start, 0x1000 - 32 + 8192 + 16, false)]);
}

#[test]
fn expand_heap_adds_a_cell_behind_a_tail_in_use() {
    let start = 0x4000_0000;
    let (mut mapper, mut frames) = machine(64);
    let mut heap = KernelHeap::init(start, 0x10_0000, 0x1000, &mut mapper, &mut frames).unwrap();
    // The cell of 4064 bytes has no room for 2048 and a second cell of 2048.
    let a = heap.allocate(2048, 8, &mut mapper, &mut frames);
    let rest = 0x1000 - 32 - 2048 - 32;
    let b = heap.allocate_first_fit(rest);
    assert_eq!(b, a + 2048 + 32);
    assert_eq!(heap.last_node_address(), b - 32);
    assert!(heap.expand_heap(4096, &mut mapper, &mut frames));
    assert_eq!(
        cells(&heap),
        vec![(start, 2048, true), (b - 32, rest, true), (start + 0x1000, 4096 - 32, false)]
    );
    assert_eq!(heap.last_node_address(), start + 0x1000);
    heap.deallocate(b);
    assert_eq!(cells(&heap), vec![(start, 2048, true), (b - 32, rest + 4096, false)]);
    assert_eq!(heap.last_node_address(), b - 32);
}

#[test]
fn a_small_growth_behind_a_tail_in_use_gives_a_cell_without_payload() {
    let start = 0x4000_0000;
    let (mut mapper, mut frames) = machine(64);
    let mut heap = KernelHeap::init(start, 0x10_0000, 64, &mut mapper, &mut frames).unwrap();
    let a = heap.allocate_first_fit(32);
    assert_eq!(a, start + 32);
    assert!(heap.expand_heap(16, &mut mapper, &mut frames));
    assert_eq!(cells(&heap), vec![(start, 32, true), (start + 64, 0, false)]);
    assert_eq!(heap.allocate_first_fit(16), 0);
    // The second growth makes it fit.
    let b = heap.allocate(16, 1, &mut mapper, &mut frames);
    assert_eq!(b, start + 64 + 32);
    assert_eq!(cells(&heap), vec![(start, 32, true), (start + 64, 16, true)]);
    assert_eq!(heap.current_pages(), 3);
}

#[test]
fn expand_heap_refuses_what_meets_the_maximum() {
    let start = 0x4000_0000;
    let (mut mapper, mut frames) = machine(64);
    // Four pages at first, sixteen at most.
    let mut heap = KernelHeap::init(start, 0x1_0000, 0x4000, &mut mapper, &mut frames).unwrap();
    let free_before = free_frames(&frames);
    // Twelve more pages would meet the maximum.
    assert_eq!(heap.plan_growth(12 * PAGE_SIZE), None);
    assert!(!heap.expand_heap(12 * PAGE_SIZE, &mut mapper, &mut frames));
    assert!(!heap.expand_heap(8 * PAGE_SIZE + 1, &mut mapper, &mut frames));
    assert!(!heap.expand_heap(usize::MAX, &mut mapper, &mut frames));
    assert_eq!(heap.current_pages(), 4);
    assert_eq!(free_frames(&frames), free_before);
    assert_eq!(cells(&heap), vec![(start, 0x4000 - 32, false)]);
    // Eight more pages stay under it.
    assert_eq!(heap.plan_growth(8 * PAGE_SIZE), Some(12));
    assert!(heap.expand_heap(8 * PAGE_SIZE, &mut mapper, &mut frames));
    assert_eq!(heap.current_pages(), 12);
    assert_eq!(free_frames(&frames), free_before - 8);
    // Three pages less a byte round up to four pages, which meets it.
    assert!(!heap.expand_heap(3 * PAGE_SIZE - 1, &mut mapper, &mut frames));
    assert!(heap.expand_heap(2 * PAGE_SIZE, &mut mapper, &mut frames));
    assert_eq!(heap.current_pages(), 14);
    assert!(heap.expand_heap(1, &mut mapper, &mut frames));
    assert_eq!(heap.current_pages(), 15);
    assert!(!heap.expand_heap(1, &mut mapper, &mut frames));
    assert_eq!(heap.current_pages(), 15);
}

#[test]
fn apply_growth_needs_backing() {
    let mut heap = KernelHeap::from_backed_region(0x4000_0000, 0x1_0000, 0x4000, true).unwrap();
    assert!(!heap.apply_growth(4096, false));
    assert_eq!(heap.current_pages(), 4);
    assert!(heap.apply_growth(4096, true));
    assert_eq!(heap.current_pages(), 5);
    assert!(!heap.apply_growth(11 * PAGE_SIZE, true));
    assert_eq!(cells(&heap), vec![(0x4000_0000, 0x5000 - 32, false)]);
}

#[test]
fn allocate_gives_null_when_the_frames_run_out() {
    let start = 0x4000_0000;
    // One frame for the bitmap, one for the root, three for tables, four
    // for the first pages: two are left.
    let (mut mapper, mut frames) = machine(11);
    let mut heap = KernelHeap::init(start, 0x10_0000, 0x4000, &mut mapper, &mut frames).unwrap();
    assert_eq!(free_frames(&frames), 2);
    let a = heap.allocate(0x2000, 8, &mut mapper, &mut frames);
    assert_eq!(a, start + 32);
    // Three pages are needed on top of what is free, and two can be had.
    assert_eq!(heap.allocate(0x4000, 8, &mut mapper, &mut frames), 0);
    assert_eq!(free_frames(&frames), 0);
    assert_eq!(heap.current_pages(), 4);
    assert_eq!(
        cells(&heap),
        vec![(start, 0x2000, true), (start + 32 + 0x2000, 0x2000 - 64, false)]
    );
    // What fits without growth is still served.
    assert_eq!(heap.allocate(0x1000, 8, &mut mapper, &mut frames), start + 32 + 0x2000 + 32);
}

#[test]
fn allocate_gives_null_when_the_maximum_is_met() {
    let start = 0x4000_0000;
    let (mut mapper, mut frames) = machine(64);
    let mut heap = KernelHeap::init(start, 0x8000, 0x4000, &mut mapper, &mut frames).unwrap();
    assert_eq!(heap.allocate(0x8000, 8, &mut mapper, &mut frames), 0);
    assert_eq!(heap.current_pages(), 4);
    let a = heap.allocate(0x2000, 8, &mut mapper, &mut frames);
    assert_eq!(a, start + 32);
}

#[test]
fn every_payload_is_sixteen_byte_aligned() {
    let start = 0x4000_0000;
    let (mut mapper, mut frames) = machine(256);
    let mut heap = KernelHeap::init(start, 0x80_0000, 0x1000, &mut mapper, &mut frames).unwrap();
    for (size, align) in [(1, 1), (3, 2), (24, 8), (100, 4), (4000, 16), (5, 1), (9000, 8)] {
        let p = heap.allocate(size, align, &mut mapper, &mut frames);
        assert!(p != 0);
        assert_eq!(p % 16, 0);
    }
    for (addr, _, _) in cells(&heap) {
        assert_eq!(addr % 16, 0);
    }
}

#[test]
fn a_mapper_that_cannot_map_stops_growth() {
    let start = 0x4000_0000;
    let (mut mapper, mut frames) = machine(64);
    let mut heap = KernelHeap::init(start, 0x10_0000, 0x1000, &mut mapper, &mut frames).unwrap();
    // The page behind the heap is taken by someone else.
    assert!(mapper.map_memory(start + 0x1000, 0x9000, Default::default(), &mut frames));
    assert!(!heap.expand_heap(4096, &mut mapper, &mut frames));
    assert_eq!(heap.current_pages(), 1);
    assert_eq!(heap.allocate(8192, 8, &mut mapper, &mut frames), 0);
    assert_eq!(cells(&heap), vec![(start, 0x1000 - 32, false)]);
}

#[test]
fn init_succeeds_exactly_with_a_frame_for_each_page_and_each_missing_table() {
    let start = 0x4000_0000;
    // One frame holds the bitmap and one the root: of nine frames seven are
    // free, which is four pages and the three tables on the way to them.
    let (mut mapper, mut frames) = machine(9);
    assert_eq!(free_frames(&frames), 7);
    let heap = KernelHeap::init(start, 0x10_0000, 0x4000, &mut mapper, &mut frames);
    assert!(heap.is_some());
    assert_eq!(free_frames(&frames), 0);
    // With one frame less the last page gets none.
    let (mut mapper, mut frames) = machine(8);
    assert_eq!(free_frames(&frames), 6);
    assert!(KernelHeap::init(start, 0x10_0000, 0x4000, &mut mapper, &mut frames).is_none());
    assert_eq!(free_frames(&frames), 0);
    // A page of the heap that is mapped already is in the way.
    let (mut mapper, mut frames) = machine(64);
    assert!(mapper.map_memory(start + 0x2000, 0x9000, Default::default(), &mut frames));
    assert!(KernelHeap::init(start, 0x10_0000, 0x4000, &mut mapper, &mut frames).is_none());
}

#[test]
fn expand_heap_succeeds_exactly_when_the_new_pages_can_be_backed() {
    let start = 0x4000_0000;
    // Seven frames for the first four pages and their tables, two to grow.
    let (mut mapper, mut frames) = machine(11);
    let mut heap = KernelHeap::init(start, 0x10_0000, 0x4000, &mut mapper, &mut frames).unwrap();
    assert_eq!(free_frames(&frames), 2);
    // Three pages need three frames: the tables are there, the frames not.
    assert!(!heap.expand_heap(3 * PAGE_SIZE, &mut mapper, &mut frames));
    assert_eq!(heap.current_pages(), 4);
    assert_eq!(free_frames(&frames), 0);
    frames.free_pages(REGION_BASE + 9 * PAGE_SIZE, 2 * PAGE_SIZE);
    // The two pages mapped by the failed growth are in the way now.
    assert!(!heap.expand_heap(PAGE_SIZE, &mut mapper, &mut frames));
    assert!(mapper.unmap_memory(start + 4 * PAGE_SIZE));
    assert!(mapper.unmap_memory(start + 5 * PAGE_SIZE));
    assert_eq!(free_frames(&frames), 1);
    assert!(heap.expand_heap(PAGE_SIZE, &mut mapper, &mut frames));
    assert_eq!(heap.current_pages(), 5);
    assert_eq!(free_frames(&frames), 0);
}

#[test]
fn a_page_behind_a_table_border_needs_a_table_of_its_own() {
    // 512 pages fill a table of level 1; page 512 of the region lies in the
    // next one.
    let start = 0x4000_0000;
    let (mut mapper, mut frames) = machine(600);
    let mut heap =
        KernelHeap::init(start, 0x100_0000, 511 * PAGE_SIZE, &mut mapper, &mut frames).unwrap();
    let free = free_frames(&frames);
    assert!(heap.expand_heap(PAGE_SIZE, &mut mapper, &mut frames));
    assert_eq!(free_frames(&frames), free - 1);
    assert!(heap.expand_heap(PAGE_SIZE, &mut mapper, &mut frames));
    assert_eq!(free_frames(&frames), free - 3);
    assert_eq!(heap.current_pages(), 513);
}

#[test]
fn allocate_grows_the_free_tail_and_cuts_the_block_from_it() {
    let start = 0x100_0000_0000;
    let (mut mapper, mut frames) = machine(512);
    let mut heap =
        KernelHeap::init(start, 1 << 20, 128 << 10, &mut mapper, &mut frames).unwrap();
    assert_eq!(heap.allocate(256, 8, &mut mapper, &mut frames), 0x100_0000_0020);
    // 128 KiB do not fit what is left; the tail grows by 128 KiB and is cut.
    assert_eq!(heap.allocate(131072, 8, &mut mapper, &mut frames), 0x100_0000_0140);
    assert_eq!(heap.current_pages(), 64);
    assert_eq!(
        cells(&heap),
        vec![
            (start, 256, true),
            (start + 0x120, 131072, true),
            (start + 0x140 + 131072, (256 << 10) - 0x140 - 131072 - 32, false),
        ]
    );
}
