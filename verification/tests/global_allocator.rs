use nexos::arch::x86_64::paging::X86MemoryMap;
use nexos::bitmap_allocator::{bitmap_bytes, BitmapAllocator};
use nexos::kernel::global_allocator::{
    KernelHeapAllocator, KERNEL_HEAP_INITIAL_SIZE, KERNEL_HEAP_START_ADDRESS,
};
use std::collections::HashMap;

const REGION_BASE: usize = 0x10_0000;
const REGION_SIZE: usize = 16 * 1024 * 1024;

/// The allocator over a machine whose memory is a table of bytes: every
/// byte written through an address handed out is kept and read back, so two
/// live allocations that overlapped would spoil each other's contents.
struct Kernel {
    allocator: KernelHeapAllocator<'static, X86MemoryMap>,
    memory: HashMap<usize, u8>,
    live: HashMap<usize, usize>,
}

impl Kernel {
    fn boot() -> Kernel {
        let bitmap: &'static mut [u8] =
            Box::leak(vec![0u8; bitmap_bytes(REGION_SIZE)].into_boxed_slice());
        let mut frames = BitmapAllocator::from_mmap(REGION_BASE, REGION_SIZE, bitmap);
        let root = frames.request_page().expect("no frame for the root table");
        let mapper = X86MemoryMap::new(root as u64);
        let allocator =
            KernelHeapAllocator::init_heap(mapper, frames).expect("Failed to initialize heap");
        Kernel { allocator, memory: HashMap::new(), live: HashMap::new() }
    }

    fn take(&mut self, size: usize, align: usize) -> usize {
        let p = self.allocator.allocate(size, align);
        assert!(p != 0);
        assert_eq!(p % 16, 0);
        let start = KERNEL_HEAP_START_ADDRESS as usize;
        let backed = self.allocator.heap_ref().current_pages() * 4096;
        assert!(start < p && p + size <= start + backed);
        for (other, len) in self.live.iter() {
            assert!(p + size <= *other || *other + *len <= p);
        }
        self.live.insert(p, size);
        p
    }

    fn give_back(&mut self, p: usize) {
        assert!(self.live.remove(&p).is_some());
        self.allocator.dealloc(p);
    }

    fn write(&mut self, at: usize, bytes: &[u8]) {
        for (i, b) in bytes.iter().enumerate() {
            self.memory.insert(at + i, *b);
        }
    }

    fn read(&self, at: usize, len: usize) -> Vec<u8> {
        (0..len).map(|i| self.memory[&(at + i)]).collect()
    }

    fn read_u64(&self, at: usize) -> u64 {
        let mut word = [0u8; 8];
        word.copy_from_slice(&self.read(at, 8));
        u64::from_le_bytes(word)
    }

    /// A box: room for the value, with the value in it.
    fn boxed(&mut self, bytes: &[u8], align: usize) -> usize {
        let p = self.take(bytes.len(), align);
        self.write(p, bytes);
        p
    }
}

/// A growing vector of words in the machine's memory. It grows as a vector
/// does on a global allocator: new room, the contents moved, the old room
/// given back.
struct Words {
    ptr: usize,
    cap: usize,
    len: usize,
}

impl Words {
    fn new() -> Words {
        Words { ptr: 0, cap: 0, len: 0 }
    }

    fn push(&mut self, kernel: &mut Kernel, word: u64) {
        if self.len == self.cap {
            let cap = if self.cap == 0 { 4 } else { self.cap * 2 };
            let ptr = kernel.take(cap * 8, 8);
            if self.cap != 0 {
                let old = kernel.read(self.ptr, self.len * 8);
                kernel.write(ptr, &old);
                kernel.give_back(self.ptr);
            }
            self.ptr = ptr;
            self.cap = cap;
        }
        kernel.write(self.ptr + self.len * 8, &word.to_le_bytes());
        self.len += 1;
    }

    fn get(&self, kernel: &Kernel, i: usize) -> u64 {
        assert!(i < self.len);
        kernel.read_u64(self.ptr + i * 8)
    }
}

#[test]
fn global_allocator_alloc_box() {
    let mut kernel = Kernel::boot();
    let boxed_int = kernel.boxed(&42i32.to_le_bytes(), 4);
    assert_eq!(kernel.read(boxed_int, 4), 42i32.to_le_bytes());
    kernel.give_back(boxed_int);
}

#[test]
fn global_allocator_string() {
    let mut kernel = Kernel::boot();
    let text = "Hello, kernel allocator!";
    let test_string = kernel.boxed(text.as_bytes(), 1);
    assert_eq!(
        String::from_utf8(kernel.read(test_string, text.len())).unwrap(),
        "Hello, kernel allocator!"
    );
    kernel.give_back(test_string);
}

#[test]
fn global_allocator_push_one_thousand_elements_into_vector() {
    const SIZE: usize = 1_000;
    let mut kernel = Kernel::boot();
    let mut test_vec = Words::new();
    for i in 0..SIZE {
        test_vec.push(&mut kernel, i as u64);
    }
    assert_eq!(test_vec.len, SIZE);
    for i in 0..SIZE {
        assert_eq!(test_vec.get(&kernel, i), i as u64);
    }
}

#[test]
fn global_allocator_box_with_big_struct() {
    let mut kernel = Kernel::boot();
    let big_struct = kernel.boxed(&[0u8; 1024], 16);
    assert_eq!(big_struct % 16, 0);
    assert_eq!(kernel.read(big_struct, 1024)[512], 0);
    kernel.give_back(big_struct);
}

#[test]
fn global_allocator_allocate_a_lot_of_small_objects() {
    let mut kernel = Kernel::boot();
    let mut small_boxes = Words::new();
    for i in 0..1000 {
        let b = kernel.boxed(&[i as u8], 1);
        small_boxes.push(&mut kernel, b as u64);
    }
    for i in 0..1000 {
        let small_box = small_boxes.get(&kernel, i) as usize;
        assert_eq!(kernel.read(small_box, 1)[0], i as u8);
    }
}

#[test]
fn global_allocator_allocate_and_deallocate_vectors() {
    let mut kernel = Kernel::boot();
    let mut vecs = Words::new();
    for _ in 0..100 {
        let v = kernel.boxed(&[42u8; 512], 1);
        vecs.push(&mut kernel, v as u64);
    }
    for i in 0..100 {
        let v = kernel.read(vecs.get(&kernel, i) as usize, 512);
        assert_eq!(v.len(), 512);
        assert_eq!(v[0], 42);
        assert_eq!(v.iter().map(|b| *b as u32).sum::<u32>(), 512 * 42);
    }
    for i in 0..100 {
        let v = vecs.get(&kernel, i) as usize;
        kernel.give_back(v);
    }
    let ptr = vecs.ptr;
    kernel.give_back(ptr);
    assert!(kernel.live.is_empty());
}

#[test]
fn global_allocator_concat_strings() {
    let mut kernel = Kernel::boot();
    let string1 = kernel.boxed("Kernel".as_bytes(), 1);
    let string2 = kernel.boxed("Allocator".as_bytes(), 1);
    // Appending needs more room than the first string has.
    let grown = kernel.take(15, 1);
    let head = kernel.read(string1, 6);
    kernel.write(grown, &head);
    kernel.give_back(string1);
    let tail = kernel.read(string2, 9);
    kernel.write(grown + 6, &tail);
    assert_eq!(String::from_utf8(kernel.read(grown, 15)).unwrap(), "KernelAllocator");
    assert_eq!(String::from_utf8(kernel.read(string2, 9)).unwrap(), "Allocator");
}

#[test]
fn global_allocator_iterators() {
    let mut kernel = Kernel::boot();
    let values = [1i32, 2, 3, 4, 5];
    let mut bytes = Vec::new();
    for v in values {
        bytes.extend_from_slice(&v.to_le_bytes());
    }
    let vec = kernel.boxed(&bytes, 4);
    let mut sum: i32 = 0;
    for i in 0..5 {
        let mut word = [0u8; 4];
        word.copy_from_slice(&kernel.read(vec + i * 4, 4));
        sum += i32::from_le_bytes(word);
    }
    assert_eq!(sum, 15);
}

#[test]
fn the_kernel_heap_starts_as_one_free_cell_of_one_mebibyte() {
    let kernel = Kernel::boot();
    let heap = kernel.allocator.heap_ref();
    assert_eq!(heap.root_node(), KERNEL_HEAP_START_ADDRESS as usize);
    assert_eq!(heap.current_pages(), 256);
    assert_eq!(heap.maximum_pages(), 1024 * 1024);
    assert_eq!(heap.last_node_address(), heap.root_node());
    let node = heap.node_at(heap.root_node()).unwrap();
    assert_eq!(node.length, KERNEL_HEAP_INITIAL_SIZE as usize - 32);
    assert!(!node.in_use);
    assert_eq!(node.last, None);
    assert_eq!(node.next, None);
}

#[test]
fn the_first_allocation_lies_one_header_behind_the_start() {
    let mut kernel = Kernel::boot();
    let p = kernel.take(1, 1);
    assert_eq!(p, KERNEL_HEAP_START_ADDRESS as usize + 32);
    let q = kernel.take(100, 8);
    // 16 bytes for the first payload, then a header.
    assert_eq!(q, p + 16 + 32);
    let r = kernel.take(1, 1);
    // 128 bytes for the second payload, then a header.
    assert_eq!(r, q + 128 + 32);
}

#[test]
fn a_layout_that_cannot_be_rounded_gets_null() {
    let mut kernel = Kernel::boot();
    assert_eq!(kernel.allocator.allocate(usize::MAX, 1), 0);
    assert_eq!(kernel.allocator.allocate(usize::MAX / 2 + 2, 16), 0);
    let p = kernel.take(64, 8);
    assert_eq!(p, KERNEL_HEAP_START_ADDRESS as usize + 32);
}

#[test]
fn dealloc_of_an_address_that_was_not_handed_out_changes_nothing() {
    let mut kernel = Kernel::boot();
    let p = kernel.take(64, 8);
    kernel.allocator.dealloc(0);
    kernel.allocator.dealloc(p + 16);
    kernel.allocator.dealloc(8);
    let heap = kernel.allocator.heap_ref();
    let node = heap.node_at(heap.root_node()).unwrap();
    assert!(node.in_use);
    assert_eq!(node.length, 64);
}

#[test]
fn the_pages_of_the_heap_are_mapped_to_frames_of_their_own() {
    let mut kernel = Kernel::boot();
    let start = KERNEL_HEAP_START_ADDRESS as usize;
    let mut seen = std::collections::HashSet::new();
    for page in 0..256usize {
        let indices = nexos::arch::x86_64::page_table::get_page_index((start + page * 4096) as u64);
        let entry = kernel.allocator.mapper_ref().get_page(indices).expect("a heap page");
        let frame = entry.address() as usize;
        assert!(seen.insert(frame));
        let index = (frame - kernel.allocator.frames_ref().memory_region_start()) / 4096;
        assert_eq!(kernel.allocator.frames_ref().page_in_use(index), Some(true));
    }
    // The page behind the heap is free for others.
    let behind = start + 256 * 4096;
    assert!(kernel.allocator.map_memory(behind + 4096, 0xb000, Default::default()));
    assert!(!kernel.allocator.map_memory(behind + 4096, 0xc000, Default::default()));
    assert!(kernel.allocator.unmap_memory(behind + 4096));
    assert!(!kernel.allocator.unmap_memory(behind + 4096));
    assert!(!kernel.allocator.map_memory(start, 0xb000, Default::default()));
    // And the heap grows over it when it needs to.
    let p = kernel.take(2 * 1024 * 1024, 8);
    assert!(p > start);
    assert!(kernel.allocator.heap_ref().current_pages() > 256);
}

#[test]
fn the_kernel_heap_is_set_up_exactly_when_its_first_pages_can_be_backed() {
    // 256 pages and three tables need 259 frames beside bitmap and root.
    for (count, set_up) in [(261, true), (260, false)] {
        let length = count * 4096;
        let bitmap: &'static mut [u8] =
            Box::leak(vec![0u8; bitmap_bytes(length)].into_boxed_slice());
        let mut frames = BitmapAllocator::from_mmap(REGION_BASE, length, bitmap);
        let root = frames.request_page().unwrap();
        let mapper = X86MemoryMap::new(root as u64);
        let allocator = KernelHeapAllocator::init_heap(mapper, frames);
        assert_eq!(allocator.is_some(), set_up);
        if let Some(allocator) = allocator {
            let frames = allocator.frames_ref();
            let free = (0..frames.number_of_pages())
                .filter(|i| frames.page_in_use(*i) == Some(false))
                .count();
            assert_eq!(free, 0);
        }
    }
}

#[test]
fn map_memory_succeeds_exactly_when_the_page_is_free_and_the_frames_suffice() {
    let mut kernel = Kernel::boot();
    let free = |kernel: &Kernel| {
        let frames = kernel.allocator.frames_ref();
        (0..frames.number_of_pages()).filter(|i| frames.page_in_use(*i) == Some(false)).count()
    };
    let before = free(&kernel);
    // Far from the heap: three tables are missing.
    assert!(kernel.allocator.map_memory(0x7000_0000_0000, 0xb000, Default::default()));
    assert_eq!(free(&kernel), before - 3);
    // Beside it: none is missing.
    assert!(kernel.allocator.map_memory(0x7000_0000_1000, 0xc000, Default::default()));
    assert_eq!(free(&kernel), before - 3);
    // Mapped already.
    assert!(!kernel.allocator.map_memory(0x7000_0000_0000, 0xd000, Default::default()));
    assert_eq!(free(&kernel), before - 3);
}
