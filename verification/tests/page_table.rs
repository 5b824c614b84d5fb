use nexos::arch::x86_64::page_entry::{PageEntry, PageTableFlags};
use nexos::arch::x86_64::page_table::{get_page_index, PageTable, ENTRY_COUNT, LEVELS};
use nexos::arch::x86_64::paging::{is_canonical_address, is_physical_address, X86MemoryMap};
use nexos::bitmap_allocator::{bitmap_bytes, BitmapAllocator, PAGE_SIZE};
use nexos::kernel::memory_map::{MemoryFlags, MemoryMap};
use std::collections::HashMap;

const REGION_BASE: usize = 0x10_0000;

fn frames(count: usize) -> BitmapAllocator<'static> {
    let length = count * PAGE_SIZE;
    let bitmap: &'static mut [u8] = Box::leak(vec![0u8; bitmap_bytes(length)].into_boxed_slice());
    BitmapAllocator::from_mmap(REGION_BASE, length, bitmap)
}

fn free_frames(frames: &BitmapAllocator) -> usize {
    (0..frames.number_of_pages()).filter(|i| frames.page_in_use(*i) == Some(false)).count()
}

fn three_mappings(frames: &mut BitmapAllocator<'static>) -> X86MemoryMap {
    let mut map = X86MemoryMap::new(0x1000);
    assert!(map.map_memory(0x1000, 0x5000, MemoryFlags::default(), frames));
    assert!(map.map_memory(0x4000, 0x4040, MemoryFlags::default(), frames));
    assert!(map.map_memory(0x1000 * 512 + 0x4000, 0x70000, MemoryFlags::default(), frames));
    map
}

#[test]
fn get_page_index_takes_nine_bits_per_level() {
    assert_eq!(get_page_index(0x4000), [4, 0, 0, 0]);
    assert_eq!(get_page_index(0x1000 * 52 + 0x50000 * 7), [100, 1, 0, 0]);
    assert_eq!(get_page_index(0), [0, 0, 0, 0]);
    assert_eq!(get_page_index(0xfff), [0, 0, 0, 0]);
    assert_eq!(get_page_index(0x0000_ffff_ffff_ffff), [511, 511, 511, 511]);
    assert_eq!(get_page_index((10 << 39) | (1 << 12)), [1, 0, 0, 10]);
    assert_eq!(get_page_index((3 << 39) | (5 << 30) | (7 << 21) | (9 << 12) | 0x123), [9, 7, 5, 3]);
    // The bits above bit 47 select nothing.
    assert_eq!(get_page_index(0xffff_8000_0000_0000), [0, 0, 0, 256]);
}

#[test]
fn map_then_get_page_gives_the_frame() {
    let mut frames = frames(64);
    let map = three_mappings(&mut frames);
    assert_eq!(map.get_page([1, 0, 0, 0]).unwrap().address(), 0x5000);
    // An entry holds the base of the frame that contains the address.
    assert_eq!(map.get_page([4, 0, 0, 0]).unwrap().address(), 0x4040 & !0xfff);
    assert_eq!(map.get_page([4, 1, 0, 0]).unwrap().address(), 0x70000);
    assert!(map.get_page([2, 0, 0, 0]).is_none());
    assert!(map.get_page([1, 1, 0, 0]).is_none());
    assert!(map.get_page([1, 0, 1, 0]).is_none());
    assert!(map.get_page([1, 0, 0, 1]).is_none());
}

#[test]
fn map_makes_missing_tables_from_fresh_frames() {
    let mut frames = frames(64);
    let free_before = free_frames(&frames);
    let mut map = X86MemoryMap::new(0x1000);
    assert!(map.map_memory(0x1000, 0x5000, MemoryFlags::default(), &mut frames));
    // The tables of level 3, 2 and 1.
    assert_eq!(free_frames(&frames), free_before - 3);
    assert!(map.map_memory(0x4000, 0x4000, MemoryFlags::default(), &mut frames));
    assert_eq!(free_frames(&frames), free_before - 3);
    // Another table of level 1.
    assert!(map.map_memory(0x1000 * 512 + 0x4000, 0x70000, MemoryFlags::default(), &mut frames));
    assert_eq!(free_frames(&frames), free_before - 4);

    let root = map.root_table();
    assert_eq!(root.frame_address(), 0x1000);
    let link = root.entry(0).unwrap();
    assert!(link.is_present());
    assert_eq!(
        link.flags().bits(),
        PageTableFlags::PRESENT | PageTableFlags::WRITABLE | PageTableFlags::USER_ACCESSIBLE
    );
    let level3 = root.table_at(0).unwrap();
    assert_eq!(level3.frame_address(), link.address());
    assert_eq!(link.address(), (REGION_BASE + PAGE_SIZE) as u64);
    assert!(root.table_at(1).is_none());
    assert!(!root.entry(1).unwrap().is_present());
    assert!(root.entry(ENTRY_COUNT).is_none());
    let level2 = level3.table_at(0).unwrap();
    let level1 = level2.table_at(1).unwrap();
    assert_eq!(level1.entry(4).unwrap().address(), 0x70000);
    assert!(level1.table_at(4).is_none());
}

#[test]
fn map_refuses_a_page_that_is_mapped() {
    let mut frames = frames(64);
    let mut map = three_mappings(&mut frames);
    let free_before = free_frames(&frames);
    assert!(!map.map_memory(0x1000, 0x9000, MemoryFlags::default(), &mut frames));
    assert!(!map.map_memory(0x1fff, 0x9000, MemoryFlags::empty(), &mut frames));
    assert_eq!(map.get_page([1, 0, 0, 0]).unwrap().address(), 0x5000);
    assert_eq!(free_frames(&frames), free_before);
}

#[test]
fn map_fails_without_frames_for_tables() {
    // One frame holds the bitmap and one is taken; the two that are left are
    // not enough for three tables.
    let mut frames = frames(4);
    frames.lock_pages(REGION_BASE + 3 * PAGE_SIZE, PAGE_SIZE);
    let mut map = X86MemoryMap::new(0x1000);
    assert!(!map.map_memory(0x1000, 0x5000, MemoryFlags::default(), &mut frames));
    assert!(map.get_page([1, 0, 0, 0]).is_none());
    assert_eq!(free_frames(&frames), 0);
    // The tables made before the failure stay: one more frame is enough now.
    frames.free_pages(REGION_BASE + 3 * PAGE_SIZE, PAGE_SIZE);
    assert!(map.map_memory(0x1000, 0x5000, MemoryFlags::default(), &mut frames));
    assert_eq!(map.get_page([1, 0, 0, 0]).unwrap().address(), 0x5000);
    assert_eq!(free_frames(&frames), 0);
}

#[test]
fn unmap_clears_the_entry_and_frees_nothing() {
    let mut frames = frames(64);
    let mut map = three_mappings(&mut frames);
    let free_before = free_frames(&frames);
    assert!(map.unmap_memory(0x4000));
    assert!(map.get_page([4, 0, 0, 0]).is_none());
    assert!(!map.unmap_memory(0x4000));
    assert!(!map.unmap_memory(0x8000));
    assert!(!map.unmap_memory(0x1000 << 27));
    assert_eq!(map.get_page([1, 0, 0, 0]).unwrap().address(), 0x5000);
    assert_eq!(map.get_page([4, 1, 0, 0]).unwrap().address(), 0x70000);
    assert_eq!(free_frames(&frames), free_before);
    assert!(map.map_memory(0x4000, 0x6000, MemoryFlags::default(), &mut frames));
    assert_eq!(map.get_page([4, 0, 0, 0]).unwrap().address(), 0x6000);
}

#[test]
fn clone_recursive_answers_as_the_tree_it_copied() {
    let mut frames = frames(64);
    let map = three_mappings(&mut frames);
    let free_before = free_frames(&frames);
    let copy = map.root_table().clone_recursive(LEVELS, &mut frames).expect("no frames");
    // One frame for each of the five tables.
    assert_eq!(free_frames(&frames), free_before - 5);
    assert!(copy.frame_address() != map.root_table().frame_address());
    let mut clone = X86MemoryMap::from_root(copy);
    assert_eq!(clone.get_page([1, 0, 0, 0]).unwrap().address(), 0x5000);
    assert_eq!(clone.get_page([4, 0, 0, 0]).unwrap().address(), 0x4040 & !0xfff);
    assert_eq!(clone.get_page([4, 1, 0, 0]).unwrap().address(), 0x70000);
    assert_eq!(clone.get_page([1, 0, 0, 0]), map.get_page([1, 0, 0, 0]));
    assert!(clone.get_page([2, 0, 0, 0]).is_none());
    // The tables of the copy are its own.
    let first_link = map.root_table().entry(0).unwrap();
    let copied_link = clone.root_table().entry(0).unwrap();
    assert!(first_link.address() != copied_link.address());
    assert_eq!(first_link.flags(), copied_link.flags());

    // Changing an entry of level 1 in the copy leaves the tree it came from alone.
    assert!(clone.unmap_memory(0x1000));
    assert!(clone.map_memory(0x1000, 0xa000, MemoryFlags::empty(), &mut frames));
    assert!(clone.map_memory(0x2000, 0xb000, MemoryFlags::empty(), &mut frames));
    assert_eq!(clone.get_page([1, 0, 0, 0]).unwrap().address(), 0xa000);
    assert_eq!(map.get_page([1, 0, 0, 0]).unwrap().address(), 0x5000);
    assert!(map.get_page([2, 0, 0, 0]).is_none());
}

#[test]
fn clone_recursive_fails_without_frames() {
    let mut all = frames(64);
    let map = three_mappings(&mut all);
    while free_frames(&all) > 4 {
        all.request_page().unwrap();
    }
    assert!(map.root_table().clone_recursive(LEVELS, &mut all).is_none());
    assert_eq!(map.get_page([1, 0, 0, 0]).unwrap().address(), 0x5000);
}

#[test]
fn portable_flags_become_architectural_flags() {
    let present = PageTableFlags::PRESENT;
    assert_eq!(PageTableFlags::from(MemoryFlags::empty()).bits(), present);
    assert_eq!(
        PageTableFlags::from(MemoryFlags::default()).bits(),
        present | PageTableFlags::WRITABLE | PageTableFlags::USER_ACCESSIBLE
    );
    let pairs = [
        (MemoryFlags::WRITABLE, PageTableFlags::WRITABLE),
        (MemoryFlags::USER_ACCESSIBLE, PageTableFlags::USER_ACCESSIBLE),
        (MemoryFlags::WRITE_THROUGH, PageTableFlags::WRITE_THROUGH),
        (MemoryFlags::NO_CACHE, PageTableFlags::NO_CACHE),
        (MemoryFlags::NO_EXECUTE, PageTableFlags::NO_EXECUTE),
    ];
    for (portable, arch) in pairs {
        let flags = PageTableFlags::from(MemoryFlags::from_bits_truncate(portable));
        assert_eq!(flags.bits(), present | arch);
        assert!(flags.contains(arch));
    }
    let all = PageTableFlags::from(MemoryFlags::from_bits_truncate(0xff));
    assert_eq!(all.bits(), 0x8000_0000_0000_001f);
    assert!(!all.contains(PageTableFlags::ACCESSED));
    assert!(!all.contains(PageTableFlags::LARGER_PAGES));
}

#[test]
fn memory_flags_are_a_set_of_five() {
    assert_eq!(MemoryFlags::default().bits(), 0b00011);
    assert_eq!(MemoryFlags::empty().bits(), 0);
    assert_eq!(MemoryFlags::from_bits_truncate(0xff).bits(), 0x1f);
    let flags = MemoryFlags::from_bits_truncate(MemoryFlags::WRITABLE)
        .union(MemoryFlags::from_bits_truncate(MemoryFlags::NO_CACHE));
    assert_eq!(flags.bits(), 0b01001);
    assert!(flags.contains(MemoryFlags::WRITABLE));
    assert!(flags.contains(MemoryFlags::NO_CACHE));
    assert!(!flags.contains(MemoryFlags::USER_ACCESSIBLE));
    assert!(!flags.contains(MemoryFlags::WRITABLE | MemoryFlags::NO_EXECUTE));
    assert_eq!(flags, MemoryFlags::from_bits_truncate(0b01001));
}

#[test]
fn a_page_entry_is_flags_around_an_aligned_address() {
    let flags = PageTableFlags::from_bits_truncate(
        PageTableFlags::PRESENT | PageTableFlags::NO_EXECUTE | 0x4000,
    );
    assert_eq!(flags.bits(), 0x8000_0000_0000_0001);
    let entry = PageEntry::new(0x1234_5678, flags);
    assert_eq!(entry.bits(), 0x8000_0000_1234_5001);
    assert_eq!(entry.address(), 0x1234_5000);
    assert_eq!(entry.flags(), flags);
    assert!(entry.is_present());
    let unused = PageEntry::unused();
    assert_eq!(unused.bits(), 0);
    assert!(!unused.is_present());
    let absent = PageEntry::new(0x5000, PageTableFlags::from_bits_truncate(0));
    assert!(!absent.is_present());
    // Address bits above bit 51 are no part of an entry.
    assert_eq!(PageEntry::new(u64::MAX, flags).address(), 0x000f_ffff_ffff_f000);
}

#[test]
fn a_new_table_is_empty() {
    let table = PageTable::new(0x7123);
    assert_eq!(table.frame_address(), 0x7000);
    for i in 0..ENTRY_COUNT {
        assert_eq!(table.entry(i).unwrap().bits(), 0);
        assert!(table.table_at(i).is_none());
    }
    for level in 1..=LEVELS {
        assert!(table.get_page(level, [0, 0, 0, 0]).is_none());
        assert!(table.get_page(level, [511, 511, 511, 511]).is_none());
    }
}

#[test]
fn load_memory_map_gives_the_root_frame() {
    let mut frames = frames(16);
    let map = X86MemoryMap::new(0x7000);
    assert_eq!(map.load_memory_map(), 0x7000);
    let copy = map.root_table().clone_recursive(LEVELS, &mut frames).unwrap();
    let clone = X86MemoryMap::from_root(copy);
    assert_eq!(clone.load_memory_map(), (REGION_BASE + PAGE_SIZE) as u64);
}

#[test]
fn accessing_current_page_table_and_map_memory() {
    const TEST_VALUE: u64 = 0xe55fefabcdef;
    let mut allocator = frames(64);
    let mut mapper = X86MemoryMap::new(allocator.request_page().unwrap() as u64);
    let mut physical_memory: HashMap<u64, u64> = HashMap::new();
    let free_at_first = free_frames(&allocator);

    let real_addr = allocator.request_page().unwrap();
    let page = (10usize << 39) | (1 << 12);
    assert_eq!(get_page_index(page as u64), [1, 0, 0, 10]);
    let flags = MemoryFlags::from_bits_truncate(MemoryFlags::WRITABLE | MemoryFlags::USER_ACCESSIBLE);
    assert!(mapper.map_memory(page, real_addr, flags, &mut allocator));

    // A write through the virtual address lands in the frame it is mapped to.
    let entry = mapper.get_page(get_page_index(page as u64)).unwrap();
    physical_memory.insert(entry.address(), TEST_VALUE);
    assert_eq!(physical_memory[&(real_addr as u64)], TEST_VALUE);
    assert_eq!(
        entry.flags().bits(),
        PageTableFlags::WRITABLE | PageTableFlags::PRESENT | PageTableFlags::USER_ACCESSIBLE
    );

    assert!(mapper.unmap_memory(page));
    assert!(mapper.get_page(get_page_index(page as u64)).is_none());
    allocator.free_pages(real_addr, PAGE_SIZE);
    assert_eq!(allocator.page_in_use((real_addr - REGION_BASE) / PAGE_SIZE), Some(false));
    // Three tables were made for the mapping; the clean-up gives them up.
    assert_eq!(free_frames(&allocator), free_at_first - 3);
    mapper.clean_up(&mut allocator);
    assert_eq!(free_frames(&allocator), free_at_first);
    for i in 0..ENTRY_COUNT {
        assert!(!mapper.root_table().entry(i).unwrap().is_present());
        assert!(mapper.root_table().table_at(i).is_none());
    }
}

#[test]
fn clean_up_keeps_the_tables_that_map_something() {
    let mut frames = frames(64);
    let mut map = three_mappings(&mut frames);
    let free_before = free_frames(&frames);
    map.clean_up(&mut frames);
    assert_eq!(free_frames(&frames), free_before);
    // The second table of level 1 holds one mapping; without it the table
    // goes, and the tables above it stay for the mappings that are left.
    assert!(map.unmap_memory(0x1000 * 512 + 0x4000));
    map.clean_up(&mut frames);
    assert_eq!(free_frames(&frames), free_before + 1);
    assert_eq!(map.get_page([1, 0, 0, 0]).unwrap().address(), 0x5000);
    assert_eq!(map.get_page([4, 0, 0, 0]).unwrap().address(), 0x4000);
    assert!(map.get_page([4, 1, 0, 0]).is_none());
    let level2 = map.root_table().table_at(0).unwrap().table_at(0).unwrap();
    assert!(level2.table_at(0).is_some());
    assert!(level2.table_at(1).is_none());
    assert!(!level2.entry(1).unwrap().is_present());
    assert!(map.unmap_memory(0x1000));
    assert!(map.unmap_memory(0x4000));
    map.clean_up(&mut frames);
    assert_eq!(free_frames(&frames), free_before + 4);
    assert!(map.root_table().table_at(0).is_none());
    // A new mapping builds the tables anew.
    assert!(map.map_memory(0x1000, 0x5000, MemoryFlags::default(), &mut frames));
    assert_eq!(free_frames(&frames), free_before + 1);
}

fn empty_parts() -> (Vec<PageEntry>, Vec<Option<PageTable>>) {
    (vec![PageEntry::unused(); ENTRY_COUNT], (0..ENTRY_COUNT).map(|_| None).collect())
}

fn flags(bits: u64) -> PageTableFlags {
    PageTableFlags::from_bits_truncate(bits)
}

/// A tree with the page at 0x3000 mapped to 0x9000 and a larger page over
/// the second two mebibytes.
fn tree_with_a_larger_page() -> PageTable {
    let link = flags(PageTableFlags::PRESENT | PageTableFlags::WRITABLE);
    let (mut entries, children) = empty_parts();
    entries[3] = PageEntry::new(0x9000, link);
    let level1 = PageTable::from_parts(1, 0x4000, entries, children).unwrap();

    let (mut entries, mut children) = empty_parts();
    entries[0] = PageEntry::new(0x4000, link);
    children[0] = Some(level1);
    entries[1] = PageEntry::new(
        0x20_0000,
        flags(PageTableFlags::PRESENT | PageTableFlags::LARGER_PAGES),
    );
    let level2 = PageTable::from_parts(2, 0x3000, entries, children).unwrap();

    let (mut entries, mut children) = empty_parts();
    entries[0] = PageEntry::new(0x3000, link);
    children[0] = Some(level2);
    let level3 = PageTable::from_parts(3, 0x2000, entries, children).unwrap();

    let (mut entries, mut children) = empty_parts();
    entries[0] = PageEntry::new(0x2000, link);
    children[0] = Some(level3);
    PageTable::from_parts(4, 0x1000, entries, children).unwrap()
}

#[test]
fn the_walks_stop_at_a_larger_page() {
    let mut frames = frames(64);
    let free_before = free_frames(&frames);
    let mut map = X86MemoryMap::from_root(tree_with_a_larger_page());
    assert_eq!(map.get_page([3, 0, 0, 0]).unwrap().address(), 0x9000);
    assert!(map.get_page([0, 1, 0, 0]).is_none());
    assert!(map.get_page([7, 1, 0, 0]).is_none());
    // No page can be mapped or unmapped under the larger page.
    assert!(!map.map_memory(0x20_0000, 0x5000, MemoryFlags::default(), &mut frames));
    assert!(!map.map_memory(0x20_7000, 0x5000, MemoryFlags::default(), &mut frames));
    assert!(!map.unmap_memory(0x20_0000));
    assert_eq!(free_frames(&frames), free_before);
    let entry = map.root_table().table_at(0).unwrap().table_at(0).unwrap().entry(1).unwrap();
    assert!(entry.is_present());
    assert!(entry.is_larger_page());
    assert!(!entry.is_link());
    assert_eq!(entry.address(), 0x20_0000);
    // Beside it pages are mapped as ever.
    assert!(map.map_memory(0x40_0000, 0x5000, MemoryFlags::default(), &mut frames));
    assert_eq!(free_frames(&frames), free_before - 1);
    assert_eq!(map.get_page([0, 2, 0, 0]).unwrap().address(), 0x5000);
}

#[test]
fn clone_and_clean_up_keep_a_larger_page() {
    let mut frames = frames(64);
    let free_before = free_frames(&frames);
    let mut map = X86MemoryMap::from_root(tree_with_a_larger_page());
    let copy = map.root_table().clone_recursive(LEVELS, &mut frames).unwrap();
    assert_eq!(free_frames(&frames), free_before - 4);
    let copied = copy.table_at(0).unwrap().table_at(0).unwrap().entry(1).unwrap();
    assert_eq!(copied.bits(), 0x20_0000 | 0x81);
    assert!(copy.check(LEVELS));

    assert!(map.unmap_memory(0x3000));
    map.clean_up(&mut frames);
    // The table of level 1 goes; the table of level 2 holds the larger page.
    let level2 = map.root_table().table_at(0).unwrap().table_at(0).unwrap();
    assert!(level2.table_at(0).is_none());
    assert!(!level2.entry(0).unwrap().is_present());
    assert_eq!(level2.entry(1).unwrap().bits(), 0x20_0000 | 0x81);
    assert!(map.root_table().check(LEVELS));
}

#[test]
fn from_parts_refuses_what_is_no_table() {
    let link = flags(PageTableFlags::PRESENT);
    let (entries, children) = empty_parts();
    assert!(PageTable::from_parts(1, 0x4000, entries, children).is_some());
    for level in [0, 5] {
        let (entries, children) = empty_parts();
        assert!(PageTable::from_parts(level, 0x4000, entries, children).is_none());
    }
    // A frame that is not aligned.
    let (entries, children) = empty_parts();
    assert!(PageTable::from_parts(1, 0x4008, entries, children).is_none());
    // Too few entries, too few tables.
    let (mut entries, children) = empty_parts();
    entries.pop();
    assert!(PageTable::from_parts(1, 0x4000, entries, children).is_none());
    let (entries, mut children) = empty_parts();
    children.pop();
    assert!(PageTable::from_parts(1, 0x4000, entries, children).is_none());
    // An entry that points to a table, without the table.
    let (mut entries, children) = empty_parts();
    entries[5] = PageEntry::new(0x4000, link);
    assert!(PageTable::from_parts(2, 0x3000, entries, children).is_none());
    // A table without an entry that points to it.
    let (entries, mut children) = empty_parts();
    children[5] = Some(PageTable::new(0x4000));
    assert!(PageTable::from_parts(2, 0x3000, entries, children).is_none());
    // A table in another frame than the entry says.
    let (mut entries, mut children) = empty_parts();
    entries[5] = PageEntry::new(0x4000, link);
    children[5] = Some(PageTable::new(0x5000));
    assert!(PageTable::from_parts(2, 0x3000, entries, children).is_none());
    // A table under a table of level 1.
    let (mut entries, mut children) = empty_parts();
    entries[5] = PageEntry::new(0x4000, link);
    children[5] = Some(PageTable::new(0x4000));
    assert!(PageTable::from_parts(1, 0x3000, entries, children).is_none());
    // A table under a larger page.
    let (mut entries, mut children) = empty_parts();
    entries[5] = PageEntry::new(0x4000, flags(0x81));
    children[5] = Some(PageTable::new(0x4000));
    assert!(PageTable::from_parts(2, 0x3000, entries, children).is_none());
    // What fits.
    let (mut entries, mut children) = empty_parts();
    entries[5] = PageEntry::new(0x4000, link);
    children[5] = Some(PageTable::new(0x4000));
    let table = PageTable::from_parts(2, 0x3000, entries, children).unwrap();
    assert!(table.check(2));
    assert!(!table.check(1));
    assert_eq!(table.table_at(5).unwrap().frame_address(), 0x4000);
    assert_eq!(PageEntry::from_bits(0x4001), table.entry(5).unwrap());
}

#[test]
fn addresses_that_the_processor_does_not_take_are_refused() {
    let mut frames = frames(64);
    let free_before = free_frames(&frames);
    let mut map = X86MemoryMap::new(0x1000);
    // Bit 47 is set and the bits above are not: no such address.
    assert!(!is_canonical_address(0x0000_8000_0000_1000));
    assert!(!is_canonical_address(0x8000_0000_0000_1000));
    assert!(is_canonical_address(0x0000_7fff_ffff_f000));
    assert!(is_canonical_address(0xffff_8000_0000_1000));
    assert!(!map.map_memory(0x0000_8000_0000_1000, 0x5000, MemoryFlags::default(), &mut frames));
    assert!(!map.map_memory(0x0001_0000_0000_1000, 0x5000, MemoryFlags::default(), &mut frames));
    // A physical address above bit 51 fits no entry.
    assert!(!is_physical_address(1 << 52));
    assert!(is_physical_address((1 << 52) - 1));
    assert!(!map.map_memory(0x1000, 1 << 52, MemoryFlags::default(), &mut frames));
    assert_eq!(free_frames(&frames), free_before);
    assert!(map.get_page([1, 0, 0, 0]).is_none());
    // The page that such an address would share its indices with stays.
    assert!(map.map_memory(0x1000, 0x5000, MemoryFlags::default(), &mut frames));
    assert!(!map.unmap_memory(0x0001_0000_0000_1000));
    assert_eq!(map.get_page([1, 0, 0, 0]).unwrap().address(), 0x5000);
    // The upper half is addressable.
    assert!(map.map_memory(0xffff_8000_0000_1000, 0x6000, MemoryFlags::default(), &mut frames));
    assert_eq!(map.get_page([1, 0, 0, 256]).unwrap().address(), 0x6000);
    assert!(map.unmap_memory(0xffff_8000_0000_1000));
}

#[test]
fn the_entry_written_holds_the_frame_and_the_flags_and_nothing_else() {
    let mut frames = frames(64);
    let mut map = X86MemoryMap::new(0x1000);
    assert!(map.map_memory(0x1000, 0x5000, MemoryFlags::default(), &mut frames));
    assert_eq!(map.get_page([1, 0, 0, 0]).unwrap().bits(), 0x5000 | 0x7);
    let flags = MemoryFlags::from_bits_truncate(
        MemoryFlags::NO_EXECUTE | MemoryFlags::NO_CACHE | MemoryFlags::WRITE_THROUGH,
    );
    assert!(map.map_memory(0x1000 * 512 + 0x4000, 0x70123, flags, &mut frames));
    assert_eq!(map.get_page([4, 1, 0, 0]).unwrap().bits(), 0x8000_0000_0007_0000 | 0x19);
}
