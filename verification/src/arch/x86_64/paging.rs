//! The x86_64 address space behind the architecture-neutral interface.

use crate::arch::x86_64::page_entry::{
    arch_flag_bits, lemma_flags_round_trip, portable_flag_bits, PageEntry, PageTableFlags,
};
use crate::arch::x86_64::page_table::{
    apart, frame_at, frame_free, get_page_index, page_indices, same_path, valid_indices, PageTable, ENTRY_COUNT,
    LEVELS,
};
use crate::bitmap_allocator::{frames_only_freed, BitmapAllocator};
use crate::kernel::memory_map::{MemoryFlags, MemoryMap};
use vstd::prelude::*;

verus! {

/// Number of pages that a 48-bit virtual address can select.
pub const PAGE_KEYS: u64 = 0x10_0000_0000;

/// The indices, level 1 first, of the page with number `key`.
pub open spec fn key_indices(key: int) -> Seq<usize> {
    seq![
        (key % 512) as usize,
        ((key / 512) % 512) as usize,
        ((key / 0x4_0000) % 512) as usize,
        ((key / 0x800_0000) % 512) as usize,
    ]
}

/// The number of the page that the virtual address `virt` lies in: its bits
/// 12 to 47.
pub open spec fn key_of(virt: u64) -> int {
    ((virt >> 12) & 0xf_ffff_ffff) as int
}

proof fn lemma_key_bits(virt: u64)
    by (bit_vector)
    ensures
        (virt >> 12) & 0xf_ffff_ffff < 0x10_0000_0000,
        ((virt >> 12) & 0xf_ffff_ffff) % 512 == (virt >> 12) & 0x1ff,
        (((virt >> 12) & 0xf_ffff_ffff) / 512) % 512 == (virt >> 21) & 0x1ff,
        (((virt >> 12) & 0xf_ffff_ffff) / 0x4_0000) % 512 == (virt >> 30) & 0x1ff,
        (((virt >> 12) & 0xf_ffff_ffff) / 0x800_0000) % 512 == (virt >> 39) & 0x1ff,
{
}

/// The indices of a virtual address are those of the number of its page.
pub proof fn lemma_key_indices(virt: u64)
    ensures
        0 <= key_of(virt) < PAGE_KEYS,
        key_indices(key_of(virt)) == page_indices(virt),
        valid_indices(page_indices(virt)),
{
    lemma_key_bits(virt);
    assert(key_indices(key_of(virt)) =~= page_indices(virt));
}

/// Two pages with different numbers differ in an index at some level.
pub proof fn lemma_keys_part(a: int, b: int)
    requires
        0 <= a < PAGE_KEYS,
        0 <= b < PAGE_KEYS,
        a != b,
    ensures
        valid_indices(key_indices(a)),
        valid_indices(key_indices(b)),
        !same_path(key_indices(a), key_indices(b), LEVELS as nat),
{
    reveal_with_fuel(same_path, 5);
}

/// Whether the virtual address `virt` is one that the processor translates:
/// its bits above bit 47 repeat bit 47.
pub open spec fn canonical(virt: u64) -> bool {
    virt >> 47 == 0 || virt >> 47 == 0x1_ffff
}

/// Whether the virtual address `virt` is one that the processor translates.
pub fn is_canonical_address(virt: u64) -> (yes: bool)
    ensures
        yes == canonical(virt),
{
    virt >> 47 == 0 || virt >> 47 == 0x1_ffff
}

/// Whether the physical address `phys` fits a page entry: no bit above bit 51
/// is set.
pub fn is_physical_address(phys: u64) -> (yes: bool)
    ensures
        yes == (phys >> 52 == 0),
{
    phys >> 52 == 0
}

/// Two addressable addresses with the same page number lie in the same page.
proof fn lemma_canonical_key(a: u64, b: u64)
    by (bit_vector)
    requires
        a >> 47 == 0 || a >> 47 == 0x1_ffff,
        b >> 47 == 0 || b >> 47 == 0x1_ffff,
        (a >> 12) & 0xf_ffff_ffff == (b >> 12) & 0xf_ffff_ffff,
    ensures
        a >> 12 == b >> 12,
{
}

/// An x86_64 address space: the tree of page tables under one table of
/// level 4.
pub struct X86MemoryMap {
    root: PageTable,
}

impl X86MemoryMap {
    /// The table of level 4.
    pub closed spec fn root(&self) -> PageTable {
        self.root
    }

    /// What the walk for the page with number `key` ends at.
    pub open spec fn entry_of(&self, key: int) -> Option<PageEntry> {
        if 0 <= key < PAGE_KEYS {
            self.root().lookup(LEVELS as nat, key_indices(key))
        } else {
            None
        }
    }

    /// The empty address space whose table of level 4 lies in the frame that
    /// contains `root_frame`.
    pub fn new(root_frame: u64) -> (map: Self)
        ensures
            map.wf(),
            map.root().frame() == root_frame & PageEntry::ADDRESS_MASK,
            forall|key: int| (#[trigger] map.translate(key)).is_none(),
    {
        let root = PageTable::new(root_frame);
        let map = X86MemoryMap { root };
        proof {
            assert(root.wf(LEVELS as nat));
            assert forall|key: int| (#[trigger] map.translate(key)).is_none() by {
                if 0 <= key < PAGE_KEYS {
                    assert(valid_indices(key_indices(key)));
                    assert(root.lookup(LEVELS as nat, key_indices(key)).is_none());
                }
            }
        }
        map
    }

    /// The address space under the table `root` of level 4.
    pub fn from_root(root: PageTable) -> (map: Self)
        requires
            root.wf(LEVELS as nat),
        ensures
            map.wf(),
            map.root() == root,
    {
        X86MemoryMap { root }
    }

    /// The table of level 4.
    pub fn root_table(&self) -> (root: &PageTable)
        ensures
            *root == self.root(),
    {
        &self.root
    }

    /// The entry of level 1 that the walk along `indices` ends at, or `None`
    /// where the walk meets an entry that is not present.
    pub fn get_page(&self, indices: [usize; 4]) -> (entry: Option<PageEntry>)
        requires
            self.wf(),
            valid_indices(indices@),
        ensures
            entry == self.root().lookup(LEVELS as nat, indices@),
    {
        self.root.get_page(LEVELS, indices)
    }
}

impl X86MemoryMap {
    /// Gives up every table below the table of level 4 that has no present
    /// entry, from the bottom up, and marks its frame free in `frames`; no
    /// other frame is touched. No translation changes, so nothing needs to be
    /// flushed.
    pub fn clean_up<'a>(&mut self, frames: &mut BitmapAllocator<'a>)
        requires
            old(self).wf(),
            old(frames).wf(),
        ensures
            final(self).wf(),
            final(self).root().frame() == old(self).root().frame(),
            final(self).root().compact(LEVELS as nat),
            frames_only_freed(old(frames), final(frames)),
            forall|i: int|
                0 <= i < ENTRY_COUNT && old(self).root().entries()[i].links() && !(
                #[trigger] final(self).root().entries()[i]).present() ==> frame_free(
                    final(frames),
                    old(self).root().entries()[i].addr(),
                ),
            forall|frame: u64|
                (#[trigger] old(self).root().has_table(LEVELS as nat, frame))
                    && !final(self).root().has_table(LEVELS as nat, frame) ==> frame_free(
                    final(frames),
                    frame,
                ),
            forall|j: int|
                0 <= j < old(frames).pages() && old(frames)@[j] && !(#[trigger] final(frames)@[j])
                    ==> old(self).root().has_table(LEVELS as nat, frame_at(old(frames), j)),
            forall|key: int| final(self).translate(key) == old(self).translate(key),
            forall|indices: Seq<usize>|
                valid_indices(indices) ==> (#[trigger] final(self).root().lookup(
                    LEVELS as nat,
                    indices,
                )) == old(self).root().lookup(LEVELS as nat, indices),
    {
        let _ = self.root.clean_up(LEVELS, frames);
        proof {
            assert forall|key: int| self.translate(key) == old(self).translate(key) by {
                if 0 <= key < PAGE_KEYS {
                    assert(valid_indices(key_indices(key)));
                }
            }
        }
    }
}

impl MemoryMap for X86MemoryMap {
    open spec fn wf(&self) -> bool {
        self.root().wf(LEVELS as nat)
    }

    open spec fn page_key(virt: usize) -> int {
        key_of(virt as u64)
    }

    open spec fn frame_base(phys: usize) -> int {
        ((phys as u64) & PageEntry::ADDRESS_MASK) as int
    }

    /// The bits above bit 47 repeat bit 47.
    open spec fn addressable(virt: usize) -> bool {
        canonical(virt as u64)
    }

    /// No bit above bit 51 is set.
    open spec fn physical(phys: usize) -> bool {
        (phys as u64) >> 52 == 0
    }

    /// The address is addressable, the page is not mapped, and no larger page
    /// lies over it.
    open spec fn mappable(&self, from: usize) -> bool {
        canonical(from as u64) && self.entry_of(key_of(from as u64)).is_none()
            && !self.root().blocked(LEVELS as nat, page_indices(from as u64))
    }

    open spec fn tables_needed(&self, from: usize) -> nat {
        if canonical(from as u64) {
            self.root().missing_tables(LEVELS as nat, page_indices(from as u64))
        } else {
            0
        }
    }

    open spec fn tables_apart(a: usize, b: usize) -> nat {
        apart(page_indices(a as u64), page_indices(b as u64), LEVELS as nat)
    }

    open spec fn translate(&self, key: int) -> Option<(int, u8)> {
        match self.entry_of(key) {
            Some(entry) => Some((entry.addr() as int, portable_flag_bits(entry.flag_bits()))),
            None => None,
        }
    }

    /// The entry written is the base of the frame of `to` with `PRESENT` and
    /// the architectural flags for `flags`, and no other bit. The caller
    /// flushes the entry for `from` from the translation look-aside buffer
    /// when this returns `true`.
    fn map_memory<'a>(
        &mut self,
        from: usize,
        to: usize,
        flags: MemoryFlags,
        frames: &mut BitmapAllocator<'a>,
    ) -> (ok: bool)
        ensures
            ok ==> final(self).entry_of(key_of(from as u64)).is_some() && final(self).entry_of(
                key_of(from as u64),
            ).unwrap()@ == ((to as u64) & PageEntry::ADDRESS_MASK) | arch_flag_bits(flags@),
    {
        if !is_canonical_address(from as u64) || !is_physical_address(to as u64) {
            return false;
        }
        let indices: [usize; 4] = get_page_index(from as u64);
        let arch: PageTableFlags = PageTableFlags::from(flags);
        let leaf = PageEntry::new(to as u64, arch);
        let bits: u8 = flags.bits();
        proof {
            lemma_key_indices(from as u64);
            lemma_flags_round_trip(bits);
            PageTableFlags::lemma_of_bits(arch_flag_bits(bits));
            let w = leaf@;
            let f = arch_flag_bits(bits);
            assert(w & 0x8000_0000_0000_00bfu64 == f && f & 0x1u64 == 0x1u64 ==> w & 0x1u64
                == 0x1u64) by (bit_vector);
        }
        let ok: bool = self.root.map_page(LEVELS, indices, leaf, frames);
        proof {
            if ok {
                assert forall|other: usize|
                    (#[trigger] self.mappable(other)) == (old(self).mappable(other)
                        && Self::page_key(other) != Self::page_key(from)) by {
                    lemma_key_indices(other as u64);
                    if key_of(other as u64) != key_of(from as u64) {
                        lemma_keys_part(key_of(from as u64), key_of(other as u64));
                    }
                }
                assert forall|other: usize|
                    (#[trigger] self.tables_needed(other)) == vstd::math::min(
                        old(self).tables_needed(other) as int,
                        Self::tables_apart(from, other) as int,
                    ) by {
                    lemma_key_indices(other as u64);
                    if !canonical(other as u64) {
                        assert(vstd::math::min(0, Self::tables_apart(from, other) as int) == 0);
                    }
                }
            }
            let mine = key_of(from as u64);
            assert forall|key: int| key != mine implies self.translate(key) == old(self).translate(
                key,
            ) by {
                if 0 <= key < PAGE_KEYS {
                    lemma_keys_part(mine, key);
                }
            }
        }
        ok
    }

    /// The caller flushes the entry for `from` from the translation
    /// look-aside buffer when this returns `true`.
    fn unmap_memory(&mut self, from: usize) -> (ok: bool) {
        if !is_canonical_address(from as u64) {
            return false;
        }
        let indices: [usize; 4] = get_page_index(from as u64);
        proof {
            lemma_key_indices(from as u64);
        }
        let ok: bool = self.root.unmap_page(LEVELS, indices);
        proof {
            let mine = key_of(from as u64);
            assert forall|key: int| key != mine implies self.translate(key) == old(self).translate(
                key,
            ) by {
                if 0 <= key < PAGE_KEYS {
                    lemma_keys_part(mine, key);
                }
            }
        }
        ok
    }

    open spec fn root_register(&self) -> u64 {
        self.root().frame()
    }

    /// The frame of the table of level 4, with no control flag set. Writing
    /// it to the register flushes the whole translation look-aside buffer.
    fn load_memory_map(&self) -> (value: u64) {
        self.root.frame_address()
    }
}

} // verus!
